//! What holds of every cache: the laws of the operations, stated over the
//! abstract state and proved from its definitions.

use crate::model::{Entry, Sieve};
use vstd::prelude::*;

verus! {

/// The entries that `items` make when they are inserted one after the other,
/// none of them visited.
pub open spec fn fresh<K, V>(items: Seq<(K, V)>) -> Seq<Entry<K, V>> {
    Seq::new(items.len(), |i: int| Entry { key: items[i].0, value: items[i].1, visited: false })
}

/// No key occurs twice in `items`.
pub open spec fn distinct_keys<K, V>(items: Seq<(K, V)>) -> bool {
    forall|i: int, j: int| 0 <= i < j < items.len() ==> (#[trigger] items[i]).0 != (#[trigger] items[j]).0
}

impl<K, V> Sieve<K, V> {
    /// The cache after the `items` were inserted one after the other.
    pub open spec fn insert_all(self, items: Seq<(K, V)>) -> Self
        decreases items.len(),
    {
        if items.len() == 0 {
            self
        } else {
            self.insert_all(items.drop_last()).insert(items.last().0, items.last().1)
        }
    }

    /// A consistent cache holds no more entries than its capacity, and as many
    /// entries as there are keys in it.
    pub proof fn law_len_counts_keys(self)
        requires
            self.wf(),
        ensures
            self.len() <= self.capacity,
            self.contents().dom().finite(),
            self.contents().dom().len() == self.len(),
    {
        let keys = self.keys();
        assert(keys.no_duplicates()) by {
            assert forall|i: int, j: int| 0 <= i < keys.len() && 0 <= j < keys.len() && i != j implies keys[i]
                != keys[j] by {
                if i < j {
                    assert(self.entries[i].key != self.entries[j].key);
                } else {
                    assert(self.entries[j].key != self.entries[i].key);
                }
            }
        }
        assert(self.contents().dom() =~= keys.to_set()) by {
            assert forall|k: K| self.contents().dom().contains(k) <==> keys.to_set().contains(k) by {
                if self.contains(k) {
                    let p = self.position(k);
                    assert(self.has_at(k, p));
                    assert(keys[p] == k);
                }
                if keys.to_set().contains(k) {
                    let p = choose|p: int| 0 <= p < keys.len() && keys[p] == k;
                    assert(self.has_at(k, p));
                }
            }
        }
        keys.unique_seq_to_set();
        vstd::seq_lib::seq_to_set_is_finite(keys);
    }

    /// A read keeps the cache consistent, and keeps every key, every value and
    /// the order of the entries.
    pub proof fn law_touch(self, key: K)
        requires
            self.wf(),
        ensures
            self.touch(key).wf(),
            self.touch(key).keys() == self.keys(),
            self.touch(key).contents() == self.contents(),
            self.touch(key).hand == self.hand,
    {
        let after = self.touch(key);
        assert(after.keys() =~= self.keys());
        after.lemma_same_keys(self);
        assert(after.contents() =~= self.contents()) by {
            assert forall|k: K| self.contains(k) implies after.value(k) == self.value(k) by {
                let p = self.position(k);
                assert(self.has_at(k, p));
                assert(after.has_at(k, p));
                after.lemma_position(k, p);
            }
        }
    }

    /// A value written in place keeps the cache consistent and the entries in
    /// their order, and is the value that is read afterwards.
    pub proof fn law_with_value(self, key: K, value: V)
        requires
            self.wf(),
            self.contains(key),
        ensures
            self.with_value(key, value).wf(),
            self.with_value(key, value).keys() == self.keys(),
            self.with_value(key, value).hand == self.hand,
            self.with_value(key, value).contains(key),
            self.with_value(key, value).value(key) == value,
    {
        let after = self.with_value(key, value);
        let p = self.position(key);
        assert(self.has_at(key, p));
        assert(after.keys() =~= self.keys());
        after.lemma_same_keys(self);
        assert(after.has_at(key, p));
    }

    /// A cache with the keys of a consistent cache, in the same order, is
    /// consistent too, and each key stands where it stands in the other.
    pub proof fn lemma_same_keys(self, other: Self)
        requires
            self.keys() == other.keys(),
            self.capacity == other.capacity,
            other.wf(),
            match self.hand {
                Some(h) => 0 <= h < other.len(),
                None => true,
            },
        ensures
            self.wf(),
            forall|k: K| self.contains(k) <==> other.contains(k),
            forall|k: K| other.contains(k) ==> self.position(k) == other.position(k),
    {
        assert(self.entries.len() == other.entries.len()) by {
            assert(self.keys().len() == self.entries.len());
            assert(other.keys().len() == other.entries.len());
        }
        assert forall|p: int| 0 <= p < self.entries.len() implies (#[trigger] self.entries[p]).key
            == other.entries[p].key by {
            assert(self.keys()[p] == self.entries[p].key);
            assert(other.keys()[p] == other.entries[p].key);
        }
        assert forall|p: int, q: int| 0 <= p < q < self.entries.len() implies (#[trigger] self.entries[p]).key
            != (#[trigger] self.entries[q]).key by {
            assert(other.entries[p].key != other.entries[q].key);
        }
        assert forall|k: K| self.contains(k) <==> other.contains(k) by {
            if self.contains(k) {
                let p = self.position(k);
                assert(self.has_at(k, p));
                assert(other.has_at(k, p));
            }
            if other.contains(k) {
                let p = other.position(k);
                assert(other.has_at(k, p));
                assert(self.has_at(k, p));
            }
        }
        assert forall|k: K| other.contains(k) implies self.position(k) == other.position(k) by {
            let p = other.position(k);
            assert(other.has_at(k, p));
            assert(self.has_at(k, p));
            self.lemma_position(k, p);
        }
    }

    /// When an entry leaves, the cache stays consistent, and the other entries
    /// stay, with their values and in their order.
    pub proof fn law_without(self, p: int)
        requires
            self.wf(),
            0 <= p < self.len(),
        ensures
            self.without(p).wf(),
            self.without(p).len() == self.len() - 1,
            self.without(p).keys() == self.keys().remove(p),
            !self.without(p).contains(self.entries[p].key),
            forall|k: K|
                k != self.entries[p].key ==> (self.without(p).contains(k) <==> self.contains(k)),
            forall|k: K|
                k != self.entries[p].key && self.contains(k) ==> self.without(p).value(k)
                    == self.value(k),
    {
        let after = self.without(p);
        assert forall|q: int| 0 <= q < after.entries.len() implies #[trigger] after.entries[q] == (if q
            < p {
            self.entries[q]
        } else {
            self.entries[q + 1]
        }) by {}
        assert forall|a: int, b: int| 0 <= a < b < after.entries.len() implies (#[trigger] after.entries[a]).key
            != (#[trigger] after.entries[b]).key by {
            let a0 = if a < p {
                a
            } else {
                a + 1
            };
            let b0 = if b < p {
                b
            } else {
                b + 1
            };
            assert(self.entries[a0].key != self.entries[b0].key);
        }
        assert(after.keys() =~= self.keys().remove(p));
        let gone = self.entries[p].key;
        if after.contains(gone) {
            let q = after.position(gone);
            assert(after.has_at(gone, q));
            let q0 = if q < p {
                q
            } else {
                q + 1
            };
            if q0 < p {
                assert(self.entries[q0].key != self.entries[p].key);
            } else {
                assert(self.entries[p].key != self.entries[q0].key);
            }
        }
        assert forall|k: K| k != gone implies (after.contains(k) <==> self.contains(k)) by {
            if after.contains(k) {
                let q = after.position(k);
                assert(after.has_at(k, q));
                let q0 = if q < p {
                    q
                } else {
                    q + 1
                };
                assert(self.has_at(k, q0));
            }
            if self.contains(k) {
                let q0 = self.position(k);
                assert(self.has_at(k, q0));
                let q = if q0 < p {
                    q0
                } else {
                    q0 - 1
                };
                assert(after.has_at(k, q));
            }
        }
        assert forall|k: K| k != gone && self.contains(k) implies after.value(k) == self.value(k) by {
            let q0 = self.position(k);
            assert(self.has_at(k, q0));
            let q = if q0 < p {
                q0
            } else {
                q0 - 1
            };
            assert(after.has_at(k, q));
            after.lemma_position(k, q);
        }
    }

    /// A removal keeps the cache consistent. The key is gone afterwards, and
    /// every other key keeps its value.
    pub proof fn law_remove(self, key: K)
        requires
            self.wf(),
        ensures
            self.remove(key).wf(),
            !self.remove(key).contains(key),
            self.remove(key).contents() == self.contents().remove(key),
            self.remove(key).len() == if self.contains(key) {
                self.len() - 1
            } else {
                self.len() as int
            },
    {
        let after = self.remove(key);
        if self.contains(key) {
            let p = self.position(key);
            assert(self.has_at(key, p));
            self.law_without(p);
        }
        assert(after.contents() =~= self.contents().remove(key));
    }

    /// A scan changes marks only: the entries it has passed keep their keys and
    /// values and their places.
    pub proof fn lemma_swept(self, steps: int)
        requires
            self.wf(),
        ensures
            self.swept(steps).wf(),
            self.swept(steps).keys() == self.keys(),
            self.swept(steps).contents() == self.contents(),
    {
        let after = self.swept(steps);
        assert(after.keys() =~= self.keys());
        after.lemma_same_keys(self);
        assert(after.contents() =~= self.contents()) by {
            assert forall|k: K| self.contains(k) implies after.value(k) == self.value(k) by {
                let p = self.position(k);
                assert(self.has_at(k, p));
            }
        }
    }

    /// An eviction scan keeps the cache consistent. If it finds a victim, that
    /// entry leaves and the others keep their values and their order; if not,
    /// every entry stays. A visited entry is never the victim.
    pub proof fn law_evict(self)
        requires
            self.wf(),
        ensures
            self.evict().wf(),
            self.finds_victim() ==> {
                &&& 0 <= self.victim() < self.len()
                &&& !self.entries[self.victim()].visited
                &&& self.evict().len() == self.len() - 1
                &&& self.evict().keys() == self.keys().remove(self.victim())
                &&& self.evict().contents() == self.contents().remove(
                    self.entries[self.victim()].key,
                )
            },
            !self.finds_victim() ==> {
                &&& self.evict().keys() == self.keys()
                &&& self.evict().contents() == self.contents()
                &&& self.evict().hand == self.hand
            },
    {
        if self.finds_victim() {
            let step = self.victim_step();
            assert(self.stops_after(step));
            let v = self.victim();
            self.lemma_swept(step);
            let swept = self.swept(step);
            let pointed = Sieve { hand: Some(v), ..swept };
            assert(pointed.keys() =~= self.keys());
            pointed.lemma_same_keys(self);
            pointed.law_without(v);
            assert(self.evict() == pointed.without(v));
            assert(pointed.contents() =~= self.contents()) by {
                assert forall|k: K| self.contains(k) implies pointed.value(k) == self.value(k) by {
                    let p = self.position(k);
                    assert(self.has_at(k, p));
                }
            }
            assert(self.evict().contents() =~= self.contents().remove(self.entries[v].key));
        } else {
            self.lemma_swept(self.entries.len() as int);
        }
    }

    /// An insertion keeps the cache consistent: it holds no key twice and no
    /// more entries than its capacity.
    pub proof fn law_insert(self, key: K, value: V)
        requires
            self.wf(),
        ensures
            self.insert(key, value).wf(),
            self.insert_report(key, value).1 ==> self.insert(key, value).contains(key)
                && self.insert(key, value).value(key) == value,
            !self.insert_report(key, value).1 ==> !self.insert(key, value).contains(key),
    {
        let after = self.insert(key, value);
        if self.contains(key) {
            let p = self.position(key);
            assert(self.has_at(key, p));
            assert(after.keys() =~= self.keys());
            after.lemma_same_keys(self);
            assert(after.has_at(key, p));
        } else {
            let room = if self.entries.len() < self.capacity {
                self
            } else {
                self.evict()
            };
            self.law_evict();
            assert(!room.contains(key)) by {
                if room.contains(key) {
                    let p = room.position(key);
                    assert(room.has_at(key, p));
                    assert(room.contents().dom().contains(key));
                    assert(self.contents().dom().contains(key));
                }
            }
            if self.entries.len() < self.capacity || self.finds_victim() {
                room.lemma_append(key, value);
            }
        }
    }

    /// A key that is not in the cache can be appended where there is room.
    pub proof fn lemma_append(self, key: K, value: V)
        requires
            self.wf(),
            !self.contains(key),
            self.len() < self.capacity,
        ensures
            self.append(key, value).wf(),
            self.append(key, value).contains(key),
            self.append(key, value).position(key) == self.len(),
            self.append(key, value).value(key) == value,
            forall|k: K| self.contains(k) ==> self.append(key, value).contains(k) && self.append(
                key,
                value,
            ).value(k) == self.value(k),
    {
        let after = self.append(key, value);
        let n = self.entries.len() as int;
        assert forall|p: int, q: int| 0 <= p < q < after.entries.len() implies (#[trigger] after.entries[p]).key
            != (#[trigger] after.entries[q]).key by {
            if q == n {
                assert(!self.has_at(key, p));
            } else {
                assert(self.entries[p].key != self.entries[q].key);
            }
        }
        assert(after.has_at(key, n));
        after.lemma_position(key, n);
        assert forall|k: K| self.contains(k) implies after.contains(k) && after.value(k) == self.value(
            k,
        ) by {
            let p = self.position(k);
            assert(self.has_at(k, p));
            assert(after.has_at(k, p));
            after.lemma_position(k, p);
        }
    }

    /// An insertion that succeeded, followed by an insertion under the same
    /// key: the second one reports an update, leaves the number of entries as
    /// it is, and its value is the one that is read afterwards.
    pub proof fn law_insert_twice(self, key: K, first: V, second: V)
        requires
            self.wf(),
            self.insert_report(key, first).1,
        ensures
            self.insert(key, first).insert_report(key, second) == (false, true),
            self.insert(key, first).insert(key, second).len() == self.insert(key, first).len(),
            self.insert(key, first).insert(key, second).contains(key),
            self.insert(key, first).insert(key, second).value(key) == second,
    {
        self.law_insert(key, first);
        self.insert(key, first).law_insert(key, second);
    }

    /// An update of a key that is present moves no entry: the keys keep their
    /// order and the hand its place. The entry that the next scan evicts is the
    /// same as before, unless it was the updated entry itself.
    pub proof fn law_update_keeps_order(self, key: K, value: V)
        requires
            self.wf(),
            self.contains(key),
        ensures
            self.insert_report(key, value) == (false, true),
            self.insert(key, value).keys() == self.keys(),
            self.insert(key, value).hand == self.hand,
            forall|p: int|
                0 <= p < self.len() && p != self.position(key) ==> self.insert(key, value).entries[p]
                    == self.entries[p],
            self.finds_victim() && self.victim() != self.position(key) ==> self.insert(
                key,
                value,
            ).finds_victim() && self.insert(key, value).victim() == self.victim(),
    {
        let after = self.insert(key, value);
        let at = self.position(key);
        assert(self.has_at(key, at));
        assert(after.keys() =~= self.keys());
        if self.finds_victim() && self.victim() != at {
            let step = self.victim_step();
            assert(self.stops_after(step));
            assert(after.stops_after(step)) by {
                assert(after.probe(step) == self.probe(step));
                assert forall|i: int| 0 <= i < step implies !after.evictable(#[trigger] after.probe(i)) by {
                    assert(after.probe(i) == self.probe(i));
                    assert(!self.evictable(self.probe(i)));
                }
            }
            after.lemma_victim_step(step);
        }
    }

    /// An entry that was read survives the next eviction scan, and so the next
    /// insertion.
    pub proof fn law_read_shields(self, key: K, new_key: K, new_value: V)
        requires
            self.wf(),
            self.contains(key),
        ensures
            self.touch(key).evict().contains(key),
            self.touch(key).evict().value(key) == self.value(key),
            self.touch(key).insert(new_key, new_value).contains(key),
    {
        let read = self.touch(key);
        let at = self.position(key);
        assert(self.has_at(key, at));
        self.law_touch(key);
        assert(read.has_at(key, at));
        assert(read.contents().dom().contains(key));
        assert(read.contents()[key] == self.contents()[key]);
        read.law_evict();
        if read.finds_victim() {
            assert(read.entries[at].visited);
            assert(read.victim() != at);
            assert(read.entries[read.victim()].key != key) by {
                if read.victim() < at {
                    assert(read.entries[read.victim()].key != read.entries[at].key);
                } else {
                    assert(read.entries[at].key != read.entries[read.victim()].key);
                }
            }
        }
        assert(read.evict().contents().dom().contains(key));
        assert(read.evict().contents()[key] == read.contents()[key]);
        let after = read.insert(new_key, new_value);
        if read.contains(new_key) {
            assert(after.keys() =~= read.keys());
            after.lemma_same_keys(read);
        } else if read.entries.len() < read.capacity {
            read.lemma_append(new_key, new_value);
        } else if read.finds_victim() {
            assert(!read.evict().contains(new_key)) by {
                if read.evict().contains(new_key) {
                    assert(read.evict().contents().dom().contains(new_key));
                    assert(read.contents().dom().contains(new_key));
                }
            }
            read.evict().lemma_append(new_key, new_value);
        }
    }

    /// Where the condition rejects every entry of a full cache, the insertion of
    /// a new key fails: it reports `(false, false)`, and the cache holds the
    /// same keys in the same order, with the same values.
    pub proof fn law_guard_blocks(self, key: K, value: V)
        requires
            self.wf(),
            self.len() == self.capacity,
            !self.contains(key),
            self.guard is Some,
            forall|p: int|
                0 <= p < self.len() ==> !(self.guard->0)(
                    (#[trigger] self.entries[p]).key,
                    self.entries[p].value,
                ),
        ensures
            self.insert_report(key, value) == (false, false),
            self.insert(key, value).len() == self.len(),
            self.insert(key, value).keys() == self.keys(),
            self.insert(key, value).contents() == self.contents(),
    {
        assert forall|i: int| 0 <= i < self.entries.len() implies !self.evictable(
            #[trigger] self.probe(i),
        ) by {
            let p = self.probe(i);
            assert(!(self.guard->0)(self.entries[p].key, self.entries[p].value));
        }
        self.lemma_no_victim();
        self.law_evict();
        assert(self.insert(key, value).keys().len() == self.keys().len());
    }

    /// Without a condition, without reads and updates, the cache evicts in the
    /// order of insertion: when one more key than the capacity is inserted into
    /// an empty cache, the first key is gone and the others are there, in their
    /// order.
    pub proof fn law_fifo(capacity: nat, items: Seq<(K, V)>)
        requires
            capacity >= 1,
            items.len() == capacity + 1,
            distinct_keys(items),
        ensures
            Self::empty(capacity, None).insert_all(items).entries == fresh(items.drop_first()),
            !Self::empty(capacity, None).insert_all(items).contains(items[0].0),
            forall|i: int|
                1 <= i <= capacity ==> Self::empty(capacity, None).insert_all(items).contains(
                    (#[trigger] items[i]).0,
                ),
    {
        let start = Self::empty(capacity, None);
        let filled = start.insert_all(items.drop_last());
        Self::lemma_fill(capacity, items.drop_last());
        let last = items.last();
        assert(items.drop_last().len() == capacity);
        assert(!filled.contains(last.0)) by {
            if filled.contains(last.0) {
                let p = filled.position(last.0);
                assert(filled.has_at(last.0, p));
                assert(items[p].0 != items[capacity as int].0);
                assert(items.drop_last()[p] == items[p]);
            }
        }
        assert(filled.stops_after(0));
        filled.lemma_victim_step(0);
        let after = start.insert_all(items);
        assert(after == filled.insert(last.0, last.1));
        assert(after.entries =~= fresh(items.drop_first())) by {
            assert forall|i: int| 0 <= i < capacity implies #[trigger] after.entries[i] == fresh(
                items.drop_first(),
            )[i] by {
                if i < capacity - 1 {
                    assert(filled.swept(0).entries[i + 1] == filled.entries[i + 1]);
                    assert(items.drop_last()[i + 1] == items[i + 1]);
                }
            }
        }
        if after.contains(items[0].0) {
            let p = after.position(items[0].0);
            assert(after.has_at(items[0].0, p));
            assert(items[0].0 != items[p + 1].0);
        }
        assert forall|i: int| 1 <= i <= capacity implies after.contains((#[trigger] items[i]).0) by {
            assert(after.has_at(items[i].0, i - 1));
        }
    }

    /// As long as there is room, insertions of new keys append, and nothing is
    /// marked or moved.
    proof fn lemma_fill(capacity: nat, items: Seq<(K, V)>)
        requires
            capacity >= 1,
            items.len() <= capacity,
            distinct_keys(items),
        ensures
            Self::empty(capacity, None).insert_all(items) == (Sieve {
                entries: fresh(items),
                hand: None,
                capacity,
                guard: None,
            }),
        decreases items.len(),
    {
        let start = Self::empty(capacity, None);
        if items.len() == 0 {
            assert(start.entries =~= fresh(items));
        } else {
            let before = items.drop_last();
            Self::lemma_fill(capacity, before);
            let filled = start.insert_all(before);
            let last = items.last();
            assert(!filled.contains(last.0)) by {
                if filled.contains(last.0) {
                    let p = filled.position(last.0);
                    assert(filled.has_at(last.0, p));
                    assert(before[p] == items[p]);
                    assert(items[p].0 != items[items.len() - 1].0);
                }
            }
            assert(filled.insert(last.0, last.1).entries =~= fresh(items)) by {
                assert forall|i: int| 0 <= i < items.len() implies #[trigger] filled.insert(
                    last.0,
                    last.1,
                ).entries[i] == fresh(items)[i] by {
                    if i < items.len() - 1 {
                        assert(before[i] == items[i]);
                    }
                }
            }
        }
    }
}

} // verus!
