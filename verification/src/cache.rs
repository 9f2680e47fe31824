//! The executable cache: an index from keys to slots, the slots linked into a
//! list in order of insertion, and the hand of the eviction scan.

use crate::condition::{guard_of, EvictCondition, Unconditional};
use crate::model::{Entry, Sieve};
use std::collections::HashMap;
use std::hash::Hash;
use vstd::prelude::*;
use vstd::std_specs::hash::obeys_key_model;

verus! {

/// What the cache needs of its keys: equal keys hash alike and compare equal,
/// and a clone of a key is that key.
pub open spec fn key_model<K: Clone>() -> bool {
    &&& obeys_key_model::<K>()
    &&& forall|a: K, b: K| #[trigger] cloned(a, b) ==> a == b
}

/// A slot of the cache: an entry and its neighbours in the list.
struct Node<K, V> {
    key: K,
    value: V,
    /// The slot of the next newer entry.
    prev: Option<usize>,
    /// The slot of the next older entry.
    next: Option<usize>,
    visited: bool,
}

impl<K, V> Node<K, V> {
    fn new(key: K, value: V) -> (node: Self)
        ensures
            node.key == key,
            node.value == value,
            node.prev is None,
            node.next is None,
            !node.visited,
    {
        Node { key, value, prev: None, next: None, visited: false }
    }

    /// The entry that the slot holds.
    spec fn entry(self) -> Entry<K, V> {
        Entry { key: self.key, value: self.value, visited: self.visited }
    }
}

/// A cache of fixed capacity that evicts with the SIEVE algorithm.
///
/// The entries are kept in the order in which they were inserted. A read marks
/// an entry as visited and does not move it. When a new key arrives at a full
/// cache, a scan goes from the hand toward newer entries, clears the marks it
/// passes and evicts the first entry that is not marked and that the eviction
/// condition, if there is one, allows.
pub struct SieveCache<K, V, F = Unconditional> {
    /// The slot of each key.
    index: HashMap<K, usize>,
    /// The slots, in no particular order.
    nodes: Vec<Node<K, V>>,
    /// The slot of the newest entry.
    head: Option<usize>,
    /// The slot of the oldest entry.
    tail: Option<usize>,
    /// The slot at which the next scan starts.
    hand: Option<usize>,
    capacity: usize,
    evict_condition: Option<F>,
    /// The slot of the entry at each position, oldest first.
    order: Ghost<Seq<usize>>,
    /// The position of the entry in each slot.
    place: Ghost<Seq<int>>,
}

impl<K, V, F> SieveCache<K, V, F> {
    /// Slots and positions correspond one to one, but for the slot `hole`, which
    /// has no position.
    spec fn arranged(self, hole: Option<usize>) -> bool {
        let n = self.nodes.len() as int;
        let live = self.order@.len() as int;
        &&& self.place@.len() == n
        &&& match hole {
            Some(s) => s < n && live == n - 1,
            None => live == n,
        }
        &&& forall|s: int|
            0 <= s < n && hole != Some(s as usize) ==> 0 <= #[trigger] self.place@[s] < live
                && self.order@[self.place@[s]] == s
        &&& forall|p: int|
            0 <= p < live ==> (#[trigger] self.order@[p]) < n && hole != Some(self.order@[p])
                && self.place@[self.order@[p] as int] == p
    }

    /// The list goes through the positions: each entry points at the next newer
    /// and the next older one, the head is the newest and the tail the oldest.
    spec fn linked(self) -> bool {
        let live = self.order@.len() as int;
        &&& forall|p: int|
            0 <= p < live ==> (#[trigger] self.nodes[self.order@[p] as int]).prev == (if p + 1
                < live {
                Some(self.order@[p + 1])
            } else {
                None
            })
        &&& forall|p: int|
            0 <= p < live ==> (#[trigger] self.nodes[self.order@[p] as int]).next == (if p > 0 {
                Some(self.order@[p - 1])
            } else {
                None
            })
        &&& self.head == (if live > 0 {
            Some(self.order@[live - 1])
        } else {
            None
        })
        &&& self.tail == (if live > 0 {
            Some(self.order@[0])
        } else {
            None
        })
    }

    /// The index holds the key of every slot but `hole`, and nothing else.
    spec fn indexed(self, hole: Option<usize>) -> bool {
        let n = self.nodes.len() as int;
        &&& forall|s: int|
            0 <= s < n && hole != Some(s as usize) ==> self.index@.contains_key(
                (#[trigger] self.nodes[s]).key,
            ) && self.index@[self.nodes[s].key] == s
        &&& forall|k: K| #[trigger]
            self.index@.contains_key(k) ==> self.index@[k] < n && hole != Some(self.index@[k])
                && self.nodes[self.index@[k] as int].key == k
    }

    /// The entries by position, oldest first.
    spec fn entries(self) -> Seq<Entry<K, V>> {
        Seq::new(self.order@.len(), |p: int| self.nodes[self.order@[p] as int].entry())
    }

    /// The position of the hand.
    spec fn hand_position(self) -> Option<int> {
        match self.hand {
            Some(h) => Some(self.place@[h as int]),
            None => None,
        }
    }
}

impl<K, V, F: EvictCondition<K, V>> SieveCache<K, V, F> {
    /// The eviction condition as a predicate on entries.
    spec fn guard(self) -> Option<spec_fn(K, V) -> bool> {
        match self.evict_condition {
            Some(f) => Some(guard_of::<K, V, F>(f)),
            None => None,
        }
    }
}

impl<K, V, F: EvictCondition<K, V>> View for SieveCache<K, V, F> {
    type V = Sieve<K, V>;

    /// The state of the cache.
    closed spec fn view(&self) -> Sieve<K, V> {
        Sieve {
            entries: self.entries(),
            hand: self.hand_position(),
            capacity: self.capacity as nat,
            guard: self.guard(),
        }
    }
}

impl<K: Eq + Hash + Clone, V, F: EvictCondition<K, V>> SieveCache<K, V, F> {
    /// All but the arrangement of the slots: the keys behave, the condition is a
    /// function, the capacity is positive and the hand points at a slot.
    spec fn sound(self) -> bool {
        &&& key_model::<K>()
        &&& self.capacity >= 1
        &&& match self.evict_condition {
            Some(f) => f.is_pure(),
            None => true,
        }
        &&& match self.hand {
            Some(h) => h < self.nodes.len(),
            None => true,
        }
    }

    /// The cache is consistent. Every constructor gives such a cache and every
    /// operation keeps it so.
    pub closed spec fn wf(self) -> bool {
        &&& self.sound()
        &&& self.nodes.len() <= self.capacity
        &&& self.arranged(None)
        &&& self.linked()
        &&& self.indexed(None)
    }

    /// The state of a consistent cache is consistent: it holds no key twice and
    /// no more entries than its capacity.
    pub proof fn lemma_view_wf(self)
        requires
            self.wf(),
        ensures
            self@.wf(),
    {
        let m = self@;
        assert forall|p: int, q: int| 0 <= p < q < m.entries.len() implies (#[trigger] m.entries[p]).key
            != (#[trigger] m.entries[q]).key by {
            let a = self.order@[p] as int;
            let b = self.order@[q] as int;
            assert(self.place@[a] == p);
            assert(self.place@[b] == q);
            assert(self.index@[self.nodes[a].key] == a);
            assert(self.index@[self.nodes[b].key] == b);
        }
    }

    /// In a consistent cache the index and the state agree: a key is in the
    /// index exactly if the state holds it, and then the index gives the slot of
    /// its entry.
    proof fn lemma_index_agrees(self, key: K)
        requires
            self.wf(),
        ensures
            self@.wf(),
            self.index@.contains_key(key) <==> self@.contains(key),
            self.index@.contains_key(key) ==> {
                let s = self.index@[key] as int;
                &&& 0 <= s < self.nodes.len()
                &&& self.nodes[s].key == key
                &&& self@.position(key) == self.place@[s]
                &&& self.order@[self.place@[s]] == s
                &&& self@.value(key) == self.nodes[s].value
            },
    {
        self.lemma_view_wf();
        let m = self@;
        if self.index@.contains_key(key) {
            let s = self.index@[key] as int;
            let p = self.place@[s];
            assert(self.order@[p] == s);
            assert(m.has_at(key, p));
            m.lemma_position(key, p);
        }
        if m.contains(key) {
            let p = m.position(key);
            assert(m.has_at(key, p));
            let s = self.order@[p] as int;
            assert(self.nodes[s].key == key);
        }
    }
}

impl<K: Eq + Hash + Clone, V> SieveCache<K, V, Unconditional> {
    /// Create a new cache with the given capacity and no eviction condition.
    /// A capacity of zero is refused.
    ///
    /// The keys must be usable in a hash map: see [`key_model`].
    pub fn new(capacity: usize) -> (made: Result<Self, &'static str>)
        requires
            key_model::<K>(),
        ensures
            capacity == 0 <==> made is Err,
            match made {
                Ok(cache) => cache.wf() && cache@ == Sieve::<K, V>::empty(capacity as nat, None),
                Err(reason) => reason@ == "capacity must be greater than 0"@,
            },
    {
        if capacity == 0 {
            return Err("capacity must be greater than 0");
        }
        Ok(Self::build(capacity, None))
    }
}

impl<K: Eq + Hash + Clone, V, F: EvictCondition<K, V>> SieveCache<K, V, F> {
    /// Create a new cache with the given capacity, which evicts an entry only
    /// if `evict_dictator` allows it. A capacity of zero is refused.
    ///
    /// The condition must be a pure function of the entry. It is asked only
    /// about entries that are not visited, once in each scan that comes to them.
    pub fn with_evict_condition(capacity: usize, evict_dictator: F) -> (made: Result<
        Self,
        &'static str,
    >)
        requires
            key_model::<K>(),
            evict_dictator.is_pure(),
        ensures
            capacity == 0 <==> made is Err,
            match made {
                Ok(cache) => cache.wf() && cache@ == Sieve::<K, V>::empty(
                    capacity as nat,
                    Some(guard_of::<K, V, F>(evict_dictator)),
                ),
                Err(reason) => reason@ == "capacity must be greater than 0"@,
            },
    {
        if capacity == 0 {
            return Err("capacity must be greater than 0");
        }
        Ok(Self::build(capacity, Some(evict_dictator)))
    }

    /// Return the capacity of the cache.
    pub fn capacity(&self) -> (capacity: usize)
        requires
            self.wf(),
        ensures
            capacity == self@.capacity,
            capacity >= 1,
    {
        self.capacity
    }

    /// Return the number of cached values.
    pub fn len(&self) -> (len: usize)
        requires
            self.wf(),
        ensures
            len == self@.len(),
            len <= self@.capacity,
    {
        self.nodes.len()
    }

    /// Return `true` when no values are currently cached.
    pub fn is_empty(&self) -> (empty: bool)
        requires
            self.wf(),
        ensures
            empty == (self@.len() == 0),
    {
        self.len() == 0
    }

    /// Return `true` if there is a value in the cache mapped to by `key`.
    /// The cache does not change.
    pub fn contains_key(&mut self, key: &K) -> (found: bool)
        requires
            old(self).wf(),
        ensures
            found == old(self)@.contains(*key),
            *final(self) == *old(self),
    {
        proof {
            self.lemma_index_agrees(*key);
        }
        self.index.contains_key(key)
    }

    /// Get an immutable reference to the value in the cache mapped to by `key`,
    /// and mark the entry as visited.
    ///
    /// If no value exists for `key`, this returns `None`.
    pub fn get(&mut self, key: &K) -> (found: Option<&V>)
        requires
            old(self).wf(),
        ensures
            final(self).wf(),
            final(self)@ == old(self)@.touch(*key),
            match found {
                Some(value) => old(self)@.contains(*key) && *value == old(self)@.value(*key),
                None => !old(self)@.contains(*key),
            },
    {
        proof {
            self.lemma_index_agrees(*key);
        }
        let slot = match self.index.get(key) {
            Some(slot) => *slot,
            None => {
                return None;
            },
        };
        self.nodes[slot].visited = true;
        proof {
            assert(self@.entries =~= old(self)@.touch(*key).entries);
        }
        Some(&self.nodes[slot].value)
    }

    /// Get a mutable reference to the value in the cache mapped to by `key`,
    /// and mark the entry as visited. What the caller writes through the
    /// reference becomes the value of the entry.
    ///
    /// If no value exists for `key`, this returns `None`.
    pub fn get_mut(&mut self, key: &K) -> (found: Option<&mut V>)
        requires
            old(self).wf(),
        ensures
            final(self).wf(),
            match found {
                Some(value) => {
                    &&& old(self)@.contains(*key)
                    &&& *value == old(self)@.value(*key)
                    &&& final(self)@ == old(self)@.touch(*key).with_value(*key, *final(value))
                },
                None => !old(self)@.contains(*key) && final(self)@ == old(self)@,
            },
    {
        proof {
            self.lemma_index_agrees(*key);
        }
        let slot = match self.index.get(key) {
            Some(slot) => *slot,
            None => {
                return None;
            },
        };
        self.nodes[slot].visited = true;
        proof {
            assert(self@.entries =~= old(self)@.touch(*key).entries);
            assert(self.wf());
            self.lemma_index_agrees(*key);
            let touched = *self;
            assert forall|after: Self|
                touched.rewritten(after, slot as int) implies #[trigger] after.wf() && after@
                == touched@.with_value(*key, after.nodes[slot as int].value) by {
                touched.lemma_rewritten(after, slot as int);
            }
        }
        Some(&mut self.nodes[slot].value)
    }

    /// Map `key` to `value` in the cache, possibly evicting old entries.
    ///
    /// This method returns `(true, true)` when this is a new entry, and
    /// `(false, true)` if an existing entry was updated. It returns
    /// `(false, false)` if the cache is full and no entry could be evicted to
    /// make room: the new entry is then dropped.
    pub fn insert(&mut self, key: K, value: V) -> (report: (bool, bool))
        requires
            old(self).wf(),
        ensures
            final(self).wf(),
            final(self)@ == old(self)@.insert(key, value),
            report == old(self)@.insert_report(key, value),
    {
        proof {
            self.lemma_index_agrees(key);
        }
        let known = match self.index.get(&key) {
            Some(slot) => Some(*slot),
            None => None,
        };
        if let Some(slot) = known {
            self.nodes[slot].visited = true;
            self.nodes[slot].value = value;
            proof {
                assert(self@.entries =~= old(self)@.overwrite(key, value).entries);
            }
            return (false, true);
        }
        if self.nodes.len() >= self.capacity {
            if !self.evict() {
                return (false, false);
            }
        }
        let ghost room = *self;
        proof {
            room.lemma_index_agrees(key);
            old(self)@.law_evict();
            assert(!room@.contains(key)) by {
                if room@.contains(key) {
                    assert(room@.contents().dom().contains(key));
                    assert(old(self)@.contents().dom().contains(key));
                }
            }
        }
        let copy = key.clone();
        assert(cloned(key, copy));
        let node = Node::new(copy, value);
        let slot = self.nodes.len();
        self.add_node(node);
        self.index.insert(key, slot);
        proof {
            assert(self.indexed(None));
            assert(self@.entries == room@.append(key, value).entries);
            assert(self@.hand == room@.hand);
        }
        (true, true)
    }

    /// Remove the cache entry mapped to by `key`.
    ///
    /// This method returns the value removed from the cache. If `key` did not
    /// map to any value, then this returns `None`.
    pub fn remove(&mut self, key: &K) -> (removed: Option<V>)
        requires
            old(self).wf(),
        ensures
            final(self).wf(),
            final(self)@ == old(self)@.remove(*key),
            removed == if old(self)@.contains(*key) {
                Some(old(self)@.value(*key))
            } else {
                None
            },
    {
        proof {
            self.lemma_index_agrees(*key);
        }
        let slot = match self.index.get(key) {
            Some(slot) => *slot,
            None => {
                return None;
            },
        };
        let ghost p = self.place@[slot as int];
        assert(self.order@[p] == slot);
        if self.hand == Some(slot) {
            self.hand = self.nodes[slot].prev;
        }
        proof {
            assert(self.wf());
            assert(self@.entries =~= old(self)@.entries);
        }
        let node = self.remove_node(slot);
        proof {
            assert(self@.entries == old(self)@.without(p).entries);
            assert(self@.hand == old(self)@.without(p).hand);
        }
        Some(node.value)
    }
}

/// The slots and their list.
impl<K: Eq + Hash + Clone, V, F: EvictCondition<K, V>> SieveCache<K, V, F> {
    /// The cache without entries.
    fn build(capacity: usize, evict_condition: Option<F>) -> (cache: Self)
        requires
            key_model::<K>(),
            capacity >= 1,
            match evict_condition {
                Some(condition) => condition.is_pure(),
                None => true,
            },
        ensures
            cache.wf(),
            cache@ == Sieve::<K, V>::empty(capacity as nat, cache.guard()),
            cache.evict_condition == evict_condition,
    {
        let cache = SieveCache {
            index: HashMap::with_capacity(capacity),
            nodes: Vec::new(),
            head: None,
            tail: None,
            hand: None,
            capacity,
            evict_condition,
            order: Ghost(Seq::empty()),
            place: Ghost(Seq::empty()),
        };
        assert(cache@.entries =~= Seq::empty());
        cache
    }

    /// The cache `after` is this cache with another value in the slot `slot`
    /// and nothing else changed.
    spec fn rewritten(self, after: Self, slot: int) -> bool {
        &&& after.nodes@ == self.nodes@.update(
            slot,
            Node { value: after.nodes[slot].value, ..self.nodes[slot] },
        )
        &&& after.index == self.index
        &&& after.head == self.head
        &&& after.tail == self.tail
        &&& after.hand == self.hand
        &&& after.capacity == self.capacity
        &&& after.evict_condition == self.evict_condition
        &&& after.order == self.order
        &&& after.place == self.place
    }

    /// Writing a value into a slot keeps the cache consistent and changes the
    /// value of that entry only.
    proof fn lemma_rewritten(self, after: Self, slot: int)
        requires
            self.wf(),
            0 <= slot < self.nodes.len(),
            self.rewritten(after, slot),
        ensures
            after.wf(),
            after@ == self@.with_value(self.nodes[slot].key, after.nodes[slot].value),
    {
        let key = self.nodes[slot].key;
        assert(self.index@[key] == slot);
        self.lemma_index_agrees(key);
        assert(after@.entries =~= self@.with_value(key, after.nodes[slot].value).entries);
    }

    /// Puts `node` into a new slot and links it in as the newest entry. The
    /// index is left as it is.
    fn add_node(&mut self, node: Node<K, V>)
        requires
            old(self).sound(),
            old(self).arranged(None),
            old(self).linked(),
            old(self).nodes.len() < old(self).capacity,
        ensures
            final(self).sound(),
            final(self).arranged(None),
            final(self).linked(),
            final(self).entries() == old(self).entries().push(node.entry()),
            final(self).hand_position() == old(self).hand_position(),
            final(self).index == old(self).index,
            final(self).capacity == old(self).capacity,
            final(self).evict_condition == old(self).evict_condition,
            final(self).nodes.len() == old(self).nodes.len() + 1,
            final(self).nodes[old(self).nodes.len() as int].key == node.key,
            forall|s: int|
                0 <= s < old(self).nodes.len() ==> (#[trigger] final(self).nodes[s]).key == old(
                    self,
                ).nodes[s].key,
    {
        let slot = self.nodes.len();
        let mut node = node;
        node.next = self.head;
        node.prev = None;
        if let Some(head) = self.head {
            self.nodes[head].prev = Some(slot);
        }
        self.nodes.push(node);
        self.head = Some(slot);
        if self.tail.is_none() {
            self.tail = self.head;
        }
        proof {
            self.order@ = self.order@.push(slot);
            self.place@ = self.place@.push(slot as int);
            assert(self.entries() =~= old(self).entries().push(node.entry()));
        }
    }

    /// Takes the slot `slot` out of the list: its neighbours now point at each
    /// other. The slot itself stays in place, without a position.
    fn unlink(&mut self, slot: usize)
        requires
            old(self).sound(),
            old(self).arranged(None),
            old(self).linked(),
            slot < old(self).nodes.len(),
            old(self).hand != Some(slot),
        ensures
            final(self).sound(),
            final(self).arranged(Some(slot)),
            final(self).linked(),
            final(self).entries() == old(self).entries().remove(old(self).place@[slot as int]),
            final(self).hand_position() == match old(self).hand_position() {
                Some(h) => Some(
                    if h > old(self).place@[slot as int] {
                        h - 1
                    } else {
                        h
                    },
                ),
                None => None,
            },
            final(self).index == old(self).index,
            final(self).hand == old(self).hand,
            final(self).capacity == old(self).capacity,
            final(self).evict_condition == old(self).evict_condition,
            final(self).nodes.len() == old(self).nodes.len(),
            forall|s: int|
                0 <= s < old(self).nodes.len() ==> (#[trigger] final(self).nodes[s]).entry() == old(
                    self,
                ).nodes[s].entry(),
    {
        let ghost p = self.place@[slot as int];
        let ghost n = self.nodes.len() as int;
        let prev = self.nodes[slot].prev;
        let next = self.nodes[slot].next;
        assert(self.order@[p] == slot);
        match prev {
            Some(newer) => {
                assert(newer == self.order@[p + 1]);
                self.nodes[newer].next = next;
            },
            None => {
                self.head = next;
            },
        }
        match next {
            Some(older) => {
                assert(older == self.order@[p - 1]);
                self.nodes[older].prev = prev;
            },
            None => {
                self.tail = prev;
            },
        }
        proof {
            let order = old(self).order@;
            let place = old(self).place@;
            self.order@ = order.remove(p);
            self.place@ = Seq::new(
                n as nat,
                |s: int|
                    if place[s] > p {
                        place[s] - 1
                    } else {
                        place[s]
                    },
            );
            assert forall|q: int| 0 <= q < n - 1 implies #[trigger] self.order@[q] == (if q < p {
                order[q]
            } else {
                order[q + 1]
            }) by {}
            assert(self.arranged(Some(slot)));
            assert(self.linked());
            assert(self.entries() =~= old(self).entries().remove(p));
        }
    }

    /// The slot that `link` points at once the last slot has moved to `slot`.
    spec fn redirected(link: Option<usize>, last: usize, slot: usize) -> Option<usize> {
        if link == Some(last) {
            Some(slot)
        } else {
            link
        }
    }

    /// The cache `after` is this cache, in which the slot `slot` has no
    /// position, once the entry of the last slot has moved into that slot.
    spec fn moved_into(self, after: Self, slot: usize) -> bool {
        let last = (self.nodes.len() - 1) as usize;
        let q = self.place@[last as int];
        &&& slot < last
        &&& after.nodes.len() == last
        &&& forall|s: int|
            0 <= s < last ==> {
                let from = self.nodes[if s == slot {
                    last as int
                } else {
                    s
                }];
                &&& (#[trigger] after.nodes[s]).entry() == from.entry()
                &&& after.nodes[s].prev == Self::redirected(from.prev, last, slot)
                &&& after.nodes[s].next == Self::redirected(from.next, last, slot)
            }
        &&& after.head == Self::redirected(self.head, last, slot)
        &&& after.tail == Self::redirected(self.tail, last, slot)
        &&& after.hand == Self::redirected(self.hand, last, slot)
        &&& after.order@ == self.order@.update(q, slot)
        &&& after.place@ == self.place@.update(slot as int, q).drop_last()
    }

    /// Moving the last entry into a slot without a position leaves every entry
    /// at its position and the list in order.
    proof fn lemma_moved_into(self, after: Self, slot: usize)
        requires
            self.arranged(Some(slot)),
            self.linked(),
            self.hand != Some(slot),
            match self.hand {
                Some(h) => h < self.nodes.len(),
                None => true,
            },
            self.moved_into(after, slot),
        ensures
            after.arranged(None),
            after.linked(),
            after.entries() == self.entries(),
            after.hand_position() == self.hand_position(),
    {
        let last = (self.nodes.len() - 1) as usize;
        let q = self.place@[last as int];
        assert(self.order@[q] == last);
        assert(after.arranged(None));
        assert forall|p: int| 0 <= p < after.order@.len() implies (#[trigger] after.nodes[after.order@[p] as int]).prev
            == (if p + 1 < after.order@.len() {
            Some(after.order@[p + 1])
        } else {
            None
        }) by {
            let from = self.order@[p] as int;
            assert(self.place@[from] == p);
            if p + 1 < after.order@.len() {
                assert(self.place@[self.order@[p + 1] as int] == p + 1);
            }
        }
        assert forall|p: int| 0 <= p < after.order@.len() implies (#[trigger] after.nodes[after.order@[p] as int]).next
            == (if p > 0 {
            Some(after.order@[p - 1])
        } else {
            None
        }) by {
            let from = self.order@[p] as int;
            assert(self.place@[from] == p);
            if p > 0 {
                assert(self.place@[self.order@[p - 1] as int] == p - 1);
            }
        }
        assert(after.linked());
        assert forall|p: int| 0 <= p < after.order@.len() implies (#[trigger] after.nodes[after.order@[p] as int]).entry()
            == self.nodes[self.order@[p] as int].entry() by {
            let from = self.order@[p] as int;
            assert(self.place@[from] == p);
        }
        assert(after.entries() =~= self.entries());
    }

    /// Gives up the slot `slot`, which was taken out of the list before: the
    /// entry of the last slot moves into it, and its neighbours and the hand
    /// follow. The index is left as it is.
    fn relocate(&mut self, slot: usize) -> (node: Node<K, V>)
        requires
            old(self).sound(),
            old(self).arranged(Some(slot)),
            old(self).linked(),
            old(self).hand != Some(slot),
        ensures
            final(self).sound(),
            final(self).arranged(None),
            final(self).linked(),
            node == old(self).nodes[slot as int],
            final(self).entries() == old(self).entries(),
            final(self).hand_position() == old(self).hand_position(),
            final(self).index == old(self).index,
            final(self).capacity == old(self).capacity,
            final(self).evict_condition == old(self).evict_condition,
            final(self).nodes.len() == old(self).nodes.len() - 1,
            forall|s: int|
                0 <= s < final(self).nodes.len() ==> (#[trigger] final(self).nodes[s]).key == old(
                    self,
                ).nodes[if s == slot {
                    final(self).nodes.len() as int
                } else {
                    s
                }].key,
    {
        let node = self.nodes.swap_remove(slot);
        let last = self.nodes.len();
        if slot < last {
            let ghost q = self.place@[last as int];
            assert(self.order@[q] == last);
            let prev = self.nodes[slot].prev;
            let next = self.nodes[slot].next;
            match prev {
                Some(newer) => {
                    assert(newer == self.order@[q + 1]);
                    self.nodes[newer].next = Some(slot);
                },
                None => {
                    self.head = Some(slot);
                },
            }
            match next {
                Some(older) => {
                    assert(older == self.order@[q - 1]);
                    self.nodes[older].prev = Some(slot);
                },
                None => {
                    self.tail = Some(slot);
                },
            }
            if self.hand == Some(last) {
                self.hand = Some(slot);
            }
            proof {
                self.order@ = self.order@.update(q, slot);
                self.place@ = self.place@.update(slot as int, q).drop_last();
                assert forall|s: int| 0 <= s < last implies {
                    let from = old(self).nodes[if s == slot {
                        last as int
                    } else {
                        s
                    }];
                    &&& (#[trigger] self.nodes[s]).entry() == from.entry()
                    &&& self.nodes[s].prev == Self::redirected(from.prev, last, slot)
                    &&& self.nodes[s].next == Self::redirected(from.next, last, slot)
                } by {
                    let origin = if s == slot {
                        last as int
                    } else {
                        s
                    };
                    let p = old(self).place@[origin];
                    assert(old(self).order@[p] == origin);
                    if p + 1 < old(self).order@.len() {
                        assert(old(self).place@[old(self).order@[p + 1] as int] == p + 1);
                    }
                    if p > 0 {
                        assert(old(self).place@[old(self).order@[p - 1] as int] == p - 1);
                    }
                }
                assert(old(self).moved_into(*self, slot));
                old(self).lemma_moved_into(*self, slot);
            }
        } else {
            proof {
                self.place@ = self.place@.drop_last();
                assert(self.entries() =~= old(self).entries());
            }
        }
        node
    }

    /// Takes the slot `slot` out of the cache and returns what it held. A hand
    /// on a newer entry keeps its entry.
    fn remove_node(&mut self, slot: usize) -> (node: Node<K, V>)
        requires
            old(self).wf(),
            slot < old(self).nodes.len(),
            old(self).hand != Some(slot),
        ensures
            final(self).wf(),
            node.entry() == old(self).nodes[slot as int].entry(),
            final(self)@ == old(self)@.without(old(self).place@[slot as int]),
    {
        let ghost p = self.place@[slot as int];
        let ghost gone = self.nodes[slot as int].key;
        proof {
            self.lemma_index_agrees(gone);
        }
        self.index.remove(&self.nodes[slot].key);
        assert(self.index@ == old(self).index@.remove(gone));
        assert(self.indexed(Some(slot)));
        self.unlink(slot);
        assert(self.indexed(Some(slot)));
        let node = self.relocate(slot);
        let last = self.nodes.len();
        if slot < last {
            let key = self.nodes[slot].key.clone();
            assert(cloned(self.nodes[slot as int].key, key));
            self.index.insert(key, slot);
        }
        proof {
            assert(self.indexed(None));
            assert(self@.entries == old(self)@.without(p).entries);
            assert(self@.hand == old(self)@.without(p).hand);
        }
        node
    }
}

/// The eviction scan.
impl<K: Eq + Hash + Clone, V, F: EvictCondition<K, V>> SieveCache<K, V, F> {
    /// The cache differs from `before` in the marks of its entries at most.
    spec fn same_but_marks(self, before: Self) -> bool {
        &&& self.index == before.index
        &&& self.head == before.head
        &&& self.tail == before.tail
        &&& self.hand == before.hand
        &&& self.capacity == before.capacity
        &&& self.evict_condition == before.evict_condition
        &&& self.order == before.order
        &&& self.place == before.place
        &&& self.nodes.len() == before.nodes.len()
        &&& forall|s: int|
            0 <= s < self.nodes.len() ==> (#[trigger] self.nodes[s]).key == before.nodes[s].key
                && self.nodes[s].value == before.nodes[s].value && self.nodes[s].prev
                == before.nodes[s].prev && self.nodes[s].next == before.nodes[s].next
    }

    /// Whether the entry in the slot `slot` may be evicted.
    fn is_victim(&self, slot: usize) -> (victim: bool)
        requires
            self.wf(),
            slot < self.nodes.len(),
        ensures
            victim == self@.evictable(self.place@[slot as int]),
    {
        let node = &self.nodes[slot];
        assert(self.order@[self.place@[slot as int]] == slot);
        if node.visited {
            return false;
        }
        match &self.evict_condition {
            Some(condition) => condition.may_evict(&node.key, &node.value),
            None => true,
        }
    }

    /// Looks for an entry to evict, from the hand on, and evicts the first one
    /// that is neither visited nor protected by the condition. Returns `false`
    /// if it has looked at every entry in vain.
    fn evict(&mut self) -> (evicted: bool)
        requires
            old(self).wf(),
            old(self).nodes.len() > 0,
        ensures
            final(self).wf(),
            final(self)@ == old(self)@.evict(),
            evicted == old(self)@.finds_victim(),
    {
        let len = self.nodes.len();
        let ghost before = *self;
        let ghost model = self@;
        let oldest = match self.tail {
            Some(oldest) => oldest,
            None => {
                return false;
            },
        };
        let mut cursor = match self.hand {
            Some(hand) => hand,
            None => oldest,
        };
        let mut visited: usize = 0;
        let mut found = false;
        while visited < len
            invariant_except_break
                !found,
            invariant
                before.wf(),
                model == before@,
                len == before.nodes.len(),
                before.tail == Some(oldest),
                self.wf(),
                self.same_but_marks(before),
                visited <= len,
                cursor < len,
                self.place@[cursor as int] == model.probe(visited as int),
                self@.entries == model.swept(visited as int).entries,
                forall|i: int| 0 <= i < visited ==> !model.evictable(#[trigger] model.probe(i)),
            ensures
                found ==> visited < len && model.stops_after(visited as int),
                !found ==> visited == len,
            decreases len - visited,
        {
            let ghost p = self.place@[cursor as int];
            assert(self.order@[p] == cursor);
            if self.is_victim(cursor) {
                proof {
                    assert(model.distance(p) == visited);
                    assert(self@.entries[p] == model.entries[p]);
                    assert(self@.guard == model.guard);
                }
                found = true;
                break;
            }
            proof {
                assert(model.distance(p) == visited);
                assert(self@.entries[p] == model.entries[p]);
                assert(self@.guard == model.guard);
                assert(!model.evictable(model.probe(visited as int)));
            }
            let ghost marked = *self;
            self.nodes[cursor].visited = false;
            cursor = match self.nodes[cursor].prev {
                Some(newer) => newer,
                None => oldest,
            };
            visited += 1;
            proof {
                assert(self.wf());
                assert(self.place@[cursor as int] == model.probe(visited as int));
                assert forall|q: int| 0 <= q < len implies #[trigger] self@.entries[q]
                    == model.swept(visited as int).entries[q] by {
                    assert(marked@.entries[q] == model.swept(visited - 1).entries[q]);
                    assert(self.place@[self.order@[q] as int] == q);
                }
                assert(self@.entries =~= model.swept(visited as int).entries);
            }
        }
        if !found {
            proof {
                model.lemma_no_victim();
                assert(self@ == model.evict());
            }
            return false;
        }
        proof {
            model.lemma_victim_step(visited as int);
        }
        let ghost p = self.place@[cursor as int];
        assert(self.order@[p] == cursor);
        self.hand = self.nodes[cursor].prev;
        proof {
            assert(self.wf());
            assert(self@.entries =~= model.swept(visited as int).entries);
        }
        self.remove_node(cursor);
        proof {
            assert(self@.entries == model.evict().entries);
            assert(self@.hand == model.evict().hand);
        }
        true
    }
}

} // verus!
