//! The abstract state of a SIEVE cache, and what every operation does to it.
//!
//! A cache is seen as a sequence of entries in order of insertion, a hand that
//! remembers where the last eviction scan stopped, a fixed capacity and an
//! optional eviction condition. The executable cache states its contracts over
//! the functions of this module.

use vstd::prelude::*;

verus! {

/// One cached entry.
pub struct Entry<K, V> {
    pub key: K,
    pub value: V,
    /// Set by a read or an update, cleared by a scan that passes the entry.
    pub visited: bool,
}

/// The state of a cache.
#[verifier::reject_recursive_types(K)]
#[verifier::reject_recursive_types(V)]
pub struct Sieve<K, V> {
    /// The entries in order of insertion: the oldest at position 0, the newest last.
    pub entries: Seq<Entry<K, V>>,
    /// The position at which the next scan starts. With `None` it starts at the
    /// oldest entry.
    pub hand: Option<int>,
    /// The largest number of entries the cache holds.
    pub capacity: nat,
    /// The eviction condition: with `Some(g)`, an entry may be evicted only if
    /// `g(key, value)` holds.
    pub guard: Option<spec_fn(K, V) -> bool>,
}

impl<K, V> Sieve<K, V> {
    /// The state is consistent: the capacity is positive and respected, no key
    /// occurs twice, and the hand points at an entry.
    pub open spec fn wf(self) -> bool {
        &&& self.capacity >= 1
        &&& self.entries.len() <= self.capacity
        &&& forall|p: int, q: int|
            0 <= p < q < self.entries.len() ==> (#[trigger] self.entries[p]).key
                != (#[trigger] self.entries[q]).key
        &&& match self.hand {
            Some(h) => 0 <= h < self.entries.len(),
            None => true,
        }
    }

    /// The cache without entries.
    pub open spec fn empty(capacity: nat, guard: Option<spec_fn(K, V) -> bool>) -> Self {
        Sieve { entries: Seq::empty(), hand: None, capacity, guard }
    }

    /// The number of entries.
    pub open spec fn len(self) -> nat {
        self.entries.len()
    }

    /// The keys in order of insertion, oldest first.
    pub open spec fn keys(self) -> Seq<K> {
        Seq::new(self.entries.len(), |p: int| self.entries[p].key)
    }

    /// The entry at position `p` has the key `key`.
    pub open spec fn has_at(self, key: K, p: int) -> bool {
        0 <= p < self.entries.len() && self.entries[p].key == key
    }

    /// Some entry has the key `key`.
    pub open spec fn contains(self, key: K) -> bool {
        exists|p: int| self.has_at(key, p)
    }

    /// The position of the entry with the key `key`.
    pub open spec fn position(self, key: K) -> int
        recommends
            self.contains(key),
    {
        choose|p: int| self.has_at(key, p)
    }

    /// The value stored under `key`.
    pub open spec fn value(self, key: K) -> V
        recommends
            self.contains(key),
    {
        self.entries[self.position(key)].value
    }

    /// The cache as a map from keys to values.
    pub open spec fn contents(self) -> Map<K, V> {
        Map::new(|k: K| self.contains(k), |k: K| self.value(k))
    }

    /// A read of `key`: the entry is marked as visited and stays where it is.
    /// Without such an entry nothing changes.
    pub open spec fn touch(self, key: K) -> Self {
        if self.contains(key) {
            let p = self.position(key);
            Sieve {
                entries: self.entries.update(p, Entry { visited: true, ..self.entries[p] }),
                ..self
            }
        } else {
            self
        }
    }

    /// The entry under `key` gets the value `value` and is marked as visited; it
    /// stays where it is.
    pub open spec fn overwrite(self, key: K, value: V) -> Self
        recommends
            self.contains(key),
    {
        let p = self.position(key);
        Sieve {
            entries: self.entries.update(p, Entry { value, visited: true, ..self.entries[p] }),
            ..self
        }
    }

    /// The value under `key` is replaced and nothing else.
    pub open spec fn with_value(self, key: K, value: V) -> Self
        recommends
            self.contains(key),
    {
        let p = self.position(key);
        Sieve { entries: self.entries.update(p, Entry { value, ..self.entries[p] }), ..self }
    }

    /// A new entry becomes the newest; it is not visited yet.
    pub open spec fn append(self, key: K, value: V) -> Self {
        Sieve { entries: self.entries.push(Entry { key, value, visited: false }), ..self }
    }

    /// The entry at position `p` leaves. A hand that pointed at it moves on to
    /// the next newer entry, which now stands at `p`; if there is none, the hand
    /// is cleared. A hand that pointed elsewhere keeps its entry.
    pub open spec fn without(self, p: int) -> Self
        recommends
            0 <= p < self.entries.len(),
    {
        Sieve {
            entries: self.entries.remove(p),
            hand: match self.hand {
                Some(h) => if h < p {
                    Some(h)
                } else if h > p {
                    Some(h - 1)
                } else if p + 1 < self.entries.len() {
                    Some(p)
                } else {
                    None
                },
                None => None,
            },
            ..self
        }
    }

    /// The cache after `key` was removed. Without such an entry nothing changes.
    pub open spec fn remove(self, key: K) -> Self {
        if self.contains(key) {
            self.without(self.position(key))
        } else {
            self
        }
    }

    /// The position at which a scan starts.
    pub open spec fn start(self) -> int {
        match self.hand {
            Some(h) => h,
            None => 0,
        }
    }

    /// The position a scan looks at after `step` steps: it goes from the start
    /// toward newer entries and from the newest on to the oldest.
    pub open spec fn probe(self, step: int) -> int
        recommends
            0 <= step < self.entries.len(),
    {
        if self.start() + step < self.entries.len() {
            self.start() + step
        } else {
            self.start() + step - self.entries.len()
        }
    }

    /// The number of steps after which a scan looks at position `p`.
    pub open spec fn distance(self, p: int) -> int
        recommends
            0 <= p < self.entries.len(),
    {
        if p >= self.start() {
            p - self.start()
        } else {
            p - self.start() + self.entries.len()
        }
    }

    /// The entry at position `p` may be evicted: it is not visited, and the
    /// condition, if there is one, allows it.
    pub open spec fn evictable(self, p: int) -> bool
        recommends
            0 <= p < self.entries.len(),
    {
        &&& !self.entries[p].visited
        &&& match self.guard {
            Some(g) => g(self.entries[p].key, self.entries[p].value),
            None => true,
        }
    }

    /// A scan stops after `step` steps: the entry it looks at then is the first
    /// on its way that may be evicted.
    pub open spec fn stops_after(self, step: int) -> bool {
        &&& 0 <= step < self.entries.len()
        &&& self.evictable(self.probe(step))
        &&& forall|i: int| 0 <= i < step ==> !self.evictable(#[trigger] self.probe(i))
    }

    /// A scan finds an entry to evict.
    pub open spec fn finds_victim(self) -> bool {
        exists|step: int| self.stops_after(step)
    }

    /// The number of steps after which a scan stops.
    pub open spec fn victim_step(self) -> int
        recommends
            self.finds_victim(),
    {
        choose|step: int| self.stops_after(step)
    }

    /// The position of the entry that a scan evicts.
    pub open spec fn victim(self) -> int
        recommends
            self.finds_victim(),
    {
        self.probe(self.victim_step())
    }

    /// The cache after a scan has passed `steps` entries: each of them is no
    /// longer marked as visited.
    pub open spec fn swept(self, steps: int) -> Self {
        Sieve {
            entries: Seq::new(
                self.entries.len(),
                |p: int|
                    if self.distance(p) < steps {
                        Entry { visited: false, ..self.entries[p] }
                    } else {
                        self.entries[p]
                    },
            ),
            ..self
        }
    }

    /// The cache after an eviction scan. The scan passes the entries that may not
    /// be evicted and clears their marks. The first entry that may be evicted
    /// leaves, and the hand is put on the next newer entry. A scan that has
    /// looked at every entry in vain leaves the hand where it was.
    pub open spec fn evict(self) -> Self {
        if self.finds_victim() {
            Sieve { hand: Some(self.victim()), ..self.swept(self.victim_step()) }.without(
                self.victim(),
            )
        } else {
            self.swept(self.entries.len() as int)
        }
    }

    /// The cache after `insert(key, value)`. A key that is present has its entry
    /// overwritten. A new key is appended, after an eviction if the cache is
    /// full; if nothing can be evicted then, the new entry is dropped.
    pub open spec fn insert(self, key: K, value: V) -> Self {
        if self.contains(key) {
            self.overwrite(key, value)
        } else if self.entries.len() < self.capacity {
            self.append(key, value)
        } else if self.finds_victim() {
            self.evict().append(key, value)
        } else {
            self.evict()
        }
    }

    /// What `insert(key, value)` reports: whether the entry is new, and whether
    /// the value was stored.
    pub open spec fn insert_report(self, key: K, value: V) -> (bool, bool) {
        if self.contains(key) {
            (false, true)
        } else if self.entries.len() < self.capacity || self.finds_victim() {
            (true, true)
        } else {
            (false, false)
        }
    }

    /// In a consistent cache a key stands at one position only.
    pub proof fn lemma_position(self, key: K, p: int)
        requires
            self.wf(),
            self.has_at(key, p),
        ensures
            self.contains(key),
            self.position(key) == p,
    {
        let q = self.position(key);
        assert(self.has_at(key, q));
        if q < p {
            assert(self.entries[q].key != self.entries[p].key);
        } else if p < q {
            assert(self.entries[p].key != self.entries[q].key);
        }
    }

    /// A scan stops at one step only.
    pub proof fn lemma_victim_step(self, step: int)
        requires
            self.stops_after(step),
        ensures
            self.finds_victim(),
            self.victim_step() == step,
            self.victim() == self.probe(step),
    {
        let other = self.victim_step();
        assert(self.stops_after(other));
        if other < step {
            assert(!self.evictable(self.probe(other)));
        } else if step < other {
            assert(!self.evictable(self.probe(step)));
        }
    }

    /// A scan that passes every entry finds nothing to evict.
    pub proof fn lemma_no_victim(self)
        requires
            forall|i: int| 0 <= i < self.entries.len() ==> !self.evictable(#[trigger] self.probe(i)),
        ensures
            !self.finds_victim(),
    {
        if self.finds_victim() {
            let step = self.victim_step();
            assert(self.stops_after(step));
            assert(!self.evictable(self.probe(step)));
        }
    }
}

} // verus!
