//! Eviction conditions: what a cache asks before it evicts an entry.

use vstd::prelude::*;

verus! {

/// A rule that says which entries a cache may evict.
///
/// Every closure and function of type `Fn(&K, &V) -> bool` is such a rule, and
/// so is [`Unconditional`]. A type of its own that implements this trait can
/// name the entries it allows exactly, which a closure cannot.
pub trait EvictCondition<K, V> {
    /// The rule can be asked about every entry, and gives one answer for each.
    spec fn is_pure(&self) -> bool;

    /// The rule's answer for the entry `(key, value)`.
    spec fn allows(&self, key: K, value: V) -> bool;

    /// Asks the rule whether the entry `(key, value)` may be evicted.
    fn may_evict(&self, key: &K, value: &V) -> (verdict: bool)
        requires
            self.is_pure(),
        ensures
            verdict == self.allows(*key, *value),
    ;
}

/// The rule that allows every eviction. It is the rule of a cache that was made
/// without a condition.
pub struct Unconditional;

impl<K, V> EvictCondition<K, V> for Unconditional {
    open spec fn is_pure(&self) -> bool {
        true
    }

    open spec fn allows(&self, key: K, value: V) -> bool {
        true
    }

    fn may_evict(&self, key: &K, value: &V) -> (verdict: bool) {
        true
    }
}

/// The function `f` can be called on every entry, and no entry gets both answers.
pub open spec fn is_pure_fn<K, V, F: Fn(&K, &V) -> bool>(f: F) -> bool {
    &&& forall|k: K, v: V| call_requires(f, (&k, &v))
    &&& forall|k: K, v: V| !(call_ensures(f, (&k, &v), true) && call_ensures(f, (&k, &v), false))
}

/// The function `f` as a predicate on entries: the entries for which it can
/// return `true`.
pub open spec fn verdict_of<K, V, F: Fn(&K, &V) -> bool>(f: F) -> spec_fn(K, V) -> bool {
    |k: K, v: V| call_ensures(f, (&k, &v), true)
}

impl<K, V, F: Fn(&K, &V) -> bool> EvictCondition<K, V> for F {
    open spec fn is_pure(&self) -> bool {
        is_pure_fn::<K, V, F>(*self)
    }

    open spec fn allows(&self, key: K, value: V) -> bool {
        verdict_of::<K, V, F>(*self)(key, value)
    }

    fn may_evict(&self, key: &K, value: &V) -> (verdict: bool) {
        self(key, value)
    }
}

/// The rule `condition` as a predicate on entries.
pub open spec fn guard_of<K, V, F: EvictCondition<K, V>>(condition: F) -> spec_fn(K, V) -> bool {
    |k: K, v: V| condition.allows(k, v)
}

/// What a closure or function means as a rule: it is pure if it is a pure
/// function, and it allows the entries for which it can return `true`.
pub proof fn lemma_fn_condition<K, V, F: Fn(&K, &V) -> bool>(f: F)
    ensures
        f.is_pure() <==> is_pure_fn::<K, V, F>(f),
        forall|k: K, v: V| #[trigger] f.allows(k, v) <==> call_ensures(f, (&k, &v), true),
        guard_of::<K, V, F>(f) == verdict_of::<K, V, F>(f),
{
    assert(guard_of::<K, V, F>(f) =~= verdict_of::<K, V, F>(f));
}

} // verus!
