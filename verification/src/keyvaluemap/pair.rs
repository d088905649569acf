//! The entry that the map keeps at each node of its tree: a key with its
//! value, compared by the key alone.

use vstd::prelude::*;
use vstd::std_specs::cmp::{PartialEqSpec, PartialEqSpecImpl, PartialOrdSpec, PartialOrdSpecImpl};
use core::cmp::Ordering;
use crate::keyvaluemap::order::{less, greater, equivalent, strict_weak_order};

verus! {

/// A key and its value. A pair without a value serves to look a key up.
#[derive(Debug)]
pub struct KeyValuePair<K: PartialOrd + PartialEq, V> {
    pub key: K,
    pub value: Option<V>,
}

impl<K: PartialOrd + PartialEq, V> PartialEq for KeyValuePair<K, V> {
    /// Two pairs are equal where their keys are.
    fn eq(&self, other: &KeyValuePair<K, V>) -> (r: bool) {
        self.key == other.key
    }
}

impl<K: PartialOrd + PartialEq, V> PartialEqSpecImpl for KeyValuePair<K, V> {
    open spec fn obeys_eq_spec() -> bool {
        K::obeys_eq_spec()
    }

    open spec fn eq_spec(&self, other: &KeyValuePair<K, V>) -> bool {
        self.key.eq_spec(&other.key)
    }
}

impl<K: PartialOrd + PartialEq, V> PartialOrd for KeyValuePair<K, V> {
    /// Pairs are ordered as their keys are; the answer is never `None`.
    fn partial_cmp(&self, other: &KeyValuePair<K, V>) -> (r: Option<Ordering>) {
        if self.key == other.key {
            Some(Ordering::Equal)
        } else if self.key < other.key {
            Some(Ordering::Less)
        } else {
            Some(Ordering::Greater)
        }
    }
}

impl<K: PartialOrd + PartialEq, V> PartialOrdSpecImpl for KeyValuePair<K, V> {
    open spec fn obeys_partial_cmp_spec() -> bool {
        K::obeys_eq_spec() && K::obeys_partial_cmp_spec()
    }

    open spec fn partial_cmp_spec(&self, other: &KeyValuePair<K, V>) -> Option<Ordering> {
        if self.key.eq_spec(&other.key) {
            Some(Ordering::Equal)
        } else if less(self.key, other.key) {
            Some(Ordering::Less)
        } else {
            Some(Ordering::Greater)
        }
    }
}

/// What the map asks of its key type: a strict weak order, and an `==` that
/// holds of two keys exactly where neither is less than the other.
pub open spec fn key_order<K: PartialOrd + PartialEq>() -> bool {
    &&& strict_weak_order::<K>()
    &&& K::obeys_eq_spec()
    &&& forall|a: K, b: K| #[trigger] a.eq_spec(&b) <==> equivalent(a, b)
}

/// Over keys that keep `key_order`, pairs are ordered exactly as their keys.
pub proof fn lemma_pair_as_key<K: PartialOrd + PartialEq, V>(a: KeyValuePair<K, V>, b: KeyValuePair<K, V>)
    requires
        key_order::<K>(),
    ensures
        less(a, b) == less(a.key, b.key),
        greater(a, b) == less(b.key, a.key),
        equivalent(a, b) == equivalent(a.key, b.key),
{
    assert(a.key.eq_spec(&b.key) <==> equivalent(a.key, b.key));
    assert(b.key.eq_spec(&a.key) <==> equivalent(b.key, a.key));
    if less(a.key, b.key) {
        crate::keyvaluemap::order::lemma_asymmetric(a.key, b.key);
    }
    if less(b.key, a.key) {
        crate::keyvaluemap::order::lemma_asymmetric(b.key, a.key);
    }
}

/// Over keys that keep `key_order`, the pairs are in a strict weak order.
pub proof fn lemma_pair_order<K: PartialOrd + PartialEq, V>()
    requires
        key_order::<K>(),
    ensures
        strict_weak_order::<KeyValuePair<K, V>>(),
{
    assert forall|a: KeyValuePair<K, V>, b: KeyValuePair<K, V>| #[trigger] greater(a, b) <==> less(b, a) by {
        lemma_pair_as_key(a, b);
        lemma_pair_as_key(b, a);
    }
    assert forall|a: KeyValuePair<K, V>| !#[trigger] less(a, a) by {
        lemma_pair_as_key(a, a);
    }
    assert forall|a: KeyValuePair<K, V>, b: KeyValuePair<K, V>, c: KeyValuePair<K, V>|
        #[trigger] less(a, b) && #[trigger] less(b, c) implies less(a, c) by {
        lemma_pair_as_key(a, b);
        lemma_pair_as_key(b, c);
        lemma_pair_as_key(a, c);
        assert(less(a.key, b.key) && less(b.key, c.key));
    }
    assert forall|a: KeyValuePair<K, V>, b: KeyValuePair<K, V>, c: KeyValuePair<K, V>|
        #[trigger] equivalent(a, b) && #[trigger] equivalent(b, c) implies equivalent(a, c) by {
        lemma_pair_as_key(a, b);
        lemma_pair_as_key(b, c);
        lemma_pair_as_key(a, c);
        assert(equivalent(a.key, b.key) && equivalent(b.key, c.key));
    }
}

} // verus!
