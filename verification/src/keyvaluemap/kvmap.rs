//! The ordered key-value map: it owns the root of an AA tree of pairs and
//! counts its entries.

use vstd::prelude::*;
use crate::keyvaluemap::node::{TreeNode, in_order, balanced};
use crate::keyvaluemap::order::{less, greater, equivalent, sorted, holds, removed_at, inserted_at};
use crate::keyvaluemap::pair::{KeyValuePair, key_order, lemma_pair_as_key, lemma_pair_order};
use crate::keyvaluemap::model::{keys_increasing, key_at, has_key, lookup, put, without, lemma_lookup_at,
    lemma_rank_of_inserted, lemma_lookup_before, lemma_lookup_after};
use crate::keyvaluemap::insert::insert;
use crate::keyvaluemap::remove::delete;

verus! {

/// The entry that a pair with a value stands for.
pub open spec fn entry<K: PartialOrd + PartialEq, V>(p: KeyValuePair<K, V>) -> (K, V) {
    (p.key, p.value->0)
}

/// The entries that a sequence of pairs stands for.
pub open spec fn entries<K: PartialOrd + PartialEq, V>(s: Seq<KeyValuePair<K, V>>) -> Seq<(K, V)> {
    s.map_values(|p: KeyValuePair<K, V>| entry(p))
}

/// Every pair of the sequence has a value.
pub open spec fn filled<K: PartialOrd + PartialEq, V>(s: Seq<KeyValuePair<K, V>>) -> bool {
    forall|i: int| 0 <= i < s.len() ==> (#[trigger] s[i]).value is Some
}

/// Pairs that increase strictly stand for entries whose keys do.
pub proof fn lemma_entries_increasing<K: PartialOrd + PartialEq, V>(s: Seq<KeyValuePair<K, V>>)
    requires
        key_order::<K>(),
        sorted(s),
    ensures
        keys_increasing(entries(s)),
{
    let e = entries(s);
    assert forall|i: int, j: int| 0 <= i < j < e.len() implies less(
        (#[trigger] e[i]).0,
        (#[trigger] e[j]).0,
    ) by {
        lemma_pair_as_key(s[i], s[j]);
    }
}

/// A sequence of pairs holds a pair equivalent to `p` exactly where its
/// entries have a key equivalent to that of `p`.
pub proof fn lemma_holds_has_key<K: PartialOrd + PartialEq, V>(s: Seq<KeyValuePair<K, V>>, p: KeyValuePair<K, V>)
    requires
        key_order::<K>(),
    ensures
        holds(s, p) == has_key(entries(s), p.key),
{
    let e = entries(s);
    if holds(s, p) {
        let i = choose|i: int| 0 <= i < s.len() && equivalent(#[trigger] s[i], p);
        lemma_pair_as_key(s[i], p);
        assert(key_at(e, p.key, i));
    }
    if has_key(e, p.key) {
        let i = choose|i: int| key_at(e, p.key, i);
        lemma_pair_as_key(s[i], p);
        assert(equivalent(s[i], p));
    }
}

/// An ordered map from keys to values, kept in an AA tree.
#[derive(Debug)]
pub struct KeyValueMap<K: PartialOrd + PartialEq, V> {
    count: usize,
    root: Option<Box<TreeNode<KeyValuePair<K, V>>>>,
}

impl<K: PartialOrd + PartialEq, V> View for KeyValueMap<K, V> {
    type V = Seq<(K, V)>;

    /// The entries of the map in the order of their keys.
    open spec fn view(&self) -> Seq<(K, V)> {
        entries(in_order(self.tree()))
    }
}

impl<K: PartialOrd + PartialEq, V> KeyValueMap<K, V> {
    /// The tree that the map owns.
    pub closed spec fn tree(&self) -> Option<Box<TreeNode<KeyValuePair<K, V>>>> {
        self.root
    }

    /// The number of entries that the map has counted.
    pub closed spec fn counted(&self) -> usize {
        self.count
    }

    /// The map is well formed: its keys are ordered as `key_order` asks,
    /// its tree keeps the AA rules, the pairs in it increase strictly and
    /// each has a value, and the count is the number of nodes.
    pub open spec fn wf(&self) -> bool {
        &&& key_order::<K>()
        &&& balanced(self.tree())
        &&& sorted(in_order(self.tree()))
        &&& filled(in_order(self.tree()))
        &&& keys_increasing(self@)
        &&& self.counted() == in_order(self.tree()).len()
    }

    /// An empty map.
    pub fn new() -> (res: KeyValueMap<K, V>)
        requires
            key_order::<K>(),
        ensures
            res.wf(),
            res@ == Seq::<(K, V)>::empty(),
    {
        let res = KeyValueMap { count: 0, root: None };
        proof {
            assert(res@ =~= Seq::<(K, V)>::empty());
        }
        res
    }

    /// The number of entries.
    pub fn len(&self) -> (res: usize)
        requires
            self.wf(),
        ensures
            res == self@.len(),
    {
        self.count
    }

    /// The root of the tree, to read.
    pub fn root(&self) -> (res: &Option<Box<TreeNode<KeyValuePair<K, V>>>>)
        ensures
            *res == self.tree(),
    {
        &self.root
    }

    /// Puts `value` in under `key`, unless the map has an entry for the key:
    /// then nothing changes and the old value stays. Returns whether the
    /// entry went in.
    pub fn insert(&mut self, key: K, value: V) -> (res: bool)
        requires
            old(self).wf(),
            old(self)@.len() < usize::MAX,
        ensures
            final(self).wf(),
            res == !has_key(old(self)@, key),
            final(self)@ == put(old(self)@, key, value),
            final(self)@.len() == old(self)@.len() + if res { 1int } else { 0int },
            !res ==> *final(self) == *old(self),
    {
        let mut root = None;
        std::mem::swap(&mut root, &mut self.root);
        let ghost before = in_order(root);
        let ghost pair = KeyValuePair { key, value: Some(value) };
        proof {
            lemma_pair_order::<K, V>();
            lemma_holds_has_key(before, pair);
        }
        let (res, root) = insert(root, KeyValuePair { key, value: Some(value) });
        proof {
            if res {
                let k = choose|k: int| #[trigger] inserted_at(before, in_order(root), k, pair);
                assert(entries(in_order(root)) =~= entries(before).insert(k, (key, value)));
                lemma_entries_increasing(in_order(root));
                lemma_rank_of_inserted(entries(before), key, value, k);
                assert forall|i: int| 0 <= i < in_order(root).len() implies (#[trigger] in_order(
                    root,
                )[i]).value is Some by {
                    if i < k {
                        assert(in_order(root)[i] == before[i]);
                    } else if i > k {
                        assert(in_order(root)[i] == before[i - 1]);
                    }
                }
            }
        }
        self.root = root;
        if res {
            self.count += 1;
        }
        res
    }

    /// Takes the entry for `key` out of the map and returns its value;
    /// returns `None`, and changes nothing, where the map has no such entry.
    pub fn delete(&mut self, key: K) -> (res: Option<V>)
        requires
            old(self).wf(),
        ensures
            final(self).wf(),
            res == lookup(old(self)@, key),
            final(self)@ == without(old(self)@, key),
            final(self)@.len() == old(self)@.len() - if res is Some { 1int } else { 0int },
            res is None ==> *final(self) == *old(self),
    {
        let mut root = None;
        std::mem::swap(&mut root, &mut self.root);
        let ghost before = in_order(root);
        let probe = KeyValuePair { key, value: None };
        proof {
            lemma_pair_order::<K, V>();
            lemma_holds_has_key(before, probe);
        }
        let (root, deleted) = delete(root, &probe);
        self.root = root;
        if let Some(node) = deleted {
            proof {
                let k = choose|k: int| #[trigger] removed_at(before, in_order(root), k, probe, node.value);
                lemma_pair_as_key(before[k], probe);
                assert(key_at(entries(before), key, k));
                lemma_lookup_at(entries(before), key, k);
                assert(entries(in_order(root)) =~= entries(before).remove(k));
                lemma_entries_increasing(in_order(root));
                assert forall|i: int| 0 <= i < in_order(root).len() implies (#[trigger] in_order(
                    root,
                )[i]).value is Some by {
                    if i < k {
                        assert(in_order(root)[i] == before[i]);
                    } else {
                        assert(in_order(root)[i] == before[i + 1]);
                    }
                }
            }
            self.count -= 1;
            node.value.value
        } else {
            None
        }
    }

    /// The value kept under `key`, if there is one.
    pub fn find(&self, key: &K) -> (res: Option<&V>)
        requires
            self.wf(),
        ensures
            match res {
                Some(v) => lookup(self@, *key) == Some(*v),
                None => lookup(self@, *key) is None,
            },
    {
        let mut cursor = &self.root;
        loop
            invariant
                key_order::<K>(),
                filled(in_order(*cursor)),
                keys_increasing(entries(in_order(*cursor))),
                lookup(self@, *key) == lookup(entries(in_order(*cursor)), *key),
            decreases *cursor,
        {
            match cursor {
                None => {
                    proof {
                        assert(!has_key(entries(in_order(*cursor)), *key));
                    }
                    return None;
                },
                Some(t) => {
                    let ghost a = in_order(t.left);
                    let ghost b = in_order(t.right);
                    let ghost whole = entries(in_order(*cursor));
                    proof {
                        assert(whole =~= entries(a).push(entry(t.value)) + entries(b));
                        assert(in_order(*cursor)[a.len() as int] == t.value);
                        assert forall|i: int| 0 <= i < a.len() implies (#[trigger] a[i]).value is Some by {
                            assert(in_order(*cursor)[i] == a[i]);
                        }
                        assert forall|i: int| 0 <= i < b.len() implies (#[trigger] b[i]).value is Some by {
                            assert(in_order(*cursor)[a.len() + 1 + i] == b[i]);
                        }
                    }
                    if *key < t.value.key {
                        proof {
                            assert(less(*key, t.value.key));
                            lemma_lookup_before(entries(a), entry(t.value), entries(b), *key);
                        }
                        cursor = &t.left;
                    } else if *key > t.value.key {
                        proof {
                            assert(greater(*key, t.value.key));
                            lemma_lookup_after(entries(a), entry(t.value), entries(b), *key);
                        }
                        cursor = &t.right;
                    } else {
                        proof {
                            assert(!greater(*key, t.value.key));
                            assert(equivalent(t.value.key, *key));
                            assert(equivalent(*key, t.value.key));
                            assert(whole[a.len() as int] == entry(t.value));
                            assert(key_at(whole, *key, a.len() as int));
                            lemma_lookup_at(whole, *key, a.len() as int);
                        }
                        if *key == t.value.key {
                            return t.value.value.as_ref();
                        } else {
                            return None;
                        }
                    }
                },
            }
        }
    }
}

} // verus!
