//! The map as mathematics: a sequence of entries whose keys increase
//! strictly, with what it means to look a key up, to put an entry in and to
//! take one out, and the laws that relate the three.

use vstd::prelude::*;
use crate::keyvaluemap::order::{less, equivalent, strict_weak_order, lemma_asymmetric};

verus! {

/// The keys of the entries increase strictly.
pub open spec fn keys_increasing<K: PartialOrd, V>(s: Seq<(K, V)>) -> bool {
    forall|i: int, j: int| 0 <= i < j < s.len() ==> less((#[trigger] s[i]).0, (#[trigger] s[j]).0)
}

/// The entry at `i` has a key equivalent to `key`.
pub open spec fn key_at<K: PartialOrd, V>(s: Seq<(K, V)>, key: K, i: int) -> bool {
    0 <= i < s.len() && equivalent(s[i].0, key)
}

/// Some entry has a key equivalent to `key`.
pub open spec fn has_key<K: PartialOrd, V>(s: Seq<(K, V)>, key: K) -> bool {
    exists|i: int| key_at(s, key, i)
}

/// Where the entry with a key equivalent to `key` stands, if there is one.
pub open spec fn index_of<K: PartialOrd, V>(s: Seq<(K, V)>, key: K) -> int {
    choose|i: int| key_at(s, key, i)
}

/// The value kept under `key`, if there is one.
pub open spec fn lookup<K: PartialOrd, V>(s: Seq<(K, V)>, key: K) -> Option<V> {
    if has_key(s, key) {
        Some(s[index_of(s, key)].1)
    } else {
        None
    }
}

/// All keys before `k` are less than `key`, and all from `k` on are greater.
pub open spec fn is_rank<K: PartialOrd, V>(s: Seq<(K, V)>, key: K, k: int) -> bool {
    &&& 0 <= k <= s.len()
    &&& forall|i: int| 0 <= i < k ==> less((#[trigger] s[i]).0, key)
    &&& forall|i: int| k <= i < s.len() ==> less(key, (#[trigger] s[i]).0)
}

/// The place of a new key among the entries: the number of keys less than it.
pub open spec fn rank<K: PartialOrd, V>(s: Seq<(K, V)>, key: K) -> int {
    choose|k: int| is_rank(s, key, k)
}

/// The entries after `key` was put in with `value`: unchanged where the key
/// is there already, else with the new entry at its place in the order.
pub open spec fn put<K: PartialOrd, V>(s: Seq<(K, V)>, key: K, value: V) -> Seq<(K, V)> {
    if has_key(s, key) {
        s
    } else {
        s.insert(rank(s, key), (key, value))
    }
}

/// The entries after `key` was taken out: without its entry where there is
/// one, else unchanged.
pub open spec fn without<K: PartialOrd, V>(s: Seq<(K, V)>, key: K) -> Seq<(K, V)> {
    if has_key(s, key) {
        s.remove(index_of(s, key))
    } else {
        s
    }
}

/// Among strictly increasing keys at most one is equivalent to a given key.
pub proof fn lemma_key_once<K: PartialOrd, V>(s: Seq<(K, V)>, key: K, i: int, j: int)
    requires
        strict_weak_order::<K>(),
        keys_increasing(s),
        key_at(s, key, i),
        key_at(s, key, j),
    ensures
        i == j,
{
    assert(equivalent(key, s[j].0));
    assert(equivalent(s[i].0, s[j].0));
    if i < j {
        assert(less(s[i].0, s[j].0));
    } else if j < i {
        assert(less(s[j].0, s[i].0));
    }
}

/// Where an entry with an equivalent key stands, there `index_of` points
/// and `lookup` finds its value.
pub proof fn lemma_lookup_at<K: PartialOrd, V>(s: Seq<(K, V)>, key: K, i: int)
    requires
        strict_weak_order::<K>(),
        keys_increasing(s),
        key_at(s, key, i),
    ensures
        has_key(s, key),
        index_of(s, key) == i,
        lookup(s, key) == Some(s[i].1),
{
    lemma_key_once(s, key, i, index_of(s, key));
}

/// A new key has exactly one place among strictly increasing keys.
pub proof fn lemma_rank<K: PartialOrd, V>(s: Seq<(K, V)>, key: K)
    requires
        strict_weak_order::<K>(),
        keys_increasing(s),
        !has_key(s, key),
    ensures
        is_rank(s, key, rank(s, key)),
        forall|k: int| is_rank(s, key, k) ==> k == rank(s, key),
    decreases s.len(),
{
    if s.len() == 0 {
        assert(is_rank(s, key, 0));
    } else {
        let n = s.len() - 1;
        let front = s.drop_last();
        assert forall|i: int, j: int| 0 <= i < j < front.len() implies less(
            (#[trigger] front[i]).0,
            (#[trigger] front[j]).0,
        ) by {
            assert(front[i] == s[i] && front[j] == s[j]);
        }
        if has_key(front, key) {
            let i = choose|i: int| key_at(front, key, i);
            assert(key_at(s, key, i));
        }
        lemma_rank(front, key);
        let k0 = rank(front, key);
        assert(!key_at(s, key, n));
        if less(s[n].0, key) {
            assert forall|i: int| 0 <= i < s.len() implies less((#[trigger] s[i]).0, key) by {
                if i < n {
                    assert(less(s[i].0, s[n].0));
                }
            }
            assert(is_rank(s, key, n + 1));
        } else {
            assert(less(key, s[n].0));
            if k0 == n {
                assert forall|i: int| 0 <= i < n implies less((#[trigger] s[i]).0, key) by {
                    assert(front[i] == s[i]);
                }
            } else {
                assert forall|i: int| 0 <= i < k0 implies less((#[trigger] s[i]).0, key) by {
                    assert(front[i] == s[i]);
                }
                assert forall|i: int| k0 <= i < s.len() implies less(key, (#[trigger] s[i]).0) by {
                    if i < n {
                        assert(front[i] == s[i]);
                    }
                }
            }
            assert(is_rank(s, key, k0));
        }
    }
    let r = rank(s, key);
    assert forall|k: int| is_rank(s, key, k) implies k == r by {
        if k < r {
            assert(less(key, s[k].0));
            assert(less(s[k].0, key));
            lemma_asymmetric(key, s[k].0);
        } else if r < k {
            assert(less(key, s[r].0));
            assert(less(s[r].0, key));
            lemma_asymmetric(key, s[r].0);
        }
    }
}

/// Where a new entry stands in a strictly increasing sequence, there is
/// the rank of its key in the sequence without it.
pub proof fn lemma_rank_of_inserted<K: PartialOrd, V>(s: Seq<(K, V)>, key: K, value: V, k: int)
    requires
        strict_weak_order::<K>(),
        0 <= k <= s.len(),
        keys_increasing(s.insert(k, (key, value))),
    ensures
        keys_increasing(s),
        !has_key(s, key),
        is_rank(s, key, k),
        rank(s, key) == k,
        put(s, key, value) == s.insert(k, (key, value)),
{
    let t = s.insert(k, (key, value));
    assert(t[k] == (key, value));
    assert forall|i: int, j: int| 0 <= i < j < s.len() implies less(
        (#[trigger] s[i]).0,
        (#[trigger] s[j]).0,
    ) by {
        let ti = if i < k { i } else { i + 1 };
        let tj = if j < k { j } else { j + 1 };
        assert(t[ti] == s[i] && t[tj] == s[j]);
    }
    assert forall|i: int| 0 <= i < k implies less((#[trigger] s[i]).0, key) by {
        assert(t[i] == s[i]);
        assert(less(t[i].0, t[k].0));
    }
    assert forall|i: int| k <= i < s.len() implies less(key, (#[trigger] s[i]).0) by {
        assert(t[i + 1] == s[i]);
        assert(less(t[k].0, t[i + 1].0));
    }
    if has_key(s, key) {
        let i = choose|i: int| key_at(s, key, i);
        if i < k {
            lemma_asymmetric(s[i].0, key);
        } else {
            lemma_asymmetric(key, s[i].0);
        }
    }
    lemma_rank(s, key);
}

/// A key less than that of an entry is looked up among the entries before
/// it.
pub proof fn lemma_lookup_before<K: PartialOrd, V>(a: Seq<(K, V)>, e: (K, V), b: Seq<(K, V)>, key: K)
    requires
        strict_weak_order::<K>(),
        keys_increasing(a.push(e) + b),
        less(key, e.0),
    ensures
        keys_increasing(a),
        lookup(a.push(e) + b, key) == lookup(a, key),
{
    let s = a.push(e) + b;
    let n = a.len() as int;
    assert(s[n] == e);
    assert forall|i: int, j: int| 0 <= i < j < a.len() implies less(
        (#[trigger] a[i]).0,
        (#[trigger] a[j]).0,
    ) by {
        assert(s[i] == a[i] && s[j] == a[j]);
    }
    if has_key(a, key) {
        let i = index_of(a, key);
        assert(key_at(a, key, i));
        assert(s[i] == a[i]);
        assert(key_at(s, key, i));
        lemma_lookup_at(s, key, i);
    } else if has_key(s, key) {
        let i = index_of(s, key);
        assert(key_at(s, key, i));
        if i >= n {
            if i > n {
                assert(less(s[n].0, s[i].0));
            }
            lemma_asymmetric(key, s[i].0);
        } else {
            assert(s[i] == a[i]);
            assert(key_at(a, key, i));
        }
    }
}

/// A key greater than that of an entry is looked up among the entries
/// after it.
pub proof fn lemma_lookup_after<K: PartialOrd, V>(a: Seq<(K, V)>, e: (K, V), b: Seq<(K, V)>, key: K)
    requires
        strict_weak_order::<K>(),
        keys_increasing(a.push(e) + b),
        less(e.0, key),
    ensures
        keys_increasing(b),
        lookup(a.push(e) + b, key) == lookup(b, key),
{
    let s = a.push(e) + b;
    let n = a.len() as int;
    assert(s[n] == e);
    assert forall|i: int, j: int| 0 <= i < j < b.len() implies less(
        (#[trigger] b[i]).0,
        (#[trigger] b[j]).0,
    ) by {
        assert(s[n + 1 + i] == b[i] && s[n + 1 + j] == b[j]);
    }
    if has_key(b, key) {
        let i = index_of(b, key);
        assert(key_at(b, key, i));
        assert(s[n + 1 + i] == b[i]);
        assert(key_at(s, key, n + 1 + i));
        lemma_lookup_at(s, key, n + 1 + i);
    } else if has_key(s, key) {
        let i = index_of(s, key);
        assert(key_at(s, key, i));
        if i <= n {
            if i < n {
                assert(less(s[i].0, s[n].0));
            }
            lemma_asymmetric(s[i].0, key);
        } else {
            assert(s[i] == b[i - n - 1]);
            assert(key_at(b, key, i - n - 1));
        }
    }
}

/// Putting an entry in keeps the keys strictly increasing, and adds one
/// entry exactly where the key is new.
pub proof fn lemma_put_increasing<K: PartialOrd, V>(s: Seq<(K, V)>, key: K, value: V)
    requires
        strict_weak_order::<K>(),
        keys_increasing(s),
    ensures
        keys_increasing(put(s, key, value)),
        put(s, key, value).len() == s.len() + if has_key(s, key) { 0int } else { 1int },
{
    if !has_key(s, key) {
        lemma_rank(s, key);
        let r = rank(s, key);
        let t = s.insert(r, (key, value));
        assert forall|i: int, j: int| 0 <= i < j < t.len() implies less(
            (#[trigger] t[i]).0,
            (#[trigger] t[j]).0,
        ) by {
            let si = if i < r { i } else { i - 1 };
            let sj = if j < r { j } else { j - 1 };
            if i == r {
                assert(t[j] == s[sj]);
            } else if j == r {
                assert(t[i] == s[si]);
            } else {
                assert(t[i] == s[si] && t[j] == s[sj]);
            }
        }
    }
}

/// Taking an entry out keeps the keys strictly increasing, and removes one
/// entry exactly where the key was there.
pub proof fn lemma_without_increasing<K: PartialOrd, V>(s: Seq<(K, V)>, key: K)
    requires
        keys_increasing(s),
    ensures
        keys_increasing(without(s, key)),
        without(s, key).len() == s.len() - if has_key(s, key) { 1int } else { 0int },
{
    if has_key(s, key) {
        let k = index_of(s, key);
        assert(key_at(s, key, k));
        let t = s.remove(k);
        assert forall|i: int, j: int| 0 <= i < j < t.len() implies less(
            (#[trigger] t[i]).0,
            (#[trigger] t[j]).0,
        ) by {
            let si = if i < k { i } else { i + 1 };
            let sj = if j < k { j } else { j + 1 };
            assert(t[i] == s[si] && t[j] == s[sj]);
        }
    }
}

/// After `key` was put in, a key equivalent to it finds the value that is
/// kept under it: the new one where the key was new, else the old one.
/// Every other key finds what it found before.
pub proof fn lemma_lookup_put<K: PartialOrd, V>(s: Seq<(K, V)>, key: K, value: V, other: K)
    requires
        strict_weak_order::<K>(),
        keys_increasing(s),
    ensures
        lookup(put(s, key, value), other) == if equivalent(key, other) && !has_key(s, key) {
            Some(value)
        } else {
            lookup(s, other)
        },
{
    if !has_key(s, key) {
        lemma_rank(s, key);
        lemma_put_increasing(s, key, value);
        let r = rank(s, key);
        let t = s.insert(r, (key, value));
        assert(t[r] == (key, value));
        if equivalent(key, other) {
            assert(key_at(t, other, r));
            lemma_lookup_at(t, other, r);
        } else if has_key(s, other) {
            let i = index_of(s, other);
            assert(key_at(s, other, i));
            let ti = if i < r { i } else { i + 1 };
            assert(t[ti] == s[i]);
            assert(key_at(t, other, ti));
            lemma_lookup_at(t, other, ti);
        } else if has_key(t, other) {
            let j = index_of(t, other);
            assert(key_at(t, other, j));
            let sj = if j < r { j } else { j - 1 };
            assert(t[j] == s[sj]);
            assert(key_at(s, other, sj));
        }
    }
}

/// After `key` was taken out, a key equivalent to it finds nothing, and
/// every other key finds what it found before.
pub proof fn lemma_lookup_without<K: PartialOrd, V>(s: Seq<(K, V)>, key: K, other: K)
    requires
        strict_weak_order::<K>(),
        keys_increasing(s),
    ensures
        lookup(without(s, key), other) == if equivalent(key, other) {
            None
        } else {
            lookup(s, other)
        },
{
    if has_key(s, key) {
        lemma_without_increasing(s, key);
        let k = index_of(s, key);
        assert(key_at(s, key, k));
        let t = s.remove(k);
        if has_key(t, other) {
            let j = index_of(t, other);
            assert(key_at(t, other, j));
            let sj = if j < k { j } else { j + 1 };
            assert(t[j] == s[sj]);
            assert(key_at(s, other, sj));
            lemma_lookup_at(s, other, sj);
            if equivalent(key, other) {
                assert(equivalent(s[k].0, key));
                assert(equivalent(s[k].0, other));
                lemma_key_once(s, other, k, sj);
            }
        } else if has_key(s, other) {
            let i = index_of(s, other);
            assert(key_at(s, other, i));
            if i != k {
                let ti = if i < k { i } else { i - 1 };
                assert(t[ti] == s[i]);
                assert(key_at(t, other, ti));
            } else {
                assert(equivalent(key, s[k].0));
                assert(equivalent(key, other));
            }
        }
    } else if equivalent(key, other) {
        if has_key(s, other) {
            let i = index_of(s, other);
            assert(key_at(s, other, i));
            assert(equivalent(s[i].0, other));
            assert(equivalent(other, key));
            assert(key_at(s, key, i));
        }
    }
}

/// Taking out a key that was just put in as a new one gives back the
/// entries as they were.
pub proof fn lemma_put_without<K: PartialOrd, V>(s: Seq<(K, V)>, key: K, value: V)
    requires
        strict_weak_order::<K>(),
        keys_increasing(s),
        !has_key(s, key),
    ensures
        without(put(s, key, value), key) == s,
{
    lemma_rank(s, key);
    lemma_put_increasing(s, key, value);
    let r = rank(s, key);
    let t = s.insert(r, (key, value));
    assert(t[r] == (key, value));
    assert(key_at(t, key, r));
    lemma_lookup_at(t, key, r);
    assert(t.remove(r) =~= s);
}

/// Keys are equivalent only where they are equal.
pub open spec fn key_identity<K: PartialOrd>() -> bool {
    forall|a: K, b: K| #[trigger] equivalent(a, b) <==> a == b
}

/// The entries as a map from each key to its value. It says all there is
/// to say about the entries where `key_identity` holds.
pub open spec fn as_map<K: PartialOrd, V>(s: Seq<(K, V)>) -> Map<K, V> {
    Map::new(|key: K| has_key(s, key), |key: K| lookup(s, key)->0)
}

/// No entries make the empty map.
pub proof fn lemma_as_map_empty<K: PartialOrd, V>()
    ensures
        as_map(Seq::<(K, V)>::empty()) == Map::<K, V>::empty(),
{
    assert(as_map(Seq::<(K, V)>::empty()) =~= Map::<K, V>::empty());
}

/// Where keys are equivalent only if equal, putting a key in is inserting
/// it into the map, unless the map has it.
pub proof fn lemma_as_map_put<K: PartialOrd, V>(s: Seq<(K, V)>, key: K, value: V)
    requires
        strict_weak_order::<K>(),
        key_identity::<K>(),
        keys_increasing(s),
    ensures
        as_map(put(s, key, value)) == if as_map(s).dom().contains(key) {
            as_map(s)
        } else {
            as_map(s).insert(key, value)
        },
{
    let t = put(s, key, value);
    if !has_key(s, key) {
        assert forall|other: K| #[trigger] as_map(t).dom().contains(other) <==> as_map(s).insert(
            key,
            value,
        ).dom().contains(other) by {
            lemma_lookup_put(s, key, value, other);
        }
        assert forall|other: K| #[trigger] as_map(t).dom().contains(other) implies as_map(t)[other]
            == as_map(s).insert(key, value)[other] by {
            lemma_lookup_put(s, key, value, other);
        }
        assert(as_map(t) =~= as_map(s).insert(key, value));
    }
}

/// Where keys are equivalent only if equal, taking a key out is removing
/// it from the map.
pub proof fn lemma_as_map_without<K: PartialOrd, V>(s: Seq<(K, V)>, key: K)
    requires
        strict_weak_order::<K>(),
        key_identity::<K>(),
        keys_increasing(s),
    ensures
        as_map(without(s, key)) == as_map(s).remove(key),
{
    let t = without(s, key);
    assert forall|other: K| #[trigger] as_map(t).dom().contains(other) <==> as_map(s).remove(
        key,
    ).dom().contains(other) by {
        lemma_lookup_without(s, key, other);
    }
    assert forall|other: K| #[trigger] as_map(t).dom().contains(other) implies as_map(t)[other] == as_map(
        s,
    ).remove(key)[other] by {
        lemma_lookup_without(s, key, other);
    }
    assert(as_map(t) =~= as_map(s).remove(key));
}

/// Looking a key up is reading the map.
pub proof fn lemma_as_map_lookup<K: PartialOrd, V>(s: Seq<(K, V)>, key: K)
    ensures
        lookup(s, key) == if as_map(s).dom().contains(key) {
            Some(as_map(s)[key])
        } else {
            None
        },
{
}

/// A new key that was put in is found with its value; taking it out again
/// gives back the entries as they were, and the key is then found no more.
pub proof fn lemma_round_trip<K: PartialOrd, V>(s: Seq<(K, V)>, key: K, value: V)
    requires
        strict_weak_order::<K>(),
        keys_increasing(s),
        !has_key(s, key),
    ensures
        lookup(put(s, key, value), key) == Some(value),
        without(put(s, key, value), key) == s,
        lookup(without(put(s, key, value), key), key) is None,
{
    lemma_lookup_put(s, key, value, key);
    lemma_put_without(s, key, value);
    assert(equivalent(key, key));
}

/// Putting in a key that is there already changes no entry, so every key
/// finds what it found before.
pub proof fn lemma_put_present<K: PartialOrd, V>(s: Seq<(K, V)>, key: K, value: V, other: K)
    requires
        has_key(s, key),
    ensures
        put(s, key, value) == s,
        lookup(put(s, key, value), other) == lookup(s, other),
{
}

/// Taking out a key that is not there changes no entry.
pub proof fn lemma_without_absent<K: PartialOrd, V>(s: Seq<(K, V)>, key: K)
    requires
        !has_key(s, key),
    ensures
        without(s, key) == s,
        lookup(s, key) is None,
{
}

} // verus!
