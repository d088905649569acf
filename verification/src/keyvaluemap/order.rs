//! The order that the tree relies on: what a key type must keep, and what
//! it means for a sequence to be strictly increasing.

use vstd::prelude::*;
use vstd::std_specs::cmp::PartialOrdSpec;
use core::cmp::Ordering;

verus! {

/// `a` is ordered strictly before `b`.
pub open spec fn less<T: PartialOrd>(a: T, b: T) -> bool {
    a.partial_cmp_spec(&b) == Some(Ordering::Less)
}

/// `a` is ordered strictly after `b`.
pub open spec fn greater<T: PartialOrd>(a: T, b: T) -> bool {
    a.partial_cmp_spec(&b) == Some(Ordering::Greater)
}

/// Neither value is ordered before the other: the tree takes them for the
/// same entry.
pub open spec fn equivalent<T: PartialOrd>(a: T, b: T) -> bool {
    !less(a, b) && !less(b, a)
}

/// What the tree asks of the order of `T`: comparisons answer as their
/// specification says, `>` is `<` turned round, `<` is irreflexive and
/// transitive, and being equivalent is transitive. Of two values then
/// exactly one holds: the first is less, the second is less, or they are
/// equivalent.
pub open spec fn strict_weak_order<T: PartialOrd>() -> bool {
    &&& T::obeys_partial_cmp_spec()
    &&& forall|a: T, b: T| #[trigger] greater(a, b) <==> less(b, a)
    &&& forall|a: T| !#[trigger] less(a, a)
    &&& forall|a: T, b: T, c: T| #[trigger] less(a, b) && #[trigger] less(b, c) ==> less(a, c)
    &&& forall|a: T, b: T, c: T|
        #[trigger] equivalent(a, b) && #[trigger] equivalent(b, c) ==> equivalent(a, c)
}

/// The sequence is strictly increasing.
pub open spec fn sorted<T: PartialOrd>(s: Seq<T>) -> bool {
    forall|i: int, j: int| 0 <= i < j < s.len() ==> less(#[trigger] s[i], #[trigger] s[j])
}

/// Some value of the sequence is equivalent to `x`.
pub open spec fn holds<T: PartialOrd>(s: Seq<T>, x: T) -> bool {
    exists|i: int| 0 <= i < s.len() && equivalent(#[trigger] s[i], x)
}

/// In a strict weak order a value is never less than one that is less than it.
pub proof fn lemma_asymmetric<T: PartialOrd>(a: T, b: T)
    requires
        strict_weak_order::<T>(),
        less(a, b),
    ensures
        !less(b, a),
        !equivalent(a, b),
        !equivalent(b, a),
{
    if less(b, a) {
        assert(less(a, a));
    }
}

/// The parts of a strictly increasing sequence around one of its values.
pub proof fn lemma_sorted_parts<T: PartialOrd>(a: Seq<T>, v: T, b: Seq<T>)
    requires
        sorted(a.push(v) + b),
    ensures
        sorted(a),
        sorted(b),
        forall|i: int| 0 <= i < a.len() ==> less(#[trigger] a[i], v),
        forall|j: int| 0 <= j < b.len() ==> less(v, #[trigger] b[j]),
{
    let s = a.push(v) + b;
    let n = a.len() as int;
    assert(s[n] == v);
    assert forall|i: int, j: int| 0 <= i < j < a.len() implies less(#[trigger] a[i], #[trigger] a[j]) by {
        assert(s[i] == a[i] && s[j] == a[j]);
    }
    assert forall|i: int, j: int| 0 <= i < j < b.len() implies less(#[trigger] b[i], #[trigger] b[j]) by {
        assert(s[n + 1 + i] == b[i] && s[n + 1 + j] == b[j]);
    }
    assert forall|i: int| 0 <= i < a.len() implies less(#[trigger] a[i], v) by {
        assert(s[i] == a[i]);
    }
    assert forall|j: int| 0 <= j < b.len() implies less(v, #[trigger] b[j]) by {
        assert(s[n + 1 + j] == b[j]);
    }
}

/// Two strictly increasing sequences around a value that lies between them
/// make one strictly increasing sequence.
pub proof fn lemma_sorted_join<T: PartialOrd>(a: Seq<T>, v: T, b: Seq<T>)
    requires
        strict_weak_order::<T>(),
        sorted(a),
        sorted(b),
        forall|i: int| 0 <= i < a.len() ==> less(#[trigger] a[i], v),
        forall|j: int| 0 <= j < b.len() ==> less(v, #[trigger] b[j]),
    ensures
        sorted(a.push(v) + b),
{
    let s = a.push(v) + b;
    let n = a.len() as int;
    assert forall|i: int, j: int| 0 <= i < j < s.len() implies less(#[trigger] s[i], #[trigger] s[j]) by {
        if j < n {
            assert(s[i] == a[i] && s[j] == a[j]);
        } else if j == n {
            assert(s[i] == a[i] && s[j] == v);
        } else if i < n {
            assert(s[i] == a[i] && s[j] == b[j - n - 1]);
            assert(less(a[i], v) && less(v, b[j - n - 1]));
        } else if i == n {
            assert(s[i] == v && s[j] == b[j - n - 1]);
        } else {
            assert(s[i] == b[i - n - 1] && s[j] == b[j - n - 1]);
        }
    }
}

/// A strictly increasing sequence stays so when a value leaves it.
pub proof fn lemma_sorted_remove<T: PartialOrd>(s: Seq<T>, k: int)
    requires
        sorted(s),
        0 <= k < s.len(),
    ensures
        sorted(s.remove(k)),
{
    let r = s.remove(k);
    assert forall|i: int, j: int| 0 <= i < j < r.len() implies less(#[trigger] r[i], #[trigger] r[j]) by {
        let si = if i < k { i } else { i + 1 };
        let sj = if j < k { j } else { j + 1 };
        assert(r[i] == s[si] && r[j] == s[sj]);
    }
}

/// A strictly increasing sequence holds at most one value equivalent to a
/// given one.
pub proof fn lemma_holds_once<T: PartialOrd>(s: Seq<T>, x: T, i: int, j: int)
    requires
        strict_weak_order::<T>(),
        sorted(s),
        0 <= i < s.len(),
        0 <= j < s.len(),
        equivalent(s[i], x),
        equivalent(s[j], x),
    ensures
        i == j,
{
    assert(equivalent(x, s[j]));
    assert(equivalent(s[i], s[j]));
    if i < j {
        assert(less(s[i], s[j]));
    } else if j < i {
        assert(less(s[j], s[i]));
    }
}

/// Below a value that is greater than `x`, only what stands before it can
/// be equivalent to `x`.
pub proof fn lemma_holds_before<T: PartialOrd>(a: Seq<T>, v: T, b: Seq<T>, x: T)
    requires
        strict_weak_order::<T>(),
        sorted(a.push(v) + b),
        less(x, v),
    ensures
        holds(a.push(v) + b, x) == holds(a, x),
{
    let s = a.push(v) + b;
    let n = a.len() as int;
    lemma_sorted_parts(a, v, b);
    assert(s[n] == v);
    if holds(a, x) {
        let i = choose|i: int| 0 <= i < a.len() && equivalent(#[trigger] a[i], x);
        assert(s[i] == a[i]);
    }
    if holds(s, x) {
        let i = choose|i: int| 0 <= i < s.len() && equivalent(#[trigger] s[i], x);
        if i >= n {
            if i > n {
                assert(s[i] == b[i - n - 1]);
                assert(less(v, b[i - n - 1]));
            }
            lemma_asymmetric(x, s[i]);
        }
        assert(s[i] == a[i]);
    }
}

/// Above a value that is less than `x`, only what stands after it can be
/// equivalent to `x`.
pub proof fn lemma_holds_after<T: PartialOrd>(a: Seq<T>, v: T, b: Seq<T>, x: T)
    requires
        strict_weak_order::<T>(),
        sorted(a.push(v) + b),
        less(v, x),
    ensures
        holds(a.push(v) + b, x) == holds(b, x),
{
    let s = a.push(v) + b;
    let n = a.len() as int;
    lemma_sorted_parts(a, v, b);
    assert(s[n] == v);
    if holds(b, x) {
        let i = choose|i: int| 0 <= i < b.len() && equivalent(#[trigger] b[i], x);
        assert(s[n + 1 + i] == b[i]);
    }
    if holds(s, x) {
        let i = choose|i: int| 0 <= i < s.len() && equivalent(#[trigger] s[i], x);
        if i <= n {
            if i < n {
                assert(s[i] == a[i]);
                assert(less(a[i], v));
            }
            lemma_asymmetric(s[i], x);
        }
        assert(s[i] == b[i - n - 1]);
    }
}

/// `after` is `before` without its value at `k`, which is `out` and is
/// equivalent to `x`.
pub open spec fn removed_at<T: PartialOrd>(before: Seq<T>, after: Seq<T>, k: int, x: T, out: T) -> bool {
    &&& 0 <= k < before.len()
    &&& equivalent(before[k], x)
    &&& out == before[k]
    &&& after == before.remove(k)
}

/// `after` is `before` with `x` put in at `k`.
pub open spec fn inserted_at<T>(before: Seq<T>, after: Seq<T>, k: int, x: T) -> bool {
    &&& 0 <= k <= before.len()
    &&& after == before.insert(k, x)
}

/// A removal in the part before `v` is a removal in the whole.
pub proof fn lemma_removed_before<T: PartialOrd>(a: Seq<T>, a2: Seq<T>, v: T, b: Seq<T>, k: int, x: T, out: T)
    requires
        removed_at(a, a2, k, x, out),
    ensures
        removed_at(a.push(v) + b, a2.push(v) + b, k, x, out),
{
    let s = a.push(v) + b;
    assert(s[k] == a[k]);
    assert(a2.push(v) + b =~= s.remove(k));
}

/// A removal in the part after `v` is a removal in the whole.
pub proof fn lemma_removed_after<T: PartialOrd>(a: Seq<T>, v: T, b: Seq<T>, b2: Seq<T>, k: int, x: T, out: T)
    requires
        removed_at(b, b2, k, x, out),
    ensures
        removed_at(a.push(v) + b, a.push(v) + b2, a.len() + 1 + k, x, out),
{
    let s = a.push(v) + b;
    assert(s[a.len() + 1 + k] == b[k]);
    assert(a.push(v) + b2 =~= s.remove(a.len() + 1 + k));
}

/// Putting `x` in before a greater value `v` keeps the whole strictly
/// increasing, and is an insertion in the whole.
pub proof fn lemma_inserted_before<T: PartialOrd>(a: Seq<T>, a2: Seq<T>, v: T, b: Seq<T>, k: int, x: T)
    requires
        strict_weak_order::<T>(),
        sorted(a.push(v) + b),
        sorted(a2),
        inserted_at(a, a2, k, x),
        less(x, v),
    ensures
        inserted_at(a.push(v) + b, a2.push(v) + b, k, x),
        sorted(a2.push(v) + b),
{
    lemma_sorted_parts(a, v, b);
    assert(a2.push(v) + b =~= (a.push(v) + b).insert(k, x));
    assert forall|i: int| 0 <= i < a2.len() implies less(#[trigger] a2[i], v) by {
        if i < k {
            assert(a2[i] == a[i]);
        } else if i > k {
            assert(a2[i] == a[i - 1]);
        }
    }
    lemma_sorted_join(a2, v, b);
}

/// Putting `x` in after a lesser value `v` keeps the whole strictly
/// increasing, and is an insertion in the whole.
pub proof fn lemma_inserted_after<T: PartialOrd>(a: Seq<T>, v: T, b: Seq<T>, b2: Seq<T>, k: int, x: T)
    requires
        strict_weak_order::<T>(),
        sorted(a.push(v) + b),
        sorted(b2),
        inserted_at(b, b2, k, x),
        less(v, x),
    ensures
        inserted_at(a.push(v) + b, a.push(v) + b2, a.len() + 1 + k, x),
        sorted(a.push(v) + b2),
{
    lemma_sorted_parts(a, v, b);
    assert(a.push(v) + b2 =~= (a.push(v) + b).insert(a.len() + 1 + k, x));
    assert forall|i: int| 0 <= i < b2.len() implies less(v, #[trigger] b2[i]) by {
        if i < k {
            assert(b2[i] == b[i]);
        } else if i > k {
            assert(b2[i] == b[i - 1]);
        }
    }
    lemma_sorted_join(a, v, b2);
}

} // verus!
