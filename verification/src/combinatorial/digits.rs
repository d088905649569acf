//! Counting in a base, digit by digit, and picking the items of a slice
//! that a list of positions names.

use vstd::prelude::*;
use vstd::arithmetic::power::pow;
use vstd::arithmetic::div_mod::{lemma_small_mod, lemma_mod_self_0, lemma_truncate_middle};

verus! {

/// A request that no selection can meet.
#[derive(Debug)]
pub enum CombinatorialError {
    /// More items were asked for than the slice can give.
    OutputSizeTooLarge,
}

/// The digit after `d` in base `base`: one more, and 0 after the last.
pub open spec fn bump(d: usize, base: int) -> int {
    (d + 1) % base
}

/// The first position from `from` on whose digit does not wrap to 0 when
/// one is added; the length where every digit wraps.
pub open spec fn carry_stop(s: Seq<usize>, base: int, from: int) -> int
    decreases s.len() - from,
{
    if from < 0 || from >= s.len() {
        s.len() as int
    } else if bump(s[from], base) != 0 {
        from
    } else {
        carry_stop(s, base, from + 1)
    }
}

/// The stop lies between `from` and the length, and every digit from
/// `from` up to it wraps.
pub proof fn lemma_carry_stop(s: Seq<usize>, base: int, from: int)
    requires
        0 <= from <= s.len(),
    ensures
        from <= carry_stop(s, base, from) <= s.len(),
        forall|j: int| from <= j < carry_stop(s, base, from) ==> bump(#[trigger] s[j], base) == 0,
        carry_stop(s, base, from) < s.len() ==> bump(s[carry_stop(s, base, from)], base) != 0,
    decreases s.len() - from,
{
    if from < s.len() && bump(s[from], base) == 0 {
        lemma_carry_stop(s, base, from + 1);
    }
}

/// The number after `s`, least digit first: the digits before the stop
/// wrap to 0, the digit at the stop goes up by one, the rest stay.
pub open spec fn carried(s: Seq<usize>, base: int) -> Seq<usize> {
    let stop = carry_stop(s, base, 0);
    Seq::new(
        s.len(),
        |j: int|
            if j < stop {
                0usize
            } else if j == stop {
                bump(s[j], base) as usize
            } else {
                s[j]
            },
    )
}

/// Adds one to a number whose digits stand least first. Returns the
/// position and new value of the digit where the carry stopped, and
/// `(0, 0)` where the number wrapped to zero.
pub fn add_with_carry(indexes: &mut [usize], base: usize) -> (res: (usize, usize))
    requires
        old(indexes)@.len() > 0 ==> base > 0,
        forall|i: int| 0 <= i < old(indexes)@.len() ==> old(indexes)@[i] < usize::MAX,
    ensures
        final(indexes)@ == carried(old(indexes)@, base as int),
        carry_stop(old(indexes)@, base as int, 0) < old(indexes)@.len() ==> res.0 == carry_stop(
            old(indexes)@,
            base as int,
            0,
        ) && res.1 == bump(old(indexes)@[res.0 as int], base as int),
        carry_stop(old(indexes)@, base as int, 0) == old(indexes)@.len() ==> res == (0usize, 0usize),
{
    let n = indexes.len();
    let mut i: usize = 0;
    while i < n
        invariant
            n == indexes@.len(),
            n == old(indexes)@.len(),
            i <= n,
            n > 0 ==> base > 0,
            carry_stop(old(indexes)@, base as int, 0) == carry_stop(old(indexes)@, base as int, i as int),
            forall|j: int| 0 <= j < i ==> indexes@[j] == 0,
            forall|j: int| i <= j < n ==> indexes@[j] == old(indexes)@[j],
            forall|j: int| 0 <= j < n ==> old(indexes)@[j] < usize::MAX,
        decreases n - i,
    {
        let next = (indexes[i] + 1) % base;
        indexes[i] = next;
        if next != 0 {
            proof {
                assert(indexes@ =~= carried(old(indexes)@, base as int));
            }
            return (i, next);
        }
        i += 1;
    }
    proof {
        assert(indexes@ =~= carried(old(indexes)@, base as int));
    }
    (0, 0)
}

/// The number that the digits stand for in base `base`, least digit first.
pub open spec fn value(s: Seq<usize>, base: int) -> int
    decreases s.len(),
{
    if s.len() == 0 {
        0
    } else {
        s[0] + base * value(s.drop_first(), base)
    }
}

/// The stop of a number is one place beyond the stop of the number without
/// its least digit, where that digit wraps.
proof fn lemma_carry_stop_shift(s: Seq<usize>, base: int, from: int)
    requires
        s.len() > 0,
        0 <= from < s.len(),
    ensures
        carry_stop(s, base, from + 1) == 1 + carry_stop(s.drop_first(), base, from),
    decreases s.len() - from,
{
    let rest = s.drop_first();
    if from < rest.len() {
        assert(rest[from] == s[from + 1]);
        if bump(rest[from], base) == 0 {
            lemma_carry_stop_shift(s, base, from + 1);
        }
    }
}

/// `add_with_carry` counts: the digits after the step stand for the number
/// before it plus one, and for zero after the greatest number that the
/// places can hold.
pub proof fn lemma_carried_counts(s: Seq<usize>, base: int)
    requires
        in_range(s, base),
        base <= usize::MAX,
    ensures
        0 <= value(s, base) < pow(base, s.len()),
        value(carried(s, base), base) == (value(s, base) + 1) % pow(base, s.len()),
    decreases s.len(),
{
    reveal(pow);
    if s.len() == 0 {
        assert(carried(s, base) =~= s);
    } else {
        let rest = s.drop_first();
        let places = (s.len() - 1) as nat;
        let high = pow(base, places);
        let after = carried(s, base);
        assert(s[0] < base);
        assert forall|i: int| 0 <= i < rest.len() implies (#[trigger] rest[i]) < base by {
            assert(rest[i] == s[i + 1]);
        }
        lemma_carried_counts(rest, base);
        lemma_carry_stop(s, base, 0);
        lemma_carry_stop(rest, base, 0);
        let v = value(rest, base);
        assert(pow(base, s.len()) == base * high);
        assert(0 <= s[0] + base * v < base * high) by (nonlinear_arith)
            requires
                0 <= s[0] < base,
                0 <= v < high,
        ;
        if s[0] + 1 < base {
            lemma_small_mod((s[0] + 1) as nat, base as nat);
            assert(after[0] == s[0] + 1);
            assert(after.drop_first() =~= rest);
            assert(s[0] + 1 + base * v < base * high) by (nonlinear_arith)
                requires
                    0 <= s[0] + 1 < base,
                    0 <= v < high,
            ;
            lemma_small_mod((value(s, base) + 1) as nat, (base * high) as nat);
        } else {
            lemma_mod_self_0(base);
            lemma_carry_stop_shift(s, base, 0);
            assert(after[0] == 0);
            assert(after.drop_first() =~= carried(rest, base));
            lemma_truncate_middle(v + 1, base, high);
            assert(value(s, base) + 1 == base * (v + 1)) by (nonlinear_arith)
                requires
                    value(s, base) == s[0] + base * v,
                    s[0] + 1 == base,
            ;
        }
    }
}

/// The items that a sequence of references points at.
pub open spec fn items<T>(refs: Seq<&T>) -> Seq<T> {
    refs.map_values(|r: &T| *r)
}

/// Every position in `indexes` lies within a source of `len` items.
pub open spec fn in_range(indexes: Seq<usize>, len: int) -> bool {
    forall|i: int| 0 <= i < indexes.len() ==> (#[trigger] indexes[i]) < len
}

/// The items of `source` at the positions that `indexes` names, in the
/// order of `indexes`.
pub open spec fn picked<T>(source: Seq<T>, indexes: Seq<usize>) -> Seq<T> {
    Seq::new(indexes.len(), |i: int| source[indexes[i] as int])
}

/// References to the items of `source` at the positions that `indexes`
/// names, in the order of `indexes`.
pub fn swizzle<'a, T>(source: &'a [T], indexes: &[usize]) -> (result: Vec<&'a T>)
    requires
        in_range(indexes@, source@.len() as int),
    ensures
        items(result@) == picked(source@, indexes@),
{
    let mut result: Vec<&'a T> = Vec::new();
    let mut i: usize = 0;
    while i < indexes.len()
        invariant
            i <= indexes@.len(),
            in_range(indexes@, source@.len() as int),
            result@.len() == i,
            forall|j: int| 0 <= j < i ==> *(#[trigger] result@[j]) == source@[indexes@[j] as int],
        decreases indexes@.len() - i,
    {
        result.push(&source[indexes[i]]);
        i += 1;
    }
    proof {
        assert(items(result@) =~= picked(source@, indexes@));
    }
    result
}

/// Every digit is 0.
pub open spec fn all_zero(s: Seq<usize>) -> bool {
    forall|i: int| 0 <= i < s.len() ==> (#[trigger] s[i]) == 0
}

/// Whether every digit is 0.
pub fn is_all_zero(indexes: &[usize]) -> (res: bool)
    ensures
        res == all_zero(indexes@),
{
    let mut i: usize = 0;
    while i < indexes.len()
        invariant
            i <= indexes@.len(),
            forall|j: int| 0 <= j < i ==> (#[trigger] indexes@[j]) == 0,
        decreases indexes@.len() - i,
    {
        if indexes[i] != 0 {
            return false;
        }
        i += 1;
    }
    true
}

/// A number whose digits are below the base keeps them below it when one
/// is added.
pub proof fn lemma_carried_in_range(s: Seq<usize>, base: int)
    requires
        in_range(s, base),
        base <= usize::MAX,
    ensures
        in_range(carried(s, base), base),
        carried(s, base).len() == s.len(),
{
    let c = carried(s, base);
    assert forall|i: int| 0 <= i < c.len() implies (#[trigger] c[i]) < base by {
        assert(s[i] < base);
    }
}

} // verus!
