//! Selections without repetition: the combinations of a slice, which keep
//! the order of the slice, and its permutations.

use vstd::prelude::*;
use crate::combinatorial::digits::{CombinatorialError, swizzle, in_range, items, picked};

verus! {

/// The positions to leave out stand in strictly falling order and lie
/// within a source of `len` items.
pub open spec fn falling(skip: Seq<usize>, len: int) -> bool {
    &&& forall|i: int, j: int| 0 <= i < j < skip.len() ==> (#[trigger] skip[i]) > (#[trigger] skip[j])
    &&& forall|i: int| 0 <= i < skip.len() ==> (#[trigger] skip[i]) < len
}

/// Position `p` is one of those left out.
pub open spec fn is_hole(skip: Seq<usize>, p: int) -> bool {
    exists|i: int| 0 <= i < skip.len() && #[trigger] skip[i] == p
}

/// The items of `source` before position `upto` that are not left out, in
/// the order of the source.
pub open spec fn kept<T>(source: Seq<T>, skip: Seq<usize>, upto: int) -> Seq<T>
    decreases upto,
{
    if upto <= 0 {
        Seq::empty()
    } else if is_hole(skip, upto - 1) {
        kept(source, skip, upto - 1)
    } else {
        kept(source, skip, upto - 1).push(source[upto - 1])
    }
}

/// The first place from `from` on whose hole can still move up: it does not
/// stand at the highest position left to it. The length where none can.
pub open spec fn first_free(skip: Seq<usize>, len: int, from: int) -> int
    decreases skip.len() - from,
{
    if from < 0 || from >= skip.len() {
        skip.len() as int
    } else if skip[from] != len - 1 - from {
        from
    } else {
        first_free(skip, len, from + 1)
    }
}

/// The holes after the one at `at` has moved up by one and those before it
/// have been set down right above it.
pub open spec fn advanced(skip: Seq<usize>, at: int) -> Seq<usize> {
    Seq::new(
        skip.len(),
        |j: int|
            if j <= at {
                (skip[at] + 1 + (at - j)) as usize
            } else {
                skip[j]
            },
    )
}

/// The holes that leave out the lowest `delta` positions, highest first.
pub open spec fn lowest(delta: int) -> Seq<usize> {
    Seq::new(delta as nat, |i: int| (delta - 1 - i) as usize)
}

/// No hole can move up any more: the combination is the last one.
pub open spec fn is_last(skip: Seq<usize>, len: int) -> bool {
    first_free(skip, len, 0) == skip.len()
}

/// The holes of the combination after this one; the same holes after the
/// last one.
pub open spec fn moved_on(skip: Seq<usize>, len: int) -> Seq<usize> {
    if is_last(skip, len) {
        skip
    } else {
        advanced(skip, first_free(skip, len, 0))
    }
}

/// `first_free` lies between `from` and the length; the holes it passes
/// stand as high as they can, and the one it stops at does not.
pub proof fn lemma_first_free(skip: Seq<usize>, len: int, from: int)
    requires
        0 <= from <= skip.len(),
    ensures
        from <= first_free(skip, len, from) <= skip.len(),
        forall|j: int| from <= j < first_free(skip, len, from) ==> #[trigger] skip[j] == len - 1 - j,
        first_free(skip, len, from) < skip.len() ==> skip[first_free(skip, len, from)] != len - 1
            - first_free(skip, len, from),
    decreases skip.len() - from,
{
    if from < skip.len() && skip[from] == len - 1 - from {
        lemma_first_free(skip, len, from + 1);
    }
}

/// In falling order the hole at place `i` stands at most at `len - 1 - i`.
pub proof fn lemma_falling_bound(skip: Seq<usize>, len: int, i: int)
    requires
        falling(skip, len),
        0 <= i < skip.len(),
    ensures
        skip[i] <= len - 1 - i,
    decreases i,
{
    if i > 0 {
        lemma_falling_bound(skip, len, i - 1);
        assert(skip[i - 1] > skip[i]);
    }
}

/// Moving the first free hole up, and setting the holes before it right
/// above it, keeps the holes in falling order.
pub proof fn lemma_advanced_falling(skip: Seq<usize>, len: int)
    requires
        falling(skip, len),
        len <= usize::MAX,
        first_free(skip, len, 0) < skip.len(),
    ensures
        falling(advanced(skip, first_free(skip, len, 0)), len),
{
    let at = first_free(skip, len, 0);
    lemma_first_free(skip, len, 0);
    lemma_falling_bound(skip, len, at);
    let next = advanced(skip, at);
    assert forall|i: int, j: int| 0 <= i < j < next.len() implies (#[trigger] next[i]) > (#[trigger] next[j]) by {
        if j > at {
            assert(skip[at] > skip[j]);
            if i > at {
                assert(skip[i] > skip[j]);
            }
        }
    }
    assert forall|i: int| 0 <= i < next.len() implies (#[trigger] next[i]) < len by {
        if i > at {
            assert(skip[i] < len);
        }
    }
}

/// Generates the combinations of a slice: every choice of `output_size` of
/// its items, each in the order of the slice. It keeps the positions that
/// it leaves out.
pub struct SimpleCombinationsIterator<'a, T> {
    source: &'a [T],
    skip: Vec<usize>,
    consumed: bool,
}

impl<'a, T> SimpleCombinationsIterator<'a, T> {
    /// The slice that the selections are made from.
    pub closed spec fn source(&self) -> Seq<T> {
        self.source@
    }

    /// The positions that the next selection leaves out, highest first.
    pub closed spec fn skip(&self) -> Seq<usize> {
        self.skip@
    }

    /// Whether the last selection has been handed out.
    pub closed spec fn consumed(&self) -> bool {
        self.consumed
    }

    /// The positions left out stand in falling order within the slice.
    pub open spec fn wf(&self) -> bool {
        falling(self.skip(), self.source().len() as int)
    }

    /// A generator of the choices of `output_size` items of `source`. Fails
    /// where more items are asked for than the slice has. The first
    /// selection leaves out the lowest positions.
    pub fn new(source: &'a [T], output_size: usize) -> (res: Result<
        SimpleCombinationsIterator<'a, T>,
        CombinatorialError,
    >)
        ensures
            res is Err == (output_size > source@.len()),
            res matches Ok(it) ==> {
                &&& it.wf()
                &&& it.source() == source@
                &&& it.skip() == lowest(source@.len() - output_size)
                &&& !it.consumed()
            },
    {
        if output_size > source.len() {
            return Err(CombinatorialError::OutputSizeTooLarge);
        }
        let delta = source.len() - output_size;
        let mut skip: Vec<usize> = Vec::new();
        let mut i: usize = 0;
        while i < delta
            invariant
                i <= delta,
                skip@.len() == i,
                forall|j: int| 0 <= j < i ==> skip@[j] == delta - 1 - j,
            decreases delta - i,
        {
            skip.push(delta - i - 1);
            i += 1;
        }
        proof {
            assert(skip@ =~= lowest(delta as int));
        }
        Ok(SimpleCombinationsIterator { source, skip, consumed: false })
    }

    /// Moves the first hole that can still move up by one. Returns its
    /// place and new position, or `None` where every hole stands as high as
    /// it can.
    pub fn increment_skip_hole(&mut self) -> (res: Option<(usize, usize)>)
        requires
            old(self).wf(),
        ensures
            final(self).source() == old(self).source(),
            final(self).consumed() == old(self).consumed(),
            res is None == (first_free(old(self).skip(), old(self).source().len() as int, 0) == old(
                self,
            ).skip().len()),
            res is None ==> final(self).skip() == old(self).skip(),
            res matches Some(moved) ==> {
                &&& moved.0 == first_free(old(self).skip(), old(self).source().len() as int, 0)
                &&& moved.1 == old(self).skip()[moved.0 as int] + 1
                &&& final(self).skip() == old(self).skip().update(moved.0 as int, moved.1)
            },
    {
        let n = self.source.len();
        let ghost before = self.skip@;
        let mut i: usize = 0;
        while i < self.skip.len()
            invariant
                i <= self.skip@.len(),
                self.skip@ == before,
                before == old(self).skip@,
                n == self.source@.len(),
                self.source == old(self).source,
                self.consumed == old(self).consumed,
                falling(before, n as int),
                first_free(before, n as int, 0) == first_free(before, n as int, i as int),
            decreases self.skip@.len() - i,
        {
            proof {
                lemma_falling_bound(before, n as int, i as int);
            }
            if self.skip[i] == n - 1 - i {
                i += 1;
            } else {
                let moved = self.skip[i] + 1;
                self.skip[i] = moved;
                proof {
                    assert(first_free(before, n as int, i as int) == i);
                    assert(self.skip@ =~= before.update(i as int, moved));
                }
                return Some((i, moved));
            }
        }
        proof {
            lemma_first_free(before, n as int, 0);
        }
        None
    }

    /// The items at the positions that are not left out, in the order of
    /// the slice.
    pub fn generate_result(&self) -> (res: Vec<&'a T>)
        requires
            self.wf(),
        ensures
            items(res@) == kept(self.source(), self.skip(), self.source().len() as int),
            res@.len() == self.source().len() - self.skip().len(),
    {
        let n = self.source.len();
        let mut res: Vec<&'a T> = Vec::new();
        let mut holes_left = self.skip.len();
        let mut i: usize = 0;
        while i < n
            invariant
                i <= n,
                n == self.source@.len(),
                holes_left <= self.skip@.len(),
                falling(self.skip@, n as int),
                forall|j: int| holes_left <= j < self.skip@.len() ==> (#[trigger] self.skip@[j]) < i,
                forall|j: int| 0 <= j < holes_left ==> (#[trigger] self.skip@[j]) >= i,
                items(res@) == kept(self.source@, self.skip@, i as int),
                res@.len() == i - (self.skip@.len() - holes_left),
            decreases n - i,
        {
            let ghost so_far = items(res@);
            if holes_left > 0 && self.skip[holes_left - 1] == i {
                holes_left -= 1;
                proof {
                    assert(is_hole(self.skip@, i as int));
                    assert forall|j: int| 0 <= j < holes_left implies (#[trigger] self.skip@[j]) >= i + 1 by {
                        assert(self.skip@[j] > self.skip@[holes_left as int]);
                    }
                }
            } else {
                res.push(&self.source[i]);
                proof {
                    if is_hole(self.skip@, i as int) {
                        let j = choose|j: int| 0 <= j < self.skip@.len() && #[trigger] self.skip@[j] == i;
                        assert(j < holes_left);
                        if j < holes_left - 1 {
                            assert(self.skip@[j] > self.skip@[holes_left - 1]);
                        }
                    }
                    assert(items(res@) =~= so_far.push(self.source@[i as int]));
                }
            }
            i += 1;
        }
        proof {
            if holes_left > 0 {
                assert(self.skip@[0] >= n);
            }
        }
        res
    }

    /// Hands out the selection that leaves out the current holes, and moves
    /// the holes on. Returns `None`, and changes nothing, once the last
    /// selection has been handed out.
    pub fn next(&mut self) -> (res: Option<Vec<&'a T>>)
        requires
            old(self).wf(),
        ensures
            final(self).wf(),
            final(self).source() == old(self).source(),
            res is None == old(self).consumed(),
            res is None ==> *final(self) == *old(self),
            res matches Some(v) ==> {
                let len = old(self).source().len() as int;
                &&& items(v@) == kept(old(self).source(), old(self).skip(), len)
                &&& v@.len() == len - old(self).skip().len()
                &&& final(self).consumed() == is_last(old(self).skip(), len)
                &&& final(self).skip() == moved_on(old(self).skip(), len)
            },
    {
        if self.consumed {
            None
        } else {
            let result = self.generate_result();
            let n = self.source.len();
            let ghost before = self.skip@;
            let ghost len = n as int;
            proof {
                lemma_first_free(before, len, 0);
            }
            match self.increment_skip_hole() {
                Some((i, skip)) => {
                    proof {
                        lemma_falling_bound(before, len, i as int);
                        lemma_advanced_falling(before, len);
                    }
                    let mut j: usize = 0;
                    while j < i
                        invariant
                            j <= i,
                            i < before.len(),
                            i == first_free(before, len, 0),
                            skip == before[i as int] + 1,
                            skip <= len - 1 - i,
                            len <= usize::MAX,
                            self.source == old(self).source,
                            self.consumed == old(self).consumed,
                            self.skip@.len() == before.len(),
                            forall|k: int| 0 <= k < j ==> self.skip@[k] == skip + (i - k),
                            forall|k: int| j <= k < before.len() ==> self.skip@[k] == before.update(
                                i as int,
                                skip,
                            )[k],
                        decreases i - j,
                    {
                        self.skip[j] = skip + (i - j);
                        j += 1;
                    }
                    proof {
                        assert(self.skip@ =~= advanced(before, i as int));
                    }
                },
                None => {
                    self.consumed = true;
                },
            }
            Some(result)
        }
    }
}

/// The sequence with the values at `a` and `b` exchanged.
pub open spec fn swapped(s: Seq<usize>, a: int, b: int) -> Seq<usize> {
    s.update(a, s[b]).update(b, s[a])
}

/// The counters with those from `from` up to `to` set to 0.
pub open spec fn zeroed(counters: Seq<usize>, from: int, to: int) -> Seq<usize> {
    Seq::new(
        counters.len(),
        |j: int|
            if from <= j < to {
                0usize
            } else {
                counters[j]
            },
    )
}

/// The first place from `from` on whose counter is below the place itself,
/// which is where the next exchange is due; the length where there is none.
pub open spec fn scan_stop(counters: Seq<usize>, from: int) -> int
    decreases counters.len() - from,
{
    if from < 0 || from >= counters.len() {
        counters.len() as int
    } else if counters[from] < from {
        from
    } else {
        scan_stop(counters, from + 1)
    }
}

/// The place that is exchanged with place `i` when its counter stands at
/// `c`: place `c` where `i` is odd, else place 0.
pub open spec fn exchange_with(i: int, c: int) -> int {
    if i % 2 == 1 {
        c
    } else {
        0
    }
}

/// The positions `0, 1, ..` up to `len`.
pub open spec fn positions(len: int) -> Seq<usize> {
    Seq::new(len as nat, |i: int| i as usize)
}

/// `scan_stop` is the length where the scan starts at or beyond it.
pub proof fn lemma_scan_stop(counters: Seq<usize>, from: int)
    requires
        from >= counters.len(),
    ensures
        scan_stop(counters, from) == counters.len(),
{
}

/// Of the positions themselves, those kept are within the source.
pub proof fn lemma_kept_positions(skip: Seq<usize>, len: int, upto: int)
    requires
        0 <= upto <= len,
    ensures
        in_range(kept(positions(len), skip, upto), upto),
        kept(positions(len), skip, upto).len() <= upto,
    decreases upto,
{
    if upto > 0 {
        lemma_kept_positions(skip, len, upto - 1);
        let rest = kept(positions(len), skip, upto - 1);
        let all = kept(positions(len), skip, upto);
        assert forall|i: int| 0 <= i < all.len() implies (#[trigger] all[i]) < upto by {
            if i < rest.len() {
                assert(all[i] == rest[i]);
            }
        }
    }
}

/// Where a generator of permutations stands.
pub struct PermutationState {
    /// The positions that the next combination leaves out, highest first.
    pub seed_skip: Seq<usize>,
    /// Whether the last combination has been taken.
    pub seed_consumed: bool,
    /// The positions of the selection handed out last, in its order.
    pub indexes: Seq<usize>,
    /// For each place, how many exchanges it has led since it was reset.
    pub counters: Seq<usize>,
    /// The place whose exchange is tried next.
    pub current_output: int,
}

/// The state before the first selection of `size` out of `len` items.
pub open spec fn initial_state(len: int, size: int) -> PermutationState {
    PermutationState {
        seed_skip: lowest(len - size),
        seed_consumed: false,
        indexes: Seq::new(size as nat, |i: int| 0usize),
        counters: Seq::new(size as nat, |i: int| 0usize),
        current_output: size,
    }
}

/// There is a selection left to hand out: an exchange is due at some place
/// from the current one on, or a combination is left.
pub open spec fn has_next(st: PermutationState) -> bool {
    scan_stop(st.counters, st.current_output) < st.counters.len() || !st.seed_consumed
}

/// The state after the next selection was asked for, over a source of
/// `len` items. Where an exchange is due at a place from the current one
/// on, the counters passed on the way are reset, the exchange is made and
/// counted, and place 1 is next. Else the rest of the counters is reset;
/// and where a combination is left, it becomes the selection, every
/// counter is reset, and place 1 is next.
pub open spec fn step(st: PermutationState, len: int) -> PermutationState {
    let from = st.current_output;
    let stop = scan_stop(st.counters, from);
    let places = st.counters.len() as int;
    if stop < places {
        PermutationState {
            seed_skip: st.seed_skip,
            seed_consumed: st.seed_consumed,
            indexes: swapped(st.indexes, exchange_with(stop, st.counters[stop] as int), stop),
            counters: zeroed(st.counters, from, stop).update(stop, (st.counters[stop] + 1) as usize),
            current_output: 1,
        }
    } else if st.seed_consumed {
        PermutationState {
            seed_skip: st.seed_skip,
            seed_consumed: true,
            indexes: st.indexes,
            counters: zeroed(st.counters, from, places),
            current_output: if from < places { places } else { from },
        }
    } else {
        PermutationState {
            seed_skip: moved_on(st.seed_skip, len),
            seed_consumed: is_last(st.seed_skip, len),
            indexes: kept(positions(len), st.seed_skip, len),
            counters: zeroed(st.counters, 0, places),
            current_output: 1,
        }
    }
}

/// Generates the permutations of a slice: every list of `output_size`
/// different items of it. For each combination in turn it runs through the
/// orders of its items by exchanging two of them at a time.
pub struct SimplePermutationsIterator<'a, T> {
    source: &'a [T],
    seed: Vec<usize>,
    seed_skip: Vec<usize>,
    seed_consumed: bool,
    indexes: Vec<usize>,
    counters: Vec<usize>,
    current_output: usize,
}

impl<'a, T> SimplePermutationsIterator<'a, T> {
    /// The slice that the selections are made from.
    pub closed spec fn source(&self) -> Seq<T> {
        self.source@
    }

    /// The positions that the next combination leaves out, highest first.
    pub closed spec fn seed_skip(&self) -> Seq<usize> {
        self.seed_skip@
    }

    /// Whether the last combination has been taken.
    pub closed spec fn seed_consumed(&self) -> bool {
        self.seed_consumed
    }

    /// The positions of the selection handed out last, in its order.
    pub closed spec fn indexes(&self) -> Seq<usize> {
        self.indexes@
    }

    /// For each place, how many exchanges it has led since it was reset.
    pub closed spec fn counters(&self) -> Seq<usize> {
        self.counters@
    }

    /// The place whose exchange is tried next.
    pub closed spec fn current_output(&self) -> usize {
        self.current_output
    }

    /// The positions that combinations are drawn from.
    pub closed spec fn seed(&self) -> Seq<usize> {
        self.seed@
    }

    /// Where the generator stands.
    pub open spec fn state(&self) -> PermutationState {
        PermutationState {
            seed_skip: self.seed_skip(),
            seed_consumed: self.seed_consumed(),
            indexes: self.indexes(),
            counters: self.counters(),
            current_output: self.current_output() as int,
        }
    }

    /// The seed counts the positions of the slice, the holes of the current
    /// combination stand in falling order, and the selection has as many
    /// places as the slice has items that are not left out, each within
    /// the slice.
    pub open spec fn wf(&self) -> bool {
        &&& self.seed() == positions(self.source().len() as int)
        &&& falling(self.seed_skip(), self.source().len() as int)
        &&& self.counters().len() == self.source().len() - self.seed_skip().len()
        &&& self.indexes().len() == self.counters().len()
        &&& in_range(self.indexes(), self.source().len() as int)
    }

    /// A generator of the lists of `output_size` different items of
    /// `source`. Fails where more items are asked for than the slice has.
    pub fn new(source: &'a [T], output_size: usize) -> (res: Result<
        SimplePermutationsIterator<'a, T>,
        CombinatorialError,
    >)
        ensures
            res is Err == (output_size > source@.len()),
            res matches Ok(it) ==> {
                &&& it.wf()
                &&& it.source() == source@
                &&& it.state() == initial_state(source@.len() as int, output_size as int)
            },
    {
        if output_size > source.len() {
            return Err(CombinatorialError::OutputSizeTooLarge);
        }
        let n = source.len();
        let mut seed: Vec<usize> = Vec::new();
        let mut i: usize = 0;
        while i < n
            invariant
                i <= n,
                seed@.len() == i,
                forall|j: int| 0 <= j < i ==> seed@[j] == j,
            decreases n - i,
        {
            seed.push(i);
            i += 1;
        }
        let seed_iter = SimpleCombinationsIterator::new(seed.as_slice(), output_size).unwrap();
        let seed_skip = seed_iter.skip;
        let seed_consumed = seed_iter.consumed;
        let res = SimplePermutationsIterator {
            source,
            seed,
            seed_skip,
            seed_consumed,
            indexes: vec![0; output_size],
            counters: vec![0; output_size],
            current_output: output_size,
        };
        proof {
            assert(res.seed@ =~= positions(n as int));
            let want = initial_state(n as int, output_size as int);
            assert(res.indexes@ =~= want.indexes);
            assert(res.counters@ =~= want.counters);
        }
        Ok(res)
    }

    /// Tries the exchange that is due at the current place. Where its
    /// counter is below the place, exchanges two positions of the
    /// selection, counts the exchange, goes back to place 1 and hands out
    /// the selection. Else resets the counter, moves one place up and
    /// hands out nothing.
    pub fn try_gen_permutation(&mut self) -> (res: Option<Vec<&'a T>>)
        requires
            old(self).wf(),
            old(self).current_output() < old(self).counters().len(),
        ensures
            final(self).wf(),
            final(self).source() == old(self).source(),
            final(self).seed_skip() == old(self).seed_skip(),
            final(self).seed_consumed() == old(self).seed_consumed(),
            res is Some == (old(self).counters()[old(self).current_output() as int] < old(
                self,
            ).current_output()),
            res matches Some(v) ==> {
                let i = old(self).current_output() as int;
                let c = old(self).counters()[i];
                &&& final(self).indexes() == swapped(old(self).indexes(), exchange_with(i, c as int), i)
                &&& final(self).counters() == old(self).counters().update(i, (c + 1) as usize)
                &&& final(self).current_output() == 1
                &&& items(v@) == picked(final(self).source(), final(self).indexes())
            },
            res is None ==> {
                let i = old(self).current_output() as int;
                &&& final(self).indexes() == old(self).indexes()
                &&& final(self).counters() == old(self).counters().update(i, 0)
                &&& final(self).current_output() == i + 1
            },
    {
        let i = self.current_output;
        let len = self.counters.len();
        let c = self.counters[i];
        if c < i {
            proof {
                assert((i % 2) * c == exchange_with(i as int, c as int)) by (nonlinear_arith)
                    requires
                        0 <= i,
                        0 <= c,
                ;
            }
            let j = (i % 2) * c;
            let at_j = self.indexes[j];
            let at_i = self.indexes[i];
            self.indexes[j] = at_i;
            self.indexes[i] = at_j;
            self.counters[i] = c + 1;
            self.current_output = 1;
            proof {
                assert(self.indexes@ =~= swapped(old(self).indexes@, j as int, i as int));
            }
            Some(swizzle(self.source, &self.indexes))
        } else {
            self.counters[i] = 0;
            self.current_output = i + 1;
            None
        }
    }

    /// Takes the next combination as the new selection, in the order of
    /// the slice, resets every counter, goes to place 1 and hands out the
    /// selection. Hands out nothing, and changes nothing, where the last
    /// combination has been taken.
    pub fn try_next_seed(&mut self) -> (res: Option<Vec<&'a T>>)
        requires
            old(self).wf(),
        ensures
            final(self).wf(),
            final(self).source() == old(self).source(),
            res is None == old(self).seed_consumed(),
            res is None ==> *final(self) == *old(self),
            res matches Some(v) ==> {
                let len = old(self).source().len() as int;
                &&& final(self).indexes() == kept(positions(len), old(self).seed_skip(), len)
                &&& final(self).counters() == zeroed(old(self).counters(), 0, old(self).counters().len() as int)
                &&& final(self).current_output() == 1
                &&& final(self).seed_consumed() == is_last(old(self).seed_skip(), len)
                &&& final(self).seed_skip() == moved_on(old(self).seed_skip(), len)
                &&& items(v@) == picked(final(self).source(), final(self).indexes())
            },
    {
        let n = self.source.len();
        let ghost before = self.seed_skip@;
        let mut skip: Vec<usize> = Vec::new();
        std::mem::swap(&mut skip, &mut self.seed_skip);
        let mut seed_iter = SimpleCombinationsIterator {
            source: self.seed.as_slice(),
            skip,
            consumed: self.seed_consumed,
        };
        let chosen = seed_iter.next();
        self.seed_skip = seed_iter.skip;
        self.seed_consumed = seed_iter.consumed;
        match chosen {
            Some(seed_indexes) => {
                let output_size = self.counters.len();
                let ghost want = kept(positions(n as int), before, n as int);
                proof {
                    lemma_kept_positions(before, n as int, n as int);
                }
                self.indexes.clear();
                let mut i: usize = 0;
                while i < seed_indexes.len()
                    invariant
                        i <= seed_indexes@.len(),
                        items(seed_indexes@) == want,
                        self.indexes@.len() == i,
                        forall|j: int| 0 <= j < i ==> self.indexes@[j] == want[j],
                        self.source == old(self).source,
                        self.seed == old(self).seed,
                        self.counters == old(self).counters,
                        self.seed_skip@ == seed_iter.skip@,
                        self.seed_consumed == seed_iter.consumed,
                    decreases seed_indexes@.len() - i,
                {
                    proof {
                        assert(items(seed_indexes@)[i as int] == *seed_indexes@[i as int]);
                    }
                    self.indexes.push(*seed_indexes[i]);
                    i += 1;
                }
                self.counters.clear();
                self.counters.resize(output_size, 0);
                self.current_output = 1;
                proof {
                    assert(self.indexes@ =~= want);
                    assert(self.counters@ =~= zeroed(old(self).counters@, 0, old(self).counters@.len() as int));
                }
                Some(swizzle(self.source, &self.indexes))
            },
            None => {
                proof {
                    assert(self.seed_skip@ =~= old(self).seed_skip@);
                }
                None
            },
        }
    }

    /// Hands out the next selection: the next order of the current
    /// combination where one is left, else the next combination. Returns
    /// `None` once every order of every combination has been handed out.
    pub fn next(&mut self) -> (res: Option<Vec<&'a T>>)
        requires
            old(self).wf(),
        ensures
            final(self).wf(),
            final(self).source() == old(self).source(),
            res is Some == has_next(old(self).state()),
            final(self).state() == step(old(self).state(), old(self).source().len() as int),
            res matches Some(v) ==> items(v@) == picked(final(self).source(), final(self).indexes()),
    {
        let ghost from = self.current_output as int;
        let ghost start = self.counters@;
        while self.current_output < self.counters.len()
            invariant
                self.wf(),
                self.source == old(self).source,
                self.seed_skip@ == old(self).seed_skip@,
                self.seed_consumed == old(self).seed_consumed,
                self.indexes@ == old(self).indexes@,
                from == old(self).current_output,
                start == old(self).counters@,
                from <= self.current_output,
                from < start.len() ==> self.current_output <= start.len(),
                from >= start.len() ==> self.current_output == from,
                self.counters@ == zeroed(start, from, self.current_output as int),
                scan_stop(start, from) == scan_stop(start, self.current_output as int),
            decreases self.counters@.len() - self.current_output,
        {
            let ghost at = self.current_output as int;
            if let Some(result) = self.try_gen_permutation() {
                proof {
                    assert(scan_stop(start, at) == at);
                    assert(self.counters@ =~= zeroed(start, from, at).update(at, (start[at] + 1) as usize));
                }
                return Some(result);
            }
            proof {
                assert(self.counters@ =~= zeroed(start, from, at + 1));
            }
        }
        proof {
            let len = start.len() as int;
            lemma_scan_stop(start, self.current_output as int);
            assert(self.counters@ =~= zeroed(start, from, len));
            assert(zeroed(self.counters@, 0, len) =~= zeroed(start, 0, len));
        }
        self.try_next_seed()
    }
}

} // verus!
