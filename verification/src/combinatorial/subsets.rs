//! Selections of every size: the subsets of a slice and its sublists,
//! smallest first.

use vstd::prelude::*;
use crate::combinatorial::digits::{items, picked};
use crate::combinatorial::simple::{SimpleCombinationsIterator, SimplePermutationsIterator,
    PermutationState, falling, kept, lowest, is_last, moved_on, initial_state, has_next, step};

verus! {

/// The size that follows `size` among the sizes up to `limit`.
pub open spec fn size_after(size: usize, limit: int) -> Option<usize> {
    if size < limit {
        Some((size + 1) as usize)
    } else {
        None
    }
}

/// The sizes from a first to a last one, both included, in rising order.
pub struct Sizes {
    start: usize,
    end: usize,
    exhausted: bool,
}

impl Sizes {
    /// The size that `next` hands out next, if one is left.
    pub closed spec fn pending(&self) -> Option<usize> {
        if self.exhausted || self.start > self.end {
            None
        } else {
            Some(self.start)
        }
    }

    /// The last size.
    pub closed spec fn limit(&self) -> usize {
        self.end
    }

    /// The sizes from `start` to `end`.
    pub fn new(start: usize, end: usize) -> (res: Sizes)
        ensures
            res.limit() == end,
            res.pending() == if start <= end { Some(start) } else { None },
    {
        Sizes { start, end, exhausted: false }
    }

    /// Hands out the next size, or `None` after the last one.
    pub fn next(&mut self) -> (res: Option<usize>)
        ensures
            res == old(self).pending(),
            final(self).limit() == old(self).limit(),
            final(self).pending() == match old(self).pending() {
                Some(size) => size_after(size, old(self).limit() as int),
                None => None,
            },
            res matches Some(size) ==> size <= old(self).limit(),
    {
        if self.exhausted || self.start > self.end {
            None
        } else if self.start < self.end {
            let size = self.start;
            self.start = size + 1;
            Some(size)
        } else {
            self.exhausted = true;
            Some(self.start)
        }
    }
}

/// Generates the subsets of a slice: its combinations of size 0, then of
/// size 1, and so on up to the whole slice.
pub struct SubsetIterator<'a, T> {
    source: &'a [T],
    combinations_iter: SimpleCombinationsIterator<'a, T>,
    sizes: Sizes,
}

impl<'a, T> SubsetIterator<'a, T> {
    /// The slice that the selections are made from.
    pub closed spec fn source(&self) -> Seq<T> {
        self.source@
    }

    /// The positions that the next subset of the current size leaves out.
    pub closed spec fn skip(&self) -> Seq<usize> {
        self.combinations_iter.skip()
    }

    /// Whether the last subset of the current size has been handed out.
    pub closed spec fn consumed(&self) -> bool {
        self.combinations_iter.consumed()
    }

    /// The size that comes after the current one, if there is one.
    pub closed spec fn pending(&self) -> Option<usize> {
        self.sizes.pending()
    }

    /// The holes stand in falling order within the slice, and no size to
    /// come is larger than the slice.
    pub closed spec fn wf(&self) -> bool {
        &&& self.combinations_iter.wf()
        &&& self.combinations_iter.source() == self.source@
        &&& self.sizes.limit() == self.source@.len()
    }

    /// A generator of the subsets of `source`, which starts with the empty
    /// one.
    pub fn new(source: &'a [T]) -> (res: SubsetIterator<'a, T>)
        ensures
            res.wf(),
            res.source() == source@,
            res.skip() == lowest(source@.len() as int),
            !res.consumed(),
            res.pending() == if source@.len() >= 1 { Some(1usize) } else { None },
    {
        let combinations_iter = SimpleCombinationsIterator::new(source, 0).unwrap();
        SubsetIterator { source, combinations_iter, sizes: Sizes::new(1, source.len()) }
    }

    /// Hands out the next subset of the current size; after the last one,
    /// the first subset of the next size. Returns `None` after the subset
    /// that is the whole slice.
    pub fn next(&mut self) -> (res: Option<Vec<&'a T>>)
        requires
            old(self).wf(),
        ensures
            final(self).wf(),
            final(self).source() == old(self).source(),
            ({
                let len = old(self).source().len() as int;
                if !old(self).consumed() {
                    &&& res matches Some(v) && items(v@) == kept(old(self).source(), old(self).skip(), len)
                    &&& final(self).skip() == moved_on(old(self).skip(), len)
                    &&& final(self).consumed() == is_last(old(self).skip(), len)
                    &&& final(self).pending() == old(self).pending()
                } else {
                    match old(self).pending() {
                        Some(size) => {
                            let first = lowest(len - size);
                            &&& res matches Some(v) && items(v@) == kept(old(self).source(), first, len)
                            &&& final(self).skip() == moved_on(first, len)
                            &&& final(self).consumed() == is_last(first, len)
                            &&& final(self).pending() == size_after(size, len)
                        },
                        None => {
                            &&& res is None
                            &&& final(self).skip() == old(self).skip()
                            &&& final(self).consumed()
                            &&& final(self).pending() is None
                        },
                    }
                }
            }),
    {
        match self.combinations_iter.next() {
            Some(x) => Some(x),
            None => match self.sizes.next() {
                Some(s) => {
                    self.combinations_iter = SimpleCombinationsIterator::new(self.source, s).unwrap();
                    self.combinations_iter.next()
                },
                None => None,
            },
        }
    }
}

/// Generates the sublists of a slice: its permutations of size 0, then of
/// size 1, and so on up to the whole slice.
pub struct SublistIterator<'a, T> {
    source: &'a [T],
    combinations_iter: SimplePermutationsIterator<'a, T>,
    sizes: Sizes,
}

impl<'a, T> SublistIterator<'a, T> {
    /// The slice that the selections are made from.
    pub closed spec fn source(&self) -> Seq<T> {
        self.source@
    }

    /// Where the generator of the sublists of the current size stands.
    pub closed spec fn state(&self) -> PermutationState {
        self.combinations_iter.state()
    }

    /// The size that comes after the current one, if there is one.
    pub closed spec fn pending(&self) -> Option<usize> {
        self.sizes.pending()
    }

    /// The generator of the current size is well formed, and no size to
    /// come is larger than the slice.
    pub closed spec fn wf(&self) -> bool {
        &&& self.combinations_iter.wf()
        &&& self.combinations_iter.source() == self.source@
        &&& self.sizes.limit() == self.source@.len()
    }

    /// A generator of the sublists of `source`, which starts with the empty
    /// one.
    pub fn new(source: &'a [T]) -> (res: SublistIterator<'a, T>)
        ensures
            res.wf(),
            res.source() == source@,
            res.state() == initial_state(source@.len() as int, 0),
            res.pending() == if source@.len() >= 1 { Some(1usize) } else { None },
    {
        let combinations_iter = SimplePermutationsIterator::new(source, 0).unwrap();
        SublistIterator { source, combinations_iter, sizes: Sizes::new(1, source.len()) }
    }

    /// Hands out the next sublist of the current size; after the last one,
    /// the first sublist of the next size. Returns `None` after the last
    /// order of the whole slice.
    pub fn next(&mut self) -> (res: Option<Vec<&'a T>>)
        requires
            old(self).wf(),
        ensures
            final(self).wf(),
            final(self).source() == old(self).source(),
            ({
                let len = old(self).source().len() as int;
                if has_next(old(self).state()) {
                    &&& res is Some
                    &&& final(self).state() == step(old(self).state(), len)
                    &&& final(self).pending() == old(self).pending()
                } else {
                    match old(self).pending() {
                        Some(size) => {
                            &&& res is Some
                            &&& final(self).state() == step(initial_state(len, size as int), len)
                            &&& final(self).pending() == size_after(size, len)
                        },
                        None => {
                            &&& res is None
                            &&& final(self).state() == step(old(self).state(), len)
                            &&& final(self).pending() is None
                        },
                    }
                }
            }),
            res matches Some(v) ==> items(v@) == picked(final(self).source(), final(self).state().indexes),
    {
        match self.combinations_iter.next() {
            Some(x) => Some(x),
            None => match self.sizes.next() {
                Some(s) => {
                    self.combinations_iter = SimplePermutationsIterator::new(self.source, s).unwrap();
                    self.combinations_iter.next()
                },
                None => None,
            },
        }
    }
}

} // verus!
