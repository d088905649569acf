//! Selections in which an item may come more than once: every list of a
//! given length over the slice, and every such list up to order.

use vstd::prelude::*;
use crate::combinatorial::digits::{CombinatorialError, add_with_carry, swizzle, is_all_zero,
    all_zero, in_range, items, picked, carried, carry_stop, bump, lemma_carried_in_range,
    lemma_carry_stop};

verus! {

/// Generates the permutations with repetition of a slice: every list of
/// `output_size` items of it, counted through like a number whose digits
/// are positions in the slice, least digit first.
pub struct GeneralPermutationsIterator<'a, T> {
    source: &'a [T],
    indexes: Vec<usize>,
    modified: bool,
}

impl<'a, T> GeneralPermutationsIterator<'a, T> {
    /// The slice that the selections are made from.
    pub closed spec fn source(&self) -> Seq<T> {
        self.source@
    }

    /// The positions of the selection that `next` hands out next.
    pub closed spec fn indexes(&self) -> Seq<usize> {
        self.indexes@
    }

    /// Whether a selection has been handed out.
    pub closed spec fn modified(&self) -> bool {
        self.modified
    }

    /// Every position lies within the slice.
    pub open spec fn wf(&self) -> bool {
        in_range(self.indexes(), self.source().len() as int)
    }

    /// A generator of the lists of `output_size` items of `source`. Fails
    /// where items are asked of an empty slice.
    pub fn new(source: &'a [T], output_size: usize) -> (res: Result<
        GeneralPermutationsIterator<'a, T>,
        CombinatorialError,
    >)
        ensures
            res is Err == (source@.len() == 0 && output_size > 0),
            res matches Ok(it) ==> {
                &&& it.wf()
                &&& it.source() == source@
                &&& it.indexes().len() == output_size
                &&& all_zero(it.indexes())
                &&& !it.modified()
            },
    {
        if source.len() == 0 && output_size > 0 {
            return Err(CombinatorialError::OutputSizeTooLarge);
        }
        Ok(GeneralPermutationsIterator { source, indexes: vec![0; output_size], modified: false })
    }

    /// Hands out the selection at the current positions and counts one
    /// further. Returns `None`, and changes nothing, once the count has
    /// come round to zero again.
    pub fn next(&mut self) -> (res: Option<Vec<&'a T>>)
        requires
            old(self).wf(),
        ensures
            final(self).wf(),
            final(self).source() == old(self).source(),
            res is None == (old(self).modified() && all_zero(old(self).indexes())),
            res is None ==> *final(self) == *old(self),
            res matches Some(v) ==> {
                &&& items(v@) == picked(old(self).source(), old(self).indexes())
                &&& final(self).indexes() == carried(old(self).indexes(), old(self).source().len() as int)
                &&& final(self).modified()
            },
    {
        if is_all_zero(&self.indexes) && self.modified {
            None
        } else {
            let result = swizzle(self.source, &self.indexes);
            let base = self.source.len();
            proof {
                lemma_carried_in_range(self.indexes@, base as int);
            }
            add_with_carry(&mut self.indexes, base);
            self.modified = true;
            Some(result)
        }
    }
}

/// The number after `s` among those whose digits never rise from one
/// position to the next lower one: one is added as in `carried`, and the
/// digits that wrapped take the value of the digit where the carry stopped.
pub open spec fn carried_level(s: Seq<usize>, base: int) -> Seq<usize> {
    let stop = carry_stop(s, base, 0);
    Seq::new(
        s.len(),
        |j: int|
            if stop >= s.len() {
                0usize
            } else if j <= stop {
                bump(s[stop], base) as usize
            } else {
                s[j]
            },
    )
}

/// Generates the combinations with repetition of a slice: every list of
/// `output_size` items of it up to order, each as the list whose positions
/// never rise from one place to the next lower one.
pub struct GeneralCombinationsIterator<'a, T> {
    source: &'a [T],
    indexes: Vec<usize>,
    modified: bool,
}

impl<'a, T> GeneralCombinationsIterator<'a, T> {
    /// The slice that the selections are made from.
    pub closed spec fn source(&self) -> Seq<T> {
        self.source@
    }

    /// The positions of the selection that `next` hands out next.
    pub closed spec fn indexes(&self) -> Seq<usize> {
        self.indexes@
    }

    /// Whether a selection has been handed out.
    pub closed spec fn modified(&self) -> bool {
        self.modified
    }

    /// Every position lies within the slice.
    pub open spec fn wf(&self) -> bool {
        in_range(self.indexes(), self.source().len() as int)
    }

    /// A generator of the lists of `output_size` items of `source` up to
    /// order. Fails where items are asked of an empty slice.
    pub fn new(source: &'a [T], output_size: usize) -> (res: Result<
        GeneralCombinationsIterator<'a, T>,
        CombinatorialError,
    >)
        ensures
            res is Err == (source@.len() == 0 && output_size > 0),
            res matches Ok(it) ==> {
                &&& it.wf()
                &&& it.source() == source@
                &&& it.indexes().len() == output_size
                &&& all_zero(it.indexes())
                &&& !it.modified()
            },
    {
        if source.len() == 0 && output_size > 0 {
            return Err(CombinatorialError::OutputSizeTooLarge);
        }
        Ok(GeneralCombinationsIterator { source, indexes: vec![0; output_size], modified: false })
    }

    /// Hands out the selection at the current positions and moves to the
    /// next one. Returns `None`, and changes nothing, once the positions
    /// have come round to zero again.
    pub fn next(&mut self) -> (res: Option<Vec<&'a T>>)
        requires
            old(self).wf(),
        ensures
            final(self).wf(),
            final(self).source() == old(self).source(),
            res is None == (old(self).modified() && all_zero(old(self).indexes())),
            res is None ==> *final(self) == *old(self),
            res matches Some(v) ==> {
                &&& items(v@) == picked(old(self).source(), old(self).indexes())
                &&& final(self).indexes() == carried_level(
                    old(self).indexes(),
                    old(self).source().len() as int,
                )
                &&& final(self).modified()
            },
    {
        if is_all_zero(&self.indexes) && self.modified {
            None
        } else {
            let result = swizzle(self.source, &self.indexes);
            let base = self.source.len();
            let ghost before = self.indexes@;
            proof {
                lemma_carried_in_range(before, base as int);
                lemma_carry_stop(before, base as int, 0);
            }
            let (modified_index, new_index_value) = add_with_carry(&mut self.indexes, base);
            let mut j: usize = 0;
            while j < modified_index
                invariant
                    j <= modified_index,
                    self.source == old(self).source,
                    self.modified == old(self).modified,
                    self.indexes@.len() == before.len(),
                    carry_stop(before, base as int, 0) < before.len() ==> modified_index == carry_stop(
                        before,
                        base as int,
                        0,
                    ) && new_index_value == bump(before[modified_index as int], base as int),
                    carry_stop(before, base as int, 0) >= before.len() ==> modified_index == 0,
                    forall|i: int| 0 <= i < j ==> self.indexes@[i] == new_index_value,
                    forall|i: int| j <= i < before.len() ==> self.indexes@[i] == carried(before, base as int)[i],
                decreases modified_index - j,
            {
                self.indexes[j] = new_index_value;
                j += 1;
            }
            proof {
                lemma_carry_stop(before, base as int, 0);
                let want = carried_level(before, base as int);
                assert forall|i: int| 0 <= i < before.len() implies self.indexes@[i] == want[i] by {
                    if i >= j {
                        assert(self.indexes@[i] == carried(before, base as int)[i]);
                    }
                }
                assert(self.indexes@ =~= carried_level(before, base as int));
                assert forall|i: int| 0 <= i < self.indexes@.len() implies (#[trigger] self.indexes@[i])
                    < base by {
                    assert(carried(before, base as int)[i] < base);
                }
            }
            self.modified = true;
            Some(result)
        }
    }
}

} // verus!
