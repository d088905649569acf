//! Generators of the permutations, combinations, subsets and sublists of a
//! slice. Each hands out one selection per call of `next`, as a vector of
//! references into the slice.

pub mod digits;
pub mod general;
pub mod simple;
pub mod subsets;
