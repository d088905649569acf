//! Three small verified libraries: an ordered key-value map kept in an AA
//! tree, generators of permutations, combinations, subsets and sublists of
//! a slice, and the board of Conway's game of life.

pub mod keyvaluemap;
pub mod combinatorial;
pub mod gameoflife;
