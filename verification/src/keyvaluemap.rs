//! An ordered key-value map kept in an AA tree.
//!
//! `kvmap` holds the map itself; `insert`, `remove`, `rebalance` and
//! `rotate` hold the tree operations under it; `node` and `order` say what
//! a balanced, sorted tree is; `model` states the map as a sequence of
//! entries and the laws of looking up, putting in and taking out.

pub mod order;
pub mod node;
pub mod rotate;
pub mod rebalance;
pub mod insert;
pub mod remove;
pub mod pair;
pub mod keys;
pub mod model;
pub mod kvmap;
