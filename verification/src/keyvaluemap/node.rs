//! The tree node and the mathematical reading of a tree: its level, its
//! in-order sequence and the AA balance rules.

use vstd::prelude::*;
use vstd::arithmetic::power2::{pow2, lemma_pow2_unfold, lemma2_to64};

verus! {

/// One node of an AA tree. It owns both of its subtrees.
#[derive(Debug)]
pub struct TreeNode<T> {
    pub value: T,
    pub left: Option<Box<TreeNode<T>>>,
    pub right: Option<Box<TreeNode<T>>>,
    pub level: usize,
}

/// The level of a tree: 0 for the empty tree, else the level of its root.
pub open spec fn level_of<T>(t: Option<Box<TreeNode<T>>>) -> nat {
    match t {
        None => 0,
        Some(n) => n.level as nat,
    }
}

/// The level of the right child of the root; 0 where there is none.
pub open spec fn right_level<T>(t: Option<Box<TreeNode<T>>>) -> nat {
    match t {
        None => 0,
        Some(n) => level_of(n.right),
    }
}

/// The left subtree of a tree; empty where the tree is.
pub open spec fn left_of<T>(t: Option<Box<TreeNode<T>>>) -> Option<Box<TreeNode<T>>> {
    match t {
        None => None,
        Some(n) => n.left,
    }
}

/// The right subtree of a tree; empty where the tree is.
pub open spec fn right_of<T>(t: Option<Box<TreeNode<T>>>) -> Option<Box<TreeNode<T>>> {
    match t {
        None => None,
        Some(n) => n.right,
    }
}

/// A tree with its left subtree replaced.
pub open spec fn with_left<T>(t: Option<Box<TreeNode<T>>>, l: Option<Box<TreeNode<T>>>) -> Option<
    Box<TreeNode<T>>,
> {
    match t {
        None => None,
        Some(n) => Some(Box::new(TreeNode { value: n.value, left: l, right: n.right, level: n.level })),
    }
}

/// A tree with its right subtree replaced.
pub open spec fn with_right<T>(t: Option<Box<TreeNode<T>>>, r: Option<Box<TreeNode<T>>>) -> Option<
    Box<TreeNode<T>>,
> {
    match t {
        None => None,
        Some(n) => Some(Box::new(TreeNode { value: n.value, left: n.left, right: r, level: n.level })),
    }
}

/// A tree with the value at its root replaced.
pub open spec fn with_value<T>(t: Option<Box<TreeNode<T>>>, v: T) -> Option<Box<TreeNode<T>>> {
    match t {
        None => None,
        Some(n) => Some(Box::new(TreeNode { value: v, left: n.left, right: n.right, level: n.level })),
    }
}

/// The values of a tree from left to right.
pub open spec fn in_order<T>(t: Option<Box<TreeNode<T>>>) -> Seq<T>
    decreases t,
{
    match t {
        None => Seq::empty(),
        Some(n) => in_order(n.left).push(n.value) + in_order(n.right),
    }
}

/// The AA rules, at every node: the left child is exactly one level below
/// its parent; the right child is on the parent's level or one below; and
/// the right child of a right child is strictly below its grandparent.
pub open spec fn balanced<T>(t: Option<Box<TreeNode<T>>>) -> bool
    decreases t,
{
    match t {
        None => true,
        Some(n) => {
            &&& balanced(n.left)
            &&& balanced(n.right)
            &&& level_of(n.left) + 1 == n.level
            &&& level_of(n.right) <= n.level <= level_of(n.right) + 1
            &&& right_level(n.right) < n.level
        },
    }
}

/// The AA rules as they read at a single node: the level is at least 1, and
/// 1 at a leaf; the left child is below the node; the right child is not
/// above it, and the right child of the right child is below it; a node
/// above level 1 has both children; and a node on level 1 has no left
/// child.
pub open spec fn node_rules<T>(n: TreeNode<T>) -> bool {
    &&& n.level >= 1
    &&& (n.left is None && n.right is None ==> n.level == 1)
    &&& level_of(n.left) < n.level
    &&& level_of(n.right) <= n.level
    &&& right_level(n.right) < n.level
    &&& (n.level > 1 ==> n.left is Some && n.right is Some)
    &&& (n.level == 1 ==> n.left is None)
}

/// `node_rules` holds at every node of the tree.
pub open spec fn rules_everywhere<T>(t: Option<Box<TreeNode<T>>>) -> bool
    decreases t,
{
    match t {
        None => true,
        Some(n) => node_rules(*n) && rules_everywhere(n.left) && rules_everywhere(n.right),
    }
}

/// In a balanced tree every node keeps `node_rules`.
pub proof fn lemma_balanced_rules<T>(t: Option<Box<TreeNode<T>>>)
    requires
        balanced(t),
    ensures
        rules_everywhere(t),
    decreases t,
{
    match t {
        None => {},
        Some(n) => {
            lemma_balanced_rules(n.left);
            lemma_balanced_rules(n.right);
        },
    }
}

/// A balanced tree of level `l` holds at least `2^l - 1` values: its level
/// is logarithmic in its size.
pub proof fn lemma_level_logarithmic<T>(t: Option<Box<TreeNode<T>>>)
    requires
        balanced(t),
    ensures
        pow2(level_of(t)) <= in_order(t).len() + 1,
    decreases t,
{
    match t {
        None => {
            lemma2_to64();
        },
        Some(n) => {
            lemma_level_logarithmic(n.left);
            lemma_level_logarithmic(n.right);
            lemma_pow2_unfold(n.level as nat);
            if level_of(n.right) == n.level {
                lemma_pow2_unfold(level_of(n.right));
            }
        },
    }
}

/// A balanced tree holds at least as many values as its level.
pub proof fn lemma_level_le_len<T>(t: Option<Box<TreeNode<T>>>)
    requires
        balanced(t),
    ensures
        level_of(t) <= in_order(t).len(),
    decreases t,
{
    match t {
        None => {},
        Some(n) => {
            lemma_level_le_len(n.left);
        },
    }
}

} // verus!
