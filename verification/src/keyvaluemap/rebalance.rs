//! The repair that follows a removal below a node: lower the level, skew
//! three times, split twice.

use vstd::prelude::*;
use crate::keyvaluemap::node::{TreeNode, level_of, right_level, right_of, with_right, in_order,
    balanced};
use crate::keyvaluemap::rotate::{skew, skew_spec, split, split_spec, split_applies, decrease_level,
    decrease_level_spec, lowered_level};

verus! {

/// Skew at the root, at its right child, and at that child's right child.
pub open spec fn skew_chain<T>(t: Option<Box<TreeNode<T>>>) -> Option<Box<TreeNode<T>>> {
    let a = skew_spec(t);
    let b = with_right(a, skew_spec(right_of(a)));
    match right_of(b) {
        None => b,
        Some(r) => with_right(b, with_right(right_of(b), skew_spec(r.right))),
    }
}

/// Split at the root, then at its right child.
pub open spec fn split_chain<T>(t: Option<Box<TreeNode<T>>>) -> Option<Box<TreeNode<T>>> {
    let a = split_spec(t);
    with_right(a, split_spec(right_of(a)))
}

/// The whole repair: lower the level, skew three times, split twice.
pub open spec fn rebalance_spec<T>(t: Option<Box<TreeNode<T>>>) -> Option<Box<TreeNode<T>>> {
    split_chain(skew_chain(decrease_level_spec(t)))
}

/// The left subtree stands two levels below the node; the right one is as
/// the AA rules want it.
pub open spec fn left_sunk<T>(t: TreeNode<T>) -> bool {
    &&& level_of(t.left) + 2 == t.level
    &&& level_of(t.right) <= t.level <= level_of(t.right) + 1
    &&& right_level(t.right) < t.level
}

/// The right subtree stands two levels below the node; the left one is as
/// the AA rules want it.
pub open spec fn right_sunk<T>(t: TreeNode<T>) -> bool {
    &&& level_of(t.left) + 1 == t.level
    &&& level_of(t.right) + 2 == t.level
}

/// The state of a node below which one value has just been removed: both
/// subtrees are balanced, and either the node still keeps the AA rules, or
/// its left subtree has sunk one level too low, or its right subtree has.
pub open spec fn near_balanced<T>(t: TreeNode<T>) -> bool {
    &&& balanced(t.left)
    &&& balanced(t.right)
    &&& {
        ||| balanced(Some(Box::new(t)))
        ||| left_sunk(t)
        ||| right_sunk(t)
    }
}

/// How the level of a tree may move when one value leaves it: it stays, and
/// then no horizontal right link appears at the root that was not there; or
/// it sinks by one.
pub open spec fn level_kept_or_sunk<T>(before: Option<Box<TreeNode<T>>>, after: Option<Box<TreeNode<T>>>) -> bool {
    ||| {
        &&& level_of(after) == level_of(before)
        &&& (right_level(after) == level_of(before) ==> right_level(before) == level_of(before))
    }
    ||| level_of(after) + 1 == level_of(before)
}

/// What the repair achieves on a node in the state `near_balanced`: the
/// AA rules hold again, and the level stayed or sank by one.
pub open spec fn repaired<T>(t: Option<Box<TreeNode<T>>>) -> bool {
    &&& rebalance_spec(t) is Some
    &&& balanced(rebalance_spec(t))
    &&& level_kept_or_sunk(t, rebalance_spec(t))
}

/// Neither `split` of the repair raises a level beyond `usize`.
pub open spec fn repair_in_bounds<T>(t: Option<Box<TreeNode<T>>>) -> bool {
    let a = skew_chain(decrease_level_spec(t));
    let b = split_spec(a);
    &&& (split_applies(a) ==> right_level(a) < usize::MAX)
    &&& (split_applies(right_of(b)) ==> right_level(right_of(b)) < usize::MAX)
}

/// No step of the repair of the node `t` meets a machine limit: neither
/// the level that `decrease_level` computes nor the level that a `split`
/// raises goes beyond `usize`.
#[verifier::opaque]
pub open spec fn repairable<T>(t: TreeNode<T>) -> bool {
    lowered_level(t) <= usize::MAX && repair_in_bounds(Some(Box::new(t)))
}

/// On a balanced tree the repair changes nothing.
pub proof fn lemma_rebalance_intact<T>(t: Option<Box<TreeNode<T>>>)
    requires
        balanced(t),
    ensures
        rebalance_spec(t) == t,
        repair_in_bounds(t),
{
    reveal_with_fuel(balanced, 4);
    match t {
        None => {},
        Some(n) => {
            assert(decrease_level_spec(t) == t);
            assert(skew_spec(t) == t);
            assert(skew_spec(n.right) == n.right);
            assert(with_right(t, n.right) == t);
            match n.right {
                None => {},
                Some(r) => {
                    assert(skew_spec(r.right) == r.right);
                    assert(with_right(n.right, r.right) == n.right);
                },
            }
            assert(skew_chain(t) == t);
            assert(split_spec(t) == t);
            assert(split_spec(n.right) == n.right);
        },
    }
}

/// The repair after the left subtree has sunk, where the right child stood
/// one level below the node: the node comes down to its right child, and
/// is split where that child had a horizontal right link.
#[verifier::rlimit(50)]
proof fn lemma_left_sunk_low_right<T>(t: Option<Box<TreeNode<T>>>)
    requires
        t is Some,
        balanced(t->0.left),
        balanced(t->0.right),
        left_sunk(*t->0),
        level_of(t->0.right) + 1 == t->0.level,
    ensures
        repaired(t),
        repair_in_bounds(t),
{
    reveal_with_fuel(balanced, 3);
    let n = t->0;
    let d = decrease_level_spec(t);
    assert(d == Some(Box::new(TreeNode { value: n.value, left: n.left, right: n.right, level: (n.level - 1) as usize })));
    assert(skew_spec(d) == d);
    assert(skew_spec(n.right) == n.right);
    assert(with_right(d, n.right) == d);
    let r = n.right->0;
    assert(skew_spec(r.right) == r.right);
    assert(with_right(n.right, r.right) == n.right);
    assert(skew_chain(d) == d);
    let b = split_spec(d);
    assert(split_spec(right_of(b)) == right_of(b));
    assert(with_right(b, right_of(b)) == b);
    assert(rebalance_spec(t) == b);
}

/// The repair after the left subtree has sunk, where the right child stood
/// on the node's level: both come down, the skews lay the nodes of that
/// level out along the right spine, and the splits fold it up again.
#[verifier::rlimit(50)]
proof fn lemma_left_sunk_level_right<T>(t: Option<Box<TreeNode<T>>>)
    requires
        t is Some,
        balanced(t->0.left),
        balanced(t->0.right),
        left_sunk(*t->0),
        level_of(t->0.right) == t->0.level,
    ensures
        repaired(t),
        repair_in_bounds(t),
{
    reveal_with_fuel(balanced, 4);
    let n = t->0;
    let r = n.right->0;
    let low = (n.level - 1) as usize;
    let d = decrease_level_spec(t);
    assert(d == Some(Box::new(TreeNode {
        value: n.value,
        left: n.left,
        right: Some(Box::new(TreeNode { value: r.value, left: r.left, right: r.right, level: low })),
        level: low,
    })));
    assert(skew_spec(d) == d);
    let a = skew_chain(d);
    assert(split_applies(a));
    let b = split_spec(a);
    let c = with_right(b, split_spec(right_of(b)));
    assert(rebalance_spec(t) == c);
    assert(balanced(c));
}

/// The repair after the right subtree has sunk: the node comes down to its
/// left child, which a skew makes the root.
#[verifier::rlimit(50)]
proof fn lemma_right_sunk<T>(t: Option<Box<TreeNode<T>>>)
    requires
        t is Some,
        balanced(t->0.left),
        balanced(t->0.right),
        right_sunk(*t->0),
    ensures
        repaired(t),
        repair_in_bounds(t),
{
    reveal_with_fuel(balanced, 5);
}

/// The repair restores the AA rules on every state that a removal below
/// the node can leave, and changes nothing where they were not broken.
pub proof fn lemma_rebalance<T>(t: Option<Box<TreeNode<T>>>)
    requires
        t is Some,
        near_balanced(*t->0),
    ensures
        repaired(t),
        repair_in_bounds(t),
        lowered_level(*t->0) <= usize::MAX,
        balanced(t) ==> rebalance_spec(t) == t,
{
    if balanced(t) {
        lemma_rebalance_intact(t);
    } else if left_sunk(*t->0) {
        if level_of(t->0.right) == t->0.level {
            lemma_left_sunk_level_right(t);
        } else {
            lemma_left_sunk_low_right(t);
        }
    } else {
        lemma_right_sunk(t);
    }
}

/// A node in the state that a removal below it leaves can be repaired.
pub proof fn lemma_near_balanced_repairable<T>(t: TreeNode<T>)
    requires
        near_balanced(t),
    ensures
        repairable(t),
{
    reveal(repairable);
    lemma_rebalance(Some(Box::new(t)));
}

/// The repair of a node below which a value was removed: lowers the level,
/// skews the node, its right child and that child's right child, then
/// splits the node and its right child. On a node in the state
/// `near_balanced` the AA rules hold again afterwards.
pub fn rebalance<T>(tree: Box<TreeNode<T>>) -> (res: Box<TreeNode<T>>)
    requires
        repairable(*tree),
    ensures
        Some(res) == rebalance_spec(Some(tree)),
        in_order(Some(res)) == in_order(Some(tree)),
        near_balanced(*tree) ==> balanced(Some(res)) && level_kept_or_sunk(Some(tree), Some(res)),
        balanced(Some(tree)) ==> res == tree,
{
    proof {
        reveal(repairable);
        if near_balanced(*tree) {
            lemma_rebalance(Some(tree));
        }
    }
    let ghost before = in_order(Some(tree));
    let mut tree = skew(decrease_level(Some(tree))).unwrap();
    tree.right = skew(tree.right);
    if let Some(mut r) = tree.right {
        r.right = skew(r.right);
        tree.right = Some(r);
    }
    proof {
        reveal_with_fuel(in_order, 3);
        assert(in_order(Some(tree)) == before);
    }
    tree = split(Some(tree)).unwrap();
    tree.right = split(tree.right);
    tree
}

} // verus!
