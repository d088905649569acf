//! Removal from an AA tree: taking out the least or the greatest value of a
//! subtree, and deleting the value equivalent to a given one.

use vstd::prelude::*;
use crate::keyvaluemap::node::{TreeNode, with_left, with_right, with_value, in_order, balanced};
use crate::keyvaluemap::order::{less, greater, equivalent, strict_weak_order, sorted, holds, removed_at,
    lemma_sorted_parts, lemma_sorted_remove, lemma_holds_before, lemma_holds_after,
    lemma_removed_before, lemma_removed_after};
use crate::keyvaluemap::rebalance::{rebalance, rebalance_spec, level_kept_or_sunk,
    lemma_near_balanced_repairable};

verus! {

/// A node that has left the tree: a leaf on level 1.
pub open spec fn detached<T>(n: TreeNode<T>) -> bool {
    n.left is None && n.right is None && n.level == 1
}

/// What `predecessor` returns, node for node: the last node of the right
/// spine leaves, its left subtree takes its place, and every node above
/// it is repaired on the way back.
pub open spec fn last_taken<T>(t: TreeNode<T>) -> (Option<Box<TreeNode<T>>>, TreeNode<T>)
    decreases t,
{
    match t.right {
        None => (t.left, TreeNode { value: t.value, left: None, right: None, level: t.level }),
        Some(r) => {
            let below = last_taken(*r);
            (rebalance_spec(with_right(Some(Box::new(t)), below.0)), below.1)
        },
    }
}

/// What `successor` returns, node for node: the last node of the left
/// spine leaves, its right subtree takes its place, and every node above
/// it is repaired on the way back.
pub open spec fn first_taken<T>(t: TreeNode<T>) -> (Option<Box<TreeNode<T>>>, TreeNode<T>)
    decreases t,
{
    match t.left {
        None => (t.right, TreeNode { value: t.value, left: None, right: None, level: t.level }),
        Some(l) => {
            let below = first_taken(*l);
            (rebalance_spec(with_left(Some(Box::new(t)), below.0)), below.1)
        },
    }
}

/// What `delete` returns, node for node. The search goes left of a greater
/// value and right of a lesser one. A leaf that is found leaves. An inner
/// node that is found stays: it gives its value to the node that leaves,
/// which is the first of its right subtree where it has no left one, else
/// the last of its left subtree, and takes that node's value. Every node
/// on the way back is repaired.
pub open spec fn deleted<T: PartialOrd>(root: Option<Box<TreeNode<T>>>, x: T) -> (
    Option<Box<TreeNode<T>>>,
    Option<TreeNode<T>>,
)
    decreases root,
{
    match root {
        None => (None, None),
        Some(t) => if less(x, t.value) {
            let below = deleted(t.left, x);
            (rebalance_spec(with_left(root, below.0)), below.1)
        } else if greater(x, t.value) {
            let below = deleted(t.right, x);
            (rebalance_spec(with_right(root, below.0)), below.1)
        } else if t.left is None && t.right is None {
            (None, Some(*t))
        } else if t.left is None {
            let below = first_taken(*t.right->0);
            (
                rebalance_spec(with_right(with_value(root, below.1.value), below.0)),
                Some(TreeNode { value: t.value, left: None, right: None, level: below.1.level }),
            )
        } else {
            let below = last_taken(*t.left->0);
            (
                rebalance_spec(with_left(with_value(root, below.1.value), below.0)),
                Some(TreeNode { value: t.value, left: None, right: None, level: below.1.level }),
            )
        },
    }
}

/// Takes the greatest value out of the tree `t`, in one pass down its right
/// spine. Returns the rest, balanced again, and the node that left.
pub fn predecessor<T>(t: Box<TreeNode<T>>) -> (res: (Option<Box<TreeNode<T>>>, Box<TreeNode<T>>))
    requires
        balanced(Some(t)),
    ensures
        res.0 == last_taken(*t).0,
        *res.1 == last_taken(*t).1,
        balanced(res.0),
        in_order(Some(t)) == in_order(res.0).push(res.1.value),
        level_kept_or_sunk(Some(t), res.0),
        detached(*res.1),
    decreases t,
{
    let mut t = t;
    let ghost before = t;
    if t.right.is_none() {
        let mut rest = None;
        std::mem::swap(&mut rest, &mut t.left);
        proof {
            reveal_with_fuel(in_order, 2);
            assert(in_order(Some(before)) =~= in_order(rest).push(t.value));
        }
        return (rest, t);
    }
    let (sub, last) = predecessor(t.right.unwrap());
    t.right = sub;
    proof {
        assert(in_order(Some(before)) =~= in_order(Some(t)).push(last.value));
    }
    proof {
        lemma_near_balanced_repairable(*t);
    }
    let tree = rebalance(t);
    (Some(tree), last)
}

/// Takes the least value out of the tree `t`, in one pass down its left
/// spine. Returns the rest, balanced again, and the node that left.
pub fn successor<T>(t: Box<TreeNode<T>>) -> (res: (Option<Box<TreeNode<T>>>, Box<TreeNode<T>>))
    requires
        balanced(Some(t)),
    ensures
        res.0 == first_taken(*t).0,
        *res.1 == first_taken(*t).1,
        balanced(res.0),
        in_order(Some(t)) == seq![res.1.value] + in_order(res.0),
        level_kept_or_sunk(Some(t), res.0),
        detached(*res.1),
    decreases t,
{
    let mut t = t;
    let ghost before = t;
    if t.left.is_none() {
        let mut rest = None;
        std::mem::swap(&mut rest, &mut t.right);
        proof {
            reveal_with_fuel(in_order, 2);
            assert(in_order(Some(before)) =~= seq![t.value] + in_order(rest));
        }
        return (rest, t);
    }
    let (sub, first) = successor(t.left.unwrap());
    t.left = sub;
    proof {
        assert(in_order(Some(before)) =~= seq![first.value] + in_order(Some(t)));
    }
    proof {
        lemma_near_balanced_repairable(*t);
    }
    let tree = rebalance(t);
    (Some(tree), first)
}

/// Takes out of the tree the value equivalent to `x`, if there is one, and
/// restores the AA rules on the way back up. Returns the tree and the node
/// that left, which carries the value found. Where the found value stood at
/// an inner node, that node keeps its place and takes over the value of its
/// neighbour in order, whose leaf is the one that leaves.
#[verifier::rlimit(40)]
pub fn delete<T: PartialEq + PartialOrd>(root: Option<Box<TreeNode<T>>>, x: &T) -> (res: (
    Option<Box<TreeNode<T>>>,
    Option<Box<TreeNode<T>>>,
))
    requires
        strict_weak_order::<T>(),
        balanced(root),
        sorted(in_order(root)),
    ensures
        res.0 == deleted(root, *x).0,
        match res.1 {
            Some(node) => deleted(root, *x).1 == Some(*node),
            None => deleted(root, *x).1 is None,
        },
        balanced(res.0),
        sorted(in_order(res.0)),
        res.1 is Some == holds(in_order(root), *x),
        res.1 is None ==> res.0 == root,
        res.1 is Some ==> detached(*res.1->0) && exists|k: int| #[trigger]
            removed_at(in_order(root), in_order(res.0), k, *x, res.1->0.value),
        level_kept_or_sunk(root, res.0),
    decreases root,
{
    let ghost whole = in_order(root);
    let ghost at: int;
    let (tree, deleted) = match root {
        None => {
            return (None, None);
        },
        Some(mut t) => {
            let ghost a = in_order(t.left);
            let ghost b = in_order(t.right);
            let ghost v = t.value;
            proof {
                lemma_sorted_parts(a, v, b);
            }
            if *x < t.value {
                let (sub, deleted) = delete(t.left, x);
                t.left = sub;
                proof {
                    assert(less(*x, v));
                    lemma_holds_before(a, v, b, *x);
                    if deleted is Some {
                        let k = choose|k: int| #[trigger] removed_at(a, in_order(sub), k, *x, deleted->0.value);
                        lemma_removed_before(a, in_order(sub), v, b, k, *x, deleted->0.value);
                        at = k;
                    }
                }
                (t, deleted)
            } else if *x > t.value {
                let (sub, deleted) = delete(t.right, x);
                t.right = sub;
                proof {
                    assert(greater(*x, v));
                    lemma_holds_after(a, v, b, *x);
                    if deleted is Some {
                        let k = choose|k: int| #[trigger] removed_at(b, in_order(sub), k, *x, deleted->0.value);
                        lemma_removed_after(a, v, b, in_order(sub), k, *x, deleted->0.value);
                        at = a.len() + 1 + k;
                    }
                }
                (t, deleted)
            } else {
                proof {
                    at = a.len() as int;
                    assert(!greater(*x, v));
                    assert(whole[at] == v);
                    assert(equivalent(whole[at], *x));
                }
                if t.left.is_none() && t.right.is_none() {
                    proof {
                        assert(in_order(None::<Box<TreeNode<T>>>) =~= whole.remove(at));
                        assert(removed_at(whole, in_order(None::<Box<TreeNode<T>>>), at, *x, v));
                        lemma_sorted_remove(whole, at);
                    }
                    return (None, Some(t));
                } else if t.left.is_none() {
                    let r = t.right;
                    let (sub, mut succ) = successor(r.unwrap());
                    t.right = sub;
                    std::mem::swap(&mut t.value, &mut succ.value);
                    proof {
                        assert(in_order(Some(t)) =~= whole.remove(at));
                    }
                    (t, Some(succ))
                } else {
                    let l = t.left;
                    let (sub, mut pre) = predecessor(l.unwrap());
                    t.left = sub;
                    std::mem::swap(&mut t.value, &mut pre.value);
                    proof {
                        assert(in_order(Some(t)) =~= whole.remove(at));
                    }
                    (t, Some(pre))
                }
            }
        },
    };
    proof {
        if deleted is Some {
            assert(removed_at(whole, in_order(Some(tree)), at, *x, deleted->0.value));
            lemma_sorted_remove(whole, at);
        }
        lemma_near_balanced_repairable(*tree);
    }
    let repaired = rebalance(tree);
    proof {
        if deleted is Some {
            assert(removed_at(whole, in_order(Some(repaired)), at, *x, deleted->0.value));
        }
    }
    (Some(repaired), deleted)
}

} // verus!
