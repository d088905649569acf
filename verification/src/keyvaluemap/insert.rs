//! Insertion into an AA tree.

use vstd::prelude::*;
use crate::keyvaluemap::node::{TreeNode, level_of, right_level, with_left, with_right, in_order,
    balanced, lemma_level_le_len};
use crate::keyvaluemap::order::{less, greater, equivalent, strict_weak_order, sorted, holds,
    inserted_at, lemma_sorted_parts, lemma_holds_before, lemma_holds_after, lemma_inserted_before,
    lemma_inserted_after};
use crate::keyvaluemap::rotate::{skew, skew_spec, split, split_spec, split_applies};

verus! {

/// How the level of a tree may move when one value enters it: it stays; or
/// it rises by one, which only a tree with a horizontal right link at its
/// root does, and the new root then has none.
pub open spec fn level_kept_or_risen<T>(before: Option<Box<TreeNode<T>>>, after: Option<Box<TreeNode<T>>>) -> bool {
    ||| level_of(after) == level_of(before)
    ||| {
        &&& level_of(after) == level_of(before) + 1
        &&& right_level(before) == level_of(before)
        &&& right_level(after) == level_of(before)
    }
}

/// The state of a node into one of whose subtrees a value has just entered.
pub open spec fn grown<T>(before: TreeNode<T>, after: TreeNode<T>) -> bool {
    &&& balanced(Some(Box::new(before)))
    &&& balanced(after.left)
    &&& balanced(after.right)
    &&& after.level == before.level
    &&& {
        ||| after.right == before.right && level_kept_or_risen(before.left, after.left)
        ||| after.left == before.left && level_kept_or_risen(before.right, after.right)
    }
}

/// Skew and then split restore the AA rules at a node into one of whose
/// subtrees a value has entered.
pub proof fn lemma_skew_split_grown<T>(before: TreeNode<T>, after: TreeNode<T>)
    requires
        grown(before, after),
        before.level < usize::MAX,
    ensures
        ({
            let a = skew_spec(Some(Box::new(after)));
            let b = split_spec(a);
            &&& split_applies(a) ==> right_level(a) < usize::MAX
            &&& balanced(b)
            &&& level_kept_or_risen(Some(Box::new(before)), b)
        }),
{
    reveal_with_fuel(balanced, 4);
}

/// What `insert` returns, node for node: the search goes left of a greater
/// value and right of a lesser one, a new leaf on level 1 takes the empty
/// place that it reaches, and every node on the way back is skewed and
/// then split. At a value equivalent to `x` the search ends and reports
/// `false`.
pub open spec fn inserted<T: PartialOrd>(root: Option<Box<TreeNode<T>>>, x: T) -> (
    bool,
    Option<Box<TreeNode<T>>>,
)
    decreases root,
{
    match root {
        None => (true, Some(Box::new(TreeNode { value: x, left: None, right: None, level: 1 }))),
        Some(t) => if less(x, t.value) {
            let below = inserted(t.left, x);
            (below.0, split_spec(skew_spec(with_left(root, below.1))))
        } else if greater(x, t.value) {
            let below = inserted(t.right, x);
            (below.0, split_spec(skew_spec(with_right(root, below.1))))
        } else {
            (false, split_spec(skew_spec(root)))
        },
    }
}

/// Puts `x` into the tree as a new leaf, unless the tree holds a value
/// equivalent to it, and restores the AA rules on the way back up. Returns
/// whether `x` went in, and the tree.
pub fn insert<T: PartialEq + PartialOrd>(root: Option<Box<TreeNode<T>>>, x: T) -> (res: (
    bool,
    Option<Box<TreeNode<T>>>,
))
    requires
        strict_weak_order::<T>(),
        balanced(root),
        sorted(in_order(root)),
        in_order(root).len() < usize::MAX,
    ensures
        res == inserted(root, x),
        balanced(res.1),
        sorted(in_order(res.1)),
        res.0 == !holds(in_order(root), x),
        res.0 ==> exists|k: int| #[trigger] inserted_at(in_order(root), in_order(res.1), k, x),
        !res.0 ==> res.1 == root,
        level_kept_or_risen(root, res.1),
    decreases root,
{
    match root {
        None => {
            let tree = Some(Box::new(TreeNode { value: x, left: None, right: None, level: 1 }));
            proof {
                reveal_with_fuel(in_order, 2);
                assert(in_order(tree) =~= in_order(root).insert(0, x));
                assert(inserted_at(in_order(root), in_order(tree), 0, x));
            }
            (true, tree)
        },
        Some(mut t) => {
            let ghost before = *t;
            let ghost a = in_order(t.left);
            let ghost b = in_order(t.right);
            let ghost v = t.value;
            let ghost at: int;
            proof {
                lemma_level_le_len(root);
                lemma_sorted_parts(a, v, b);
            }
            let res = if x < t.value {
                let (res, sub) = insert(t.left, x);
                t.left = sub;
                proof {
                    assert(less(x, v));
                    lemma_holds_before(a, v, b, x);
                    if res {
                        let k = choose|k: int| #[trigger] inserted_at(a, in_order(sub), k, x);
                        lemma_inserted_before(a, in_order(sub), v, b, k, x);
                        at = k;
                    }
                }
                res
            } else if x > t.value {
                let (res, sub) = insert(t.right, x);
                t.right = sub;
                proof {
                    assert(greater(x, v));
                    lemma_holds_after(a, v, b, x);
                    if res {
                        let k = choose|k: int| #[trigger] inserted_at(b, in_order(sub), k, x);
                        lemma_inserted_after(a, v, b, in_order(sub), k, x);
                        at = a.len() + 1 + k;
                    }
                }
                res
            } else {
                proof {
                    assert(!greater(x, v));
                    assert(in_order(root)[a.len() as int] == v);
                    assert(equivalent(in_order(root)[a.len() as int], x));
                }
                false
            };
            proof {
                lemma_skew_split_grown(before, *t);
                if res {
                    assert(inserted_at(in_order(root), in_order(Some(t)), at, x));
                }
            }
            let tree = split(skew(Some(t)));
            proof {
                if res {
                    assert(inserted_at(in_order(root), in_order(tree), at, x));
                }
            }
            (res, tree)
        },
    }
}

} // verus!
