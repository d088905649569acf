//! The two rotations of the AA discipline and the level adjustment that
//! follows a removal.

use vstd::prelude::*;
use crate::keyvaluemap::node::{TreeNode, level_of, right_level, left_of, right_of, in_order};

verus! {

/// What `skew` returns: where the left child is on the root's level, the
/// tree turned right around that link; else the tree itself.
pub open spec fn skew_spec<T>(root: Option<Box<TreeNode<T>>>) -> Option<Box<TreeNode<T>>> {
    match root {
        None => None,
        Some(t) => match t.left {
            None => root,
            Some(l) => if l.level == t.level {
                Some(Box::new(TreeNode {
                    value: l.value,
                    left: l.left,
                    right: Some(Box::new(TreeNode {
                        value: t.value,
                        left: l.right,
                        right: t.right,
                        level: t.level,
                    })),
                    level: l.level,
                }))
            } else {
                root
            },
        },
    }
}

/// Removes a horizontal left link at the root by a right rotation.
pub fn skew<T>(root: Option<Box<TreeNode<T>>>) -> (res: Option<Box<TreeNode<T>>>)
    ensures
        res == skew_spec(root),
        in_order(res) == in_order(root),
{
    match root {
        None => None,
        Some(mut t) => match t.left {
            None => Some(t),
            Some(mut l) => {
                if l.level == t.level {
                    t.left = l.right;
                    l.right = Some(t);
                    let res = Some(l);
                    proof {
                        reveal_with_fuel(in_order, 3);
                        assert(in_order(res) =~= in_order(root));
                    }
                    res
                } else {
                    t.left = Some(l);
                    Some(t)
                }
            },
        },
    }
}

/// Skew changes no level, and leaves no horizontal left link at the root
/// where the left child did not stand above the root and had no such link
/// itself.
pub proof fn lemma_skew_clears_left_link<T>(root: Option<Box<TreeNode<T>>>)
    requires
        root is Some,
        level_of(root) >= 1,
        level_of(left_of(root)) <= level_of(root),
        left_of(root) is Some ==> level_of(left_of(left_of(root))) < level_of(left_of(root)),
    ensures
        level_of(skew_spec(root)) == level_of(root),
        level_of(left_of(skew_spec(root))) < level_of(skew_spec(root)),
{
}

/// Whether the root has two horizontal right links in a row, which is when
/// `split` rotates.
pub open spec fn split_applies<T>(root: Option<Box<TreeNode<T>>>) -> bool {
    match root {
        None => false,
        Some(t) => match t.right {
            None => false,
            Some(r) => match r.right {
                None => false,
                Some(rr) => rr.level == t.level,
            },
        },
    }
}

/// What `split` returns: where it applies, the tree turned left around the
/// root's right link, with the new root one level up; else the tree itself.
pub open spec fn split_spec<T>(root: Option<Box<TreeNode<T>>>) -> Option<Box<TreeNode<T>>> {
    match root {
        None => None,
        Some(t) => match t.right {
            None => root,
            Some(r) => if split_applies(root) {
                Some(Box::new(TreeNode {
                    value: r.value,
                    left: Some(Box::new(TreeNode {
                        value: t.value,
                        left: t.left,
                        right: r.left,
                        level: t.level,
                    })),
                    right: r.right,
                    level: (r.level + 1) as usize,
                }))
            } else {
                root
            },
        },
    }
}

/// Removes two horizontal right links in a row at the root by a left
/// rotation that lifts the middle node one level.
pub fn split<T>(root: Option<Box<TreeNode<T>>>) -> (res: Option<Box<TreeNode<T>>>)
    requires
        split_applies(root) ==> right_level(root) < usize::MAX,
    ensures
        res == split_spec(root),
        in_order(res) == in_order(root),
{
    match root {
        None => None,
        Some(mut t) => match t.right {
            None => Some(t),
            Some(mut r) => {
                let rotate = match &r.right {
                    Some(rr) => t.level == rr.level,
                    None => false,
                };
                if rotate {
                    t.right = r.left;
                    r.left = Some(t);
                    r.level += 1;
                    let res = Some(r);
                    proof {
                        reveal_with_fuel(in_order, 3);
                        assert(in_order(res) =~= in_order(root));
                    }
                    res
                } else {
                    t.right = Some(r);
                    Some(t)
                }
            },
        },
    }
}

/// Where split applies, and no node of the right spine stood above the one
/// before it, the new root stands one level above the old one and its
/// right link is not horizontal: no two horizontal right links in a row
/// are left at the root. Where split does not apply, it changes nothing.
pub proof fn lemma_split_clears_right_links<T>(root: Option<Box<TreeNode<T>>>)
    requires
        level_of(right_of(root)) <= level_of(root),
        level_of(right_of(right_of(root))) <= level_of(right_of(root)),
        level_of(right_of(root)) < usize::MAX,
    ensures
        split_applies(root) ==> level_of(split_spec(root)) == level_of(root) + 1,
        split_applies(root) ==> level_of(right_of(split_spec(root))) < level_of(split_spec(root)),
        !split_applies(root) ==> split_spec(root) == root,
{
}

/// The level that `decrease_level` aims at: one above the lower child.
pub open spec fn lowered_level<T>(t: TreeNode<T>) -> nat {
    if level_of(t.left) <= level_of(t.right) {
        level_of(t.left) + 1
    } else {
        level_of(t.right) + 1
    }
}

/// What `decrease_level` returns: where the root stands more than one level
/// above its lower child, the root brought down to one above it, and its
/// right child brought down to the same level where it stood higher.
pub open spec fn decrease_level_spec<T>(root: Option<Box<TreeNode<T>>>) -> Option<Box<TreeNode<T>>> {
    match root {
        None => None,
        Some(t) => if lowered_level(*t) < t.level {
            Some(Box::new(TreeNode {
                value: t.value,
                left: t.left,
                right: match t.right {
                    None => None,
                    Some(r) => if lowered_level(*t) < r.level {
                        Some(Box::new(TreeNode {
                            value: r.value,
                            left: r.left,
                            right: r.right,
                            level: lowered_level(*t) as usize,
                        }))
                    } else {
                        t.right
                    },
                },
                level: lowered_level(*t) as usize,
            }))
        } else {
            root
        },
    }
}

/// The level of a tree, 0 for the empty one.
pub fn level<T>(node: &Option<Box<TreeNode<T>>>) -> (res: usize)
    ensures
        res == level_of(*node),
{
    match node {
        None => 0,
        Some(n) => n.level,
    }
}

/// Lowers the root, and with it a right child that stood higher, after a
/// subtree has lost a level.
pub fn decrease_level<T>(root: Option<Box<TreeNode<T>>>) -> (res: Option<Box<TreeNode<T>>>)
    requires
        root is Some,
        lowered_level(*root->0) <= usize::MAX,
    ensures
        res == decrease_level_spec(root),
        in_order(res) == in_order(root),
{
    let mut t = root.unwrap();
    let left_level = level(&t.left);
    let right_level = level(&t.right);
    let lower = if left_level <= right_level { left_level } else { right_level };
    let new_level = lower + 1;
    if new_level < t.level {
        t.level = new_level;
        if let Some(mut r) = t.right {
            if new_level < r.level {
                r.level = new_level;
            }
            t.right = Some(r);
        }
    }
    let res = Some(t);
    proof {
        reveal_with_fuel(in_order, 3);
        assert(in_order(res) =~= in_order(root));
    }
    res
}

} // verus!
