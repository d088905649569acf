use algokit::keyvaluemap::insert::insert;
use algokit::keyvaluemap::kvmap::KeyValueMap;
use algokit::keyvaluemap::node::TreeNode;
use algokit::keyvaluemap::pair::KeyValuePair;
use algokit::keyvaluemap::rebalance::rebalance;
use algokit::keyvaluemap::remove::{delete, predecessor, successor};
use algokit::keyvaluemap::rotate::{decrease_level, level, skew, split};
use rand::Rng;
use std::cmp::Ordering;

type Tree<T> = Option<Box<TreeNode<T>>>;

fn node<T>(value: T, level: usize, left: Tree<T>, right: Tree<T>) -> Tree<T> {
    Some(Box::new(TreeNode { value, left, right, level }))
}

fn leaf<T>(value: T) -> Tree<T> {
    node(value, 1, None, None)
}

fn lvl<T>(t: &Tree<T>) -> usize {
    match t {
        None => 0,
        Some(n) => n.level,
    }
}

fn flatten<T: Clone>(t: &Tree<T>, out: &mut Vec<T>) {
    if let Some(n) = t {
        flatten(&n.left, out);
        out.push(n.value.clone());
        flatten(&n.right, out);
    }
}

fn values<T: Clone>(t: &Tree<T>) -> Vec<T> {
    let mut out = Vec::new();
    flatten(t, &mut out);
    out
}

fn size<T>(t: &Tree<T>) -> usize {
    match t {
        None => 0,
        Some(n) => size(&n.left) + 1 + size(&n.right),
    }
}

/// The AA rules at every node, written out here once more.
fn aa_ok<T>(t: &Tree<T>) -> bool {
    match t {
        None => true,
        Some(n) => {
            let right_right = match &n.right {
                None => 0,
                Some(r) => lvl(&r.right),
            };
            let leaf_rule = !(n.left.is_none() && n.right.is_none()) || n.level == 1;
            let children_rule = n.level <= 1 || (n.left.is_some() && n.right.is_some());
            n.level >= 1
                && leaf_rule
                && children_rule
                && lvl(&n.left) + 1 == n.level
                && lvl(&n.right) <= n.level
                && lvl(&n.right) + 1 >= n.level
                && right_right < n.level
                && aa_ok(&n.left)
                && aa_ok(&n.right)
        }
    }
}

fn keys_of<V>(m: &KeyValueMap<i32, V>) -> Vec<i32> {
    let mut out = Vec::new();
    collect_keys(m.root(), &mut out);
    out
}

fn collect_keys<V>(t: &Tree<KeyValuePair<i32, V>>, out: &mut Vec<i32>) {
    if let Some(n) = t {
        collect_keys(&n.left, out);
        out.push(n.value.key);
        collect_keys(&n.right, out);
    }
}

fn strictly_increasing(keys: &[i32]) -> bool {
    keys.windows(2).all(|w| w[0] < w[1])
}

fn assert_sound<V>(m: &KeyValueMap<i32, V>, expected_len: usize) {
    assert!(aa_ok(m.root()));
    assert!(strictly_increasing(&keys_of(m)));
    assert_eq!(m.len(), expected_len);
    assert_eq!(size(m.root()), expected_len);
}

#[test]
fn skew_turns_a_horizontal_left_link() {
    let tree = node(2, 1, node(1, 1, leaf(0), None), leaf(3));
    let tree = skew(tree);
    let root = tree.as_ref().unwrap();
    assert_eq!(root.value, 1);
    assert_eq!(root.level, 1);
    assert_eq!(root.left.as_ref().unwrap().value, 0);
    let right = root.right.as_ref().unwrap();
    assert_eq!(right.value, 2);
    assert_eq!(right.level, 1);
    assert!(right.left.is_none());
    assert_eq!(right.right.as_ref().unwrap().value, 3);
    assert_eq!(values(&tree), vec![0, 1, 2, 3]);
}

#[test]
fn skew_moves_the_inner_subtree_across() {
    let tree = node(4, 2, node(2, 2, leaf(1), leaf(3)), leaf(5));
    let tree = skew(tree);
    let root = tree.as_ref().unwrap();
    assert_eq!(root.value, 2);
    assert_eq!(root.level, 2);
    let right = root.right.as_ref().unwrap();
    assert_eq!(right.value, 4);
    assert_eq!(right.level, 2);
    assert_eq!(right.left.as_ref().unwrap().value, 3);
    assert_eq!(right.right.as_ref().unwrap().value, 5);
    assert_eq!(values(&tree), vec![1, 2, 3, 4, 5]);
}

#[test]
fn skew_leaves_other_trees_alone() {
    assert!(skew::<i32>(None).is_none());
    let tree = skew(leaf(7));
    assert_eq!(values(&tree), vec![7]);
    assert_eq!(lvl(&tree), 1);
    let tree = skew(node(2, 2, leaf(1), leaf(3)));
    let root = tree.as_ref().unwrap();
    assert_eq!(root.value, 2);
    assert_eq!(root.level, 2);
    assert_eq!(root.left.as_ref().unwrap().value, 1);
    assert_eq!(root.right.as_ref().unwrap().value, 3);
}

#[test]
fn split_lifts_the_middle_of_two_horizontal_right_links() {
    let tree = node(1, 1, None, node(2, 1, None, leaf(3)));
    let tree = split(tree);
    let root = tree.as_ref().unwrap();
    assert_eq!(root.value, 2);
    assert_eq!(root.level, 2);
    let left = root.left.as_ref().unwrap();
    assert_eq!(left.value, 1);
    assert_eq!(left.level, 1);
    assert!(left.left.is_none());
    assert!(left.right.is_none());
    let right = root.right.as_ref().unwrap();
    assert_eq!(right.value, 3);
    assert_eq!(right.level, 1);
    assert_eq!(values(&tree), vec![1, 2, 3]);
}

#[test]
fn split_moves_the_inner_subtree_across() {
    let tree = node(2, 2, leaf(1), node(4, 2, leaf(3), node(6, 2, leaf(5), leaf(7))));
    let tree = split(tree);
    let root = tree.as_ref().unwrap();
    assert_eq!(root.value, 4);
    assert_eq!(root.level, 3);
    let left = root.left.as_ref().unwrap();
    assert_eq!(left.value, 2);
    assert_eq!(left.level, 2);
    assert_eq!(left.right.as_ref().unwrap().value, 3);
    assert_eq!(root.right.as_ref().unwrap().value, 6);
    assert_eq!(values(&tree), vec![1, 2, 3, 4, 5, 6, 7]);
    assert!(aa_ok(&tree));
}

#[test]
fn split_leaves_other_trees_alone() {
    assert!(split::<i32>(None).is_none());
    let tree = split(node(1, 1, None, leaf(2)));
    let root = tree.as_ref().unwrap();
    assert_eq!(root.value, 1);
    assert_eq!(root.level, 1);
    assert_eq!(root.right.as_ref().unwrap().value, 2);
    let tree = split(node(2, 2, leaf(1), node(3, 2, leaf(25), leaf(4))));
    assert_eq!(tree.as_ref().unwrap().value, 2);
    assert_eq!(tree.as_ref().unwrap().level, 2);
}

#[test]
fn level_of_a_tree() {
    assert_eq!(level::<i32>(&None), 0);
    assert_eq!(level(&leaf(1)), 1);
    assert_eq!(level(&node(2, 5, None, None)), 5);
}

#[test]
fn decrease_level_lowers_root_and_right_child() {
    let tree = node(2, 3, leaf(1), node(4, 3, leaf(3), leaf(5)));
    let tree = decrease_level(tree);
    let root = tree.as_ref().unwrap();
    assert_eq!(root.level, 2);
    assert_eq!(root.right.as_ref().unwrap().level, 2);
    assert_eq!(root.left.as_ref().unwrap().level, 1);
    assert_eq!(values(&tree), vec![1, 2, 3, 4, 5]);
}

#[test]
fn decrease_level_keeps_a_lower_right_child() {
    let tree = node(2, 3, leaf(1), node(4, 2, leaf(3), leaf(5)));
    let tree = decrease_level(tree);
    let root = tree.as_ref().unwrap();
    assert_eq!(root.level, 2);
    assert_eq!(root.right.as_ref().unwrap().level, 2);
}

#[test]
fn decrease_level_counts_a_missing_child_as_zero() {
    let tree = node(2, 2, None, leaf(3));
    let tree = decrease_level(tree);
    let root = tree.as_ref().unwrap();
    assert_eq!(root.level, 1);
    assert_eq!(root.right.as_ref().unwrap().level, 1);
}

#[test]
fn decrease_level_leaves_a_fitting_root_alone() {
    let tree = node(2, 2, leaf(1), leaf(3));
    let tree = decrease_level(tree);
    assert_eq!(lvl(&tree), 2);
    let tree = decrease_level(leaf(1));
    assert_eq!(lvl(&tree), 1);
}

#[test]
fn rebalance_after_the_left_subtree_sank() {
    // 2 on level 2 has lost its left leaf; its right child 4 is horizontal.
    let tree = Box::new(TreeNode {
        value: 2,
        level: 2,
        left: None,
        right: node(4, 2, leaf(3), leaf(5)),
    });
    let tree = Some(rebalance(tree));
    assert!(aa_ok(&tree));
    assert_eq!(values(&tree), vec![2, 3, 4, 5]);
    let root = tree.as_ref().unwrap();
    assert_eq!(root.value, 3);
    assert_eq!(root.level, 2);
    assert_eq!(root.left.as_ref().unwrap().value, 2);
    assert_eq!(root.right.as_ref().unwrap().value, 4);
    assert_eq!(root.right.as_ref().unwrap().right.as_ref().unwrap().value, 5);
}

#[test]
fn rebalance_after_the_right_subtree_sank() {
    let tree = Box::new(TreeNode { value: 3, level: 2, left: node(1, 1, None, leaf(2)), right: None });
    let tree = Some(rebalance(tree));
    assert!(aa_ok(&tree));
    assert_eq!(values(&tree), vec![1, 2, 3]);
    let root = tree.as_ref().unwrap();
    assert_eq!(root.value, 2);
    assert_eq!(root.level, 2);
}

#[test]
fn rebalance_changes_nothing_on_a_balanced_node() {
    let tree = Box::new(TreeNode { value: 2, level: 2, left: leaf(1), right: node(3, 1, None, leaf(4)) });
    let tree = Some(rebalance(tree));
    let root = tree.as_ref().unwrap();
    assert_eq!(root.value, 2);
    assert_eq!(root.level, 2);
    assert_eq!(root.left.as_ref().unwrap().value, 1);
    assert_eq!(root.right.as_ref().unwrap().value, 3);
    assert_eq!(root.right.as_ref().unwrap().right.as_ref().unwrap().value, 4);
}

#[test]
fn insert_into_the_empty_tree_makes_a_leaf() {
    let (went_in, tree) = insert(None, 5);
    assert!(went_in);
    let root = tree.as_ref().unwrap();
    assert_eq!(root.value, 5);
    assert_eq!(root.level, 1);
    assert!(root.left.is_none() && root.right.is_none());
}

#[test]
fn insert_three_rising_values_splits_once() {
    let (_, tree) = insert(None, 1);
    let (_, tree) = insert(tree, 2);
    assert_eq!(lvl(&tree), 1);
    assert_eq!(tree.as_ref().unwrap().value, 1);
    let (went_in, tree) = insert(tree, 3);
    assert!(went_in);
    let root = tree.as_ref().unwrap();
    assert_eq!(root.value, 2);
    assert_eq!(root.level, 2);
    assert_eq!(root.left.as_ref().unwrap().value, 1);
    assert_eq!(root.right.as_ref().unwrap().value, 3);
}

#[test]
fn insert_a_lesser_value_skews() {
    let (_, tree) = insert(None, 2);
    let (went_in, tree) = insert(tree, 1);
    assert!(went_in);
    let root = tree.as_ref().unwrap();
    assert_eq!(root.value, 1);
    assert_eq!(root.level, 1);
    assert!(root.left.is_none());
    assert_eq!(root.right.as_ref().unwrap().value, 2);
}

#[test]
fn insert_refuses_a_value_that_is_there() {
    let (_, tree) = insert(None, 1);
    let (_, tree) = insert(tree, 2);
    let (_, tree) = insert(tree, 3);
    let (went_in, tree) = insert(tree, 2);
    assert!(!went_in);
    assert_eq!(values(&tree), vec![1, 2, 3]);
    assert_eq!(tree.as_ref().unwrap().value, 2);
    assert_eq!(lvl(&tree), 2);
}

#[test]
fn successor_takes_the_least_value() {
    let mut tree = None;
    for x in [4, 2, 6, 1, 3, 5, 7] {
        tree = insert(tree, x).1;
    }
    let (rest, first) = successor(tree.unwrap());
    assert_eq!(first.value, 1);
    assert_eq!(first.level, 1);
    assert!(first.left.is_none() && first.right.is_none());
    assert_eq!(values(&rest), vec![2, 3, 4, 5, 6, 7]);
    assert!(aa_ok(&rest));
}

#[test]
fn successor_of_a_single_leaf_leaves_nothing() {
    let (rest, first) = successor(leaf(9).unwrap());
    assert!(rest.is_none());
    assert_eq!(first.value, 9);
}

#[test]
fn successor_hands_back_the_right_child_of_the_least_node() {
    let tree = node(1, 1, None, leaf(2)).unwrap();
    let (rest, first) = successor(tree);
    assert_eq!(first.value, 1);
    assert!(first.right.is_none());
    assert_eq!(values(&rest), vec![2]);
    assert_eq!(lvl(&rest), 1);
}

#[test]
fn predecessor_takes_the_greatest_value() {
    let mut tree = None;
    for x in [4, 2, 6, 1, 3, 5, 7] {
        tree = insert(tree, x).1;
    }
    let (rest, last) = predecessor(tree.unwrap());
    assert_eq!(last.value, 7);
    assert_eq!(last.level, 1);
    assert!(last.left.is_none() && last.right.is_none());
    assert_eq!(values(&rest), vec![1, 2, 3, 4, 5, 6]);
    assert!(aa_ok(&rest));
}

#[test]
fn predecessor_of_a_single_leaf_leaves_nothing() {
    let (rest, last) = predecessor(leaf(9).unwrap());
    assert!(rest.is_none());
    assert_eq!(last.value, 9);
}

#[test]
fn delete_from_the_empty_tree_finds_nothing() {
    let (tree, gone) = delete::<i32>(None, &3);
    assert!(tree.is_none());
    assert!(gone.is_none());
}

#[test]
fn delete_a_leaf() {
    let (tree, gone) = delete(leaf(3), &3);
    assert!(tree.is_none());
    assert_eq!(gone.unwrap().value, 3);
}

#[test]
fn delete_an_inner_node_keeps_order_and_balance() {
    let mut tree = None;
    for x in 0..15 {
        tree = insert(tree, x).1;
    }
    let root_value = tree.as_ref().unwrap().value;
    let (tree, gone) = delete(tree, &root_value);
    let gone = gone.unwrap();
    assert_eq!(gone.value, root_value);
    assert!(gone.left.is_none() && gone.right.is_none());
    assert_eq!(gone.level, 1);
    let expected: Vec<i32> = (0..15).filter(|x| *x != root_value).collect();
    assert_eq!(values(&tree), expected);
    assert!(aa_ok(&tree));
}

#[test]
fn delete_a_node_with_only_a_right_child() {
    let tree = node(1, 1, None, leaf(2));
    let (tree, gone) = delete(tree, &1);
    assert_eq!(gone.unwrap().value, 1);
    assert_eq!(values(&tree), vec![2]);
    assert_eq!(lvl(&tree), 1);
    assert!(aa_ok(&tree));
}

#[test]
fn delete_a_missing_value_changes_nothing() {
    let mut tree = None;
    for x in [10, 20, 30, 40, 50] {
        tree = insert(tree, x).1;
    }
    let shape_before = format!("{:?}", tree);
    let (tree, gone) = delete(tree, &35);
    assert!(gone.is_none());
    assert_eq!(format!("{:?}", tree), shape_before);
}

#[test]
fn pair_is_compared_by_its_key_alone() {
    let a = KeyValuePair { key: 1, value: Some("a") };
    let b = KeyValuePair { key: 1, value: None };
    let c = KeyValuePair { key: 2, value: Some("a") };
    assert!(a == b);
    assert!(a != c);
    assert_eq!(a.partial_cmp(&b), Some(Ordering::Equal));
    assert_eq!(a.partial_cmp(&c), Some(Ordering::Less));
    assert_eq!(c.partial_cmp(&a), Some(Ordering::Greater));
    assert!(a < c);
    assert!(c > b);
    assert!(!(a < b) && !(a > b));
}

#[test]
fn tree_of_pairs_takes_equal_keys_for_one_entry() {
    let (_, tree) = insert(None, KeyValuePair { key: 2, value: Some("two") });
    let (_, tree) = insert(tree, KeyValuePair { key: 1, value: Some("one") });
    let (went_in, tree) = insert(tree, KeyValuePair { key: 2, value: Some("other") });
    assert!(!went_in);
    assert_eq!(size(&tree), 2);
    let (tree, gone) = delete(tree, &KeyValuePair { key: 2, value: None });
    let gone = gone.unwrap();
    assert_eq!(gone.value.key, 2);
    assert_eq!(gone.value.value, Some("two"));
    assert_eq!(size(&tree), 1);
    assert_eq!(tree.as_ref().unwrap().value.key, 1);
}

#[test]
fn map_with_unsigned_keys_and_owned_values() {
    let mut m: KeyValueMap<u64, String> = KeyValueMap::new();
    assert!(m.insert(u64::MAX, String::from("top")));
    assert!(m.insert(0, String::from("bottom")));
    assert!(!m.insert(0, String::from("again")));
    assert_eq!(m.find(&0).map(|s| s.as_str()), Some("bottom"));
    assert_eq!(m.delete(u64::MAX), Some(String::from("top")));
    assert_eq!(m.len(), 1);
    assert!(m.find(&u64::MAX).is_none());
}

#[test]
fn new_map_is_empty() {
    let m: KeyValueMap<i32, i32> = KeyValueMap::new();
    assert_eq!(m.len(), 0);
    assert!(m.root().is_none());
    assert!(m.find(&1).is_none());
}

#[test]
fn insert_then_find_then_delete_round_trip() {
    let mut m = KeyValueMap::new();
    for k in [5, 1, 9, 3] {
        assert!(m.insert(k, k * 10));
    }
    assert!(m.find(&7).is_none());
    assert!(m.insert(7, 70));
    assert_eq!(m.find(&7), Some(&70));
    assert_sound(&m, 5);
    assert_eq!(m.delete(7), Some(70));
    assert!(m.find(&7).is_none());
    assert_sound(&m, 4);
    assert_eq!(keys_of(&m), vec![1, 3, 5, 9]);
}

#[test]
fn duplicate_insert_fails_and_keeps_the_first_value() {
    let mut m = KeyValueMap::new();
    assert!(m.insert(4, "first"));
    assert!(m.insert(2, "two"));
    assert!(m.insert(6, "six"));
    let before = format!("{:?}", m);
    assert!(!m.insert(4, "second"));
    assert_eq!(m.find(&4), Some(&"first"));
    assert_eq!(m.len(), 3);
    assert_eq!(format!("{:?}", m), before);
}

#[test]
fn delete_of_a_missing_key_changes_nothing() {
    let mut m = KeyValueMap::new();
    for k in 0..10 {
        m.insert(k * 2, k);
    }
    let before = format!("{:?}", m);
    assert_eq!(m.delete(7), None);
    assert_eq!(format!("{:?}", m), before);
    assert_eq!(m.len(), 10);
    assert_eq!(keys_of(&m), vec![0, 2, 4, 6, 8, 10, 12, 14, 16, 18]);
}

#[test]
fn delete_on_an_empty_map_returns_none() {
    let mut m: KeyValueMap<i32, i32> = KeyValueMap::new();
    assert_eq!(m.delete(1), None);
    assert_eq!(m.len(), 0);
}

#[test]
fn twenty_rising_keys() {
    let mut m = KeyValueMap::new();
    for x in 0..20 {
        assert!(m.insert(x, "catscatscats"));
        assert_sound(&m, (x + 1) as usize);
    }
    assert_eq!(m.len(), 20);
    assert_eq!(m.find(&5), Some(&"catscatscats"));
    assert!(lvl(m.root()) <= 5);
    assert_eq!(lvl(m.root()), 4);
    assert_eq!(m.delete(10), Some("catscatscats"));
    assert!(m.find(&10).is_none());
    assert_eq!(m.len(), 19);
    let keys = keys_of(&m);
    assert_eq!(keys.len(), 19);
    assert!(strictly_increasing(&keys));
    let expected: Vec<i32> = (0..20).filter(|x| *x != 10).collect();
    assert_eq!(keys, expected);
    assert!(aa_ok(m.root()));
}

#[test]
fn random_inserts_and_deletes_keep_every_invariant() {
    let mut rng = rand::thread_rng();
    for _ in 0..20 {
        let mut order: Vec<i32> = (0..64).collect();
        rng.shuffle(&mut order);
        let mut m = KeyValueMap::new();
        let mut count = 0;
        for k in order.iter() {
            assert!(m.insert(*k, *k + 1000));
            count += 1;
            assert_sound(&m, count);
        }
        let mut order: Vec<i32> = (0..64).collect();
        rng.shuffle(&mut order);
        for k in order.iter() {
            assert_eq!(m.find(k), Some(&(*k + 1000)));
            assert_eq!(m.delete(*k), Some(*k + 1000));
            count -= 1;
            assert_sound(&m, count);
            assert!(m.find(k).is_none());
        }
        assert!(m.root().is_none());
    }
}

#[test]
fn fixed_order_inserts_and_deletes_keep_every_invariant() {
    let mut m = KeyValueMap::new();
    let mut count = 0;
    let mut k: i32 = 0;
    for _ in 0..101 {
        k = (k + 37) % 101;
        assert!(m.insert(k, -k));
        count += 1;
        assert_sound(&m, count);
    }
    let mut present: Vec<i32> = (0..101).collect();
    let mut k: i32 = 0;
    for _ in 0..101 {
        k = (k + 64) % 101;
        assert_eq!(m.delete(k), Some(-k));
        present.retain(|x| *x != k);
        count -= 1;
        assert_sound(&m, count);
        assert_eq!(keys_of(&m), present);
    }
}

#[test]
fn level_stays_logarithmic() {
    let mut m = KeyValueMap::new();
    for k in 0..1000 {
        m.insert(k, ());
    }
    // A balanced tree of level l holds at least 2^l - 1 values.
    let l = lvl(m.root()) as u32;
    assert!(2usize.pow(l) - 1 <= 1000);
    assert!(aa_ok(m.root()));
}

#[test]
fn find_after_inserts_in_falling_order() {
    let mut m = KeyValueMap::new();
    for k in (0..50).rev() {
        assert!(m.insert(k, k * k));
    }
    for k in 0..50 {
        assert_eq!(m.find(&k), Some(&(k * k)));
    }
    assert!(m.find(&50).is_none());
    assert!(m.find(&-1).is_none());
    assert_sound(&m, 50);
}
