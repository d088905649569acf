use algokit::combinatorial::digits::{add_with_carry, is_all_zero, swizzle, CombinatorialError};
use algokit::combinatorial::general::{GeneralCombinationsIterator, GeneralPermutationsIterator};
use algokit::combinatorial::simple::{SimpleCombinationsIterator, SimplePermutationsIterator};
use algokit::combinatorial::subsets::{Sizes, SublistIterator, SubsetIterator};

fn owned(v: Vec<&i32>) -> Vec<i32> {
    v.into_iter().copied().collect()
}

fn drain_general_permutations(source: &[i32], size: usize) -> Vec<Vec<i32>> {
    let mut it = GeneralPermutationsIterator::new(source, size).unwrap();
    let mut out = Vec::new();
    while let Some(v) = it.next() {
        out.push(owned(v));
        assert!(out.len() <= 10_000);
    }
    assert!(it.next().is_none());
    out
}

fn drain_general_combinations(source: &[i32], size: usize) -> Vec<Vec<i32>> {
    let mut it = GeneralCombinationsIterator::new(source, size).unwrap();
    let mut out = Vec::new();
    while let Some(v) = it.next() {
        out.push(owned(v));
        assert!(out.len() <= 10_000);
    }
    assert!(it.next().is_none());
    out
}

fn drain_simple_combinations(source: &[i32], size: usize) -> Vec<Vec<i32>> {
    let mut it = SimpleCombinationsIterator::new(source, size).unwrap();
    let mut out = Vec::new();
    while let Some(v) = it.next() {
        out.push(owned(v));
        assert!(out.len() <= 10_000);
    }
    assert!(it.next().is_none());
    out
}

fn drain_simple_permutations(source: &[i32], size: usize) -> Vec<Vec<i32>> {
    let mut it = SimplePermutationsIterator::new(source, size).unwrap();
    let mut out = Vec::new();
    while let Some(v) = it.next() {
        out.push(owned(v));
        assert!(out.len() <= 10_000);
    }
    assert!(it.next().is_none());
    out
}

fn drain_subsets(source: &[i32]) -> Vec<Vec<i32>> {
    let mut it = SubsetIterator::new(source);
    let mut out = Vec::new();
    while let Some(v) = it.next() {
        out.push(owned(v));
        assert!(out.len() <= 10_000);
    }
    assert!(it.next().is_none());
    out
}

fn drain_sublists(source: &[i32]) -> Vec<Vec<i32>> {
    let mut it = SublistIterator::new(source);
    let mut out = Vec::new();
    while let Some(v) = it.next() {
        out.push(owned(v));
        assert!(out.len() <= 10_000);
    }
    assert!(it.next().is_none());
    out
}

fn all_different(lists: &[Vec<i32>]) -> bool {
    let mut sorted = lists.to_vec();
    sorted.sort();
    sorted.windows(2).all(|w| w[0] != w[1])
}

#[test]
fn add_with_carry_stops_at_the_first_digit_that_does_not_wrap() {
    let mut digits = vec![1, 2, 0];
    assert_eq!(add_with_carry(&mut digits, 3), (0, 2));
    assert_eq!(digits, vec![2, 2, 0]);
    assert_eq!(add_with_carry(&mut digits, 3), (2, 1));
    assert_eq!(digits, vec![0, 0, 1]);
}

#[test]
fn add_with_carry_wraps_to_zero() {
    let mut digits = vec![2, 2];
    assert_eq!(add_with_carry(&mut digits, 3), (0, 0));
    assert_eq!(digits, vec![0, 0]);
    let mut none: Vec<usize> = Vec::new();
    assert_eq!(add_with_carry(&mut none, 0), (0, 0));
    assert!(none.is_empty());
}

#[test]
fn add_with_carry_in_base_one_keeps_every_digit_zero() {
    let mut digits = vec![0, 0, 0];
    assert_eq!(add_with_carry(&mut digits, 1), (0, 0));
    assert_eq!(digits, vec![0, 0, 0]);
}

#[test]
fn swizzle_picks_by_position() {
    let source = [10, 20, 30];
    assert_eq!(owned(swizzle(&source, &[2, 0, 2])), vec![30, 10, 30]);
    assert!(swizzle(&source, &[]).is_empty());
}

#[test]
fn is_all_zero_on_digits() {
    assert!(is_all_zero(&[]));
    assert!(is_all_zero(&[0, 0]));
    assert!(!is_all_zero(&[0, 1]));
}

#[test]
fn general_permutations_count_with_the_first_digit_fastest() {
    assert_eq!(
        drain_general_permutations(&[1, 2, 3], 2),
        vec![
            vec![1, 1],
            vec![2, 1],
            vec![3, 1],
            vec![1, 2],
            vec![2, 2],
            vec![3, 2],
            vec![1, 3],
            vec![2, 3],
            vec![3, 3],
        ]
    );
}

#[test]
fn general_permutations_edge_sizes() {
    assert_eq!(drain_general_permutations(&[1, 2], 0), vec![Vec::<i32>::new()]);
    assert_eq!(drain_general_permutations(&[], 0), vec![Vec::<i32>::new()]);
    assert_eq!(drain_general_permutations(&[7], 3), vec![vec![7, 7, 7]]);
    assert_eq!(drain_general_permutations(&[1, 2, 3, 4], 3).len(), 64);
}

#[test]
fn general_permutations_of_nothing_fail() {
    let empty: [i32; 0] = [];
    assert!(matches!(
        GeneralPermutationsIterator::new(&empty, 1),
        Err(CombinatorialError::OutputSizeTooLarge)
    ));
    assert!(GeneralPermutationsIterator::new(&empty, 0).is_ok());
}

#[test]
fn general_combinations_in_order() {
    assert_eq!(
        drain_general_combinations(&[1, 2, 3], 2),
        vec![vec![1, 1], vec![2, 1], vec![3, 1], vec![2, 2], vec![3, 2], vec![3, 3]]
    );
}

#[test]
fn general_combinations_edge_sizes() {
    assert_eq!(drain_general_combinations(&[1, 2], 0), vec![Vec::<i32>::new()]);
    assert_eq!(drain_general_combinations(&[5], 2), vec![vec![5, 5]]);
    let all = drain_general_combinations(&[1, 2, 3, 4], 3);
    assert_eq!(all.len(), 20);
    assert!(all_different(&all));
    assert!(all.iter().all(|v| v[0] >= v[1] && v[1] >= v[2]));
}

#[test]
fn general_combinations_of_nothing_fail() {
    let empty: [i32; 0] = [];
    assert!(matches!(
        GeneralCombinationsIterator::new(&empty, 2),
        Err(CombinatorialError::OutputSizeTooLarge)
    ));
    assert!(GeneralCombinationsIterator::new(&empty, 0).is_ok());
}

#[test]
fn simple_combinations_in_order() {
    assert_eq!(
        drain_simple_combinations(&[1, 2, 3, 4], 2),
        vec![vec![3, 4], vec![2, 4], vec![2, 3], vec![1, 4], vec![1, 3], vec![1, 2]]
    );
}

#[test]
fn simple_combinations_edge_sizes() {
    assert_eq!(drain_simple_combinations(&[1, 2], 0), vec![Vec::<i32>::new()]);
    assert_eq!(drain_simple_combinations(&[1, 2, 3], 3), vec![vec![1, 2, 3]]);
    assert_eq!(drain_simple_combinations(&[], 0), vec![Vec::<i32>::new()]);
    assert_eq!(drain_simple_combinations(&[1, 2, 3], 1), vec![vec![3], vec![2], vec![1]]);
    let all = drain_simple_combinations(&[1, 2, 3, 4, 5, 6], 3);
    assert_eq!(all.len(), 20);
    assert!(all_different(&all));
    assert!(all.iter().all(|v| v[0] < v[1] && v[1] < v[2]));
}

#[test]
fn simple_combinations_larger_than_the_source_fail() {
    assert!(matches!(
        SimpleCombinationsIterator::new(&[1, 2], 3),
        Err(CombinatorialError::OutputSizeTooLarge)
    ));
    assert!(SimpleCombinationsIterator::new(&[1, 2], 2).is_ok());
}

#[test]
fn increment_skip_hole_moves_the_first_free_hole() {
    let source = [1, 2, 3, 4];
    let mut it = SimpleCombinationsIterator::new(&source, 2).unwrap();
    assert_eq!(owned(it.generate_result()), vec![3, 4]);
    assert_eq!(it.increment_skip_hole(), Some((0, 2)));
    assert_eq!(owned(it.generate_result()), vec![2, 4]);
    assert_eq!(it.increment_skip_hole(), Some((0, 3)));
    assert_eq!(owned(it.generate_result()), vec![2, 3]);
    assert_eq!(it.increment_skip_hole(), Some((1, 1)));
    let mut whole = SimpleCombinationsIterator::new(&source, 4).unwrap();
    assert_eq!(whole.increment_skip_hole(), None);
    assert_eq!(owned(whole.generate_result()), vec![1, 2, 3, 4]);
}

#[test]
fn simple_permutations_of_two_out_of_three() {
    assert_eq!(
        drain_simple_permutations(&[1, 2, 3], 2),
        vec![vec![2, 3], vec![3, 2], vec![1, 3], vec![3, 1], vec![1, 2], vec![2, 1]]
    );
}

#[test]
fn simple_permutations_of_the_whole_slice() {
    assert_eq!(
        drain_simple_permutations(&[1, 2, 3], 3),
        vec![
            vec![1, 2, 3],
            vec![2, 1, 3],
            vec![3, 1, 2],
            vec![1, 3, 2],
            vec![2, 3, 1],
            vec![3, 2, 1],
        ]
    );
}

#[test]
fn simple_permutations_edge_sizes() {
    assert_eq!(drain_simple_permutations(&[1, 2], 0), vec![Vec::<i32>::new()]);
    assert_eq!(drain_simple_permutations(&[], 0), vec![Vec::<i32>::new()]);
    assert_eq!(drain_simple_permutations(&[1, 2, 3], 1), vec![vec![3], vec![2], vec![1]]);
    let all = drain_simple_permutations(&[1, 2, 3, 4, 5], 3);
    assert_eq!(all.len(), 60);
    assert!(all_different(&all));
    assert!(all.iter().all(|v| v[0] != v[1] && v[1] != v[2] && v[0] != v[2]));
    let all = drain_simple_permutations(&[1, 2, 3, 4], 4);
    assert_eq!(all.len(), 24);
    assert!(all_different(&all));
}

#[test]
fn simple_permutations_larger_than_the_source_fail() {
    assert!(matches!(
        SimplePermutationsIterator::new(&[1, 2], 3),
        Err(CombinatorialError::OutputSizeTooLarge)
    ));
}

#[test]
fn try_gen_permutation_exchanges_or_moves_up() {
    let source = [1, 2, 3];
    let mut it = SimplePermutationsIterator::new(&source, 3).unwrap();
    assert_eq!(owned(it.try_next_seed().unwrap()), vec![1, 2, 3]);
    assert_eq!(owned(it.try_gen_permutation().unwrap()), vec![2, 1, 3]);
    assert!(it.try_gen_permutation().is_none());
    assert_eq!(owned(it.try_gen_permutation().unwrap()), vec![3, 1, 2]);
    assert!(it.try_next_seed().is_none());
}

#[test]
fn subsets_by_rising_size() {
    assert_eq!(
        drain_subsets(&[1, 2, 3]),
        vec![
            vec![],
            vec![3],
            vec![2],
            vec![1],
            vec![2, 3],
            vec![1, 3],
            vec![1, 2],
            vec![1, 2, 3],
        ]
    );
}

#[test]
fn subsets_edge_sizes() {
    assert_eq!(drain_subsets(&[]), vec![Vec::<i32>::new()]);
    assert_eq!(drain_subsets(&[4]), vec![vec![], vec![4]]);
    let all = drain_subsets(&[1, 2, 3, 4, 5, 6, 7, 8]);
    assert_eq!(all.len(), 256);
    assert!(all_different(&all));
}

#[test]
fn sublists_by_rising_size() {
    assert_eq!(
        drain_sublists(&[1, 2]),
        vec![vec![], vec![2], vec![1], vec![1, 2], vec![2, 1]]
    );
}

#[test]
fn sublists_edge_sizes() {
    assert_eq!(drain_sublists(&[]), vec![Vec::<i32>::new()]);
    let all = drain_sublists(&[1, 2, 3, 4]);
    assert_eq!(all.len(), 1 + 4 + 12 + 24 + 24);
    assert!(all_different(&all));
}

#[test]
fn sizes_run_from_first_to_last() {
    let mut sizes = Sizes::new(1, 3);
    assert_eq!(sizes.next(), Some(1));
    assert_eq!(sizes.next(), Some(2));
    assert_eq!(sizes.next(), Some(3));
    assert_eq!(sizes.next(), None);
    assert_eq!(sizes.next(), None);
    let mut none = Sizes::new(1, 0);
    assert_eq!(none.next(), None);
    let mut top = Sizes::new(usize::MAX, usize::MAX);
    assert_eq!(top.next(), Some(usize::MAX));
    assert_eq!(top.next(), None);
}
