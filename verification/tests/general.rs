use cplit::general::{binary_search, next_permutation};

#[test]
fn binary_search_finds_the_first_true() {
    assert_eq!(binary_search(0..100, |x| x * x >= 50), 8);
    assert_eq!(binary_search(3..10, |x| x >= 3), 3);
    assert_eq!(binary_search(3..10, |x| x >= 9), 9);
}

#[test]
fn binary_search_returns_the_end_if_never_true() {
    assert_eq!(binary_search(3..10, |_| false), 10);
    assert_eq!(binary_search(0..usize::MAX, |_| false), usize::MAX);
}

#[test]
fn binary_search_on_an_empty_range_returns_its_start() {
    assert_eq!(binary_search(7..7, |_| true), 7);
    assert_eq!(binary_search(9..2, |_| true), 9);
}

#[test]
fn next_permutation_walks_all_permutations_in_order() {
    let mut arr = vec![1, 2, 3];
    let mut seen = vec![arr.clone()];
    while next_permutation(&mut arr) {
        seen.push(arr.clone());
    }
    assert_eq!(
        seen,
        vec![
            vec![1, 2, 3],
            vec![1, 3, 2],
            vec![2, 1, 3],
            vec![2, 3, 1],
            vec![3, 1, 2],
            vec![3, 2, 1],
        ]
    );
    // the last permutation turns into the first
    assert_eq!(arr, vec![1, 2, 3]);
}

#[test]
fn next_permutation_with_equal_elements() {
    let mut arr = vec![1, 2, 2];
    assert!(next_permutation(&mut arr));
    assert_eq!(arr, vec![2, 1, 2]);
    assert!(next_permutation(&mut arr));
    assert_eq!(arr, vec![2, 2, 1]);
    assert!(!next_permutation(&mut arr));
    assert_eq!(arr, vec![1, 2, 2]);
}

#[test]
fn next_permutation_of_short_sequences() {
    let mut arr: Vec<usize> = vec![];
    assert!(!next_permutation(&mut arr));
    assert!(arr.is_empty());
    let mut arr = vec![7];
    assert!(!next_permutation(&mut arr));
    assert_eq!(arr, vec![7]);
    let mut arr = vec![0, 3, 5, 4, 2];
    assert!(next_permutation(&mut arr));
    assert_eq!(arr, vec![0, 4, 2, 3, 5]);
}
