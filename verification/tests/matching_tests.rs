use tripartite::cover::set_cover;
use tripartite::disjoint::all_disjoint;
use tripartite::errors::MatchError;
use tripartite::matching::tripartite_matching;

/// Sort each set and then the collection, for order-insensitive comparison.
fn canon(mut v: Vec<Vec<i32>>) -> Vec<Vec<i32>> {
    for s in v.iter_mut() {
        s.sort();
    }
    v.sort();
    v
}

#[test]
fn finds_first_reference_matching() {
    let a = vec![1, 2, 3];
    let b = vec![4, 5, 6];
    let c = vec![7, 8, 9];
    let m = vec![
        (1, 5, 9),
        (1, 5, 6),
        (1, 4, 7),
        (2, 6, 9),
        (2, 5, 8),
        (3, 4, 7),
        (3, 6, 9),
        (3, 5, 9),
    ];
    let r = tripartite_matching(&a, &b, &c, &m).unwrap();
    let expected = vec![vec![1, 4, 7], vec![2, 5, 8], vec![3, 6, 9]];
    assert_eq!(canon(r), canon(expected));
}

#[test]
fn finds_second_reference_matching() {
    let a = vec![1, 2, 3];
    let b = vec![4, 5, 6];
    let c = vec![7, 8, 9];
    let m = vec![
        (1, 6, 9),
        (1, 4, 9),
        (2, 4, 7),
        (2, 4, 8),
        (2, 6, 9),
        (3, 5, 8),
        (3, 5, 9),
        (3, 5, 7),
    ];
    let r = tripartite_matching(&a, &b, &c, &m).unwrap();
    let expected = vec![vec![1, 6, 9], vec![2, 4, 7], vec![3, 5, 8]];
    assert_eq!(canon(r), canon(expected));
}

#[test]
fn finds_five_element_matching() {
    let a = vec![1, 2, 3, 4, 5];
    let b = vec![6, 7, 8, 9, 10];
    let c = vec![11, 12, 13, 14, 15];
    let m = vec![
        (1, 8, 13),
        (2, 6, 11),
        (3, 7, 15),
        (4, 10, 12),
        (5, 9, 14),
        (1, 6, 11),
        (1, 6, 12),
        (1, 9, 14),
        (2, 7, 13),
        (2, 9, 13),
        (3, 6, 15),
        (3, 9, 11),
        (4, 6, 15),
        (4, 7, 13),
        (5, 6, 11),
        (5, 10, 11),
    ];
    let r = tripartite_matching(&a, &b, &c, &m).unwrap();
    let expected = vec![
        vec![1, 8, 13],
        vec![2, 6, 11],
        vec![3, 7, 15],
        vec![4, 10, 12],
        vec![5, 9, 14],
    ];
    assert_eq!(canon(r), canon(expected));
}

#[test]
fn overlapping_sets_rejected() {
    let a = vec![1, 2, 3];
    let b = vec![4, 5, 6];
    let c = vec![4, 7, 8];
    let m = vec![(1, 4, 7)];
    assert_eq!(tripartite_matching(&a, &b, &c, &m), Err(MatchError::NotDisjoint));
}

#[test]
fn no_matching_returns_empty() {
    let a = vec![1, 2, 3];
    let b = vec![4, 5, 6];
    let c = vec![7, 8, 9];
    let m = vec![(1, 4, 7), (1, 5, 8), (2, 4, 8)];
    assert_eq!(tripartite_matching(&a, &b, &c, &m), Ok(vec![]));
}

#[test]
fn empty_collection_is_disjoint() {
    let sets: Vec<Vec<i32>> = vec![];
    assert!(all_disjoint(&sets));
}

#[test]
fn single_set_is_disjoint() {
    let sets = vec![vec![1, 2, 3]];
    assert!(all_disjoint(&sets));
}

#[test]
fn shared_element_detected() {
    let sets = vec![vec![1, 2], vec![3, 1]];
    assert!(!all_disjoint(&sets));
}

#[test]
fn disjoint_sets_accepted() {
    let sets = vec![vec![1, 2], vec![3, 4], vec![]];
    assert!(all_disjoint(&sets));
}

#[test]
fn all_cardinalities_differ_rejected() {
    let a = vec![1];
    let b = vec![2, 3];
    let c = vec![4, 5, 6];
    let m = vec![(1, 2, 4)];
    assert_eq!(tripartite_matching(&a, &b, &c, &m), Err(MatchError::CardinalityMismatch));
}

#[test]
fn two_equal_cardinalities_pass() {
    // Only the all-three-differ case is rejected: |A| = |B| beside a smaller
    // |C| passes validation as designed, and an empty family yields an empty
    // result for k = 2.
    let a = vec![1, 2];
    let b = vec![3, 4];
    let c = vec![5];
    let m: Vec<(i32, i32, i32)> = vec![];
    assert_eq!(tripartite_matching(&a, &b, &c, &m), Ok(vec![]));
}

#[test]
fn out_of_universe_triple_rejected() {
    let a = vec![1, 2, 3];
    let b = vec![4, 5, 6];
    let c = vec![7, 8, 9];
    let m = vec![(1, 4, 100)];
    assert_eq!(tripartite_matching(&a, &b, &c, &m), Err(MatchError::InvalidSubset));
}

#[test]
fn set_cover_rejects_non_subset() {
    let u = vec![1, 2];
    let s = vec![vec![1], vec![3]];
    assert_eq!(set_cover(u, s, 1), Err(MatchError::InvalidSubset));
}

#[test]
fn set_cover_returns_first_combination() {
    let u = vec![1, 2, 3];
    let s = vec![vec![1], vec![2], vec![1, 2]];
    assert_eq!(set_cover(u, s, 1), Ok(vec![vec![1]]));
}

#[test]
fn set_cover_empty_family() {
    let u = vec![1];
    let s: Vec<Vec<i32>> = vec![];
    assert_eq!(set_cover(u, s, 0), Ok(vec![]));
}

#[test]
fn set_cover_needs_enough_sets() {
    let u = vec![1, 2];
    let s = vec![vec![1], vec![2]];
    assert_eq!(set_cover(u, s, 3), Ok(vec![]));
}

#[test]
fn set_cover_takes_lowest_counter_pair() {
    let u = vec![1, 2];
    let s = vec![vec![1], vec![2]];
    assert_eq!(set_cover(u, s, 2), Ok(vec![vec![1], vec![2]]));
}

#[test]
fn repeated_calls_return_identical_results() {
    let a = vec![1, 2, 3];
    let b = vec![4, 5, 6];
    let c = vec![7, 8, 9];
    let m = vec![
        (1, 5, 9),
        (1, 5, 6),
        (1, 4, 7),
        (2, 6, 9),
        (2, 5, 8),
        (3, 4, 7),
        (3, 6, 9),
        (3, 5, 9),
    ];
    let first = tripartite_matching(&a, &b, &c, &m);
    let second = tripartite_matching(&a, &b, &c, &m);
    assert_eq!(first, second);
}
