use chat_wasm::{diff_sorted_unique_u32, merge_and_diff_sorted_unique_u32, merge_sorted_unique_u32};

#[test]
fn merge_collapses_duplicates() {
    assert_eq!(merge_sorted_unique_u32(vec![1, 1, 2, 2, 3], vec![2, 3, 3, 4]), vec![1, 2, 3, 4]);
}

#[test]
fn diff_collapses_duplicates() {
    assert_eq!(diff_sorted_unique_u32(vec![1, 1, 2], vec![2, 2, 3, 3]), vec![3]);
}

#[test]
fn merge_with_empty_existing() {
    assert_eq!(merge_sorted_unique_u32(vec![], vec![5, 5, 7]), vec![5, 7]);
}

#[test]
fn diff_with_empty_existing() {
    assert_eq!(diff_sorted_unique_u32(vec![], vec![5, 5, 7]), vec![5, 7]);
}

#[test]
fn diff_with_empty_incoming() {
    assert_eq!(diff_sorted_unique_u32(vec![5, 7], vec![]), Vec::<u32>::new());
}

#[test]
fn merge_both_empty() {
    assert_eq!(merge_sorted_unique_u32(vec![], vec![]), Vec::<u32>::new());
    assert_eq!(diff_sorted_unique_u32(vec![], vec![]), Vec::<u32>::new());
}

#[test]
fn merge_is_ascending_union() {
    assert_eq!(merge_sorted_unique_u32(vec![1, 4, 9], vec![2, 4, 10]), vec![1, 2, 4, 9, 10]);
}

#[test]
fn merge_is_commutative() {
    let a = vec![1, 3, 3, 8];
    let b = vec![2, 3, 9, 9];
    assert_eq!(merge_sorted_unique_u32(a.clone(), b.clone()), merge_sorted_unique_u32(b, a));
}

#[test]
fn diff_is_not_symmetric() {
    assert_eq!(diff_sorted_unique_u32(vec![1], vec![2]), vec![2]);
    assert_eq!(diff_sorted_unique_u32(vec![2], vec![1]), vec![1]);
}

#[test]
fn diff_is_set_difference() {
    assert_eq!(diff_sorted_unique_u32(vec![2, 4, 6, 8], vec![1, 2, 3, 4, 5, 9]), vec![1, 3, 5, 9]);
}

#[test]
fn diff_of_superset_gives_extras() {
    assert_eq!(diff_sorted_unique_u32(vec![3, 5], vec![1, 3, 4, 5, 6]), vec![1, 4, 6]);
}

#[test]
fn diff_against_itself_is_empty() {
    let a = vec![1, 1, 2, 5, 5, 5, 9];
    assert_eq!(diff_sorted_unique_u32(a.clone(), a), Vec::<u32>::new());
}

#[test]
fn merge_and_diff_matches_separate_calls() {
    let a = vec![1, 1, 4, 6];
    let b = vec![0, 4, 4, 7, 7];
    let (m, d) = merge_and_diff_sorted_unique_u32(a.clone(), b.clone());
    assert_eq!(m, merge_sorted_unique_u32(a.clone(), b.clone()));
    assert_eq!(d, diff_sorted_unique_u32(a, b));
    assert_eq!(m, vec![0, 1, 4, 6, 7]);
    assert_eq!(d, vec![0, 7]);
}

#[test]
fn merge_handles_extreme_values() {
    assert_eq!(merge_sorted_unique_u32(vec![0, u32::MAX], vec![u32::MAX]), vec![0, u32::MAX]);
    assert_eq!(diff_sorted_unique_u32(vec![0], vec![0, u32::MAX, u32::MAX]), vec![u32::MAX]);
}
