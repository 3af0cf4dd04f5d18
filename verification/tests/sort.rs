use algokit::sort::{merge, merge_sort, number_of_inversions, quick_sorted};

#[test]
fn test_quicksort_example() {
    let s = [2, 3, 9, 2, 2];
    assert_eq!(quick_sorted(&s), vec![2, 2, 2, 3, 9]);
}

#[test]
fn test_merge() {
    assert_eq!(merge(&[1, 2], &[3, 4]), vec![1, 2, 3, 4])
}

#[test]
fn merge_sort_small() {
    let s = [2, 1, 3];
    assert_eq!(merge_sort(&s), vec![1, 2, 3]);
}

#[test]
fn test_quicksort_mergesort() {
    let s = [2, 3, 9, 2, 2];
    assert_eq!(quick_sorted(&s), merge_sort(&s));
}

#[test]
fn number_of_inversions_example() {
    let s = [2, 3, 9, 2, 9];
    assert_eq!(number_of_inversions(&s), (vec![2, 2, 3, 9, 9], 2));
}

#[test]
fn number_of_inversions_example2() {
    let s = [9, 8, 7, 3, 2, 1];
    assert_eq!(number_of_inversions(&s), (vec![1, 2, 3, 7, 8, 9], 15));
}

#[test]
fn sorting_edges() {
    assert_eq!(merge_sort(&[]), Vec::<i64>::new());
    assert_eq!(quick_sorted(&[5]), vec![5]);
    assert_eq!(merge(&[], &[1]), vec![1]);
    assert_eq!(number_of_inversions(&[]), (Vec::<i64>::new(), 0));
}

#[test]
fn sorting_negatives() {
    let s = [-3, 7, -3, 0];
    assert_eq!(merge_sort(&s), vec![-3, -3, 0, 7]);
    assert_eq!(quick_sorted(&s), vec![-3, -3, 0, 7]);
}
