use algokit::search::{
    binary_search, binary_search_all, distance_squared, majority_element, points_on_segments,
};

#[test]
fn test_finds_example() {
    let slice = [1, 5, 8, 12, 13];
    assert_eq!(binary_search(&slice, &1), Some(0));
    let slice = [1, 5, 8, 12, 13, 14];
    assert_eq!(binary_search(&slice, &1), Some(0));
}

#[test]
fn test_one_weird() {
    let s = [
        4, 5, 20, 44, 54, 72, 82, 89, 91, 94, 121, 135, 139, 156, 169, 176, 181, 181, 181, 186,
        202, 204, 209, 218, 222, 238,
    ];
    assert_eq!(binary_search(&s, &181), Some(18))
}

#[test]
fn test_finds_all_example() {
    let slice = [1, 5, 8, 12, 13, 14];
    let other = [8, 1, 23, 1, 11];
    let result = [Some(2), Some(0), None, Some(0), None];
    assert_eq!(binary_search_all(&slice, &other).as_slice(), result);
}

#[test]
fn majority_example() {
    let s = [2, 3, 9, 2, 2];
    assert_eq!(majority_element(&s), 1);

    let s = [1, 2, 3, 4];
    assert_eq!(majority_element(&s), 0);

    let s = [1, 3, 9, 2, 1];
    assert_eq!(majority_element(&s), 0);
}

#[test]
fn points_on_segments_example() {
    let segments = [(0, 5), (-3, 2), (7, 10)];
    let points = [1, 6];
    let output = [2, 0];
    assert_eq!(&points_on_segments(&segments, &points), &output)
}

#[test]
fn binary_search_absent_and_single() {
    assert_eq!(binary_search(&[7], &7), Some(0));
    assert_eq!(binary_search(&[7], &3), None);
    assert_eq!(binary_search(&[1, 4, 9], &10), None);
}

#[test]
fn majority_empty() {
    let s: [i64; 0] = [];
    assert_eq!(majority_element(&s), 0);
}

#[test]
fn points_on_segments_nested() {
    let segments = [(-2, 8), (0, 4), (3, 3)];
    let points = [3, -2, 9];
    assert_eq!(points_on_segments(&segments, &points), vec![3, 1, 0]);
}

#[test]
fn distance_squared_example() {
    assert_eq!(distance_squared((0, 0), (3, 4)), 25);
    assert_eq!(distance_squared((-1, -1), (-1, -1)), 0);
}
