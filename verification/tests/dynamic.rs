use algokit::dynamic::{
    common_items, dynamic_longest_common_subsequence, dynamic_longest_common_subsequence_3,
    edit_distance, longest_common_consecutive_subsequence, longest_common_subsequence,
    maximum_sum_in_capacity, minimum_coins_exchange, nub_sequence, primitive_calculator,
};

#[test]
fn test_exchange_example() {
    assert_eq!(minimum_coins_exchange(34, &[1, 3, 4]), 9);
}

#[test]
fn test_primitive_calculator_example() {
    let res = primitive_calculator(5);
    assert_eq!(res.as_slice(), [1, 2, 4, 5]);
}

#[test]
fn test_edit_distance_example() {
    assert_eq!(edit_distance("ab", "ab"), 0);
}

#[test]
fn test_edit_distance_example2() {
    // substitute the leading p and insert an h: two operations
    assert_eq!(edit_distance("ports", "shorts"), 2);
}

#[test]
fn test_edit_distance_example3() {
    assert_eq!(edit_distance("editing", "distance"), 5);
}

#[test]
fn longest_common_subsequence_size_2_example() {
    let s1 = [2, 7, 8, 3];
    let s2 = [5, 2, 8, 7];
    assert_eq!(dynamic_longest_common_subsequence(&s1, &s2), 2);
}

#[test]
fn longest_common_subsequence_size_3_empty() {
    assert_eq!(dynamic_longest_common_subsequence_3(&[], &[], &[]), 0);
}

#[test]
fn longest_common_subsequence_size_3_example() {
    assert_eq!(
        dynamic_longest_common_subsequence_3(&[1, 2, 3], &[2, 1, 3], &[1, 3, 5]),
        2
    );
}

#[test]
fn maximum_sum_capacity_example() {
    assert_eq!(maximum_sum_in_capacity(10, &[1, 4, 8]), 9);
}

#[test]
fn exchange_zero_value() {
    assert_eq!(minimum_coins_exchange(0, &[1, 5]), 0);
}

#[test]
fn exchange_unreachable_reports_zero() {
    // value 1 cannot be paid with only twos; the table policy records zero
    assert_eq!(minimum_coins_exchange(1, &[2]), 0);
    assert_eq!(minimum_coins_exchange(3, &[2]), 1);
}

#[test]
fn exchange_value_minus_count_monotonic() {
    // with denomination 1, value minus coin count never decreases
    let coins = [1, 3, 4];
    let mut prev: i64 = 0;
    for v in 0..40usize {
        let c = minimum_coins_exchange(v, &coins) as i64;
        let diff = v as i64 - c;
        assert!(diff >= prev);
        prev = diff;
    }
}

#[test]
fn edit_distance_self_and_symmetry() {
    assert_eq!(edit_distance("kitten", "kitten"), 0);
    assert_eq!(
        edit_distance("kitten", "sitting"),
        edit_distance("sitting", "kitten")
    );
    assert_eq!(edit_distance("", "abc"), 3);
}

#[test]
fn primitive_calculator_replay_and_minimality() {
    // replaying the returned path from 1 reaches the target in len - 1 steps,
    // and the length matches a brute-force breadth-first search
    for target in 1..=30usize {
        let path = primitive_calculator(target);
        assert_eq!(path[0], 1);
        assert_eq!(*path.last().unwrap(), target);
        for w in path.windows(2) {
            let (a, b) = (w[0], w[1]);
            assert!(b == a + 1 || b == 2 * a || b == 3 * a);
        }
        let mut dist = vec![usize::MAX; target + 1];
        dist[1] = 0;
        let mut frontier = vec![1usize];
        while let Some(v) = frontier.pop() {
            for n in [v + 1, v * 2, v * 3] {
                if n <= target && dist[v] + 1 < dist[n] {
                    dist[n] = dist[v] + 1;
                    frontier.push(n);
                }
            }
        }
        assert_eq!(path.len() - 1, dist[target]);
    }
}

#[test]
fn maximum_sum_matches_brute_force() {
    let cases: [(usize, &[usize]); 5] = [
        (50, &[7, 11, 3, 20, 9, 14, 2, 30, 5, 1, 18, 4]),
        (25, &[8, 8, 8, 8]),
        (12, &[13, 14, 15]),
        (10, &[10]),
        (0, &[1, 2, 3]),
    ];
    for (capacity, values) in cases {
        let mut best = 0usize;
        for mask in 0u32..(1u32 << values.len()) {
            let total: usize = values
                .iter()
                .enumerate()
                .filter(|(i, _)| mask & (1 << i) != 0)
                .map(|(_, v)| *v)
                .sum();
            if total <= capacity && total > best {
                best = total;
            }
        }
        assert_eq!(maximum_sum_in_capacity(capacity, values), best);
    }
}

#[test]
fn common_items_intersection() {
    let a: &[usize] = &[1, 2, 3, 5];
    let b: &[usize] = &[5, 2, 9];
    let set = common_items(&[a, b]);
    assert!(set.contains(&2));
    assert!(set.contains(&5));
    assert!(!set.contains(&1));
    assert!(!set.contains(&9));
    let empty = common_items(&[]);
    assert!(empty.is_empty());
}

#[test]
fn nub_sequence_keeps_order() {
    let a: &[usize] = &[4, 1, 7, 2, 1];
    let b: &[usize] = &[1, 2, 8];
    let set = common_items(&[a, b]);
    assert_eq!(nub_sequence(a, &set), vec![1, 2, 1]);
}

#[test]
fn consecutive_run_example() {
    let a: &[usize] = &[1, 2, 3, 4];
    let b: &[usize] = &[9, 2, 3, 4];
    assert_eq!(longest_common_consecutive_subsequence(&[a, b]), 3);
    let c: &[usize] = &[5, 6];
    let d: &[usize] = &[7, 8];
    assert_eq!(longest_common_consecutive_subsequence(&[c, d]), 0);
}

#[test]
fn consecutive_run_single_sequence() {
    // with one sequence, every window is shared; the search stops below
    // the sequence's own length
    let a: &[usize] = &[4, 5, 6, 7];
    assert_eq!(longest_common_consecutive_subsequence(&[a]), 3);
    let b: &[usize] = &[1, 2];
    assert_eq!(longest_common_consecutive_subsequence(&[b]), 0);
}

#[test]
fn common_items_single_family() {
    let a: &[usize] = &[3, 1, 3];
    let set = common_items(&[a]);
    assert!(set.contains(&1) && set.contains(&3));
    assert_eq!(set.len(), 2);
}

#[test]
fn filtered_run_example() {
    // 9 and 8 are not common; the filtered sequences share the run 2 3 4
    let a: &[usize] = &[1, 2, 3, 4];
    let b: &[usize] = &[2, 9, 3, 4, 8, 1];
    assert_eq!(longest_common_subsequence(&[a, b]), 3);
}
