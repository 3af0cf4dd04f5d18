use algokit::greedy::{
    advertisement_revenue, coin_exchange, gas_stations, max_number_from_digits, max_prizes,
    minimum_segments_shared_points,
};

#[test]
fn test_greedy_coin_exchange_example() {
    assert_eq!(coin_exchange(2), 2);
    assert_eq!(coin_exchange(28), 6);
}

#[test]
fn gas_stations_example() {
    assert_eq!(
        gas_stations(950, 400, &mut vec![200, 375, 550, 750]),
        Some(2)
    );
    assert_eq!(gas_stations(10, 3, &mut vec![1, 2, 5, 9]), None);
    assert_eq!(
        gas_stations(500, 200, &mut vec![100, 200, 300, 400]),
        Some(2)
    );
}

#[test]
fn advertisement_revenue_example() {
    let mut values = [1, 3, -5];
    let mut clicks = [-2, 4, 1];
    assert_eq!(advertisement_revenue(&mut values, &mut clicks), 23);
}

#[test]
fn signatures_example() {
    let mut segments = [(1, 4), (1, 3), (2, 5), (3, 6)];
    assert_eq!(minimum_segments_shared_points(&mut segments), vec![3]);

    let mut segments = [(4, 7), (1, 3), (2, 5), (5, 6)];
    assert_eq!(minimum_segments_shared_points(&mut segments), vec![3, 6]);
}

#[test]
fn max_rewards_examples() {
    assert_eq!(max_prizes(2), vec![2]);
    assert_eq!(max_prizes(6), vec![1, 2, 3]);
    assert_eq!(max_prizes(8), vec![1, 2, 5]);
}

#[test]
fn max_number_from_digits_examples() {
    let mut v = [21, 2];
    max_number_from_digits(&mut v);
    assert_eq!(v, [2, 21]);

    let mut v = [9, 4, 6, 1, 9];
    max_number_from_digits(&mut v);
    assert_eq!(v, [9, 9, 6, 4, 1]);

    let mut v = [23, 39, 92];
    max_number_from_digits(&mut v);
    assert_eq!(v, [92, 39, 23]);

    let mut v = [23, 39, 92, 4];
    max_number_from_digits(&mut v);
    assert_eq!(v, [92, 4, 39, 23]);

    let mut v = [95959995, 95];
    max_number_from_digits(&mut v);
    assert_eq!(v, [95959995, 95]);
}

#[test]
fn max_number_from_digits_ones_example() {
    let mut v = [111, 1, 1, 10, 10];
    max_number_from_digits(&mut v);
    assert_eq!(v, [1, 1, 111, 10, 10]);
}

#[test]
fn max_number_from_digits_23_example() {
    let mut v = [23, 2, 23, 2];
    max_number_from_digits(&mut v);
    assert_eq!(v, [23, 23, 2, 2]);
}

#[test]
fn max_number_from_digits_examples_2() {
    let mut v = [79, 797];
    max_number_from_digits(&mut v);
    assert_eq!(v, [79, 797]);
}

#[test]
fn coin_exchange_zero_and_formula() {
    assert_eq!(coin_exchange(0), 0);
    // 99 = 9 tens + 1 five + 4 ones
    assert_eq!(coin_exchange(99), 14);
}

#[test]
fn gas_stations_no_stations() {
    assert_eq!(gas_stations(100, 100, &mut vec![]), Some(0));
    assert_eq!(gas_stations(100, 99, &mut vec![]), None);
}

#[test]
fn max_prizes_edges() {
    assert_eq!(max_prizes(0), Vec::<u64>::new());
    assert_eq!(max_prizes(1), vec![1]);
}

#[test]
fn segments_single() {
    let mut segments = [(5, 9)];
    let points = minimum_segments_shared_points(&mut segments);
    assert_eq!(points, vec![9]);
}

#[test]
fn advertisement_revenue_sorts_descending() {
    let mut values = [2, 1];
    let mut clicks = [10, 20];
    // descending pairing: 2 * 20 + 1 * 10
    assert_eq!(advertisement_revenue(&mut values, &mut clicks), 50);
    assert_eq!(values, [2, 1]);
    assert_eq!(clicks, [20, 10]);
}
