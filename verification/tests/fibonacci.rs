use algokit::fibonacci::{
    fibonacci, fibonacci_ends, fibonacci_modulus, fibonacci_sum_ends, fibonacci_sum_range_ends,
    pisano,
};

#[test]
fn test_seq() {
    let result: Vec<u64> = (0..6).map(fibonacci).collect();
    assert_eq!(result, vec![0, 1, 1, 2, 3, 5]);
}

#[test]
fn test_ends() {
    for i in 0..50 {
        assert_eq!(fibonacci_ends(i) as u64, fibonacci(i as u32) % 10);
    }
}

#[test]
fn pisano_example() {
    let expected = 20u64;
    assert_eq!(pisano(5), expected);
}

#[test]
fn fibo_mod() {
    let (n, m) = (1548276540, 235);
    let expected = 185;
    assert_eq!(fibonacci_modulus(n, m), expected);
}

#[test]
fn fibo_mod_1000_100() {
    let (n, m) = (1000, 100);
    let expected = 75;
    assert_eq!(fibonacci_modulus(n, m), expected);
}

#[test]
fn fibo_mod_9999999999999_2() {
    let (n, m) = (9999999999999, 2);
    let expected = 0;
    assert_eq!(fibonacci_modulus(n, m), expected);
}

#[test]
fn fibo_sum_ends_example() {
    assert_eq!(fibonacci_sum_ends(3), 4);
}

#[test]
fn fibo_sum_ends_example2() {
    assert_eq!(fibonacci_sum_ends(100), 5);
}

#[test]
fn fibo_sum_ends_big() {
    println!("{}", fibonacci_sum_ends(832564823476));
}

#[test]
fn fibo_sum_range_ends() {
    assert_eq!(fibonacci_sum_range_ends(3, 7), 1);
    assert_eq!(fibonacci_sum_range_ends(10, 200), 2);
}

#[test]
fn fibo_sum_range_ends_flipped_modulus() {
    assert_eq!(fibonacci_sum_range_ends(5618252, 6583591534156), 6);
}

#[test]
fn fibonacci_edges() {
    assert_eq!(fibonacci(0), 0);
    assert_eq!(fibonacci(1), 1);
    assert_eq!(fibonacci(93), 12200160415121876738);
}

#[test]
fn fibonacci_ends_zero() {
    assert_eq!(fibonacci_ends(0), 0);
    assert_eq!(fibonacci_ends(60), 0);
    assert_eq!(fibonacci_ends(61), 1);
}

#[test]
fn fibo_mod_small() {
    // fib(10) = 55
    assert_eq!(fibonacci_modulus(10, 10), 5);
    assert_eq!(fibonacci_modulus(0, 7), 0);
    assert_eq!(fibonacci_modulus(1, 7), 1);
}

#[test]
fn pisano_two_and_three() {
    assert_eq!(pisano(2), 3);
    assert_eq!(pisano(3), 8);
    assert_eq!(pisano(10), 60);
}

#[test]
fn fibo_sum_range_single() {
    // a single-index range is the Fibonacci number's own last digit
    assert_eq!(fibonacci_sum_range_ends(7, 7), 3);
}
