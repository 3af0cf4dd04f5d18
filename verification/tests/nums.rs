use algokit::nums::{gcd, lcm};

#[test]
fn test_gdc_example() {
    let (a, b) = (28851538, 1183019);
    let expected = 17657;
    assert_eq!(gcd(a, b), expected);
}

#[test]
fn test_lcm_example() {
    let (a, b) = (761457, 614573);
    let expected = 467970912861;
    assert_eq!(lcm(a, b), expected);
}

#[test]
fn gcd_edges() {
    assert_eq!(gcd(0, 5), 5);
    assert_eq!(gcd(5, 0), 5);
    assert_eq!(gcd(0, 0), 0);
    assert_eq!(gcd(12, 18), 6);
}

#[test]
fn lcm_edges() {
    assert_eq!(lcm(0, 0), 0);
    assert_eq!(lcm(0, 7), 0);
    assert_eq!(lcm(4, 6), 12);
}
