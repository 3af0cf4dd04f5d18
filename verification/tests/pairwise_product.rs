use algokit::pairwise_product::pairwise_product;
use rand::Rng;

fn naive_pairwise_product(lst: &[u64]) -> u64 {
    let mut sub_lst: Vec<u64> = lst.iter().cloned().collect();
    sub_lst.sort();
    let mut iter = sub_lst.iter().rev().take(2);
    *iter.next().unwrap() * *iter.next().unwrap()
}

#[test]
fn test_example() {
    let example = &(0..11).collect::<Vec<u64>>();
    assert_eq!(pairwise_product(example), naive_pairwise_product(example));
}

#[test]
fn stress_test() {
    let mut rng = rand::rng();

    for _ in 0..1000 {
        let example: Vec<u64> = (0..100).map(|_| rng.next_u32() as u64).collect();
        assert_eq!(pairwise_product(&example), naive_pairwise_product(&example));
    }
}

#[test]
fn pairwise_product_exact() {
    assert_eq!(pairwise_product(&[3, 5, 2]), 15);
    assert_eq!(pairwise_product(&[7, 7]), 49);
    assert_eq!(pairwise_product(&[0, 0, 1]), 0);
}
