use number_persistence::digits::BigNat;
use number_persistence::product::{
    contains_zero, direct_product, fold_product, memo_product, product_of_digit_seq,
    ProductCache, ProductStrategy,
};

fn digits_of(n: u64) -> Vec<u8> {
    BigNat::from_u64(n).to_digits_le()
}

#[test]
fn product_of_256_digits_is_60() {
    assert_eq!(direct_product(&vec![6, 5, 2]).to_digits_le(), digits_of(60));
}

#[test]
fn product_of_empty_sequence_is_one() {
    assert_eq!(direct_product(&vec![]).to_digits_le(), digits_of(1));
    let mut cache = ProductCache::new(10);
    assert_eq!(memo_product(&vec![], &mut cache).to_digits_le(), digits_of(1));
}

#[test]
fn product_of_single_digit_is_that_digit() {
    let mut cache = ProductCache::new(10);
    for d in 0..10u8 {
        assert_eq!(memo_product(&vec![d], &mut cache).to_digits_le(), digits_of(d as u64));
        assert_eq!(direct_product(&vec![d]).to_digits_le(), digits_of(d as u64));
    }
}

#[test]
fn product_of_twenty_nines() {
    let nines = vec![9u8; 20];
    let expected = digits_of(12157665459056928801);
    assert_eq!(direct_product(&nines).to_digits_le(), expected);
    let mut cache = ProductCache::new(100);
    assert_eq!(memo_product(&nines, &mut cache).to_digits_le(), expected);
}

#[test]
fn fold_over_a_range() {
    let d = vec![1u8, 2, 3, 4, 5, 6, 7];
    assert_eq!(fold_product(&d, 2, 5).to_digits_le(), digits_of(60));
    assert_eq!(fold_product(&d, 3, 3).to_digits_le(), digits_of(1));
}

#[test]
fn divide_and_conquer_matches_fold_with_hits_and_misses() {
    let mut cache = ProductCache::new(1000);
    let mut seqs: Vec<Vec<u8>> = Vec::new();
    for len in 0..60usize {
        seqs.push((0..len).map(|i| (2 + (i * 7) % 8) as u8).collect());
    }
    seqs.push(vec![7u8; 64]);
    seqs.push(vec![7u8; 64]);
    let mut long: Vec<u8> = (0..500).map(|i| (1 + i % 9) as u8).collect();
    seqs.push(long.clone());
    long[250] = 0;
    seqs.push(long);
    for round in 0..2 {
        for s in &seqs {
            let a = direct_product(s).to_digits_le();
            let b = memo_product(s, &mut cache).to_digits_le();
            assert_eq!(a, b, "round {} len {}", round, s.len());
        }
    }
    assert!(cache.len() > 0);
}

#[test]
fn cache_keeps_no_more_than_its_capacity() {
    let mut cache = ProductCache::new(3);
    let d: Vec<u8> = (0..100).map(|i| (1 + i % 9) as u8).collect();
    let expected = direct_product(&d).to_digits_le();
    assert_eq!(memo_product(&d, &mut cache).to_digits_le(), expected);
    assert_eq!(cache.len(), 3);
    let mut empty = ProductCache::new(0);
    assert_eq!(memo_product(&d, &mut empty).to_digits_le(), expected);
    assert_eq!(empty.len(), 0);
}

#[test]
fn zero_digit_short_circuits_to_zero() {
    let mut cache = ProductCache::new(10);
    let d = vec![9u8, 9, 0, 9, 9, 9, 9, 9, 9, 9, 9, 9];
    assert!(contains_zero(&d));
    assert!(!contains_zero(&vec![1u8, 2, 3]));
    for s in [ProductStrategy::DirectFold, ProductStrategy::DivideAndConquer] {
        assert_eq!(product_of_digit_seq(&d, s, &mut cache).to_digits_le(), vec![0u8]);
    }
    assert_eq!(cache.len(), 0);
}
