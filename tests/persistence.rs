use number_persistence::digits::BigNat;
use number_persistence::persistence::{
    calculate_multiplicative_persistence, persistence_with, reduce,
};
use number_persistence::product::{ProductCache, ProductStrategy};

fn big(n: u64) -> BigNat {
    BigNat::from_u64(n)
}

fn to_u64(n: &BigNat) -> u64 {
    let mut v: u64 = 0;
    for d in n.to_digits_le().iter().rev() {
        v = v * 10 + *d as u64;
    }
    v
}

#[test]
fn single_digits_have_persistence_zero() {
    for n in 0..10u64 {
        assert_eq!(calculate_multiplicative_persistence(big(n)), 0);
    }
}

#[test]
fn numbers_with_a_zero_digit_have_persistence_one() {
    for n in [10u64, 20, 101, 305, 1005, 9990, 7000000001] {
        assert_eq!(calculate_multiplicative_persistence(big(n)), 1, "{}", n);
    }
}

#[test]
fn persistence_of_256_is_two() {
    assert_eq!(calculate_multiplicative_persistence(big(256)), 2);
}

#[test]
fn persistence_of_known_record_is_eleven() {
    assert_eq!(calculate_multiplicative_persistence(big(277777788888899)), 11);
}

#[test]
fn persistence_of_small_values() {
    assert_eq!(calculate_multiplicative_persistence(big(25)), 2);
    assert_eq!(calculate_multiplicative_persistence(big(39)), 3);
    assert_eq!(calculate_multiplicative_persistence(big(77)), 4);
    assert_eq!(calculate_multiplicative_persistence(big(679)), 5);
    assert_eq!(calculate_multiplicative_persistence(big(6788)), 6);
    assert_eq!(calculate_multiplicative_persistence(big(68889)), 7);
}

#[test]
fn persistence_with_divide_and_conquer_matches_fold() {
    let mut cache = ProductCache::new(1000);
    for n in [0u64, 9, 10, 256, 6788, 68889, 2677889, 26888999, 3778888999, 277777788888899] {
        let by_fold = calculate_multiplicative_persistence(big(n));
        let by_split = persistence_with(big(n), ProductStrategy::DivideAndConquer, &mut cache);
        assert_eq!(by_fold, by_split, "{}", n);
    }
    assert_eq!(persistence_with(big(277777788888899), ProductStrategy::DivideAndConquer, &mut cache), 11);
}

#[test]
fn reduce_steps_through_the_known_record() {
    let mut cache = ProductCache::new(0);
    let mut n = big(277777788888899);
    let expected = [
        4996238671872u64,
        438939648,
        4478976,
        338688,
        27648,
        2688,
        768,
        336,
        54,
        20,
        0,
    ];
    for e in expected {
        n = reduce(&n, ProductStrategy::DirectFold, &mut cache);
        assert_eq!(to_u64(&n), e);
    }
}

#[test]
fn single_digit_result_is_a_fixed_point() {
    let mut cache = ProductCache::new(0);
    for start in [256u64, 277777788888899, 77, 999] {
        let mut n = big(start);
        let steps = calculate_multiplicative_persistence(big(start));
        for _ in 0..steps {
            n = reduce(&n, ProductStrategy::DirectFold, &mut cache);
        }
        assert!(to_u64(&n) < 10);
        assert_eq!(calculate_multiplicative_persistence(n), 0);
    }
}
