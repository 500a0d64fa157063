use number_persistence::digits::BigNat;
use number_persistence::persistence::calculate_multiplicative_persistence;
use number_persistence::search::{
    search_for_maximum_multiplicative_persistence, search_for_new_record_multiplicative_persistence,
    substitute_digits, substitute_one, RangeSearch, Record, SearchStrategy,
};

fn big(n: u64) -> BigNat {
    BigNat::from_u64(n)
}

fn to_u64(n: &BigNat) -> u64 {
    let mut v: u64 = 0;
    for d in n.to_digits_le().iter().rev() {
        v = v * 10 + *d as u64;
    }
    v
}

fn pairs(r: &[Record]) -> Vec<(u64, u8)> {
    r.iter().map(|x| (to_u64(&x.value), x.persistence)).collect()
}

fn plain_persistence(mut n: u64) -> u8 {
    let mut p = 0;
    while n >= 10 {
        let mut prod = 1;
        let mut m = n;
        while m > 0 {
            prod *= m % 10;
            m /= 10;
        }
        n = prod;
        p += 1;
    }
    p
}

#[test]
fn exhaustive_records_below_one_hundred() {
    let r = search_for_maximum_multiplicative_persistence(&big(1), &big(100));
    assert_eq!(pairs(&r), vec![(11, 1), (25, 2), (39, 3), (77, 4)]);
}

#[test]
fn exhaustive_matches_plain_brute_force_below_one_thousand() {
    let mut best: (u64, u8) = (0, 0);
    for n in 1..1000u64 {
        let p = plain_persistence(n);
        if p > best.1 {
            best = (n, p);
        }
    }
    let r = search_for_maximum_multiplicative_persistence(&big(1), &big(1000));
    let last = pairs(&r).last().copied().unwrap();
    assert_eq!(last, best);
    assert_eq!(last, (679, 5));
}

#[test]
fn heuristic_never_beats_exhaustive_below_one_thousand() {
    let e = search_for_maximum_multiplicative_persistence(&big(1), &big(1000));
    let h = search_for_new_record_multiplicative_persistence(&big(1), &big(1000), 1000);
    let e_max = e.last().map(|x| x.persistence).unwrap_or(0);
    let h_max = h.last().map(|x| x.persistence).unwrap_or(0);
    assert!(h_max <= e_max);
}

#[test]
fn empty_range_emits_no_records() {
    assert!(search_for_maximum_multiplicative_persistence(&big(500), &big(500)).is_empty());
    assert!(search_for_new_record_multiplicative_persistence(&big(500), &big(500), 10).is_empty());
    assert!(search_for_maximum_multiplicative_persistence(&big(600), &big(500)).is_empty());
    let s = RangeSearch::new(SearchStrategy::Heuristic, big(42), big(42), 10);
    assert!(s.is_finished());
}

#[test]
fn heuristic_substitutes_before_testing() {
    let r = search_for_new_record_multiplicative_persistence(&big(10), &big(11), 10);
    assert_eq!(pairs(&r), vec![(27, 2)]);
}

#[test]
fn records_strictly_increase_and_match_persistence() {
    let r = search_for_new_record_multiplicative_persistence(&big(1), &big(5000), 100);
    let mut last = 0;
    for x in &r {
        assert!(x.persistence > last);
        last = x.persistence;
        assert_eq!(calculate_multiplicative_persistence(x.value.duplicate()), x.persistence);
    }
}

#[test]
fn advance_steps_one_candidate_at_a_time() {
    let mut s = RangeSearch::new(SearchStrategy::Exhaustive, big(10), big(13), 0);
    let first = s.advance().unwrap();
    assert_eq!((to_u64(&first.value), first.persistence), (11, 1));
    assert_eq!(s.max_seen(), 1);
    assert!(!s.is_finished());
    assert!(s.advance().is_none());
    assert!(s.is_finished());
}

#[test]
fn substitution_tables() {
    let e: Vec<u8> = (0..10).map(|d| substitute_one(SearchStrategy::Exhaustive, d)).collect();
    assert_eq!(e, vec![1, 1, 2, 3, 4, 5, 6, 7, 8, 9]);
    let h: Vec<u8> = (0..10).map(|d| substitute_one(SearchStrategy::Heuristic, d)).collect();
    assert_eq!(h, vec![7, 2, 2, 7, 7, 7, 7, 7, 9, 9]);
    assert_eq!(to_u64(&substitute_digits(SearchStrategy::Exhaustive, &big(1005))), 1115);
    assert_eq!(to_u64(&substitute_digits(SearchStrategy::Heuristic, &big(1034568))), 2777779);
    assert_eq!(to_u64(&substitute_digits(SearchStrategy::Exhaustive, &big(0))), 1);
}
