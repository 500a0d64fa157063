//! Multiplicative persistence: how many times a number must be replaced by
//! the product of its decimal digits before it is a single digit.

use crate::digits::{lemma_canonical_split, BigNat};
use crate::product::{
    lemma_product_below, lemma_product_of_value, product_of_digit_seq, product_of_digits,
    ProductCache, ProductStrategy,
};
use vstd::prelude::*;

verus! {

/// The multiplicative persistence of `n`.
pub open spec fn persistence(n: nat) -> nat
    decreases n,
    via persistence_decreases
{
    if n < 10 {
        0
    } else {
        1 + persistence(product_of_digits(n))
    }
}

#[via_fn]
proof fn persistence_decreases(n: nat) {
    lemma_product_below(n);
}

/// A count as held in one byte: values from 255 up are held as 255.
pub open spec fn capped(p: nat) -> nat {
    if p < 255 {
        p
    } else {
        255
    }
}

/// `n` after `k` replacements by the product of its digits.
pub open spec fn reduce_times(n: nat, k: nat) -> nat
    decreases k,
{
    if k == 0 {
        n
    } else {
        reduce_times(product_of_digits(n), (k - 1) as nat)
    }
}

/// Whether some decimal digit of `n` is zero.
pub open spec fn has_zero_digit(n: nat) -> bool
    decreases n,
{
    if n < 10 {
        n == 0
    } else {
        n % 10 == 0 || has_zero_digit(n / 10)
    }
}

/// A single digit has persistence zero.
pub proof fn lemma_single_digit_persistence(n: nat)
    requires
        n < 10,
    ensures
        persistence(n) == 0,
{
}

/// A zero digit makes the product of the digits zero.
pub proof fn lemma_zero_digit_product(n: nat)
    requires
        has_zero_digit(n),
    ensures
        product_of_digits(n) == 0,
    decreases n,
{
    if n >= 10 && n % 10 != 0 {
        lemma_zero_digit_product(n / 10);
        assert((n % 10) * product_of_digits(n / 10) == 0);
    }
}

/// A number of two or more digits, one of them zero, has persistence one:
/// one step takes it to zero.
pub proof fn lemma_zero_digit_persistence(n: nat)
    requires
        n >= 10,
        has_zero_digit(n),
    ensures
        persistence(n) == 1,
{
    lemma_zero_digit_product(n);
    assert(persistence(0) == 0);
}

/// After as many steps as its persistence, a number has become a single
/// digit, and that digit has persistence zero: a further computation of
/// persistence on it takes no step.
pub proof fn lemma_reduced_is_fixed(n: nat)
    ensures
        reduce_times(n, persistence(n)) < 10,
        persistence(reduce_times(n, persistence(n))) == 0,
    decreases n,
{
    if n >= 10 {
        let p = product_of_digits(n);
        lemma_product_below(n);
        lemma_reduced_is_fixed(p);
        assert(reduce_times(n, persistence(n)) == reduce_times(p, persistence(p)));
    }
}

/// Replaces `n` by the product of its digits, by the chosen strategy.
pub fn reduce(n: &BigNat, strategy: ProductStrategy, cache: &mut ProductCache) -> (r: BigNat)
    requires
        n.wf(),
        old(cache).wf(),
    ensures
        final(cache).wf(),
        final(cache).capacity_spec() == old(cache).capacity_spec(),
        r.wf(),
        r@ == product_of_digits(n@),
{
    proof {
        n.lemma_view_is_value();
        lemma_product_of_value(n.digit_seq());
    }
    product_of_digit_seq(n.digits(), strategy, cache)
}

/// The multiplicative persistence of `number`, with digit products computed
/// by the chosen strategy; a persistence from 255 up is reported as 255.
pub fn persistence_with(number: BigNat, strategy: ProductStrategy, cache: &mut ProductCache) -> (r:
    u8)
    requires
        number.wf(),
        old(cache).wf(),
    ensures
        final(cache).wf(),
        final(cache).capacity_spec() == old(cache).capacity_spec(),
        r as nat == capped(persistence(number@)),
{
    let ghost start = number@;
    let mut current = number;
    let mut count: u8 = 0;
    let ghost mut steps: nat = 0;
    while current.digit_count() >= 2
        invariant
            current.wf(),
            cache.wf(),
            cache.capacity_spec() == old(cache).capacity_spec(),
            persistence(start) == steps + persistence(current@),
            count as nat == capped(steps),
        decreases current@,
    {
        proof {
            current.lemma_view_is_value();
            lemma_canonical_split(current.digit_seq());
            lemma_product_below(current@);
        }
        current = reduce(&current, strategy, cache);
        if count < 255 {
            count = count + 1;
        }
        proof {
            steps = steps + 1;
        }
    }
    proof {
        current.lemma_view_is_value();
        lemma_canonical_split(current.digit_seq());
    }
    count
}

/// The multiplicative persistence of `number`, with each digit product
/// folded directly; a persistence from 255 up is reported as 255.
pub fn calculate_multiplicative_persistence(number: BigNat) -> (r: u8)
    requires
        number.wf(),
    ensures
        r as nat == capped(persistence(number@)),
{
    let mut cache = ProductCache::new(0);
    persistence_with(number, ProductStrategy::DirectFold, &mut cache)
}

} // verus!
