//! The product of a sequence of decimal digits, by a direct fold or by a
//! memoized divide-and-conquer reduction.

use crate::digits::{all_decimal, lemma_canonical_split, is_canonical, multiply, multiply_small, value_of, BigNat};
use vstd::prelude::*;

verus! {

/// Sequences shorter than this are multiplied out directly.
pub const FOLD_THRESHOLD: usize = 8;

/// Product of the digits of a sequence; `1` for the empty sequence.
pub open spec fn digit_product(d: Seq<u8>) -> nat
    decreases d.len(),
{
    if d.len() == 0 {
        1
    } else {
        digit_product(d.drop_last()) * d.last() as nat
    }
}

/// Product of the decimal digits of `n`.
pub open spec fn product_of_digits(n: nat) -> nat
    decreases n,
{
    if n < 10 {
        n
    } else {
        (n % 10) * product_of_digits(n / 10)
    }
}

/// The product over a concatenation is the product of the two products:
/// the reason that splitting a sequence anywhere and multiplying the halves'
/// products gives the same result as one fold over the whole.
pub proof fn lemma_product_of_concat(a: Seq<u8>, b: Seq<u8>)
    ensures
        digit_product(a + b) == digit_product(a) * digit_product(b),
    decreases b.len(),
{
    if b.len() == 0 {
        assert(a + b =~= a);
        assert(digit_product(b) == 1);
    } else {
        assert((a + b).drop_last() =~= a + b.drop_last());
        assert((a + b).last() == b.last());
        lemma_product_of_concat(a, b.drop_last());
        let pa = digit_product(a);
        let pb = digit_product(b.drop_last());
        let x = b.last() as nat;
        assert(digit_product(a + b) == digit_product(a + b.drop_last()) * x);
        assert(digit_product(b) == pb * x);
        assert(pa * pb * x == pa * (pb * x)) by (nonlinear_arith);
    }
}

/// The product of a sequence is its first digit times the product of the rest.
pub proof fn lemma_product_first(d: Seq<u8>)
    requires
        d.len() >= 1,
    ensures
        digit_product(d) == d[0] as nat * digit_product(d.skip(1)),
{
    let h = seq![d[0]];
    assert(d =~= h + d.skip(1));
    lemma_product_of_concat(h, d.skip(1));
    let e: Seq<u8> = seq![];
    assert(h.drop_last() =~= e);
    assert(digit_product(e) == 1);
    assert(digit_product(h) == digit_product(e) * d[0] as nat);
}

/// A zero digit makes the product zero.
pub proof fn lemma_product_zero(d: Seq<u8>)
    requires
        d.contains(0u8),
    ensures
        digit_product(d) == 0,
    decreases d.len(),
{
    let p = digit_product(d.drop_last());
    if d.last() != 0 {
        let i = choose|i: int| 0 <= i < d.len() && d[i] == 0u8;
        assert(d.drop_last()[i] == 0u8);
        lemma_product_zero(d.drop_last());
        assert(p == 0);
    }
    assert(digit_product(d) == p * d.last() as nat);
    assert(p == 0 || d.last() == 0);
    assert(p * d.last() as nat == 0) by (nonlinear_arith)
        requires
            p == 0 || d.last() == 0,
    ;
}

/// For a canonical sequence the product over the sequence is the product of
/// the digits of its value.
pub proof fn lemma_product_of_value(d: Seq<u8>)
    requires
        is_canonical(d),
    ensures
        digit_product(d) == product_of_digits(value_of(d)),
    decreases d.len(),
{
    lemma_canonical_split(d);
    lemma_product_first(d);
    let e: Seq<u8> = seq![];
    if d.len() == 1 {
        assert(d.skip(1) =~= e);
        assert(digit_product(e) == 1);
        assert(digit_product(d) == d[0] as nat * 1);
        assert(product_of_digits(value_of(d)) == d[0] as nat);
    } else {
        lemma_product_of_value(d.skip(1));
        let v = value_of(d);
        assert(product_of_digits(v) == (v % 10) * product_of_digits(v / 10));
        assert(product_of_digits(v) == d[0] as nat * product_of_digits(value_of(d.skip(1))));
    }
}

/// The product of the digits of a number is at most the number, and below it
/// once there are two digits or more.
pub proof fn lemma_product_below(n: nat)
    ensures
        product_of_digits(n) <= n,
        n >= 10 ==> product_of_digits(n) < n,
    decreases n,
{
    if n >= 10 {
        lemma_product_below(n / 10);
        let q = n / 10;
        let p = product_of_digits(q);
        assert((n % 10) * p <= 9 * q) by (nonlinear_arith)
            requires
                n % 10 < 10,
                p <= q,
        ;
    }
}

/// Whether a sequence holds the digit zero.
pub fn contains_zero(d: &Vec<u8>) -> (r: bool)
    ensures
        r == d@.contains(0u8),
{
    let mut i: usize = 0;
    while i < d.len()
        invariant
            0 <= i <= d@.len(),
            forall|j: int| 0 <= j < i ==> d@[j] != 0u8,
        decreases d@.len() - i,
    {
        if d[i] == 0 {
            return true;
        }
        i = i + 1;
    }
    false
}

/// Multiplies the digits `d[lo..hi]` left to right, starting from `1`.
pub fn fold_product(d: &Vec<u8>, lo: usize, hi: usize) -> (r: BigNat)
    requires
        lo <= hi <= d@.len(),
        all_decimal(d@),
    ensures
        r.wf(),
        r@ == digit_product(d@.subrange(lo as int, hi as int)),
{
    let mut acc = BigNat::from_u64(1);
    let mut i: usize = lo;
    proof {
        assert(d@.subrange(lo as int, lo as int) =~= seq![]);
    }
    while i < hi
        invariant
            lo <= i <= hi <= d@.len(),
            all_decimal(d@),
            acc.wf(),
            acc@ == digit_product(d@.subrange(lo as int, i as int)),
        decreases hi - i,
    {
        assert(d@.subrange(lo as int, i + 1) .drop_last() =~= d@.subrange(lo as int, i as int));
        acc = multiply_small(&acc, d[i] as u32);
        i = i + 1;
    }
    acc
}

/// The product of all the digits of `d`, by a direct fold.
pub fn direct_product(d: &Vec<u8>) -> (r: BigNat)
    requires
        all_decimal(d@),
    ensures
        r.wf(),
        r@ == digit_product(d@),
{
    let r = fold_product(d, 0, d.len());
    assert(d@.subrange(0, d@.len() as int) =~= d@);
    r
}

/// How the product of a digit sequence is computed.
#[derive(Clone, Copy, Debug, PartialEq, Eq)]
pub enum ProductStrategy {
    /// One left-to-right fold.
    DirectFold,
    /// Midpoint splits with a memoization cache.
    DivideAndConquer,
}

/// The product of all the digits of `d`: zero at once when a digit is zero,
/// otherwise by the chosen strategy.
pub fn product_of_digit_seq(d: &Vec<u8>, strategy: ProductStrategy, cache: &mut ProductCache) -> (r:
    BigNat)
    requires
        all_decimal(d@),
        old(cache).wf(),
    ensures
        final(cache).wf(),
        final(cache).capacity_spec() == old(cache).capacity_spec(),
        r.wf(),
        r@ == digit_product(d@),
{
    if contains_zero(d) {
        proof {
            lemma_product_zero(d@);
        }
        return BigNat::from_u64(0);
    }
    match strategy {
        ProductStrategy::DirectFold => direct_product(d),
        ProductStrategy::DivideAndConquer => memo_product(d, cache),
    }
}

/// Products of digit sequences already computed, keyed by the sequence.
/// Holds at most `capacity` entries: once full, new products are not kept.
pub struct ProductCache {
    keys: Vec<Vec<u8>>,
    products: Vec<BigNat>,
    capacity: usize,
}

impl ProductCache {
    /// Every entry holds the product of its key.
    pub closed spec fn wf(&self) -> bool {
        &&& self.keys@.len() == self.products@.len()
        &&& self.keys@.len() <= self.capacity
        &&& forall|i: int|
            0 <= i < self.products@.len() ==> {
                &&& (#[trigger] self.products@[i]).wf()
                &&& self.products@[i]@ == digit_product(self.keys@[i]@)
            }
    }

    /// The most entries the cache keeps.
    pub closed spec fn capacity_spec(&self) -> nat {
        self.capacity as nat
    }

    /// Number of entries held.
    pub closed spec fn len_spec(&self) -> nat {
        self.keys@.len()
    }

    /// An empty cache that keeps up to `capacity` entries.
    pub fn new(capacity: usize) -> (r: ProductCache)
        ensures
            r.wf(),
            r.capacity_spec() == capacity,
            r.len_spec() == 0,
    {
        ProductCache { keys: Vec::new(), products: Vec::new(), capacity }
    }

    /// A well-formed cache never holds more entries than its capacity.
    pub proof fn lemma_within_capacity(&self)
        requires
            self.wf(),
        ensures
            self.len_spec() <= self.capacity_spec(),
    {
    }

    /// Number of entries held.
    pub fn len(&self) -> (r: usize)
        ensures
            r == self.len_spec(),
    {
        self.keys.len()
    }

    /// The product recorded for `d[lo..hi]`, if there is one.
    fn lookup(&self, d: &Vec<u8>, lo: usize, hi: usize) -> (r: Option<BigNat>)
        requires
            self.wf(),
            lo <= hi <= d@.len(),
        ensures
            r matches Some(p) ==> p.wf() && p@ == digit_product(d@.subrange(lo as int, hi as int)),
    {
        let mut i: usize = 0;
        while i < self.keys.len()
            invariant
                self.wf(),
                0 <= i <= self.keys@.len(),
                lo <= hi <= d@.len(),
            decreases self.keys@.len() - i,
        {
            if same_digits(&self.keys[i], d, lo, hi) {
                return Some(self.products[i].duplicate());
            }
            i = i + 1;
        }
        None
    }

    /// Records the product `p` of `d[lo..hi]`, unless the cache is full.
    fn insert(&mut self, d: &Vec<u8>, lo: usize, hi: usize, p: BigNat)
        requires
            old(self).wf(),
            lo <= hi <= d@.len(),
            p.wf(),
            p@ == digit_product(d@.subrange(lo as int, hi as int)),
        ensures
            final(self).wf(),
            final(self).capacity_spec() == old(self).capacity_spec(),
    {
        if self.keys.len() < self.capacity {
            let key = copy_range(d, lo, hi);
            self.keys.push(key);
            self.products.push(p);
            assert(self.products@[self.products@.len() - 1] == p);
        }
    }
}

/// Whether `key` holds exactly the digits `d[lo..hi]`.
fn same_digits(key: &Vec<u8>, d: &Vec<u8>, lo: usize, hi: usize) -> (r: bool)
    requires
        lo <= hi <= d@.len(),
    ensures
        r == (key@ == d@.subrange(lo as int, hi as int)),
{
    if key.len() != hi - lo {
        return false;
    }
    let mut i: usize = 0;
    while i < key.len()
        invariant
            key@.len() == hi - lo,
            lo <= hi <= d@.len(),
            0 <= i <= key@.len(),
            forall|j: int| 0 <= j < i ==> key@[j] == d@[lo + j],
        decreases key@.len() - i,
    {
        if key[i] != d[lo + i] {
            assert(key@[i as int] != d@.subrange(lo as int, hi as int)[i as int]);
            return false;
        }
        i = i + 1;
    }
    assert(key@ =~= d@.subrange(lo as int, hi as int));
    true
}

/// A fresh copy of the digits `d[lo..hi]`.
fn copy_range(d: &Vec<u8>, lo: usize, hi: usize) -> (r: Vec<u8>)
    requires
        lo <= hi <= d@.len(),
    ensures
        r@ == d@.subrange(lo as int, hi as int),
{
    let mut r: Vec<u8> = Vec::new();
    let mut i: usize = lo;
    while i < hi
        invariant
            lo <= i <= hi <= d@.len(),
            r@ == d@.subrange(lo as int, i as int),
        decreases hi - i,
    {
        r.push(d[i]);
        i = i + 1;
        assert(r@ =~= d@.subrange(lo as int, i as int));
    }
    r
}

/// The product of `d[lo..hi]`: short runs are folded directly; longer ones are
/// looked up in the cache, or else split at the midpoint, with the two halves'
/// products and the whole's product recorded in the cache.
fn split_product(d: &Vec<u8>, lo: usize, hi: usize, cache: &mut ProductCache) -> (r: BigNat)
    requires
        lo <= hi <= d@.len(),
        all_decimal(d@),
        old(cache).wf(),
    ensures
        final(cache).wf(),
        final(cache).capacity_spec() == old(cache).capacity_spec(),
        r.wf(),
        r@ == digit_product(d@.subrange(lo as int, hi as int)),
    decreases hi - lo,
{
    if hi - lo < FOLD_THRESHOLD {
        return fold_product(d, lo, hi);
    }
    match cache.lookup(d, lo, hi) {
        Some(p) => {
            return p;
        },
        None => {},
    }
    let mid = lo + (hi - lo) / 2;
    let left = split_product(d, lo, mid, cache);
    let right = split_product(d, mid, hi, cache);
    let whole = multiply(&left, &right);
    proof {
        assert(d@.subrange(lo as int, hi as int) =~= d@.subrange(lo as int, mid as int) + d@.subrange(
            mid as int,
            hi as int,
        ));
        lemma_product_of_concat(
            d@.subrange(lo as int, mid as int),
            d@.subrange(mid as int, hi as int),
        );
    }
    let kept = whole.duplicate();
    cache.insert(d, lo, mid, left);
    cache.insert(d, mid, hi, right);
    cache.insert(d, lo, hi, kept);
    whole
}

/// The product of all the digits of `d`, by divide and conquer, consulting
/// and filling `cache`.
pub fn memo_product(d: &Vec<u8>, cache: &mut ProductCache) -> (r: BigNat)
    requires
        all_decimal(d@),
        old(cache).wf(),
    ensures
        final(cache).wf(),
        final(cache).capacity_spec() == old(cache).capacity_spec(),
        r.wf(),
        r@ == digit_product(d@),
{
    let r = split_product(d, 0, d.len(), cache);
    assert(d@.subrange(0, d@.len() as int) =~= d@);
    r
}

} // verus!
