//! Natural numbers of unbounded size, held as canonical little-endian
//! sequences of decimal digits, and the arithmetic that searches need.

use num::bigint::BigUint;
use vstd::prelude::*;

verus! {

/// Value of a little-endian sequence of decimal digits.
pub open spec fn value_of(d: Seq<u8>) -> nat
    decreases d.len(),
{
    if d.len() == 0 {
        0
    } else {
        d[0] as nat + 10 * value_of(d.skip(1))
    }
}

/// Every entry is a decimal digit.
pub open spec fn all_decimal(d: Seq<u8>) -> bool {
    forall|i: int| 0 <= i < d.len() ==> #[trigger] d[i] < 10
}

/// The canonical form: at least one digit, and no most significant zero
/// except in the representation `[0]` of zero itself.
pub open spec fn is_canonical(d: Seq<u8>) -> bool {
    &&& d.len() >= 1
    &&& all_decimal(d)
    &&& (d.len() == 1 || d[d.len() - 1] != 0)
}

/// A natural number of any size.
pub struct BigNat {
    digits: Vec<u8>,
}

impl View for BigNat {
    type V = nat;

    closed spec fn view(&self) -> nat {
        value_of(self.digits@)
    }
}

impl BigNat {
    /// The decimal digits, least significant first.
    pub closed spec fn digit_seq(&self) -> Seq<u8> {
        self.digits@
    }

    pub open spec fn wf(&self) -> bool {
        is_canonical(self.digit_seq())
    }

    pub proof fn lemma_view_is_value(&self)
        ensures
            self@ == value_of(self.digit_seq()),
    {
    }

    /// Builds a number from digits already known to be canonical.
    pub fn from_canonical(digits: Vec<u8>) -> (r: BigNat)
        requires
            is_canonical(digits@),
        ensures
            r.wf(),
            r.digit_seq() == digits@,
    {
        BigNat { digits }
    }

    /// Builds a number from little-endian decimal digits; `None` unless the
    /// digits are in canonical form.
    pub fn from_digits_le(digits: Vec<u8>) -> (r: Option<BigNat>)
        ensures
            r.is_some() == is_canonical(digits@),
            r matches Some(n) ==> n.wf() && n.digit_seq() == digits@,
    {
        let n = digits.len();
        if n == 0 {
            return None;
        }
        if n > 1 && digits[n - 1] == 0 {
            return None;
        }
        let mut i: usize = 0;
        while i < n
            invariant
                n == digits@.len(),
                0 <= i <= n,
                forall|j: int| 0 <= j < i ==> #[trigger] digits@[j] < 10,
            decreases n - i,
        {
            if digits[i] >= 10 {
                return None;
            }
            i = i + 1;
        }
        Some(BigNat { digits })
    }

    /// The number `n`.
    pub fn from_u64(n: u64) -> (r: BigNat)
        ensures
            r.wf(),
            r@ == n as nat,
    {
        let mut digits: Vec<u8> = Vec::new();
        let mut rest: u64 = n;
        digits.push((rest % 10) as u8);
        rest = rest / 10;
        proof {
            let s0 = digits@;
            assert(s0.skip(1) =~= seq![]);
            assert(value_of(seq![]) == 0);
            assert(value_of(s0) == n % 10);
            assert(pow10(1) == 10) by {
                assert(pow10(0) == 1);
            }
        }
        while rest > 0
            invariant
                all_decimal(digits@),
                digits@.len() >= 1,
                rest == 0 ==> digits@.len() == 1 || digits@[digits@.len() - 1] != 0,
                n as nat == value_of(digits@) + pow10(digits@.len()) * rest,
            decreases rest,
        {
            let d = (rest % 10) as u8;
            proof {
                lemma_value_push(digits@, d);
                assert(pow10(digits@.len() + 1) == 10 * pow10(digits@.len()));
                assert(rest == rest % 10 + 10 * (rest / 10));
                assert(pow10(digits@.len()) * rest == pow10(digits@.len()) * (rest % 10) + pow10(
                    digits@.len() + 1,
                ) * (rest / 10)) by (nonlinear_arith)
                    requires
                        pow10(digits@.len() + 1) == 10 * pow10(digits@.len()),
                        rest == rest % 10 + 10 * (rest / 10),
                ;
            }
            digits.push(d);
            rest = rest / 10;
        }
        BigNat { digits }
    }

    /// The decimal digits, least significant first.
    pub fn to_digits_le(&self) -> (r: Vec<u8>)
        ensures
            r@ == self.digit_seq(),
    {
        let mut r: Vec<u8> = Vec::new();
        let mut i: usize = 0;
        while i < self.digits.len()
            invariant
                0 <= i <= self.digits@.len(),
                r@ == self.digits@.subrange(0, i as int),
            decreases self.digits@.len() - i,
        {
            r.push(self.digits[i]);
            i = i + 1;
        }
        assert(r@ =~= self.digits@);
        r
    }

    /// Read access to the digits, least significant first.
    pub fn digits(&self) -> (r: &Vec<u8>)
        ensures
            r@ == self.digit_seq(),
    {
        &self.digits
    }

    /// Number of decimal digits.
    pub fn digit_count(&self) -> (r: usize)
        ensures
            r == self.digit_seq().len(),
    {
        self.digits.len()
    }

    /// An equal number held separately.
    pub fn duplicate(&self) -> (r: BigNat)
        ensures
            r.digit_seq() == self.digit_seq(),
            r@ == self@,
    {
        BigNat { digits: self.to_digits_le() }
    }
}

/// `10` to the power `k`.
pub open spec fn pow10(k: nat) -> nat
    decreases k,
{
    if k == 0 {
        1
    } else {
        10 * pow10((k - 1) as nat)
    }
}

/// Appending a most significant digit adds it at its place value.
pub proof fn lemma_value_push(d: Seq<u8>, x: u8)
    ensures
        value_of(d.push(x)) == value_of(d) + pow10(d.len()) * x,
    decreases d.len(),
{
    if d.len() == 0 {
        assert(d.push(x).skip(1) =~= seq![]);
        assert(value_of(seq![]) == 0);
        assert(pow10(0) == 1);
        assert(value_of(d.push(x)) == x as nat + 10 * value_of(d.push(x).skip(1)));
        assert(value_of(d) == 0);
    } else {
        let t = d.skip(1);
        assert(d.push(x).skip(1) =~= t.push(x));
        assert(d.push(x)[0] == d[0]);
        lemma_value_push(t, x);
        assert(pow10(d.len()) == 10 * pow10(t.len()));
        let a = value_of(t);
        let b = pow10(t.len());
        assert(10 * (a + b * x) == 10 * a + (10 * b) * x) by (nonlinear_arith);
    }
}

/// How a canonical sequence splits into its least significant digit and the rest.
pub proof fn lemma_canonical_split(d: Seq<u8>)
    requires
        is_canonical(d),
    ensures
        d.len() == 1 ==> value_of(d) == d[0] && value_of(d) < 10,
        d.len() >= 2 ==> {
            &&& is_canonical(d.skip(1))
            &&& value_of(d.skip(1)) >= 1
            &&& value_of(d) >= 10
            &&& value_of(d) % 10 == d[0] as nat
            &&& value_of(d) / 10 == value_of(d.skip(1))
        },
{
    assert(d[0] < 10);
    if d.len() == 1 {
        assert(d.skip(1) =~= seq![]);
        assert(value_of(seq![]) == 0);
    } else {
        let t = d.skip(1);
        assert(t[t.len() - 1] == d[d.len() - 1]);
        lemma_canonical_positive(t);
        let v = value_of(t);
        assert((d[0] as nat + 10 * v) % 10 == d[0] as nat) by (nonlinear_arith)
            requires
                d[0] < 10,
        ;
        assert((d[0] as nat + 10 * v) / 10 == v) by (nonlinear_arith)
            requires
                d[0] < 10,
        ;
    }
}

/// A canonical sequence of two or more digits, or `[x]` with `x > 0`, is positive.
pub proof fn lemma_canonical_positive(d: Seq<u8>)
    requires
        all_decimal(d),
        d.len() >= 1,
        d[d.len() - 1] != 0,
    ensures
        value_of(d) >= 1,
    decreases d.len(),
{
    if d.len() > 1 {
        let t = d.skip(1);
        assert(t[t.len() - 1] == d[d.len() - 1]);
        lemma_canonical_positive(t);
    }
}

/// Relies on num's `BigUint * BigUint`: the product of the two values.
/// `from_radix_le` and `to_radix_le` convert to and from canonical
/// little-endian decimal digits.
#[verifier::external_body]
pub(crate) fn multiply(a: &BigNat, b: &BigNat) -> (r: BigNat)
    requires
        a.wf(),
        b.wf(),
    ensures
        r.wf(),
        r@ == a@ * b@,
{
    let x = BigUint::from_radix_le(&a.digits, 10).unwrap();
    let y = BigUint::from_radix_le(&b.digits, 10).unwrap();
    BigNat { digits: (x * y).to_radix_le(10) }
}

/// Relies on num's `BigUint * u32`: the product of the value and `k`.
/// `from_radix_le` and `to_radix_le` convert as for `multiply`.
#[verifier::external_body]
pub(crate) fn multiply_small(a: &BigNat, k: u32) -> (r: BigNat)
    requires
        a.wf(),
    ensures
        r.wf(),
        r@ == a@ * k,
{
    let x = BigUint::from_radix_le(&a.digits, 10).unwrap();
    BigNat { digits: (x * k).to_radix_le(10) }
}

/// Relies on num's `BigUint + u32`: the sum of the value and `k`.
/// `from_radix_le` and `to_radix_le` convert as for `multiply`.
#[verifier::external_body]
pub(crate) fn add_small(a: &BigNat, k: u32) -> (r: BigNat)
    requires
        a.wf(),
    ensures
        r.wf(),
        r@ == a@ + k,
{
    let x = BigUint::from_radix_le(&a.digits, 10).unwrap();
    BigNat { digits: (x + k).to_radix_le(10) }
}

/// Relies on num's `Ord` for `BigUint`: whether the first value is smaller.
/// `from_radix_le` converts as for `multiply`.
#[verifier::external_body]
pub(crate) fn less_than(a: &BigNat, b: &BigNat) -> (r: bool)
    requires
        a.wf(),
        b.wf(),
    ensures
        r == (a@ < b@),
{
    let x = BigUint::from_radix_le(&a.digits, 10).unwrap();
    let y = BigUint::from_radix_le(&b.digits, 10).unwrap();
    x < y
}

} // verus!
