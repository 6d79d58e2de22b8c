//! Non-negative fractions `num / den` of big naturals, kept in lowest terms
//! by [`Fraction::new`].  A difference that would be negative is zero.
use vstd::prelude::*;
use crate::bignat::{BigNat, spec_gcd, big_mul, big_gcd, big_div, big_eq, big_le, big_sub, big_from_u128};
use crate::trivial::lemma_gcd_divides;

verus! {

/// `num / den`.
pub struct Fraction {
    pub num: BigNat,
    pub den: BigNat,
}

/// `num / den` divided through by their greatest common divisor, with the
/// zero denominator giving `0 / 1`.
pub open spec fn reduced(num: nat, den: nat) -> (nat, nat) {
    if den == 0 {
        (0, 1)
    } else {
        (num / spec_gcd(num, den), den / spec_gcd(num, den))
    }
}

/// The pair of a fraction.
pub open spec fn parts(f: &Fraction) -> (nat, nat) {
    (f.num@, f.den@)
}

/// The greatest common divisor of anything and a positive number is positive.
pub proof fn lemma_gcd_pos(a: nat, b: nat)
    requires
        b > 0,
    ensures
        spec_gcd(a, b) > 0,
    decreases b,
{
    reveal_with_fuel(spec_gcd, 2);
    if a % b > 0 {
        lemma_gcd_pos(b, a % b);
    }
}

/// Reducing keeps the value and gives a positive denominator:
/// `num' * den == num * den'`.
pub proof fn lemma_reduced_value(num: nat, den: nat)
    requires
        den > 0,
    ensures
        reduced(num, den).1 > 0,
        reduced(num, den).0 * den == num * reduced(num, den).1,
{
    let g = spec_gcd(num, den);
    lemma_gcd_pos(num, den);
    lemma_gcd_divides(num, den);
    vstd::arithmetic::div_mod::lemma_fundamental_div_mod(num as int, g as int);
    vstd::arithmetic::div_mod::lemma_fundamental_div_mod(den as int, g as int);
    let p = num / g;
    let q = den / g;
    assert(num == g * p);
    assert(den == g * q);
    assert(q > 0) by (nonlinear_arith)
        requires den == g * q, den > 0, g > 0, q >= 0;
    assert(p * den == num * q) by (nonlinear_arith)
        requires num == g * p, den == g * q;
}

/// `|n|`.
fn abs_i64(n: i64) -> (r: u64)
    ensures
        r as int == (if n < 0 { -n } else { n as int }),
{
    if n >= 0 {
        n as u64
    } else if n == i64::MIN {
        0x8000_0000_0000_0000u64
    } else {
        (-n) as u64
    }
}

impl Fraction {
    /// `0 / 1`.
    pub fn zero() -> (r: Fraction)
        ensures
            parts(&r) == (0nat, 1nat),
    {
        Fraction { num: BigNat::zero(), den: big_from_u128(1) }
    }

    /// `n / 1`.
    pub fn from_biguint(n: BigNat) -> (r: Fraction)
        ensures
            parts(&r) == (n@, 1nat),
    {
        Fraction { num: n, den: big_from_u128(1) }
    }

    /// `n / 1`.
    pub fn from_u64(n: u64) -> (r: Fraction)
        ensures
            parts(&r) == (n as nat, 1nat),
    {
        Fraction { num: big_from_u128(n as u128), den: big_from_u128(1) }
    }

    /// `|n| / 1`.
    pub fn from_i64(n: i64) -> (r: Fraction)
        ensures
            parts(&r) == ((if n < 0 { -n } else { n as int }) as nat, 1nat),
    {
        let a = abs_i64(n);
        Fraction { num: big_from_u128(a as u128), den: big_from_u128(1) }
    }

    /// `num / den` in lowest terms; `0 / 1` for a zero denominator.
    pub fn new(num: BigNat, den: BigNat) -> (r: Fraction)
        ensures
            parts(&r) == reduced(num@, den@),
    {
        let zero = BigNat::zero();
        if big_eq(&den, &zero) {
            return Fraction { num: zero, den: big_from_u128(1) };
        }
        let g = big_gcd(&num, &den);
        proof {
            lemma_gcd_pos(num@, den@);
        }
        Fraction { num: big_div(&num, &g), den: big_div(&den, &g) }
    }

    /// Whether the numerator is zero.
    pub fn is_zero(&self) -> (r: bool)
        ensures
            r == (self.num@ == 0),
    {
        big_eq(&self.num, &BigNat::zero())
    }

    /// `a * b`, reduced.
    pub fn mul(a: &Fraction, b: &Fraction) -> (r: Fraction)
        ensures
            parts(&r) == reduced(a.num@ * b.num@, a.den@ * b.den@),
    {
        Fraction::new(big_mul(&a.num, &b.num), big_mul(&a.den, &b.den))
    }

    /// `a / b`, reduced (`0 / 1` when `b` or `a`'s denominator is zero).
    pub fn div(a: &Fraction, b: &Fraction) -> (r: Fraction)
        ensures
            parts(&r) == reduced(a.num@ * b.den@, a.den@ * b.num@),
    {
        Fraction::new(big_mul(&a.num, &b.den), big_mul(&a.den, &b.num))
    }

    /// `a - b`, reduced, or `0 / 1` when it would be negative.
    pub fn sub(a: &Fraction, b: &Fraction) -> (r: Fraction)
        ensures
            parts(&r) == (if a.num@ * b.den@ >= b.num@ * a.den@ {
                reduced((a.num@ * b.den@ - b.num@ * a.den@) as nat, a.den@ * b.den@)
            } else {
                (0nat, 1nat)
            }),
    {
        let num1 = big_mul(&a.num, &b.den);
        let num2 = big_mul(&b.num, &a.den);
        let den = big_mul(&a.den, &b.den);
        if big_le(&num2, &num1) {
            Fraction::new(big_sub(&num1, &num2), den)
        } else {
            Fraction::zero()
        }
    }

    /// `a >= b`, compared crosswise.
    pub fn ge(a: &Fraction, b: &Fraction) -> (r: bool)
        ensures
            r == (a.num@ * b.den@ >= b.num@ * a.den@),
    {
        let lhs = big_mul(&a.num, &b.den);
        let rhs = big_mul(&b.num, &a.den);
        big_le(&rhs, &lhs)
    }

    /// `a * |scalar|`, reduced.
    pub fn mul_scalar(a: &Fraction, scalar: i64) -> (r: Fraction)
        ensures
            parts(&r) == reduced(a.num@ * ((if scalar < 0 { -scalar } else { scalar as int }) as nat), a.den@),
    {
        let s = big_from_u128(abs_i64(scalar) as u128);
        Fraction::new(big_mul(&a.num, &s), a.den.copy())
    }
}

} // verus!
