//! Arbitrary-precision naturals held as base-2^32 digits.
//!
//! The arithmetic itself is done by `num_bigint::BigUint`; each operation
//! below converts the digits to a `BigUint`, makes one call, and converts the
//! result back.  The value of a digit vector is [`digits_value`].
use vstd::prelude::*;
use num_bigint::BigUint;
use num_integer::Integer;
use num_traits::ToPrimitive;

verus! {

/// Value of little-endian base-2^32 digits.
pub open spec fn digits_value(d: Seq<u32>) -> nat
    decreases d.len(),
{
    if d.len() == 0 {
        0
    } else {
        d[0] as nat + 0x1_0000_0000 * digits_value(d.drop_first())
    }
}

/// Greatest common divisor (Euclid); `gcd(a, 0) == a`.
pub open spec fn spec_gcd(a: nat, b: nat) -> nat
    decreases b,
{
    if b == 0 {
        a
    } else {
        spec_gcd(b, a % b)
    }
}

/// Number of bits needed to write `n` (0 for 0).
pub open spec fn bit_len(n: nat) -> nat
    decreases n,
{
    if n == 0 {
        0
    } else {
        1 + bit_len(n / 2)
    }
}

/// A number is below 2 to the power of its bit length.
pub proof fn lemma_bit_len_pow2(n: nat)
    ensures
        n < vstd::arithmetic::power2::pow2(bit_len(n)),
    decreases n,
{
    if n == 0 {
        vstd::arithmetic::power2::lemma2_to64();
    } else {
        lemma_bit_len_pow2(n / 2);
        vstd::arithmetic::power2::lemma_pow2_unfold(bit_len(n));
    }
}

/// A number of at most `k <= 24` bits is below `2^24`.
pub proof fn lemma_bit_len_bound(n: nat, k: nat)
    requires
        bit_len(n) == k,
    ensures
        k <= 24 ==> n < 0x100_0000,
{
    if k <= 24 {
        lemma_bit_len_pow2(n);
        vstd::arithmetic::power2::lemma2_to64();
        if k < 24 {
            vstd::arithmetic::power2::lemma_pow2_strictly_increases(k, 24);
        }
    }
}

/// `c` is one of `'0'` to `'9'`.
pub open spec fn dec_digit(c: char) -> bool {
    '0' <= c && c <= '9'
}

/// A single leading `'+'` is dropped (two are kept, and then refused).
pub open spec fn strip_plus(t: Seq<char>) -> Seq<char> {
    if t.len() >= 1 && t[0] == '+' && !(t.len() >= 2 && t[1] == '+') {
        t.drop_first()
    } else {
        t
    }
}

/// The decimal value of digits, `'_'` being skipped.
pub open spec fn dec_value(t: Seq<char>) -> nat
    decreases t.len(),
{
    if t.len() == 0 {
        0
    } else if t.last() == '_' {
        dec_value(t.drop_last())
    } else {
        dec_value(t.drop_last()) * 10 + ((t.last() as int - '0' as int) as nat)
    }
}

/// A decimal token as `BigUint` reads it: an optional `'+'`, then digits
/// and `'_'` separators, not starting with `'_'` and not empty.
pub open spec fn parse_dec(t: Seq<char>) -> Option<nat> {
    let s = strip_plus(t);
    if s.len() == 0 || s[0] == '_' || exists|i: int| 0 <= i < s.len() && !(dec_digit(#[trigger] s[i]) || s[i] == '_') {
        None
    } else {
        Some(dec_value(s))
    }
}

/// A natural number of any size.
pub struct BigNat {
    digits: Vec<u32>,
}

impl View for BigNat {
    type V = nat;

    closed spec fn view(&self) -> nat {
        digits_value(self.digits@)
    }
}

/// The values of a sequence of big naturals.
pub open spec fn vals(s: Seq<BigNat>) -> Seq<nat> {
    s.map_values(|b: BigNat| b@)
}

impl BigNat {
    /// Zero.
    pub fn zero() -> (r: BigNat)
        ensures
            r@ == 0,
    {
        BigNat { digits: Vec::new() }
    }

    /// Builds a number from little-endian base-2^32 digits.
    pub fn from_digits(digits: Vec<u32>) -> (r: BigNat)
        ensures
            r@ == digits_value(digits@),
    {
        BigNat { digits }
    }

    /// The little-endian base-2^32 digits.
    pub fn digits(&self) -> (r: &Vec<u32>)
        ensures
            digits_value(r@) == self@,
    {
        &self.digits
    }

    /// A copy with the same value.
    pub fn copy(&self) -> (r: BigNat)
        ensures
            r@ == self@,
    {
        let d = self.digits.clone();
        assert(d@ =~= self.digits@);
        BigNat { digits: d }
    }
}

/// `a + b`, by `BigUint`'s `Add`.
#[verifier::external_body]
pub(crate) fn big_add(a: &BigNat, b: &BigNat) -> (r: BigNat)
    ensures
        r@ == a@ + b@,
{
    let x = BigUint::new(a.digits.clone()) + BigUint::new(b.digits.clone());
    BigNat { digits: x.to_u32_digits() }
}

/// `a * b`, by `BigUint`'s `Mul`.
#[verifier::external_body]
pub(crate) fn big_mul(a: &BigNat, b: &BigNat) -> (r: BigNat)
    ensures
        r@ == a@ * b@,
{
    let x = BigUint::new(a.digits.clone()) * BigUint::new(b.digits.clone());
    BigNat { digits: x.to_u32_digits() }
}

/// `a * 2^k`, by `BigUint`'s `Shl<u32>`.
#[verifier::external_body]
pub(crate) fn big_shl(a: &BigNat, k: u32) -> (r: BigNat)
    ensures
        r@ == a@ * vstd::arithmetic::power2::pow2(k as nat),
{
    let x = BigUint::new(a.digits.clone()) << k;
    BigNat { digits: x.to_u32_digits() }
}

/// A decimal token, by `BigUint::parse_bytes` with radix 10 (which reads
/// the bytes as UTF-8 and then as `from_str_radix` does: one optional
/// leading `+`, digits with `_` separators after the first digit).
#[verifier::external_body]
pub(crate) fn big_parse_dec(t: &Vec<char>) -> (r: Option<BigNat>)
    ensures
        r is Some <==> parse_dec(t@) is Some,
        r matches Some(b) ==> parse_dec(t@) == Some(b@),
{
    let s: String = t.iter().collect();
    match BigUint::parse_bytes(s.as_bytes(), 10) {
        Some(x) => Some(BigNat { digits: x.to_u32_digits() }),
        None => None,
    }
}

/// `a - b` for `b <= a`, by `BigUint`'s `Sub` (which panics below zero).
#[verifier::external_body]
pub(crate) fn big_sub(a: &BigNat, b: &BigNat) -> (r: BigNat)
    requires
        b@ <= a@,
    ensures
        r@ == a@ - b@,
{
    let x = BigUint::new(a.digits.clone()) - BigUint::new(b.digits.clone());
    BigNat { digits: x.to_u32_digits() }
}

/// `a <= b`, by `BigUint`'s `PartialOrd`.
#[verifier::external_body]
pub(crate) fn big_le(a: &BigNat, b: &BigNat) -> (r: bool)
    ensures
        r == (a@ <= b@),
{
    BigUint::new(a.digits.clone()) <= BigUint::new(b.digits.clone())
}

/// `a == b`, by `BigUint`'s `PartialEq`.
#[verifier::external_body]
pub(crate) fn big_eq(a: &BigNat, b: &BigNat) -> (r: bool)
    ensures
        r == (a@ == b@),
{
    BigUint::new(a.digits.clone()) == BigUint::new(b.digits.clone())
}

/// The value of a `u128`, by `BigUint::from`.
#[verifier::external_body]
pub(crate) fn big_from_u128(x: u128) -> (r: BigNat)
    ensures
        r@ == x as nat,
{
    BigNat { digits: BigUint::from(x).to_u32_digits() }
}

/// The value as a `u128` when it fits, by `ToPrimitive::to_u128`.
#[verifier::external_body]
pub(crate) fn big_to_u128(a: &BigNat) -> (r: Option<u128>)
    ensures
        r is Some <==> a@ <= u128::MAX,
        r matches Some(v) ==> v as nat == a@,
{
    BigUint::new(a.digits.clone()).to_u128()
}

/// Greatest common divisor, by `num_integer::Integer::gcd`.
#[verifier::external_body]
pub(crate) fn big_gcd(a: &BigNat, b: &BigNat) -> (r: BigNat)
    ensures
        r@ == spec_gcd(a@, b@),
{
    let x = BigUint::new(a.digits.clone()).gcd(&BigUint::new(b.digits.clone()));
    BigNat { digits: x.to_u32_digits() }
}

/// `a % b` for `b > 0`, by `BigUint`'s `Rem` (which panics on zero).
#[verifier::external_body]
pub(crate) fn big_rem(a: &BigNat, b: &BigNat) -> (r: BigNat)
    requires
        b@ > 0,
    ensures
        r@ == a@ % b@,
{
    let x = BigUint::new(a.digits.clone()) % BigUint::new(b.digits.clone());
    BigNat { digits: x.to_u32_digits() }
}

/// `a / b` (rounded down) for `b > 0`, by `BigUint`'s `Div`.
#[verifier::external_body]
pub(crate) fn big_div(a: &BigNat, b: &BigNat) -> (r: BigNat)
    requires
        b@ > 0,
    ensures
        r@ == a@ / b@,
{
    let x = BigUint::new(a.digits.clone()) / BigUint::new(b.digits.clone());
    BigNat { digits: x.to_u32_digits() }
}

/// The lowest 64-bit digit (`a mod 2^64`), by `BigUint::to_u64_digits`,
/// whose first digit is the least significant one (0 when there is none).
#[verifier::external_body]
pub(crate) fn big_low_u64(a: &BigNat) -> (r: u64)
    ensures
        r as nat == a@ % 0x1_0000_0000_0000_0000,
{
    BigUint::new(a.digits.clone()).to_u64_digits().first().copied().unwrap_or(0)
}

/// Number of significant bits, by `BigUint::bits`.
#[verifier::external_body]
pub(crate) fn big_bits(a: &BigNat) -> (r: u64)
    ensures
        r as nat == bit_len(a@),
{
    BigUint::new(a.digits.clone()).bits()
}

} // verus!
