//! Integers of any size, as the signature scheme uses them: the values live
//! in `BigNum` (a sign and base-2^32 digits), and the arithmetic is done by
//! `num_bigint::BigInt`, behind the trusted functions of this module.
use vstd::prelude::*;
use vstd::arithmetic::power::pow;

use num_bigint::{BigInt, RandBigInt, Sign};
use rand::rngs::ThreadRng;

verus! {

/// An integer: its sign and its magnitude in base-2^32 digits, least
/// significant digit first.
pub struct BigNum {
    pub negative: bool,
    pub digits: Vec<u32>,
}

/// The number that base-2^32 digits stand for, least significant first.
pub open spec fn digits_value(d: Seq<u32>) -> nat
    decreases d.len(),
{
    if d.len() == 0 {
        0
    } else {
        d[0] as nat + 0x1_0000_0000 * digits_value(d.drop_first())
    }
}

/// Absolute value.
pub open spec fn abs(a: int) -> int {
    if a < 0 {
        -a
    } else {
        a
    }
}

/// Division rounded toward zero, as `/` on integers in Rust.
pub open spec fn trunc_div(a: int, b: int) -> int {
    let q = abs(a) / abs(b);
    if (a >= 0) == (b > 0) {
        q
    } else {
        -q
    }
}

/// The remainder of `trunc_div`: it has the sign of `a`, as `%` in Rust.
pub open spec fn trunc_rem(a: int, b: int) -> int {
    a - b * trunc_div(a, b)
}

/// `s` is a non-empty string of the ASCII digits `0` to `9`.
pub open spec fn is_decimal(s: Seq<char>) -> bool {
    s.len() > 0 && forall|i: int| 0 <= i < s.len() ==> '0' <= #[trigger] s[i] <= '9'
}

/// The number that a string of decimal digits stands for.
pub open spec fn decimal_value(s: Seq<char>) -> int
    decreases s.len(),
{
    if s.len() == 0 {
        0
    } else {
        decimal_value(s.drop_last()) * 10 + (s.last() as int - '0' as int)
    }
}

impl BigNum {
    /// The integer that this value stands for.
    pub open spec fn value(&self) -> int {
        if self.negative {
            -(digits_value(self.digits@) as int)
        } else {
            digits_value(self.digits@) as int
        }
    }

    /// A small non-negative integer.
    pub fn from_u32(v: u32) -> (r: BigNum)
        ensures
            r.value() == v,
    {
        let r = BigNum { negative: false, digits: vec![v] };
        proof {
            reveal_with_fuel(digits_value, 2);
        }
        r
    }

    /// A small negative integer.
    pub fn negative_u32(v: u32) -> (r: BigNum)
        ensures
            r.value() == -(v as int),
    {
        let r = BigNum { negative: true, digits: vec![v] };
        proof {
            reveal_with_fuel(digits_value, 2);
        }
        r
    }
}

/// `+` of `num_bigint::BigInt`: the exact sum.
#[verifier::external_body]
pub(crate) fn big_add(a: &BigNum, b: &BigNum) -> (r: BigNum)
    ensures
        r.value() == a.value() + b.value(),
{
    let x = BigInt::new(if a.negative { Sign::Minus } else { Sign::Plus }, a.digits.clone());
    let y = BigInt::new(if b.negative { Sign::Minus } else { Sign::Plus }, b.digits.clone());
    let (sign, digits) = (x + y).to_u32_digits();
    BigNum { negative: sign == Sign::Minus, digits }
}

/// `-` of `num_bigint::BigInt`: the exact difference.
#[verifier::external_body]
pub(crate) fn big_sub(a: &BigNum, b: &BigNum) -> (r: BigNum)
    ensures
        r.value() == a.value() - b.value(),
{
    let x = BigInt::new(if a.negative { Sign::Minus } else { Sign::Plus }, a.digits.clone());
    let y = BigInt::new(if b.negative { Sign::Minus } else { Sign::Plus }, b.digits.clone());
    let (sign, digits) = (x - y).to_u32_digits();
    BigNum { negative: sign == Sign::Minus, digits }
}

/// `*` of `num_bigint::BigInt`: the exact product.
#[verifier::external_body]
pub(crate) fn big_mul(a: &BigNum, b: &BigNum) -> (r: BigNum)
    ensures
        r.value() == a.value() * b.value(),
{
    let x = BigInt::new(if a.negative { Sign::Minus } else { Sign::Plus }, a.digits.clone());
    let y = BigInt::new(if b.negative { Sign::Minus } else { Sign::Plus }, b.digits.clone());
    let (sign, digits) = (x * y).to_u32_digits();
    BigNum { negative: sign == Sign::Minus, digits }
}

/// `/` of `num_bigint::BigInt`: division rounded toward zero; it panics on a
/// zero divisor, which `requires` leaves out.
#[verifier::external_body]
pub(crate) fn big_div(a: &BigNum, b: &BigNum) -> (r: BigNum)
    requires
        b.value() != 0,
    ensures
        r.value() == trunc_div(a.value(), b.value()),
{
    let x = BigInt::new(if a.negative { Sign::Minus } else { Sign::Plus }, a.digits.clone());
    let y = BigInt::new(if b.negative { Sign::Minus } else { Sign::Plus }, b.digits.clone());
    let (sign, digits) = (x / y).to_u32_digits();
    BigNum { negative: sign == Sign::Minus, digits }
}

/// `%` of `num_bigint::BigInt`: the remainder of division rounded toward
/// zero, with the sign of the dividend; it panics on a zero divisor, which
/// `requires` leaves out.
#[verifier::external_body]
pub(crate) fn big_rem(a: &BigNum, b: &BigNum) -> (r: BigNum)
    requires
        b.value() != 0,
    ensures
        r.value() == trunc_rem(a.value(), b.value()),
{
    let x = BigInt::new(if a.negative { Sign::Minus } else { Sign::Plus }, a.digits.clone());
    let y = BigInt::new(if b.negative { Sign::Minus } else { Sign::Plus }, b.digits.clone());
    let (sign, digits) = (x % y).to_u32_digits();
    BigNum { negative: sign == Sign::Minus, digits }
}

/// `BigInt::modpow`: `b` to the power `e`, reduced modulo `m` into `[0, m)`.
/// It panics on a negative exponent or a zero modulus; `requires` leaves out
/// those and, since nothing here uses one, a negative modulus.
#[verifier::external_body]
pub(crate) fn big_modpow(b: &BigNum, e: &BigNum, m: &BigNum) -> (r: BigNum)
    requires
        e.value() >= 0,
        m.value() > 0,
    ensures
        r.value() == pow(b.value(), e.value() as nat) % m.value(),
{
    let x = BigInt::new(if b.negative { Sign::Minus } else { Sign::Plus }, b.digits.clone());
    let y = BigInt::new(if e.negative { Sign::Minus } else { Sign::Plus }, e.digits.clone());
    let z = BigInt::new(if m.negative { Sign::Minus } else { Sign::Plus }, m.digits.clone());
    let (sign, digits) = x.modpow(&y, &z).to_u32_digits();
    BigNum { negative: sign == Sign::Minus, digits }
}

/// `>` of `num_bigint::BigInt`: the order of the integers.
#[verifier::external_body]
pub(crate) fn big_gt(a: &BigNum, b: &BigNum) -> (r: bool)
    ensures
        r == (a.value() > b.value()),
{
    let x = BigInt::new(if a.negative { Sign::Minus } else { Sign::Plus }, a.digits.clone());
    let y = BigInt::new(if b.negative { Sign::Minus } else { Sign::Plus }, b.digits.clone());
    x > y
}

/// `==` of `num_bigint::BigInt`: equality of the integers.
#[verifier::external_body]
pub(crate) fn big_eq(a: &BigNum, b: &BigNum) -> (r: bool)
    ensures
        r == (a.value() == b.value()),
{
    let x = BigInt::new(if a.negative { Sign::Minus } else { Sign::Plus }, a.digits.clone());
    let y = BigInt::new(if b.negative { Sign::Minus } else { Sign::Plus }, b.digits.clone());
    x == y
}

/// `BigInt::parse_bytes` in radix 10 on the bytes of `s`: a non-empty string
/// of decimal digits parses to the number it writes. What it returns for
/// other strings (a sign, underscores, other characters) is not stated.
#[verifier::external_body]
pub(crate) fn parse_decimal(s: &str) -> (r: Option<BigNum>)
    ensures
        is_decimal(s@) ==> r.is_some() && r.unwrap().value() == decimal_value(s@),
{
    match BigInt::parse_bytes(s.as_bytes(), 10) {
        Some(v) => {
            let (sign, digits) = v.to_u32_digits();
            Some(BigNum { negative: sign == Sign::Minus, digits })
        },
        None => None,
    }
}

/// The random number generator of `rand`.
#[verifier::external_type_specification]
#[verifier::external_body]
pub struct ExThreadRng(ThreadRng);

/// `rand::thread_rng`: a handle on this thread's random number generator.
#[verifier::external_body]
pub(crate) fn new_rng() -> (rng: ThreadRng) {
    rand::thread_rng()
}

/// `RandBigInt::gen_bigint_range`: a random integer in `[low, high)`; it
/// panics when `high <= low`, which `requires` leaves out. Which integer of
/// the range comes out is left to chance.
#[verifier::external_body]
pub(crate) fn gen_range(rng: &mut ThreadRng, low: &BigNum, high: &BigNum) -> (r: BigNum)
    requires
        low.value() < high.value(),
    ensures
        low.value() <= r.value() < high.value(),
{
    let x = BigInt::new(if low.negative { Sign::Minus } else { Sign::Plus }, low.digits.clone());
    let y = BigInt::new(if high.negative { Sign::Minus } else { Sign::Plus }, high.digits.clone());
    let (sign, digits) = rng.gen_bigint_range(&x, &y).to_u32_digits();
    BigNum { negative: sign == Sign::Minus, digits }
}

} // verus!
