//! Decimal values and their arithmetic.
//!
//! A decimal value is carried as the 64 bits of an IEEE-754 double-precision
//! number. Every operation on such values goes through `rustc_apfloat`, a
//! software implementation of IEEE-754 arithmetic that works directly on bit
//! patterns, so no machine floating point appears in this crate. Each
//! operation below is deterministic: its result depends on the argument bits
//! (or text) alone, so it is given a name that the callers' contracts use.

use rustc_apfloat::Float;
use vstd::prelude::*;

verus! {

/// The bits of the IEEE-754 double sum of the two doubles given by bits.
pub uninterp spec fn spec_dec_add(a: u64, b: u64) -> u64;

/// The bits of the IEEE-754 double difference of the two doubles given by bits.
pub uninterp spec fn spec_dec_sub(a: u64, b: u64) -> u64;

/// The bits of the IEEE-754 double product of the two doubles given by bits.
pub uninterp spec fn spec_dec_mul(a: u64, b: u64) -> u64;

/// The bits of the IEEE-754 double quotient of the two doubles given by bits.
pub uninterp spec fn spec_dec_div(a: u64, b: u64) -> u64;

/// The bits of the IEEE-754 double remainder (C `fmod`) of the two doubles given by bits.
pub uninterp spec fn spec_dec_rem(a: u64, b: u64) -> u64;

/// The bits of the IEEE-754 double nearest to the given integer.
pub uninterp spec fn spec_dec_of_int(i: i64) -> u64;

/// The bits of the IEEE-754 double nearest to the decimal number written in `s`.
pub uninterp spec fn spec_dec_of_text(s: Seq<char>) -> u64;

/// The decimal rendering of the double given by bits.
pub uninterp spec fn spec_dec_text(b: u64) -> Seq<char>;

/// Relies on `rustc_apfloat::ieee::Double`'s `Add` impl: IEEE-754 addition
/// (round to nearest, ties to even) on the values given by bits.
#[verifier::external_body]
pub(crate) fn dec_add(a: u64, b: u64) -> (r: u64)
    ensures
        r == spec_dec_add(a, b),
{
    let x = rustc_apfloat::ieee::Double::from_bits(a as u128);
    let y = rustc_apfloat::ieee::Double::from_bits(b as u128);
    (x + y).value.to_bits() as u64
}

/// Relies on `rustc_apfloat::ieee::Double`'s `Sub` impl: IEEE-754 subtraction
/// (round to nearest, ties to even) on the values given by bits.
#[verifier::external_body]
pub(crate) fn dec_sub(a: u64, b: u64) -> (r: u64)
    ensures
        r == spec_dec_sub(a, b),
{
    let x = rustc_apfloat::ieee::Double::from_bits(a as u128);
    let y = rustc_apfloat::ieee::Double::from_bits(b as u128);
    (x - y).value.to_bits() as u64
}

/// Relies on `rustc_apfloat::ieee::Double`'s `Mul` impl: IEEE-754 multiplication
/// (round to nearest, ties to even) on the values given by bits.
#[verifier::external_body]
pub(crate) fn dec_mul(a: u64, b: u64) -> (r: u64)
    ensures
        r == spec_dec_mul(a, b),
{
    let x = rustc_apfloat::ieee::Double::from_bits(a as u128);
    let y = rustc_apfloat::ieee::Double::from_bits(b as u128);
    (x * y).value.to_bits() as u64
}

/// Relies on `rustc_apfloat::ieee::Double`'s `Div` impl: IEEE-754 division
/// (round to nearest, ties to even) on the values given by bits. Division by
/// zero follows IEEE-754 and yields an infinity or NaN, never a panic.
#[verifier::external_body]
pub(crate) fn dec_div(a: u64, b: u64) -> (r: u64)
    ensures
        r == spec_dec_div(a, b),
{
    let x = rustc_apfloat::ieee::Double::from_bits(a as u128);
    let y = rustc_apfloat::ieee::Double::from_bits(b as u128);
    (x / y).value.to_bits() as u64
}

/// Relies on `rustc_apfloat::ieee::Double`'s `Rem` impl (`c_fmod`): the
/// remainder with the semantics of C `fmod`, which is also the semantics of
/// `%` on doubles in Rust. A zero divisor yields NaN, never a panic.
#[verifier::external_body]
pub(crate) fn dec_rem(a: u64, b: u64) -> (r: u64)
    ensures
        r == spec_dec_rem(a, b),
{
    let x = rustc_apfloat::ieee::Double::from_bits(a as u128);
    let y = rustc_apfloat::ieee::Double::from_bits(b as u128);
    (x % y).value.to_bits() as u64
}

/// Relies on `rustc_apfloat::Float::from_i128`: conversion of an integer to
/// the nearest IEEE-754 double (round to nearest, ties to even).
#[verifier::external_body]
pub(crate) fn dec_of_int(i: i64) -> (r: u64)
    ensures
        r == spec_dec_of_int(i),
{
    rustc_apfloat::ieee::Double::from_i128(i as i128).value.to_bits() as u64
}

/// Relies on `rustc_apfloat::ieee::Double`'s `FromStr` impl: correctly rounded
/// conversion of decimal text to the nearest IEEE-754 double. The conversion
/// accepts every string made of an optional sign, digits, and an optional
/// fraction, so on such input it cannot fail.
#[verifier::external_body]
pub(crate) fn dec_of_text(s: &str) -> (r: u64)
    requires
        crate::tokenizer::is_number_literal(s@),
    ensures
        r == spec_dec_of_text(s@),
{
    match <rustc_apfloat::ieee::Double as core::str::FromStr>::from_str(s) {
        Ok(v) => v.to_bits() as u64,
        Err(_) => 0,
    }
}

/// Relies on `rustc_apfloat::ieee::Double`'s `Display` impl: a decimal
/// rendering of the value given by bits, printed with enough digits to read
/// the same value back.
#[verifier::external_body]
pub(crate) fn dec_text(b: u64) -> (r: String)
    ensures
        r@ == spec_dec_text(b),
{
    format!("{}", rustc_apfloat::ieee::Double::from_bits(b as u128))
}

} // verus!
