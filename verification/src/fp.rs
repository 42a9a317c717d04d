//! IEEE-754 binary64 values as raw bit patterns.
//!
//! The verifier does not reason about floating point, so every binary64
//! value is carried as its bit pattern in a `u64`, and the arithmetic is
//! performed by `rustc_apfloat`, a software implementation of IEEE-754
//! binary64 (round to nearest, ties to even) whose results agree bit for
//! bit with hardware doubles. Each operation's result is named by an
//! uninterpreted spec function of the operand bits; the comparison is
//! specified through `f64_key`, an integer key that realises the numeric
//! order of the non-NaN values (with `-0.0` and `0.0` sharing a key).

use vstd::prelude::*;
use rustc_apfloat::Float;
use rustc_apfloat::ieee::Double;

verus! {

/// Bit pattern of `0.0`.
pub const F_ZERO: u64 = 0x0000_0000_0000_0000;
/// Bit pattern of `1.0`.
pub const F_ONE: u64 = 0x3FF0_0000_0000_0000;
/// Bit pattern of `-1.0`.
pub const F_NEG_ONE: u64 = 0xBFF0_0000_0000_0000;
/// Bit pattern of `2.0`.
pub const F_TWO: u64 = 0x4000_0000_0000_0000;
/// Bit pattern of `4.0`.
pub const F_FOUR: u64 = 0x4010_0000_0000_0000;

/// True of exactly the bit patterns that encode a binary64 NaN
/// (exponent field all ones and a nonzero mantissa).
pub open spec fn is_nan_bits(a: u64) -> bool {
    (a >> 52) & 0x7FF == 0x7FF && a & 0x000F_FFFF_FFFF_FFFF != 0
}

/// The rank of a binary64 value in the numeric order of the non-NaN
/// values: for non-NaN `a` and `b`, the value of `a` is below the value
/// of `b` exactly when `f64_key(a) < f64_key(b)`, and `-0.0` and `0.0`
/// share one key. On NaN bit patterns the key is unconstrained and is
/// never relied on.
pub uninterp spec fn f64_key(a: u64) -> int;

/// The bits of the binary64 sum of the values of `a` and `b`.
pub uninterp spec fn f64_add(a: u64, b: u64) -> u64;

/// The bits of the binary64 difference of the values of `a` and `b`.
pub uninterp spec fn f64_sub(a: u64, b: u64) -> u64;

/// The bits of the binary64 product of the values of `a` and `b`.
pub uninterp spec fn f64_mul(a: u64, b: u64) -> u64;

/// The bits of the binary64 quotient of the values of `a` and `b`.
pub uninterp spec fn f64_div(a: u64, b: u64) -> u64;

/// The bits of the binary64 value nearest to the integer `i`.
pub uninterp spec fn f64_of_i64(i: int) -> u64;

/// The value of `a` truncated toward zero and clamped to the `usize`
/// range (zero for NaN).
pub uninterp spec fn f64_to_usize(a: u64) -> int;

/// `a < b` as binary64 comparison: false when either operand is NaN,
/// otherwise the numeric order of the values.
pub open spec fn key_lt(a: u64, b: u64) -> bool {
    !is_nan_bits(a) && !is_nan_bits(b) && f64_key(a) < f64_key(b)
}

/// `a <= b` as binary64 comparison: false when either operand is NaN,
/// otherwise the numeric order of the values.
pub open spec fn key_le(a: u64, b: u64) -> bool {
    !is_nan_bits(a) && !is_nan_bits(b) && f64_key(a) <= f64_key(b)
}

/// Relies on `rustc_apfloat`'s `partial_cmp` for `ieee::Double`: it
/// returns `None` exactly when an operand is NaN and otherwise orders
/// the operands by numeric value, with `-0.0` equal to `0.0`; `f64_key`
/// stands for that order.
#[verifier::external_body]
pub(crate) fn f_lt(a: u64, b: u64) -> (r: bool)
    ensures
        r == (!is_nan_bits(a) && !is_nan_bits(b) && f64_key(a) < f64_key(b)),
{
    let x = Double::from_bits(a as u128);
    let y = Double::from_bits(b as u128);
    matches!(x.partial_cmp(&y), Some(core::cmp::Ordering::Less))
}

/// Relies on `rustc_apfloat`'s `partial_cmp` for `ieee::Double`, as
/// `f_lt` does.
#[verifier::external_body]
pub(crate) fn f_le(a: u64, b: u64) -> (r: bool)
    ensures
        r == (!is_nan_bits(a) && !is_nan_bits(b) && f64_key(a) <= f64_key(b)),
{
    let x = Double::from_bits(a as u128);
    let y = Double::from_bits(b as u128);
    matches!(
        x.partial_cmp(&y),
        Some(core::cmp::Ordering::Less) | Some(core::cmp::Ordering::Equal)
    )
}

/// Relies on `rustc_apfloat`'s `Add` for `ieee::Double` (binary64
/// addition, round to nearest, ties to even); `f64_add` names its result.
#[verifier::external_body]
pub(crate) fn f_add(a: u64, b: u64) -> (r: u64)
    ensures
        r == f64_add(a, b),
{
    let x = Double::from_bits(a as u128);
    let y = Double::from_bits(b as u128);
    (x + y).value.to_bits() as u64
}

/// Relies on `rustc_apfloat`'s `Sub` for `ieee::Double` (binary64
/// subtraction, round to nearest, ties to even); `f64_sub` names its
/// result.
#[verifier::external_body]
pub(crate) fn f_sub(a: u64, b: u64) -> (r: u64)
    ensures
        r == f64_sub(a, b),
{
    let x = Double::from_bits(a as u128);
    let y = Double::from_bits(b as u128);
    (x - y).value.to_bits() as u64
}

/// Relies on `rustc_apfloat`'s `Mul` for `ieee::Double` (binary64
/// multiplication, round to nearest, ties to even); `f64_mul` names its
/// result.
#[verifier::external_body]
pub(crate) fn f_mul(a: u64, b: u64) -> (r: u64)
    ensures
        r == f64_mul(a, b),
{
    let x = Double::from_bits(a as u128);
    let y = Double::from_bits(b as u128);
    (x * y).value.to_bits() as u64
}

/// Relies on `rustc_apfloat`'s `Div` for `ieee::Double` (binary64
/// division, round to nearest, ties to even); `f64_div` names its result.
#[verifier::external_body]
pub(crate) fn f_div(a: u64, b: u64) -> (r: u64)
    ensures
        r == f64_div(a, b),
{
    let x = Double::from_bits(a as u128);
    let y = Double::from_bits(b as u128);
    (x / y).value.to_bits() as u64
}

/// Relies on `rustc_apfloat`'s `from_i128` (integer to binary64
/// conversion, round to nearest, ties to even); `f64_of_i64` names its
/// result.
#[verifier::external_body]
pub(crate) fn f_of_i64(i: i64) -> (r: u64)
    ensures
        r == f64_of_i64(i as int),
{
    Double::from_i128(i as i128).value.to_bits() as u64
}

/// Relies on `rustc_apfloat`'s `to_u128` (conversion to an unsigned
/// integer, rounding toward zero; NaN gives zero, and values outside the
/// range clamp to its ends); `f64_to_usize` names its result.
#[verifier::external_body]
pub(crate) fn f_to_usize(a: u64) -> (r: usize)
    ensures
        r as int == f64_to_usize(a),
{
    let x = Double::from_bits(a as u128);
    x.to_u128(64).value as usize
}

} // verus!
