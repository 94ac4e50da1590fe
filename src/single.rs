//! IEEE-754 binary32 values held as bit patterns, and the operations on them.
//!
//! The four arithmetic operations are delegated to `rustc_apfloat`, an exact
//! software implementation of the standard (rounding to nearest, ties to
//! even). Their results are named by uninterpreted spec functions: they are
//! functions of the operands alone. Ordering, absolute value and zero tests
//! are stated and proved here directly on the bit patterns.
use vstd::prelude::*;

verus! {

/// The value zero (positive zero).
pub const ZERO: u32 = 0;

/// The value one.
pub const ONE: u32 = 0x3F80_0000;

/// Bit of the sign.
pub const SIGN_BIT: u32 = 0x8000_0000;

/// Bit pattern of positive infinity; larger magnitudes are NaNs.
pub const INFINITY: u32 = 0x7F80_0000;

/// Sum of two values, rounded to nearest even.
pub uninterp spec fn add_of(a: u32, b: u32) -> u32;

/// Difference of two values, rounded to nearest even.
pub uninterp spec fn sub_of(a: u32, b: u32) -> u32;

/// Product of two values, rounded to nearest even.
pub uninterp spec fn mul_of(a: u32, b: u32) -> u32;

/// Quotient of two values, rounded to nearest even.
pub uninterp spec fn div_of(a: u32, b: u32) -> u32;

/// The bit pattern with the sign cleared.
pub open spec fn abs_spec(a: u32) -> u32 {
    if a >= SIGN_BIT {
        (a - SIGN_BIT) as u32
    } else {
        a
    }
}

pub open spec fn is_nan(a: u32) -> bool {
    abs_spec(a) > INFINITY
}

/// Both zeros.
pub open spec fn is_zero_spec(a: u32) -> bool {
    abs_spec(a) == 0
}

/// Position of a non-NaN value on the number line: the magnitude bits grow
/// with the magnitude, and the two zeros share the position zero.
pub open spec fn order_key(a: u32) -> int {
    if a >= SIGN_BIT {
        -(abs_spec(a) as int)
    } else {
        a as int
    }
}

/// `a < b` as IEEE-754 compares: false where either is a NaN.
pub open spec fn lt_spec(a: u32, b: u32) -> bool {
    !is_nan(a) && !is_nan(b) && order_key(a) < order_key(b)
}

/// `a <= b` as IEEE-754 compares: false where either is a NaN.
pub open spec fn le_spec(a: u32, b: u32) -> bool {
    !is_nan(a) && !is_nan(b) && order_key(a) <= order_key(b)
}

/// `a > 0`.
pub open spec fn is_positive_spec(a: u32) -> bool {
    lt_spec(ZERO, a)
}

/// Relies on rustc_apfloat's `Add` for `ieee::Single` (`add_r` with
/// `Round::NearestTiesToEven`): the rounded sum depends on the operands alone.
#[verifier::external_body]
pub(crate) fn plus(a: u32, b: u32) -> (r: u32)
    ensures
        r == add_of(a, b),
{
    let x = <rustc_apfloat::ieee::Single as rustc_apfloat::Float>::from_bits(a as u128);
    let y = <rustc_apfloat::ieee::Single as rustc_apfloat::Float>::from_bits(b as u128);
    rustc_apfloat::Float::to_bits((x + y).value) as u32
}

/// Relies on rustc_apfloat's `Sub` for `ieee::Single` (`sub_r` with
/// `Round::NearestTiesToEven`): the rounded difference depends on the operands alone.
#[verifier::external_body]
pub(crate) fn minus(a: u32, b: u32) -> (r: u32)
    ensures
        r == sub_of(a, b),
{
    let x = <rustc_apfloat::ieee::Single as rustc_apfloat::Float>::from_bits(a as u128);
    let y = <rustc_apfloat::ieee::Single as rustc_apfloat::Float>::from_bits(b as u128);
    rustc_apfloat::Float::to_bits((x - y).value) as u32
}

/// Relies on rustc_apfloat's `Mul` for `ieee::Single` (`mul_r` with
/// `Round::NearestTiesToEven`): the rounded product depends on the operands alone.
#[verifier::external_body]
pub(crate) fn times(a: u32, b: u32) -> (r: u32)
    ensures
        r == mul_of(a, b),
{
    let x = <rustc_apfloat::ieee::Single as rustc_apfloat::Float>::from_bits(a as u128);
    let y = <rustc_apfloat::ieee::Single as rustc_apfloat::Float>::from_bits(b as u128);
    rustc_apfloat::Float::to_bits((x * y).value) as u32
}

/// Relies on rustc_apfloat's `Div` for `ieee::Single` (`div_r` with
/// `Round::NearestTiesToEven`): the rounded quotient depends on the operands alone.
#[verifier::external_body]
pub(crate) fn divide(a: u32, b: u32) -> (r: u32)
    ensures
        r == div_of(a, b),
{
    let x = <rustc_apfloat::ieee::Single as rustc_apfloat::Float>::from_bits(a as u128);
    let y = <rustc_apfloat::ieee::Single as rustc_apfloat::Float>::from_bits(b as u128);
    rustc_apfloat::Float::to_bits((x / y).value) as u32
}

/// Absolute value: the sign cleared.
pub fn abs(a: u32) -> (r: u32)
    ensures
        r == abs_spec(a),
{
    if a >= SIGN_BIT {
        a - SIGN_BIT
    } else {
        a
    }
}

/// Whether the value is a zero of either sign.
pub fn is_zero(a: u32) -> (r: bool)
    ensures
        r == is_zero_spec(a),
{
    abs(a) == 0
}

fn key_parts(a: u32) -> (r: (bool, u32))
    ensures
        r.1 == abs_spec(a),
        r.0 == (a >= SIGN_BIT && abs_spec(a) != 0),
{
    let m = abs(a);
    (a >= SIGN_BIT && m != 0, m)
}

/// `a < b`, false where either is a NaN.
pub fn lt(a: u32, b: u32) -> (r: bool)
    ensures
        r == lt_spec(a, b),
{
    let (na, ma) = key_parts(a);
    let (nb, mb) = key_parts(b);
    if ma > INFINITY || mb > INFINITY {
        false
    } else if na && nb {
        mb < ma
    } else if na {
        true
    } else if nb {
        false
    } else {
        ma < mb
    }
}

/// `a <= b`, false where either is a NaN.
pub fn le(a: u32, b: u32) -> (r: bool)
    ensures
        r == le_spec(a, b),
{
    let (na, ma) = key_parts(a);
    let (nb, mb) = key_parts(b);
    if ma > INFINITY || mb > INFINITY {
        false
    } else if na && nb {
        mb <= ma
    } else if na {
        true
    } else if nb {
        false
    } else {
        ma <= mb
    }
}

/// `a > 0`, false for zeros and NaNs.
pub fn is_positive(a: u32) -> (r: bool)
    ensures
        r == is_positive_spec(a),
{
    lt(ZERO, a)
}

} // verus!
