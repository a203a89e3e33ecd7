//! Scalar arithmetic on IEEE-754 double-precision bit patterns.
//!
//! Every scalar in the engine is the `u64` bit pattern of a double-precision
//! value. The verified graph logic never interprets the bits itself: each
//! arithmetic operation is an uninterpreted function of the bit patterns,
//! computed at run time by software floating-point routines. The wrappers in
//! this module are the whole trusted surface of the crate.

use vstd::prelude::*;
use rustc_apfloat::Float;

verus! {

/// Bit pattern of positive zero.
pub const ZERO_BITS: u64 = 0;

/// Bit pattern of 1.0.
pub const ONE_BITS: u64 = 0x3FF0_0000_0000_0000;

/// Bit pattern of -1.0.
pub const NEG_ONE_BITS: u64 = 0xBFF0_0000_0000_0000;

/// Bit pattern of 2.0.
pub const TWO_BITS: u64 = 0x4000_0000_0000_0000;

/// The bit pattern of the IEEE-754 sum of the two scalars `a` and `b`.
pub uninterp spec fn add_of(a: u64, b: u64) -> u64;

/// The bit pattern of the IEEE-754 product of the two scalars `a` and `b`.
pub uninterp spec fn mul_of(a: u64, b: u64) -> u64;

/// The bit pattern of the IEEE-754 difference of the two scalars `a` and `b`.
pub uninterp spec fn sub_of(a: u64, b: u64) -> u64;

/// The bit pattern of `base` raised to the power `exponent`, both scalars.
pub uninterp spec fn pow_of(base: u64, exponent: u64) -> u64;

/// Whether the scalar `a` compares strictly greater than the scalar `b`.
pub uninterp spec fn gt_of(a: u64, b: u64) -> bool;

/// The rectified-linear image of the scalar `x`: `x` itself where `x`
/// compares strictly greater than zero, positive zero otherwise.
pub open spec fn relu_of(x: u64) -> u64 {
    if gt_of(x, ZERO_BITS) {
        x
    } else {
        ZERO_BITS
    }
}

/// Relies on rustc_apfloat's `Add` for `ieee::Double`: IEEE-754 double
/// addition, rounded to nearest even, a pure function of the two bit patterns.
#[verifier::external_body]
pub(crate) fn add_bits(a: u64, b: u64) -> (r: u64)
    ensures
        r == add_of(a, b),
{
    let x = rustc_apfloat::ieee::Double::from_bits(a as u128);
    let y = rustc_apfloat::ieee::Double::from_bits(b as u128);
    (x + y).value.to_bits() as u64
}

/// Relies on rustc_apfloat's `Mul` for `ieee::Double`: IEEE-754 double
/// multiplication, rounded to nearest even, a pure function of the bit patterns.
#[verifier::external_body]
pub(crate) fn mul_bits(a: u64, b: u64) -> (r: u64)
    ensures
        r == mul_of(a, b),
{
    let x = rustc_apfloat::ieee::Double::from_bits(a as u128);
    let y = rustc_apfloat::ieee::Double::from_bits(b as u128);
    (x * y).value.to_bits() as u64
}

/// Relies on rustc_apfloat's `Sub` for `ieee::Double`: IEEE-754 double
/// subtraction, rounded to nearest even, a pure function of the bit patterns.
#[verifier::external_body]
pub(crate) fn sub_bits(a: u64, b: u64) -> (r: u64)
    ensures
        r == sub_of(a, b),
{
    let x = rustc_apfloat::ieee::Double::from_bits(a as u128);
    let y = rustc_apfloat::ieee::Double::from_bits(b as u128);
    (x - y).value.to_bits() as u64
}

/// Relies on libm::pow: double-precision exponentiation, a pure function of
/// its two arguments (not-a-number for a negative base with a non-integral
/// exponent).
#[verifier::external_body]
pub(crate) fn pow_bits(base: u64, exponent: u64) -> (r: u64)
    ensures
        r == pow_of(base, exponent),
{
    bytemuck::cast(libm::pow(bytemuck::cast(base), bytemuck::cast(exponent)))
}

/// Relies on rustc_apfloat's `PartialOrd` for `ieee::Double`: the IEEE-754
/// ordering of the two scalars, under which not-a-number compares greater
/// than nothing.
#[verifier::external_body]
pub(crate) fn gt_bits(a: u64, b: u64) -> (r: bool)
    ensures
        r == gt_of(a, b),
{
    let x = rustc_apfloat::ieee::Double::from_bits(a as u128);
    let y = rustc_apfloat::ieee::Double::from_bits(b as u128);
    x > y
}

/// Computes the rectified-linear image of `x`, as `relu_of` states it.
pub(crate) fn relu_bits(x: u64) -> (r: u64)
    ensures
        r == relu_of(x),
{
    if gt_bits(x, ZERO_BITS) {
        x
    } else {
        ZERO_BITS
    }
}

} // verus!
