//! Scalar arithmetic for the graph engine.
//!
//! A scalar is carried as the raw bit pattern of an IEEE-754 double inside a
//! `u64`. Each arithmetic operation is named by an uninterpreted spec
//! function over bit patterns and performed by an outside crate: the result
//! of an operation is a function of the operands' bit patterns alone, and
//! every contract of the engine speaks of these names exactly.

use rustc_apfloat::Float;
use rustc_apfloat::ieee::Double;
use vstd::prelude::*;

verus! {

/// Bit pattern of the IEEE-754 double zero.
pub const ZERO_BITS: u64 = 0;

/// Bit pattern of the IEEE-754 double one.
pub const ONE_BITS: u64 = 0x3FF0_0000_0000_0000;

/// Bit pattern of the IEEE-754 double minus one.
pub const NEG_ONE_BITS: u64 = 0xBFF0_0000_0000_0000;

/// Bit pattern of the IEEE-754 double `2^-63`.
pub const TWO_POW_NEG_63_BITS: u64 = 0x3C00_0000_0000_0000;

/// The sum of two doubles, over bit patterns.
pub uninterp spec fn add_bits(a: u64, b: u64) -> u64;

/// The difference of two doubles, over bit patterns.
pub uninterp spec fn sub_bits(a: u64, b: u64) -> u64;

/// The product of two doubles, over bit patterns.
pub uninterp spec fn mul_bits(a: u64, b: u64) -> u64;

/// The double `a` raised to the double power `b`, over bit patterns.
pub uninterp spec fn pow_bits(a: u64, b: u64) -> u64;

/// The exponential of a double, over bit patterns.
pub uninterp spec fn exp_bits(a: u64) -> u64;

/// The hyperbolic tangent of a double, over bit patterns.
pub uninterp spec fn tanh_bits(a: u64) -> u64;

/// The double nearest to an unsigned 64-bit integer, as a bit pattern.
pub uninterp spec fn double_bits_of(u: u64) -> u64;

/// Relies on rustc_apfloat's IEEE-754 double addition
/// (`ieee::Double::add_r`, rounding to nearest, ties to even).
#[verifier::external_body]
pub(crate) fn fadd(a: u64, b: u64) -> (r: u64)
    ensures
        r == add_bits(a, b),
{
    let x = Double::from_bits(a as u128);
    let y = Double::from_bits(b as u128);
    (x + y).value.to_bits() as u64
}

/// Relies on rustc_apfloat's IEEE-754 double subtraction
/// (`ieee::Double::sub_r`, rounding to nearest, ties to even).
#[verifier::external_body]
pub(crate) fn fsub(a: u64, b: u64) -> (r: u64)
    ensures
        r == sub_bits(a, b),
{
    let x = Double::from_bits(a as u128);
    let y = Double::from_bits(b as u128);
    (x - y).value.to_bits() as u64
}

/// Relies on rustc_apfloat's IEEE-754 double multiplication
/// (`ieee::Double::mul_r`, rounding to nearest, ties to even).
#[verifier::external_body]
pub(crate) fn fmul(a: u64, b: u64) -> (r: u64)
    ensures
        r == mul_bits(a, b),
{
    let x = Double::from_bits(a as u128);
    let y = Double::from_bits(b as u128);
    (x * y).value.to_bits() as u64
}

/// Relies on libm::pow, a deterministic power function on doubles;
/// bytemuck::cast reinterprets the bits on the way in and out.
#[verifier::external_body]
pub(crate) fn fpow(a: u64, b: u64) -> (r: u64)
    ensures
        r == pow_bits(a, b),
{
    bytemuck::cast(libm::pow(bytemuck::cast(a), bytemuck::cast(b)))
}

/// Relies on libm::exp, a deterministic exponential on doubles;
/// bytemuck::cast reinterprets the bits on the way in and out.
#[verifier::external_body]
pub(crate) fn fexp(a: u64) -> (r: u64)
    ensures
        r == exp_bits(a),
{
    bytemuck::cast(libm::exp(bytemuck::cast(a)))
}

/// Relies on libm::tanh, a deterministic hyperbolic tangent on doubles;
/// bytemuck::cast reinterprets the bits on the way in and out.
#[verifier::external_body]
pub(crate) fn ftanh(a: u64) -> (r: u64)
    ensures
        r == tanh_bits(a),
{
    bytemuck::cast(libm::tanh(bytemuck::cast(a)))
}

/// Relies on rustc_apfloat's unsigned-integer-to-double conversion
/// (`Float::from_u128`, rounding to nearest, ties to even).
#[verifier::external_body]
pub(crate) fn from_u64(u: u64) -> (r: u64)
    ensures
        r == double_bits_of(u),
{
    Double::from_u128(u as u128).value.to_bits() as u64
}

/// Relies on rand::Rng::gen on the thread-local generator: a uniformly
/// distributed 64-bit word. Nothing is promised of the result.
#[verifier::external_body]
pub(crate) fn random_word() -> u64 {
    rand::Rng::gen(&mut rand::thread_rng())
}

} // verus!
