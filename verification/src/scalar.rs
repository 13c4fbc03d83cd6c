//! The element scalar: an IEEE 754 binary64 value, held as its bit pattern.
//!
//! Holding the 64-bit representation keeps the container and the
//! multiplication bookkeeping fully checkable; the two arithmetic operations
//! the multiplication needs (product and running sum) are done by the
//! `rustc_apfloat` software implementation of binary64 arithmetic, which is a
//! deterministic function of the operand bits.

use vstd::prelude::*;
use rustc_apfloat::Float;

verus! {

/// Bit pattern of +0.0.
pub const POS_ZERO: u64 = 0;

/// Bit pattern of -0.0.
pub const NEG_ZERO: u64 = 0x8000_0000_0000_0000;

/// Bit pattern of 1.0.
pub const ONE: u64 = 0x3FF0_0000_0000_0000;

/// A bit pattern encodes NaN when the exponent field is all ones and the
/// mantissa field is not zero.
pub open spec fn is_nan_bits(x: u64) -> bool {
    x & 0x7FF0_0000_0000_0000 == 0x7FF0_0000_0000_0000 && x & 0x000F_FFFF_FFFF_FFFF != 0
}

/// A bit pattern whose value compares equal to zero: exactly the two signed
/// zeroes.
pub open spec fn is_zero_bits(x: u64) -> bool {
    x == POS_ZERO || x == NEG_ZERO
}

/// Whether the value of `x` compares unequal to zero, as the multiplication
/// engine's exact-zero filter asks.
pub fn nonzero_bits(x: u64) -> (r: bool)
    ensures
        r == !is_zero_bits(x),
{
    x != POS_ZERO && x != NEG_ZERO
}

/// The bit pattern of the binary64 product of two bit patterns, in the cases
/// where `mul_bits`' own definition does not pin it down.
pub uninterp spec fn raw_mul_bits(a: u64, b: u64) -> u64;

/// The bit pattern of the binary64 product of the values of `a` and `b`
/// (round to nearest even). Multiplication by 1.0 on the left is exact and
/// returns the other operand's bits unchanged whenever that operand is not a
/// NaN (a NaN may have its payload rewritten).
pub open spec fn mul_bits(a: u64, b: u64) -> u64 {
    if a == ONE && !is_nan_bits(b) {
        b
    } else {
        raw_mul_bits(a, b)
    }
}

/// The bit pattern of the binary64 sum of two bit patterns, in the cases
/// where `add_bits`' own definition does not pin it down.
pub uninterp spec fn raw_add_bits(a: u64, b: u64) -> u64;

/// The bit pattern of the binary64 sum of the values of `a` and `b` (round to
/// nearest even). Adding a non-NaN operand to +0.0 returns that operand's
/// bits unchanged, except that +0.0 + -0.0 is +0.0.
pub open spec fn add_bits(a: u64, b: u64) -> u64 {
    if a == POS_ZERO && !is_nan_bits(b) {
        if b == NEG_ZERO {
            POS_ZERO
        } else {
            b
        }
    } else {
        raw_add_bits(a, b)
    }
}

/// Relies on `rustc_apfloat::ieee::Double`'s `Mul` (round to nearest even):
/// deterministic in the operand bits, and exact on a 1.0 operand.
#[verifier::external_body]
pub fn f64_mul_bits(a: u64, b: u64) -> (r: u64)
    ensures
        r == mul_bits(a, b),
        !(a == ONE && !is_nan_bits(b)) ==> r == raw_mul_bits(a, b),
{
    let x = rustc_apfloat::ieee::Double::from_bits(a as u128);
    let y = rustc_apfloat::ieee::Double::from_bits(b as u128);
    (x * y).value.to_bits() as u64
}

/// Relies on `rustc_apfloat::ieee::Double`'s `Add` (round to nearest even):
/// deterministic in the operand bits, exact on a +0.0 operand, and +0.0 plus
/// -0.0 rounds to +0.0.
#[verifier::external_body]
pub fn f64_add_bits(a: u64, b: u64) -> (r: u64)
    ensures
        r == add_bits(a, b),
        !(a == POS_ZERO && !is_nan_bits(b)) ==> r == raw_add_bits(a, b),
{
    let x = rustc_apfloat::ieee::Double::from_bits(a as u128);
    let y = rustc_apfloat::ieee::Double::from_bits(b as u128);
    (x + y).value.to_bits() as u64
}

} // verus!
