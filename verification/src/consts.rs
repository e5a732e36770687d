//! The canonical bit patterns of the named constant values, and the
//! format's metadata constants. The patterns are written down once, in
//! canonical order, independent of any platform.

use crate::Quad;
use vstd::prelude::*;

verus! {

/// +0.
pub const ZERO_BITS: u128 = 0;

/// -0: only the sign bit set.
pub const NEG_ZERO_BITS: u128 = 0x8000_0000_0000_0000_0000_0000_0000_0000;

/// 1: exponent field 16383, fraction 0.
pub const ONE_BITS: u128 = 0x3FFF_0000_0000_0000_0000_0000_0000_0000;

/// -1.
pub const NEG_ONE_BITS: u128 = 0xBFFF_0000_0000_0000_0000_0000_0000_0000;

/// 2: exponent field 16384, fraction 0.
pub const TWO_BITS: u128 = 0x4000_0000_0000_0000_0000_0000_0000_0000;

/// Positive infinity: exponent field all ones, fraction 0.
pub const INFINITY_BITS: u128 = 0x7FFF_0000_0000_0000_0000_0000_0000_0000;

/// Negative infinity.
pub const NEG_INFINITY_BITS: u128 = 0xFFFF_0000_0000_0000_0000_0000_0000_0000;

/// The NaN constant: exponent field all ones, fraction all ones, sign
/// clear.
pub const NAN_BITS: u128 = 0x7FFF_FFFF_FFFF_FFFF_FFFF_FFFF_FFFF_FFFF;

/// The most negative finite value: sign set, exponent field 32766,
/// fraction all ones.
pub const MIN_BITS: u128 = 0xFFFE_FFFF_FFFF_FFFF_FFFF_FFFF_FFFF_FFFF;

/// The most positive finite value: exponent field 32766, fraction all
/// ones.
pub const MAX_BITS: u128 = 0x7FFE_FFFF_FFFF_FFFF_FFFF_FFFF_FFFF_FFFF;

/// The smallest positive value: the least subnormal, fraction 1.
pub const MIN_POSITIVE_BITS: u128 = 1;

/// Euler's number, rounded to nearest even.
pub const E_BITS: u128 = 0x4000_5BF0_A8B1_4576_9535_5FB8_AC40_4E7A;

/// The circle constant, rounded to nearest even.
pub const PI_BITS: u128 = 0x4000_921F_B544_42D1_8469_898C_C517_01B8;

impl Quad {
    /// The bit-width marker constant carried over from the conversion
    /// contract's naming; the numeric base of the format is 2.
    pub const RADIX: u32 = 128;

    /// Significand precision in bits: 112 explicit fraction bits plus the
    /// implicit leading bit of normal values.
    pub const MANTISSA_DIGITS: u32 = 113;

    /// Largest unbiased exponent bound.
    pub const MAX_EXP: u32 = 16383;

    /// Smallest unbiased exponent of a normal value.
    pub const MIN_EXP: i32 = -16382;

    /// Largest decimal exponent of a finite value.
    pub const MAX_10_EXP: u32 = 4932;

    /// Smallest decimal exponent of a positive normal value.
    pub const MIN_10_EXP: i32 = -4931;

    /// The NaN constant.
    pub fn nan() -> (r: Quad)
        ensures
            r.bits == NAN_BITS,
    {
        Quad { bits: NAN_BITS }
    }

    /// Positive infinity.
    pub fn infinity() -> (r: Quad)
        ensures
            r.bits == INFINITY_BITS,
    {
        Quad { bits: INFINITY_BITS }
    }

    /// Negative infinity.
    pub fn neg_infinity() -> (r: Quad)
        ensures
            r.bits == NEG_INFINITY_BITS,
    {
        Quad { bits: NEG_INFINITY_BITS }
    }

    /// +0.
    pub fn zero() -> (r: Quad)
        ensures
            r.bits == ZERO_BITS,
    {
        Quad { bits: ZERO_BITS }
    }

    /// -0: bit-distinct from +0, equal to it under comparison.
    pub fn neg_zero() -> (r: Quad)
        ensures
            r.bits == NEG_ZERO_BITS,
    {
        Quad { bits: NEG_ZERO_BITS }
    }

    /// The most negative finite value.
    pub fn min_value() -> (r: Quad)
        ensures
            r.bits == MIN_BITS,
    {
        Quad { bits: MIN_BITS }
    }

    /// The most positive finite value.
    pub fn max_value() -> (r: Quad)
        ensures
            r.bits == MAX_BITS,
    {
        Quad { bits: MAX_BITS }
    }

    /// The smallest positive (subnormal) value.
    pub fn min_positive() -> (r: Quad)
        ensures
            r.bits == MIN_POSITIVE_BITS,
    {
        Quad { bits: MIN_POSITIVE_BITS }
    }

    /// 1.
    pub fn one() -> (r: Quad)
        ensures
            r.bits == ONE_BITS,
    {
        Quad { bits: ONE_BITS }
    }

    /// 2.
    pub fn two() -> (r: Quad)
        ensures
            r.bits == TWO_BITS,
    {
        Quad { bits: TWO_BITS }
    }

    /// Euler's number.
    pub fn e() -> (r: Quad)
        ensures
            r.bits == E_BITS,
    {
        Quad { bits: E_BITS }
    }

    /// The circle constant.
    pub fn pi() -> (r: Quad)
        ensures
            r.bits == PI_BITS,
    {
        Quad { bits: PI_BITS }
    }
}

} // verus!
