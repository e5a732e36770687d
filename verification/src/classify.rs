//! Classification of values into the five floating-point categories, the
//! derived sign and finiteness predicates, and the equality of values
//! under the usual floating-point comparison rules.

use crate::consts::{NAN_BITS, NEG_ONE_BITS, ONE_BITS};
use crate::{exp_of, frac_of, lemma_bits_to_fields, lemma_fields, sign_of, Quad};
use crate::{EXP_SPECIAL, FRAC_WEIGHT, SIGN_MASK};
use vstd::prelude::*;

verus! {

/// The five categories a binary128 bit pattern can fall in.
#[derive(Clone, Copy, Debug, PartialEq, Eq, Structural)]
pub enum FpCategory {
    /// Exponent field all ones, fraction nonzero.
    Nan,
    /// Exponent field all ones, fraction zero.
    Infinite,
    /// Exponent field zero, fraction zero (either sign).
    Zero,
    /// Exponent field zero, fraction nonzero.
    Subnormal,
    /// Exponent field between 1 and 32766.
    Normal,
}

/// True of the patterns that denote a NaN.
pub open spec fn is_nan_bits(bits: u128) -> bool {
    exp_of(bits) == EXP_SPECIAL && frac_of(bits) != 0
}

/// True of the two infinity patterns.
pub open spec fn is_inf_bits(bits: u128) -> bool {
    exp_of(bits) == EXP_SPECIAL && frac_of(bits) == 0
}

/// True of the two zero patterns.
pub open spec fn is_zero_bits(bits: u128) -> bool {
    exp_of(bits) == 0 && frac_of(bits) == 0
}

/// The category of a pattern, decided in the fixed precedence NaN,
/// Infinite, Normal, Subnormal, Zero.
pub open spec fn category_of(bits: u128) -> FpCategory {
    if is_nan_bits(bits) {
        FpCategory::Nan
    } else if is_inf_bits(bits) {
        FpCategory::Infinite
    } else if 1 <= exp_of(bits) < EXP_SPECIAL {
        FpCategory::Normal
    } else if frac_of(bits) != 0 {
        FpCategory::Subnormal
    } else {
        FpCategory::Zero
    }
}

/// Equality of two patterns under floating-point comparison: a NaN equals
/// nothing, the two zeros equal each other, and any other value equals
/// exactly its own pattern.
pub open spec fn float_eq(a: u128, b: u128) -> bool {
    if is_nan_bits(a) || is_nan_bits(b) {
        false
    } else if is_zero_bits(a) && is_zero_bits(b) {
        true
    } else {
        a == b
    }
}

/// The magnitude pattern: the bits with the sign cleared. Two finite
/// patterns are ordered by sign and by this magnitude.
pub open spec fn mag_bits(bits: u128) -> u128 {
    bits % SIGN_MASK
}

/// Clearing the sign bit keeps the exponent and fraction fields and
/// clears the sign.
pub proof fn lemma_mag_fields(bits: u128)
    ensures
        exp_of(mag_bits(bits)) == exp_of(bits),
        frac_of(mag_bits(bits)) == frac_of(bits),
        !sign_of(mag_bits(bits)),
        sign_of(bits) ==> bits == mag_bits(bits) + SIGN_MASK,
        !sign_of(bits) ==> bits == mag_bits(bits),
{
    lemma_bits_to_fields(bits);
    let e = exp_of(bits);
    let f = frac_of(bits);
    if sign_of(bits) {
        assert(bits == SIGN_MASK + e * FRAC_WEIGHT + f);
        assert(e * FRAC_WEIGHT + f < SIGN_MASK) by (nonlinear_arith)
            requires
                e < 0x8000,
                f < FRAC_WEIGHT,
        ;
        assert(mag_bits(bits) == e * FRAC_WEIGHT + f) by {
            vstd::arithmetic::div_mod::lemma_fundamental_div_mod_converse(
                bits as int,
                SIGN_MASK as int,
                1,
                (e * FRAC_WEIGHT + f) as int,
            );
        }
        lemma_fields(false, e, f);
    } else {
        assert(bits < SIGN_MASK);
        assert(mag_bits(bits) == bits) by {
            vstd::arithmetic::div_mod::lemma_fundamental_div_mod_converse(
                bits as int,
                SIGN_MASK as int,
                0,
                bits as int,
            );
        }
    }
}

/// The exponent-and-fraction part of the special-exponent patterns, used
/// to compare a magnitude against the infinities.
pub proof fn lemma_mag_order(bits: u128)
    ensures
        is_nan_bits(bits) <==> mag_bits(bits) > EXP_SPECIAL * FRAC_WEIGHT,
        is_inf_bits(bits) <==> mag_bits(bits) == EXP_SPECIAL * FRAC_WEIGHT,
{
    lemma_mag_fields(bits);
    let m = mag_bits(bits);
    lemma_bits_to_fields(m);
    let e = exp_of(m);
    let f = frac_of(m);
    assert(m == e * FRAC_WEIGHT + f);
    assert((e == EXP_SPECIAL && f != 0) <==> m > EXP_SPECIAL * FRAC_WEIGHT) by (nonlinear_arith)
        requires
            m == e * FRAC_WEIGHT + f,
            e < 0x8000,
            f < FRAC_WEIGHT,
            EXP_SPECIAL == 0x7FFF,
            FRAC_WEIGHT == 0x1_0000_0000_0000_0000_0000_0000_0000,
    ;
    assert((e == EXP_SPECIAL && f == 0) <==> m == EXP_SPECIAL * FRAC_WEIGHT) by (nonlinear_arith)
        requires
            m == e * FRAC_WEIGHT + f,
            e < 0x8000,
            f < FRAC_WEIGHT,
            EXP_SPECIAL == 0x7FFF,
            FRAC_WEIGHT == 0x1_0000_0000_0000_0000_0000_0000_0000,
    ;
}

impl Quad {
    /// The raw 15-bit exponent field.
    pub fn exp_bits(&self) -> (r: u32)
        ensures
            r == exp_of(self.bits),
    {
        ((self.bits / FRAC_WEIGHT) % 0x8000) as u32
    }

    /// The raw 112-bit fraction field.
    pub fn fract_bits(&self) -> (r: u128)
        ensures
            r == frac_of(self.bits),
    {
        self.bits % FRAC_WEIGHT
    }

    /// True iff the value is a NaN.
    pub fn is_nan(&self) -> (r: bool)
        ensures
            r == is_nan_bits(self.bits),
    {
        proof {
            lemma_mag_order(self.bits);
        }
        self.bits % SIGN_MASK > EXP_SPECIAL * FRAC_WEIGHT
    }

    /// True iff the value is one of the two infinities: there is exactly
    /// one positive and one negative infinite pattern.
    pub fn is_infinite(&self) -> (r: bool)
        ensures
            r == is_inf_bits(self.bits),
    {
        proof {
            lemma_mag_order(self.bits);
        }
        self.bits % SIGN_MASK == EXP_SPECIAL * FRAC_WEIGHT
    }

    /// True iff the value is neither infinite nor a NaN.
    pub fn is_finite(&self) -> (r: bool)
        ensures
            r == (!is_nan_bits(self.bits) && !is_inf_bits(self.bits)),
            r == (exp_of(self.bits) != EXP_SPECIAL),
    {
        !self.is_infinite() && !self.is_nan()
    }

    /// True iff the value is a normal number: neither zero, subnormal,
    /// infinite nor NaN.
    pub fn is_normal(&self) -> (r: bool)
        ensures
            r == (1 <= exp_of(self.bits) < EXP_SPECIAL),
    {
        let e = self.exp_bits();
        e >= 1 && e <= 0x7FFE
    }

    /// True iff the sign bit is set; this distinguishes the negative zero
    /// from the positive one.
    pub fn is_sign_negative(self) -> (r: bool)
        ensures
            r == sign_of(self.bits),
    {
        self.bits >= SIGN_MASK
    }

    /// True iff the sign bit is clear.
    pub fn is_sign_positive(self) -> (r: bool)
        ensures
            r == !sign_of(self.bits),
    {
        !self.is_sign_negative()
    }

    /// The category of the value, decided in the fixed precedence NaN,
    /// Infinite, Normal, Subnormal, Zero, so that the all-zero exponent
    /// with an all-zero fraction is reported Zero, never Subnormal.
    pub fn classify(&self) -> (r: FpCategory)
        ensures
            r == category_of(self.bits),
    {
        if self.is_nan() {
            FpCategory::Nan
        } else if self.is_infinite() {
            FpCategory::Infinite
        } else if self.is_normal() {
            FpCategory::Normal
        } else if self.fract_bits() != 0 {
            FpCategory::Subnormal
        } else {
            FpCategory::Zero
        }
    }

    /// The value with the sign bit cleared.
    pub fn abs(self) -> (r: Quad)
        ensures
            r.bits == mag_bits(self.bits),
            exp_of(r.bits) == exp_of(self.bits),
            frac_of(r.bits) == frac_of(self.bits),
            !sign_of(r.bits),
    {
        proof {
            lemma_mag_fields(self.bits);
        }
        Quad { bits: self.bits % SIGN_MASK }
    }

    /// The sign of the value as a value: one with the operand's sign for
    /// anything that is not a NaN, and NaN for a NaN.
    pub fn signum(self) -> (r: Quad)
        ensures
            is_nan_bits(self.bits) ==> r.bits == NAN_BITS,
            !is_nan_bits(self.bits) && !sign_of(self.bits) ==> r.bits == ONE_BITS,
            !is_nan_bits(self.bits) && sign_of(self.bits) ==> r.bits == NEG_ONE_BITS,
    {
        if self.is_nan() {
            Quad { bits: NAN_BITS }
        } else if self.is_sign_negative() {
            Quad { bits: NEG_ONE_BITS }
        } else {
            Quad { bits: ONE_BITS }
        }
    }
}

impl PartialEq for Quad {
    /// Floating-point equality: NaN equals nothing, the two zeros equal
    /// each other, and any other value equals its own pattern only.
    fn eq(&self, other: &Quad) -> (r: bool) {
        if self.is_nan() || other.is_nan() {
            false
        } else if self.abs().bits == 0 && other.abs().bits == 0 {
            true
        } else {
            self.bits == other.bits
        }
    }
}

impl vstd::std_specs::cmp::PartialEqSpecImpl for Quad {
    open spec fn obeys_eq_spec() -> bool {
        true
    }

    open spec fn eq_spec(&self, other: &Quad) -> bool {
        float_eq(self.bits, other.bits)
    }
}

/// A NaN pattern never equals itself: the one value the equality relation
/// is not reflexive on.
pub proof fn lemma_nan_not_equal(a: u128, b: u128)
    requires
        is_nan_bits(a) || is_nan_bits(b),
    ensures
        !float_eq(a, b),
{
}

/// The two zero patterns compare equal while staying bit-distinct, and
/// only the negative one reports a negative sign.
pub proof fn lemma_signed_zeros()
    ensures
        category_of(0) == FpCategory::Zero,
        category_of(SIGN_MASK) == FpCategory::Zero,
        float_eq(0, SIGN_MASK),
        !sign_of(0),
        sign_of(SIGN_MASK),
{
    lemma_fields(true, 0, 0);
    assert(SIGN_MASK == crate::fields_to_bits(true, 0, 0));
}

/// Every pattern with an all-ones exponent and a nonzero fraction is a
/// NaN, whatever the fraction payload; the all-ones exponent with a zero
/// fraction is infinite.
pub proof fn lemma_special_exponent(bits: u128)
    requires
        exp_of(bits) == EXP_SPECIAL,
    ensures
        frac_of(bits) != 0 ==> category_of(bits) == FpCategory::Nan,
        frac_of(bits) == 0 ==> category_of(bits) == FpCategory::Infinite,
{
}

/// The smallest positive pattern, exponent zero with fraction one, is
/// subnormal.
pub proof fn lemma_smallest_subnormal()
    ensures
        category_of(1) == FpCategory::Subnormal,
{
    lemma_fields(false, 0, 1);
    assert(1u128 == crate::fields_to_bits(false, 0, 1));
}

} // verus!
