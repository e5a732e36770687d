//! A software binary128 ("quad") floating-point value type: the canonical
//! bit layout, byte-order interchange, classification of special values,
//! bit-exact integer and float-bit conversions, named constants, a decimal
//! string codec, and the contract of the arithmetic backend that performs
//! rounding arithmetic on these values.

use vstd::prelude::*;

pub mod arith;
pub mod bignum;
pub mod classify;
pub mod codec;
pub mod consts;
pub mod convert;
pub mod fbits;
pub mod layout;

verus! {

/// 2^127: mask of the sign bit in the canonical 128-bit encoding.
pub const SIGN_MASK: u128 = 0x8000_0000_0000_0000_0000_0000_0000_0000;

/// 2^112: the weight of the least significant exponent bit; the fraction
/// field occupies the 112 bits below it.
pub const FRAC_WEIGHT: u128 = 0x1_0000_0000_0000_0000_0000_0000_0000;

/// Mask of the 112 explicit fraction bits.
pub const FRAC_MASK: u128 = 0x0000_FFFF_FFFF_FFFF_FFFF_FFFF_FFFF_FFFF;

/// All ones in the 15-bit exponent field: the raw exponent of infinities
/// and NaNs.
pub const EXP_SPECIAL: u128 = 0x7FFF;

/// The exponent bias of the binary128 format.
pub const EXP_BIAS: u128 = 16383;

/// A 128-bit quadruple-precision floating-point value in the canonical
/// binary128 layout: 1 sign bit, 15 exponent bits (bias 16383), and 112
/// explicit fraction bits. Every bit pattern is a legal `Quad`; the type
/// is an immutable value with no hidden state.
#[derive(Clone, Copy, Debug)]
pub struct Quad {
    /// The canonical (logical) bit pattern: the sign bit is the most
    /// significant bit of the integer and the fraction field the least
    /// significant 112 bits.
    pub bits: u128,
}

/// The sign bit of a canonical bit pattern: true means negative.
pub open spec fn sign_of(bits: u128) -> bool {
    bits >= SIGN_MASK
}

/// The raw 15-bit exponent field of a canonical bit pattern.
pub open spec fn exp_of(bits: u128) -> u128 {
    (bits / FRAC_WEIGHT) % 0x8000
}

/// The raw 112-bit fraction field of a canonical bit pattern.
pub open spec fn frac_of(bits: u128) -> u128 {
    bits % FRAC_WEIGHT
}

/// The canonical bit pattern assembled from the three fields.
pub open spec fn fields_to_bits(sign: bool, exp: u128, frac: u128) -> u128
    recommends
        exp < 0x8000,
        frac < FRAC_WEIGHT,
{
    ((if sign { SIGN_MASK } else { 0 }) + exp * FRAC_WEIGHT + frac) as u128
}

/// Assembling three in-range fields and taking them apart again returns
/// the fields; conversely every pattern is the assembly of its fields.
pub proof fn lemma_fields(sign: bool, exp: u128, frac: u128)
    requires
        exp < 0x8000,
        frac < FRAC_WEIGHT,
    ensures
        sign_of(fields_to_bits(sign, exp, frac)) == sign,
        exp_of(fields_to_bits(sign, exp, frac)) == exp,
        frac_of(fields_to_bits(sign, exp, frac)) == frac,
{
    let s: u128 = if sign { 1 } else { 0 };
    let bits = fields_to_bits(sign, exp, frac);
    assert(bits == (s * 0x8000 + exp) * FRAC_WEIGHT + frac) by (nonlinear_arith)
        requires
            s == (if sign { 1u128 } else { 0u128 }),
            exp < 0x8000,
            frac < FRAC_WEIGHT,
            bits == (if sign { SIGN_MASK } else { 0 }) + exp * FRAC_WEIGHT + frac,
    ;
    vstd::arithmetic::div_mod::lemma_fundamental_div_mod_converse(
        bits as int,
        FRAC_WEIGHT as int,
        (s * 0x8000 + exp) as int,
        frac as int,
    );
    vstd::arithmetic::div_mod::lemma_fundamental_div_mod_converse(
        (s * 0x8000 + exp) as int,
        0x8000,
        s as int,
        exp as int,
    );
    assert(bits / FRAC_WEIGHT == s * 0x8000 + exp);
    assert((s * 0x8000 + exp) % 0x8000 == exp);
    if sign {
        assert(bits >= SIGN_MASK);
    } else {
        assert(bits < SIGN_MASK) by (nonlinear_arith)
            requires
                exp < 0x8000,
                frac < FRAC_WEIGHT,
                bits == exp * FRAC_WEIGHT + frac,
        ;
    }
}

/// Every bit pattern is the assembly of its own three fields.
pub proof fn lemma_bits_to_fields(bits: u128)
    ensures
        exp_of(bits) < 0x8000,
        frac_of(bits) < FRAC_WEIGHT,
        fields_to_bits(sign_of(bits), exp_of(bits), frac_of(bits)) == bits,
{
    let q = bits / FRAC_WEIGHT;
    vstd::arithmetic::div_mod::lemma_fundamental_div_mod(bits as int, FRAC_WEIGHT as int);
    vstd::arithmetic::div_mod::lemma_fundamental_div_mod(q as int, 0x8000);
    assert(q < 0x10000) by (nonlinear_arith)
        requires
            q == bits / FRAC_WEIGHT,
    ;
    let hi = q / 0x8000;
    assert(hi == 0 || hi == 1);
    assert(bits == (hi * 0x8000 + exp_of(bits)) * FRAC_WEIGHT + frac_of(bits)) by (nonlinear_arith)
        requires
            bits == q * FRAC_WEIGHT + frac_of(bits),
            q == hi * 0x8000 + exp_of(bits),
    ;
    if hi == 1 {
        assert(bits >= SIGN_MASK) by (nonlinear_arith)
            requires
                bits == (1 as u128 * 0x8000 + exp_of(bits)) * FRAC_WEIGHT + frac_of(bits),
    ;
    } else {
        assert(bits < SIGN_MASK) by (nonlinear_arith)
            requires
                bits == (0 as u128 * 0x8000 + exp_of(bits)) * FRAC_WEIGHT + frac_of(bits),
                exp_of(bits) < 0x8000,
                frac_of(bits) < FRAC_WEIGHT,
        ;
    }
}

} // verus!
