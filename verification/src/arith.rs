//! The arithmetic facade. The rounding arithmetic itself is performed by
//! an external numeric backend: any implementation of `QuadBackend` that
//! computes IEEE-754 binary128 results, rounded to nearest even, on the
//! canonical bit patterns of this crate. The trait's contracts state the
//! finitely expressible part of that obligation — NaN propagation, the
//! arithmetic-on-infinity rules, the exact identities, the integrality
//! and exact magnitude of the integral-rounding family, and the
//! exactness of operations whose true result is a representable integer.
//! The fractional part needs no backend at all and is computed and
//! proved here.

use crate::classify::{is_inf_bits, is_nan_bits, is_zero_bits};
use crate::consts::{NAN_BITS, ONE_BITS};
use crate::convert::{
    bitlen_exec,
    encodes_int,
    is_integral_bits,
    lemma_pow2_quad,
    mag_is,
    pow2_exec,
    round_away_mag,
    scale_of,
    scaled_eq,
    sig_of,
    trunc_mag,
};
use crate::{exp_of, lemma_fields, sign_of, Quad};
use crate::{EXP_SPECIAL, FRAC_MASK, FRAC_WEIGHT, SIGN_MASK};
use vstd::arithmetic::power2::{lemma2_to64, lemma_pow2_adds, lemma_pow2_pos, pow2};
use vstd::prelude::*;

verus! {

/// `m` squared, named so that contracts can quantify over exact square
/// roots.
pub open spec fn square_of(m: nat) -> nat {
    m * m
}

/// The fractional tail of a finite pattern: the significand bits below
/// the binary point, 0 for an integer-valued pattern.
pub open spec fn fract_num(bits: u128) -> nat {
    let s = scale_of(bits);
    if s >= 0 {
        0
    } else {
        sig_of(bits) % pow2((-s) as nat)
    }
}

/// The contract an external binary128 arithmetic kernel must satisfy.
/// Every operation takes and returns values in the canonical bit layout
/// and computes the IEEE-754 result rounded to nearest even; the clauses
/// state the part of that obligation expressible without real-valued
/// rounding: NaN propagation, the arithmetic-on-infinity rules, the
/// bit-exact identities, and exactness wherever the true result is a
/// representable integer.
pub trait QuadBackend {
    /// IEEE-754 addition: infinities absorb finite addends, and opposing
    /// infinities give NaN.
    fn add(&self, a: Quad, b: Quad) -> (r: Quad)
        ensures
            is_nan_bits(a.bits) || is_nan_bits(b.bits) ==> is_nan_bits(r.bits),
            is_inf_bits(a.bits) && is_inf_bits(b.bits) && sign_of(a.bits) == sign_of(b.bits)
                ==> r.bits == a.bits,
            is_inf_bits(a.bits) && is_inf_bits(b.bits) && sign_of(a.bits) != sign_of(b.bits)
                ==> is_nan_bits(r.bits),
            is_inf_bits(a.bits) && !is_nan_bits(b.bits) && !is_inf_bits(b.bits) ==> r.bits
                == a.bits,
            is_inf_bits(b.bits) && !is_nan_bits(a.bits) && !is_inf_bits(a.bits) ==> r.bits
                == b.bits,
    ;

    /// IEEE-754 subtraction: like infinities give NaN, an infinite
    /// subtrahend flips its sign.
    fn sub(&self, a: Quad, b: Quad) -> (r: Quad)
        ensures
            is_nan_bits(a.bits) || is_nan_bits(b.bits) ==> is_nan_bits(r.bits),
            is_inf_bits(a.bits) && is_inf_bits(b.bits) && sign_of(a.bits) == sign_of(b.bits)
                ==> is_nan_bits(r.bits),
            is_inf_bits(a.bits) && is_inf_bits(b.bits) && sign_of(a.bits) != sign_of(b.bits)
                ==> r.bits == a.bits,
            is_inf_bits(a.bits) && !is_nan_bits(b.bits) && !is_inf_bits(b.bits) ==> r.bits
                == a.bits,
            is_inf_bits(b.bits) && !is_nan_bits(a.bits) && !is_inf_bits(a.bits) ==> is_inf_bits(
                r.bits,
            ) && sign_of(r.bits) == !sign_of(b.bits),
    ;

    /// IEEE-754 multiplication: multiplying by one is exact, an infinity
    /// times a nonzero value is an infinity of the product sign, an
    /// infinity times a zero is NaN, and a product that is an integer of
    /// at most 113 bits is exact.
    fn mul(&self, a: Quad, b: Quad) -> (r: Quad)
        ensures
            is_nan_bits(a.bits) || is_nan_bits(b.bits) ==> is_nan_bits(r.bits),
            !is_nan_bits(a.bits) && b.bits == ONE_BITS ==> r.bits == a.bits,
            !is_nan_bits(b.bits) && a.bits == ONE_BITS ==> r.bits == b.bits,
            is_inf_bits(a.bits) && is_zero_bits(b.bits) ==> is_nan_bits(r.bits),
            is_zero_bits(a.bits) && is_inf_bits(b.bits) ==> is_nan_bits(r.bits),
            is_inf_bits(a.bits) && !is_nan_bits(b.bits) && !is_zero_bits(b.bits) ==> is_inf_bits(
                r.bits,
            ) && sign_of(r.bits) == (sign_of(a.bits) != sign_of(b.bits)),
            is_inf_bits(b.bits) && !is_nan_bits(a.bits) && !is_zero_bits(a.bits) ==> is_inf_bits(
                r.bits,
            ) && sign_of(r.bits) == (sign_of(a.bits) != sign_of(b.bits)),
            forall|x: int, y: int|
                #[trigger] encodes_int(a.bits, x) && #[trigger] encodes_int(b.bits, y) && x != 0
                    && y != 0 && -2 * (FRAC_WEIGHT as int) < x * y < 2 * (FRAC_WEIGHT as int)
                    ==> encodes_int(r.bits, x * y),
    ;

    /// IEEE-754 division: dividing by one is exact, a finite nonzero
    /// value divided by itself is one, a finite value over an infinity is
    /// the zero of the quotient sign, and an infinite or zero divisor
    /// follows the IEEE rules.
    fn div(&self, a: Quad, b: Quad) -> (r: Quad)
        ensures
            is_nan_bits(a.bits) || is_nan_bits(b.bits) ==> is_nan_bits(r.bits),
            !is_nan_bits(a.bits) && b.bits == ONE_BITS ==> r.bits == a.bits,
            a.bits == b.bits && !is_nan_bits(a.bits) && !is_inf_bits(a.bits) && !is_zero_bits(
                a.bits,
            ) ==> r.bits == ONE_BITS,
            !is_nan_bits(a.bits) && !is_inf_bits(a.bits) && is_inf_bits(b.bits) ==> r.bits == (
            if sign_of(a.bits) != sign_of(b.bits) {
                SIGN_MASK
            } else {
                0
            }),
            is_inf_bits(a.bits) && !is_nan_bits(b.bits) && !is_inf_bits(b.bits) ==> is_inf_bits(
                r.bits,
            ) && sign_of(r.bits) == (sign_of(a.bits) != sign_of(b.bits)),
            !is_nan_bits(a.bits) && !is_inf_bits(a.bits) && !is_zero_bits(a.bits) && is_zero_bits(
                b.bits,
            ) ==> is_inf_bits(r.bits) && sign_of(r.bits) == (sign_of(a.bits) != sign_of(b.bits)),
            is_zero_bits(a.bits) && is_zero_bits(b.bits) ==> is_nan_bits(r.bits),
            is_inf_bits(a.bits) && is_inf_bits(b.bits) ==> is_nan_bits(r.bits),
    ;

    /// IEEE-754 remainder of the truncating kind: a finite value is left
    /// unchanged by an infinite divisor, an infinite dividend or a zero
    /// divisor gives NaN.
    fn rem(&self, a: Quad, b: Quad) -> (r: Quad)
        ensures
            is_nan_bits(a.bits) || is_nan_bits(b.bits) ==> is_nan_bits(r.bits),
            !is_nan_bits(a.bits) && !is_inf_bits(a.bits) && is_inf_bits(b.bits) ==> r.bits
                == a.bits,
            is_inf_bits(a.bits) && !is_nan_bits(b.bits) ==> is_nan_bits(r.bits),
            !is_nan_bits(a.bits) && !is_inf_bits(a.bits) && is_zero_bits(b.bits) ==> is_nan_bits(
                r.bits,
            ),
    ;

    /// IEEE-754 fused multiply-add: `a * b + c` with a single rounding,
    /// so a result that is an integer of at most 113 bits is exact
    /// whatever the size of the intermediate product.
    fn fma(&self, a: Quad, b: Quad, c: Quad) -> (r: Quad)
        ensures
            is_nan_bits(a.bits) || is_nan_bits(b.bits) || is_nan_bits(c.bits) ==> is_nan_bits(
                r.bits,
            ),
            forall|x: int, y: int, z: int|
                #[trigger] encodes_int(a.bits, x) && #[trigger] encodes_int(b.bits, y)
                    && #[trigger] encodes_int(c.bits, z) && -2 * (FRAC_WEIGHT as int) < x * y + z
                    < 2 * (FRAC_WEIGHT as int) && x * y + z != 0 ==> encodes_int(r.bits, x * y + z),
    ;

    /// IEEE-754 square root: NaN for a negative nonzero operand, finite
    /// nonnegative for a finite nonnegative operand, and exact on every
    /// representable perfect square.
    fn sqrt(&self, a: Quad) -> (r: Quad)
        ensures
            is_nan_bits(a.bits) ==> is_nan_bits(r.bits),
            sign_of(a.bits) && !is_zero_bits(a.bits) && !is_nan_bits(a.bits) ==> is_nan_bits(
                r.bits,
            ),
            a.bits == ONE_BITS ==> r.bits == ONE_BITS,
            is_zero_bits(a.bits) ==> r.bits == a.bits,
            is_inf_bits(a.bits) && !sign_of(a.bits) ==> r.bits == a.bits,
            !sign_of(a.bits) && !is_nan_bits(a.bits) && !is_inf_bits(a.bits) ==> !is_nan_bits(
                r.bits,
            ) && !is_inf_bits(r.bits) && !sign_of(r.bits),
            forall|m: nat|
                #[trigger] encodes_int(a.bits, square_of(m) as int) && m != 0 ==> encodes_int(
                    r.bits,
                    m as int,
                ),
    ;

    /// IEEE-754 power: any base raised to a zero exponent is one, and to
    /// the exponent one is itself.
    fn pow(&self, a: Quad, b: Quad) -> (r: Quad)
        ensures
            is_zero_bits(b.bits) ==> r.bits == ONE_BITS,
            !is_nan_bits(a.bits) && b.bits == ONE_BITS ==> r.bits == a.bits,
            !is_zero_bits(b.bits) && (is_nan_bits(a.bits) || is_nan_bits(b.bits)) ==> is_nan_bits(
                r.bits,
            ),
    ;

    /// IEEE-754 exponential: one at zero, zero at negative infinity,
    /// infinite at positive infinity.
    fn exp(&self, a: Quad) -> (r: Quad)
        ensures
            is_nan_bits(a.bits) ==> is_nan_bits(r.bits),
            is_zero_bits(a.bits) ==> r.bits == ONE_BITS,
            is_inf_bits(a.bits) && sign_of(a.bits) ==> r.bits == 0,
            is_inf_bits(a.bits) && !sign_of(a.bits) ==> r.bits == a.bits,
    ;

    /// Largest integral value not above the operand: an integral result
    /// of the operand's sign whose magnitude is the truncated magnitude,
    /// plus one for a negative non-integral operand.
    fn floor(&self, a: Quad) -> (r: Quad)
        ensures
            is_nan_bits(a.bits) ==> is_nan_bits(r.bits),
            is_inf_bits(a.bits) ==> r.bits == a.bits,
            !is_nan_bits(a.bits) && !is_inf_bits(a.bits) ==> is_integral_bits(r.bits)
                && !is_inf_bits(r.bits) && sign_of(r.bits) == sign_of(a.bits) && mag_is(
                r.bits,
                if !sign_of(a.bits) || is_integral_bits(a.bits) {
                    trunc_mag(a.bits)
                } else {
                    trunc_mag(a.bits) + 1
                },
            ),
    ;

    /// Smallest integral value not below the operand; the mirror of
    /// `floor`.
    fn ceil(&self, a: Quad) -> (r: Quad)
        ensures
            is_nan_bits(a.bits) ==> is_nan_bits(r.bits),
            is_inf_bits(a.bits) ==> r.bits == a.bits,
            !is_nan_bits(a.bits) && !is_inf_bits(a.bits) ==> is_integral_bits(r.bits)
                && !is_inf_bits(r.bits) && sign_of(r.bits) == sign_of(a.bits) && mag_is(
                r.bits,
                if sign_of(a.bits) || is_integral_bits(a.bits) {
                    trunc_mag(a.bits)
                } else {
                    trunc_mag(a.bits) + 1
                },
            ),
    ;

    /// Nearest integral value, ties away from zero.
    fn round(&self, a: Quad) -> (r: Quad)
        ensures
            is_nan_bits(a.bits) ==> is_nan_bits(r.bits),
            is_inf_bits(a.bits) ==> r.bits == a.bits,
            !is_nan_bits(a.bits) && !is_inf_bits(a.bits) ==> is_integral_bits(r.bits)
                && !is_inf_bits(r.bits) && sign_of(r.bits) == sign_of(a.bits) && mag_is(
                r.bits,
                round_away_mag(a.bits),
            ),
    ;

    /// The integral part: rounding toward zero.
    fn trunc(&self, a: Quad) -> (r: Quad)
        ensures
            is_nan_bits(a.bits) ==> is_nan_bits(r.bits),
            is_inf_bits(a.bits) ==> r.bits == a.bits,
            !is_nan_bits(a.bits) && !is_inf_bits(a.bits) ==> is_integral_bits(r.bits)
                && !is_inf_bits(r.bits) && sign_of(r.bits) == sign_of(a.bits) && mag_is(
                r.bits,
                trunc_mag(a.bits),
            ),
    ;
}

impl Quad {
    /// `self * a + b` with a single rounding, through the backend;
    /// exact whenever the fused result is an integer of at most 113
    /// bits.
    pub fn mul_add<B: QuadBackend>(self, a: Quad, b: Quad, backend: &B) -> (r: Quad)
        ensures
            is_nan_bits(self.bits) || is_nan_bits(a.bits) || is_nan_bits(b.bits) ==> is_nan_bits(
                r.bits,
            ),
            forall|x: int, y: int, z: int|
                #[trigger] encodes_int(self.bits, x) && #[trigger] encodes_int(a.bits, y)
                    && #[trigger] encodes_int(b.bits, z) && -2 * (FRAC_WEIGHT as int) < x * y + z
                    < 2 * (FRAC_WEIGHT as int) && x * y + z != 0 ==> encodes_int(r.bits, x * y + z),
    {
        backend.fma(self, a, b)
    }

    /// The reciprocal, one divided by the value: exactly one at one,
    /// the zero of the operand's sign at an infinity, the infinity of
    /// the operand's sign at a zero.
    pub fn recip<B: QuadBackend>(self, backend: &B) -> (r: Quad)
        ensures
            is_nan_bits(self.bits) ==> is_nan_bits(r.bits),
            self.bits == ONE_BITS ==> r.bits == ONE_BITS,
            is_inf_bits(self.bits) ==> r.bits == (if sign_of(self.bits) {
                SIGN_MASK
            } else {
                0
            }),
            is_zero_bits(self.bits) ==> is_inf_bits(r.bits) && sign_of(r.bits) == sign_of(
                self.bits,
            ),
    {
        let r = backend.div(Quad::one(), self);
        proof {
            lemma_fields(false, 16383, 0);
            assert(ONE_BITS == crate::fields_to_bits(false, 16383, 0));
        }
        r
    }

    /// The value raised to a floating-point exponent.
    pub fn powf<B: QuadBackend>(self, n: Quad, backend: &B) -> (r: Quad)
        ensures
            is_zero_bits(n.bits) ==> r.bits == ONE_BITS,
            !is_nan_bits(self.bits) && n.bits == ONE_BITS ==> r.bits == self.bits,
            !is_zero_bits(n.bits) && (is_nan_bits(self.bits) || is_nan_bits(n.bits))
                ==> is_nan_bits(r.bits),
    {
        backend.pow(self, n)
    }

    /// The square root: NaN for a negative nonzero operand, finite
    /// nonnegative on finite nonnegative operands, exact on perfect
    /// squares.
    pub fn sqrt<B: QuadBackend>(self, backend: &B) -> (r: Quad)
        ensures
            is_nan_bits(self.bits) ==> is_nan_bits(r.bits),
            sign_of(self.bits) && !is_zero_bits(self.bits) && !is_nan_bits(self.bits)
                ==> is_nan_bits(r.bits),
            is_zero_bits(self.bits) ==> r.bits == self.bits,
            is_inf_bits(self.bits) && !sign_of(self.bits) ==> r.bits == self.bits,
            !sign_of(self.bits) && !is_nan_bits(self.bits) && !is_inf_bits(self.bits)
                ==> !is_nan_bits(r.bits) && !is_inf_bits(r.bits) && !sign_of(r.bits),
            forall|m: nat|
                #[trigger] encodes_int(self.bits, square_of(m) as int) && m != 0 ==> encodes_int(
                    r.bits,
                    m as int,
                ),
    {
        backend.sqrt(self)
    }

    /// The exponential of the value.
    pub fn exp<B: QuadBackend>(self, backend: &B) -> (r: Quad)
        ensures
            is_nan_bits(self.bits) ==> is_nan_bits(r.bits),
            is_zero_bits(self.bits) ==> r.bits == ONE_BITS,
            is_inf_bits(self.bits) && sign_of(self.bits) ==> r.bits == 0,
            is_inf_bits(self.bits) && !sign_of(self.bits) ==> r.bits == self.bits,
    {
        backend.exp(self)
    }

    /// Two raised to the value.
    pub fn exp2<B: QuadBackend>(self, backend: &B) -> (r: Quad)
        ensures
            is_zero_bits(self.bits) ==> r.bits == ONE_BITS,
            !is_zero_bits(self.bits) && is_nan_bits(self.bits) ==> is_nan_bits(r.bits),
    {
        backend.pow(Quad::two(), self)
    }

    /// Largest integral value not above this one.
    pub fn floor<B: QuadBackend>(self, backend: &B) -> (r: Quad)
        ensures
            is_nan_bits(self.bits) ==> is_nan_bits(r.bits),
            is_inf_bits(self.bits) ==> r.bits == self.bits,
            !is_nan_bits(self.bits) && !is_inf_bits(self.bits) ==> is_integral_bits(r.bits)
                && !is_inf_bits(r.bits) && sign_of(r.bits) == sign_of(self.bits) && mag_is(
                r.bits,
                if !sign_of(self.bits) || is_integral_bits(self.bits) {
                    trunc_mag(self.bits)
                } else {
                    trunc_mag(self.bits) + 1
                },
            ),
    {
        backend.floor(self)
    }

    /// Smallest integral value not below this one.
    pub fn ceil<B: QuadBackend>(self, backend: &B) -> (r: Quad)
        ensures
            is_nan_bits(self.bits) ==> is_nan_bits(r.bits),
            is_inf_bits(self.bits) ==> r.bits == self.bits,
            !is_nan_bits(self.bits) && !is_inf_bits(self.bits) ==> is_integral_bits(r.bits)
                && !is_inf_bits(r.bits) && sign_of(r.bits) == sign_of(self.bits) && mag_is(
                r.bits,
                if sign_of(self.bits) || is_integral_bits(self.bits) {
                    trunc_mag(self.bits)
                } else {
                    trunc_mag(self.bits) + 1
                },
            ),
    {
        backend.ceil(self)
    }

    /// Nearest integral value, ties away from zero.
    pub fn round<B: QuadBackend>(self, backend: &B) -> (r: Quad)
        ensures
            is_nan_bits(self.bits) ==> is_nan_bits(r.bits),
            is_inf_bits(self.bits) ==> r.bits == self.bits,
            !is_nan_bits(self.bits) && !is_inf_bits(self.bits) ==> is_integral_bits(r.bits)
                && !is_inf_bits(r.bits) && sign_of(r.bits) == sign_of(self.bits) && mag_is(
                r.bits,
                round_away_mag(self.bits),
            ),
    {
        backend.round(self)
    }

    /// The integral part of the value, rounded toward zero.
    pub fn trunc<B: QuadBackend>(self, backend: &B) -> (r: Quad)
        ensures
            is_nan_bits(self.bits) ==> is_nan_bits(r.bits),
            is_inf_bits(self.bits) ==> r.bits == self.bits,
            !is_nan_bits(self.bits) && !is_inf_bits(self.bits) ==> is_integral_bits(r.bits)
                && !is_inf_bits(r.bits) && sign_of(r.bits) == sign_of(self.bits) && mag_is(
                r.bits,
                trunc_mag(self.bits),
            ),
    {
        backend.trunc(self)
    }

    /// The fractional part: the value with the bits at and above the
    /// binary point cleared and renormalized, exactly; an integral value
    /// gives the zero of its sign, an infinity gives NaN, a NaN passes
    /// through. Computed here bit for bit — no backend is involved.
    pub fn fract(self) -> (r: Quad)
        ensures
            is_nan_bits(self.bits) ==> r.bits == self.bits,
            is_inf_bits(self.bits) ==> is_nan_bits(r.bits),
            !is_nan_bits(self.bits) && !is_inf_bits(self.bits) ==> !is_nan_bits(r.bits)
                && !is_inf_bits(r.bits) && sign_of(r.bits) == sign_of(self.bits) && exp_of(r.bits)
                < 16383,
            !is_nan_bits(self.bits) && !is_inf_bits(self.bits) && is_integral_bits(self.bits)
                ==> r.bits == (if sign_of(self.bits) {
                SIGN_MASK
            } else {
                0
            }),
            !is_nan_bits(self.bits) && !is_inf_bits(self.bits) && !is_integral_bits(self.bits)
                ==> scaled_eq(
                sig_of(r.bits),
                scale_of(r.bits),
                fract_num(self.bits),
                scale_of(self.bits),
            ),
    {
        proof {
            lemma2_to64();
            lemma_pow2_quad();
            crate::lemma_bits_to_fields(self.bits);
        }
        let e = self.exp_bits();
        let frac = self.fract_bits();
        let neg = self.is_sign_negative();
        let s_mask: u128 = if neg {
            SIGN_MASK
        } else {
            0
        };
        proof {
            lemma_fields(neg, 0, 0);
        }
        if e == 0x7FFF {
            if frac != 0 {
                return self;
            }
            proof {
                lemma_fields(false, EXP_SPECIAL, FRAC_MASK);
                assert(NAN_BITS == crate::fields_to_bits(false, EXP_SPECIAL, FRAC_MASK));
            }
            return Quad { bits: NAN_BITS };
        }
        if e >= 16495 {
            // The scale is nonnegative: the value is integral.
            return Quad { bits: s_mask };
        }
        if e < 16383 {
            // The whole significand lies below the binary point.
            if e == 0 && frac == 0 {
                proof {
                    let s = scale_of(self.bits);
                    lemma_pow2_pos((-s) as nat);
                    assert(sig_of(self.bits) == 0);
                    assert(is_integral_bits(self.bits));
                }
                return Quad { bits: s_mask };
            }
            proof {
                let s = scale_of(self.bits);
                assert(-s >= 113);
                assert(sig_of(self.bits) < pow2(113));
                if -s > 113 {
                    vstd::arithmetic::power2::lemma_pow2_strictly_increases(113, (-s) as nat);
                }
                lemma_pow2_pos((-s) as nat);
                vstd::arithmetic::div_mod::lemma_small_mod(sig_of(self.bits), pow2((-s) as nat));
                assert(sig_of(self.bits) > 0);
                assert(fract_num(self.bits) == sig_of(self.bits));
                assert(sig_of(self.bits) * pow2(0) == fract_num(self.bits)) by (nonlinear_arith)
                    requires
                        fract_num(self.bits) == sig_of(self.bits),
                        pow2(0) == 1,
                ;
                assert(scaled_eq(sig_of(self.bits), s, fract_num(self.bits), s));
            }
            return self;
        }
        // 16383 <= e < 16495: the scale s satisfies -112 <= s < 0.
        let sh: u32 = 16495 - e;
        proof {
            lemma_pow2_pos(sh as nat);
        }
        let p = pow2_exec(sh);
        let fr = frac % p;
        proof {
            let s = scale_of(self.bits);
            assert(-s == sh);
            lemma_pow2_adds((112 - sh) as nat, sh as nat);
            assert(p * pow2((112 - sh) as nat) == pow2(112)) by (nonlinear_arith)
                requires
                    pow2((112 - sh) as nat) * pow2(sh as nat) == pow2(112),
                    p == pow2(sh as nat),
            ;
            vstd::arithmetic::div_mod::lemma_mod_multiples_vanish(
                pow2((112 - sh) as nat) as int,
                frac as int,
                p as int,
            );
            assert((p * pow2((112 - sh) as nat) + frac) % (p as int) == (frac as int) % (p as int));
            assert(sig_of(self.bits) == pow2(112) + frac);
            assert(fract_num(self.bits) == fr);
        }
        if fr == 0 {
            return Quad { bits: s_mask };
        }
        let l = bitlen_exec(fr);
        proof {
            crate::convert::lemma_bitlen_bounds(fr as nat);
            crate::convert::lemma_bitlen_le(fr as nat, sh as nat);
            lemma_pow2_pos((113 - l) as nat);
            lemma_pow2_adds((l - 1) as nat, (113 - l) as nat);
            lemma_pow2_adds(l as nat, (113 - l) as nat);
            assert(fr * pow2((113 - l) as nat) < pow2(113) && fr * pow2((113 - l) as nat) >= pow2(
                112,
            )) by (nonlinear_arith)
                requires
                    pow2((l - 1) as nat) <= fr < pow2(l as nat),
                    pow2((l - 1) as nat) * pow2((113 - l) as nat) == pow2(112),
                    pow2(l as nat) * pow2((113 - l) as nat) == pow2(113),
                    pow2((113 - l) as nat) > 0,
            ;
        }
        let sig2 = fr * pow2_exec(113 - l);
        let e2: u128 = (l + e - 113) as u128;
        proof {
            lemma_fields(neg, e2, (sig2 - FRAC_WEIGHT) as u128);
            let bits2 = crate::fields_to_bits(neg, e2, (sig2 - FRAC_WEIGHT) as u128);
            assert(sig_of(bits2) == sig2);
            assert(scale_of(bits2) == e2 - 16495);
            assert(scale_of(self.bits) - scale_of(bits2) == 113 - l);
            assert((fr as nat) * pow2((113 - l) as nat) == sig_of(bits2));
            assert(scaled_eq(sig_of(bits2), scale_of(bits2), fr as nat, scale_of(self.bits)));
        }
        Quad { bits: s_mask + e2 * FRAC_WEIGHT + (sig2 - FRAC_WEIGHT) }
    }

    /// The value raised to an integer exponent, by squaring: the zeroth
    /// power is exactly one and the first power is the value itself; a
    /// negative exponent gives the reciprocal of the positive power.
    pub fn powi<B: QuadBackend>(self, n: i32, backend: &B) -> (r: Quad)
        ensures
            n == 0 ==> r.bits == ONE_BITS,
            n == 1 ==> r == self,
            n != 0 && is_nan_bits(self.bits) ==> is_nan_bits(r.bits),
    {
        if n == 0 {
            return Quad::one();
        }
        let mag: u64 = if n < 0 {
            (-(n as i64)) as u64
        } else {
            n as u64
        };
        let p = pow_by_squaring(self, mag, backend);
        if n > 0 {
            p
        } else {
            backend.div(Quad::one(), p)
        }
    }
}

/// `x` raised to the positive power `m` by binary exponentiation; the
/// first power returns `x` itself, bit for bit.
fn pow_by_squaring<B: QuadBackend>(x: Quad, m: u64, backend: &B) -> (r: Quad)
    requires
        m >= 1,
    ensures
        m == 1 ==> r == x,
        is_nan_bits(x.bits) ==> is_nan_bits(r.bits),
{
    proof {
        vstd::arithmetic::power2::lemma2_to64();
        vstd::arithmetic::power2::lemma2_to64_rest();
        if m == 1 {
            vstd::bits::lemma_u64_shr_is_div(m, 63);
            vstd::arithmetic::div_mod::lemma_basic_div_specific_divisor(
                vstd::arithmetic::power2::pow2(63) as int,
            );
        }
    }
    let mut hi: u32 = 63;
    while hi > 0 && (m >> hi) == 0
        invariant
            hi <= 63,
            m == 1 ==> (hi == 0 || m >> hi == 0),
        decreases hi,
    {
        proof {
            if m == 1 && hi >= 2 {
                vstd::arithmetic::power2::lemma2_to64();
                vstd::arithmetic::power2::lemma2_to64_rest();
                vstd::bits::lemma_u64_shr_is_div(m, (hi - 1) as u64);
                vstd::arithmetic::power2::lemma_pow2_strictly_increases(0, (hi - 1) as nat);
                vstd::arithmetic::div_mod::lemma_basic_div_specific_divisor(
                    vstd::arithmetic::power2::pow2((hi - 1) as nat) as int,
                );
            }
        }
        hi = hi - 1;
    }
    let mut acc = x;
    let mut i = hi;
    proof {
        if m == 1 {
            assert(hi == 0);
        }
    }
    while i > 0
        invariant
            i <= hi <= 63,
            is_nan_bits(x.bits) ==> is_nan_bits(acc.bits),
            hi == 0 ==> acc == x,
        decreases i,
    {
        i = i - 1;
        acc = backend.mul(acc, acc);
        if (m >> i) & 1 == 1 {
            acc = backend.mul(acc, x);
        }
    }
    acc
}

} // verus!
