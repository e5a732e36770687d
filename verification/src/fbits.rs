//! Bit-level conversions between the quad layout and the narrower IEEE
//! binary32/binary64 layouts. Widening is exact; narrowing rounds to
//! nearest even and saturates to the narrow format's infinity. The
//! functions speak in raw bit patterns so that the conversion logic
//! stays in verified code; turning an `f64` into its bits and back is
//! the caller's one unverified step.

use crate::classify::{is_inf_bits, is_nan_bits, is_zero_bits};
use crate::convert::{bitlen_exec, lemma_pow2_quad, pow2_exec};
use crate::{lemma_fields, sign_of, Quad};
use crate::{EXP_SPECIAL, FRAC_WEIGHT, SIGN_MASK};
use vstd::arithmetic::power2::{lemma2_to64, lemma2_to64_rest, lemma_pow2_adds, lemma_pow2_pos, pow2};
use vstd::prelude::*;

verus! {

/// The exact quad pattern a binary64 pattern widens to: specials keep
/// their class and payload position, normals re-bias, subnormals
/// renormalize without loss.
pub open spec fn widen_f64(b: u64) -> u128 {
    let s: u128 = if b >= 0x8000_0000_0000_0000 {
        SIGN_MASK
    } else {
        0
    };
    let e = (b / 0x10_0000_0000_0000) % 0x800;
    let f = (b % 0x10_0000_0000_0000) as u128;
    if e == 0x7FF {
        (s + EXP_SPECIAL * FRAC_WEIGHT + f * 0x1000_0000_0000_0000) as u128
    } else if e == 0 && f == 0 {
        s
    } else if e == 0 {
        (s + (crate::convert::bitlen(f as nat) + 15308) * FRAC_WEIGHT + f * pow2(
            (113 - crate::convert::bitlen(f as nat)) as nat,
        ) - FRAC_WEIGHT) as u128
    } else {
        (s + (e as u128 + 15360) * FRAC_WEIGHT + f * 0x1000_0000_0000_0000) as u128
    }
}

/// The exact quad pattern a binary32 pattern widens to.
pub open spec fn widen_f32(b: u32) -> u128 {
    let s: u128 = if b >= 0x8000_0000 {
        SIGN_MASK
    } else {
        0
    };
    let e = (b / 0x80_0000) % 0x100;
    let f = (b % 0x80_0000) as u128;
    if e == 0xFF {
        (s + EXP_SPECIAL * FRAC_WEIGHT + f * 0x200_0000_0000_0000_0000_0000) as u128
    } else if e == 0 && f == 0 {
        s
    } else if e == 0 {
        (s + (crate::convert::bitlen(f as nat) + 16233) * FRAC_WEIGHT + f * pow2(
            (113 - crate::convert::bitlen(f as nat)) as nat,
        ) - FRAC_WEIGHT) as u128
    } else {
        (s + (e as u128 + 16256) * FRAC_WEIGHT + f * 0x200_0000_0000_0000_0000_0000) as u128
    }
}

impl Quad {
    /// Widens an IEEE binary64 bit pattern exactly: zeros, infinities and
    /// NaNs map to their quad counterparts with the sign kept, a normal
    /// value keeps its fraction shifted into the wider field, and a
    /// subnormal is renormalized without loss.
    pub fn from_f64_bits(b: u64) -> (r: Quad)
        ensures
            r.bits == widen_f64(b),
            sign_of(r.bits) == (b >= 0x8000_0000_0000_0000),
            ((b / 0x10_0000_0000_0000) % 0x800 == 0x7FF && b % 0x10_0000_0000_0000 != 0)
                == is_nan_bits(r.bits),
            ((b / 0x10_0000_0000_0000) % 0x800 == 0x7FF && b % 0x10_0000_0000_0000 == 0)
                == is_inf_bits(r.bits),
            (b % 0x8000_0000_0000_0000 == 0) == is_zero_bits(r.bits),
            1 <= (b / 0x10_0000_0000_0000) % 0x800 < 0x7FF ==> crate::exp_of(r.bits) == (b
                / 0x10_0000_0000_0000) % 0x800 + 15360 && crate::frac_of(r.bits) == (b
                % 0x10_0000_0000_0000) * 0x1000_0000_0000_0000,
    {
        proof {
            lemma2_to64();
            lemma2_to64_rest();
            lemma_pow2_quad();
        }
        let sign = b >= 0x8000_0000_0000_0000;
        let s_mask: u128 = if sign {
            SIGN_MASK
        } else {
            0
        };
        let e: u64 = (b / 0x10_0000_0000_0000) % 0x800;
        let f: u64 = b % 0x10_0000_0000_0000;
        if e == 0x7FF {
            // Infinity or NaN: the payload moves to the top of the wider
            // fraction field, so a nonzero payload stays nonzero.
            let frac: u128 = (f as u128) * 0x1000_0000_0000_0000;
            proof {
                lemma_fields(sign, EXP_SPECIAL, frac);
            }
            Quad { bits: s_mask + EXP_SPECIAL * FRAC_WEIGHT + frac }
        } else if e == 0 && f == 0 {
            proof {
                lemma_fields(sign, 0, 0);
            }
            Quad { bits: s_mask }
        } else if e == 0 {
            // Subnormal: value f * 2^-1074; renormalize into the quad's
            // far wider exponent range.
            let l = bitlen_exec(f as u128);
            proof {
                crate::convert::lemma_bitlen_bounds(f as nat);
                crate::convert::lemma_bitlen_le(f as nat, 52);
                lemma_pow2_pos((113 - l) as nat);
                lemma_pow2_adds((l - 1) as nat, (113 - l) as nat);
                lemma_pow2_adds(l as nat, (113 - l) as nat);
                assert((f as u128) * pow2((113 - l) as nat) < pow2(113) && (f as u128) * pow2(
                    (113 - l) as nat,
                ) >= pow2(112)) by (nonlinear_arith)
                    requires
                        pow2((l - 1) as nat) <= (f as u128) && (f as u128) < pow2(l as nat),
                        pow2((l - 1) as nat) * pow2((113 - l) as nat) == pow2(112),
                        pow2(l as nat) * pow2((113 - l) as nat) == pow2(113),
                        pow2((113 - l) as nat) > 0,
                ;
            }
            let sig = (f as u128) * pow2_exec(113 - l);
            let exp_field: u128 = (l as u128) + 15308;
            proof {
                lemma_fields(sign, exp_field, (sig - FRAC_WEIGHT) as u128);
            }
            Quad { bits: s_mask + exp_field * FRAC_WEIGHT + (sig - FRAC_WEIGHT) }
        } else {
            // Normal: re-bias the exponent and widen the fraction field
            // from 52 to 112 bits.
            let exp_field: u128 = (e as u128) + 15360;
            let frac: u128 = (f as u128) * 0x1000_0000_0000_0000;
            proof {
                lemma_fields(sign, exp_field, frac);
            }
            Quad { bits: s_mask + exp_field * FRAC_WEIGHT + frac }
        }
    }

    /// Widens an IEEE binary32 bit pattern exactly, as `from_f64_bits`
    /// does for binary64.
    pub fn from_f32_bits(b: u32) -> (r: Quad)
        ensures
            r.bits == widen_f32(b),
            sign_of(r.bits) == (b >= 0x8000_0000),
            ((b / 0x80_0000) % 0x100 == 0xFF && b % 0x80_0000 != 0) == is_nan_bits(r.bits),
            ((b / 0x80_0000) % 0x100 == 0xFF && b % 0x80_0000 == 0) == is_inf_bits(r.bits),
            (b % 0x8000_0000 == 0) == is_zero_bits(r.bits),
            1 <= (b / 0x80_0000) % 0x100 < 0xFF ==> crate::exp_of(r.bits) == (b / 0x80_0000)
                % 0x100 + 16256 && crate::frac_of(r.bits) == (b % 0x80_0000) as u128
                * 0x200_0000_0000_0000_0000_0000,
    {
        proof {
            lemma2_to64();
            lemma2_to64_rest();
            lemma_pow2_quad();
            lemma_pow2_adds(64, 25);
        }
        let sign = b >= 0x8000_0000;
        let s_mask: u128 = if sign {
            SIGN_MASK
        } else {
            0
        };
        let e: u32 = (b / 0x80_0000) % 0x100;
        let f: u32 = b % 0x80_0000;
        if e == 0xFF {
            let frac: u128 = (f as u128) * 0x200_0000_0000_0000_0000_0000;
            proof {
                lemma_fields(sign, EXP_SPECIAL, frac);
            }
            Quad { bits: s_mask + EXP_SPECIAL * FRAC_WEIGHT + frac }
        } else if e == 0 && f == 0 {
            proof {
                lemma_fields(sign, 0, 0);
            }
            Quad { bits: s_mask }
        } else if e == 0 {
            // Subnormal: value f * 2^-149.
            let l = bitlen_exec(f as u128);
            proof {
                crate::convert::lemma_bitlen_bounds(f as nat);
                crate::convert::lemma_bitlen_le(f as nat, 23);
                lemma_pow2_pos((113 - l) as nat);
                lemma_pow2_adds((l - 1) as nat, (113 - l) as nat);
                lemma_pow2_adds(l as nat, (113 - l) as nat);
                assert((f as u128) * pow2((113 - l) as nat) < pow2(113) && (f as u128) * pow2(
                    (113 - l) as nat,
                ) >= pow2(112)) by (nonlinear_arith)
                    requires
                        pow2((l - 1) as nat) <= (f as u128) && (f as u128) < pow2(l as nat),
                        pow2((l - 1) as nat) * pow2((113 - l) as nat) == pow2(112),
                        pow2(l as nat) * pow2((113 - l) as nat) == pow2(113),
                        pow2((113 - l) as nat) > 0,
                ;
            }
            let sig = (f as u128) * pow2_exec(113 - l);
            // Least f32 subnormal 2^-149 has l == 1 and unbiased exponent
            // -149, hence the offset below.
            let exp_field: u128 = (l as u128) + 16233;
            proof {
                lemma_fields(sign, exp_field, (sig - FRAC_WEIGHT) as u128);
            }
            Quad { bits: s_mask + exp_field * FRAC_WEIGHT + (sig - FRAC_WEIGHT) }
        } else {
            let exp_field: u128 = (e as u128) + 16256;
            let frac: u128 = (f as u128) * 0x200_0000_0000_0000_0000_0000;
            proof {
                lemma_fields(sign, exp_field, frac);
            }
            Quad { bits: s_mask + exp_field * FRAC_WEIGHT + frac }
        }
    }

    /// Narrows to an IEEE binary64 bit pattern, rounding to nearest even
    /// and saturating to the binary64 infinity of the same sign; a NaN
    /// becomes the canonical quiet binary64 NaN with the sign kept, and
    /// no finite value ever maps to a NaN pattern.
    #[verifier::rlimit(80)]
    pub fn to_f64_bits(self) -> (r: u64)
        ensures
            (r >= 0x8000_0000_0000_0000) == sign_of(self.bits),
            is_nan_bits(self.bits) ==> r % 0x8000_0000_0000_0000 == 0x7FF8_0000_0000_0000,
            is_inf_bits(self.bits) ==> r % 0x8000_0000_0000_0000 == 0x7FF0_0000_0000_0000,
            is_zero_bits(self.bits) ==> r % 0x8000_0000_0000_0000 == 0,
            !is_nan_bits(self.bits) && (r / 0x10_0000_0000_0000) % 0x800 == 0x7FF ==> r
                % 0x10_0000_0000_0000 == 0,
            !is_nan_bits(self.bits) && !is_inf_bits(self.bits) && 15361 <= crate::exp_of(self.bits)
                <= 17406 && crate::frac_of(self.bits) % 0x1000_0000_0000_0000 == 0 ==> r == (
            if sign_of(self.bits) {
                0x8000_0000_0000_0000int
            } else {
                0int
            }) + (crate::exp_of(self.bits) - 15360) * 0x10_0000_0000_0000 + crate::frac_of(
                self.bits,
            ) / 0x1000_0000_0000_0000,
    {
        proof {
            lemma2_to64();
            lemma2_to64_rest();
            lemma_pow2_quad();
        }
        let sign = self.is_sign_negative();
        let s_m: u64 = if sign {
            0x8000_0000_0000_0000
        } else {
            0
        };
        if self.is_nan() {
            return s_m + 0x7FF8_0000_0000_0000;
        }
        if self.is_infinite() {
            return s_m + 0x7FF0_0000_0000_0000;
        }
        let e = self.exp_bits();
        let frac = self.fract_bits();
        if e == 0 && frac == 0 {
            return s_m;
        }
        let sig: u128 = if e == 0 {
            frac
        } else {
            frac + FRAC_WEIGHT
        };
        let eu: i128 = if e == 0 {
            1
        } else {
            e as i128
        };
        let exp2: i128 = eu - 16383 - 112;
        proof {
            lemma_bits_to_fields_pub(self.bits);
        }
        let l = bitlen_exec(sig);
        proof {
            crate::convert::lemma_bitlen_bounds(sig as nat);
            crate::convert::lemma_bitlen_le(sig as nat, 113);
            if e >= 15361 && frac % 0x1000_0000_0000_0000 == 0 {
                // An exactly representable normal: the significand is a
                // multiple of 2^60 with its top bit at position 112.
                crate::convert::lemma_bitlen_le(sig as nat, 112);
                assert(l == 113);
                lemma_pow2_adds(52, 60);
                assert(0x1000_0000_0000_0000u128 * 0x10_0000_0000_0000 == FRAC_WEIGHT);
                vstd::arithmetic::div_mod::lemma_fundamental_div_mod(
                    frac as int,
                    0x1000_0000_0000_0000,
                );
                let k = frac / 0x1000_0000_0000_0000;
                assert(frac == 0x1000_0000_0000_0000 * k);
                assert(sig == 0x1000_0000_0000_0000 * (0x10_0000_0000_0000 + k) + 0)
                    by (nonlinear_arith)
                    requires
                        sig == frac + FRAC_WEIGHT,
                        frac == 0x1000_0000_0000_0000u128 * k,
                        FRAC_WEIGHT == 0x1000_0000_0000_0000u128 * 0x10_0000_0000_0000,
                ;
                vstd::arithmetic::div_mod::lemma_fundamental_div_mod_converse(
                    sig as int,
                    0x1000_0000_0000_0000,
                    (0x10_0000_0000_0000 + k) as int,
                    0,
                );
                assert(sig / 0x1000_0000_0000_0000 == 0x10_0000_0000_0000 + k);
                assert(sig % 0x1000_0000_0000_0000 == 0);
            }
        }
        let ebin: i128 = exp2 + (l as i128) - 1;
        if ebin > 1023 {
            return s_m + 0x7FF0_0000_0000_0000;
        }
        let drop: i128 = if ebin >= -1022 {
            (l as i128) - 53
        } else {
            (l as i128) - 53 + (-1022 - ebin)
        };
        if drop <= 0 {
            let sh: u32 = (-drop) as u32;
            proof {
                lemma_pow2_pos(sh as nat);
                lemma_pow2_adds((l - 1) as nat, sh as nat);
                lemma_pow2_adds(l as nat, sh as nat);
                assert(sig * pow2(sh as nat) < pow2((l + sh) as nat) && sig * pow2(sh as nat)
                    >= pow2((l + sh - 1) as nat)) by (nonlinear_arith)
                    requires
                        pow2((l - 1) as nat) <= sig < pow2(l as nat),
                        pow2(sh as nat) > 0,
                        pow2((l + sh) as nat) == pow2(l as nat) * pow2(sh as nat),
                        pow2((l + sh - 1) as nat) == pow2((l - 1) as nat) * pow2(sh as nat),
                ;
                if l + sh < 64 {
                    vstd::arithmetic::power2::lemma_pow2_strictly_increases((l + sh) as nat, 64);
                }
            }
            let wide = sig * pow2_exec(sh);
            if ebin >= -1022 {
                let e64: u64 = (ebin + 1023) as u64;
                let w = wide as u64;
                return s_m + e64 * 0x10_0000_0000_0000 + (w - 0x10_0000_0000_0000);
            } else {
                proof {
                    assert(l + sh <= 52);
                    if l + sh < 52 {
                        vstd::arithmetic::power2::lemma_pow2_strictly_increases(
                            (l + sh) as nat,
                            52,
                        );
                    }
                }
                return s_m + (wide as u64);
            }
        } else if drop >= l as i128 {
            let keep: bool = drop == l as i128 && sig > pow2_exec(l - 1);
            let low: u64 = if keep {
                1
            } else {
                0
            };
            return s_m + low;
        } else {
            let dr: u32 = drop as u32;
            proof {
                lemma_pow2_pos(dr as nat);
                if dr < 127 {
                    vstd::arithmetic::power2::lemma_pow2_strictly_increases(dr as nat, 127);
                }
            }
            let p = pow2_exec(dr);
            let q = sig / p;
            let rem = sig % p;
            let up: bool = 2 * rem > p || (2 * rem == p && q % 2 == 1);
            proof {
                vstd::arithmetic::div_mod::lemma_fundamental_div_mod(sig as int, p as int);
                lemma_pow2_adds((l - dr) as nat, dr as nat);
                assert(q < pow2((l - dr) as nat)) by (nonlinear_arith)
                    requires
                        sig == p * q + rem,
                        0 <= rem < p,
                        sig < pow2(l as nat),
                        p == pow2(dr as nat),
                        p > 0,
                        pow2(l as nat) == pow2((l - dr) as nat) * pow2(dr as nat),
                ;
                if l - dr < 53 {
                    vstd::arithmetic::power2::lemma_pow2_strictly_increases((l - dr) as nat, 53);
                }
            }
            let mut sig53: u64 = q as u64;
            let mut eb: i128 = ebin;
            if up {
                sig53 = sig53 + 1;
                if sig53 == 0x20_0000_0000_0000 {
                    sig53 = 0x10_0000_0000_0000;
                    eb = eb + 1;
                }
            }
            if ebin >= -1022 {
                if eb > 1023 {
                    return s_m + 0x7FF0_0000_0000_0000;
                }
                let e64: u64 = (eb + 1023) as u64;
                proof {
                    lemma_pow2_adds((l - dr - 1) as nat, dr as nat);
                    assert(q >= pow2((l - dr - 1) as nat)) by (nonlinear_arith)
                        requires
                            sig == p * q + rem,
                            0 <= rem < p,
                            sig >= pow2((l - 1) as nat),
                            p == pow2(dr as nat),
                            p > 0,
                            pow2((l - 1) as nat) == pow2((l - dr - 1) as nat) * pow2(dr as nat),
                    ;
                }
                return s_m + e64 * 0x10_0000_0000_0000 + (sig53 - 0x10_0000_0000_0000);
            } else {
                proof {
                    assert(l - dr <= 52);
                    if l - dr < 52 {
                        vstd::arithmetic::power2::lemma_pow2_strictly_increases(
                            (l - dr) as nat,
                            52,
                        );
                    }
                }
                return s_m + sig53;
            }
        }
    }

    /// Narrows to an IEEE binary32 bit pattern; the binary32 analog of
    /// `to_f64_bits`.
    #[verifier::rlimit(80)]
    pub fn to_f32_bits(self) -> (r: u32)
        ensures
            (r >= 0x8000_0000) == sign_of(self.bits),
            is_nan_bits(self.bits) ==> r % 0x8000_0000 == 0x7FC0_0000,
            is_inf_bits(self.bits) ==> r % 0x8000_0000 == 0x7F80_0000,
            is_zero_bits(self.bits) ==> r % 0x8000_0000 == 0,
            !is_nan_bits(self.bits) && (r / 0x80_0000) % 0x100 == 0xFF ==> r % 0x80_0000 == 0,
            !is_nan_bits(self.bits) && !is_inf_bits(self.bits) && 16257 <= crate::exp_of(self.bits)
                <= 16510 && crate::frac_of(self.bits) % 0x200_0000_0000_0000_0000_0000 == 0 ==> r
                == (if sign_of(self.bits) {
                0x8000_0000int
            } else {
                0int
            }) + (crate::exp_of(self.bits) - 16256) * 0x80_0000 + crate::frac_of(self.bits)
                / 0x200_0000_0000_0000_0000_0000,
    {
        proof {
            lemma2_to64();
            lemma2_to64_rest();
            lemma_pow2_quad();
        }
        let sign = self.is_sign_negative();
        let s_m: u32 = if sign {
            0x8000_0000
        } else {
            0
        };
        if self.is_nan() {
            return s_m + 0x7FC0_0000;
        }
        if self.is_infinite() {
            return s_m + 0x7F80_0000;
        }
        let e = self.exp_bits();
        let frac = self.fract_bits();
        if e == 0 && frac == 0 {
            return s_m;
        }
        let sig: u128 = if e == 0 {
            frac
        } else {
            frac + FRAC_WEIGHT
        };
        let eu: i128 = if e == 0 {
            1
        } else {
            e as i128
        };
        let exp2: i128 = eu - 16383 - 112;
        proof {
            lemma_bits_to_fields_pub(self.bits);
        }
        let l = bitlen_exec(sig);
        proof {
            crate::convert::lemma_bitlen_bounds(sig as nat);
            crate::convert::lemma_bitlen_le(sig as nat, 113);
            if e >= 16257 && frac % 0x200_0000_0000_0000_0000_0000 == 0 {
                crate::convert::lemma_bitlen_le(sig as nat, 112);
                assert(l == 113);
                lemma_pow2_adds(23, 89);
                assert(0x200_0000_0000_0000_0000_0000u128 * 0x80_0000 == FRAC_WEIGHT);
                vstd::arithmetic::div_mod::lemma_fundamental_div_mod(
                    frac as int,
                    0x200_0000_0000_0000_0000_0000,
                );
                let k = frac / 0x200_0000_0000_0000_0000_0000;
                assert(frac == 0x200_0000_0000_0000_0000_0000 * k);
                assert(sig == 0x200_0000_0000_0000_0000_0000 * (0x80_0000 + k) + 0)
                    by (nonlinear_arith)
                    requires
                        sig == frac + FRAC_WEIGHT,
                        frac == 0x200_0000_0000_0000_0000_0000u128 * k,
                        FRAC_WEIGHT == 0x200_0000_0000_0000_0000_0000u128 * 0x80_0000,
                ;
                vstd::arithmetic::div_mod::lemma_fundamental_div_mod_converse(
                    sig as int,
                    0x200_0000_0000_0000_0000_0000,
                    (0x80_0000 + k) as int,
                    0,
                );
                assert(sig / 0x200_0000_0000_0000_0000_0000 == 0x80_0000 + k);
                assert(sig % 0x200_0000_0000_0000_0000_0000 == 0);
            }
        }
        let ebin: i128 = exp2 + (l as i128) - 1;
        if ebin > 127 {
            return s_m + 0x7F80_0000;
        }
        let drop: i128 = if ebin >= -126 {
            (l as i128) - 24
        } else {
            (l as i128) - 24 + (-126 - ebin)
        };
        if drop <= 0 {
            let sh: u32 = (-drop) as u32;
            proof {
                lemma_pow2_pos(sh as nat);
                lemma_pow2_adds((l - 1) as nat, sh as nat);
                lemma_pow2_adds(l as nat, sh as nat);
                assert(sig * pow2(sh as nat) < pow2((l + sh) as nat) && sig * pow2(sh as nat)
                    >= pow2((l + sh - 1) as nat)) by (nonlinear_arith)
                    requires
                        pow2((l - 1) as nat) <= sig < pow2(l as nat),
                        pow2(sh as nat) > 0,
                        pow2((l + sh) as nat) == pow2(l as nat) * pow2(sh as nat),
                        pow2((l + sh - 1) as nat) == pow2((l - 1) as nat) * pow2(sh as nat),
                ;
                if l + sh < 32 {
                    vstd::arithmetic::power2::lemma_pow2_strictly_increases((l + sh) as nat, 32);
                }
            }
            let wide = sig * pow2_exec(sh);
            if ebin >= -126 {
                let e32: u32 = (ebin + 127) as u32;
                let w = wide as u32;
                return s_m + e32 * 0x80_0000 + (w - 0x80_0000);
            } else {
                proof {
                    assert(l + sh <= 23);
                    if l + sh < 23 {
                        vstd::arithmetic::power2::lemma_pow2_strictly_increases(
                            (l + sh) as nat,
                            23,
                        );
                    }
                }
                return s_m + (wide as u32);
            }
        } else if drop >= l as i128 {
            let keep: bool = drop == l as i128 && sig > pow2_exec(l - 1);
            let low: u32 = if keep {
                1
            } else {
                0
            };
            return s_m + low;
        } else {
            let dr: u32 = drop as u32;
            proof {
                lemma_pow2_pos(dr as nat);
                if dr < 127 {
                    vstd::arithmetic::power2::lemma_pow2_strictly_increases(dr as nat, 127);
                }
            }
            let p = pow2_exec(dr);
            let q = sig / p;
            let rem = sig % p;
            let up: bool = 2 * rem > p || (2 * rem == p && q % 2 == 1);
            proof {
                vstd::arithmetic::div_mod::lemma_fundamental_div_mod(sig as int, p as int);
                lemma_pow2_adds((l - dr) as nat, dr as nat);
                assert(q < pow2((l - dr) as nat)) by (nonlinear_arith)
                    requires
                        sig == p * q + rem,
                        0 <= rem < p,
                        sig < pow2(l as nat),
                        p == pow2(dr as nat),
                        p > 0,
                        pow2(l as nat) == pow2((l - dr) as nat) * pow2(dr as nat),
                ;
                if l - dr < 24 {
                    vstd::arithmetic::power2::lemma_pow2_strictly_increases((l - dr) as nat, 24);
                }
            }
            let mut sig24: u32 = q as u32;
            let mut eb: i128 = ebin;
            if up {
                sig24 = sig24 + 1;
                if sig24 == 0x100_0000 {
                    sig24 = 0x80_0000;
                    eb = eb + 1;
                }
            }
            if ebin >= -126 {
                if eb > 127 {
                    return s_m + 0x7F80_0000;
                }
                let e32: u32 = (eb + 127) as u32;
                proof {
                    lemma_pow2_adds((l - dr - 1) as nat, dr as nat);
                    assert(q >= pow2((l - dr - 1) as nat)) by (nonlinear_arith)
                        requires
                            sig == p * q + rem,
                            0 <= rem < p,
                            sig >= pow2((l - 1) as nat),
                            p == pow2(dr as nat),
                            p > 0,
                            pow2((l - 1) as nat) == pow2((l - dr - 1) as nat) * pow2(dr as nat),
                    ;
                }
                return s_m + e32 * 0x80_0000 + (sig24 - 0x80_0000);
            } else {
                proof {
                    assert(l - dr <= 23);
                    if l - dr < 23 {
                        vstd::arithmetic::power2::lemma_pow2_strictly_increases(
                            (l - dr) as nat,
                            23,
                        );
                    }
                }
                return s_m + sig24;
            }
        }
    }
}

/// Field decomposition of the operand, shared by both narrowings.
proof fn lemma_bits_to_fields_pub(bits: u128)
    ensures
        crate::exp_of(bits) < 0x8000,
        crate::frac_of(bits) < FRAC_WEIGHT,
{
    crate::lemma_bits_to_fields(bits);
}

} // verus!
