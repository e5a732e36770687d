//! Bit-exact conversions between quad values and fixed-width integers.
//! An integer of at most 113 significant bits converts exactly; a wider
//! `u128`/`i128` magnitude is rounded to nearest, ties to even. Narrowing
//! a value to an integer truncates toward zero; a value out of the target
//! range, an infinity, or a NaN saturates: NaN becomes 0, anything below
//! the target range becomes its minimum, anything above its maximum.

use crate::{exp_of, frac_of, lemma_bits_to_fields, lemma_fields, sign_of, Quad};
use crate::{EXP_SPECIAL, FRAC_WEIGHT, SIGN_MASK};
use crate::classify::{is_inf_bits, is_nan_bits};
use vstd::arithmetic::div_mod::{
    lemma_div_by_multiple,
    lemma_div_denominator,
    lemma_fundamental_div_mod,
};
use vstd::arithmetic::power2::{
    lemma2_to64,
    lemma2_to64_rest,
    lemma_pow2_adds,
    lemma_pow2_pos,
    lemma_pow2_strictly_increases,
    pow2,
};
use vstd::prelude::*;

verus! {

/// The concrete values of the powers of two at the field boundaries.
pub proof fn lemma_pow2_quad()
    ensures
        pow2(15) == 0x8000,
        pow2(63) == 0x8000_0000_0000_0000,
        pow2(64) == 0x1_0000_0000_0000_0000,
        pow2(112) == FRAC_WEIGHT,
        pow2(113) == 2 * FRAC_WEIGHT,
        pow2(127) == SIGN_MASK,
        pow2(128) == 0x1_0000_0000_0000_0000_0000_0000_0000_0000,
{
    lemma2_to64();
    lemma2_to64_rest();
    lemma_pow2_adds(64, 48);
    lemma_pow2_adds(64, 49);
    lemma_pow2_adds(64, 63);
    lemma_pow2_adds(64, 64);
}

/// The number of bits needed to write `n` in binary; 0 for 0.
pub open spec fn bitlen(n: nat) -> nat
    decreases n,
{
    if n == 0 {
        0
    } else {
        (1 + bitlen(n / 2)) as nat
    }
}

/// A positive number lies between the two powers of two its bit length
/// names.
pub proof fn lemma_bitlen_bounds(n: nat)
    requires
        n > 0,
    ensures
        bitlen(n) > 0,
        pow2((bitlen(n) - 1) as nat) <= n < pow2(bitlen(n)),
    decreases n,
{
    lemma2_to64();
    if n / 2 == 0 {
        assert(n == 1);
        assert(bitlen(0nat) == 0);
        assert(bitlen(n) == 1);
    } else {
        lemma_bitlen_bounds(n / 2);
        let l = bitlen(n / 2);
        assert(pow2(l + 1) == 2 * pow2(l)) by {
            lemma_pow2_adds(l, 1);
        }
        assert(pow2(l) == 2 * pow2((l - 1) as nat)) by {
            lemma_pow2_adds((l - 1) as nat, 1);
        }
        assert(n == 2 * (n / 2) + n % 2) by {
            lemma_fundamental_div_mod(n as int, 2);
        }
        assert(pow2(l) <= n);
        assert(n < pow2(l + 1));
    }
}

/// The bit length is at most `k` exactly when the number is below 2^k.
pub proof fn lemma_bitlen_le(n: nat, k: nat)
    ensures
        n < pow2(k) <==> bitlen(n) <= k,
{
    if n == 0 {
        lemma_pow2_pos(k);
    } else {
        lemma_bitlen_bounds(n);
        let l = bitlen(n);
        if l <= k {
            if l < k {
                lemma_pow2_strictly_increases(l, k);
            }
        }
        if n < pow2(k) {
            if k < l {
                if k < l - 1 {
                    lemma_pow2_strictly_increases(k, (l - 1) as nat);
                }
            }
        }
    }
}

/// `n` rounded to the nearest multiple of 2^k, ties to the even multiple.
pub open spec fn round_rne(n: nat, k: nat) -> nat {
    let p = pow2(k);
    let q = n / p;
    let r = n % p;
    if 2 * r < p {
        q * p
    } else if 2 * r > p {
        (q + 1) * p
    } else if q % 2 == 0 {
        q * p
    } else {
        (q + 1) * p
    }
}

/// A multiple of 2^k rounds to itself.
pub proof fn lemma_round_rne_exact(n: nat, k: nat)
    requires
        n % pow2(k) == 0,
    ensures
        round_rne(n, k) == n,
{
    lemma_pow2_pos(k);
    lemma_fundamental_div_mod(n as int, pow2(k) as int);
    let p = pow2(k);
    let q = n / p;
    assert(q * p == n) by (nonlinear_arith)
        requires
            n == p * q + n % p,
            n % p == 0,
    ;
}

/// Rounding a positive number keeps it positive.
pub proof fn lemma_convert_mag_pos(n: nat)
    requires
        n > 0,
    ensures
        convert_mag(n) > 0,
{
    let k = drop_width(n);
    let p = pow2(k);
    lemma_pow2_pos(k);
    if k == 0 {
        lemma2_to64();
        lemma_round_rne_exact(n, 0);
    } else {
        lemma_bitlen_bounds(n);
        assert(k <= bitlen(n) - 1);
        if k < bitlen(n) - 1 {
            lemma_pow2_strictly_increases(k, (bitlen(n) - 1) as nat);
        }
        assert(p <= n);
        lemma_fundamental_div_mod(n as int, p as int);
        assert(n / p >= 1) by (nonlinear_arith)
            requires
                n == p * (n / p) + n % p,
                0 <= n % p < p,
                p <= n,
                p > 0,
        ;
        assert((n / p) * p >= p) by (nonlinear_arith)
            requires
                n / p >= 1,
                p > 0,
        ;
        assert(((n / p) + 1) * p >= p) by (nonlinear_arith)
            requires
                n / p >= 0,
                p > 0,
        ;
    }
}

/// How many low bits rounding to 113 significant bits drops from `n`.
pub open spec fn drop_width(n: nat) -> nat {
    if bitlen(n) > 113 {
        (bitlen(n) - 113) as nat
    } else {
        0
    }
}

/// The magnitude a `u128` converts to: `n` itself while it fits in 113
/// significant bits, else `n` rounded to nearest even at that width.
pub open spec fn convert_mag(n: nat) -> nat {
    round_rne(n, drop_width(n))
}

/// The integer significand of a finite pattern: the fraction with the
/// implicit bit added for normal values.
pub open spec fn sig_of(bits: u128) -> nat {
    if exp_of(bits) == 0 {
        frac_of(bits) as nat
    } else {
        (frac_of(bits) + pow2(112)) as nat
    }
}

/// The binary scale of a finite pattern: its magnitude is
/// `sig_of * 2^scale_of` exactly.
pub open spec fn scale_of(bits: u128) -> int {
    (if exp_of(bits) == 0 {
        1
    } else {
        exp_of(bits) as int
    }) - 16383 - 112
}

/// The finite pattern's magnitude equals the natural number `m`.
pub open spec fn mag_is(bits: u128, m: nat) -> bool {
    let s = scale_of(bits);
    if s >= 0 {
        sig_of(bits) * pow2(s as nat) == m
    } else {
        sig_of(bits) == m * pow2((-s) as nat)
    }
}

/// The pattern encodes exactly the integer `n`: positive zero for 0, and
/// a normal value of the right sign and magnitude otherwise.
pub open spec fn encodes_int(bits: u128, n: int) -> bool {
    if n == 0 {
        bits == 0
    } else {
        &&& 1 <= exp_of(bits) < EXP_SPECIAL
        &&& sign_of(bits) == (n < 0)
        &&& mag_is(bits, (if n < 0 {
            -n
        } else {
            n
        }) as nat)
    }
}

/// The magnitude of a finite pattern truncated toward zero.
pub open spec fn trunc_mag(bits: u128) -> nat {
    let s = scale_of(bits);
    if s >= 0 {
        sig_of(bits) * pow2(s as nat)
    } else {
        sig_of(bits) / pow2((-s) as nat)
    }
}

/// A pattern that encodes an integer truncates to that integer's
/// magnitude: converting an integer in and truncating back out is
/// lossless.
pub proof fn lemma_encodes_trunc(bits: u128, m: nat)
    requires
        encodes_int(bits, m as int),
        m > 0,
    ensures
        trunc_mag(bits) == m,
        !sign_of(bits),
{
    let s = scale_of(bits);
    if s < 0 {
        lemma_pow2_pos((-s) as nat);
        lemma_div_by_multiple(m as int, pow2((-s) as nat) as int);
    }
}

/// 2^k as a run-time value.
pub fn pow2_exec(k: u32) -> (r: u128)
    requires
        k < 128,
    ensures
        r == pow2(k as nat),
{
    let mut i: u32 = 0;
    let mut r: u128 = 1;
    proof {
        lemma2_to64();
    }
    while i < k
        invariant
            i <= k < 128,
            r == pow2(i as nat),
        decreases k - i,
    {
        proof {
            lemma2_to64();
            lemma_pow2_quad();
            lemma_pow2_adds(i as nat, 1);
            if i + 1 < 127 {
                lemma_pow2_strictly_increases((i + 1) as nat, 127);
            }
        }
        r = r * 2;
        i = i + 1;
    }
    r
}

/// The bit length of `n` at run time.
pub fn bitlen_exec(n: u128) -> (r: u32)
    ensures
        r == bitlen(n as nat),
        r <= 128,
{
    let mut l: u32 = 0;
    let mut t: u128 = n;
    proof {
        lemma2_to64();
        lemma_pow2_quad();
    }
    while t > 0
        invariant
            t == n as nat / pow2(l as nat),
            bitlen(n as nat) == l + bitlen(t as nat),
            t > 0 ==> pow2(l as nat) <= n,
            l <= 128,
        decreases t,
    {
        proof {
            lemma2_to64();
            lemma_pow2_quad();
            lemma_pow2_pos(l as nat);
            lemma_pow2_pos((l + 1) as nat);
            lemma_pow2_adds(l as nat, 1);
            lemma_div_denominator(n as int, pow2(l as nat) as int, 2);
            assert(t / 2 == n as nat / pow2((l + 1) as nat));
            if t / 2 > 0 {
                lemma_fundamental_div_mod(n as int, pow2((l + 1) as nat) as int);
                let p = pow2((l + 1) as nat);
                assert(p <= n) by (nonlinear_arith)
                    requires
                        n == p * (n as nat / p) + n as nat % p,
                        0 <= n as nat % p < p,
                        n as nat / p >= 1,
                        p > 0,
                ;
            }
            if l >= 128 {
                if l > 128 {
                    lemma_pow2_strictly_increases(128, l as nat);
                }
                assert(false);
            }
        }
        t = t / 2;
        l = l + 1;
    }
    l
}

impl Quad {
    /// Converts an unsigned 128-bit integer: exact up to 113 significant
    /// bits, rounded to nearest even above them.
    pub fn from_u128(n: u128) -> (r: Quad)
        ensures
            encodes_int(r.bits, convert_mag(n as nat) as int),
            n < 2 * FRAC_WEIGHT ==> encodes_int(r.bits, n as int),
    {
        proof {
            lemma2_to64();
            lemma_pow2_quad();
            lemma_bitlen_le(n as nat, 113);
            if n > 0 {
                lemma_round_rne_exact(n as nat, 0);
            }
        }
        if n == 0 {
            return Quad { bits: 0 };
        }
        proof {
            lemma_bitlen_bounds(n as nat);
        }
        let len = bitlen_exec(n);
        if len <= 113 {
            let sh = 113 - len;
            let p = pow2_exec(sh);
            proof {
                lemma_pow2_pos(sh as nat);
                lemma_pow2_adds((len - 1) as nat, sh as nat);
                lemma_pow2_adds(len as nat, sh as nat);
                assert(n * p < pow2(113) && n * p >= pow2(112)) by (nonlinear_arith)
                    requires
                        pow2((len - 1) as nat) <= n < pow2(len as nat),
                        p == pow2(sh as nat),
                        p > 0,
                        pow2((len - 1) as nat) * pow2(sh as nat) == pow2(112),
                        pow2(len as nat) * pow2(sh as nat) == pow2(113),
                ;
            }
            let sig = n * p;
            let e: u128 = len as u128 + 16382;
            let frac = sig - FRAC_WEIGHT;
            proof {
                lemma_fields(false, e, frac);
                let bits = crate::fields_to_bits(false, e, frac);
                assert(exp_of(bits) == e && frac_of(bits) == frac && !sign_of(bits));
                assert(sig_of(bits) == sig);
                assert(scale_of(bits) == len - 113);
                assert(convert_mag(n as nat) == n as nat);
                if len < 113 {
                    assert(sig == n * pow2((113 - len) as nat));
                    assert(mag_is(bits, n as nat));
                } else {
                    assert(sig_of(bits) * pow2(0) == n);
                    assert(mag_is(bits, n as nat));
                }
                assert(encodes_int(bits, n as int));
            }
            Quad { bits: e * FRAC_WEIGHT + frac }
        } else {
            let k = len - 113;
            proof {
                lemma_pow2_pos(k as nat);
            }
            let p = pow2_exec(k);
            let q = n / p;
            let rem = n % p;
            proof {
                lemma_fundamental_div_mod(n as int, p as int);
                lemma_pow2_adds(112, k as nat);
                lemma_pow2_adds(113, k as nat);
                assert(pow2(112) <= q < pow2(113)) by (nonlinear_arith)
                    requires
                        pow2((len - 1) as nat) <= n < pow2(len as nat),
                        p == pow2(k as nat),
                        p > 0,
                        q == n / p,
                        n == q * p + n % p,
                        0 <= n % p < p,
                        pow2((len - 1) as nat) == pow2(112) * pow2(k as nat),
                        pow2(len as nat) == pow2(113) * pow2(k as nat),
                ;
            }
            let up: bool = 2 * rem > p || (2 * rem == p && q % 2 == 1);
            let mut sig = q;
            let mut ebin: u32 = len - 1;
            if up {
                sig = sig + 1;
                if sig == 2 * FRAC_WEIGHT {
                    sig = FRAC_WEIGHT;
                    ebin = ebin + 1;
                }
            }
            let e: u128 = ebin as u128 + 16383;
            let frac = sig - FRAC_WEIGHT;
            proof {
                lemma_fields(false, e, frac);
                let m = convert_mag(n as nat);
                assert(m == (if up {
                    (q + 1) * p
                } else {
                    q * p
                }));
                let bits = crate::fields_to_bits(false, e, frac);
                assert(exp_of(bits) == e && frac_of(bits) == frac && !sign_of(bits));
                assert(sig_of(bits) == sig);
                assert(scale_of(bits) == ebin - 112);
                if up && q + 1 == pow2(113) {
                    assert(pow2(112) * pow2((k + 1) as nat) == pow2(113) * pow2(k as nat)) by {
                        lemma_pow2_adds(112, (k + 1) as nat);
                    }
                    assert(sig_of(crate::fields_to_bits(false, e, frac)) * pow2((ebin - 112) as nat)
                        == m) by (nonlinear_arith)
                        requires
                            sig_of(crate::fields_to_bits(false, e, frac)) == pow2(112),
                            m == pow2(113) * pow2(k as nat),
                            ebin == len,
                            k == len - 113,
                            pow2(112) * pow2((k + 1) as nat) == pow2(113) * pow2(k as nat),
                            pow2((ebin - 112) as nat) == pow2((k + 1) as nat),
                    ;
                } else {
                    assert(sig as int == (if up {
                        q + 1
                    } else {
                        q as int
                    }));
                    assert(sig_of(bits) * pow2(k as nat) == m) by (nonlinear_arith)
                        requires
                            sig_of(bits) == sig,
                            m == (if up {
                                (q + 1) * pow2(k as nat)
                            } else {
                                q * pow2(k as nat)
                            }),
                            sig as int == (if up {
                                q + 1
                            } else {
                                q as int
                            }),
                    ;
                }
                assert(m > 0) by (nonlinear_arith)
                    requires
                        m == (if up {
                            (q + 1) * p
                        } else {
                            q * p
                        }),
                        q >= 1,
                        p > 0,
                ;
                assert(mag_is(bits, m));
                assert(encodes_int(bits, m as int));
            }
            Quad { bits: e * FRAC_WEIGHT + frac }
        }
    }

    /// Converts a signed 128-bit integer: exact up to 113 significant
    /// bits of magnitude, rounded to nearest even above them; zero
    /// converts to positive zero.
    pub fn from_i128(n: i128) -> (r: Quad)
        ensures
            n >= 0 ==> encodes_int(r.bits, convert_mag(n as nat) as int),
            n < 0 ==> encodes_int(r.bits, -(convert_mag((-(n as int)) as nat) as int)),
            -2 * (FRAC_WEIGHT as int) < n < 2 * (FRAC_WEIGHT as int) ==> encodes_int(
                r.bits,
                n as int,
            ),
    {
        proof {
            lemma_pow2_quad();
        }
        if n >= 0 {
            let r = Quad::from_u128(n as u128);
            proof {
                lemma_bitlen_le(n as nat, 113);
            }
            r
        } else {
            let m: u128 = ((-(n + 1)) as u128) + 1;
            let q = Quad::from_u128(m);
            proof {
                lemma2_to64();
                lemma_bitlen_le(m as nat, 113);
                if bitlen(m as nat) <= 113 {
                    lemma_round_rne_exact(m as nat, 0);
                }
                lemma_convert_mag_pos(m as nat);
                lemma_bits_to_fields(q.bits);
                lemma_fields(true, exp_of(q.bits), frac_of(q.bits));
            }
            Quad { bits: q.bits + SIGN_MASK }
        }
    }

    /// Converts to an unsigned 128-bit integer: truncation toward zero,
    /// then saturation. A NaN gives 0, any negative or infinite-negative
    /// value gives 0, positive infinity or a too-large magnitude gives
    /// the maximum.
    pub fn to_u128(self) -> (r: u128)
        ensures
            is_nan_bits(self.bits) ==> r == 0,
            is_inf_bits(self.bits) && sign_of(self.bits) ==> r == 0,
            is_inf_bits(self.bits) && !sign_of(self.bits) ==> r == u128::MAX,
            !is_nan_bits(self.bits) && !is_inf_bits(self.bits) && sign_of(self.bits) ==> r == 0,
            !is_nan_bits(self.bits) && !is_inf_bits(self.bits) && !sign_of(self.bits) ==> r == (
            if trunc_mag(self.bits) > u128::MAX {
                u128::MAX as nat
            } else {
                trunc_mag(self.bits)
            }),
    {
        proof {
            lemma2_to64();
            lemma_pow2_quad();
        }
        let e = self.exp_bits();
        if e == 0x7FFF {
            if self.fract_bits() != 0 {
                0
            } else if self.is_sign_negative() {
                0
            } else {
                u128::MAX
            }
        } else if self.is_sign_negative() {
            proof {
                if scale_of(self.bits) < 0 {
                    lemma_pow2_pos((-scale_of(self.bits)) as nat);
                }
            }
            0
        } else if e < 16383 {
            proof {
                lemma_bits_to_fields(self.bits);
                let s = scale_of(self.bits);
                assert(s <= -113);
                assert(sig_of(self.bits) < pow2(113));
                if -s > 113 {
                    lemma_pow2_strictly_increases(113, (-s) as nat);
                }
                lemma_pow2_pos((-s) as nat);
                assert(sig_of(self.bits) / pow2((-s) as nat) == 0) by {
                    vstd::arithmetic::div_mod::lemma_basic_div_specific_divisor(
                        pow2((-s) as nat) as int,
                    );
                }
            }
            0
        } else {
            proof {
                lemma_bits_to_fields(self.bits);
            }
            let sig = self.fract_bits() + FRAC_WEIGHT;
            let eu: u32 = e - 16383;
            if eu >= 128 {
                proof {
                    let s = scale_of(self.bits);
                    assert(s >= 16);
                    lemma_pow2_adds(112, s as nat);
                    if 112 + s > 128 {
                        lemma_pow2_strictly_increases(128, (112 + s) as nat);
                    }
                    assert(sig_of(self.bits) * pow2(s as nat) >= pow2(112) * pow2(s as nat))
                        by (nonlinear_arith)
                        requires
                            sig_of(self.bits) >= pow2(112),
                            pow2(s as nat) > 0,
                    ;
                    lemma_pow2_pos(s as nat);
                }
                u128::MAX
            } else if eu <= 112 {
                let sh = 112 - eu;
                proof {
                    lemma_pow2_pos(sh as nat);
                }
                let p = pow2_exec(sh);
                proof {
                    assert(sig / p <= sig) by (nonlinear_arith)
                        requires
                            p >= 1,
                            sig >= 0,
                    ;
                    assert(sig == sig_of(self.bits));
                    if sh == 0 {
                        assert(p == 1);
                        assert(sig / 1 == sig);
                        assert(trunc_mag(self.bits) == sig_of(self.bits) * pow2(0));
                        assert(sig_of(self.bits) * 1 == sig_of(self.bits));
                    } else {
                        assert(trunc_mag(self.bits) == sig_of(self.bits) / pow2(sh as nat));
                    }
                    assert(sig / p == trunc_mag(self.bits));
                }
                sig / p
            } else {
                let sh = eu - 112;
                let p = pow2_exec(sh);
                proof {
                    lemma_pow2_pos(sh as nat);
                    lemma_pow2_adds(113, (sh - 1) as nat);
                    assert(sig * p < pow2(113) * pow2(sh as nat)) by (nonlinear_arith)
                        requires
                            sig < pow2(113),
                            p == pow2(sh as nat),
                            p > 0,
                    ;
                    lemma_pow2_adds(113, sh as nat);
                    if 113 + sh < 128 {
                        lemma_pow2_strictly_increases((113 + sh) as nat, 128);
                    }
                    assert(sig * p == trunc_mag(self.bits));
                    assert(sig * p <= u128::MAX);
                }
                sig * p
            }
        }
    }

    /// Converts to a signed 128-bit integer: truncation toward zero, then
    /// saturation at the type's bounds; a NaN gives 0.
    pub fn to_i128(self) -> (r: i128)
        ensures
            is_nan_bits(self.bits) ==> r == 0,
            is_inf_bits(self.bits) ==> r == (if sign_of(self.bits) {
                i128::MIN
            } else {
                i128::MAX
            }),
            !is_nan_bits(self.bits) && !is_inf_bits(self.bits) && !sign_of(self.bits) ==> r == (
            if trunc_mag(self.bits) > i128::MAX {
                i128::MAX as int
            } else {
                trunc_mag(self.bits) as int
            }),
            !is_nan_bits(self.bits) && !is_inf_bits(self.bits) && sign_of(self.bits) ==> r == (
            if trunc_mag(self.bits) >= SIGN_MASK {
                i128::MIN as int
            } else {
                -(trunc_mag(self.bits) as int)
            }),
    {
        let neg = self.is_sign_negative();
        let a = self.abs();
        proof {
            crate::classify::lemma_mag_fields(self.bits);
        }
        let m = a.to_u128();
        if self.is_nan() {
            0
        } else if neg {
            if m >= SIGN_MASK {
                i128::MIN
            } else {
                -(m as i128)
            }
        } else {
            if m > i128::MAX as u128 {
                i128::MAX
            } else {
                m as i128
            }
        }
    }
}

impl Quad {
    /// Converts an unsigned 64-bit integer exactly.
    pub fn from_u64(n: u64) -> (r: Quad)
        ensures
            encodes_int(r.bits, n as int),
    {
        Quad::from_u128(n as u128)
    }

    /// Converts an unsigned 32-bit integer exactly.
    pub fn from_u32(n: u32) -> (r: Quad)
        ensures
            encodes_int(r.bits, n as int),
    {
        Quad::from_u128(n as u128)
    }

    /// Converts an unsigned 16-bit integer exactly.
    pub fn from_u16(n: u16) -> (r: Quad)
        ensures
            encodes_int(r.bits, n as int),
    {
        Quad::from_u128(n as u128)
    }

    /// Converts an unsigned 8-bit integer exactly.
    pub fn from_u8(n: u8) -> (r: Quad)
        ensures
            encodes_int(r.bits, n as int),
    {
        Quad::from_u128(n as u128)
    }

    /// Converts an unsigned machine-word integer exactly.
    pub fn from_usize(n: usize) -> (r: Quad)
        ensures
            encodes_int(r.bits, n as int),
    {
        Quad::from_u128(n as u128)
    }

    /// Converts a signed 64-bit integer exactly.
    pub fn from_i64(n: i64) -> (r: Quad)
        ensures
            encodes_int(r.bits, n as int),
    {
        Quad::from_i128(n as i128)
    }

    /// Converts a signed 32-bit integer exactly.
    pub fn from_i32(n: i32) -> (r: Quad)
        ensures
            encodes_int(r.bits, n as int),
    {
        Quad::from_i128(n as i128)
    }

    /// Converts a signed 16-bit integer exactly.
    pub fn from_i16(n: i16) -> (r: Quad)
        ensures
            encodes_int(r.bits, n as int),
    {
        Quad::from_i128(n as i128)
    }

    /// Converts a signed 8-bit integer exactly.
    pub fn from_i8(n: i8) -> (r: Quad)
        ensures
            encodes_int(r.bits, n as int),
    {
        Quad::from_i128(n as i128)
    }

    /// Converts a signed machine-word integer exactly.
    pub fn from_isize(n: isize) -> (r: Quad)
        ensures
            encodes_int(r.bits, n as int),
    {
        Quad::from_i128(n as i128)
    }

    /// Converts to an unsigned 64-bit integer: truncation toward zero,
    /// then saturation at the type bounds; a NaN gives 0.
    pub fn to_u64(self) -> (r: u64)
        ensures
            is_nan_bits(self.bits) ==> r == 0,
            is_inf_bits(self.bits) ==> r == (if sign_of(self.bits) {
                0
            } else {
                u64::MAX as int
            }),
            !is_nan_bits(self.bits) && !is_inf_bits(self.bits) && sign_of(self.bits) ==> r == 0,
            !is_nan_bits(self.bits) && !is_inf_bits(self.bits) && !sign_of(self.bits) ==> r == (
            if trunc_mag(self.bits) > u64::MAX {
                u64::MAX as nat
            } else {
                trunc_mag(self.bits)
            }),
    {
        let m = self.to_u128();
        if m > u64::MAX as u128 {
            u64::MAX
        } else {
            m as u64
        }
    }

    /// Converts to an unsigned 32-bit integer; see `to_u64`.
    pub fn to_u32(self) -> (r: u32)
        ensures
            is_nan_bits(self.bits) ==> r == 0,
            is_inf_bits(self.bits) ==> r == (if sign_of(self.bits) {
                0
            } else {
                u32::MAX as int
            }),
            !is_nan_bits(self.bits) && !is_inf_bits(self.bits) && sign_of(self.bits) ==> r == 0,
            !is_nan_bits(self.bits) && !is_inf_bits(self.bits) && !sign_of(self.bits) ==> r == (
            if trunc_mag(self.bits) > u32::MAX {
                u32::MAX as nat
            } else {
                trunc_mag(self.bits)
            }),
    {
        let m = self.to_u128();
        if m > u32::MAX as u128 {
            u32::MAX
        } else {
            m as u32
        }
    }

    /// Converts to an unsigned 16-bit integer; see `to_u64`.
    pub fn to_u16(self) -> (r: u16)
        ensures
            is_nan_bits(self.bits) ==> r == 0,
            is_inf_bits(self.bits) ==> r == (if sign_of(self.bits) {
                0
            } else {
                u16::MAX as int
            }),
            !is_nan_bits(self.bits) && !is_inf_bits(self.bits) && sign_of(self.bits) ==> r == 0,
            !is_nan_bits(self.bits) && !is_inf_bits(self.bits) && !sign_of(self.bits) ==> r == (
            if trunc_mag(self.bits) > u16::MAX {
                u16::MAX as nat
            } else {
                trunc_mag(self.bits)
            }),
    {
        let m = self.to_u128();
        if m > u16::MAX as u128 {
            u16::MAX
        } else {
            m as u16
        }
    }

    /// Converts to an unsigned 8-bit integer; see `to_u64`.
    pub fn to_u8(self) -> (r: u8)
        ensures
            is_nan_bits(self.bits) ==> r == 0,
            is_inf_bits(self.bits) ==> r == (if sign_of(self.bits) {
                0
            } else {
                u8::MAX as int
            }),
            !is_nan_bits(self.bits) && !is_inf_bits(self.bits) && sign_of(self.bits) ==> r == 0,
            !is_nan_bits(self.bits) && !is_inf_bits(self.bits) && !sign_of(self.bits) ==> r == (
            if trunc_mag(self.bits) > u8::MAX {
                u8::MAX as nat
            } else {
                trunc_mag(self.bits)
            }),
    {
        let m = self.to_u128();
        if m > u8::MAX as u128 {
            u8::MAX
        } else {
            m as u8
        }
    }

    /// Converts to an unsigned machine-word integer; see `to_u64`.
    pub fn to_usize(self) -> (r: usize)
        ensures
            is_nan_bits(self.bits) ==> r == 0,
            is_inf_bits(self.bits) ==> r == (if sign_of(self.bits) {
                0
            } else {
                usize::MAX as int
            }),
            !is_nan_bits(self.bits) && !is_inf_bits(self.bits) && sign_of(self.bits) ==> r == 0,
            !is_nan_bits(self.bits) && !is_inf_bits(self.bits) && !sign_of(self.bits) ==> r == (
            if trunc_mag(self.bits) > usize::MAX {
                usize::MAX as nat
            } else {
                trunc_mag(self.bits)
            }),
    {
        let m = self.to_u128();
        if m > usize::MAX as u128 {
            usize::MAX
        } else {
            m as usize
        }
    }

    /// Converts to a signed 64-bit integer: truncation toward zero, then
    /// saturation at the type bounds; a NaN gives 0.
    pub fn to_i64(self) -> (r: i64)
        ensures
            is_nan_bits(self.bits) ==> r == 0,
            is_inf_bits(self.bits) ==> r == (if sign_of(self.bits) {
                i64::MIN as int
            } else {
                i64::MAX as int
            }),
            !is_nan_bits(self.bits) && !is_inf_bits(self.bits) && !sign_of(self.bits) ==> r == (
            if trunc_mag(self.bits) > i64::MAX {
                i64::MAX as int
            } else {
                trunc_mag(self.bits) as int
            }),
            !is_nan_bits(self.bits) && !is_inf_bits(self.bits) && sign_of(self.bits) ==> r == (
            if trunc_mag(self.bits) >= 0x8000_0000_0000_0000 {
                i64::MIN as int
            } else {
                -(trunc_mag(self.bits) as int)
            }),
    {
        let m = self.to_i128();
        if m > i64::MAX as i128 {
            i64::MAX
        } else if m < i64::MIN as i128 {
            i64::MIN
        } else {
            m as i64
        }
    }

    /// Converts to a signed 32-bit integer; see `to_i64`.
    pub fn to_i32(self) -> (r: i32)
        ensures
            is_nan_bits(self.bits) ==> r == 0,
            is_inf_bits(self.bits) ==> r == (if sign_of(self.bits) {
                i32::MIN as int
            } else {
                i32::MAX as int
            }),
            !is_nan_bits(self.bits) && !is_inf_bits(self.bits) && !sign_of(self.bits) ==> r == (
            if trunc_mag(self.bits) > i32::MAX {
                i32::MAX as int
            } else {
                trunc_mag(self.bits) as int
            }),
            !is_nan_bits(self.bits) && !is_inf_bits(self.bits) && sign_of(self.bits) ==> r == (
            if trunc_mag(self.bits) >= 0x8000_0000 {
                i32::MIN as int
            } else {
                -(trunc_mag(self.bits) as int)
            }),
    {
        let m = self.to_i128();
        if m > i32::MAX as i128 {
            i32::MAX
        } else if m < i32::MIN as i128 {
            i32::MIN
        } else {
            m as i32
        }
    }

    /// Converts to a signed 16-bit integer; see `to_i64`.
    pub fn to_i16(self) -> (r: i16)
        ensures
            is_nan_bits(self.bits) ==> r == 0,
            is_inf_bits(self.bits) ==> r == (if sign_of(self.bits) {
                i16::MIN as int
            } else {
                i16::MAX as int
            }),
            !is_nan_bits(self.bits) && !is_inf_bits(self.bits) && !sign_of(self.bits) ==> r == (
            if trunc_mag(self.bits) > i16::MAX {
                i16::MAX as int
            } else {
                trunc_mag(self.bits) as int
            }),
            !is_nan_bits(self.bits) && !is_inf_bits(self.bits) && sign_of(self.bits) ==> r == (
            if trunc_mag(self.bits) >= 0x8000 {
                i16::MIN as int
            } else {
                -(trunc_mag(self.bits) as int)
            }),
    {
        let m = self.to_i128();
        if m > i16::MAX as i128 {
            i16::MAX
        } else if m < i16::MIN as i128 {
            i16::MIN
        } else {
            m as i16
        }
    }

    /// Converts to a signed 8-bit integer; see `to_i64`.
    pub fn to_i8(self) -> (r: i8)
        ensures
            is_nan_bits(self.bits) ==> r == 0,
            is_inf_bits(self.bits) ==> r == (if sign_of(self.bits) {
                i8::MIN as int
            } else {
                i8::MAX as int
            }),
            !is_nan_bits(self.bits) && !is_inf_bits(self.bits) && !sign_of(self.bits) ==> r == (
            if trunc_mag(self.bits) > i8::MAX {
                i8::MAX as int
            } else {
                trunc_mag(self.bits) as int
            }),
            !is_nan_bits(self.bits) && !is_inf_bits(self.bits) && sign_of(self.bits) ==> r == (
            if trunc_mag(self.bits) >= 0x80 {
                i8::MIN as int
            } else {
                -(trunc_mag(self.bits) as int)
            }),
    {
        let m = self.to_i128();
        if m > i8::MAX as i128 {
            i8::MAX
        } else if m < i8::MIN as i128 {
            i8::MIN
        } else {
            m as i8
        }
    }

    /// Converts to a signed machine-word integer; see `to_i64`.
    pub fn to_isize(self) -> (r: isize)
        ensures
            is_nan_bits(self.bits) ==> r == 0,
            is_inf_bits(self.bits) ==> r == (if sign_of(self.bits) {
                isize::MIN as int
            } else {
                isize::MAX as int
            }),
            !is_nan_bits(self.bits) && !is_inf_bits(self.bits) && !sign_of(self.bits) ==> r == (
            if trunc_mag(self.bits) > isize::MAX {
                isize::MAX as int
            } else {
                trunc_mag(self.bits) as int
            }),
            !is_nan_bits(self.bits) && !is_inf_bits(self.bits) && sign_of(self.bits) ==> r == (
            if trunc_mag(self.bits) as int >= -(isize::MIN as int) {
                isize::MIN as int
            } else {
                -(trunc_mag(self.bits) as int)
            }),
    {
        let m = self.to_i128();
        if m > isize::MAX as i128 {
            isize::MAX
        } else if m < isize::MIN as i128 {
            isize::MIN
        } else {
            m as isize
        }
    }
}

/// True of finite patterns whose value is an integer.
pub open spec fn is_integral_bits(bits: u128) -> bool {
    &&& exp_of(bits) != EXP_SPECIAL
    &&& (scale_of(bits) >= 0 || sig_of(bits) % pow2((-scale_of(bits)) as nat) == 0)
}

/// The magnitude of a finite pattern rounded to the nearest integer,
/// halfway cases away from zero.
pub open spec fn round_away_mag(bits: u128) -> nat {
    let s = scale_of(bits);
    if s >= 0 {
        sig_of(bits) * pow2(s as nat)
    } else {
        let p = pow2((-s) as nat);
        let q = sig_of(bits) / p;
        if 2 * (sig_of(bits) % p) >= p {
            (q + 1) as nat
        } else {
            q
        }
    }
}

/// Two scaled magnitudes `n1 * 2^s1` and `n2 * 2^s2` denote the same
/// value, stated without fractions by cross-multiplying.
pub open spec fn scaled_eq(n1: nat, s1: int, n2: nat, s2: int) -> bool {
    if s1 >= s2 {
        n1 * pow2((s1 - s2) as nat) == n2
    } else {
        n2 * pow2((s2 - s1) as nat) == n1
    }
}

/// At most one pattern encodes a given integer: the encoding predicate
/// pins the bits, not only the value.
pub proof fn lemma_encodes_int_unique(b1: u128, b2: u128, n: int)
    requires
        encodes_int(b1, n),
        encodes_int(b2, n),
    ensures
        b1 == b2,
{
    if n != 0 {
        let m = (if n < 0 { -n } else { n }) as nat;
        lemma_bits_to_fields(b1);
        lemma_bits_to_fields(b2);
        lemma_pow2_quad();
        let s1 = scale_of(b1);
        let s2 = scale_of(b2);
        let g1 = sig_of(b1);
        let g2 = sig_of(b2);
        assert(pow2(112) <= g1 < pow2(113) && pow2(112) <= g2 < pow2(113));
        lemma_sig_scale_unique(g1, s1, g2, s2, m);
        assert(exp_of(b1) == s1 + 16495);
        assert(exp_of(b2) == s2 + 16495);
        assert(frac_of(b1) == g1 - pow2(112));
        assert(frac_of(b2) == g2 - pow2(112));
        assert(b1 == crate::fields_to_bits(sign_of(b1), exp_of(b1), frac_of(b1)));
        assert(b2 == crate::fields_to_bits(sign_of(b2), exp_of(b2), frac_of(b2)));
    }
}

/// A normalized significand-and-scale pair for a magnitude is unique.
proof fn lemma_sig_scale_unique(g1: nat, s1: int, g2: nat, s2: int, m: nat)
    requires
        pow2(112) <= g1 < pow2(113),
        pow2(112) <= g2 < pow2(113),
        if s1 >= 0 {
            g1 * pow2(s1 as nat) == m
        } else {
            g1 == m * pow2((-s1) as nat)
        },
        if s2 >= 0 {
            g2 * pow2(s2 as nat) == m
        } else {
            g2 == m * pow2((-s2) as nat)
        },
    ensures
        s1 == s2,
        g1 == g2,
{
    if s1 != s2 {
        // Say s1 is the larger scale; then g2 is g1 scaled up by at
        // least one doubling, leaving the normalized band.
        let (ga, sa, gb, sb) = if s1 > s2 {
            (g1, s1, g2, s2)
        } else {
            (g2, s2, g1, s1)
        };
        let d = (sa - sb) as nat;
        lemma_pow2_pos(d);
        lemma2_to64();
        if d >= 1 {
            lemma_pow2_adds(112, 1);
            if d > 1 {
                lemma_pow2_strictly_increases(1, d);
            }
        }
        if sa >= 0 && sb >= 0 {
            lemma_pow2_pos(sb as nat);
            lemma_pow2_adds(sb as nat, d);
            assert(ga * (pow2(d) * pow2(sb as nat)) == gb * pow2(sb as nat)) by (nonlinear_arith)
                requires
                    ga * pow2(sa as nat) == gb * pow2(sb as nat),
                    pow2(sa as nat) == pow2(d) * pow2(sb as nat),
            ;
            assert(ga * pow2(d) == gb) by (nonlinear_arith)
                requires
                    ga * (pow2(d) * pow2(sb as nat)) == gb * pow2(sb as nat),
                    pow2(sb as nat) > 0,
            ;
        } else if sa >= 0 && sb < 0 {
            assert(gb == ga * pow2(sa as nat) * pow2((-sb) as nat)) by (nonlinear_arith)
                requires
                    gb == m * pow2((-sb) as nat),
                    m == ga * pow2(sa as nat),
            ;
            lemma_pow2_adds(sa as nat, (-sb) as nat);
            assert(ga * pow2(d) == gb) by (nonlinear_arith)
                requires
                    gb == ga * pow2(sa as nat) * pow2((-sb) as nat),
                    pow2(d) == pow2(sa as nat) * pow2((-sb) as nat),
            ;
        } else {
            // Both scales negative.
            lemma_pow2_adds((-sa) as nat, d);
            assert(gb == m * (pow2((-sa) as nat) * pow2(d))) by (nonlinear_arith)
                requires
                    gb == m * pow2((-sb) as nat),
                    pow2((-sb) as nat) == pow2((-sa) as nat) * pow2(d),
            ;
            assert(gb == ga * pow2(d)) by (nonlinear_arith)
                requires
                    gb == m * (pow2((-sa) as nat) * pow2(d)),
                    ga == m * pow2((-sa) as nat),
            ;
        }
        assert(gb >= ga * 2) by (nonlinear_arith)
            requires
                gb == ga * pow2(d),
                pow2(d) >= 2,
                ga >= 0,
        ;
        assert(gb >= pow2(113)) by (nonlinear_arith)
            requires
                gb >= ga * 2,
                ga >= pow2(112),
                pow2(113) == 2 * pow2(112),
        ;
        assert(false);
    }
    // Equal scales force equal significands.
    if s1 >= 0 {
        lemma_pow2_pos(s1 as nat);
        assert(g1 == g2) by (nonlinear_arith)
            requires
                g1 * pow2(s1 as nat) == g2 * pow2(s1 as nat),
                pow2(s1 as nat) > 0,
        ;
    }
}

} // verus!
