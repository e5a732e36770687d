//! The decimal string codec: parsing decimal text into a quad value with
//! round-to-nearest-even, and formatting a value back to decimal text
//! with a configurable number of significant digits (36 by default, the
//! count that makes the text round-trip bit-exactly). The exact scaling
//! by powers of five and two runs on arbitrary-precision integers.

use crate::bignum::{
    big_bits,
    big_div_rem,
    big_from_digits,
    big_from_u128,
    big_mul,
    big_pow5,
    big_shl,
    big_to_digits,
    big_to_u128,
    big_val,
    digits_val,
    pow5,
};
use crate::classify::{is_inf_bits, is_nan_bits, is_zero_bits};
use crate::convert::{bitlen_exec, encodes_int, lemma_pow2_quad, pow2_exec};
use crate::{exp_of, frac_of, lemma_bits_to_fields, lemma_fields, sign_of, Quad};
use crate::{EXP_SPECIAL, FRAC_WEIGHT, SIGN_MASK};
use vstd::arithmetic::power2::{lemma2_to64, lemma_pow2_adds, lemma_pow2_pos, pow2};
use vstd::prelude::*;
use vstd::string::StrSliceExecFns;
use vstd::string::StringExecFns;

verus! {

/// Why a text failed to parse.
#[derive(Clone, Copy, Debug, PartialEq, Eq, Structural)]
pub enum ParseError {
    /// The text is not a decimal number of the accepted grammar.
    Malformed,
    /// The text holds characters outside the codec's character set.
    Encoding,
}

/// A decimal digit character.
pub open spec fn is_digit_char(c: char) -> bool {
    '0' <= c && c <= '9'
}

/// The first position at or after `i` that does not hold a digit.
pub open spec fn skip_digits(s: Seq<char>, i: int) -> int
    decreases s.len() - i,
{
    if 0 <= i < s.len() && is_digit_char(s[i]) {
        skip_digits(s, i + 1)
    } else {
        i
    }
}

/// Position after an optional leading sign character.
pub open spec fn after_sign(s: Seq<char>, i: int) -> int {
    if i < s.len() && (s[i] == '+' || s[i] == '-') {
        i + 1
    } else {
        i
    }
}

/// The accepted grammar: an optional sign, digits with an optional
/// fractional part holding at least one digit in all, and an optional
/// exponent marker followed by an optional sign and at least one digit.
pub open spec fn valid_decimal(s: Seq<char>) -> bool {
    let i0 = after_sign(s, 0);
    let i1 = skip_digits(s, i0);
    let has_dot = i1 < s.len() && s[i1] == '.';
    let i2 = if has_dot {
        skip_digits(s, i1 + 1)
    } else {
        i1
    };
    let digit_count = (i1 - i0) + (if has_dot {
        i2 - (i1 + 1)
    } else {
        0
    });
    &&& digit_count > 0
    &&& (i2 == s.len() || {
        &&& (s[i2] == 'e' || s[i2] == 'E')
        &&& {
            let i3 = after_sign(s, i2 + 1);
            let i4 = skip_digits(s, i3);
            i4 > i3 && i4 == s.len()
        }
    })
}

/// The value of the run of digit characters in `[i, j)`.
pub open spec fn dec_val(s: Seq<char>, i: int, j: int) -> nat
    decreases j - i,
{
    if j <= i {
        0
    } else {
        (dec_val(s, i, j - 1) * 10 + (s[j - 1] as u32 - 48)) as nat
    }
}

/// Whether the text is a plain signed run of digits with nothing else.
pub open spec fn integer_form(s: Seq<char>) -> bool {
    let i0 = after_sign(s, 0);
    let i1 = skip_digits(s, i0);
    i1 > i0 && i1 == s.len()
}

/// The text starts with a minus sign.
pub open spec fn has_minus(s: Seq<char>) -> bool {
    s.len() > 0 && s[0] == '-'
}

/// 10^k.
pub open spec fn pow10(k: nat) -> nat
    decreases k,
{
    if k == 0 {
        1
    } else {
        10 * pow10((k - 1) as nat)
    }
}

/// A run of `k` digits is worth less than 10^k.
proof fn lemma_dec_val_bound(s: Seq<char>, i: int, j: int)
    requires
        forall|k: int| i <= k < j ==> is_digit_char(s[k]),
        0 <= i,
        j <= s.len(),
    ensures
        dec_val(s, i, j) < pow10(if j > i {
            (j - i) as nat
        } else {
            0
        }),
    decreases j - i,
{
    if j <= i {
    } else {
        lemma_dec_val_bound(s, i, j - 1);
        let prev = dec_val(s, i, j - 1);
        let p = pow10(if j - 1 > i {
            (j - 1 - i) as nat
        } else {
            0
        });
        assert(('0' <= s[j - 1] && s[j - 1] <= '9') ==> s[j - 1] as u32 - 48 < 10);
        if j - 1 > i {
            assert(prev * 10 + 9 < p * 10) by (nonlinear_arith)
                requires
                    prev < p,
                    p >= 1,
            ;
        }
    }
}

/// Powers of ten grow with the exponent.
proof fn lemma_pow10_mono(a: nat, b: nat)
    requires
        a <= b,
    ensures
        pow10(a) <= pow10(b),
    decreases b,
{
    if a < b {
        lemma_pow10_mono(a, (b - 1) as nat);
        assert(pow10(b) == 10 * pow10((b - 1) as nat));
    }
}

/// 10^(a+b) == 10^a * 10^b.
proof fn lemma_pow10_adds(a: nat, b: nat)
    ensures
        pow10(a + b) == pow10(a) * pow10(b),
    decreases b,
{
    if b == 0 {
        assert(pow10(0) == 1);
    } else {
        lemma_pow10_adds(a, (b - 1) as nat);
        assert(pow10(a + b) == 10 * pow10((a + b - 1) as nat));
        assert(10 * (pow10(a) * pow10((b - 1) as nat)) == pow10(a) * (10 * pow10(
            (b - 1) as nat,
        ))) by (nonlinear_arith);
    }
}

/// The concrete value of a small power of ten.
proof fn lemma_small_pow10()
    ensures
        pow10(11) == 100_000_000_000,
{
    assert(pow10(0) == 1);
    assert(pow10(1) == 10);
    assert(pow10(2) == 100);
    assert(pow10(3) == 1000);
    assert(pow10(4) == 10000);
    assert(pow10(5) == 100000);
    assert(pow10(6) == 1000000);
    assert(pow10(7) == 10000000);
    assert(pow10(8) == 100000000);
    assert(pow10(9) == 1000000000);
    assert(pow10(10) == 10000000000);
    assert(pow10(11) == 100000000000);
}

/// Ten to the 33rd is below 2^113: a 33-digit integer converts exactly.
proof fn lemma_pow10_33()
    ensures
        pow10(33) < pow2(113),
{
    lemma_small_pow10();
    lemma2_to64();
    lemma_pow2_adds(30, 30);
    lemma_pow2_adds(60, 30);
    lemma_pow2_adds(90, 20);
    assert(pow10(33) == pow10(11) * pow10(11) * pow10(11)) by {
        lemma_pow10_adds(11, 11);
        lemma_pow10_adds(22, 11);
    }
    assert(pow10(11) * pow10(11) * pow10(11) < pow2(110)) by (nonlinear_arith)
        requires
            pow10(11) == 100_000_000_000,
            pow2(110) == pow2(30) * pow2(30) * pow2(30) * pow2(20),
            pow2(30) == 0x40000000,
            pow2(20) == 0x100000,
    ;
    vstd::arithmetic::power2::lemma_pow2_strictly_increases(110, 113);
}

/// 5^k is positive and below 2^(3k).
proof fn lemma_pow5_bounds(k: nat)
    ensures
        0 < pow5(k) < pow2(3 * k) + 1,
    decreases k,
{
    lemma2_to64();
    if k == 0 {
    } else {
        lemma_pow5_bounds((k - 1) as nat);
        lemma_pow2_adds(3 * (k - 1) as nat, 3);
        assert(5 * pow5((k - 1) as nat) <= 8 * pow5((k - 1) as nat) <= pow2(3 * (k - 1) as nat + 3))
            by (nonlinear_arith)
            requires
                pow5((k - 1) as nat) <= pow2(3 * (k - 1) as nat),
                pow2(3 * (k - 1) as nat + 3) == pow2(3 * (k - 1) as nat) * 8,
        ;
    }
}

/// A sequence of `k` digit values is worth less than 10^k.
proof fn lemma_digits_val_bound(s: Seq<u8>)
    requires
        forall|k: int| 0 <= k < s.len() ==> s[k] < 10,
    ensures
        digits_val(s) < pow10(s.len()),
    decreases s.len(),
{
    if s.len() == 0 {
    } else {
        lemma_digits_val_bound(s.drop_last());
        let prev = digits_val(s.drop_last());
        let p = pow10((s.len() - 1) as nat);
        assert(prev * 10 + 9 < p * 10) by (nonlinear_arith)
            requires
                prev < p,
                p >= 1,
        ;
    }
}

/// 10^k grows no faster than 2^(4k).
proof fn lemma_pow10_le_pow2(k: nat)
    ensures
        pow10(k) <= pow2(4 * k),
    decreases k,
{
    lemma2_to64();
    if k > 0 {
        lemma_pow10_le_pow2((k - 1) as nat);
        lemma_pow10_mono(0, (k - 1) as nat);
        assert(pow10(0) == 1);
        lemma_pow2_adds(4 * (k - 1) as nat, 4);
        assert(10 * pow10((k - 1) as nat) <= 16 * pow2(4 * (k - 1) as nat)) by (nonlinear_arith)
            requires
                pow10((k - 1) as nat) <= pow2(4 * (k - 1) as nat),
                pow10((k - 1) as nat) >= 1,
        ;
    }
}

/// Scanning digits moves the skip point with it.
proof fn lemma_skip_digits_step(s: Seq<char>, i: int)
    requires
        0 <= i < s.len(),
        is_digit_char(s[i]),
    ensures
        skip_digits(s, i) == skip_digits(s, i + 1),
{
}

/// The skip point never lies before its start nor past the end.
proof fn lemma_skip_digits_range(s: Seq<char>, i: int)
    requires
        0 <= i <= s.len(),
    ensures
        i <= skip_digits(s, i) <= s.len(),
    decreases s.len() - i,
{
    if i < s.len() && is_digit_char(s[i]) {
        lemma_skip_digits_range(s, i + 1);
    }
}

/// Packs a rounded magnitude into a bit pattern. The value meant is
/// `(top + e) * 2^exp2` for some `0 <= e < 1` that is nonzero exactly
/// when `sticky` is set; the result is that value rounded to nearest
/// even, saturating to infinity past the finite range. The result is
/// never NaN and always carries the given sign.
fn round_pack(sign: bool, top: u128, exp2: i128, sticky: bool) -> (r: Quad)
    requires
        top >= 1,
        sticky ==> top >= 0x4_0000_0000_0000_0000_0000_0000_0000,
        -100_000_000_000_000_000_000 <= exp2 <= 100_000_000_000_000_000_000,
    ensures
        !is_nan_bits(r.bits),
        sign_of(r.bits) == sign,
{
    proof {
        lemma2_to64();
        lemma_pow2_quad();
    }
    let s_mask: u128 = if sign {
        SIGN_MASK
    } else {
        0
    };
    let l = bitlen_exec(top);
    proof {
        crate::convert::lemma_bitlen_bounds(top as nat);
    }
    let ebin: i128 = exp2 + (l as i128) - 1;
    if ebin > 16383 {
        proof {
            lemma_fields(sign, EXP_SPECIAL, 0);
        }
        return Quad { bits: s_mask + EXP_SPECIAL * FRAC_WEIGHT };
    }
    let drop: i128 = if ebin >= -16382 {
        (l as i128) - 113
    } else {
        (l as i128) - 113 + (-16382 - ebin)
    };
    if drop <= 0 {
        // Every kept bit is explicit: shift up into place, no rounding.
        let sh: u32 = (-drop) as u32;
        proof {
            lemma_pow2_pos(sh as nat);
            lemma_pow2_adds((l - 1) as nat, sh as nat);
            lemma_pow2_adds(l as nat, sh as nat);
            assert(top * pow2(sh as nat) < pow2((l + sh) as nat)) by (nonlinear_arith)
                requires
                    top < pow2(l as nat),
                    pow2(sh as nat) > 0,
                    pow2((l + sh) as nat) == pow2(l as nat) * pow2(sh as nat),
            ;
            if l + sh < 128 {
                vstd::arithmetic::power2::lemma_pow2_strictly_increases((l + sh) as nat, 128);
            }
        }
        let sig = top * pow2_exec(sh);
        if ebin >= -16382 {
            let e: u128 = (ebin + 16383) as u128;
            proof {
                assert(top * pow2(sh as nat) >= pow2((l - 1) as nat) * pow2(sh as nat))
                    by (nonlinear_arith)
                    requires
                        top >= pow2((l - 1) as nat),
                        pow2(sh as nat) > 0,
                ;
                lemma_fields(sign, e, (sig - FRAC_WEIGHT) as u128);
            }
            Quad { bits: s_mask + e * FRAC_WEIGHT + (sig - FRAC_WEIGHT) }
        } else {
            proof {
                assert(l + sh <= 112);
                if l + sh < 112 {
                    vstd::arithmetic::power2::lemma_pow2_strictly_increases((l + sh) as nat, 112);
                }
                assert(sig < FRAC_WEIGHT);
                lemma_fields(sign, 0, sig);
            }
            Quad { bits: s_mask + sig }
        }
    } else if drop >= l as i128 {
        // The whole significand lies below the least representable bit.
        let keep: bool = drop == l as i128 && (top > pow2_exec(l - 1) || sticky);
        let sig: u128 = if keep {
            1
        } else {
            0
        };
        proof {
            lemma_fields(sign, 0, sig);
        }
        Quad { bits: s_mask + sig }
    } else {
        // 1 <= drop < l <= 128: round the dropped tail to nearest even.
        let dr: u32 = drop as u32;
        proof {
            lemma_pow2_pos(dr as nat);
        }
        let p = pow2_exec(dr);
        proof {
            if dr < 127 {
                vstd::arithmetic::power2::lemma_pow2_strictly_increases(dr as nat, 127);
            }
        }
        let q = top / p;
        let rem = top % p;
        let up: bool = 2 * rem > p || (2 * rem == p && (sticky || q % 2 == 1));
        proof {
            vstd::arithmetic::div_mod::lemma_fundamental_div_mod(top as int, p as int);
            lemma_pow2_adds((l - dr) as nat, dr as nat);
            assert(q < pow2((l - dr) as nat)) by (nonlinear_arith)
                requires
                    top == p * q + rem,
                    0 <= rem < p,
                    top < pow2(l as nat),
                    p == pow2(dr as nat),
                    p > 0,
                    pow2(l as nat) == pow2((l - dr) as nat) * pow2(dr as nat),
            ;
            if l - dr < 113 {
                vstd::arithmetic::power2::lemma_pow2_strictly_increases((l - dr) as nat, 113);
            }
            lemma_pow2_adds((l - dr - 1) as nat, dr as nat);
            assert(q >= pow2((l - dr - 1) as nat)) by (nonlinear_arith)
                requires
                    top == p * q + rem,
                    0 <= rem < p,
                    top >= pow2((l - 1) as nat),
                    p == pow2(dr as nat),
                    p > 0,
                    pow2((l - 1) as nat) == pow2((l - dr - 1) as nat) * pow2(dr as nat),
            ;
        }
        let mut sig: u128 = q;
        let mut eb: i128 = ebin;
        if up {
            sig = sig + 1;
            if sig == 2 * FRAC_WEIGHT {
                sig = FRAC_WEIGHT;
                eb = eb + 1;
            }
        }
        if ebin >= -16382 {
            // The kept bits land in the normal range, up to a final carry
            // past the largest finite value.
            if eb > 16383 {
                proof {
                    lemma_fields(sign, EXP_SPECIAL, 0);
                }
                Quad { bits: s_mask + EXP_SPECIAL * FRAC_WEIGHT }
            } else {
                let e: u128 = (eb + 16383) as u128;
                proof {
                    lemma_fields(sign, e, (sig - FRAC_WEIGHT) as u128);
                }
                Quad { bits: s_mask + e * FRAC_WEIGHT + (sig - FRAC_WEIGHT) }
            }
        } else {
            // Subnormal range: the rounded significand, which may have
            // carried into the least normal value, is the low bits as is.
            proof {
                assert(l - dr <= 112);
                if l - dr < 112 {
                    vstd::arithmetic::power2::lemma_pow2_strictly_increases((l - dr) as nat, 112);
                }
                assert(sig <= FRAC_WEIGHT);
                if sig == FRAC_WEIGHT {
                    lemma_fields(sign, 1, 0);
                    assert(s_mask + sig == crate::fields_to_bits(sign, 1, 0));
                } else {
                    lemma_fields(sign, 0, sig);
                }
            }
            Quad { bits: s_mask + sig }
        }
    }
}

/// Reduces an exact scaled magnitude to at most 128 leading bits plus a
/// sticky flag, then packs it; the value meant is `big * 2^exp2`, with
/// `sticky0` marking an already-dropped nonzero tail strictly below the
/// last bit of `big`.
fn pack_big(sign: bool, big: &num_bigint::BigUint, exp2: i128, sticky0: bool) -> (r: Quad)
    requires
        0 < big_val(*big) < pow2(150_000),
        sticky0 ==> big_val(*big) >= pow2(130),
        -1_000_000_000_000 <= exp2 <= 1_000_000_000_000,
    ensures
        !is_nan_bits(r.bits),
        sign_of(r.bits) == sign,
{
    let lb = big_bits(big);
    if lb <= 128 {
        proof {
            lemma_pow2_quad();
            if lb < 128 {
                vstd::arithmetic::power2::lemma_pow2_strictly_increases(lb as nat, 128);
            }
            if sticky0 {
                vstd::arithmetic::power2::lemma_pow2_strictly_increases(128, 130);
                vstd::arithmetic::power2::lemma_pow2_strictly_increases(114, 128);
                lemma_pow2_adds(113, 1);
            }
        }
        let top = big_to_u128(big);
        round_pack(sign, top, exp2, sticky0)
    } else {
        proof {
            if lb - 1 >= 150_000 {
                if lb - 1 > 150_000 {
                    vstd::arithmetic::power2::lemma_pow2_strictly_increases(
                        150_000,
                        (lb - 1) as nat,
                    );
                }
                assert(false);
            }
        }
        let cut: u64 = lb - 115;
        let one = big_from_u128(1);
        let p2 = big_shl(&one, cut as usize);
        proof {
            lemma_pow2_pos(cut as nat);
            assert(big_val(p2) == pow2(cut as nat));
        }
        let qr = big_div_rem(big, &p2);
        let sticky = sticky0 || big_bits(&qr.1) != 0;
        proof {
            let q = big_val(qr.0);
            let p = pow2(cut as nat);
            let b = big_val(*big);
            lemma_pow2_adds(114, cut as nat);
            lemma_pow2_adds(115, cut as nat);
            assert(pow2(114) <= q < pow2(115)) by (nonlinear_arith)
                requires
                    b == q * p + big_val(qr.1),
                    0 <= big_val(qr.1) < p,
                    pow2((lb - 1) as nat) <= b < pow2(lb as nat),
                    p > 0,
                    pow2((lb - 1) as nat) == pow2(114) * p,
                    pow2(lb as nat) == pow2(115) * p,
            ;
            lemma_pow2_quad();
            vstd::arithmetic::power2::lemma_pow2_strictly_increases(115, 128);
            lemma2_to64();
            lemma_pow2_adds(113, 1);
        }
        let top = big_to_u128(&qr.0);
        round_pack(sign, top, exp2 + cut as i128, sticky)
    }
}

/// Divides a positive big value by 10^k with round-to-nearest-even and
/// packs it; `sticky0` marks a nonzero tail already dropped from the
/// value. Never NaN, and the sign is the one given.
fn scale_down(sign: bool, d_big: &num_bigint::BigUint, k: u32, sticky0: bool) -> (r: Quad)
    requires
        0 < big_val(*d_big) < pow2(48_000),
        k <= 17_000,
    ensures
        !is_nan_bits(r.bits),
        sign_of(r.bits) == sign,
{
    let p5 = big_pow5(k);
    proof {
        lemma_pow5_bounds(k as nat);
    }
    let b5 = big_bits(&p5);
    proof {
        if b5 >= 3 * k + 2 {
            if (b5 - 1) as nat > 3 * k as nat + 1 {
                vstd::arithmetic::power2::lemma_pow2_strictly_increases(
                    3 * k as nat + 1,
                    (b5 - 1) as nat,
                );
            }
            lemma2_to64();
            vstd::arithmetic::power2::lemma_pow2_adds(3 * k as nat, 1);
            vstd::arithmetic::power2::lemma_pow2_pos(3 * k as nat);
            assert(false);
        }
        assert(b5 <= 3 * k + 1);
    }
    let sh: u64 = b5 + 130;
    let t = big_shl(d_big, sh as usize);
    proof {
        lemma_pow2_pos(sh as nat);
        assert(big_val(t) > 0) by (nonlinear_arith)
            requires
                big_val(t) == big_val(*d_big) * pow2(sh as nat),
                big_val(*d_big) > 0,
                pow2(sh as nat) > 0,
        ;
    }
    let qr = big_div_rem(&t, &p5);
    let sticky = sticky0 || big_bits(&qr.1) != 0;
    proof {
        let q = big_val(qr.0);
        let five = pow5(k as nat);
        let tv = big_val(t);
        lemma_pow2_adds(130, b5 as nat);
        lemma_pow2_pos(130);
        lemma_pow2_pos(b5 as nat);
        assert(five < pow2(b5 as nat));
        assert(q >= pow2(130)) by (nonlinear_arith)
            requires
                tv == q * five + big_val(qr.1),
                0 <= big_val(qr.1) < five,
                tv == big_val(*d_big) * pow2(sh as nat),
                big_val(*d_big) >= 1,
                pow2(sh as nat) == pow2(130) * pow2(b5 as nat),
                0 < five < pow2(b5 as nat),
                pow2(130) > 0,
                pow2(b5 as nat) > 0,
        ;
    }
    proof {
        let q = big_val(qr.0);
        let five = pow5(k as nat);
        let tv = big_val(t);
        lemma_pow2_adds(48_000, sh as nat);
        assert(q <= tv) by (nonlinear_arith)
            requires
                tv == q * five + big_val(qr.1),
                big_val(qr.1) >= 0,
                five >= 1,
                q >= 0,
        ;
        assert(tv < pow2((48_000 + sh) as nat)) by (nonlinear_arith)
            requires
                tv == big_val(*d_big) * pow2(sh as nat),
                big_val(*d_big) < pow2(48_000),
                pow2(sh as nat) > 0,
                pow2((48_000 + sh) as nat) == pow2(48_000) * pow2(sh as nat),
        ;
        vstd::arithmetic::power2::lemma_pow2_strictly_increases((48_000 + sh) as nat, 150_000);
    }
    // The value is q * 2^(-sh-k), the remainder folded into sticky.
    pack_big(sign, &qr.0, -(sh as i128) - (k as i128), sticky)
}

/// Whether position `i` of an ASCII text holds a decimal digit.
fn is_digit_at(s: &str, i: usize) -> (r: bool)
    requires
        i < s@.len(),
    ensures
        r == is_digit_char(s@[i as int]),
{
    let c = s.get_char(i);
    c >= '0' && c <= '9'
}

impl Quad {
    /// Parses decimal text: an optional sign, digits with an optional
    /// fractional part, and an optional exponent. Text outside the ASCII
    /// character set is an `Encoding` error; ASCII text outside the
    /// grammar is `Malformed`. The value is rounded to nearest even; a
    /// plain signed integer of at most 33 digits converts exactly, and a
    /// zero mantissa gives the zero of the written sign. The result is
    /// never NaN.
    #[verifier::rlimit(100)]
    pub fn parse(s: &str) -> (r: Result<Quad, ParseError>)
        ensures
            r == Err::<Quad, ParseError>(ParseError::Encoding) <==> !vstd::string::is_ascii(s),
            vstd::string::is_ascii(s) ==> (r is Ok <==> valid_decimal(s@)),
            r is Ok ==> !is_nan_bits(r->Ok_0.bits),
            r is Ok ==> sign_of(r->Ok_0.bits) == has_minus(s@),
            vstd::string::is_ascii(s) && integer_form(s@) && skip_digits(s@, after_sign(s@, 0))
                - after_sign(s@, 0) <= 33 && dec_val(
                s@,
                after_sign(s@, 0),
                skip_digits(s@, after_sign(s@, 0)),
            ) > 0 ==> r is Ok && encodes_int(
                r->Ok_0.bits,
                if has_minus(s@) {
                    -(dec_val(s@, after_sign(s@, 0), skip_digits(s@, after_sign(s@, 0))) as int)
                } else {
                    dec_val(s@, after_sign(s@, 0), skip_digits(s@, after_sign(s@, 0))) as int
                },
            ),
            vstd::string::is_ascii(s) && integer_form(s@) && skip_digits(s@, after_sign(s@, 0))
                - after_sign(s@, 0) <= 33 && dec_val(
                s@,
                after_sign(s@, 0),
                skip_digits(s@, after_sign(s@, 0)),
            ) == 0 ==> r is Ok && r->Ok_0.bits == (if has_minus(s@) {
                SIGN_MASK
            } else {
                0
            }),
    {
        if !s.is_ascii() {
            return Err(ParseError::Encoding);
        }
        let n = s.unicode_len();
        let ghost sq = s@;
        let mut i: usize = 0;
        let mut neg = false;
        if n > 0 {
            let c = s.get_char(0);
            if c == '-' {
                neg = true;
                i = 1;
            } else if c == '+' {
                i = 1;
            }
        }
        let ghost i0 = i as int;
        proof {
            assert(i0 == after_sign(sq, 0));
            lemma_skip_digits_range(sq, i0);
        }
        // Integer-part digits.
        let mut mant: Vec<u8> = Vec::new();
        while i < n && is_digit_at(s, i)
            invariant
                vstd::string::is_ascii(s),
                n == sq.len(),
                sq == s@,
                i0 == after_sign(sq, 0),
                i0 <= i as int <= sq.len(),
                skip_digits(sq, i0) == skip_digits(sq, i as int),
                forall|k: int| i0 <= k < i as int ==> is_digit_char(sq[k]),
                mant@.len() == i - i0,
                digits_val(mant@) == dec_val(sq, i0, i as int),
                forall|k: int| 0 <= k < mant@.len() ==> mant@[k] < 10,
            decreases n - i,
        {
            let c = s.get_char(i);
            let d: u8 = ((c as u32) - 48) as u8;
            proof {
                lemma_skip_digits_step(sq, i as int);
                assert(mant@.push(d).drop_last() =~= mant@);
            }
            mant.push(d);
            i = i + 1;
        }
        let ghost i1 = i as int;
        proof {
            assert(i1 == skip_digits(sq, i0));
            lemma_skip_digits_range(sq, i1);
        }
        let int_digits = mant.len();
        // Fractional digits after an optional dot.
        let mut frac_count: usize = 0;
        let has_dot = i < n && s.get_char(i) == '.';
        if has_dot {
            i = i + 1;
            proof {
                lemma_skip_digits_range(sq, i as int);
            }
            while i < n && is_digit_at(s, i)
                invariant
                    vstd::string::is_ascii(s),
                    n == sq.len(),
                    sq == s@,
                    0 <= i1 + 1 <= i as int <= sq.len(),
                    skip_digits(sq, i1 + 1) == skip_digits(sq, i as int),
                    mant@.len() == (i1 - i0) + (i as int - (i1 + 1)),
                    i0 <= i1,
                    frac_count == i as int - (i1 + 1),
                    forall|k: int| 0 <= k < mant@.len() ==> mant@[k] < 10,
                decreases n - i,
            {
                let c = s.get_char(i);
                let d: u8 = ((c as u32) - 48) as u8;
                proof {
                    lemma_skip_digits_step(sq, i as int);
                }
                mant.push(d);
                frac_count = frac_count + 1;
                i = i + 1;
            }
        }
        let ghost i2 = i as int;
        if mant.len() == 0 {
            return Err(ParseError::Malformed);
        }
        // Optional exponent.
        let mut exp_neg = false;
        let mut exp_mag: u64 = 0;
        if i < n {
            let c = s.get_char(i);
            if !(c == 'e' || c == 'E') {
                return Err(ParseError::Malformed);
            }
            i = i + 1;
            if i < n {
                let c2 = s.get_char(i);
                if c2 == '-' {
                    exp_neg = true;
                    i = i + 1;
                } else if c2 == '+' {
                    i = i + 1;
                }
            }
            let ghost i3 = i as int;
            proof {
                assert(i3 == after_sign(sq, i2 + 1));
                lemma_skip_digits_range(sq, i3);
            }
            let exp_start = i;
            while i < n && is_digit_at(s, i)
                invariant
                    vstd::string::is_ascii(s),
                    n == sq.len(),
                    sq == s@,
                    0 <= i3 <= i as int <= sq.len(),
                    skip_digits(sq, i3) == skip_digits(sq, i as int),
                    exp_mag <= 10_000_000,
                decreases n - i,
            {
                let c3 = s.get_char(i);
                let d: u64 = ((c3 as u32) - 48) as u64;
                proof {
                    lemma_skip_digits_step(sq, i as int);
                }
                if exp_mag < 1_000_000 {
                    exp_mag = exp_mag * 10 + d;
                }
                i = i + 1;
            }
            if i == exp_start || i < n {
                return Err(ParseError::Malformed);
            }
        } else {
            proof {
                assert(i2 == sq.len());
            }
        }
        // The value is mant * 10^(exp - frac_count), signed.
        let s_mask: u128 = if neg {
            SIGN_MASK
        } else {
            0
        };
        proof {
            lemma_pow2_quad();
            lemma_fields(neg, 0, 0);
        }
        if int_digits == mant.len() && !has_dot && i == n && mant.len() <= 33 && exp_mag == 0 {
            // Exact path: a plain integer of at most 33 digits.
            proof {
                lemma_dec_val_bound(sq, i0, i1);
                lemma_pow10_33();
            }
            let mut acc: u128 = 0;
            let mut j: usize = 0;
            while j < mant.len()
                invariant
                    mant@.len() <= 33,
                    j <= mant@.len(),
                    forall|k: int| 0 <= k < mant@.len() ==> mant@[k] < 10,
                    acc == digits_val(mant@.subrange(0, j as int)),
                    acc < pow10(j as nat),
                    pow10(33) < pow2(113),
                    pow2(113) == 2 * FRAC_WEIGHT,
                decreases mant@.len() - j,
            {
                proof {
                    lemma_pow10_mono(j as nat, 33);
                    assert(mant@.subrange(0, j + 1).drop_last() =~= mant@.subrange(0, j as int));
                    assert(acc * 10 + mant@[j as int] < pow10((j + 1) as nat)) by (nonlinear_arith)
                        requires
                            acc < pow10(j as nat),
                            mant@[j as int] < 10,
                            pow10((j + 1) as nat) == 10 * pow10(j as nat),
                    ;
                }
                acc = acc * 10 + (mant[j] as u128);
                j = j + 1;
            }
            proof {
                assert(mant@.subrange(0, mant@.len() as int) =~= mant@);
                lemma_pow10_mono(mant@.len() as nat, 33);
            }
            let q = Quad::from_u128(acc);
            if neg {
                proof {
                    lemma_bits_to_fields(q.bits);
                    lemma_fields(true, exp_of(q.bits), frac_of(q.bits));
                    if acc == 0 {
                        lemma_fields(true, 0, 0);
                    }
                }
                return Ok(Quad { bits: q.bits + SIGN_MASK });
            }
            return Ok(q);
        }
        // General path through exact big-integer scaling. Strip leading
        // zeros from the collected digits first.
        let mut lead: usize = 0;
        while lead < mant.len() && mant[lead] == 0
            invariant
                lead <= mant@.len(),
            decreases mant@.len() - lead,
        {
            lead = lead + 1;
        }
        if lead == mant.len() {
            // Every digit is zero: the zero of the written sign.
            return Ok(Quad { bits: s_mask });
        }
        let mut norm: Vec<u8> = Vec::new();
        let mut j = lead;
        while j < mant.len()
            invariant
                lead <= j <= mant@.len(),
                norm@.len() == j - lead,
                forall|k: int| 0 <= k < mant@.len() ==> mant@[k] < 10,
                forall|k: int| 0 <= k < norm@.len() ==> norm@[k] < 10,
            decreases mant@.len() - j,
        {
            let d = mant[j];
            norm.push(d);
            j = j + 1;
        }
        let dexp: i128 = (if exp_neg {
            -(exp_mag as i128)
        } else {
            exp_mag as i128
        }) - (frac_count as i128);
        if norm.len() > 11000 {
            // Beyond any count of digits a finite value distinguishes:
            // keep the leading digits and fold the tail into the sticky
            // flag of the scaled division.
            let mut head: Vec<u8> = Vec::new();
            let mut tail_nonzero = false;
            let mut j2: usize = 0;
            while j2 < norm.len()
                invariant
                    j2 <= norm@.len(),
                    11000 < norm@.len(),
                    head@.len() == (if j2 < 11000 {
                        j2 as int
                    } else {
                        11000
                    }),
                    forall|k: int| 0 <= k < norm@.len() ==> norm@[k] < 10,
                    forall|k: int| 0 <= k < head@.len() ==> head@[k] < 10,
                    head@.len() > 0 ==> head@[0] == norm@[0],
                decreases norm@.len() - j2,
            {
                let d = norm[j2];
                if j2 < 11000 {
                    head.push(d);
                } else if d != 0 {
                    tail_nonzero = true;
                }
                j2 = j2 + 1;
            }
            let e_all: i128 = dexp + (norm.len() as i128) - 11000;
            if e_all >= -6065 {
                proof {
                    lemma_fields(neg, EXP_SPECIAL, 0);
                }
                return Ok(Quad { bits: s_mask + EXP_SPECIAL * FRAC_WEIGHT });
            }
            if e_all <= -15970 {
                return Ok(Quad { bits: s_mask });
            }
            let h_big = big_from_digits(&head);
            if big_bits(&h_big) == 0 {
                return Ok(Quad { bits: s_mask });
            }
            proof {
                lemma_digits_val_bound(head@);
                lemma_pow10_mono(head@.len() as nat, 11000);
                lemma_pow10_le_pow2(11000);
                vstd::arithmetic::power2::lemma_pow2_strictly_increases(44000, 48000);
            }
            return Ok(scale_down(neg, &h_big, (-e_all) as u32, tail_nonzero));
        }
        if dexp > 4933 {
            proof {
                lemma_fields(neg, EXP_SPECIAL, 0);
            }
            return Ok(Quad { bits: s_mask + EXP_SPECIAL * FRAC_WEIGHT });
        }
        if dexp + (norm.len() as i128) < -4970 {
            return Ok(Quad { bits: s_mask });
        }
        let d_big = big_from_digits(&norm);
        if big_bits(&d_big) == 0 {
            return Ok(Quad { bits: s_mask });
        }
        proof {
            lemma_digits_val_bound(norm@);
            lemma_pow10_mono(norm@.len() as nat, 11000);
            lemma_pow10_le_pow2(11000);
            vstd::arithmetic::power2::lemma_pow2_strictly_increases(44000, 48000);
        }
        if dexp >= 0 {
            let p5 = big_pow5(dexp as u32);
            let m1 = big_mul(&d_big, &p5);
            let m2 = big_shl(&m1, dexp as usize);
            proof {
                lemma_pow5_bounds(dexp as nat);
                lemma_pow2_pos(dexp as nat);
                assert(big_val(m2) > 0) by (nonlinear_arith)
                    requires
                        big_val(m2) == big_val(d_big) * pow5(dexp as nat) * pow2(dexp as nat),
                        big_val(d_big) > 0,
                        pow5(dexp as nat) > 0,
                        pow2(dexp as nat) > 0,
                ;
                if 3 * dexp < 14799 {
                    vstd::arithmetic::power2::lemma_pow2_strictly_increases(
                        (3 * dexp) as nat,
                        14799,
                    );
                }
                if dexp < 4933 {
                    vstd::arithmetic::power2::lemma_pow2_strictly_increases(dexp as nat, 4933);
                }
                lemma_pow2_adds(44000, 14799);
                lemma_pow2_adds(58799, 4933);
                assert(big_val(m2) < pow2(44000) * pow2(14799) * pow2(4933)) by (nonlinear_arith)
                    requires
                        big_val(m2) == big_val(d_big) * pow5(dexp as nat) * pow2(dexp as nat),
                        0 < big_val(d_big) < pow2(44000),
                        0 < pow5(dexp as nat) <= pow2(14799),
                        0 < pow2(dexp as nat) <= pow2(4933),
                ;
                vstd::arithmetic::power2::lemma_pow2_strictly_increases(63732, 150_000);
            }
            Ok(pack_big(neg, &m2, 0, false))
        } else {
            Ok(scale_down(neg, &d_big, (-dexp) as u32, false))
        }
    }
}


/// The single-character text of a decimal digit value.
fn digit_str(d: u8) -> (r: &'static str)
    requires
        d < 10,
    ensures
        r@.len() == 1,
        is_digit_char(r@[0]),
{
    let r = match d {
        0 => "0",
        1 => "1",
        2 => "2",
        3 => "3",
        4 => "4",
        5 => "5",
        6 => "6",
        7 => "7",
        8 => "8",
        _ => "9",
    };
    proof {
        reveal_strlit("0");
        reveal_strlit("1");
        reveal_strlit("2");
        reveal_strlit("3");
        reveal_strlit("4");
        reveal_strlit("5");
        reveal_strlit("6");
        reveal_strlit("7");
        reveal_strlit("8");
        reveal_strlit("9");
    }
    r
}

/// Appends the decimal text of an unsigned number.
fn append_uint(out: &mut String, v: u128)
    ensures
        final(out)@.len() > old(out)@.len(),
        old(out)@.len() > 0 ==> final(out)@[0] == old(out)@[0],
{
    let mut digits: Vec<u8> = Vec::new();
    let mut t = v;
    digits.push((t % 10) as u8);
    t = t / 10;
    while t > 0
        invariant
            digits@.len() >= 1,
            forall|k: int| 0 <= k < digits@.len() ==> digits@[k] < 10,
        decreases t,
    {
        digits.push((t % 10) as u8);
        t = t / 10;
    }
    let mut j = digits.len();
    while j > 0
        invariant
            j <= digits@.len(),
            forall|k: int| 0 <= k < digits@.len() ==> digits@[k] < 10,
            out@.len() >= old(out)@.len() + (digits@.len() - j),
            old(out)@.len() > 0 ==> out@[0] == old(out)@[0],
        decreases j,
    {
        j = j - 1;
        let d = digits[j];
        out.append(digit_str(d));
    }
}

impl Quad {
    /// Renders the value as decimal text with the given number of
    /// significant digits (36 when 0 is passed, the count that makes the
    /// text round-trip bit-exactly); special values render as `NaN`,
    /// `inf`, `-inf`, `0` and `-0`, and every finite nonzero value as a
    /// signed significand with an explicit decimal exponent. The digits
    /// are those of the exact decimal expansion of the stored value,
    /// rounded to nearest at the last kept digit, ties to even.
    pub fn to_string_fmt(&self, digits: usize) -> (r: String)
        ensures
            r@.len() > 0,
            is_nan_bits(self.bits) ==> r@ == "NaN"@,
            is_inf_bits(self.bits) && !sign_of(self.bits) ==> r@ == "inf"@,
            is_inf_bits(self.bits) && sign_of(self.bits) ==> r@ == "-inf"@,
            is_zero_bits(self.bits) && !sign_of(self.bits) ==> r@ == "0"@,
            is_zero_bits(self.bits) && sign_of(self.bits) ==> r@ == "-0"@,
            !is_nan_bits(self.bits) ==> (r@[0] == '-') == sign_of(self.bits),
    {
        proof {
            reveal_strlit("NaN");
            reveal_strlit("inf");
            reveal_strlit("-inf");
            reveal_strlit("0");
            reveal_strlit("-0");
            lemma_pow2_quad();
        }
        if self.is_nan() {
            return String::from_str("NaN");
        }
        let neg = self.is_sign_negative();
        if self.is_infinite() {
            if neg {
                return String::from_str("-inf");
            }
            return String::from_str("inf");
        }
        let e = self.exp_bits();
        let frac = self.fract_bits();
        if e == 0 && frac == 0 {
            if neg {
                return String::from_str("-0");
            }
            return String::from_str("0");
        }
        let d: usize = if digits == 0 {
            36
        } else if digits > 50 {
            50
        } else {
            digits
        };
        let sig: u128 = if e == 0 {
            frac
        } else {
            frac + FRAC_WEIGHT
        };
        let eu: i128 = if e == 0 {
            1
        } else {
            e as i128
        };
        let exp2: i128 = eu - 16383 - 112;
        let sig_big = big_from_u128(sig);
        let mut k10: u32 = 0;
        let scaled: num_bigint::BigUint;
        if exp2 >= 0 {
            scaled = big_shl(&sig_big, exp2 as usize);
        } else {
            k10 = (-exp2) as u32;
            let p5 = big_pow5(k10);
            scaled = big_mul(&sig_big, &p5);
        }
        // The exact decimal expansion of the magnitude is the digit text
        // of `scaled` with the point shifted `k10` places left.
        let dv = big_to_digits(&scaled);
        let mut dec_exp: i128 = (dv.len() as i128) - 1 - (k10 as i128);
        let keep_n: usize = if d < dv.len() {
            d
        } else {
            dv.len()
        };
        let mut round_up = false;
        if keep_n < dv.len() {
            let g = dv[keep_n];
            if g > 5 {
                round_up = true;
            } else if g == 5 {
                let mut tail = false;
                let mut j: usize = keep_n + 1;
                while j < dv.len()
                    invariant
                        keep_n + 1 <= j <= dv@.len(),
                    decreases dv@.len() - j,
                {
                    if dv[j] != 0 {
                        tail = true;
                    }
                    j = j + 1;
                }
                round_up = tail || dv[keep_n - 1] % 2 == 1;
            }
        }
        let mut kept: Vec<u8> = Vec::new();
        if !round_up {
            let mut j: usize = 0;
            while j < keep_n
                invariant
                    j <= keep_n <= dv@.len(),
                    kept@.len() == j,
                    forall|k: int| 0 <= k < dv@.len() ==> dv@[k] < 10,
                    forall|k: int| 0 <= k < kept@.len() ==> kept@[k] < 10,
                decreases keep_n - j,
            {
                let dd = dv[j];
                kept.push(dd);
                j = j + 1;
            }
        } else {
            // Find the last kept digit below nine; everything after it
            // wraps to zero when the carry lands.
            let mut r_at: usize = keep_n;
            let mut found = false;
            let mut j: usize = 0;
            while j < keep_n
                invariant
                    j <= keep_n <= dv@.len(),
                    forall|k: int| 0 <= k < dv@.len() ==> dv@[k] < 10,
                    found ==> r_at < keep_n && dv@[r_at as int] != 9,
                decreases keep_n - j,
            {
                if dv[j] != 9 {
                    r_at = j;
                    found = true;
                }
                j = j + 1;
            }
            if !found {
                // All nines: the carry makes a longer number.
                kept.push(1);
                let mut j2: usize = 1;
                while j2 < keep_n
                    invariant
                        1 <= j2 <= keep_n,
                        kept@.len() == j2,
                        forall|k: int| 0 <= k < kept@.len() ==> kept@[k] < 10,
                    decreases keep_n - j2,
                {
                    kept.push(0);
                    j2 = j2 + 1;
                }
                dec_exp = dec_exp + 1;
            } else {
                let mut j2: usize = 0;
                while j2 < r_at
                    invariant
                        j2 <= r_at < keep_n <= dv@.len(),
                        kept@.len() == j2,
                        forall|k: int| 0 <= k < dv@.len() ==> dv@[k] < 10,
                        forall|k: int| 0 <= k < kept@.len() ==> kept@[k] < 10,
                    decreases r_at - j2,
                {
                    let dd = dv[j2];
                    kept.push(dd);
                    j2 = j2 + 1;
                }
                let dd = dv[r_at];
                kept.push(dd + 1);
                let mut j3: usize = r_at + 1;
                while j3 < keep_n
                    invariant
                        r_at + 1 <= j3 <= keep_n,
                        kept@.len() == j3,
                        forall|k: int| 0 <= k < kept@.len() ==> kept@[k] < 10,
                    decreases keep_n - j3,
                {
                    kept.push(0);
                    j3 = j3 + 1;
                }
            }
        }
        // Write sign, leading digit, point, remaining digits, exponent.
        let mut out = String::new();
        proof {
            reveal_strlit("-");
        }
        if neg {
            out.append("-");
        }
        let first = kept[0];
        out.append(digit_str(first));
        proof {
            assert((out@[0] == '-') == neg);
        }
        if kept.len() > 1 {
            out.append(".");
            let mut j: usize = 1;
            while j < kept.len()
                invariant
                    1 <= j <= kept@.len(),
                    forall|k: int| 0 <= k < kept@.len() ==> kept@[k] < 10,
                    out@.len() >= 1,
                    (out@[0] == '-') == neg,
                decreases kept@.len() - j,
            {
                let dd = kept[j];
                out.append(digit_str(dd));
                j = j + 1;
            }
        }
        out.append("e");
        if dec_exp < 0 {
            out.append("-");
            append_uint(&mut out, (-dec_exp) as u128);
        } else {
            append_uint(&mut out, dec_exp as u128);
        }
        out
    }

    /// Renders the value with 36 significant digits, enough for the text
    /// to parse back to the same bit pattern.
    pub fn to_string(&self) -> (r: String)
        ensures
            r@.len() > 0,
            is_nan_bits(self.bits) ==> r@ == "NaN"@,
    {
        self.to_string_fmt(36)
    }
}

} // verus!
