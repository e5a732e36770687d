use quadfp::arith::QuadBackend;
use quadfp::classify::FpCategory;
use quadfp::codec::ParseError;
use quadfp::consts::{
    INFINITY_BITS, MAX_BITS, MIN_POSITIVE_BITS, NAN_BITS, NEG_ONE_BITS, NEG_ZERO_BITS, ONE_BITS,
    TWO_BITS, ZERO_BITS,
};
use quadfp::{Quad, EXP_SPECIAL, FRAC_WEIGHT, SIGN_MASK};

/// A test backend that routes the arithmetic through the host's binary64
/// unit: exact on the small integral operands the tests use, and a
/// faithful NaN/infinity propagator.
struct HostBackend;

fn via(f: impl Fn(f64) -> f64, a: Quad) -> Quad {
    Quad::from_f64_bits(f(f64::from_bits(a.to_f64_bits())).to_bits())
}

fn via2(f: impl Fn(f64, f64) -> f64, a: Quad, b: Quad) -> Quad {
    Quad::from_f64_bits(
        f(f64::from_bits(a.to_f64_bits()), f64::from_bits(b.to_f64_bits())).to_bits(),
    )
}

impl QuadBackend for HostBackend {
    fn add(&self, a: Quad, b: Quad) -> Quad {
        via2(|x, y| x + y, a, b)
    }
    fn sub(&self, a: Quad, b: Quad) -> Quad {
        via2(|x, y| x - y, a, b)
    }
    fn mul(&self, a: Quad, b: Quad) -> Quad {
        if !a.is_nan() && b.bits == ONE_BITS {
            return a;
        }
        if !b.is_nan() && a.bits == ONE_BITS {
            return b;
        }
        via2(|x, y| x * y, a, b)
    }
    fn div(&self, a: Quad, b: Quad) -> Quad {
        if !a.is_nan() && b.bits == ONE_BITS {
            return a;
        }
        if a.bits == b.bits && a.is_finite() && a.abs().bits != 0 {
            return Quad::one();
        }
        via2(|x, y| x / y, a, b)
    }
    fn rem(&self, a: Quad, b: Quad) -> Quad {
        via2(|x, y| x % y, a, b)
    }
    fn fma(&self, a: Quad, b: Quad, c: Quad) -> Quad {
        let x = f64::from_bits(a.to_f64_bits());
        let y = f64::from_bits(b.to_f64_bits());
        let z = f64::from_bits(c.to_f64_bits());
        Quad::from_f64_bits(x.mul_add(y, z).to_bits())
    }
    fn sqrt(&self, a: Quad) -> Quad {
        via(|x| x.sqrt(), a)
    }
    fn pow(&self, a: Quad, b: Quad) -> Quad {
        via2(|x, y| x.powf(y), a, b)
    }
    fn exp(&self, a: Quad) -> Quad {
        via(|x| x.exp(), a)
    }
    fn floor(&self, a: Quad) -> Quad {
        via(|x| x.floor(), a)
    }
    fn ceil(&self, a: Quad) -> Quad {
        via(|x| x.ceil(), a)
    }
    fn round(&self, a: Quad) -> Quad {
        via(|x| x.round(), a)
    }
    fn trunc(&self, a: Quad) -> Quad {
        via(|x| x.trunc(), a)
    }
}

#[test]
fn byte_round_trip_from_then_to() {
    let patterns: [[u8; 16]; 3] = [
        [0; 16],
        [1, 2, 3, 4, 5, 6, 7, 8, 9, 10, 11, 12, 13, 14, 15, 16],
        [0xFF; 16],
    ];
    for b in patterns {
        assert_eq!(Quad::from_platform_bytes(b).to_platform_bytes(), b);
    }
}

#[test]
fn byte_round_trip_to_then_from() {
    let q = Quad::pi();
    let b = q.to_platform_bytes();
    assert_eq!(Quad::from_platform_bytes(b).bits, q.bits);
    assert_eq!(Quad::from_platform_bytes(q.inner()).bits, q.bits);
    assert_eq!(Quad::from_platform_bytes(q.into_inner()).bits, q.bits);
}

#[test]
fn from_arr_reads_canonical_order() {
    // The input array is in canonical (logical) order, sign byte first;
    // the reversal into storage order is from_arr's one transform.
    let mut canonical = [0u8; 16];
    canonical[0] = 1;
    assert_eq!(Quad::from_arr(canonical).bits, 1u128 << 120);
    let one_canonical: [u8; 16] = [0x3F, 0xFF, 0, 0, 0, 0, 0, 0, 0, 0, 0, 0, 0, 0, 0, 0];
    assert_eq!(Quad::from_arr(one_canonical).bits, ONE_BITS);
    let mut low = [0u8; 16];
    low[15] = 1;
    assert_eq!(Quad::from_arr(low).bits, 1);
}

#[test]
fn platform_bytes_little_endian_order() {
    let q = Quad::one();
    let b = q.to_platform_bytes();
    assert_eq!(b[15], 0x3F);
    assert_eq!(b[14], 0xFF);
    assert_eq!(b[0], 0);
}

#[test]
fn raw_integer_views() {
    let q = Quad::from_raw_u128(0x1234_5678_9ABC_DEF0_1122_3344_5566_7788);
    assert_eq!(q.inner_as_u128(), 0x1234_5678_9ABC_DEF0_1122_3344_5566_7788);
    let n = Quad::from_raw_i128(-1);
    assert_eq!(n.inner_as_u128(), u128::MAX);
    assert_eq!(n.inner_as_i128(), -1);
}

#[test]
fn text_round_trip_constants() {
    for q in [
        Quad::one(),
        Quad::two(),
        Quad::pi(),
        Quad::e(),
        Quad::min_positive(),
        Quad::max_value(),
        Quad::min_value(),
        Quad::from_u64(12345),
        Quad::from_i64(-987654321),
    ] {
        let s = q.to_string();
        let back = Quad::parse(&s).unwrap();
        assert_eq!(back.bits, q.bits, "round trip failed for {}", s);
    }
}

#[test]
fn text_round_trip_parsed_values() {
    for text in ["0.1", "3.14159", "-2.5e-10", "1e-4950", "9.999999e4931", "123456.789e-200"] {
        let q = Quad::parse(text).unwrap();
        let s = q.to_string();
        let back = Quad::parse(&s).unwrap();
        assert_eq!(back.bits, q.bits, "round trip failed for {} -> {}", text, s);
    }
}

#[test]
fn signed_zeros_classify_and_compare() {
    assert_eq!(Quad::zero().classify(), FpCategory::Zero);
    assert_eq!(Quad::neg_zero().classify(), FpCategory::Zero);
    assert!(!Quad::zero().is_sign_negative());
    assert!(Quad::neg_zero().is_sign_negative());
    assert!(Quad::zero().is_sign_positive());
    assert!(Quad::zero() == Quad::neg_zero());
    assert_ne!(Quad::zero().bits, Quad::neg_zero().bits);
}

#[test]
fn special_values_classify() {
    assert_eq!(Quad::infinity().classify(), FpCategory::Infinite);
    assert_eq!(Quad::neg_infinity().classify(), FpCategory::Infinite);
    assert_eq!(Quad::nan().classify(), FpCategory::Nan);
    // Any all-ones exponent with a nonzero fraction is NaN, whatever the
    // payload.
    for payload in [1u128, 0x55, 1 << 100, FRAC_WEIGHT - 1] {
        let q = Quad::from_raw_u128(EXP_SPECIAL * FRAC_WEIGHT + payload);
        assert_eq!(q.classify(), FpCategory::Nan);
        assert!(q.is_nan());
    }
}

#[test]
fn smallest_subnormal() {
    let q = Quad::from_raw_u128(1);
    assert_eq!(q.classify(), FpCategory::Subnormal);
    assert_eq!(Quad::min_positive().bits, MIN_POSITIVE_BITS);
    assert!(Quad::min_positive() == q);
}

#[test]
fn conversion_zero_and_u64_max() {
    assert_eq!(Quad::from_i64(0).to_f64_bits(), 0);
    assert_eq!(f64::from_bits(Quad::from_i64(0).to_f64_bits()), 0.0);
    assert_eq!(Quad::from_u64(u64::MAX).to_u64(), u64::MAX);
}

#[test]
fn integer_conversions_exact() {
    assert_eq!(Quad::from_i64(-5).to_i64(), -5);
    assert_eq!(Quad::from_u32(7).bits, Quad::from_u8(7).bits);
    assert_eq!(Quad::from_i16(-300).to_i32(), -300);
    assert_eq!(Quad::from_usize(42).to_usize(), 42);
    assert_eq!(Quad::from_isize(-42).to_isize(), -42);
    assert_eq!(Quad::from_i128(i128::MIN).to_i128(), i128::MIN);
    assert_eq!(Quad::from_u64(1).bits, ONE_BITS);
    assert_eq!(Quad::from_u8(2).bits, TWO_BITS);
}

#[test]
fn integer_conversions_saturate() {
    assert_eq!(Quad::from_i64(300).to_u8(), 255);
    assert_eq!(Quad::from_i64(-3).to_u8(), 0);
    assert_eq!(Quad::nan().to_i32(), 0);
    assert_eq!(Quad::infinity().to_u16(), u16::MAX);
    assert_eq!(Quad::neg_infinity().to_i64(), i64::MIN);
    assert_eq!(Quad::max_value().to_u64(), u64::MAX);
}

#[test]
fn u128_conversion_rounds_to_nearest_even() {
    // A tie at one bit past the 113-bit significand resolves to the even
    // neighbour.
    let tie = (1u128 << 113) + 1;
    assert_eq!(Quad::from_u128(tie).to_u128(), 1u128 << 113);
    // A tie whose lower neighbour is odd resolves upward.
    let tie_up = (1u128 << 113) + 3;
    assert_eq!(Quad::from_u128(tie_up).to_u128(), (1u128 << 113) + 4);
    assert_eq!(Quad::from_u128(1u128 << 113).to_u128(), 1u128 << 113);
}

#[test]
fn classification_fields() {
    let five = Quad::from_u64(5);
    assert_eq!(five.classify(), FpCategory::Normal);
    assert!(five.is_normal());
    assert!(five.is_finite());
    assert!(!five.is_infinite());
    assert_eq!(Quad::one().exp_bits(), 16383);
    assert_eq!(Quad::one().fract_bits(), 0);
    assert_eq!(Quad::two().exp_bits(), 16384);
}

#[test]
fn recip_of_one_is_one() {
    let be = HostBackend;
    assert_eq!(Quad::one().recip(&be).bits, ONE_BITS);
}

#[test]
fn sqrt_of_two_times_two_is_two() {
    let be = HostBackend;
    let four = be.mul(Quad::two(), Quad::from_u8(2));
    assert_eq!(four.to_u64(), 4);
    assert_eq!(four.sqrt(&be).bits, TWO_BITS);
}

#[test]
fn nan_is_not_equal_to_itself() {
    assert!(Quad::nan() != Quad::nan());
    let n = Quad::nan();
    assert!(n != n);
    assert!(Quad::one() == Quad::one());
    assert!(Quad::one() != Quad::two());
}

#[test]
fn arithmetic_with_nan_gives_nan() {
    let be = HostBackend;
    let n = Quad::nan();
    let x = Quad::from_u64(3);
    assert!(be.add(n, x).is_nan());
    assert!(be.sub(x, n).is_nan());
    assert!(be.mul(n, x).is_nan());
    assert!(be.div(x, n).is_nan());
    assert!(x.mul_add(n, x, &be).is_nan());
    assert!(n.sqrt(&be).is_nan());
    assert!(n.powi(3, &be).is_nan());
    assert!(n.exp(&be).is_nan());
}

#[test]
fn powi_zero_and_one() {
    let be = HostBackend;
    assert_eq!(Quad::pi().powi(0, &be).bits, ONE_BITS);
    assert_eq!(Quad::pi().powi(1, &be).bits, Quad::pi().bits);
    assert_eq!(Quad::from_i64(-7).powi(1, &be).bits, Quad::from_i64(-7).bits);
}

#[test]
fn powi_by_squaring() {
    let be = HostBackend;
    assert_eq!(Quad::two().powi(10, &be).to_u64(), 1024);
    assert_eq!(Quad::from_u8(3).powi(4, &be).to_u64(), 81);
    assert_eq!(Quad::two().powi(-1, &be).to_f64_bits(), (0.5f64).to_bits());
}

#[test]
fn abs_and_signum() {
    assert_eq!(Quad::from_i64(-5).abs().bits, Quad::from_i64(5).bits);
    assert_eq!(Quad::from_i64(5).abs().bits, Quad::from_i64(5).bits);
    assert_eq!(Quad::neg_zero().abs().bits, ZERO_BITS);
    assert_eq!(Quad::from_i64(-5).signum().bits, NEG_ONE_BITS);
    assert_eq!(Quad::from_i64(5).signum().bits, ONE_BITS);
    assert_eq!(Quad::neg_zero().signum().bits, NEG_ONE_BITS);
    assert!(Quad::nan().signum().is_nan());
}

#[test]
fn fract_is_exact_bit_logic() {
    assert_eq!(Quad::parse("5.25").unwrap().fract().to_f64_bits(), (0.25f64).to_bits());
    assert_eq!(Quad::parse("-5.25").unwrap().fract().to_f64_bits(), (-0.25f64).to_bits());
    // An integral operand gives the zero of its sign.
    assert_eq!(Quad::from_i64(-7).fract().bits, NEG_ZERO_BITS);
    assert_eq!(Quad::from_u64(7).fract().bits, ZERO_BITS);
    assert_eq!(Quad::neg_zero().fract().bits, NEG_ZERO_BITS);
    // A magnitude below one is its own fractional part.
    let half = Quad::parse("0.5").unwrap();
    assert_eq!(half.fract().bits, half.bits);
    assert!(Quad::nan().fract().is_nan());
}

#[test]
fn trunc_family_through_backend() {
    let be = HostBackend;
    let q = Quad::parse("2.75").unwrap();
    assert_eq!(q.trunc(&be).to_u64(), 2);
    assert_eq!(q.floor(&be).to_u64(), 2);
    assert_eq!(q.ceil(&be).to_u64(), 3);
    assert_eq!(q.round(&be).to_u64(), 3);
    assert_eq!(q.fract().to_f64_bits(), (0.75f64).to_bits());
    assert!(Quad::infinity().fract().is_nan());
}

#[test]
fn parse_accepts_the_grammar() {
    assert_eq!(Quad::parse("+5").unwrap().bits, Quad::from_u64(5).bits);
    assert_eq!(Quad::parse("-17").unwrap().bits, Quad::from_i64(-17).bits);
    assert_eq!(Quad::parse("0").unwrap().bits, ZERO_BITS);
    assert_eq!(Quad::parse("-0").unwrap().bits, NEG_ZERO_BITS);
    assert_eq!(Quad::parse("-0.0e5").unwrap().bits, NEG_ZERO_BITS);
    assert_eq!(Quad::parse("2.5e1").unwrap().to_u64(), 25);
    assert_eq!(Quad::parse("25e-1").unwrap().to_f64_bits(), (2.5f64).to_bits());
    assert_eq!(Quad::parse(".5").unwrap().to_f64_bits(), (0.5f64).to_bits());
    assert_eq!(Quad::parse("5.").unwrap().to_u64(), 5);
    // 2^128 - 1 rounds up to 2^128, which saturates back at the maximum.
    assert_eq!(Quad::parse("340282366920938463463374607431768211455").unwrap().to_u128(), u128::MAX);
}

#[test]
fn parse_rejects_bad_text() {
    assert_eq!(Quad::parse(""), Err(ParseError::Malformed));
    assert_eq!(Quad::parse("abc"), Err(ParseError::Malformed));
    assert_eq!(Quad::parse("-"), Err(ParseError::Malformed));
    assert_eq!(Quad::parse("."), Err(ParseError::Malformed));
    assert_eq!(Quad::parse("1e"), Err(ParseError::Malformed));
    assert_eq!(Quad::parse("1e+"), Err(ParseError::Malformed));
    assert_eq!(Quad::parse("1.2.3"), Err(ParseError::Malformed));
    assert_eq!(Quad::parse("1x"), Err(ParseError::Malformed));
    assert_eq!(Quad::parse(" 1"), Err(ParseError::Malformed));
    assert_eq!(Quad::parse("é1"), Err(ParseError::Encoding));
    assert_eq!(Quad::parse("1·5"), Err(ParseError::Encoding));
}

#[test]
fn parse_extreme_exponents() {
    assert_eq!(Quad::parse("1e5000").unwrap().bits, INFINITY_BITS);
    assert_eq!(Quad::parse("-1e5000").unwrap().bits, SIGN_MASK + EXP_SPECIAL * FRAC_WEIGHT);
    assert_eq!(Quad::parse("1e-5000").unwrap().bits, ZERO_BITS);
    assert_eq!(Quad::parse("-1e-5000").unwrap().bits, NEG_ZERO_BITS);
    assert!(Quad::parse("1e4932").unwrap().is_finite());
    assert!(Quad::parse("2e4932").unwrap().is_infinite());
}

#[test]
fn format_special_values() {
    assert_eq!(Quad::nan().to_string(), "NaN");
    assert_eq!(Quad::infinity().to_string(), "inf");
    assert_eq!(Quad::neg_infinity().to_string(), "-inf");
    assert_eq!(Quad::zero().to_string(), "0");
    assert_eq!(Quad::neg_zero().to_string(), "-0");
}

#[test]
fn format_exact_digits() {
    assert_eq!(Quad::from_u64(1).to_string_fmt(1), "1e0");
    assert_eq!(Quad::from_i64(-3).to_string_fmt(1), "-3e0");
    assert_eq!(Quad::from_u64(1500).to_string_fmt(2), "1.5e3");
    assert_eq!(Quad::from_u64(1500).to_string_fmt(4), "1.500e3");
    assert_eq!(Quad::parse("0.25").unwrap().to_string_fmt(2), "2.5e-1");
    // Rounding at the kept digit, ties to even.
    assert_eq!(Quad::from_u64(1250).to_string_fmt(2), "1.2e3");
    assert_eq!(Quad::from_u64(1350).to_string_fmt(2), "1.4e3");
    assert_eq!(Quad::from_u64(999).to_string_fmt(2), "1.0e3");
}

#[test]
fn float_bits_round_trip() {
    for v in [0.0f64, -0.0, 1.5, -2.25, 1.0e300, 5e-324, f64::MIN_POSITIVE, -123.456] {
        let q = Quad::from_f64_bits(v.to_bits());
        assert_eq!(q.to_f64_bits(), v.to_bits(), "f64 round trip failed for {}", v);
    }
    for v in [0.0f32, -0.0, 1.5, -2.25, 3.0e38, 1e-45, -123.456] {
        let q = Quad::from_f32_bits(v.to_bits());
        assert_eq!(q.to_f32_bits(), v.to_bits(), "f32 round trip failed for {}", v);
    }
}

#[test]
fn float_bits_specials() {
    assert!(Quad::from_f64_bits(f64::NAN.to_bits()).is_nan());
    assert!(Quad::from_f64_bits(f64::INFINITY.to_bits()).is_infinite());
    assert!(Quad::from_f32_bits(f32::NEG_INFINITY.to_bits()).is_sign_negative());
    assert!(f64::from_bits(Quad::nan().to_f64_bits()).is_nan());
    assert_eq!(f64::from_bits(Quad::infinity().to_f64_bits()), f64::INFINITY);
    assert_eq!(f32::from_bits(Quad::neg_infinity().to_f32_bits()), f32::NEG_INFINITY);
    // Narrowing saturates out-of-range magnitudes to infinity.
    assert_eq!(f64::from_bits(Quad::max_value().to_f64_bits()), f64::INFINITY);
    assert_eq!(f32::from_bits(Quad::from_u128(u128::MAX).to_f32_bits()), f32::INFINITY);
    // A quad subnormal is far below half the least binary64 subnormal.
    assert_eq!(Quad::min_positive().to_f64_bits(), 0);
}

#[test]
fn constants_have_expected_values() {
    assert_eq!(Quad::one().bits, ONE_BITS);
    assert_eq!(Quad::nan().bits, NAN_BITS);
    assert_eq!(Quad::max_value().bits, MAX_BITS);
    assert_eq!(Quad::max_value().bits, Quad::min_value().bits - SIGN_MASK);
    assert_eq!(Quad::RADIX, 128);
    assert_eq!(Quad::MANTISSA_DIGITS, 113);
    assert_eq!(Quad::MAX_EXP, 16383);
    assert_eq!(Quad::MIN_EXP, -16382);
    assert_eq!(Quad::MAX_10_EXP, 4932);
    assert_eq!(Quad::MIN_10_EXP, -4931);
    assert_eq!(Quad::e().to_string_fmt(6), "2.71828e0");
    assert_eq!(Quad::pi().to_string_fmt(6), "3.14159e0");
}

struct Carrier(u128);

impl quadfp::layout::To16Bytes for Carrier {
    fn to_arr(&self) -> [u8; 16] {
        Quad::from_raw_u128(self.0).to_platform_bytes()
    }
    fn to_u128(&self) -> u128 {
        self.0
    }
    fn to_i128(&self) -> i128 {
        self.0 as i128
    }
}

#[test]
fn from_bits_carrier() {
    let c = Carrier(ONE_BITS);
    assert_eq!(Quad::from_bits(&c).bits, ONE_BITS);
}

#[test]
fn text_round_trip_bit_patterns() {
    // Finite patterns across the range: tiny subnormals, mid normals,
    // and values at the edges of the exponent range.
    let patterns: [u128; 10] = [
        1,
        0xABC,
        (1u128 << 112) - 1,                      // largest subnormal
        1u128 << 112,                            // smallest normal
        0x3FFF_1234_5678_9ABC_DEF0_1122_3344_5566,
        0x0001_0000_0000_0000_0000_0000_0000_0001,
        0x7FFE_FFFF_FFFF_FFFF_FFFF_FFFF_FFFF_FFFF,  // largest finite
        0x4000_921F_B544_42D1_8469_898C_C517_01B8,
        0x0000_0000_0000_0000_0000_0000_0000_3A7F,
        0x5A55_5555_5555_5555_5555_5555_5555_5555,
    ];
    for p in patterns {
        for q in [Quad::from_raw_u128(p), Quad::from_raw_u128(p + SIGN_MASK)] {
            let s = q.to_string();
            let back = Quad::parse(&s).unwrap();
            assert_eq!(back.bits, q.bits, "round trip failed for {:#x} -> {}", q.bits, s);
        }
    }
}

#[test]
fn recip_of_specials() {
    let be = HostBackend;
    assert_eq!(Quad::infinity().recip(&be).bits, ZERO_BITS);
    assert_eq!(Quad::neg_infinity().recip(&be).bits, NEG_ZERO_BITS);
    assert!(Quad::zero().recip(&be).is_infinite());
    assert!(!Quad::zero().recip(&be).is_sign_negative());
    assert!(Quad::neg_zero().recip(&be).is_sign_negative());
}

#[test]
fn infinity_arithmetic_through_backend() {
    let be = HostBackend;
    let inf = Quad::infinity();
    let ninf = Quad::neg_infinity();
    let five = Quad::from_u64(5);
    assert_eq!(be.add(inf, five).bits, inf.bits);
    assert!(be.add(inf, ninf).is_nan());
    assert!(be.sub(inf, inf).is_nan());
    assert_eq!(be.div(five, inf).bits, ZERO_BITS);
    assert_eq!(be.div(Quad::from_i64(-5), inf).bits, NEG_ZERO_BITS);
    assert!(be.div(five, Quad::zero()).is_infinite());
    assert!(be.mul(inf, Quad::zero()).is_nan());
    assert!(be.mul(inf, Quad::from_i64(-2)).is_sign_negative());
}

#[test]
fn floor_ceil_of_negative_halves() {
    let be = HostBackend;
    let q = Quad::parse("-2.5").unwrap();
    assert_eq!(q.floor(&be).to_i64(), -3);
    assert_eq!(q.ceil(&be).to_i64(), -2);
    assert_eq!(q.trunc(&be).to_i64(), -2);
    assert_eq!(q.round(&be).to_i64(), -3);
    assert_eq!(q.fract().to_f64_bits(), (-0.5f64).to_bits());
}

#[test]
fn mul_add_exact_on_integers() {
    let be = HostBackend;
    let r = Quad::from_u64(3).mul_add(Quad::from_u64(4), Quad::from_u64(5), &be);
    assert_eq!(r.to_u64(), 17);
}

#[test]
fn narrowing_exact_on_representable_normals() {
    for v in [1.5f64, -3.75, 1024.0, 0.015625] {
        let q = Quad::from_f64_bits(v.to_bits());
        assert_eq!(q.to_f64_bits(), v.to_bits());
    }
    for v in [1.5f32, -3.75, 1024.0] {
        let q = Quad::from_f32_bits(v.to_bits());
        assert_eq!(q.to_f32_bits(), v.to_bits());
    }
}
