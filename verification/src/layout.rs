//! Byte-order interchange and raw reinterpretation: the single place where
//! the canonical (logical, sign-byte-first) bit layout meets the 16-byte
//! storage form. The storage order used throughout is least significant
//! canonical byte first, the native order of little-endian platforms.

use crate::Quad;
use vstd::prelude::*;

verus! {

/// Byte `i` (counting from the least significant) of a canonical bit
/// pattern.
pub open spec fn byte_at(bits: u128, i: nat) -> u8
    recommends
        i < 16,
{
    ((bits / pos_pow256(i)) % 0x100) as u8
}

/// 256^i, the weight of storage byte `i`.
pub open spec fn pos_pow256(i: nat) -> u128
    decreases i,
{
    if i == 0 {
        1
    } else if i > 15 {
        0
    } else {
        (0x100 * pos_pow256((i - 1) as nat)) as u128
    }
}

/// The canonical bit pattern recomposed from 16 storage bytes.
pub open spec fn bytes_to_bits(s: Seq<u8>) -> u128
    recommends
        s.len() == 16,
{
    (s[0] as u128 + s[1] as u128 * 0x100 + s[2] as u128 * 0x1_0000 + s[3] as u128 * 0x100_0000
        + s[4] as u128 * 0x1_0000_0000 + s[5] as u128 * 0x100_0000_0000 + s[6] as u128
        * 0x1_0000_0000_0000 + s[7] as u128 * 0x100_0000_0000_0000 + s[8] as u128
        * 0x1_0000_0000_0000_0000 + s[9] as u128 * 0x100_0000_0000_0000_0000 + s[10] as u128
        * 0x1_0000_0000_0000_0000_0000 + s[11] as u128 * 0x100_0000_0000_0000_0000_0000
        + s[12] as u128 * 0x1_0000_0000_0000_0000_0000_0000 + s[13] as u128
        * 0x100_0000_0000_0000_0000_0000_0000 + s[14] as u128
        * 0x1_0000_0000_0000_0000_0000_0000_0000 + s[15] as u128
        * 0x100_0000_0000_0000_0000_0000_0000_0000) as u128
}

/// Taking a pattern apart into its 16 storage bytes and recomposing them
/// returns the pattern.
pub proof fn lemma_bits_bytes_round_trip(bits: u128)
    ensures
        bytes_to_bits(Seq::new(16, |i: int| byte_at(bits, i as nat))) == bits,
{
    let s = Seq::new(16, |i: int| byte_at(bits, i as nat));
    lemma_pos_pow256_values();
    let c0: u128 = s[0] as u128;
    let c1: u128 = s[1] as u128;
    let c2: u128 = s[2] as u128;
    let c3: u128 = s[3] as u128;
    let c4: u128 = s[4] as u128;
    let c5: u128 = s[5] as u128;
    let c6: u128 = s[6] as u128;
    let c7: u128 = s[7] as u128;
    let c8: u128 = s[8] as u128;
    let c9: u128 = s[9] as u128;
    let c10: u128 = s[10] as u128;
    let c11: u128 = s[11] as u128;
    let c12: u128 = s[12] as u128;
    let c13: u128 = s[13] as u128;
    let c14: u128 = s[14] as u128;
    let c15: u128 = s[15] as u128;
    assert(c0 * 0x1 + c1 * 0x100 + c2 * 0x1_0000 + c3 * 0x100_0000 + c4 * 0x1_0000_0000 + c5 * 0x100_0000_0000 + c6 * 0x1_0000_0000_0000 + c7 * 0x100_0000_0000_0000 + c8 * 0x1_0000_0000_0000_0000 + c9 * 0x100_0000_0000_0000_0000 + c10 * 0x1_0000_0000_0000_0000_0000 + c11 * 0x100_0000_0000_0000_0000_0000 + c12 * 0x1_0000_0000_0000_0000_0000_0000 + c13 * 0x100_0000_0000_0000_0000_0000_0000 + c14 * 0x1_0000_0000_0000_0000_0000_0000_0000 + c15 * 0x100_0000_0000_0000_0000_0000_0000_0000 == bits) by (bit_vector)
        requires
            c0 == (bits / 0x1u128) % 0x100,
            c1 == (bits / 0x100u128) % 0x100,
            c2 == (bits / 0x1_0000u128) % 0x100,
            c3 == (bits / 0x100_0000u128) % 0x100,
            c4 == (bits / 0x1_0000_0000u128) % 0x100,
            c5 == (bits / 0x100_0000_0000u128) % 0x100,
            c6 == (bits / 0x1_0000_0000_0000u128) % 0x100,
            c7 == (bits / 0x100_0000_0000_0000u128) % 0x100,
            c8 == (bits / 0x1_0000_0000_0000_0000u128) % 0x100,
            c9 == (bits / 0x100_0000_0000_0000_0000u128) % 0x100,
            c10 == (bits / 0x1_0000_0000_0000_0000_0000u128) % 0x100,
            c11 == (bits / 0x100_0000_0000_0000_0000_0000u128) % 0x100,
            c12 == (bits / 0x1_0000_0000_0000_0000_0000_0000u128) % 0x100,
            c13 == (bits / 0x100_0000_0000_0000_0000_0000_0000u128) % 0x100,
            c14 == (bits / 0x1_0000_0000_0000_0000_0000_0000_0000u128) % 0x100,
            c15 == (bits / 0x100_0000_0000_0000_0000_0000_0000_0000u128) % 0x100,
    ;
}

/// The concrete weights of the 16 storage bytes.
pub proof fn lemma_pos_pow256_values()
    ensures
        pos_pow256(0) == 0x1u128,
        pos_pow256(1) == 0x100u128,
        pos_pow256(2) == 0x1_0000u128,
        pos_pow256(3) == 0x100_0000u128,
        pos_pow256(4) == 0x1_0000_0000u128,
        pos_pow256(5) == 0x100_0000_0000u128,
        pos_pow256(6) == 0x1_0000_0000_0000u128,
        pos_pow256(7) == 0x100_0000_0000_0000u128,
        pos_pow256(8) == 0x1_0000_0000_0000_0000u128,
        pos_pow256(9) == 0x100_0000_0000_0000_0000u128,
        pos_pow256(10) == 0x1_0000_0000_0000_0000_0000u128,
        pos_pow256(11) == 0x100_0000_0000_0000_0000_0000u128,
        pos_pow256(12) == 0x1_0000_0000_0000_0000_0000_0000u128,
        pos_pow256(13) == 0x100_0000_0000_0000_0000_0000_0000u128,
        pos_pow256(14) == 0x1_0000_0000_0000_0000_0000_0000_0000u128,
        pos_pow256(15) == 0x100_0000_0000_0000_0000_0000_0000_0000u128,
{
    assert(pos_pow256(0) == 0x1u128);
    assert(pos_pow256(1) == 0x100u128);
    assert(pos_pow256(2) == 0x1_0000u128);
    assert(pos_pow256(3) == 0x100_0000u128);
    assert(pos_pow256(4) == 0x1_0000_0000u128);
    assert(pos_pow256(5) == 0x100_0000_0000u128);
    assert(pos_pow256(6) == 0x1_0000_0000_0000u128);
    assert(pos_pow256(7) == 0x100_0000_0000_0000u128);
    assert(pos_pow256(8) == 0x1_0000_0000_0000_0000u128);
    assert(pos_pow256(9) == 0x100_0000_0000_0000_0000u128);
    assert(pos_pow256(10) == 0x1_0000_0000_0000_0000_0000u128);
    assert(pos_pow256(11) == 0x100_0000_0000_0000_0000_0000u128);
    assert(pos_pow256(12) == 0x1_0000_0000_0000_0000_0000_0000u128);
    assert(pos_pow256(13) == 0x100_0000_0000_0000_0000_0000_0000u128);
    assert(pos_pow256(14) == 0x1_0000_0000_0000_0000_0000_0000_0000u128);
    assert(pos_pow256(15) == 0x100_0000_0000_0000_0000_0000_0000_0000u128);
}

/// Recomposing 16 storage bytes and taking the pattern apart again returns
/// each byte: the byte round-trip law of the interchange format.
pub proof fn lemma_bytes_bits_round_trip(s: Seq<u8>)
    requires
        s.len() == 16,
    ensures
        forall|i: nat| i < 16 ==> #[trigger] byte_at(bytes_to_bits(s), i) == s[i as int],
{
    let bits = bytes_to_bits(s);
    let c0: u128 = s[0] as u128;
    let c1: u128 = s[1] as u128;
    let c2: u128 = s[2] as u128;
    let c3: u128 = s[3] as u128;
    let c4: u128 = s[4] as u128;
    let c5: u128 = s[5] as u128;
    let c6: u128 = s[6] as u128;
    let c7: u128 = s[7] as u128;
    let c8: u128 = s[8] as u128;
    let c9: u128 = s[9] as u128;
    let c10: u128 = s[10] as u128;
    let c11: u128 = s[11] as u128;
    let c12: u128 = s[12] as u128;
    let c13: u128 = s[13] as u128;
    let c14: u128 = s[14] as u128;
    let c15: u128 = s[15] as u128;
    assert((bits / 0x1u128) % 0x100 == c0 && (bits / 0x100u128) % 0x100 == c1 && (bits / 0x1_0000u128) % 0x100 == c2 && (bits / 0x100_0000u128) % 0x100 == c3 && (bits / 0x1_0000_0000u128) % 0x100 == c4 && (bits / 0x100_0000_0000u128) % 0x100 == c5 && (bits / 0x1_0000_0000_0000u128) % 0x100 == c6 && (bits / 0x100_0000_0000_0000u128) % 0x100 == c7 && (bits / 0x1_0000_0000_0000_0000u128) % 0x100 == c8 && (bits / 0x100_0000_0000_0000_0000u128) % 0x100 == c9 && (bits / 0x1_0000_0000_0000_0000_0000u128) % 0x100 == c10 && (bits / 0x100_0000_0000_0000_0000_0000u128) % 0x100 == c11 && (bits / 0x1_0000_0000_0000_0000_0000_0000u128) % 0x100 == c12 && (bits / 0x100_0000_0000_0000_0000_0000_0000u128) % 0x100 == c13 && (bits / 0x1_0000_0000_0000_0000_0000_0000_0000u128) % 0x100 == c14 && (bits / 0x100_0000_0000_0000_0000_0000_0000_0000u128) % 0x100 == c15) by (bit_vector)
        requires
            bits == c0 * 0x1 + c1 * 0x100 + c2 * 0x1_0000 + c3 * 0x100_0000 + c4 * 0x1_0000_0000 + c5 * 0x100_0000_0000 + c6 * 0x1_0000_0000_0000 + c7 * 0x100_0000_0000_0000 + c8 * 0x1_0000_0000_0000_0000 + c9 * 0x100_0000_0000_0000_0000 + c10 * 0x1_0000_0000_0000_0000_0000 + c11 * 0x100_0000_0000_0000_0000_0000 + c12 * 0x1_0000_0000_0000_0000_0000_0000 + c13 * 0x100_0000_0000_0000_0000_0000_0000 + c14 * 0x1_0000_0000_0000_0000_0000_0000_0000 + c15 * 0x100_0000_0000_0000_0000_0000_0000_0000,
            c0 < 0x100,
            c1 < 0x100,
            c2 < 0x100,
            c3 < 0x100,
            c4 < 0x100,
            c5 < 0x100,
            c6 < 0x100,
            c7 < 0x100,
            c8 < 0x100,
            c9 < 0x100,
            c10 < 0x100,
            c11 < 0x100,
            c12 < 0x100,
            c13 < 0x100,
            c14 < 0x100,
            c15 < 0x100,
    ;
    assert forall|i: nat| i < 16 implies #[trigger] byte_at(bits, i) == s[i as int] by {
        lemma_pos_pow256_values();
    }
}

/// Interchange values for storage: a trait for callers that hand a
/// 16-byte pattern in through some other carrier type. Implementors
/// live outside the verifier, so the trait carries no specification:
/// nothing can be promised of the bytes an arbitrary carrier returns.
pub trait To16Bytes {
    /// The 16 storage bytes, least significant canonical byte first.
    fn to_arr(&self) -> [u8; 16];

    /// The bit pattern as an unsigned 128-bit integer.
    fn to_u128(&self) -> u128;

    /// The bit pattern as a signed 128-bit integer.
    fn to_i128(&self) -> i128;
}

impl Quad {
    /// Reinterprets 16 bytes as a 128-bit unsigned integer: the one
    /// reviewed place where raw storage bytes become a canonical pattern.
    pub fn from_platform_bytes(b: [u8; 16]) -> (r: Quad)
        ensures
            r.bits == bytes_to_bits(b@),
    {
        let bits: u128 = b[0] as u128 + b[1] as u128 * 0x100 + b[2] as u128 * 0x1_0000
            + b[3] as u128 * 0x100_0000 + b[4] as u128 * 0x1_0000_0000 + b[5] as u128
            * 0x100_0000_0000 + b[6] as u128 * 0x1_0000_0000_0000 + b[7] as u128
            * 0x100_0000_0000_0000 + b[8] as u128 * 0x1_0000_0000_0000_0000 + b[9] as u128
            * 0x100_0000_0000_0000_0000 + b[10] as u128 * 0x1_0000_0000_0000_0000_0000
            + b[11] as u128 * 0x100_0000_0000_0000_0000_0000 + b[12] as u128
            * 0x1_0000_0000_0000_0000_0000_0000 + b[13] as u128
            * 0x100_0000_0000_0000_0000_0000_0000 + b[14] as u128
            * 0x1_0000_0000_0000_0000_0000_0000_0000 + b[15] as u128
            * 0x100_0000_0000_0000_0000_0000_0000_0000;
        Quad { bits }
    }

    /// The 16 storage bytes of the value, least significant canonical byte
    /// first.
    pub fn to_platform_bytes(&self) -> (r: [u8; 16])
        ensures
            r@ == Seq::new(16, |i: int| byte_at(self.bits, i as nat)),
            bytes_to_bits(r@) == self.bits,
    {
        let b = self.bits;
        let r: [u8; 16] = [
            (b % 0x100) as u8,
            ((b / 0x100) % 0x100) as u8,
            ((b / 0x1_0000) % 0x100) as u8,
            ((b / 0x100_0000) % 0x100) as u8,
            ((b / 0x1_0000_0000) % 0x100) as u8,
            ((b / 0x100_0000_0000) % 0x100) as u8,
            ((b / 0x1_0000_0000_0000) % 0x100) as u8,
            ((b / 0x100_0000_0000_0000) % 0x100) as u8,
            ((b / 0x1_0000_0000_0000_0000) % 0x100) as u8,
            ((b / 0x100_0000_0000_0000_0000) % 0x100) as u8,
            ((b / 0x1_0000_0000_0000_0000_0000) % 0x100) as u8,
            ((b / 0x100_0000_0000_0000_0000_0000) % 0x100) as u8,
            ((b / 0x1_0000_0000_0000_0000_0000_0000) % 0x100) as u8,
            ((b / 0x100_0000_0000_0000_0000_0000_0000) % 0x100) as u8,
            ((b / 0x1_0000_0000_0000_0000_0000_0000_0000) % 0x100) as u8,
            ((b / 0x100_0000_0000_0000_0000_0000_0000_0000) % 0x100) as u8,
        ];
        proof {
            lemma_pos_pow256_values();
            assert(r@ =~= Seq::new(16, |i: int| byte_at(self.bits, i as nat)));
            lemma_bits_bytes_round_trip(self.bits);
        }
        r
    }

    /// Builds a value from 16 bytes given in canonical (logical) order,
    /// sign byte first: the one explicit transform from the canonical
    /// layout to the storage order.
    pub fn from_arr(d: [u8; 16]) -> (r: Quad)
        ensures
            r.bits == bytes_to_bits(Seq::new(16, |i: int| d@[15 - i])),
    {
        let rev: [u8; 16] = [
            d[15],
            d[14],
            d[13],
            d[12],
            d[11],
            d[10],
            d[9],
            d[8],
            d[7],
            d[6],
            d[5],
            d[4],
            d[3],
            d[2],
            d[1],
            d[0],
        ];
        proof {
            assert(rev@ =~= Seq::new(16, |i: int| d@[15 - i]));
        }
        Quad::from_platform_bytes(rev)
    }

    /// Builds a value whose canonical pattern is the given unsigned
    /// integer.
    pub fn from_raw_u128(d: u128) -> (r: Quad)
        ensures
            r.bits == d,
    {
        Quad { bits: d }
    }

    /// Builds a value whose canonical pattern is the two's-complement
    /// image of the given signed integer.
    pub fn from_raw_i128(d: i128) -> (r: Quad)
        ensures
            r.bits == d as u128,
    {
        Quad { bits: d as u128 }
    }

    /// The canonical pattern as a signed 128-bit integer.
    pub fn inner_as_i128(self) -> (r: i128)
        ensures
            r == self.bits as i128,
    {
        self.bits as i128
    }

    /// The canonical pattern as an unsigned 128-bit integer.
    pub fn inner_as_u128(&self) -> (r: u128)
        ensures
            r == self.bits,
    {
        self.bits
    }

    /// Builds a value from any carrier of a 16-byte pattern, adopting the
    /// carrier's storage-order bytes verbatim. The carrier's trait has no
    /// specification, so nothing can be stated of the result here; the
    /// byte adoption itself is `from_platform_bytes`, whose contract is
    /// exact.
    pub fn from_bits<T: To16Bytes>(x: &T) -> Quad {
        Quad::from_platform_bytes(x.to_arr())
    }

    /// The 16 storage bytes of the value.
    pub fn inner(&self) -> (r: [u8; 16])
        ensures
            bytes_to_bits(r@) == self.bits,
    {
        self.to_platform_bytes()
    }

    /// The 16 storage bytes of the value, consuming it.
    pub fn into_inner(self) -> (r: [u8; 16])
        ensures
            bytes_to_bits(r@) == self.bits,
    {
        self.to_platform_bytes()
    }
}

} // verus!
