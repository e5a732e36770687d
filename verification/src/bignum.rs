//! Trusted wrappers around the arbitrary-precision unsigned integers of
//! the `num-bigint` crate, used by the string codec to scale decimal
//! significands by powers of five and two exactly. Each wrapper's
//! contract states, over the number a value holds, what the crate's own
//! source shows of the one call it makes.

use vstd::arithmetic::power2::pow2;
use vstd::prelude::*;

verus! {

#[verifier::external_type_specification]
#[verifier::external_body]
pub struct ExBigUint(num_bigint::BigUint);

/// The natural number an arbitrary-precision value holds.
pub uninterp spec fn big_val(b: num_bigint::BigUint) -> nat;

/// 5^k.
pub open spec fn pow5(k: nat) -> nat
    decreases k,
{
    if k == 0 {
        1
    } else {
        5 * pow5((k - 1) as nat)
    }
}

/// The number a big-endian sequence of decimal digit values denotes.
pub open spec fn digits_val(s: Seq<u8>) -> nat
    decreases s.len(),
{
    if s.len() == 0 {
        0
    } else {
        (digits_val(s.drop_last()) * 10 + s.last()) as nat
    }
}

/// Relies on `BigUint::from::<u128>`: the value holds exactly `n`.
#[verifier::external_body]
pub(crate) fn big_from_u128(n: u128) -> (r: num_bigint::BigUint)
    ensures
        big_val(r) == n,
{
    num_bigint::BigUint::from(n)
}

/// Relies on `BigUint::pow` on the base five: the value is 5^k.
#[verifier::external_body]
pub(crate) fn big_pow5(k: u32) -> (r: num_bigint::BigUint)
    ensures
        big_val(r) == pow5(k as nat),
{
    num_bigint::BigUint::from(5u32).pow(k)
}

/// Relies on `Mul for &BigUint`: exact product.
#[verifier::external_body]
pub(crate) fn big_mul(a: &num_bigint::BigUint, b: &num_bigint::BigUint) -> (r:
    num_bigint::BigUint)
    ensures
        big_val(r) == big_val(*a) * big_val(*b),
{
    a * b
}

/// Relies on `Shl<usize> for &BigUint`: multiplication by 2^k.
#[verifier::external_body]
pub(crate) fn big_shl(a: &num_bigint::BigUint, k: usize) -> (r: num_bigint::BigUint)
    ensures
        big_val(r) == big_val(*a) * pow2(k as nat),
{
    a << k
}

/// Relies on `Div` and `Rem for &BigUint`: Euclidean quotient and
/// remainder.
#[verifier::external_body]
pub(crate) fn big_div_rem(a: &num_bigint::BigUint, d: &num_bigint::BigUint) -> (r: (
    num_bigint::BigUint,
    num_bigint::BigUint,
))
    requires
        big_val(*d) > 0,
    ensures
        big_val(r.0) * big_val(*d) + big_val(r.1) == big_val(*a),
        big_val(r.1) < big_val(*d),
{
    (a / d, a % d)
}

/// Relies on `BigUint::bits`: the fewest bits that express the value; 0
/// only for the value 0.
#[verifier::external_body]
pub(crate) fn big_bits(a: &num_bigint::BigUint) -> (r: u64)
    ensures
        (r == 0) == (big_val(*a) == 0),
        r > 0 ==> pow2((r - 1) as nat) <= big_val(*a) < pow2(r as nat),
{
    a.bits()
}

/// Relies on `ToPrimitive::to_u128`: the value itself once it fits the
/// width.
#[verifier::external_body]
pub(crate) fn big_to_u128(a: &num_bigint::BigUint) -> (r: u128)
    requires
        big_val(*a) < pow2(128),
    ensures
        r == big_val(*a),
{
    num::ToPrimitive::to_u128(a).unwrap()
}

/// Relies on `BigUint::to_radix_be` with radix ten: big-endian decimal
/// digit values without leading zeros, a single zero digit for zero.
#[verifier::external_body]
pub(crate) fn big_to_digits(a: &num_bigint::BigUint) -> (r: Vec<u8>)
    ensures
        digits_val(r@) == big_val(*a),
        forall|i: int| 0 <= i < r@.len() ==> r@[i] < 10,
        r@.len() >= 1,
        r@.len() > 1 ==> r@[0] != 0,
{
    a.to_radix_be(10)
}

/// Relies on `BigUint::from_radix_be` with radix ten, defined for every
/// sequence of digit values below ten.
#[verifier::external_body]
pub(crate) fn big_from_digits(d: &Vec<u8>) -> (r: num_bigint::BigUint)
    requires
        forall|i: int| 0 <= i < d@.len() ==> d@[i] < 10,
    ensures
        big_val(r) == digits_val(d@),
{
    num_bigint::BigUint::from_radix_be(d.as_slice(), 10).unwrap()
}

} // verus!
