//! Trusted bridge to the arbitrary-precision unsigned integers of the
//! `num_bigint` crate.
//!
//! `BigUint` is opaque to the verifier; `big_value` names the natural number
//! a `BigUint` holds, and each wrapper states over `big_value` what the
//! wrapped operation does, as the crate's documentation and source give it.
use crate::encoding::dec_string_of;
use crate::encoding::le_bytes_value;
use num_bigint::BigUint;
use vstd::arithmetic::power::pow;
use vstd::prelude::*;

verus! {

#[verifier::external_type_specification]
#[verifier::external_body]
pub struct ExBigUint(BigUint);

/// The natural number that a `BigUint` holds.
pub uninterp spec fn big_value(b: BigUint) -> nat;

/// Relies on `BigUint::from_bytes_le`: reads little-endian bytes; an empty
/// slice gives zero.
#[verifier::external_body]
pub(crate) fn big_from_bytes_le(bytes: &[u8]) -> (r: BigUint)
    ensures
        big_value(r) == le_bytes_value(bytes@),
{
    BigUint::from_bytes_le(bytes)
}

/// Relies on `BigUint::to_bytes_le`: little-endian bytes without a trailing
/// zero byte, except that the number zero is the single byte `[0]`.
#[verifier::external_body]
pub(crate) fn big_to_bytes_le(b: &BigUint) -> (r: Vec<u8>)
    ensures
        le_bytes_value(r@) == big_value(*b),
        r@.len() >= 1,
        big_value(*b) == 0 ==> r@.len() == 1,
        big_value(*b) > 0 ==> r@[r@.len() - 1] != 0,
{
    b.to_bytes_le()
}

/// Relies on `BigUint::modpow`: `(base ^ exponent) % modulus`. It panics on
/// a zero modulus, and on the modulus one it answers one where the reduced
/// power is zero; the precondition rules both out.
#[verifier::external_body]
pub(crate) fn big_modpow(base: &BigUint, exponent: &BigUint, modulus: &BigUint) -> (r: BigUint)
    requires
        big_value(*modulus) >= 2,
    ensures
        big_value(r) == pow(big_value(*base) as int, big_value(*exponent)) % (big_value(*modulus)
            as int),
{
    base.modpow(exponent, modulus)
}

/// Relies on `From<u64> for BigUint`: exact conversion.
#[verifier::external_body]
pub(crate) fn big_from_u64(v: u64) -> (r: BigUint)
    ensures
        big_value(r) == v as nat,
{
    BigUint::from(v)
}

/// Relies on `Add for &BigUint`: exact addition.
#[verifier::external_body]
pub(crate) fn big_add(a: &BigUint, b: &BigUint) -> (r: BigUint)
    ensures
        big_value(r) == big_value(*a) + big_value(*b),
{
    a + b
}

/// Relies on `Sub for &BigUint`: exact subtraction; it panics on underflow,
/// which the precondition rules out.
#[verifier::external_body]
pub(crate) fn big_sub(a: &BigUint, b: &BigUint) -> (r: BigUint)
    requires
        big_value(*b) <= big_value(*a),
    ensures
        big_value(r) == big_value(*a) - big_value(*b),
{
    a - b
}

/// Relies on `Mul for &BigUint`: exact multiplication.
#[verifier::external_body]
pub(crate) fn big_mul(a: &BigUint, b: &BigUint) -> (r: BigUint)
    ensures
        big_value(r) == big_value(*a) * big_value(*b),
{
    a * b
}

/// Relies on `Rem for &BigUint`: the remainder of division; it panics on a
/// zero divisor, which the precondition rules out.
#[verifier::external_body]
pub(crate) fn big_rem(a: &BigUint, b: &BigUint) -> (r: BigUint)
    requires
        big_value(*b) > 0,
    ensures
        big_value(r) == big_value(*a) % big_value(*b),
{
    a % b
}

/// Relies on `Ord for BigUint`: numeric order on the held values.
#[verifier::external_body]
pub(crate) fn big_lt(a: &BigUint, b: &BigUint) -> (r: bool)
    ensures
        r == (big_value(*a) < big_value(*b)),
{
    a < b
}

/// Relies on `PartialEq for BigUint`: equality of the held values.
#[verifier::external_body]
pub(crate) fn big_eq(a: &BigUint, b: &BigUint) -> (r: bool)
    ensures
        r == (big_value(*a) == big_value(*b)),
{
    a == b
}

/// Relies on `num_integer::Integer::is_even` for `BigUint`: parity of the
/// held value.
#[verifier::external_body]
pub(crate) fn big_is_even(a: &BigUint) -> (r: bool)
    ensures
        r == (big_value(*a) % 2 == 0),
{
    num_integer::Integer::is_even(a)
}

/// Relies on `Display for BigUint`: the held value in canonical decimal,
/// without leading zeros and with a single `0` digit for zero.
#[verifier::external_body]
pub(crate) fn big_to_string(b: &BigUint) -> (r: String)
    ensures
        r@ == dec_string_of(big_value(*b)),
{
    format!("{}", b)
}

/// Relies on `Clone for BigUint`: the copy holds the same value.
#[verifier::external_body]
pub(crate) fn big_clone(a: &BigUint) -> (r: BigUint)
    ensures
        big_value(r) == big_value(*a),
{
    a.clone()
}

} // verus!
