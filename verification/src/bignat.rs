//! Arbitrary-precision natural numbers, taken from the `num_bigint` crate.
//!
//! Probabilities in this library are exact rationals whose numerators and
//! denominators are products of per-competitor play counts; those products
//! exceed any fixed-width integer for realistic pool sizes, so the executable
//! arithmetic is delegated to `num_bigint::BigUint`. Each operation is a thin
//! trusted wrapper whose contract states the numeric value of the result.

use vstd::prelude::*;
use num_bigint::BigUint;

verus! {

#[verifier::external_type_specification]
#[verifier::external_body]
pub struct ExBigUint(BigUint);

/// The digits of a `BigUint`, least significant first, in base 2^64.
pub uninterp spec fn big_digits(b: BigUint) -> Seq<u64>;

/// Numeric value of a little-endian base-2^64 digit sequence.
pub open spec fn digits_val(s: Seq<u64>) -> nat
    decreases s.len(),
{
    if s.len() == 0 {
        0
    } else {
        s[0] as nat + 0x1_0000_0000_0000_0000nat * digits_val(s.drop_first())
    }
}

/// Numeric value of a `BigUint`.
pub open spec fn big_val(b: BigUint) -> nat {
    digits_val(big_digits(b))
}

/// Relies on `num_bigint::BigUint`'s `From<u64>` impl: builds the big
/// integer holding exactly the given value.
#[verifier::external_body]
pub(crate) fn big_from_u64(x: u64) -> (r: BigUint)
    ensures
        digits_val(big_digits(r)) == x,
        big_val(r) == x,
{
    BigUint::from(x)
}

/// Relies on `num_bigint::BigUint`'s `Clone` impl: the copy holds the same
/// value.
#[verifier::external_body]
pub(crate) fn big_clone(a: &BigUint) -> (r: BigUint)
    ensures
        big_val(r) == big_val(*a),
{
    a.clone()
}

/// Relies on `num_bigint::BigUint`'s `Add` impl: arbitrary-precision
/// addition, which cannot overflow.
#[verifier::external_body]
pub(crate) fn big_add(a: &BigUint, b: &BigUint) -> (r: BigUint)
    ensures
        big_val(r) == big_val(*a) + big_val(*b),
{
    a + b
}

/// Relies on `num_bigint::BigUint`'s `Sub` impl, which panics when the
/// subtrahend exceeds the minuend; the precondition rules that out.
#[verifier::external_body]
pub(crate) fn big_sub(a: &BigUint, b: &BigUint) -> (r: BigUint)
    requires
        big_val(*b) <= big_val(*a),
    ensures
        big_val(r) == big_val(*a) - big_val(*b),
{
    a - b
}

/// Relies on `num_bigint::BigUint`'s `Mul` impl: arbitrary-precision
/// multiplication.
#[verifier::external_body]
pub(crate) fn big_mul(a: &BigUint, b: &BigUint) -> (r: BigUint)
    ensures
        big_val(r) == big_val(*a) * big_val(*b),
{
    a * b
}

/// Relies on `num_bigint::BigUint`'s `Div` impl: truncated division, which
/// on naturals agrees with Euclidean division; division by zero panics, so
/// the precondition rules it out.
#[verifier::external_body]
pub(crate) fn big_div(a: &BigUint, b: &BigUint) -> (r: BigUint)
    requires
        big_val(*b) > 0,
    ensures
        big_val(r) == big_val(*a) / big_val(*b),
{
    a / b
}

/// Relies on `num_bigint`'s `Ord` impl for `BigUint` (`cmp_slice` over
/// normalized digit vectors): comparison agrees with numeric value.
#[verifier::external_body]
pub(crate) fn big_le(a: &BigUint, b: &BigUint) -> (r: bool)
    ensures
        r == (big_val(*a) <= big_val(*b)),
{
    a <= b
}

/// Relies on `num_integer::Integer::gcd` for `BigUint` (Stein's algorithm):
/// the result divides both arguments, and is positive because the second
/// argument is.
#[verifier::external_body]
pub(crate) fn big_gcd(a: &BigUint, b: &BigUint) -> (r: BigUint)
    requires
        big_val(*b) > 0,
    ensures
        big_val(r) > 0,
        big_val(*a) % big_val(r) == 0,
        big_val(*b) % big_val(r) == 0,
{
    num_integer::Integer::gcd(a, b)
}

/// Relies on `num_bigint::BigUint::sqrt`, documented as the truncated
/// principal square root.
#[verifier::external_body]
pub(crate) fn big_sqrt(a: &BigUint) -> (r: BigUint)
    ensures
        big_val(r) * big_val(r) <= big_val(*a),
        big_val(*a) < (big_val(r) + 1) * (big_val(r) + 1),
{
    a.sqrt()
}

/// Relies on `num_bigint::BigUint`'s `PartialEq` impl, which compares the
/// normalized digit vectors, so equality agrees with numeric value.
#[verifier::external_body]
pub(crate) fn big_eq(a: &BigUint, b: &BigUint) -> (r: bool)
    ensures
        r == (big_val(*a) == big_val(*b)),
{
    a == b
}

} // verus!
