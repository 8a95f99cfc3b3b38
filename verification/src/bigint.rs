//! The boundary to `num`: the big-integer type and the few operations on it
//! that the evaluators use. Nothing in this file is proved; every contract
//! here is taken from the `num-bigint` sources.

use num::bigint::BigInt;
use vstd::prelude::*;

verus! {

/// `num::bigint::BigInt`, a signed integer of arbitrary size. Its sign and
/// digits are hidden from the verifier, which sees it only through
/// [`big_value`].
#[verifier::external_type_specification]
#[verifier::external_body]
pub struct ExBigInt(BigInt);

/// The mathematical integer that a `BigInt` holds.
pub uninterp spec fn big_value(b: BigInt) -> int;

/// `BigInt::from(n)` for a `u64`: the big integer with the value of `n`.
#[verifier::external_body]
pub(crate) fn big_from_u64(n: u64) -> (r: BigInt)
    ensures
        big_value(r) == n,
{
    BigInt::from(n)
}

/// `&BigInt + &BigInt`: a new big integer holding the exact sum. Big
/// integers grow as needed, so the sum never wraps.
#[verifier::external_body]
pub(crate) fn big_add(a: &BigInt, b: &BigInt) -> (r: BigInt)
    ensures
        big_value(r) == big_value(*a) + big_value(*b),
{
    a + b
}

/// `BigInt * u64`: the exact product of a big integer and a machine word.
#[verifier::external_body]
pub(crate) fn big_mul_u64(a: BigInt, k: u64) -> (r: BigInt)
    ensures
        big_value(r) == big_value(a) * k,
{
    a * k
}

/// `BigInt::clone`: a copy with the same sign and digits, hence the same
/// value.
#[verifier::external_body]
pub(crate) fn big_clone(a: &BigInt) -> (r: BigInt)
    ensures
        big_value(r) == big_value(*a),
{
    a.clone()
}

} // verus!
