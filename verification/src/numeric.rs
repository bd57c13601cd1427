//! Trusted interface to the arbitrary-precision integers of `num_bigint`.
//!
//! Numeric literals of the circuit language are field elements, potentially
//! hundreds of bits wide, so the analyses keep them as `num_bigint::BigInt`
//! values. `big_value` names the mathematical integer such a value carries;
//! each wrapper states what the `num_bigint` operation it calls does to that
//! integer.

use num_bigint::BigInt;
use vstd::prelude::*;

verus! {

#[verifier::external_type_specification]
#[verifier::external_body]
pub struct ExBigInt(BigInt);

/// The mathematical integer that a `num_bigint::BigInt` holds.
pub uninterp spec fn big_value(b: BigInt) -> int;

/// The sign of an arbitrary-precision integer, as plain data.
#[derive(Clone, Copy, PartialEq, Eq, Structural, Debug)]
pub enum IntSign {
    Negative,
    Zero,
    Positive,
}

/// Relies on `<BigInt as From<u64>>::from`: the result holds exactly the
/// given value.
#[verifier::external_body]
pub fn big_from_u64(v: u64) -> (r: BigInt)
    ensures
        big_value(r) == v as int,
{
    BigInt::from(v)
}

/// Relies on `<BigInt as Clone>::clone`: the copy holds the same integer.
#[verifier::external_body]
pub fn big_clone(b: &BigInt) -> (r: BigInt)
    ensures
        big_value(r) == big_value(*b),
{
    b.clone()
}

/// Relies on `<&BigInt as Add<&BigInt>>::add`: exact integer addition.
#[verifier::external_body]
pub fn big_add(a: &BigInt, b: &BigInt) -> (r: BigInt)
    ensures
        big_value(r) == big_value(*a) + big_value(*b),
{
    a + b
}

/// Relies on `<&BigInt as Neg>::neg`: exact integer negation.
#[verifier::external_body]
pub fn big_neg(b: &BigInt) -> (r: BigInt)
    ensures
        big_value(r) == -big_value(*b),
{
    -b
}

/// Relies on `BigInt::sign`: `Minus`, `NoSign` and `Plus` mean the integer is
/// negative, zero or positive, in that order.
#[verifier::external_body]
pub fn big_sign(b: &BigInt) -> (r: IntSign)
    ensures
        (r == IntSign::Negative <==> big_value(*b) < 0),
        (r == IntSign::Zero <==> big_value(*b) == 0),
        (r == IntSign::Positive <==> big_value(*b) > 0),
{
    match b.sign() {
        num_bigint::Sign::Minus => IntSign::Negative,
        num_bigint::Sign::NoSign => IntSign::Zero,
        num_bigint::Sign::Plus => IntSign::Positive,
    }
}

} // verus!
