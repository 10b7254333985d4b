//! Trusted boundary to `num_bigint`: curve coordinates are arbitrary-precision
//! integers, and every arithmetic step on them is one call into that crate.
//! `int_of` names the mathematical integer a `BigInt` holds; each wrapper's
//! contract states what the called operation does to that integer.

use num_traits::Zero;
use vstd::prelude::*;

verus! {

#[verifier::external_type_specification]
#[verifier::external_body]
pub struct ExBigInt(num_bigint::BigInt);

/// The mathematical integer that a `num_bigint::BigInt` value holds.
pub uninterp spec fn int_of(b: num_bigint::BigInt) -> int;

/// `d` divides `n` exactly.
pub open spec fn divides(d: int, n: int) -> bool {
    exists|q: int| n == #[trigger] (q * d)
}

/// Relies on `<BigInt as From<i64>>::from`: the big integer with exactly the
/// given value.
#[verifier::external_body]
pub fn bi_from(v: i64) -> (r: num_bigint::BigInt)
    ensures
        int_of(r) == v as int,
{
    num_bigint::BigInt::from(v)
}

/// Relies on `<BigInt as Clone>::clone`: the copy holds the same integer.
#[verifier::external_body]
pub fn bi_clone(x: &num_bigint::BigInt) -> (r: num_bigint::BigInt)
    ensures
        int_of(r) == int_of(*x),
{
    x.clone()
}

/// Relies on `<&BigInt as Add<&BigInt>>::add`: exact integer addition.
#[verifier::external_body]
pub fn bi_add(a: &num_bigint::BigInt, b: &num_bigint::BigInt) -> (r: num_bigint::BigInt)
    ensures
        int_of(r) == int_of(*a) + int_of(*b),
{
    a + b
}

/// Relies on `<&BigInt as Sub<&BigInt>>::sub`: exact integer subtraction.
#[verifier::external_body]
pub fn bi_sub(a: &num_bigint::BigInt, b: &num_bigint::BigInt) -> (r: num_bigint::BigInt)
    ensures
        int_of(r) == int_of(*a) - int_of(*b),
{
    a - b
}

/// Relies on `<&BigInt as Mul<&BigInt>>::mul`: exact integer multiplication.
#[verifier::external_body]
pub fn bi_mul(a: &num_bigint::BigInt, b: &num_bigint::BigInt) -> (r: num_bigint::BigInt)
    ensures
        int_of(r) == int_of(*a) * int_of(*b),
{
    a * b
}

/// Relies on `<BigInt as PartialEq>::eq`: the representation is canonical,
/// so two values compare equal exactly when they hold the same integer.
#[verifier::external_body]
pub fn bi_eq(a: &num_bigint::BigInt, b: &num_bigint::BigInt) -> (r: bool)
    ensures
        r == (int_of(*a) == int_of(*b)),
{
    a == b
}

/// Relies on `<BigInt as num_traits::Zero>::is_zero`: the sign tag is
/// `NoSign` exactly when the value is zero.
#[verifier::external_body]
pub fn bi_is_zero(a: &num_bigint::BigInt) -> (r: bool)
    ensures
        r == (int_of(*a) == 0),
{
    a.is_zero()
}

/// Relies on `<&BigInt as Div<&BigInt>>::div`: quotient truncated toward
/// zero, which on an exact division is the exact quotient.
#[verifier::external_body]
pub fn bi_div_exact(a: &num_bigint::BigInt, b: &num_bigint::BigInt) -> (r: num_bigint::BigInt)
    requires
        int_of(*b) != 0,
        divides(int_of(*b), int_of(*a)),
    ensures
        int_of(r) * int_of(*b) == int_of(*a),
{
    a / b
}

} // verus!
