//! Arbitrary-precision integers, as provided by `rug`.
//!
//! Register values and application counts outgrow every machine word, so they
//! are held as `rug::Integer`. The verifier cannot look inside such a value:
//! this module gives its mathematical value a name and states, for each
//! operation the library uses, what `rug` documents about it. Nothing in this
//! module is proved; everything else in the crate is proved from it.
use vstd::prelude::*;
use crate::text::signed_text;

verus! {

/// `rug::Integer`, an integer of any size. Nothing is known of such a
/// value but its mathematical value, [`integer_value`].
#[verifier::external_type_specification]
#[verifier::external_body]
pub struct ExInteger(rug::Integer);

/// The mathematical value of an arbitrary-precision integer.
pub uninterp spec fn integer_value(x: rug::Integer) -> int;

/// `Integer::from` on an `i64`: the result has the value of the argument.
#[verifier::external_body]
pub(crate) fn big_from_i64(x: i64) -> (r: rug::Integer)
    ensures
        integer_value(r) == x,
{
    rug::Integer::from(x)
}

/// `Clone::clone` of an `Integer`: a fresh integer of the same value.
#[verifier::external_body]
pub(crate) fn big_clone(a: &rug::Integer) -> (r: rug::Integer)
    ensures
        integer_value(r) == integer_value(*a),
{
    a.clone()
}

/// `<` between an `Integer` and an `i64`, which `rug` answers by comparing
/// the two values exactly.
#[verifier::external_body]
pub(crate) fn big_lt_i64(a: &rug::Integer, b: i64) -> (r: bool)
    ensures
        r == (integer_value(*a) < b),
{
    *a < b
}

/// `>` between an `Integer` and an `i64`, which `rug` answers by comparing
/// the two values exactly.
#[verifier::external_body]
pub(crate) fn big_gt_i64(a: &rug::Integer, b: i64) -> (r: bool)
    ensures
        r == (integer_value(*a) > b),
{
    *a > b
}

/// `<` between two `Integer`s: the exact comparison of their values.
#[verifier::external_body]
pub(crate) fn big_lt(a: &rug::Integer, b: &rug::Integer) -> (r: bool)
    ensures
        r == (integer_value(*a) < integer_value(*b)),
{
    a < b
}

/// `&Integer + i64`: the exact sum.
#[verifier::external_body]
pub(crate) fn big_add_i64(a: &rug::Integer, b: i64) -> (r: rug::Integer)
    ensures
        integer_value(r) == integer_value(*a) + b,
{
    rug::Integer::from(a + b)
}

/// `&Integer + &Integer`: the exact sum.
#[verifier::external_body]
pub(crate) fn big_add(a: &rug::Integer, b: &rug::Integer) -> (r: rug::Integer)
    ensures
        integer_value(r) == integer_value(*a) + integer_value(*b),
{
    rug::Integer::from(a + b)
}

/// `&Integer - i64`: the exact difference.
#[verifier::external_body]
pub(crate) fn big_sub_i64(a: &rug::Integer, b: i64) -> (r: rug::Integer)
    ensures
        integer_value(r) == integer_value(*a) - b,
{
    rug::Integer::from(a - b)
}

/// `i64 - &Integer`: the exact difference.
#[verifier::external_body]
pub(crate) fn i64_sub_big(a: i64, b: &rug::Integer) -> (r: rug::Integer)
    ensures
        integer_value(r) == a - integer_value(*b),
{
    rug::Integer::from(a - b)
}

/// `&Integer * i64`: the exact product.
#[verifier::external_body]
pub(crate) fn big_mul_i64(a: &rug::Integer, b: i64) -> (r: rug::Integer)
    ensures
        integer_value(r) == integer_value(*a) * b,
{
    rug::Integer::from(a * b)
}

/// `ToString::to_string` of an `Integer`: its decimal notation, with a
/// minus sign before a negative number.
#[verifier::external_body]
pub(crate) fn big_decimal(a: &rug::Integer) -> (r: String)
    ensures
        r@ == signed_text(integer_value(*a)),
{
    a.to_string()
}

/// `&Integer * &Integer`: the exact product.
#[verifier::external_body]
pub(crate) fn big_mul(a: &rug::Integer, b: &rug::Integer) -> (r: rug::Integer)
    ensures
        integer_value(r) == integer_value(*a) * integer_value(*b),
{
    rug::Integer::from(a * b)
}

/// `&Integer / u64`. `rug` panics on a zero divisor and rounds the quotient
/// towards zero; on a dividend that is not negative this is the floor.
#[verifier::external_body]
pub(crate) fn big_div_u64(a: &rug::Integer, b: u64) -> (r: rug::Integer)
    requires
        integer_value(*a) >= 0,
        b > 0,
    ensures
        integer_value(r) == integer_value(*a) / (b as int),
{
    rug::Integer::from(a / b)
}

} // verus!
