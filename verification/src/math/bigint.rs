//! Trusted boundary around the arbitrary-precision signed integers of the
//! `num-bigint` crate.  Each wrapper makes exactly one outside call; its
//! contract states, over the integer value a `BigInt` holds, what that crate's
//! source shows of the call.  Everything above this module is verified.

use vstd::prelude::*;
use num_bigint::BigInt;
use num_integer::Integer;

use crate::math::rat::{dec_len, gcd, lead_digit, sgn, tdiv};

verus! {

use vstd::math::abs;
use vstd::arithmetic::power::pow;

#[verifier::external_type_specification]
#[verifier::external_body]
pub struct ExBigInt(BigInt);

/// The integer value that a `BigInt` holds.
pub uninterp spec fn big_value(x: BigInt) -> int;

/// What `BigInt::parse_bytes` returns on the given text and radix: an integer
/// when the text is a valid literal at that radix, nothing otherwise.
pub uninterp spec fn int_from_text(s: Seq<char>, radix: u32) -> Option<int>;

/// The decimal text that `num-bigint` renders an integer value as.
pub uninterp spec fn decimal_chars(v: int) -> Seq<char>;

/// Relies on `From<i64> for BigInt`: the conversion preserves the value.
#[verifier::external_body]
pub(crate) fn big_from_i64(v: i64) -> (r: BigInt)
    ensures
        big_value(r) == v as int,
{
    BigInt::from(v)
}

/// Relies on `Clone for BigInt`: the copy holds the same value.
#[verifier::external_body]
pub(crate) fn big_clone(a: &BigInt) -> (r: BigInt)
    ensures
        big_value(r) == big_value(*a),
{
    a.clone()
}

/// Relies on `Add for &BigInt`: exact integer addition.
#[verifier::external_body]
pub(crate) fn big_add(a: &BigInt, b: &BigInt) -> (r: BigInt)
    ensures
        big_value(r) == big_value(*a) + big_value(*b),
{
    a + b
}

/// Relies on `Sub for &BigInt`: exact integer subtraction.
#[verifier::external_body]
pub(crate) fn big_sub(a: &BigInt, b: &BigInt) -> (r: BigInt)
    ensures
        big_value(r) == big_value(*a) - big_value(*b),
{
    a - b
}

/// Relies on `Mul for &BigInt`: exact integer multiplication.
#[verifier::external_body]
pub(crate) fn big_mul(a: &BigInt, b: &BigInt) -> (r: BigInt)
    ensures
        big_value(r) == big_value(*a) * big_value(*b),
{
    a * b
}

/// Relies on `Neg for &BigInt`: exact negation.
#[verifier::external_body]
pub(crate) fn big_neg(a: &BigInt) -> (r: BigInt)
    ensures
        big_value(r) == -big_value(*a),
{
    -a
}

/// Relies on `Div for &BigInt`: division truncated toward zero (quotient of
/// the magnitudes, with the sign of the operands' product).  It panics on a
/// zero divisor, which the precondition rules out.
#[verifier::external_body]
pub(crate) fn big_tdiv(a: &BigInt, b: &BigInt) -> (r: BigInt)
    requires
        big_value(*b) != 0,
    ensures
        big_value(r) == tdiv(big_value(*a), big_value(*b)),
{
    a / b
}

/// Relies on `num_integer::Integer::gcd` for `BigInt`: the greatest common
/// divisor of the two magnitudes, never negative.
#[verifier::external_body]
pub(crate) fn big_gcd(a: &BigInt, b: &BigInt) -> (r: BigInt)
    ensures
        big_value(r) == gcd(abs(big_value(*a)), abs(big_value(*b))) as int,
{
    a.gcd(b)
}

/// Relies on `Ord for BigInt`: comparison follows the numeric order.
#[verifier::external_body]
pub(crate) fn big_cmp(a: &BigInt, b: &BigInt) -> (r: i32)
    ensures
        r as int == sgn(big_value(*a) - big_value(*b)),
{
    match a.cmp(b) {
        core::cmp::Ordering::Less => -1,
        core::cmp::Ordering::Equal => 0,
        core::cmp::Ordering::Greater => 1,
    }
}

/// Relies on `BigInt::pow`: exact integer exponentiation.
#[verifier::external_body]
pub(crate) fn big_pow(a: &BigInt, e: u32) -> (r: BigInt)
    ensures
        big_value(r) == pow(big_value(*a), e as nat),
{
    a.pow(e)
}

/// Relies on `BigInt::parse_bytes` at a radix in 2..=36 (outside that range it
/// panics): it returns the integer the text denotes at that radix, or nothing
/// when the text is not a valid literal.
#[verifier::external_body]
pub(crate) fn big_parse(s: &str, radix: u32) -> (r: Option<BigInt>)
    requires
        2 <= radix <= 36,
    ensures
        r is Some <==> int_from_text(s@, radix) is Some,
        r matches Some(b) ==> Some(big_value(b)) == int_from_text(s@, radix),
{
    BigInt::parse_bytes(s.as_bytes(), radix)
}

/// Relies on `Display for BigInt` (through `ToString`): the canonical decimal
/// rendering — the magnitude's digits without leading zeros (`"0"` for zero),
/// prefixed with `-` when negative.  So the text is never empty, holds no
/// `/`, its length is one per digit of the magnitude plus one for the sign,
/// its first character is `-` for a negative value, `0` only for zero, and
/// `1` exactly when a positive value's leading digit is 1, and
/// `BigInt::parse_bytes` reads the text back to the same value at radix 10.
#[verifier::external_body]
pub(crate) fn big_to_string(a: &BigInt) -> (r: String)
    ensures
        r@ == decimal_chars(big_value(*a)),
        r@.len() == dec_len(big_value(*a)),
        forall|i: int| 0 <= i < r@.len() ==> r@[i] != '/',
        int_from_text(r@, 10) == Some(big_value(*a)),
        big_value(*a) < 0 ==> r@[0] == '-',
        big_value(*a) == 0 ==> r@[0] == '0',
        big_value(*a) > 0 ==> r@[0] != '0' && (r@[0] == '1' <==> lead_digit(
            big_value(*a) as nat,
        ) == 1),
{
    a.to_string()
}

} // verus!
