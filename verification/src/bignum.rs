//! Arbitrary-precision integers and rationals.
//!
//! The arithmetic is done by the `num` crate. This module declares its types,
//! names the mathematical value that each of them holds, and states for every
//! operation the library uses what it does to those values. None of these
//! statements is proved here: they are what the rest of the library relies on.

use crate::alphabet::{all_digits, positional_value, valid_digits};
use num::bigint::ParseBigIntError;
use num::rational::Ratio;
use num::BigInt;
use num::Num;
use num::Zero;
use vstd::prelude::*;

verus! {

/// `num::BigInt`, an integer of any size.
#[verifier::external_type_specification]
#[verifier::external_body]
pub struct ExBigInt(BigInt);

/// `num::rational::Ratio`, a fraction of two numbers of one type.
#[verifier::external_type_specification]
#[verifier::external_body]
#[verifier::reject_recursive_types(T)]
pub struct ExRatio<T>(Ratio<T>);

/// `num::bigint::ParseBigIntError`, the reason a text was not read as an integer.
#[verifier::external_type_specification]
#[verifier::external_body]
pub struct ExParseBigIntError(ParseBigIntError);

/// The integer that `n` holds.
pub uninterp spec fn integer_value(n: BigInt) -> int;

/// The numerator that `r` holds.
pub uninterp spec fn ratio_numer(r: Ratio<BigInt>) -> int;

/// The denominator that `r` holds.
pub uninterp spec fn ratio_denom(r: Ratio<BigInt>) -> int;

/// Whether `k` divides `n`.
pub open spec fn divides(k: int, n: int) -> bool {
    k != 0 && n % k == 0
}

/// Whether the fraction `n / d` cannot be shortened: no integer above one
/// divides both.
pub open spec fn lowest_terms(n: int, d: int) -> bool {
    forall|k: int| k > 1 ==> !(#[trigger] divides(k, n) && divides(k, d))
}

/// Whether `r` is kept the way `num` keeps the fractions it computes: in
/// lowest terms, with a positive denominator.
pub open spec fn normalized(r: Ratio<BigInt>) -> bool {
    &&& ratio_denom(r) > 0
    &&& lowest_terms(ratio_numer(r), ratio_denom(r))
}

/// Whether `r` holds the rational number `n / d`.
pub open spec fn represents(r: Ratio<BigInt>, n: int, d: int) -> bool {
    &&& d != 0
    &&& ratio_denom(r) != 0
    &&& ratio_numer(r) * d == n * ratio_denom(r)
}

/// The decimal digits of `n`, without leading zeros.
pub open spec fn decimal_text(n: nat) -> Seq<char>
    decreases n,
{
    if n < 10 {
        seq![('0' as nat + n) as char]
    } else {
        decimal_text(n / 10).push(('0' as nat + n % 10) as char)
    }
}

/// An integer in decimal, with a `-` in front when it is negative.
pub open spec fn integer_text(n: int) -> Seq<char> {
    if n < 0 {
        seq!['-'] + decimal_text((-n) as nat)
    } else {
        decimal_text(n as nat)
    }
}

/// A fraction as text: the numerator alone when the denominator is one, else
/// numerator, `/` and denominator.
pub open spec fn ratio_text(numer: int, denom: int) -> Seq<char> {
    if denom == 1 {
        integer_text(numer)
    } else {
        integer_text(numer) + seq!['/'] + integer_text(denom)
    }
}

/// `BigInt::from` for a `u8`: the integer with the same value.
#[verifier::external_body]
pub(crate) fn integer_from_u8(v: u8) -> (n: BigInt)
    ensures
        integer_value(n) == v,
{
    BigInt::from(v)
}

/// `BigInt::from` for a `usize`: the integer with the same value.
#[verifier::external_body]
pub(crate) fn integer_from_usize(v: usize) -> (n: BigInt)
    ensures
        integer_value(n) == v,
{
    BigInt::from(v)
}

/// `Zero::is_zero` for a `BigInt`: whether its value is zero.
#[verifier::external_body]
pub(crate) fn integer_is_zero(n: &BigInt) -> (b: bool)
    ensures
        b == (integer_value(*n) == 0),
{
    n.is_zero()
}

/// `*` on two `BigInt`s: their product.
#[verifier::external_body]
pub(crate) fn integer_mul(a: &BigInt, b: &BigInt) -> (n: BigInt)
    ensures
        integer_value(n) == integer_value(*a) * integer_value(*b),
{
    a * b
}

/// `BigInt::from_str_radix` on a text of digit symbols, for a radix from 2 to
/// 36, where letters count without regard to case: the text is read if every
/// symbol is a digit of that radix, and the result is then the number it
/// spells. Nothing is said here of texts with other characters.
#[verifier::external_body]
pub(crate) fn integer_from_str_radix(s: &str, radix: u32) -> (res: Result<BigInt, ParseBigIntError>)
    requires
        2 <= radix <= 36,
        s@.len() > 0,
        all_digits(s@),
    ensures
        res is Ok <==> valid_digits(s@, radix as int),
        res matches Ok(n) ==> integer_value(n) == positional_value(s@, radix as int),
{
    BigInt::from_str_radix(s, radix)
}

/// `Ratio::new`: the fraction `numer / denom`, normalized. It panics on a
/// zero denominator.
#[verifier::external_body]
pub(crate) fn ratio_new(numer: BigInt, denom: BigInt) -> (r: Ratio<BigInt>)
    requires
        integer_value(denom) != 0,
    ensures
        normalized(r),
        represents(r, integer_value(numer), integer_value(denom)),
{
    Ratio::new(numer, denom)
}

/// `Ratio::from_integer`: the fraction `n / 1`.
#[verifier::external_body]
pub(crate) fn ratio_from_integer(n: BigInt) -> (r: Ratio<BigInt>)
    ensures
        ratio_numer(r) == integer_value(n),
        ratio_denom(r) == 1,
{
    Ratio::from_integer(n)
}

/// `+` on two fractions: their sum, normalized. It divides by the
/// denominators, which must not be zero.
#[verifier::external_body]
pub(crate) fn ratio_add(a: Ratio<BigInt>, b: Ratio<BigInt>) -> (r: Ratio<BigInt>)
    requires
        ratio_denom(a) != 0,
        ratio_denom(b) != 0,
    ensures
        normalized(r),
        represents(
            r,
            ratio_numer(a) * ratio_denom(b) + ratio_numer(b) * ratio_denom(a),
            ratio_denom(a) * ratio_denom(b),
        ),
{
    a + b
}

/// `*` on two fractions: their product, normalized. It divides by the
/// denominators, which must not be zero.
#[verifier::external_body]
pub(crate) fn ratio_mul(a: Ratio<BigInt>, b: Ratio<BigInt>) -> (r: Ratio<BigInt>)
    requires
        ratio_denom(a) != 0,
        ratio_denom(b) != 0,
    ensures
        normalized(r),
        represents(r, ratio_numer(a) * ratio_numer(b), ratio_denom(a) * ratio_denom(b)),
{
    a * b
}

/// Unary `-` on a fraction: the numerator changes its sign, the denominator
/// stays.
#[verifier::external_body]
pub(crate) fn ratio_neg(a: Ratio<BigInt>) -> (r: Ratio<BigInt>)
    ensures
        ratio_numer(r) == -ratio_numer(a),
        ratio_denom(r) == ratio_denom(a),
{
    -a
}

/// `Display` for a fraction of `BigInt`s, with no formatting flags: the
/// numerator in decimal, then, unless the denominator is one, `/` and the
/// denominator in decimal.
#[verifier::external_body]
pub(crate) fn ratio_to_string(r: &Ratio<BigInt>) -> (s: String)
    ensures
        s@ == ratio_text(ratio_numer(*r), ratio_denom(*r)),
{
    format!("{}", r)
}

} // verus!
