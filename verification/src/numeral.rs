//! The value of a numeral: from its integer digits, its fractional digits and
//! its radix to an exact fraction.

use crate::alphabet::{
    all_digits, digit_of, digit_value, is_decimal, is_digit, positional_value, valid_digit,
    valid_digits,
};
use crate::bignum::{
    integer_from_str_radix, integer_from_u8, integer_from_usize, integer_is_zero, integer_mul,
    integer_value, normalized, ratio_add, ratio_from_integer, ratio_mul, ratio_new, represents,
};
use crate::error::ErrorKind;
use crate::rational::{
    lemma_represents_equal, lemma_represents_itself, lemma_represents_product,
    lemma_represents_sum, lemma_whole_is_normalized,
};
use crate::text::chars_of;
use num::rational::Ratio;
use num::BigInt;
use vstd::arithmetic::power::{lemma_pow0, lemma_pow_adds, pow};
use vstd::prelude::*;

verus! {

/// How many decimal digits it takes to write `n`.
pub open spec fn decimal_width(n: nat) -> nat
    decreases n,
{
    if n < 10 {
        1
    } else {
        1 + decimal_width(n / 10)
    }
}

/// The numerator of the value of a numeral, before the fraction is shortened.
///
/// In base 1 the digits are tally marks: the integer part is their count, and
/// the fractional part is the count of the fractional marks, written in
/// decimal behind the point. In every other base the digits weigh by their
/// place.
pub open spec fn numeral_numer(integer: Seq<char>, fractional: Seq<char>, radix: int) -> int {
    if radix == 1 {
        if fractional.len() == 0 {
            integer.len() as int
        } else {
            integer.len() * pow(10, decimal_width(fractional.len())) + fractional.len()
        }
    } else {
        positional_value(integer + fractional, radix)
    }
}

/// The denominator that goes with [`numeral_numer`].
pub open spec fn numeral_denom(integer: Seq<char>, fractional: Seq<char>, radix: int) -> int {
    if radix == 1 {
        if fractional.len() == 0 {
            1
        } else {
            pow(10, decimal_width(fractional.len()))
        }
    } else {
        pow(radix, fractional.len())
    }
}

/// Why a numeral has no value, if it has none: its radix is out of range, or,
/// in a base above 1, one of its characters is no digit of that base.
pub open spec fn numeral_error(integer: Seq<char>, fractional: Seq<char>, radix: int) -> Option<
    ErrorKind,
> {
    if radix < 1 || radix > 62 {
        Some(ErrorKind::InvalidRadix)
    } else if radix != 1 && !valid_digits(integer + fractional, radix) {
        Some(ErrorKind::InvalidDigitForRadix)
    } else {
        None
    }
}

/// The numerator of `n` to the power `exp` as a fraction.
pub open spec fn power_numer(n: int, exp: int) -> int {
    if exp >= 0 {
        pow(n, exp as nat)
    } else {
        1
    }
}

/// The denominator of `n` to the power `exp` as a fraction.
pub open spec fn power_denom(n: int, exp: int) -> int {
    if exp >= 0 {
        1
    } else {
        pow(n, (-exp) as nat)
    }
}

/// Whether `s` is made of the digit `0` only.
pub open spec fn all_zeros(s: Seq<char>) -> bool {
    forall|i: int| 0 <= i < s.len() ==> #[trigger] s[i] == '0'
}

/// Zeros spell zero, and zeros in front of digits change nothing of what the
/// digits spell.
pub proof fn lemma_zeros_weigh_nothing(zeros: Seq<char>, s: Seq<char>, radix: int)
    requires
        all_zeros(zeros),
    ensures
        positional_value(zeros + s, radix) == positional_value(s, radix),
    decreases s.len(), zeros.len(),
{
    if s.len() > 0 {
        assert((zeros + s).drop_last() == zeros + s.drop_last());
        assert((zeros + s).last() == s.last());
        lemma_zeros_weigh_nothing(zeros, s.drop_last(), radix);
    } else if zeros.len() > 0 {
        assert(zeros + s == zeros);
        assert(zeros.last() == '0');
        assert(zeros.drop_last() + s == zeros.drop_last());
        lemma_zeros_weigh_nothing(zeros.drop_last(), s, radix);
    } else {
        assert(zeros + s == s);
    }
}

/// In a base above 1, a numeral keeps its value when zeros are written in
/// front of its integer digits: `003926` is `3926`.
pub proof fn lemma_leading_zeros(
    zeros: Seq<char>,
    integer: Seq<char>,
    fractional: Seq<char>,
    radix: int,
)
    requires
        all_zeros(zeros),
        radix != 1,
    ensures
        numeral_error(zeros + integer, fractional, radix) == numeral_error(
            integer,
            fractional,
            radix,
        ),
        numeral_numer(zeros + integer, fractional, radix) == numeral_numer(
            integer,
            fractional,
            radix,
        ),
        numeral_denom(zeros + integer, fractional, radix) == numeral_denom(
            integer,
            fractional,
            radix,
        ),
{
    let short = integer + fractional;
    let long = (zeros + integer) + fractional;
    assert(long == zeros + short);
    lemma_zeros_weigh_nothing(zeros, short, radix);
    if 1 <= radix <= 62 {
        if valid_digits(short, radix) {
            assert forall|i: int| 0 <= i < long.len() implies valid_digit(
                #[trigger] long[i],
                radix,
            ) by {
                if i < zeros.len() {
                    assert(zeros[i] == '0');
                } else {
                    assert(long[i] == short[i - zeros.len()]);
                }
            }
        }
        if valid_digits(long, radix) {
            assert forall|i: int| 0 <= i < short.len() implies valid_digit(
                #[trigger] short[i],
                radix,
            ) by {
                assert(short[i] == long[i + zeros.len()]);
            }
        }
    }
}

/// Decimal digits can be read back from the number they spell: two runs of
/// decimal digits of one length that spell the same number are the same
/// digits. Nothing of a digit run is lost in its value but its leading zeros.
pub proof fn lemma_decimal_digits_recoverable(a: Seq<char>, b: Seq<char>)
    requires
        a.len() == b.len(),
        forall|i: int| 0 <= i < a.len() ==> is_decimal(#[trigger] a[i]),
        forall|i: int| 0 <= i < b.len() ==> is_decimal(#[trigger] b[i]),
        positional_value(a, 10) == positional_value(b, 10),
    ensures
        a == b,
    decreases a.len(),
{
    if a.len() > 0 {
        let (a0, b0) = (a.drop_last(), b.drop_last());
        assert(is_decimal(a.last()) && is_decimal(b.last()));
        assert forall|i: int| 0 <= i < a0.len() implies is_decimal(#[trigger] a0[i]) by {
            assert(a0[i] == a[i]);
        }
        assert forall|i: int| 0 <= i < b0.len() implies is_decimal(#[trigger] b0[i]) by {
            assert(b0[i] == b[i]);
        }
        lemma_decimal_digits_recoverable(a0, b0);
        assert(a == a0.push(a.last()));
        assert(b == b0.push(b.last()));
    } else {
        assert(a =~= b);
    }
}

/// A numeral of one digit is worth the value of the digit, and it has no
/// value where the digit is not below the radix: `1_2` is one, `2_2` fails.
pub proof fn lemma_single_digit(c: char, radix: int)
    requires
        2 <= radix <= 62,
    ensures
        valid_digit(c, radix) ==> numeral_error(seq![c], Seq::empty(), radix) is None,
        !valid_digit(c, radix) ==> numeral_error(seq![c], Seq::empty(), radix) == Some(
            ErrorKind::InvalidDigitForRadix,
        ),
        numeral_numer(seq![c], Seq::empty(), radix) == digit_value(c, radix),
        numeral_denom(seq![c], Seq::empty(), radix) == 1,
{
    let s = seq![c] + Seq::<char>::empty();
    assert(s == seq![c]);
    assert(s[0] == c);
    assert(s.drop_last() == Seq::<char>::empty());
    assert(positional_value(s.drop_last(), radix) == 0);
    assert(positional_value(s, radix) == 0 * radix + digit_value(c, radix));
    lemma_pow0(radix);
}

/// A power of a number other than zero is not zero.
pub proof fn lemma_pow_nonzero(b: int, e: nat)
    requires
        b != 0,
    ensures
        pow(b, e) != 0,
    decreases e,
{
    reveal(pow);
    if e > 0 {
        lemma_pow_nonzero(b, (e - 1) as nat);
        let p = pow(b, (e - 1) as nat);
        assert(b * p != 0) by (nonlinear_arith)
            requires
                b != 0,
                p != 0,
        ;
    }
}

/// `base` multiplied by itself `exp` times.
fn integer_pow(base: &BigInt, exp: usize) -> (p: BigInt)
    ensures
        integer_value(p) == pow(integer_value(*base), exp as nat),
{
    let mut acc = integer_from_u8(1);
    let mut k: usize = 0;
    proof {
        lemma_pow0(integer_value(*base));
    }
    while k < exp
        invariant
            k <= exp,
            integer_value(acc) == pow(integer_value(*base), k as nat),
        decreases exp - k,
    {
        acc = integer_mul(&acc, base);
        proof {
            let b = integer_value(*base);
            reveal(pow);
            assert(pow(b, (k + 1) as nat) == b * pow(b, k as nat));
            assert(pow(b, k as nat) * b == b * pow(b, k as nat)) by (nonlinear_arith);
        }
        k += 1;
    }
    acc
}

/// `base` to the power `magnitude`, or one over it where `reciprocal` is set.
fn ratio_power(base: &BigInt, magnitude: usize, reciprocal: bool) -> (r: Ratio<BigInt>)
    requires
        reciprocal ==> integer_value(*base) != 0,
    ensures
        normalized(r),
        !reciprocal ==> represents(r, pow(integer_value(*base), magnitude as nat), 1),
        reciprocal ==> represents(r, 1, pow(integer_value(*base), magnitude as nat)),
{
    let p = integer_pow(base, magnitude);
    let one = integer_from_u8(1);
    if reciprocal {
        proof {
            lemma_pow_nonzero(integer_value(*base), magnitude as nat);
        }
        ratio_new(one, p)
    } else {
        ratio_new(p, one)
    }
}

/// `n` to the power `exp` as an exact fraction; for a negative `exp`, one
/// over `n` to the power `-exp`.
pub fn big_power(n: &BigInt, exp: isize) -> (r: Ratio<BigInt>)
    requires
        exp < 0 ==> integer_value(*n) != 0,
    ensures
        normalized(r),
        represents(
            r,
            power_numer(integer_value(*n), exp as int),
            power_denom(integer_value(*n), exp as int),
        ),
{
    if exp >= 0 {
        ratio_power(n, exp as usize, false)
    } else {
        let below: usize = (-(exp + 1)) as usize;
        ratio_power(n, below + 1, true)
    }
}

/// `n` to the power `exp` as an exact fraction, unless it has none: zero has
/// no negative power.
pub fn checked_big_power(n: &BigInt, exp: isize) -> (res: Option<Ratio<BigInt>>)
    ensures
        res is None <==> exp < 0 && integer_value(*n) == 0,
        res matches Some(r) ==> normalized(r) && represents(
            r,
            power_numer(integer_value(*n), exp as int),
            power_denom(integer_value(*n), exp as int),
        ),
{
    if exp < 0 && integer_is_zero(n) {
        None
    } else {
        Some(big_power(n, exp))
    }
}

/// The number of decimal digits of `n`.
fn decimal_width_of(n: usize) -> (w: usize)
    ensures
        w == decimal_width(n as nat),
{
    let mut w: usize = 1;
    let mut m: usize = n;
    while m >= 10
        invariant
            w >= 1,
            w + m <= n + 1,
            decimal_width(n as nat) == (w - 1) + decimal_width(m as nat),
        decreases m,
    {
        m = m / 10;
        w += 1;
    }
    w
}

/// The value of a base-1 numeral with `ilen` integer marks and `flen`
/// fractional marks.
fn tally(ilen: usize, flen: usize) -> (r: Ratio<BigInt>)
    ensures
        normalized(r),
        flen == 0 ==> represents(r, ilen as int, 1),
        flen != 0 ==> represents(
            r,
            ilen * pow(10, decimal_width(flen as nat)) + flen,
            pow(10, decimal_width(flen as nat)),
        ),
{
    let whole = ratio_from_integer(integer_from_usize(ilen));
    proof {
        lemma_whole_is_normalized(whole);
        lemma_represents_itself(whole);
    }
    if flen == 0 {
        return whole;
    }
    let ten = integer_from_u8(10);
    let scale = integer_pow(&ten, decimal_width_of(flen));
    proof {
        lemma_pow_nonzero(10, decimal_width(flen as nat));
    }
    let part = ratio_new(integer_from_usize(flen), scale);
    let sum = ratio_add(whole, part);
    proof {
        let s = pow(10, decimal_width(flen as nat));
        lemma_represents_sum(whole, part, sum, ilen as int, 1, flen as int, s);
        assert(ilen * s + flen * 1 == ilen * s + flen) by (nonlinear_arith);
        assert(1 * s == s) by (nonlinear_arith);
    }
    sum
}

/// Whether every character of `chars` is a digit symbol.
fn only_digit_symbols(chars: &Vec<char>) -> (b: bool)
    ensures
        b == all_digits(chars@),
{
    let mut i: usize = 0;
    while i < chars.len()
        invariant
            i <= chars.len(),
            all_digits(chars@.take(i as int)),
        decreases chars.len() - i,
    {
        let c = chars[i];
        if !(('0' <= c && c <= '9') || ('A' <= c && c <= 'Z') || ('a' <= c && c <= 'z')) {
            assert(!is_digit(chars@[i as int]));
            return false;
        }
        assert forall|j: int| 0 <= j < i + 1 implies is_digit(
            #[trigger] chars@.take(i + 1)[j],
        ) by {
            if j < i {
                assert(chars@.take(i as int)[j] == chars@[j]);
            }
        }
        i += 1;
    }
    assert(chars@.take(i as int) == chars@);
    true
}

/// Whether every character of `chars` is a digit of base `radix`.
fn only_digits_of(chars: &Vec<char>, radix: u8) -> (b: bool)
    ensures
        b == valid_digits(chars@, radix as int),
{
    let mut i: usize = 0;
    while i < chars.len()
        invariant
            i <= chars.len(),
            valid_digits(chars@.take(i as int), radix as int),
        decreases chars.len() - i,
    {
        if digit_of(chars[i], radix).is_none() {
            assert(!valid_digit(chars@[i as int], radix as int));
            return false;
        }
        assert forall|j: int| 0 <= j < i + 1 implies valid_digit(
            #[trigger] chars@.take(i + 1)[j],
            radix as int,
        ) by {
            if j < i {
                assert(chars@.take(i as int)[j] == chars@[j]);
            }
        }
        i += 1;
    }
    assert(chars@.take(i as int) == chars@);
    true
}

/// One more digit behind a run of digits: the run's value moves up one place
/// and the digit is added.
pub proof fn lemma_positional_step(s: Seq<char>, i: int, radix: int)
    requires
        0 <= i < s.len(),
    ensures
        positional_value(s.take(i + 1), radix) == positional_value(s.take(i), radix) * radix
            + digit_value(s[i], radix),
{
    let t = s.take(i + 1);
    assert(t.drop_last() == s.take(i));
    assert(t.last() == s[i]);
}

/// The sum of each digit times the radix to the power of its place: the
/// first of the `ilen` integer digits has the place `ilen - 1`, the last
/// fractional digit the place `-(digits.len() - ilen)`.
fn weighted_sum(digits: &Vec<char>, ilen: usize, radix: u8) -> (r: Ratio<BigInt>)
    requires
        2 <= radix <= 62,
        ilen <= digits.len(),
        digits.len() > 0,
        valid_digits(digits@, radix as int),
    ensures
        normalized(r),
        represents(
            r,
            positional_value(digits@, radix as int),
            pow(radix as int, (digits.len() - ilen) as nat),
        ),
{
    let n = digits.len();
    let base = integer_from_u8(radix);
    let ghost rx = radix as int;
    let ghost scale = pow(rx, (n - ilen) as nat);
    let mut acc = ratio_from_integer(integer_from_u8(0));
    let mut i: usize = 0;
    proof {
        lemma_pow_nonzero(rx, (n - ilen) as nat);
        assert(digits@.take(0) =~= Seq::<char>::empty());
        assert(0 * pow(rx, n as nat) == 0) by (nonlinear_arith);
        assert(0 * scale == 0 * 1) by (nonlinear_arith);
    }
    while i < n
        invariant
            i <= n,
            n == digits.len(),
            ilen <= n,
            2 <= radix <= 62,
            rx == radix as int,
            integer_value(base) == rx,
            scale == pow(rx, (n - ilen) as nat),
            scale != 0,
            valid_digits(digits@, rx),
            i > 0 ==> normalized(acc),
            represents(
                acc,
                positional_value(digits@.take(i as int), rx) * pow(rx, (n - i) as nat),
                scale,
            ),
        decreases n - i,
    {
        assert(valid_digit(digits@[i as int], rx));
        let d = digit_of(digits[i], radix).unwrap();
        let unit = ratio_from_integer(integer_from_u8(d));
        let weight = if i < ilen {
            ratio_power(&base, ilen - 1 - i, false)
        } else {
            ratio_power(&base, i - ilen + 1, true)
        };
        let term = ratio_mul(unit, weight);
        let next = ratio_add(acc, term);
        proof {
            let dv = d as int;
            let before = positional_value(digits@.take(i as int), rx);
            let place = pow(rx, (n - i - 1) as nat);
            let (wn, wd) = if i < ilen {
                (pow(rx, (ilen - 1 - i) as nat), 1int)
            } else {
                (1int, pow(rx, (i - ilen + 1) as nat))
            };
            assert(valid_digit(digits@[i as int], rx));
            lemma_positional_step(digits@, i as int, rx);
            // the weight, seen against the common denominator
            assert(wn * scale == place * wd) by {
                if i < ilen {
                    lemma_pow_adds(rx, (ilen - 1 - i) as nat, (n - ilen) as nat);
                    assert((ilen - 1 - i) + (n - ilen) == n - i - 1);
                    assert(place * 1 == place) by (nonlinear_arith);
                } else {
                    lemma_pow_adds(rx, (n - i - 1) as nat, (i - ilen + 1) as nat);
                    assert((n - i - 1) + (i - ilen + 1) == n - ilen);
                    assert(1 * scale == scale) by (nonlinear_arith);
                }
            }
            assert(wd != 0) by {
                lemma_pow_nonzero(rx, (i - ilen + 1) as nat);
            }
            lemma_represents_itself(unit);
            lemma_represents_product(unit, weight, term, dv, 1, wn, wd);
            let whole = before * pow(rx, (n - i) as nat);
            lemma_represents_sum(acc, term, next, whole, scale, dv * wn, 1 * wd);
            // what the sum holds is the value of one more digit
            let target = (before * rx + dv) * place;
            assert(pow(rx, (n - i) as nat) == rx * place) by {
                reveal(pow);
            }
            lemma_weighted_step(before, rx, dv, place, wn, wd, scale);
            lemma_represents_equal(
                next,
                whole * (1 * wd) + (dv * wn) * scale,
                scale * (1 * wd),
                target,
                scale,
            );
        }
        acc = next;
        i += 1;
    }
    proof {
        assert(digits@.take(n as int) == digits@);
        lemma_pow0(rx);
        let v = positional_value(digits@, rx);
        assert(v * 1 == v) by (nonlinear_arith);
    }
    acc
}

/// The arithmetic behind one step of the weighted sum: adding the digit
/// `dv`, weighted `wn / wd`, to the value `before * rx * place / scale` gives
/// `(before * rx + dv) * place / scale`, where `wn / wd` is `place / scale`.
proof fn lemma_weighted_step(
    before: int,
    rx: int,
    dv: int,
    place: int,
    wn: int,
    wd: int,
    scale: int,
)
    requires
        wn * scale == place * wd,
    ensures
        ((before * (rx * place)) * (1 * wd) + (dv * wn) * scale) * scale == ((before * rx + dv)
            * place) * (scale * (1 * wd)),
{
    let x = wn * scale;
    assert((dv * wn) * scale == dv * x) by (nonlinear_arith)
        requires
            x == wn * scale,
    ;
    assert(dv * x == (dv * place) * wd) by (nonlinear_arith)
        requires
            x == place * wd,
    ;
    assert((before * (rx * place)) * (1 * wd) == ((before * rx) * place) * wd)
        by (nonlinear_arith);
    assert(((before * rx) * place) * wd + (dv * place) * wd == ((before * rx + dv) * place) * wd)
        by (nonlinear_arith);
    let t = (before * rx + dv) * place;
    assert((t * wd) * scale == t * (scale * (1 * wd))) by (nonlinear_arith);
}

/// The exact value of a numeral, from its integer digits, its fractional
/// digits and its radix.
///
/// A radix outside 1 to 62 is refused, and so is, in a base above 1, a
/// character that is no digit of the base. Otherwise the result is the
/// fraction `numeral_numer / numeral_denom`, in lowest terms.
pub fn parse_str_radix(integer: String, fractional: String, radix: u8) -> (res: Result<
    Ratio<BigInt>,
    ErrorKind,
>)
    ensures
        res is Ok <==> numeral_error(integer@, fractional@, radix as int) is None,
        res matches Err(e) ==> numeral_error(integer@, fractional@, radix as int) == Some(e),
        res matches Ok(r) ==> normalized(r) && represents(
            r,
            numeral_numer(integer@, fractional@, radix as int),
            numeral_denom(integer@, fractional@, radix as int),
        ),
{
    if radix < 1 || radix > 62 {
        return Err(ErrorKind::InvalidRadix);
    }
    let mut digits = chars_of(integer.as_str());
    let mut fraction = chars_of(fractional.as_str());
    let ilen = digits.len();
    let flen = fraction.len();
    if radix == 1 {
        return Ok(tally(ilen, flen));
    }
    digits.append(&mut fraction);
    assert(digits@ == integer@ + fractional@);
    if digits.len() == 0 {
        let zero = ratio_from_integer(integer_from_u8(0));
        proof {
            lemma_whole_is_normalized(zero);
            lemma_pow0(radix as int);
            assert(integer@ + fractional@ =~= Seq::<char>::empty());
        }
        return Ok(zero);
    }
    if flen == 0 && radix <= 36 {
        if !only_digit_symbols(&digits) {
            return Err(ErrorKind::InvalidDigitForRadix);
        }
        assert(digits@ == integer@);
        return match integer_from_str_radix(integer.as_str(), radix as u32) {
            Ok(n) => {
                let whole = ratio_from_integer(n);
                proof {
                    lemma_whole_is_normalized(whole);
                    lemma_pow0(radix as int);
                }
                Ok(whole)
            },
            Err(_) => Err(ErrorKind::InvalidDigitForRadix),
        };
    }
    if !only_digits_of(&digits, radix) {
        return Err(ErrorKind::InvalidDigitForRadix);
    }
    Ok(weighted_sum(&digits, ilen, radix))
}

} // verus!
