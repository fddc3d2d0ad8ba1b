//! Number literals: a sign, integer digits, fractional digits and a radix, and
//! the exact value they stand for.

use crate::alphabet::{
    all_digits, decimal_of, in_class, is_decimal, is_digit, lemma_run_end,
    lemma_run_holds_digits, run_end, scan_run, valid_digit,
};
use crate::bignum::{
    normalized, ratio_denom, ratio_neg, ratio_numer, ratio_text, ratio_to_string, represents,
};
use crate::error::ErrorKind;
use crate::numeral::{numeral_denom, numeral_error, numeral_numer, parse_str_radix};
use crate::rational::{
    lemma_negation_is_normalized, lemma_represents_equal, lemma_same_value_same_fraction,
};
use crate::text::{chars_of, string_of};
use num::rational::Ratio;
use num::BigInt;
use vstd::prelude::*;
use vstd::slice::slice_subrange;

verus! {

/// The sign written in front of a numeral. `NoSign` means that none was
/// written; the value is then the same as with `Plus`.
#[derive(Clone, Copy, Debug, PartialEq, Eq, Structural)]
pub enum Sign {
    Minus,
    NoSign,
    Plus,
}

/// A numeral taken apart, before its value is computed.
#[derive(Debug, PartialEq, Eq)]
pub struct Numeral {
    /// The sign in front.
    pub sign: Sign,
    /// The digits before the point.
    pub integer: String,
    /// The digits behind the point.
    pub fractional: String,
    /// The radix behind `_`, or 10 where none is written.
    pub radix: u8,
}

/// What a [`Numeral`] holds.
pub struct NumeralView {
    pub sign: Sign,
    pub integer: Seq<char>,
    pub fractional: Seq<char>,
    pub radix: int,
}

impl View for Numeral {
    type V = NumeralView;

    open spec fn view(&self) -> NumeralView {
        NumeralView {
            sign: self.sign,
            integer: self.integer@,
            fractional: self.fractional@,
            radix: self.radix as int,
        }
    }
}

/// A number literal with its exact value.
#[derive(Debug, PartialEq, Eq)]
pub struct Number {
    /// The sign that was written.
    pub sign: Sign,
    /// The value, negative where the sign is `Minus`.
    pub value: Ratio<BigInt>,
    /// The radix in which the literal was written.
    pub radix: u8,
    /// The value as text.
    pub display: String,
}

/// `n`, or `-n` where the sign is `Minus`.
pub open spec fn signed(sign: Sign, n: int) -> int {
    if sign == Sign::Minus {
        -n
    } else {
        n
    }
}

impl Number {
    /// Whether the value is in lowest terms and `display` spells it.
    pub open spec fn well_formed(&self) -> bool {
        &&& normalized(self.value)
        &&& self.display@ == ratio_text(ratio_numer(self.value), ratio_denom(self.value))
        &&& 1 <= self.radix <= 62
    }

    /// Whether this is the number that the numeral `v` stands for.
    pub open spec fn is_value_of(&self, v: NumeralView) -> bool {
        &&& self.well_formed()
        &&& self.sign == v.sign
        &&& self.radix == v.radix
        &&& represents(
            self.value,
            signed(v.sign, numeral_numer(v.integer, v.fractional, v.radix)),
            numeral_denom(v.integer, v.fractional, v.radix),
        )
    }

    /// The number with the given sign, digits and radix.
    ///
    /// It fails where the numeral has no value: see [`numeral_error`].
    pub fn parse(sign: Sign, integer: String, fractional: String, radix: u8) -> (res: Result<
        Number,
        ErrorKind,
    >)
        ensures
            res is Ok <==> numeral_error(integer@, fractional@, radix as int) is None,
            res matches Err(e) ==> numeral_error(integer@, fractional@, radix as int) == Some(e),
            res matches Ok(n) ==> n.is_value_of(
                (NumeralView {
                    sign,
                    integer: integer@,
                    fractional: fractional@,
                    radix: radix as int,
                }),
            ),
    {
        let ghost numer = numeral_numer(integer@, fractional@, radix as int);
        let ghost denom = numeral_denom(integer@, fractional@, radix as int);
        let magnitude = match parse_str_radix(integer, fractional, radix) {
            Ok(m) => m,
            Err(e) => {
                return Err(e);
            },
        };
        let value = match sign {
            Sign::Minus => {
                let negated = ratio_neg(magnitude);
                proof {
                    lemma_negation_is_normalized(magnitude, negated);
                    assert(ratio_numer(negated) * denom == (-numer) * ratio_denom(negated))
                        by (nonlinear_arith)
                        requires
                            ratio_numer(magnitude) * denom == numer * ratio_denom(magnitude),
                            ratio_numer(negated) == -ratio_numer(magnitude),
                            ratio_denom(negated) == ratio_denom(magnitude),
                    ;
                }
                negated
            },
            _ => magnitude,
        };
        let display = ratio_to_string(&value);
        Ok(Number { sign, value, radix, display })
    }
}

/// The value decides the number: two numbers whose numerals stand for the
/// same rational number hold the same fraction and show the same text,
/// however the numerals were written.
pub proof fn lemma_same_value_same_number(a: Number, va: NumeralView, b: Number, vb: NumeralView)
    requires
        a.is_value_of(va),
        b.is_value_of(vb),
        signed(va.sign, numeral_numer(va.integer, va.fractional, va.radix)) * numeral_denom(
            vb.integer,
            vb.fractional,
            vb.radix,
        ) == signed(vb.sign, numeral_numer(vb.integer, vb.fractional, vb.radix)) * numeral_denom(
            va.integer,
            va.fractional,
            va.radix,
        ),
    ensures
        ratio_numer(a.value) == ratio_numer(b.value),
        ratio_denom(a.value) == ratio_denom(b.value),
        a.display@ == b.display@,
{
    let na = signed(va.sign, numeral_numer(va.integer, va.fractional, va.radix));
    let da = numeral_denom(va.integer, va.fractional, va.radix);
    let nb = signed(vb.sign, numeral_numer(vb.integer, vb.fractional, vb.radix));
    let db = numeral_denom(vb.integer, vb.fractional, vb.radix);
    lemma_represents_equal(b.value, nb, db, na, da);
    lemma_same_value_same_fraction(a.value, b.value, na, da);
}

/// The part of a numeral behind its sign, as far as one form of the grammar
/// reads it: the digits, the radix, and where the form ends in the text.
pub struct Reading {
    pub integer: Seq<char>,
    pub fractional: Seq<char>,
    pub radix: int,
    pub end: int,
}

/// The radix written at `at`: `_` and one or two decimal digits, two where
/// there are two. The result is the radix and the place behind it.
pub open spec fn radix_suffix(s: Seq<char>, at: int) -> Option<(int, int)> {
    if 0 <= at && at + 1 < s.len() && s[at] == '_' && is_decimal(s[at + 1]) {
        let first = s[at + 1] as int - '0' as int;
        if at + 2 < s.len() && is_decimal(s[at + 2]) {
            Some((first * 10 + (s[at + 2] as int - '0' as int), at + 3))
        } else {
            Some((first, at + 2))
        }
    } else {
        None
    }
}

/// A point, then digits up to `frac_end`, with no integer part.
pub open spec fn fraction_reading(s: Seq<char>, frac_end: int, radix: int, end: int) -> Reading {
    Reading { integer: Seq::empty(), fractional: s.subrange(1, frac_end), radix, end }
}

/// Digits up to `int_end`, a point, then digits up to `frac_end`.
pub open spec fn decimal_reading(
    s: Seq<char>,
    int_end: int,
    frac_end: int,
    radix: int,
    end: int,
) -> Reading {
    Reading {
        integer: s.subrange(0, int_end),
        fractional: s.subrange(int_end + 1, frac_end),
        radix,
        end,
    }
}

/// Digits up to `int_end`, with no point.
pub open spec fn integer_reading(s: Seq<char>, int_end: int, radix: int, end: int) -> Reading {
    Reading { integer: s.subrange(0, int_end), fractional: Seq::empty(), radix, end }
}

/// The six forms of a numeral behind its sign, in the order in which they are
/// tried; the first that fits the start of `s` decides. With a radix the
/// digits are digit symbols, without one decimal digits.
///
/// 1. `.` digits `_` radix
/// 2. digits `.` digits, if any, `_` radix
/// 3. digits `_` radix
/// 4. `.` decimals
/// 5. decimals `.` decimals, if any
/// 6. decimals
pub open spec fn numeral_body(s: Seq<char>) -> Option<Reading> {
    let point = s.len() > 0 && s[0] == '.';
    let digits = run_end(s, 0, false);
    let digits_behind_point = run_end(s, 1, false);
    let digits_behind_digits = run_end(s, digits + 1, false);
    let decimals = run_end(s, 0, true);
    let decimals_behind_point = run_end(s, 1, true);
    let decimals_behind_decimals = run_end(s, decimals + 1, true);
    if point && digits_behind_point > 1 && radix_suffix(s, digits_behind_point) is Some {
        let (radix, end) = radix_suffix(s, digits_behind_point)->0;
        Some(fraction_reading(s, digits_behind_point, radix, end))
    } else if digits > 0 && digits < s.len() && s[digits] == '.' && radix_suffix(
        s,
        digits_behind_digits,
    ) is Some {
        let (radix, end) = radix_suffix(s, digits_behind_digits)->0;
        Some(decimal_reading(s, digits, digits_behind_digits, radix, end))
    } else if digits > 0 && radix_suffix(s, digits) is Some {
        let (radix, end) = radix_suffix(s, digits)->0;
        Some(integer_reading(s, digits, radix, end))
    } else if point && decimals_behind_point > 1 {
        Some(fraction_reading(s, decimals_behind_point, 10, decimals_behind_point))
    } else if decimals > 0 && decimals < s.len() && s[decimals] == '.' {
        Some(decimal_reading(s, decimals, decimals_behind_decimals, 10, decimals_behind_decimals))
    } else if decimals > 0 {
        Some(integer_reading(s, decimals, 10, decimals))
    } else {
        None
    }
}

/// The sign that a character in front of a numeral stands for.
pub open spec fn sign_of(c: char) -> Sign {
    if c == '+' {
        Sign::Plus
    } else if c == '-' {
        Sign::Minus
    } else {
        Sign::NoSign
    }
}

/// A numeral taken apart: an optional sign, then the first form of
/// [`numeral_body`] that fits, which must reach the end of the text.
pub open spec fn numeral_spec(t: Seq<char>) -> Result<NumeralView, ErrorKind> {
    if t.len() == 0 {
        Err(ErrorKind::IncompleteInput)
    } else {
        let sign = sign_of(t[0]);
        let s = if sign == Sign::NoSign {
            t
        } else {
            t.skip(1)
        };
        match numeral_body(s) {
            None => Err(ErrorKind::NoAlternativeMatched),
            Some(r) => if r.end < s.len() {
                Err(ErrorKind::TrailingCharacters)
            } else {
                Ok(
                    NumeralView {
                        sign,
                        integer: r.integer,
                        fractional: r.fractional,
                        radix: r.radix,
                    },
                )
            },
        }
    }
}

/// A number literal: a numeral that can be taken apart and has a value.
pub open spec fn number_spec(t: Seq<char>) -> Result<NumeralView, ErrorKind> {
    match numeral_spec(t) {
        Err(e) => Err(e),
        Ok(v) => match numeral_error(v.integer, v.fractional, v.radix) {
            Some(e) => Err(e),
            None => Ok(v),
        },
    }
}

/// Whether `c` can stand in a numeral behind its sign: a digit symbol, the
/// point, or the `_` in front of the radix.
pub open spec fn numeral_char(c: char) -> bool {
    is_digit(c) || c == '.' || c == '_'
}

/// What a form of the grammar reads lies at the start of the text, is not
/// empty, and holds digit symbols, points and `_` only.
pub proof fn lemma_numeral_body_chars(s: Seq<char>)
    requires
        numeral_body(s) is Some,
    ensures
        0 < numeral_body(s)->0.end <= s.len(),
        forall|i: int| 0 <= i < numeral_body(s)->0.end ==> numeral_char(#[trigger] s[i]),
{
    let digits = run_end(s, 0, false);
    let decimals = run_end(s, 0, true);
    lemma_run_holds_digits(s, 0, false);
    lemma_run_holds_digits(s, 0, true);
    if s.len() > 0 {
        lemma_run_holds_digits(s, 1, false);
        lemma_run_holds_digits(s, 1, true);
    }
    if digits < s.len() {
        lemma_run_holds_digits(s, digits + 1, false);
    }
    if decimals < s.len() {
        lemma_run_holds_digits(s, decimals + 1, true);
    }
}

/// A number literal holds no character but a sign in front and, behind it,
/// digit symbols, points and `_`.
pub proof fn lemma_number_chars(t: Seq<char>)
    requires
        numeral_spec(t) is Ok,
    ensures
        t.len() > 0,
        forall|i: int| 1 <= i < t.len() ==> numeral_char(#[trigger] t[i]),
        numeral_char(t[0]) || t[0] == '+' || t[0] == '-',
{
    if sign_of(t[0]) == Sign::NoSign {
        lemma_numeral_body_chars(t);
    } else {
        let s = t.skip(1);
        lemma_numeral_body_chars(s);
        assert forall|i: int| 1 <= i < t.len() implies numeral_char(#[trigger] t[i]) by {
            assert(t[i] == s[i - 1]);
        }
    }
}

/// The text of a sign: `+`, `-` or nothing.
pub open spec fn sign_text(sign: Sign) -> Seq<char> {
    match sign {
        Sign::Plus => seq!['+'],
        Sign::Minus => seq!['-'],
        Sign::NoSign => Seq::empty(),
    }
}

/// Whether every character of `s` is a decimal digit.
pub open spec fn all_decimals(s: Seq<char>) -> bool {
    forall|i: int| 0 <= i < s.len() ==> is_decimal(#[trigger] s[i])
}

/// A decimal numeral written out: the sign, the integer digits, a point
/// where `point` is set, and the fractional digits.
pub open spec fn decimal_numeral(
    sign: Sign,
    integer: Seq<char>,
    point: bool,
    fractional: Seq<char>,
) -> Seq<char> {
    sign_text(sign) + decimal_body(integer, point, fractional)
}

/// The digits of a decimal numeral with the point between them, where there
/// is one.
pub open spec fn decimal_body(integer: Seq<char>, point: bool, fractional: Seq<char>) -> Seq<char> {
    integer + (if point {
        seq!['.']
    } else {
        Seq::empty()
    }) + fractional
}

/// What stands behind the sign of a decimal numeral is read by one of the
/// forms without a radix, as the digits it was written with.
proof fn lemma_decimal_body(integer: Seq<char>, point: bool, fractional: Seq<char>)
    requires
        all_decimals(integer),
        all_decimals(fractional),
        integer.len() > 0 || fractional.len() > 0,
        point || fractional.len() == 0,
    ensures
        numeral_body(decimal_body(integer, point, fractional)) == Some(
            Reading {
                integer,
                fractional,
                radix: 10,
                end: decimal_body(integer, point, fractional).len() as int,
            },
        ),
{
    let body = decimal_body(integer, point, fractional);
    let len = body.len() as int;
    let ilen = integer.len() as int;
    assert forall|i: int| 0 <= i < ilen implies is_decimal(#[trigger] body[i]) by {
        assert(body[i] == integer[i]);
    }
    lemma_run_end(body, 0, ilen, false);
    lemma_run_end(body, 0, ilen, true);
    assert(body.subrange(0, ilen) == integer);
    assert(radix_suffix(body, len) is None);
    if point {
        assert(body[ilen] == '.');
        assert forall|i: int| ilen + 1 <= i < len implies is_decimal(#[trigger] body[i]) by {
            assert(body[i] == fractional[i - ilen - 1]);
        }
        lemma_run_end(body, ilen + 1, len, false);
        lemma_run_end(body, ilen + 1, len, true);
        assert(body.subrange(ilen + 1, len) == fractional);
        assert(radix_suffix(body, ilen) is None);
        if ilen == 0 {
            assert(integer == Seq::<char>::empty());
            assert(numeral_body(body) == Some(fraction_reading(body, len, 10, len)));
        } else {
            assert(numeral_body(body) == Some(decimal_reading(body, ilen, len, 10, len)));
        }
    } else {
        assert(body == integer);
        assert(fractional == Seq::<char>::empty());
        assert(numeral_body(body) == Some(integer_reading(body, ilen, 10, len)));
    }
}

/// A decimal numeral is taken apart into the sign and the digits it was
/// written with, and it has a value. Digits must stand on one side of the
/// point at least; without a point there are no fractional digits. A point
/// with nothing behind it changes nothing: `3926.` is read as `3926` is.
pub proof fn lemma_decimal_numeral(
    sign: Sign,
    integer: Seq<char>,
    point: bool,
    fractional: Seq<char>,
)
    requires
        all_decimals(integer),
        all_decimals(fractional),
        integer.len() > 0 || fractional.len() > 0,
        point || fractional.len() == 0,
    ensures
        numeral_spec(decimal_numeral(sign, integer, point, fractional)) == Ok::<
            NumeralView,
            ErrorKind,
        >(NumeralView { sign, integer, fractional, radix: 10 }),
        number_spec(decimal_numeral(sign, integer, point, fractional)) == numeral_spec(
            decimal_numeral(sign, integer, point, fractional),
        ),
{
    let body = decimal_body(integer, point, fractional);
    let t = decimal_numeral(sign, integer, point, fractional);
    let ilen = integer.len() as int;
    assert(t == sign_text(sign) + body);
    assert(body.len() > 0);
    lemma_decimal_body(integer, point, fractional);
    // the sign, if any, is taken off
    if sign == Sign::NoSign {
        assert(t == body);
        assert(body[0] == if ilen > 0 {
            integer[0]
        } else {
            '.'
        });
        assert(sign_of(t[0]) == Sign::NoSign);
    } else {
        assert(t.skip(1) == body);
        assert(sign_of(t[0]) == sign);
    }
    // the digits are digits of base ten
    let digits = integer + fractional;
    assert forall|i: int| 0 <= i < digits.len() implies valid_digit(#[trigger] digits[i], 10) by {
        if i < ilen {
            assert(digits[i] == integer[i]);
        } else {
            assert(digits[i] == fractional[i - ilen]);
        }
    }
}

/// The number that one or two decimal digits spell.
pub open spec fn radix_value(digits: Seq<char>) -> int {
    if digits.len() == 1 {
        digits[0] as int - '0' as int
    } else {
        (digits[0] as int - '0' as int) * 10 + (digits[1] as int - '0' as int)
    }
}

/// A numeral with its radix written out: the sign, the integer digits, a
/// point where `point` is set, the fractional digits, `_` and the radix.
pub open spec fn radix_numeral(
    sign: Sign,
    integer: Seq<char>,
    point: bool,
    fractional: Seq<char>,
    radix: Seq<char>,
) -> Seq<char> {
    sign_text(sign) + (decimal_body(integer, point, fractional) + seq!['_'] + radix)
}

/// A numeral with a radix behind it is taken apart into the sign, the digit
/// symbols and the radix it was written with. Digits must stand on one side
/// of the point at least; without a point there are no fractional digits;
/// the radix is one or two decimal digits.
pub proof fn lemma_radix_numeral(
    sign: Sign,
    integer: Seq<char>,
    point: bool,
    fractional: Seq<char>,
    radix: Seq<char>,
)
    requires
        all_digits(integer),
        all_digits(fractional),
        all_decimals(radix),
        1 <= radix.len() <= 2,
        integer.len() > 0 || fractional.len() > 0,
        point || fractional.len() == 0,
    ensures
        numeral_spec(radix_numeral(sign, integer, point, fractional, radix)) == Ok::<
            NumeralView,
            ErrorKind,
        >(NumeralView { sign, integer, fractional, radix: radix_value(radix) }),
{
    let digits = decimal_body(integer, point, fractional);
    let body = digits + seq!['_'] + radix;
    let t = radix_numeral(sign, integer, point, fractional, radix);
    let len = body.len() as int;
    let ilen = integer.len() as int;
    let mark = digits.len() as int;
    assert(body[mark] == '_');
    assert(body[mark + 1] == radix[0]);
    if radix.len() == 2 {
        assert(body[mark + 2] == radix[1]);
    }
    assert(radix_suffix(body, mark) == Some((radix_value(radix), len)));
    assert forall|i: int| 0 <= i < ilen implies is_digit(#[trigger] body[i]) by {
        assert(body[i] == integer[i]);
    }
    assert(body.subrange(0, ilen) == integer);
    if point {
        assert(body[ilen] == '.');
        assert forall|i: int| ilen + 1 <= i < mark implies is_digit(#[trigger] body[i]) by {
            assert(body[i] == fractional[i - ilen - 1]);
        }
        lemma_run_end(body, 0, ilen, false);
        lemma_run_end(body, ilen + 1, mark, false);
        assert(body.subrange(ilen + 1, mark) == fractional);
        if ilen == 0 {
            assert(integer == Seq::<char>::empty());
            assert(numeral_body(body) == Some(
                fraction_reading(body, mark, radix_value(radix), len),
            ));
        } else {
            assert(numeral_body(body) == Some(
                decimal_reading(body, ilen, mark, radix_value(radix), len),
            ));
        }
    } else {
        assert(fractional == Seq::<char>::empty());
        assert(mark == ilen);
        lemma_run_end(body, 0, ilen, false);
        assert(numeral_body(body) == Some(integer_reading(body, ilen, radix_value(radix), len)));
    }
    // the sign, if any, is taken off
    if sign == Sign::NoSign {
        assert(t == body);
        assert(body[0] == if ilen > 0 {
            integer[0]
        } else {
            '.'
        });
        assert(sign_of(t[0]) == Sign::NoSign);
    } else {
        assert(t.skip(1) == body);
        assert(sign_of(t[0]) == sign);
    }
}

/// The radix written at `at`, and the place behind it.
fn scan_radix(s: &[char], at: usize) -> (res: Option<(u8, usize)>)
    requires
        at <= s.len(),
    ensures
        res is Some <==> radix_suffix(s@, at as int) is Some,
        res matches Some((radix, end)) ==> radix_suffix(s@, at as int) == Some(
            (radix as int, end as int),
        ) && at < end <= s.len(),
{
    if s.len() - at < 2 || s[at] != '_' || !in_class(s[at + 1], true) {
        return None;
    }
    let first = decimal_of(s[at + 1]);
    if s.len() - at >= 3 && in_class(s[at + 2], true) {
        Some((first * 10 + decimal_of(s[at + 2]), at + 3))
    } else {
        Some((first, at + 2))
    }
}

/// The places that one form of the grammar found in a text.
struct Span {
    integer_end: usize,
    fraction_start: usize,
    fraction_end: usize,
    radix: u8,
    end: usize,
}

impl Span {
    /// Whether the places lie in a text of length `len`, in order.
    spec fn fits(&self, len: int) -> bool {
        &&& self.integer_end <= self.fraction_start <= self.fraction_end <= self.end <= len
    }

    /// What stands at those places in `s`.
    spec fn reading(&self, s: Seq<char>) -> Reading {
        Reading {
            integer: s.subrange(0, self.integer_end as int),
            fractional: s.subrange(self.fraction_start as int, self.fraction_end as int),
            radix: self.radix as int,
            end: self.end as int,
        }
    }
}

/// The first form of the grammar that fits the start of `s`.
fn scan_body(s: &[char]) -> (res: Option<Span>)
    ensures
        res is Some <==> numeral_body(s@) is Some,
        res matches Some(span) ==> span.fits(s@.len() as int) && span.reading(s@) == numeral_body(
            s@,
        )->0,
{
    let len = s.len();
    let point = len > 0 && s[0] == '.';
    let digits = scan_run(s, 0, false);
    if point {
        let behind = scan_run(s, 1, false);
        if behind > 1 {
            if let Some((radix, end)) = scan_radix(s, behind) {
                assert(s@.subrange(0, 0) =~= Seq::<char>::empty());
                return Some(
                    Span { integer_end: 0, fraction_start: 1, fraction_end: behind, radix, end },
                );
            }
        }
    }
    if digits > 0 && digits < len && s[digits] == '.' {
        let behind = scan_run(s, digits + 1, false);
        if let Some((radix, end)) = scan_radix(s, behind) {
            return Some(
                Span {
                    integer_end: digits,
                    fraction_start: digits + 1,
                    fraction_end: behind,
                    radix,
                    end,
                },
            );
        }
    }
    if digits > 0 {
        if let Some((radix, end)) = scan_radix(s, digits) {
            assert(s@.subrange(digits as int, digits as int) =~= Seq::<char>::empty());
            return Some(
                Span {
                    integer_end: digits,
                    fraction_start: digits,
                    fraction_end: digits,
                    radix,
                    end,
                },
            );
        }
    }
    let decimals = scan_run(s, 0, true);
    if point {
        let behind = scan_run(s, 1, true);
        if behind > 1 {
            assert(s@.subrange(0, 0) =~= Seq::<char>::empty());
            return Some(
                Span {
                    integer_end: 0,
                    fraction_start: 1,
                    fraction_end: behind,
                    radix: 10,
                    end: behind,
                },
            );
        }
    }
    if decimals > 0 && decimals < len && s[decimals] == '.' {
        let behind = scan_run(s, decimals + 1, true);
        return Some(
            Span {
                integer_end: decimals,
                fraction_start: decimals + 1,
                fraction_end: behind,
                radix: 10,
                end: behind,
            },
        );
    }
    if decimals > 0 {
        assert(s@.subrange(decimals as int, decimals as int) =~= Seq::<char>::empty());
        return Some(
            Span {
                integer_end: decimals,
                fraction_start: decimals,
                fraction_end: decimals,
                radix: 10,
                end: decimals,
            },
        );
    }
    None
}

/// Takes the numeral spelled by `t` apart.
pub fn numeral_of(t: &[char]) -> (res: Result<Numeral, ErrorKind>)
    ensures
        res is Ok <==> numeral_spec(t@) is Ok,
        res matches Err(e) ==> numeral_spec(t@) == Err::<NumeralView, ErrorKind>(e),
        res matches Ok(n) ==> numeral_spec(t@) == Ok::<NumeralView, ErrorKind>(n@),
{
    if t.len() == 0 {
        return Err(ErrorKind::IncompleteInput);
    }
    let (sign, start): (Sign, usize) = if t[0] == '+' {
        (Sign::Plus, 1)
    } else if t[0] == '-' {
        (Sign::Minus, 1)
    } else {
        (Sign::NoSign, 0)
    };
    let s = slice_subrange(t, start, t.len());
    assert(s@ == if sign == Sign::NoSign {
        t@
    } else {
        t@.skip(1)
    });
    match scan_body(s) {
        None => Err(ErrorKind::NoAlternativeMatched),
        Some(span) => {
            if span.end < s.len() {
                return Err(ErrorKind::TrailingCharacters);
            }
            let integer = string_of(slice_subrange(s, 0, span.integer_end));
            let fractional = string_of(slice_subrange(s, span.fraction_start, span.fraction_end));
            Ok(Numeral { sign, integer, fractional, radix: span.radix })
        },
    }
}

/// Reads the number literal spelled by `t`.
pub fn number_of(t: &[char]) -> (res: Result<Number, ErrorKind>)
    ensures
        res is Ok <==> number_spec(t@) is Ok,
        res matches Err(e) ==> number_spec(t@) == Err::<NumeralView, ErrorKind>(e),
        res matches Ok(n) ==> n.is_value_of(number_spec(t@)->Ok_0),
{
    match numeral_of(t) {
        Err(e) => Err(e),
        Ok(parts) => Number::parse(parts.sign, parts.integer, parts.fractional, parts.radix),
    }
}

/// Takes a numeral apart: its sign, its integer digits, its fractional digits
/// and its radix.
pub fn numeral(input: &str) -> (res: Result<Numeral, ErrorKind>)
    ensures
        res is Ok <==> numeral_spec(input@) is Ok,
        res matches Err(e) ==> numeral_spec(input@) == Err::<NumeralView, ErrorKind>(e),
        res matches Ok(n) ==> numeral_spec(input@) == Ok::<NumeralView, ErrorKind>(n@),
{
    let chars = chars_of(input);
    numeral_of(chars.as_slice())
}

/// Reads a number literal: a numeral and nothing else.
pub fn number(input: &str) -> (res: Result<Number, ErrorKind>)
    ensures
        res is Ok <==> number_spec(input@) is Ok,
        res matches Err(e) ==> number_spec(input@) == Err::<NumeralView, ErrorKind>(e),
        res matches Ok(n) ==> n.is_value_of(number_spec(input@)->Ok_0),
{
    let chars = chars_of(input);
    number_of(chars.as_slice())
}

} // verus!
