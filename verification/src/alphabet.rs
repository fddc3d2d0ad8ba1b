//! The digit symbols of a numeral and the values they stand for.

use crate::error::ErrorKind;
use crate::text::chars_of;
use vstd::prelude::*;
use vstd::string::{StrSliceExecFns, StringExecFns};
use vstd::utf8::encode_scalar;

verus! {

/// The ten decimal digits, in the order of their values.
pub const DECIMAL: &'static str = "0123456789";

/// The upper-case letters, which stand for the values from 10 on.
pub const UPPERCASE: &'static str = "ABCDEFGHIJKLMNOPQRSTUVWXYZ";

/// The lower-case letters, which in a base above 36 stand for the values
/// from 36 on.
pub const LOWERCASE: &'static str = "abcdefghijklmnopqrstuvwxyz";

/// All sixty-two digit symbols in the order of their values in a base above
/// 36: the decimal digits, the upper-case letters, the lower-case letters.
pub open spec fn digit_symbols() -> Seq<char> {
    DECIMAL@ + UPPERCASE@ + LOWERCASE@
}

/// All sixty-two digit symbols, in the order of [`digit_symbols`].
pub fn digits() -> (s: String)
    ensures
        s@ == digit_symbols(),
{
    let mut s = String::from_str(DECIMAL);
    s.append(UPPERCASE);
    s.append(LOWERCASE);
    s
}

/// Whether `c` is one of the ten decimal digits.
pub open spec fn is_decimal(c: char) -> bool {
    '0' <= c && c <= '9'
}

/// Whether `c` is one of the twenty-six upper-case letters.
pub open spec fn is_uppercase(c: char) -> bool {
    'A' <= c && c <= 'Z'
}

/// Whether `c` is one of the twenty-six lower-case letters.
pub open spec fn is_lowercase(c: char) -> bool {
    'a' <= c && c <= 'z'
}

/// Whether `c` is one of the sixty-two digit symbols.
pub open spec fn is_digit(c: char) -> bool {
    is_decimal(c) || is_uppercase(c) || is_lowercase(c)
}

/// The value that the digit symbol `c` stands for in a numeral of base
/// `radix`. Up to base 36 a lower-case letter counts as its upper-case
/// twin; above, the lower-case letters follow the upper-case ones.
pub open spec fn digit_value(c: char, radix: int) -> int
    recommends
        is_digit(c),
{
    if is_decimal(c) {
        c as int - '0' as int
    } else if is_uppercase(c) {
        c as int - 'A' as int + 10
    } else if radix <= 36 {
        c as int - 'a' as int + 10
    } else {
        c as int - 'a' as int + 36
    }
}

/// Whether `c` is a digit of base `radix`.
pub open spec fn valid_digit(c: char, radix: int) -> bool {
    is_digit(c) && digit_value(c, radix) < radix
}

/// The digit symbols are sixty-two, and the one at the place `i` is the digit
/// that stands for `i` in every base above `i`: each base has a digit for
/// each value below it.
pub proof fn lemma_digit_symbols(i: int, radix: int)
    requires
        0 <= i < radix <= 62,
    ensures
        digit_symbols().len() == 62,
        valid_digit(digit_symbols()[i], radix),
        digit_value(digit_symbols()[i], radix) == i,
{
    reveal_strlit("0123456789");
    reveal_strlit("ABCDEFGHIJKLMNOPQRSTUVWXYZ");
    reveal_strlit("abcdefghijklmnopqrstuvwxyz");
}

/// Whether every character of `s` is a digit symbol.
pub open spec fn all_digits(s: Seq<char>) -> bool {
    forall|i: int| 0 <= i < s.len() ==> is_digit(#[trigger] s[i])
}

/// Whether every character of `s` is a digit of base `radix`.
pub open spec fn valid_digits(s: Seq<char>, radix: int) -> bool {
    forall|i: int| 0 <= i < s.len() ==> valid_digit(#[trigger] s[i], radix)
}

/// The number that the digits of `s` spell in base `radix`, the first digit
/// weighing most.
pub open spec fn positional_value(s: Seq<char>, radix: int) -> int
    decreases s.len(),
{
    if s.len() == 0 {
        0
    } else {
        positional_value(s.drop_last(), radix) * radix + digit_value(s.last(), radix)
    }
}

/// Where the longest run of digits that begins at `from` ends: of decimal
/// digits where `decimal` is set, of digit symbols where it is not.
pub open spec fn run_end(s: Seq<char>, from: int, decimal: bool) -> int
    decreases s.len() - from,
{
    if 0 <= from < s.len() && (if decimal {
        is_decimal(s[from])
    } else {
        is_digit(s[from])
    }) {
        run_end(s, from + 1, decimal)
    } else {
        from
    }
}

/// A run of digits that begins at `from` ends at `to` where every character
/// between is a digit and the one at `to`, if there is one, is not.
pub proof fn lemma_run_end(s: Seq<char>, from: int, to: int, decimal: bool)
    requires
        0 <= from <= to <= s.len(),
        forall|i: int|
            from <= i < to ==> is_decimal(#[trigger] s[i]) || (!decimal && is_digit(s[i])),
        to < s.len() ==> !is_decimal(s[to]) && (decimal || !is_digit(s[to])),
    ensures
        run_end(s, from, decimal) == to,
    decreases to - from,
{
    if from < to {
        assert(is_decimal(s[from]) || (!decimal && is_digit(s[from])));
        lemma_run_end(s, from + 1, to, decimal);
    }
}

/// A run of digits lies within the text and holds digits only.
pub proof fn lemma_run_holds_digits(s: Seq<char>, from: int, decimal: bool)
    requires
        0 <= from <= s.len(),
    ensures
        from <= run_end(s, from, decimal) <= s.len(),
        forall|i: int| from <= i < run_end(s, from, decimal) ==> is_digit(#[trigger] s[i]),
    decreases s.len() - from,
{
    if from < s.len() && (if decimal {
        is_decimal(s[from])
    } else {
        is_digit(s[from])
    }) {
        lemma_run_holds_digits(s, from + 1, decimal);
    }
}

/// What a run of digits at the start of `d` is read as: the rest of the text
/// and the run, in this order. An empty text is incomplete, and a text that
/// begins with no digit has no run.
pub open spec fn leading_run(d: Seq<char>, decimal: bool) -> Result<
    (Seq<char>, Seq<char>),
    ErrorKind,
> {
    if d.len() == 0 {
        Err(ErrorKind::IncompleteInput)
    } else if run_end(d, 0, decimal) == 0 {
        Err(ErrorKind::NoAlternativeMatched)
    } else {
        Ok((d.skip(run_end(d, 0, decimal)), d.take(run_end(d, 0, decimal))))
    }
}

/// The first byte of the UTF-8 encoding of `c`; for an ASCII character, its
/// code.
pub fn char_code(c: char) -> (b: u8)
    ensures
        b == encode_scalar(c as u32)[0],
        c as u32 <= 0x7f ==> b == c as u32,
{
    let n: u32 = c as u32;
    if n < 0x80 {
        assert(n & 0x7f == n) by (bit_vector)
            requires
                n < 0x80,
        ;
        n as u8
    } else if n < 0x800 {
        let hi: u32 = n >> 6;
        assert(hi & 0x1f == hi && hi < 0x20) by (bit_vector)
            requires
                hi == n >> 6,
                n < 0x800,
        ;
        0xc0u8 | (hi as u8)
    } else if n < 0x10000 {
        let hi: u32 = n >> 12;
        assert(hi & 0x0f == hi && hi < 0x10) by (bit_vector)
            requires
                hi == n >> 12,
                n < 0x10000,
        ;
        0xe0u8 | (hi as u8)
    } else {
        let hi: u32 = n >> 18;
        assert(hi & 0x07 == hi && hi < 0x08) by (bit_vector)
            requires
                hi == n >> 18,
                n <= 0x10ffff,
        ;
        0xf0u8 | (hi as u8)
    }
}

/// The value of `c` as a digit of base `radix`, if it is one.
pub fn digit_of(c: char, radix: u8) -> (v: Option<u8>)
    ensures
        v is Some <==> valid_digit(c, radix as int),
        v matches Some(d) ==> d == digit_value(c, radix as int),
{
    let d: u8 = if '0' <= c && c <= '9' {
        char_code(c) - char_code('0')
    } else if 'A' <= c && c <= 'Z' {
        char_code(c) - char_code('A') + 10
    } else if 'a' <= c && c <= 'z' {
        if radix <= 36 {
            char_code(c) - char_code('a') + 10
        } else {
            char_code(c) - char_code('a') + 36
        }
    } else {
        return None;
    };
    if d >= radix {
        None
    } else {
        Some(d)
    }
}

/// Where the run of digits that begins at `from` ends.
pub(crate) fn scan_run(s: &[char], from: usize, decimal: bool) -> (end: usize)
    requires
        from <= s.len(),
    ensures
        end == run_end(s@, from as int, decimal),
        from <= end <= s.len(),
{
    let mut end = from;
    while end < s.len() && in_class(s[end], decimal)
        invariant
            from <= end <= s.len(),
            run_end(s@, from as int, decimal) == run_end(s@, end as int, decimal),
        decreases s.len() - end,
    {
        end += 1;
    }
    end
}

/// Whether `c` is a decimal digit, or, where `decimal` is not set, a digit
/// symbol.
pub(crate) fn in_class(c: char, decimal: bool) -> (b: bool)
    ensures
        b == (if decimal {
            is_decimal(c)
        } else {
            is_digit(c)
        }),
{
    ('0' <= c && c <= '9') || (!decimal && (('A' <= c && c <= 'Z') || ('a' <= c && c <= 'z')))
}

/// The value of the decimal digit `c`.
pub(crate) fn decimal_of(c: char) -> (d: u8)
    requires
        is_decimal(c),
    ensures
        d == c as int - '0' as int,
        d <= 9,
{
    char_code(c) - char_code('0')
}

/// The run of digits at the start of `d`, and what follows it.
fn leading_run_of<'a>(d: &'a str, decimal: bool) -> (res: Result<(&'a str, &'a str), ErrorKind>)
    ensures
        res is Ok <==> leading_run(d@, decimal) is Ok,
        res matches Err(e) ==> leading_run(d@, decimal) == Err::<
            (Seq<char>, Seq<char>),
            ErrorKind,
        >(e),
        res matches Ok((rest, run)) ==> leading_run(d@, decimal) == Ok::<
            (Seq<char>, Seq<char>),
            ErrorKind,
        >((rest@, run@)),
{
    let chars = chars_of(d);
    let len = chars.len();
    if len == 0 {
        return Err(ErrorKind::IncompleteInput);
    }
    let end = scan_run(chars.as_slice(), 0, decimal);
    if end == 0 {
        return Err(ErrorKind::NoAlternativeMatched);
    }
    Ok((d.substring_char(end, len), d.substring_char(0, end)))
}

/// Splits `d` behind its leading decimal digits, of which there must be one
/// at least: the result is what follows them, and the digits.
pub fn decimals_ne<'a>(d: &'a str) -> (res: Result<(&'a str, &'a str), ErrorKind>)
    ensures
        res is Ok <==> leading_run(d@, true) is Ok,
        res matches Err(e) ==> leading_run(d@, true) == Err::<(Seq<char>, Seq<char>), ErrorKind>(
            e,
        ),
        res matches Ok((rest, run)) ==> leading_run(d@, true) == Ok::<
            (Seq<char>, Seq<char>),
            ErrorKind,
        >((rest@, run@)),
{
    leading_run_of(d, true)
}

/// Splits `d` behind its leading digit symbols, of which there must be one at
/// least: the result is what follows them, and the symbols.
pub fn digits_ne<'a>(d: &'a str) -> (res: Result<(&'a str, &'a str), ErrorKind>)
    ensures
        res is Ok <==> leading_run(d@, false) is Ok,
        res matches Err(e) ==> leading_run(d@, false) == Err::<(Seq<char>, Seq<char>), ErrorKind>(
            e,
        ),
        res matches Ok((rest, run)) ==> leading_run(d@, false) == Ok::<
            (Seq<char>, Seq<char>),
            ErrorKind,
        >((rest@, run@)),
{
    leading_run_of(d, false)
}

} // verus!
