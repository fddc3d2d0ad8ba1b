use stalc::datetime::{datetime, Datetime};
use stalc::error::ErrorKind;
use stalc::quoted::string_literal;
use stalc::whitespace::{is_whitespace, not_whitespace};

#[test]
fn date_is_rebuilt_from_its_groups() {
    assert_eq!(
        datetime("1999-12-31"),
        Ok(Datetime { date: "1999-12-31".into(), time: "".into(), zone: "".into() })
    );
}

#[test]
fn date_needs_its_exact_shape() {
    assert_eq!(datetime(""), Err(ErrorKind::IncompleteInput));
    assert_eq!(datetime("1999-12-3"), Err(ErrorKind::NoAlternativeMatched));
    assert_eq!(datetime("199-12-31"), Err(ErrorKind::NoAlternativeMatched));
    assert_eq!(datetime("1999/12/31"), Err(ErrorKind::NoAlternativeMatched));
    assert_eq!(datetime("1999-12-31T"), Err(ErrorKind::TrailingCharacters));
    assert_eq!(datetime("1999-12-311"), Err(ErrorKind::TrailingCharacters));
}

#[test]
fn date_digits_are_decimal_only() {
    assert_eq!(datetime("199A-12-31"), Err(ErrorKind::NoAlternativeMatched));
    assert_eq!(datetime("1999-1b-31"), Err(ErrorKind::NoAlternativeMatched));
    assert_eq!(datetime("١٩٩٩-12-31"), Err(ErrorKind::NoAlternativeMatched));
}

#[test]
fn string_contents_lie_between_first_and_last_quote() {
    assert_eq!(string_literal("\"abc\""), Ok("abc".to_string()));
    assert_eq!(string_literal("\"\""), Ok("".to_string()));
    assert_eq!(string_literal("\"a\"b\""), Ok("a\"b".to_string()));
    assert_eq!(string_literal("\"a b\""), Ok("a b".to_string()));
    assert_eq!(string_literal("\"a\\n\""), Ok("a\\n".to_string()));
}

#[test]
fn string_errors() {
    assert_eq!(string_literal(""), Err(ErrorKind::IncompleteInput));
    assert_eq!(string_literal("abc\""), Err(ErrorKind::NoAlternativeMatched));
    assert_eq!(string_literal("\""), Err(ErrorKind::UnterminatedString));
    assert_eq!(string_literal("\"abc"), Err(ErrorKind::UnterminatedString));
    assert_eq!(string_literal("\"abc\"d"), Err(ErrorKind::TrailingCharacters));
}

#[test]
fn the_twenty_five_whitespace_code_points() {
    let all = [
        '\u{09}', '\u{0a}', '\u{0b}', '\u{0c}', '\u{0d}', '\u{20}', '\u{85}', '\u{a0}',
        '\u{1680}', '\u{2000}', '\u{2001}', '\u{2002}', '\u{2003}', '\u{2004}', '\u{2005}',
        '\u{2006}', '\u{2007}', '\u{2008}', '\u{2009}', '\u{200a}', '\u{2028}', '\u{2029}',
        '\u{202f}', '\u{205f}', '\u{3000}',
    ];
    for c in all {
        assert!(is_whitespace(c));
        assert!(!not_whitespace(c));
    }
    let mut count = 0;
    for code in 0..=0x10ffffu32 {
        if let Some(c) = char::from_u32(code) {
            assert_eq!(is_whitespace(c), !not_whitespace(c));
            if is_whitespace(c) {
                count += 1;
            }
        }
    }
    assert_eq!(count, 25);
}

#[test]
fn other_characters_are_no_whitespace() {
    for c in ['a', '0', '(', ')', '\u{08}', '\u{0e}', '\u{200b}', '\u{feff}', '\u{180e}'] {
        assert!(!is_whitespace(c));
        assert!(not_whitespace(c));
    }
}

#[test]
fn characters_of_a_string_and_back() {
    assert_eq!(stalc::text::chars_of(""), Vec::<char>::new());
    assert_eq!(stalc::text::chars_of("aé\u{3000})"), vec!['a', 'é', '\u{3000}', ')']);
    assert_eq!(stalc::text::string_of(&[]), "");
    assert_eq!(stalc::text::string_of(&['a', 'é', '\u{3000}', ')']), "aé\u{3000})");
}
