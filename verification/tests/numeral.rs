use num::rational::BigRational;
use num::{BigInt, One, Zero};
use stalc::alphabet::{
    char_code, decimals_ne, digit_of, digits, digits_ne, DECIMAL, LOWERCASE, UPPERCASE,
};
use stalc::error::ErrorKind;
use stalc::number::number;
use stalc::numeral::{big_power, checked_big_power, parse_str_radix};

const SYMBOLS: &str = "0123456789ABCDEFGHIJKLMNOPQRSTUVWXYZabcdefghijklmnopqrstuvwxyz";

fn ratio(numer: i64, denom: i64) -> BigRational {
    BigRational::new(BigInt::from(numer), BigInt::from(denom))
}

fn value(integer: &str, fractional: &str, radix: u8) -> Result<BigRational, ErrorKind> {
    parse_str_radix(integer.into(), fractional.into(), radix)
}

#[test]
fn radix_out_of_range() {
    assert_eq!(value("1", "", 0), Err(ErrorKind::InvalidRadix));
    assert_eq!(value("1", "", 63), Err(ErrorKind::InvalidRadix));
    assert_eq!(value("1", "", 255), Err(ErrorKind::InvalidRadix));
    assert_eq!(value("", "", 0), Err(ErrorKind::InvalidRadix));
    assert_eq!(value("1", "", 1), Ok(ratio(1, 1)));
    assert_eq!(value("1", "", 62), Ok(ratio(1, 1)));
}

#[test]
fn empty_numeral_is_zero() {
    for radix in 1..=62u8 {
        assert_eq!(value("", "", radix), Ok(BigRational::zero()));
    }
}

#[test]
fn every_digit_of_every_radix() {
    for radix in 2..=62u8 {
        for (index, symbol) in SYMBOLS.chars().enumerate() {
            let expected = if radix <= 36 && symbol.is_ascii_lowercase() {
                index - 26
            } else {
                index
            };
            let text = format!("{}_{}", symbol, radix);
            if expected < radix as usize {
                assert_eq!(number(&text).unwrap().value, ratio(expected as i64, 1), "{}", text);
                assert_eq!(value(&symbol.to_string(), "", radix), Ok(ratio(expected as i64, 1)));
                assert_eq!(
                    value("", &symbol.to_string(), radix),
                    Ok(ratio(expected as i64, radix as i64))
                );
                assert_eq!(digit_of(symbol, radix), Some(expected as u8));
            } else {
                assert_eq!(number(&text), Err(ErrorKind::InvalidDigitForRadix), "{}", text);
                assert_eq!(
                    value(&symbol.to_string(), "", radix),
                    Err(ErrorKind::InvalidDigitForRadix)
                );
                assert_eq!(
                    value("", &symbol.to_string(), radix),
                    Err(ErrorKind::InvalidDigitForRadix)
                );
                assert_eq!(digit_of(symbol, radix), None);
            }
        }
    }
}

#[test]
fn digit_at_the_radix_fails() {
    assert_eq!(number("1_2").unwrap().value, ratio(1, 1));
    assert_eq!(number("2_2"), Err(ErrorKind::InvalidDigitForRadix));
    assert_eq!(number("Z_36").unwrap().value, ratio(35, 1));
    assert_eq!(number("z_36").unwrap().value, ratio(35, 1));
    assert_eq!(number("z_37"), Err(ErrorKind::InvalidDigitForRadix));
    assert_eq!(number("a_37").unwrap().value, ratio(36, 1));
    assert_eq!(number("z_62").unwrap().value, ratio(61, 1));
}

#[test]
fn positional_values() {
    assert_eq!(value("ff", "", 16), Ok(ratio(255, 1)));
    assert_eq!(value("FF", "", 16), Ok(ratio(255, 1)));
    assert_eq!(value("101", "101", 2), Ok(ratio(45, 8)));
    assert_eq!(value("12", "34", 10), Ok(ratio(1234, 100)));
    assert_eq!(value("", "1", 3), Ok(ratio(1, 3)));
    assert_eq!(value("10", "", 62), Ok(ratio(62, 1)));
    assert_eq!(value("aA", "", 62), Ok(ratio(36 * 62 + 10, 1)));
    assert_eq!(value("aA", "a", 62), Ok(ratio((36 * 62 + 10) * 62 + 36, 62)));
    assert_eq!(value("000", "000", 10), Ok(ratio(0, 1)));
}

#[test]
fn characters_that_are_no_digits() {
    assert_eq!(value("1_2", "", 10), Err(ErrorKind::InvalidDigitForRadix));
    assert_eq!(value("-1", "", 10), Err(ErrorKind::InvalidDigitForRadix));
    assert_eq!(value("+1", "", 10), Err(ErrorKind::InvalidDigitForRadix));
    assert_eq!(value("1", "$", 10), Err(ErrorKind::InvalidDigitForRadix));
    assert_eq!(value("é", "", 40), Err(ErrorKind::InvalidDigitForRadix));
}

#[test]
fn tally_marks_count() {
    assert_eq!(value("111", "", 1), Ok(ratio(3, 1)));
    assert_eq!(value("xyz$", "", 1), Ok(ratio(4, 1)));
    assert_eq!(value("11", "111", 1), Ok(ratio(23, 10)));
    assert_eq!(value("", "1111111111", 1), Ok(ratio(10, 100)));
    assert_eq!(value("1", &"1".repeat(123), 1), Ok(ratio(1123, 1000)));
}

#[test]
fn powers() {
    let three = BigInt::from(3);
    assert_eq!(big_power(&three, 0), BigRational::one());
    assert_eq!(big_power(&three, 1), ratio(3, 1));
    assert_eq!(big_power(&three, 4), ratio(81, 1));
    assert_eq!(big_power(&three, -1), ratio(1, 3));
    assert_eq!(big_power(&three, -4), ratio(1, 81));
    assert_eq!(big_power(&BigInt::from(-2), 3), ratio(-8, 1));
    assert_eq!(big_power(&BigInt::from(-2), -3), ratio(-1, 8));
    assert_eq!(big_power(&BigInt::zero(), 0), BigRational::one());
    assert_eq!(big_power(&BigInt::zero(), 5), BigRational::zero());
}

#[test]
fn first_byte_of_a_character() {
    assert_eq!(char_code('0'), 48);
    assert_eq!(char_code('A'), 65);
    assert_eq!(char_code('a'), 97);
    for code in 0..=0x10ffffu32 {
        if let Some(c) = char::from_u32(code) {
            let mut buffer = [0u8; 4];
            assert_eq!(char_code(c), c.encode_utf8(&mut buffer).as_bytes()[0]);
        }
    }
}

#[test]
fn leading_decimals() {
    assert_eq!(decimals_ne(""), Err(ErrorKind::IncompleteInput));
    assert_eq!(decimals_ne("abc"), Err(ErrorKind::NoAlternativeMatched));
    assert_eq!(decimals_ne("123"), Ok(("", "123")));
    assert_eq!(decimals_ne("123abc"), Ok(("abc", "123")));
    assert_eq!(decimals_ne("1.5"), Ok((".5", "1")));
    assert_eq!(decimals_ne("7é"), Ok(("é", "7")));
}

#[test]
fn leading_digit_symbols() {
    assert_eq!(digits_ne(""), Err(ErrorKind::IncompleteInput));
    assert_eq!(digits_ne("_10"), Err(ErrorKind::NoAlternativeMatched));
    assert_eq!(digits_ne("123abc"), Ok(("", "123abc")));
    assert_eq!(digits_ne("1Az_62"), Ok(("_62", "1Az")));
    assert_eq!(digits_ne("ff.8"), Ok((".8", "ff")));
}

#[test]
fn zero_has_no_negative_power() {
    assert_eq!(checked_big_power(&BigInt::zero(), -1), None);
    assert_eq!(checked_big_power(&BigInt::zero(), isize::MIN), None);
    assert_eq!(checked_big_power(&BigInt::zero(), 0), Some(BigRational::one()));
    assert_eq!(checked_big_power(&BigInt::zero(), 3), Some(BigRational::zero()));
    assert_eq!(checked_big_power(&BigInt::from(5), -2), Some(ratio(1, 25)));
    assert_eq!(checked_big_power(&BigInt::from(5), 2), Some(ratio(25, 1)));
}

#[test]
fn the_alphabet() {
    assert_eq!(DECIMAL, "0123456789");
    assert_eq!(UPPERCASE, "ABCDEFGHIJKLMNOPQRSTUVWXYZ");
    assert_eq!(LOWERCASE, "abcdefghijklmnopqrstuvwxyz");
    assert_eq!(digits(), SYMBOLS);
    assert_eq!(digits().chars().count(), 62);
    for (index, symbol) in digits().chars().enumerate() {
        assert_eq!(digit_of(symbol, 62), Some(index as u8));
    }
}

#[test]
fn leading_zeros_change_no_value() {
    for radix in 2..=62u8 {
        assert_eq!(value("000Z1", "10", radix), value("Z1", "10", radix));
        assert_eq!(value("0001", "01", radix), value("1", "01", radix));
        assert_eq!(value("000", "1", radix), value("", "1", radix));
    }
    assert_ne!(value("0001", "", 1), value("1", "", 1));
}
