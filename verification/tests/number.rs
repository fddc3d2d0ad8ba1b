use num::rational::BigRational;
use num::BigInt;
use stalc::error::ErrorKind;
use stalc::number::{number, numeral, Number, Numeral, Sign};

fn ratio(numer: i64, denom: i64) -> BigRational {
    BigRational::new(BigInt::from(numer), BigInt::from(denom))
}

fn parts(sign: Sign, whole: &str, decimal: &str) -> Result<Numeral, ErrorKind> {
    Ok(Numeral { sign, integer: whole.into(), fractional: decimal.into(), radix: 10 })
}

fn big(digits: &str) -> BigInt {
    digits.parse().unwrap()
}

#[test]
fn natural() {
    assert_eq!(parts(Sign::NoSign, "12407", ""), numeral("12407"));
    assert_eq!(number("12407").unwrap().value, ratio(12407, 1));
}

#[test]
fn decimal() {
    assert_eq!(parts(Sign::NoSign, "124", "07"), numeral("124.07"));
    assert_eq!(number("124.07").unwrap().value, ratio(12407, 100));
}

#[test]
fn negative_decimal() {
    assert_eq!(parts(Sign::Minus, "124", "07"), numeral("-124.07"));
    assert_eq!(number("-124.07").unwrap().value, ratio(-12407, 100));
}

#[test]
fn positive_decimal() {
    assert_eq!(parts(Sign::Plus, "124", "07"), numeral("+124.07"));
    assert_eq!(number("+124.07").unwrap().value, ratio(12407, 100));
}

#[test]
fn bare_decimal() {
    assert_eq!(parts(Sign::NoSign, "", "3926"), numeral(".3926"));
    assert_eq!(number(".3926").unwrap().value, ratio(3926, 10000));
}

#[test]
fn negative_bare_decimal() {
    assert_eq!(parts(Sign::Minus, "", "3926"), numeral("-.3926"));
    assert_eq!(number("-.3926").unwrap().value, ratio(-3926, 10000));
}

#[test]
fn positive_bare_decimal() {
    assert_eq!(parts(Sign::Plus, "", "3926"), numeral("+.3926"));
    assert_eq!(number("+.3926").unwrap().value, ratio(3926, 10000));
}

#[test]
fn integer_with_leading_zeroes() {
    assert_eq!(parts(Sign::NoSign, "003926", ""), numeral("003926"));
    assert_eq!(number("003926").unwrap().value, number("3926").unwrap().value);
    assert_eq!(number("003926").unwrap().value, ratio(3926, 1));
}

#[test]
fn decimal_with_leading_zeroes() {
    assert_eq!(parts(Sign::NoSign, "0", "003926"), numeral("0.003926"));
    assert_eq!(number("0.003926").unwrap().value, ratio(3926, 1_000_000));
    assert_eq!(parts(Sign::NoSign, "", "003926"), numeral(".003926"));
    assert_eq!(number(".003926").unwrap().value, ratio(3926, 1_000_000));
}

#[test]
fn trailing_dot() {
    assert_eq!(parts(Sign::NoSign, "3926", ""), numeral("3926."));
    assert_eq!(numeral("3926"), numeral("3926."));
    assert_eq!(number("3926"), number("3926."));
}

#[test]
fn large_number() {
    let whole = format!(
        "{}{}",
        "23324286893287459324789438763947483562785456789287",
        "32409236889784596839084269459887432568783425"
    );
    let decimal = format!(
        "{}{}",
        "76248942367568739783427432756893245763285687468398",
        "8987563257648239867843257684938587365425"
    );
    let text = format!("{}.{}", whole, decimal);
    assert_eq!(parts(Sign::NoSign, &whole, &decimal), numeral(&text));
    let n = number(&text).unwrap();
    let all_digits = big(&format!("{}{}", whole, decimal));
    let scale = num::pow(BigInt::from(10), decimal.len());
    assert_eq!(n.value.numer() * &scale, all_digits * n.value.denom());
    assert_eq!(n.value, BigRational::new(big(&format!("{}{}", whole, decimal)), scale));
}

#[test]
fn hundreds_of_digits_on_each_side() {
    let whole = "9182736450".repeat(40);
    let decimal = "0123456789".repeat(35);
    let n = number(&format!("{}.{}", whole, decimal)).unwrap();
    let scale = num::pow(BigInt::from(10), decimal.len());
    let all_digits = big(&format!("{}{}", whole, decimal));
    assert_eq!(n.value.numer() * &scale, &all_digits * n.value.denom());
    // the digits come back from the fraction
    let back = (n.value.numer() * &scale) / n.value.denom();
    assert_eq!(format!("{}", back), format!("{}{}", whole, decimal));
}

#[test]
fn invalid_sign_dot() {
    assert_eq!(Err(ErrorKind::NoAlternativeMatched), number("-."));
}

#[test]
fn invalid_trailing_sign() {
    assert_eq!(Err(ErrorKind::TrailingCharacters), number("927-"));
}

#[test]
fn invalid_trailing_sign_dot() {
    assert_eq!(Err(ErrorKind::TrailingCharacters), number("2816+."));
}

#[test]
fn invalid_sign_on_decimal() {
    assert_eq!(Err(ErrorKind::TrailingCharacters), number("19263.-920"));
}

#[test]
fn invalid_double_sign() {
    assert_eq!(Err(ErrorKind::NoAlternativeMatched), number("++09826"));
}

#[test]
fn invalid_garbage() {
    assert_eq!(Err(ErrorKind::NoAlternativeMatched), number("$$%@"));
}

#[test]
fn number_empty() {
    assert_eq!(Err(ErrorKind::IncompleteInput), number(""));
}

#[test]
fn sign_alone_is_no_number() {
    assert_eq!(Err(ErrorKind::NoAlternativeMatched), number("-"));
    assert_eq!(Err(ErrorKind::NoAlternativeMatched), number("+"));
    assert_eq!(Err(ErrorKind::NoAlternativeMatched), number("."));
}

#[test]
fn number_keeps_sign_radix_and_display() {
    let n = number("-124.07").unwrap();
    assert_eq!(n.sign, Sign::Minus);
    assert_eq!(n.radix, 10);
    assert_eq!(n.display, "-12407/100");
    let n = number("+12").unwrap();
    assert_eq!(n.sign, Sign::Plus);
    assert_eq!(n.value, ratio(12, 1));
    assert_eq!(n.display, "12");
    let n = number("0.5").unwrap();
    assert_eq!(n.display, "1/2");
    let n = number("0").unwrap();
    assert_eq!(n.display, "0");
    let n = number("-0").unwrap();
    assert_eq!(n.sign, Sign::Minus);
    assert_eq!(n.value, ratio(0, 1));
    assert_eq!(n.display, "0");
}

#[test]
fn number_parse_negates_on_minus() {
    let n = Number::parse(Sign::Minus, "3".into(), "5".into(), 10).unwrap();
    assert_eq!(n.value, ratio(-7, 2));
    let n = Number::parse(Sign::Plus, "3".into(), "5".into(), 10).unwrap();
    assert_eq!(n.value, ratio(7, 2));
    let n = Number::parse(Sign::NoSign, "3".into(), "5".into(), 10).unwrap();
    assert_eq!(n.value, ratio(7, 2));
}

#[test]
fn number_parse_reports_the_error() {
    assert_eq!(
        Number::parse(Sign::NoSign, "12".into(), "".into(), 0),
        Err(ErrorKind::InvalidRadix)
    );
    assert_eq!(
        Number::parse(Sign::NoSign, "12".into(), "".into(), 63),
        Err(ErrorKind::InvalidRadix)
    );
    assert_eq!(
        Number::parse(Sign::NoSign, "12".into(), "".into(), 2),
        Err(ErrorKind::InvalidDigitForRadix)
    );
}

#[test]
fn explicit_radix_forms() {
    let n = numeral(".8_16").unwrap();
    assert_eq!((n.integer.as_str(), n.fractional.as_str(), n.radix), ("", "8", 16));
    assert_eq!(number(".8_16").unwrap().value, ratio(1, 2));
    let n = numeral("ff.8_16").unwrap();
    assert_eq!((n.integer.as_str(), n.fractional.as_str(), n.radix), ("ff", "8", 16));
    assert_eq!(number("ff.8_16").unwrap().value, ratio(511, 2));
    let n = numeral("12._8").unwrap();
    assert_eq!((n.integer.as_str(), n.fractional.as_str(), n.radix), ("12", "", 8));
    assert_eq!(number("12._8").unwrap().value, ratio(10, 1));
    let n = numeral("-Zz_62").unwrap();
    assert_eq!((n.sign, n.integer.as_str(), n.radix), (Sign::Minus, "Zz", 62));
    assert_eq!(number("-Zz_62").unwrap().value, ratio(-(35 * 62 + 61), 1));
    assert_eq!(number("101_2").unwrap().value, ratio(5, 1));
    assert_eq!(number("101_2").unwrap().radix, 2);
}

#[test]
fn radix_suffix_takes_two_digits_at_most() {
    assert_eq!(Err(ErrorKind::TrailingCharacters), number("12_123"));
    assert_eq!(Err(ErrorKind::InvalidRadix), number("12_00"));
    assert_eq!(Err(ErrorKind::InvalidRadix), number("12_63"));
    assert_eq!(Err(ErrorKind::InvalidRadix), number("12_99"));
    assert_eq!(number("12_07").unwrap().value, ratio(9, 1));
}

#[test]
fn letters_need_a_radix() {
    assert_eq!(Err(ErrorKind::NoAlternativeMatched), number("abc"));
    assert_eq!(Err(ErrorKind::TrailingCharacters), number("12abc"));
    assert_eq!(Err(ErrorKind::TrailingCharacters), number("1,5"));
}

#[test]
fn tally_numerals() {
    assert_eq!(number("111_1").unwrap().value, ratio(3, 1));
    assert_eq!(number("abc_1").unwrap().value, ratio(3, 1));
    assert_eq!(number("11.111_1").unwrap().value, ratio(23, 10));
    assert_eq!(number(".111111111111_1").unwrap().value, ratio(12, 100));
}
