use stalc::boolean::boolean;
use stalc::error::ErrorKind;

#[test]
fn true_() {
    assert_eq!(Ok(true), boolean("true"));
}

#[test]
fn false_() {
    assert_eq!(Ok(false), boolean("false"));
}

#[test]
fn invalid() {
    assert_eq!(Err(ErrorKind::NoAlternativeMatched), boolean("invalid"));
}

#[test]
fn boolean_empty() {
    assert_eq!(Err(ErrorKind::IncompleteInput), boolean(""));
}

#[test]
fn boolean_is_case_sensitive() {
    assert_eq!(Err(ErrorKind::NoAlternativeMatched), boolean("True"));
    assert_eq!(Err(ErrorKind::NoAlternativeMatched), boolean("FALSE"));
}

#[test]
fn boolean_takes_no_prefix() {
    assert_eq!(Err(ErrorKind::NoAlternativeMatched), boolean("tru"));
    assert_eq!(Err(ErrorKind::NoAlternativeMatched), boolean("f"));
}

#[test]
fn boolean_with_trailing_characters() {
    assert_eq!(Err(ErrorKind::TrailingCharacters), boolean("truex"));
    assert_eq!(Err(ErrorKind::TrailingCharacters), boolean("falsehood"));
}
