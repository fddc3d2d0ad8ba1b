use num::rational::BigRational;
use num::BigInt;
use stalc::datetime::Datetime;
use stalc::error::ErrorKind;
use stalc::number::{Number, Sign};
use stalc::stream::{stalc, SyntaxError};
use stalc::token::{both, flatten, notargtok, token, Token};

fn command(name: &str) -> Token {
    Token::Command(name.into())
}

fn natural(n: i64) -> Token {
    Token::Number(Number {
        sign: Sign::NoSign,
        value: BigRational::from_integer(BigInt::from(n)),
        radix: 10,
        display: format!("{}", n),
    })
}

fn failure(
    kind: ErrorKind,
    term: &str,
    position: usize,
    tokens: Vec<Token>,
) -> Result<Vec<Token>, SyntaxError> {
    Err(SyntaxError { kind, term: term.into(), position, tokens })
}

#[test]
fn nested_commands_across_terms() {
    assert_eq!(
        stalc("outer(inner(1 2) 3)"),
        Ok(vec![
            command("outer"),
            Token::ArgumentListStart,
            command("inner"),
            Token::ArgumentListStart,
            natural(1),
            natural(2),
            Token::ArgumentListStop,
            natural(3),
            Token::ArgumentListStop,
        ])
    );
}

#[test]
fn empty_argument_list_and_bare_command_differ() {
    assert_eq!(
        stalc("f()"),
        Ok(vec![command("f"), Token::ArgumentListStart, Token::ArgumentListStop])
    );
    assert_eq!(stalc("f"), Ok(vec![command("f")]));
    assert_ne!(stalc("f"), stalc("f()"));
    assert_eq!(
        token("f()"),
        Ok(vec![command("f"), Token::ArgumentListStart, Token::ArgumentListStop])
    );
    assert_eq!(token("f"), Ok(vec![command("f")]));
}

#[test]
fn stray_closing_parenthesis_fails() {
    assert_eq!(stalc(")"), failure(ErrorKind::UnmatchedParen, ")", 0, vec![]));
    assert_eq!(
        stalc("f() )"),
        failure(
            ErrorKind::UnmatchedParen,
            ")",
            4,
            vec![command("f"), Token::ArgumentListStart, Token::ArgumentListStop]
        )
    );
    assert_eq!(stalc("1)"), failure(ErrorKind::UnmatchedParen, "1)", 0, vec![]));
    assert_eq!(stalc("f(1))"), failure(ErrorKind::UnmatchedParen, "f(1))", 0, vec![]));
}

#[test]
fn unterminated_list_fails() {
    assert_eq!(
        stalc("f("),
        failure(ErrorKind::UnmatchedParen, "", 2, vec![command("f"), Token::ArgumentListStart])
    );
    assert_eq!(
        stalc("f(1 2"),
        failure(
            ErrorKind::UnmatchedParen,
            "",
            5,
            vec![command("f"), Token::ArgumentListStart, natural(1), natural(2)]
        )
    );
    assert_eq!(
        stalc("f(g(1)"),
        failure(
            ErrorKind::UnmatchedParen,
            "",
            6,
            vec![
                command("f"),
                Token::ArgumentListStart,
                command("g"),
                Token::ArgumentListStart,
                natural(1),
                Token::ArgumentListStop
            ]
        )
    );
}

#[test]
fn closing_marker_alone() {
    assert_eq!(token(")"), Ok(vec![Token::ArgumentListStop]));
    assert_eq!(
        stalc("f( 1 )"),
        Ok(vec![command("f"), Token::ArgumentListStart, natural(1), Token::ArgumentListStop])
    );
}

#[test]
fn literals_come_before_commands() {
    assert_eq!(token("true"), Ok(vec![Token::Boolean(true)]));
    assert_eq!(token("false"), Ok(vec![Token::Boolean(false)]));
    assert_eq!(token("\"true\""), Ok(vec![Token::String("true".into())]));
    assert_eq!(
        token("2017-03-09"),
        Ok(vec![Token::Datetime(Datetime {
            date: "2017-03-09".into(),
            time: "".into(),
            zone: "".into()
        })])
    );
    assert_eq!(token("12"), Ok(vec![natural(12)]));
    assert_eq!(token("truth"), Ok(vec![command("truth")]));
    assert_eq!(token("True"), Ok(vec![command("True")]));
    assert_eq!(token("2017-03-9"), Ok(vec![command("2017-03-9")]));
}

#[test]
fn a_numeral_without_value_is_a_command() {
    assert_eq!(token("2_2"), Ok(vec![command("2_2")]));
    assert_eq!(token("12abc"), Ok(vec![command("12abc")]));
    assert_eq!(token("-."), Ok(vec![command("-.")]));
}

#[test]
fn string_tokens() {
    assert_eq!(token("\"\""), Ok(vec![Token::String("".into())]));
    assert_eq!(token("\"a(b)\""), Ok(vec![Token::String("a(b)".into())]));
    assert_eq!(token("\"a\"b\""), Ok(vec![Token::String("a\"b".into())]));
    assert_eq!(token("\"abc"), Ok(vec![command("\"abc")]));
    assert_eq!(
        stalc("say(\"hi\")"),
        Ok(vec![
            command("say"),
            Token::ArgumentListStart,
            Token::String("hi".into()),
            Token::ArgumentListStop
        ])
    );
}

#[test]
fn a_parenthesis_behind_a_name_opens_a_list_even_in_quotes() {
    assert_eq!(
        token("x(\"(\")"),
        Ok(vec![
            command("x"),
            Token::ArgumentListStart,
            command("\""),
            Token::ArgumentListStart,
            command("\""),
            Token::ArgumentListStop
        ])
    );
}

#[test]
fn command_with_open_list() {
    assert_eq!(token("f("), Ok(vec![command("f"), Token::ArgumentListStart]));
    assert_eq!(
        token("f(1"),
        Ok(vec![command("f"), Token::ArgumentListStart, natural(1)])
    );
    assert_eq!(
        token("f(g("),
        Ok(vec![
            command("f"),
            Token::ArgumentListStart,
            command("g"),
            Token::ArgumentListStart
        ])
    );
}

#[test]
fn command_with_whole_list_in_one_term() {
    assert_eq!(
        token("f(1)"),
        Ok(vec![command("f"), Token::ArgumentListStart, natural(1), Token::ArgumentListStop])
    );
    assert_eq!(
        stalc("f(g(1))"),
        Ok(vec![
            command("f"),
            Token::ArgumentListStart,
            command("g"),
            Token::ArgumentListStart,
            natural(1),
            Token::ArgumentListStop,
            Token::ArgumentListStop
        ])
    );
    assert_eq!(
        stalc("f(g(h()))"),
        Ok(vec![
            command("f"),
            Token::ArgumentListStart,
            command("g"),
            Token::ArgumentListStart,
            command("h"),
            Token::ArgumentListStart,
            Token::ArgumentListStop,
            Token::ArgumentListStop,
            Token::ArgumentListStop
        ])
    );
}

#[test]
fn last_argument_closes_the_list() {
    assert_eq!(token("2)"), Ok(vec![natural(2), Token::ArgumentListStop]));
    assert_eq!(token("x)"), Ok(vec![command("x"), Token::ArgumentListStop]));
    assert_eq!(
        token("true)"),
        Ok(vec![Token::Boolean(true), Token::ArgumentListStop])
    );
}

#[test]
fn terms_that_fit_no_form() {
    assert_eq!(token(""), Err(ErrorKind::IncompleteInput));
    assert_eq!(token("("), Err(ErrorKind::NoAlternativeMatched));
    assert_eq!(token("(x"), Err(ErrorKind::NoAlternativeMatched));
    assert_eq!(token("))"), Err(ErrorKind::TrailingCharacters));
    assert_eq!(token("f)x"), Err(ErrorKind::TrailingCharacters));
    assert_eq!(token("f(("), Err(ErrorKind::TrailingCharacters));
    assert_eq!(token("a b"), Err(ErrorKind::TrailingCharacters));
    assert_eq!(token(" a"), Err(ErrorKind::NoAlternativeMatched));
}

#[test]
fn the_first_bad_term_ends_the_reading() {
    assert_eq!(
        stalc("f(1 (x 3)"),
        failure(
            ErrorKind::NoAlternativeMatched,
            "(x",
            4,
            vec![command("f"), Token::ArgumentListStart, natural(1)]
        )
    );
    assert_eq!(
        stalc("1 f)x )"),
        failure(ErrorKind::TrailingCharacters, "f)x", 2, vec![natural(1)])
    );
    assert_eq!(stalc(") (x"), failure(ErrorKind::UnmatchedParen, ")", 0, vec![]));
}

#[test]
fn a_term_that_closes_too_much_leaves_no_tokens() {
    assert_eq!(
        stalc("f(1) x) y"),
        failure(
            ErrorKind::UnmatchedParen,
            "x)",
            5,
            vec![command("f"), Token::ArgumentListStart, natural(1), Token::ArgumentListStop]
        )
    );
}

#[test]
fn whitespace_separates_terms() {
    assert_eq!(stalc(""), Ok(vec![]));
    assert_eq!(stalc("   \t\n"), Ok(vec![]));
    assert_eq!(
        stalc("  1\u{3000}2\u{a0}\u{2003}3  "),
        Ok(vec![natural(1), natural(2), natural(3)])
    );
    assert_eq!(stalc("\u{205f}x"), Ok(vec![command("x")]));
}

#[test]
fn position_counts_characters() {
    assert_eq!(
        stalc("é \u{3000}(x"),
        failure(ErrorKind::NoAlternativeMatched, "(x", 3, vec![command("é")])
    );
}

#[test]
fn deep_nesting_is_read_quickly() {
    let depth = 200;
    let mut text = String::new();
    let mut expected = Vec::new();
    for _ in 0..depth {
        text.push_str("f(");
        expected.push(command("f"));
        expected.push(Token::ArgumentListStart);
    }
    text.push('1');
    expected.push(natural(1));
    for _ in 0..depth {
        text.push(')');
        expected.push(Token::ArgumentListStop);
    }
    assert_eq!(stalc(&text), Ok(expected));
    // one closing parenthesis too many closes a list that is not open
    text.push(')');
    assert_eq!(stalc(&text), failure(ErrorKind::UnmatchedParen, &text, 0, vec![]));
    // and with two too many the term fits no form
    text.push(')');
    assert_eq!(token(&text), Err(ErrorKind::TrailingCharacters));
    // and a term that no number of closing parentheses mends
    let mut bad = "f(".repeat(depth);
    bad.push('(');
    bad.push_str(&")".repeat(depth));
    assert_eq!(token(&bad), Err(ErrorKind::TrailingCharacters));
}

#[test]
fn streams_that_are_read_nest() {
    for text in ["f(g(1) h(2 3) k())", "a b c", "f(g(h(1)))", "f( g( 1 ) )", "x(\"()\")"] {
        let tokens = stalc(text).unwrap();
        let mut depth = 0i64;
        for token in &tokens {
            match token {
                Token::ArgumentListStart => depth += 1,
                Token::ArgumentListStop => depth -= 1,
                _ => {}
            }
            assert!(depth >= 0);
        }
        assert_eq!(depth, 0);
    }
}

#[test]
fn flatten_joins_in_order() {
    assert_eq!(flatten(vec![]), vec![]);
    assert_eq!(
        flatten(vec![vec![command("a"), natural(1)], vec![], vec![Token::ArgumentListStop]]),
        vec![command("a"), natural(1), Token::ArgumentListStop]
    );
}

#[test]
fn both_appends() {
    assert_eq!(
        both(vec![command("a")], vec![natural(1), natural(2)]),
        vec![command("a"), natural(1), natural(2)]
    );
    assert_eq!(both(vec![], vec![]), vec![]);
}

#[test]
fn name_characters() {
    assert!(notargtok('a'));
    assert!(notargtok('"'));
    assert!(notargtok('-'));
    assert!(!notargtok('('));
    assert!(!notargtok(')'));
    assert!(!notargtok(' '));
    assert!(!notargtok('\u{2028}'));
}
