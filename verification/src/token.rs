//! Tokens, and the grammar that turns one term into tokens.
//!
//! A term is a run of characters without whitespace. It is read as the first
//! of these forms that fits it whole:
//!
//! 1. `)` alone: the end of an argument list;
//! 2. a string literal;
//! 3. a boolean literal;
//! 4. a date literal;
//! 5. a number literal;
//! 6. a name and `(`: a command whose arguments follow in later terms;
//! 7. a name, `(` and a term: a command with its first argument;
//! 8. a name, `(`, a term and `)`: a command with its whole argument list;
//! 9. a name and `()`: a command with no arguments;
//! 10. a name alone: a bare command;
//! 11. a name-like term and `)`: the last argument of a list that was opened
//!     in an earlier term.
//!
//! A name is a run of characters other than whitespace and parentheses, as
//! long as it can be.

use crate::boolean::{boolean_of, boolean_spec, false_keyword, true_keyword};
use crate::datetime::{datetime_of, datetime_spec, Datetime, DatetimeView};
use crate::error::ErrorKind;
use crate::number::{
    lemma_number_chars, number_of, number_spec, numeral_char, numeral_spec, Number, NumeralView,
};
use crate::quoted::{lemma_string_ends_with_quote, string_literal_of, string_spec};
use crate::text::{chars_of, string_of};
use crate::whitespace::{not_whitespace, whitespace};
use vstd::prelude::*;
use vstd::slice::slice_subrange;

verus! {

/// One element of the token stream.
#[derive(Debug, PartialEq, Eq)]
pub enum Token {
    /// An argument list begins.
    ArgumentListStart,
    /// An argument list ends.
    ArgumentListStop,
    /// A boolean literal.
    Boolean(bool),
    /// A command, by its name.
    Command(String),
    /// A date literal.
    Datetime(Datetime),
    /// A number literal.
    Number(Number),
    /// A string literal, by its contents.
    String(String),
}

/// What a token says, as read off the text: a number by its digits, before
/// any value is computed.
pub enum Lexeme {
    ArgumentListStart,
    ArgumentListStop,
    Boolean(bool),
    Command(Seq<char>),
    Datetime(DatetimeView),
    Number(NumeralView),
    Text(Seq<char>),
}

impl Token {
    /// Whether this token is the one that `lexeme` describes.
    pub open spec fn spells(&self, lexeme: Lexeme) -> bool {
        match (*self, lexeme) {
            (Token::ArgumentListStart, Lexeme::ArgumentListStart) => true,
            (Token::ArgumentListStop, Lexeme::ArgumentListStop) => true,
            (Token::Boolean(b), Lexeme::Boolean(l)) => b == l,
            (Token::Command(name), Lexeme::Command(l)) => name@ == l,
            (Token::Datetime(d), Lexeme::Datetime(l)) => d@ == l,
            (Token::Number(n), Lexeme::Number(l)) => n.is_value_of(l),
            (Token::String(s), Lexeme::Text(l)) => s@ == l,
            _ => false,
        }
    }
}

/// Whether the tokens are, one by one, those that the lexemes describe.
pub open spec fn spell(tokens: Seq<Token>, lexemes: Seq<Lexeme>) -> bool {
    &&& tokens.len() == lexemes.len()
    &&& forall|i: int| 0 <= i < tokens.len() ==> (#[trigger] tokens[i]).spells(lexemes[i])
}

/// The token lists of `lists`, one behind the other.
pub open spec fn concatenation(lists: Seq<Vec<Token>>) -> Seq<Token>
    decreases lists.len(),
{
    if lists.len() == 0 {
        Seq::empty()
    } else {
        concatenation(lists.drop_last()) + lists.last()@
    }
}

/// Joins token lists into one, in order.
pub fn flatten(vecovec: Vec<Vec<Token>>) -> (tokens: Vec<Token>)
    ensures
        tokens@ == concatenation(vecovec@),
{
    let mut tokens: Vec<Token> = Vec::new();
    let ghost lists = vecovec@;
    for list in it: vecovec
        invariant
            it.seq() == lists,
            tokens@ == concatenation(lists.take(it.index() as int)),
    {
        let mut list = list;
        proof {
            let k = it.index() as int;
            assert(lists.take(k + 1).drop_last() == lists.take(k));
        }
        tokens.append(&mut list);
    }
    assert(lists.take(lists.len() as int) == lists);
    tokens
}

/// The tokens of `v1`, then those of `v2`.
pub fn both(v1: Vec<Token>, v2: Vec<Token>) -> (tokens: Vec<Token>)
    ensures
        tokens@ == v1@ + v2@,
{
    let mut v1 = v1;
    let mut v2 = v2;
    v1.append(&mut v2);
    v1
}

/// Whether `c` can stand in a name: it is neither whitespace nor a
/// parenthesis.
pub open spec fn name_char(c: char) -> bool {
    c != '(' && c != ')' && !whitespace(c)
}

/// Whether `c` can stand in a name.
pub fn notargtok(c: char) -> (b: bool)
    ensures
        b == name_char(c),
{
    match c {
        '(' | ')' => false,
        _ => not_whitespace(c),
    }
}

/// The length of the name at the start of `t`: of the longest run of name
/// characters.
pub open spec fn name_len(t: Seq<char>) -> int
    decreases t.len(),
{
    if t.len() > 0 && name_char(t[0]) {
        1 + name_len(t.skip(1))
    } else {
        0
    }
}

/// Forms 1 to 5: the term as a closing parenthesis or as a literal.
pub open spec fn literal_lexeme(t: Seq<char>) -> Option<Lexeme> {
    if t == seq![')'] {
        Some(Lexeme::ArgumentListStop)
    } else if string_spec(t) is Ok {
        Some(Lexeme::Text(string_spec(t)->Ok_0))
    } else if boolean_spec(t) is Ok {
        Some(Lexeme::Boolean(boolean_spec(t)->Ok_0))
    } else if datetime_spec(t) is Ok {
        Some(Lexeme::Datetime(datetime_spec(t)->Ok_0))
    } else if number_spec(t) is Ok {
        Some(Lexeme::Number(number_spec(t)->Ok_0))
    } else {
        None
    }
}

/// A command and the start of its argument list.
pub open spec fn call_head(name: Seq<char>) -> Seq<Lexeme> {
    seq![Lexeme::Command(name), Lexeme::ArgumentListStart]
}

/// What the term `t` is read as, if it fits one of the forms.
///
/// Behind a literal nothing else is tried. Of the other forms, what follows
/// the name decides: nothing (form 10), a `(` (forms 6 to 9) or a `)` that
/// ends the term (form 11).
pub open spec fn term_lexemes(t: Seq<char>) -> Option<Seq<Lexeme>>
    decreases t.len(), 0int,
{
    let n = name_len(t);
    let name = t.take(n);
    if literal_lexeme(t) is Some {
        Some(seq![literal_lexeme(t)->0])
    } else if n <= 0 || n > t.len() {
        None
    } else if n == t.len() {
        Some(seq![Lexeme::Command(name)])
    } else if t[n] == '(' {
        match arguments_lexemes(t.skip(n + 1)) {
            Some(arguments) => Some(call_head(name) + arguments),
            None => None,
        }
    } else if t[n] == ')' && n + 1 == t.len() && term_lexemes(name) is Some {
        Some(term_lexemes(name)->0 + seq![Lexeme::ArgumentListStop])
    } else {
        None
    }
}

/// What the rest of a term behind a name and `(` is read as: forms 6 to 9, in
/// that order. Form 9 is written out although form 7 reads the same rest
/// the same way.
pub open spec fn arguments_lexemes(rest: Seq<char>) -> Option<Seq<Lexeme>>
    decreases rest.len(), 1int,
{
    if rest.len() == 0 {
        Some(Seq::empty())
    } else if term_lexemes(rest) is Some {
        term_lexemes(rest)
    } else if rest.last() == ')' && term_lexemes(rest.drop_last()) is Some {
        Some(term_lexemes(rest.drop_last())->0 + seq![Lexeme::ArgumentListStop])
    } else if rest == seq![')'] {
        Some(seq![Lexeme::ArgumentListStop])
    } else {
        None
    }
}

/// Why a term that fits no form was not read: it is empty; or it begins
/// with a `)` or a name, which some form reads, and goes on in a way that
/// none does; or it begins like nothing at all.
pub open spec fn term_error(t: Seq<char>) -> ErrorKind {
    if t.len() == 0 {
        ErrorKind::IncompleteInput
    } else if t[0] == ')' || name_char(t[0]) {
        ErrorKind::TrailingCharacters
    } else {
        ErrorKind::NoAlternativeMatched
    }
}

/// What a term is read as, or why it is not.
pub open spec fn token_spec(t: Seq<char>) -> Result<Seq<Lexeme>, ErrorKind> {
    match term_lexemes(t) {
        Some(lexemes) => Ok(lexemes),
        None => Err(term_error(t)),
    }
}

/// Whether `s` can be the name of a command: it is not empty and holds name
/// characters only.
pub open spec fn is_name(s: Seq<char>) -> bool {
    s.len() > 0 && forall|i: int| 0 <= i < s.len() ==> name_char(#[trigger] s[i])
}

/// A name ends where the first character stands that cannot be in a name.
pub proof fn lemma_name_ends(name: Seq<char>, rest: Seq<char>)
    requires
        forall|i: int| 0 <= i < name.len() ==> name_char(#[trigger] name[i]),
        rest.len() == 0 || !name_char(rest[0]),
    ensures
        name_len(name + rest) == name.len(),
    decreases name.len(),
{
    let t = name + rest;
    if name.len() > 0 {
        assert(t[0] == name[0]);
        assert(t.skip(1) == name.skip(1) + rest);
        assert forall|i: int| 0 <= i < name.skip(1).len() implies name_char(
            #[trigger] name.skip(1)[i],
        ) by {
            assert(name.skip(1)[i] == name[i + 1]);
        }
        lemma_name_ends(name.skip(1), rest);
    } else {
        assert(t == rest);
    }
}

/// Of the terms that end with a parenthesis, only `)` itself is a closing
/// parenthesis or a literal.
pub proof fn lemma_no_literal_ends_open(t: Seq<char>)
    requires
        t.len() >= 2,
        t.last() == '(' || t.last() == ')',
    ensures
        literal_lexeme(t) is None,
{
    if string_spec(t) is Ok {
        lemma_string_ends_with_quote(t);
    }
    if boolean_spec(t) is Ok {
        if t == true_keyword() {
            assert(t.last() == true_keyword()[3]);
        } else {
            assert(t == false_keyword());
            assert(t.last() == false_keyword()[4]);
        }
    }
    if numeral_spec(t) is Ok {
        lemma_number_chars(t);
        assert(numeral_char(t[t.len() - 1]));
    }
}

/// A name with `(` behind it is a command whose argument list begins; with
/// `()` behind it, a command whose argument list begins and ends; alone, a
/// command or, where it is written like one, a literal. A command with an
/// empty argument list is thus never read as the bare command is.
pub proof fn lemma_command_forms(name: Seq<char>)
    requires
        is_name(name),
    ensures
        term_lexemes(name + seq!['(']) == Some(call_head(name)),
        term_lexemes(name + seq!['(', ')']) == Some(
            call_head(name) + seq![Lexeme::ArgumentListStop],
        ),
        literal_lexeme(name) is None ==> term_lexemes(name) == Some(seq![Lexeme::Command(name)]),
        literal_lexeme(name) is Some ==> term_lexemes(name) == Some(seq![literal_lexeme(name)->0]),
{
    let n = name.len() as int;
    let open = name + seq!['('];
    let empty = name + seq!['(', ')'];
    lemma_name_ends(name, seq!['(']);
    lemma_name_ends(name, seq!['(', ')']);
    lemma_name_ends(name, Seq::empty());
    assert(name + Seq::<char>::empty() == name);
    assert(name.take(n) == name);
    if literal_lexeme(name) is None {
        assert(term_lexemes(name) == Some(seq![Lexeme::Command(name)]));
    }
    // with `(` behind it
    assert(open.last() == '(' && open[n] == '(');
    lemma_no_literal_ends_open(open);
    assert(open.take(n) == name);
    assert(open.skip(n + 1) == Seq::<char>::empty());
    assert(arguments_lexemes(open.skip(n + 1)) == Some(Seq::<Lexeme>::empty()));
    assert(call_head(name) + Seq::<Lexeme>::empty() == call_head(name));
    // with `()` behind it
    assert(empty.last() == ')' && empty[n] == '(');
    lemma_no_literal_ends_open(empty);
    assert(empty.take(n) == name);
    assert(empty.skip(n + 1) == seq![')']);
    assert(literal_lexeme(seq![')']) == Some(Lexeme::ArgumentListStop));
    assert(term_lexemes(seq![')']) == Some(seq![Lexeme::ArgumentListStop]));
    assert(arguments_lexemes(seq![')']) == Some(seq![Lexeme::ArgumentListStop]));
}

/// Tokens that spell two runs of lexemes spell them joined.
pub proof fn lemma_spell_joined(a: Seq<Token>, la: Seq<Lexeme>, b: Seq<Token>, lb: Seq<Lexeme>)
    requires
        spell(a, la),
        spell(b, lb),
    ensures
        spell(a + b, la + lb),
{
    assert forall|i: int| 0 <= i < (a + b).len() implies (#[trigger] (a + b)[i]).spells(
        (la + lb)[i],
    ) by {
        if i < a.len() {
            assert((a + b)[i] == a[i]);
        } else {
            assert((a + b)[i] == b[i - a.len()]);
        }
    }
}

/// The length of the name at the start of `t`.
fn scan_name(t: &[char]) -> (n: usize)
    ensures
        n == name_len(t@),
        n <= t.len(),
{
    let mut n: usize = 0;
    assert(t@.skip(0) == t@);
    while n < t.len() && notargtok(t[n])
        invariant
            n <= t.len(),
            name_len(t@) == n + name_len(t@.skip(n as int)),
        decreases t.len() - n,
    {
        proof {
            let tail = t@.skip(n as int);
            assert(tail[0] == t@[n as int]);
            assert(tail.skip(1) == t@.skip(n + 1));
        }
        n += 1;
    }
    proof {
        let tail = t@.skip(n as int);
        if n < t.len() {
            assert(tail[0] == t@[n as int]);
        }
    }
    n
}

/// The term as a closing parenthesis or as a literal, if it is one.
fn literal_of(t: &[char]) -> (res: Option<Token>)
    ensures
        res is Some <==> literal_lexeme(t@) is Some,
        res matches Some(token) ==> token.spells(literal_lexeme(t@)->0),
{
    if t.len() == 1 && t[0] == ')' {
        assert(t@ =~= seq![')']);
        return Some(Token::ArgumentListStop);
    }
    assert(t@ != seq![')']) by {
        if t@ == seq![')'] {
            assert(t@.len() == 1);
            assert(t@[0] == seq![')'][0]);
        }
    }
    if let Ok(contents) = string_literal_of(t) {
        return Some(Token::String(contents));
    }
    if let Ok(b) = boolean_of(t) {
        return Some(Token::Boolean(b));
    }
    if let Ok(date) = datetime_of(t) {
        return Some(Token::Datetime(date));
    }
    if let Ok(number) = number_of(t) {
        return Some(Token::Number(number));
    }
    None
}

/// A command and the start of its argument list.
fn call_head_of(name: &[char]) -> (tokens: Vec<Token>)
    ensures
        spell(tokens@, call_head(name@)),
{
    let mut tokens: Vec<Token> = Vec::new();
    tokens.push(Token::Command(string_of(name)));
    tokens.push(Token::ArgumentListStart);
    tokens
}

/// The end of an argument list, as a list of one token.
fn stop_of() -> (tokens: Vec<Token>)
    ensures
        spell(tokens@, seq![Lexeme::ArgumentListStop]),
{
    let mut tokens: Vec<Token> = Vec::new();
    tokens.push(Token::ArgumentListStop);
    tokens
}

/// Why the term `t` is not read, if it is not.
fn failure_of(t: &[char]) -> (kind: ErrorKind)
    ensures
        kind == term_error(t@),
{
    if t.len() == 0 {
        ErrorKind::IncompleteInput
    } else if t[0] == ')' || notargtok(t[0]) {
        ErrorKind::TrailingCharacters
    } else {
        ErrorKind::NoAlternativeMatched
    }
}

/// What is known of the parts of `t` that fit no form: of those that begin at
/// `s`, every one that ends behind `limit[s]`.
#[verifier::opaque]
spec fn known_unreadable(t: Seq<char>, limit: Seq<usize>) -> bool {
    &&& limit.len() == t.len()
    &&& forall|s: int, e: int|
        0 <= s < t.len() && s <= e <= t.len() && limit[s] < e ==> term_lexemes(
            #[trigger] t.subrange(s, e),
        ) is None
}

/// Reads the part of `t` from `from` to `to` as a term, unless it is known
/// not to be one, and remembers it where it is found not to be one.
///
/// A part can be reached along several paths, with and without the closing
/// parenthesis behind it, and each part is looked at once.
fn lex(t: &[char], from: usize, to: usize, limit: &mut Vec<usize>) -> (res: Result<
    Vec<Token>,
    ErrorKind,
>)
    requires
        from <= to <= t.len(),
        known_unreadable(t@, old(limit)@),
    ensures
        known_unreadable(t@, final(limit)@),
        res is Ok <==> token_spec(t@.subrange(from as int, to as int)) is Ok,
        res matches Err(e) ==> token_spec(t@.subrange(from as int, to as int)) == Err::<
            Seq<Lexeme>,
            ErrorKind,
        >(e),
        res matches Ok(tokens) ==> spell(
            tokens@,
            token_spec(t@.subrange(from as int, to as int))->Ok_0,
        ),
    decreases to - from, 1int,
{
    reveal(known_unreadable);
    if from < to && limit[from] < to {
        return Err(failure_of(slice_subrange(t, from, to)));
    }
    let res = lex_forms(t, from, to, limit);
    if res.is_err() && from < to && limit[from] == to {
        limit.set(from, to - 1);
    }
    res
}

/// Reads the part of `t` from `from` to `to` as a term, form by form.
fn lex_forms(t: &[char], from: usize, to: usize, limit: &mut Vec<usize>) -> (res: Result<
    Vec<Token>,
    ErrorKind,
>)
    requires
        from <= to <= t.len(),
        known_unreadable(t@, old(limit)@),
    ensures
        known_unreadable(t@, final(limit)@),
        res is Ok <==> token_spec(t@.subrange(from as int, to as int)) is Ok,
        res matches Err(e) ==> token_spec(t@.subrange(from as int, to as int)) == Err::<
            Seq<Lexeme>,
            ErrorKind,
        >(e),
        res matches Ok(tokens) ==> spell(
            tokens@,
            token_spec(t@.subrange(from as int, to as int))->Ok_0,
        ),
    decreases to - from, 0int,
{
    let term = slice_subrange(t, from, to);
    if let Some(token) = literal_of(term) {
        let mut tokens: Vec<Token> = Vec::new();
        tokens.push(token);
        return Ok(tokens);
    }
    let n = scan_name(term);
    if n == 0 {
        return Err(failure_of(term));
    }
    let name = slice_subrange(term, 0, n);
    assert(name@ == term@.take(n as int));
    if n == term.len() {
        let mut tokens: Vec<Token> = Vec::new();
        tokens.push(Token::Command(string_of(name)));
        return Ok(tokens);
    }
    if term[n] == '(' {
        let head = call_head_of(name);
        assert(t@.subrange(from + n + 1, to as int) == term@.skip(n + 1));
        return match lex_arguments(t, from, n, to, limit) {
            Ok(arguments) => {
                proof {
                    lemma_spell_joined(
                        head@,
                        call_head(name@),
                        arguments@,
                        arguments_lexemes(term@.skip(n + 1))->0,
                    );
                }
                Ok(both(head, arguments))
            },
            Err(e) => Err(e),
        };
    }
    if term[n] == ')' && n + 1 == term.len() {
        assert(t@.subrange(from as int, to - 1) == name@);
        if let Ok(inner) = lex(t, from, to - 1, limit) {
            let stop = stop_of();
            proof {
                lemma_spell_joined(
                    inner@,
                    term_lexemes(name@)->0,
                    stop@,
                    seq![Lexeme::ArgumentListStop],
                );
            }
            return Ok(both(inner, stop));
        }
    }
    Err(failure_of(term))
}

/// Reads what follows the `(` of a command whose name begins at `from` and is
/// `n` long, in the part of `t` that ends at `to`.
fn lex_arguments(t: &[char], from: usize, n: usize, to: usize, limit: &mut Vec<usize>) -> (res:
    Result<Vec<Token>, ErrorKind>)
    requires
        from + n < to <= t.len(),
        n > 0,
        known_unreadable(t@, old(limit)@),
    ensures
        known_unreadable(t@, final(limit)@),
        res is Ok <==> arguments_lexemes(t@.subrange(from + n + 1, to as int)) is Some,
        res matches Err(e) ==> e == term_error(t@.subrange(from as int, to as int)),
        res matches Ok(tokens) ==> spell(
            tokens@,
            arguments_lexemes(t@.subrange(from + n + 1, to as int))->0,
        ),
    decreases to - from - n - 1, 2int,
{
    let start = from + n + 1;
    let ghost rest = t@.subrange(start as int, to as int);
    if start == to {
        return Ok(Vec::new());
    }
    if let Ok(inner) = lex(t, start, to, limit) {
        return Ok(inner);
    }
    if t[to - 1] == ')' {
        assert(t@.subrange(start as int, to - 1) == rest.drop_last());
        if let Ok(inner) = lex(t, start, to - 1, limit) {
            let stop = stop_of();
            proof {
                lemma_spell_joined(
                    inner@,
                    term_lexemes(rest.drop_last())->0,
                    stop@,
                    seq![Lexeme::ArgumentListStop],
                );
            }
            return Ok(both(inner, stop));
        }
    }
    // `)` alone is a term, so what follows `(` here is more than that
    assert(rest != seq![')']) by {
        assert(literal_lexeme(seq![')']) is Some);
    }
    Err(failure_of(slice_subrange(t, from, to)))
}

/// Reads the term spelled by `t`.
pub fn token_of(t: &[char]) -> (res: Result<Vec<Token>, ErrorKind>)
    ensures
        res is Ok <==> token_spec(t@) is Ok,
        res matches Err(e) ==> token_spec(t@) == Err::<Seq<Lexeme>, ErrorKind>(e),
        res matches Ok(tokens) ==> spell(tokens@, token_spec(t@)->Ok_0),
{
    let len = t.len();
    let mut limit: Vec<usize> = Vec::new();
    while limit.len() < len
        invariant
            len == t.len(),
            limit.len() <= len,
            forall|s: int| 0 <= s < limit.len() ==> limit[s] == len,
        decreases len - limit.len(),
    {
        limit.push(len);
    }
    assert(t@.subrange(0, len as int) == t@);
    assert(known_unreadable(t@, limit@)) by {
        reveal(known_unreadable);
    }
    lex(t, 0, len, &mut limit)
}

/// Reads one term: a run of characters without whitespace.
pub fn token(term: &str) -> (res: Result<Vec<Token>, ErrorKind>)
    ensures
        res is Ok <==> token_spec(term@) is Ok,
        res matches Err(e) ==> token_spec(term@) == Err::<Seq<Lexeme>, ErrorKind>(e),
        res matches Ok(tokens) ==> spell(tokens@, token_spec(term@)->Ok_0),
{
    let chars = chars_of(term);
    token_of(chars.as_slice())
}

} // verus!
