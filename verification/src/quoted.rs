//! String literals: a text between two quotes.

use crate::error::ErrorKind;
use crate::text::{chars_of, string_of};
use vstd::prelude::*;
use vstd::slice::slice_subrange;

verus! {

/// The place of the last quote in `t`, or -1 where it has none.
pub open spec fn last_quote(t: Seq<char>) -> int
    decreases t.len(),
{
    if t.len() == 0 {
        -1
    } else if t.last() == '"' {
        t.len() - 1
    } else {
        last_quote(t.drop_last())
    }
}

/// A string literal opens with a quote and ends with one; what stands
/// between the first quote and the last is its contents, quotes included: no
/// character escapes another. A text that goes on behind its last quote has
/// trailing characters; one that opens with a quote and holds no other is
/// unterminated.
pub open spec fn string_spec(t: Seq<char>) -> Result<Seq<char>, ErrorKind> {
    if t.len() == 0 {
        Err(ErrorKind::IncompleteInput)
    } else if t[0] != '"' {
        Err(ErrorKind::NoAlternativeMatched)
    } else if last_quote(t) == 0 {
        Err(ErrorKind::UnterminatedString)
    } else if last_quote(t) < t.len() - 1 {
        Err(ErrorKind::TrailingCharacters)
    } else {
        Ok(t.subrange(1, t.len() - 1))
    }
}

/// No quote of `t` stands behind the last one, and the last one is a quote.
pub proof fn lemma_last_quote(t: Seq<char>, i: int)
    requires
        0 <= i < t.len(),
        t[i] == '"',
    ensures
        i <= last_quote(t) < t.len(),
        t[last_quote(t)] == '"',
    decreases t.len(),
{
    if t.last() != '"' {
        lemma_last_quote(t.drop_last(), i);
    }
}

/// A string literal ends with a quote.
pub proof fn lemma_string_ends_with_quote(t: Seq<char>)
    requires
        string_spec(t) is Ok,
    ensures
        t.len() >= 2,
        t.last() == '"',
{
    lemma_last_quote(t, 0);
}

/// The place of the last quote in `t`, if it has one.
fn find_last_quote(t: &[char]) -> (at: Option<usize>)
    ensures
        at is None <==> last_quote(t@) == -1,
        at matches Some(i) ==> i == last_quote(t@) && i < t.len(),
{
    let mut end = t.len();
    assert(t@.take(end as int) == t@);
    while end > 0
        invariant
            end <= t.len(),
            last_quote(t@) == last_quote(t@.take(end as int)),
        decreases end,
    {
        if t[end - 1] == '"' {
            return Some(end - 1);
        }
        assert(t@.take(end as int).drop_last() == t@.take(end - 1));
        end -= 1;
    }
    None
}

/// Reads the string literal spelled by `t`.
pub fn string_literal_of(t: &[char]) -> (res: Result<String, ErrorKind>)
    ensures
        res is Ok <==> string_spec(t@) is Ok,
        res matches Err(e) ==> string_spec(t@) == Err::<Seq<char>, ErrorKind>(e),
        res matches Ok(s) ==> string_spec(t@) == Ok::<Seq<char>, ErrorKind>(s@),
{
    if t.len() == 0 {
        return Err(ErrorKind::IncompleteInput);
    }
    if t[0] != '"' {
        return Err(ErrorKind::NoAlternativeMatched);
    }
    proof {
        lemma_last_quote(t@, 0);
    }
    match find_last_quote(t) {
        Some(0) | None => Err(ErrorKind::UnterminatedString),
        Some(at) => {
            if at < t.len() - 1 {
                Err(ErrorKind::TrailingCharacters)
            } else {
                Ok(string_of(slice_subrange(t, 1, at)))
            }
        },
    }
}

/// Reads a string literal: a quote, the contents, a quote, and nothing else.
pub fn string_literal(input: &str) -> (res: Result<String, ErrorKind>)
    ensures
        res is Ok <==> string_spec(input@) is Ok,
        res matches Err(e) ==> string_spec(input@) == Err::<Seq<char>, ErrorKind>(e),
        res matches Ok(s) ==> string_spec(input@) == Ok::<Seq<char>, ErrorKind>(s@),
{
    let chars = chars_of(input);
    string_literal_of(chars.as_slice())
}

} // verus!
