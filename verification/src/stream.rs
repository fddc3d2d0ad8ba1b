//! From a line of text to the token stream: the terms between whitespace are
//! read one after the other, and the argument lists they open and close must
//! nest.

use crate::error::ErrorKind;
use crate::text::{chars_of, string_of};
use crate::token::{
    lemma_spell_joined, spell, term_error, term_lexemes, token_of, Lexeme, Token,
};
use crate::whitespace::{is_whitespace, whitespace};
use vstd::prelude::*;
use vstd::slice::slice_subrange;

verus! {

/// Why a line was not read, and at which term.
#[derive(Debug, PartialEq, Eq)]
pub struct SyntaxError {
    /// What went wrong.
    pub kind: ErrorKind,
    /// The term at which it went wrong; empty where the line ended too soon.
    pub term: String,
    /// Where that term begins in the line, counted in characters.
    pub position: usize,
    /// The tokens of the terms before it, which were read.
    pub tokens: Vec<Token>,
}

/// What a [`SyntaxError`] says, with the tokens as read off the text.
pub struct Failure {
    pub kind: ErrorKind,
    pub term: Seq<char>,
    pub position: int,
    pub read: Seq<Lexeme>,
}

impl SyntaxError {
    /// Whether this is the error that `failure` describes.
    pub open spec fn tells(&self, failure: Failure) -> bool {
        &&& self.kind == failure.kind
        &&& self.term@ == failure.term
        &&& self.position == failure.position
        &&& spell(self.tokens@, failure.read)
    }
}

impl Lexeme {
    /// How far the token moves into argument lists: one level in at the start
    /// of a list, one level out at its end.
    pub open spec fn step(self) -> int {
        match self {
            Lexeme::ArgumentListStart => 1,
            Lexeme::ArgumentListStop => -1,
            _ => 0,
        }
    }
}

impl Token {
    /// How far the token moves into argument lists: one level in at the start
    /// of a list, one level out at its end.
    pub open spec fn step(&self) -> int {
        match self {
            Token::ArgumentListStart => 1,
            Token::ArgumentListStop => -1,
            _ => 0,
        }
    }
}

/// The steps of a run of lexemes.
pub open spec fn lexeme_steps(lexemes: Seq<Lexeme>) -> Seq<int> {
    Seq::new(lexemes.len(), |i: int| lexemes[i].step())
}

/// The steps of a run of tokens.
pub open spec fn token_steps(tokens: Seq<Token>) -> Seq<int> {
    Seq::new(tokens.len(), |i: int| tokens[i].step())
}

/// The depth reached from `depth` by taking all the steps.
pub open spec fn depth_after(steps: Seq<int>, depth: int) -> int
    decreases steps.len(),
{
    if steps.len() == 0 {
        depth
    } else {
        depth_after(steps.skip(1), depth + steps[0])
    }
}

/// Whether the depth, starting from `depth`, stays at zero or above before
/// and after every step: no list ends that was not begun.
pub open spec fn never_below(steps: Seq<int>, depth: int) -> bool
    decreases steps.len(),
{
    depth >= 0 && (steps.len() == 0 || never_below(steps.skip(1), depth + steps[0]))
}

/// Whether the steps nest: no list ends that was not begun, and every list
/// that was begun ends.
pub open spec fn balanced(steps: Seq<int>) -> bool {
    never_below(steps, 0) && depth_after(steps, 0) == 0
}

/// The depth never falls below zero exactly when it is not below zero
/// after any number of the steps: at no point have more lists ended than
/// begun.
pub proof fn lemma_never_below_prefixes(steps: Seq<int>, depth: int)
    ensures
        never_below(steps, depth) <==> forall|k: int|
            0 <= k <= steps.len() ==> depth_after(#[trigger] steps.take(k), depth) >= 0,
    decreases steps.len(),
{
    assert(depth_after(steps.take(0), depth) == depth);
    if steps.len() > 0 {
        let tail = steps.skip(1);
        let next = depth + steps[0];
        lemma_never_below_prefixes(tail, next);
        assert forall|k: int| 0 <= k <= tail.len() implies depth_after(
            #[trigger] steps.take(k + 1),
            depth,
        ) == depth_after(tail.take(k), next) by {
            assert(steps.take(k + 1).skip(1) == tail.take(k));
        }
        if never_below(steps, depth) {
            assert forall|k: int| 0 <= k <= steps.len() implies depth_after(
                #[trigger] steps.take(k),
                depth,
            ) >= 0 by {
                if k > 0 {
                    assert(depth_after(steps.take((k - 1) + 1), depth) == depth_after(
                        tail.take(k - 1),
                        next,
                    ));
                }
            }
        }
        if forall|k: int|
            0 <= k <= steps.len() ==> depth_after(#[trigger] steps.take(k), depth) >= 0 {
            assert forall|k: int| 0 <= k <= tail.len() implies depth_after(
                #[trigger] tail.take(k),
                next,
            ) >= 0 by {
                assert(depth_after(steps.take(k + 1), depth) >= 0);
            }
        }
    }
}

/// Where the term that begins at `from` ends: at the next whitespace or at
/// the end of the text.
pub open spec fn term_end(s: Seq<char>, from: int) -> int
    decreases s.len() - from,
{
    if 0 <= from < s.len() && !whitespace(s[from]) {
        term_end(s, from + 1)
    } else {
        from
    }
}

/// A term ends at or behind the place where it begins, and within the text.
pub proof fn lemma_term_end_bounds(s: Seq<char>, from: int)
    requires
        0 <= from <= s.len(),
    ensures
        from <= term_end(s, from) <= s.len(),
        from < s.len() && !whitespace(s[from]) ==> from < term_end(s, from),
    decreases s.len() - from,
{
    if from < s.len() && !whitespace(s[from]) {
        lemma_term_end_bounds(s, from + 1);
    }
}

/// The unmatched-parenthesis error at the term from `from` to `end`.
pub open spec fn unmatched(s: Seq<char>, from: int, end: int) -> Failure {
    Failure {
        kind: ErrorKind::UnmatchedParen,
        term: s.subrange(from, end),
        position: from,
        read: Seq::empty(),
    }
}

/// What is read in all, given what was read so far and what the rest of the
/// text is read as: the tokens read so far stand in front, in the stream as
/// in the error.
pub open spec fn read_on(done: Seq<Lexeme>, rest: Result<Seq<Lexeme>, Failure>) -> Result<
    Seq<Lexeme>,
    Failure,
> {
    match rest {
        Ok(lexemes) => Ok(done + lexemes),
        Err(e) => Err(Failure { read: done + e.read, ..e }),
    }
}

/// The token stream of the text from `from` on, where `depth` argument lists
/// are open.
///
/// Whitespace is skipped. Each term is read by the grammar of terms; the
/// first that is not read, or that ends a list where none is open, ends the
/// reading with an error at that term. Where the text ends with a list still
/// open, the error stands at the end of the text, with no term. The error
/// keeps the tokens of the terms that were read before it.
pub open spec fn stream_from(s: Seq<char>, from: int, depth: int) -> Result<
    Seq<Lexeme>,
    Failure,
>
    decreases s.len() - from,
{
    if from < 0 || from >= s.len() {
        if depth == 0 {
            Ok(Seq::empty())
        } else {
            Err(unmatched(s, s.len() as int, s.len() as int))
        }
    } else if whitespace(s[from]) {
        stream_from(s, from + 1, depth)
    } else {
        let end = term_end(s, from);
        let term = s.subrange(from, end);
        proof {
            lemma_term_end_bounds(s, from);
        }
        match term_lexemes(term) {
            None => Err(
                Failure { kind: term_error(term), term, position: from, read: Seq::empty() },
            ),
            Some(lexemes) => if !never_below(lexeme_steps(lexemes), depth) {
                Err(unmatched(s, from, end))
            } else {
                read_on(lexemes, stream_from(s, end, depth_after(lexeme_steps(lexemes), depth)))
            },
        }
    }
}

/// The token stream of a text.
pub open spec fn stalc_spec(s: Seq<char>) -> Result<Seq<Lexeme>, Failure> {
    stream_from(s, 0, 0)
}

/// Taking the steps of one run and then those of another is taking the steps
/// of both.
pub proof fn lemma_steps_joined(a: Seq<int>, b: Seq<int>, depth: int)
    ensures
        depth_after(a + b, depth) == depth_after(b, depth_after(a, depth)),
        never_below(a + b, depth) == (never_below(a, depth) && never_below(
            b,
            depth_after(a, depth),
        )),
    decreases a.len(),
{
    if a.len() == 0 {
        assert(a + b == b);
        if !never_below(b, depth) && depth >= 0 {
            assert(b.len() > 0);
        }
    } else {
        assert((a + b).skip(1) == a.skip(1) + b);
        assert((a + b)[0] == a[0]);
        lemma_steps_joined(a.skip(1), b, depth + a[0]);
    }
}

/// The steps of two runs of lexemes joined are the steps of the first, then
/// those of the second.
pub proof fn lemma_lexeme_steps_joined(a: Seq<Lexeme>, b: Seq<Lexeme>)
    ensures
        lexeme_steps(a + b) == lexeme_steps(a) + lexeme_steps(b),
{
    assert(lexeme_steps(a + b) =~= lexeme_steps(a) + lexeme_steps(b));
}

/// Tokens take the steps of the lexemes they spell.
pub proof fn lemma_spelled_steps(tokens: Seq<Token>, lexemes: Seq<Lexeme>)
    requires
        spell(tokens, lexemes),
    ensures
        token_steps(tokens) == lexeme_steps(lexemes),
{
    assert forall|i: int| 0 <= i < tokens.len() implies token_steps(tokens)[i] == lexeme_steps(
        lexemes,
    )[i] by {
        assert(tokens[i].spells(lexemes[i]));
    }
    assert(token_steps(tokens) =~= lexeme_steps(lexemes));
}

/// A stream that was read closes, at its end, every list that was open at its
/// start or opened in it, and closes none that was not open.
pub proof fn lemma_stream_balanced(s: Seq<char>, from: int, depth: int)
    requires
        0 <= from,
        0 <= depth,
        stream_from(s, from, depth) is Ok,
    ensures
        never_below(lexeme_steps(stream_from(s, from, depth)->Ok_0), depth),
        depth_after(lexeme_steps(stream_from(s, from, depth)->Ok_0), depth) == 0,
    decreases s.len() - from,
{
    if from >= s.len() {
        assert(lexeme_steps(Seq::<Lexeme>::empty()) =~= Seq::<int>::empty());
    } else if whitespace(s[from]) {
        lemma_stream_balanced(s, from + 1, depth);
    } else {
        let end = term_end(s, from);
        lemma_term_end_bounds(s, from);
        let lexemes = term_lexemes(s.subrange(from, end))->0;
        let steps = lexeme_steps(lexemes);
        let next = depth_after(steps, depth);
        assert(never_below(steps, depth));
        lemma_depth_stays(steps, depth);
        lemma_stream_balanced(s, end, next);
        let rest = stream_from(s, end, next)->Ok_0;
        lemma_lexeme_steps_joined(lexemes, rest);
        lemma_steps_joined(steps, lexeme_steps(rest), depth);
    }
}

/// Where the depth never falls below zero, it is not below zero at the end.
pub proof fn lemma_depth_stays(steps: Seq<int>, depth: int)
    requires
        never_below(steps, depth),
    ensures
        depth_after(steps, depth) >= 0,
    decreases steps.len(),
{
    if steps.len() > 0 {
        lemma_depth_stays(steps.skip(1), depth + steps[0]);
    }
}

/// Where the term that begins at `from` ends.
fn scan_term(s: &[char], from: usize) -> (end: usize)
    requires
        from <= s.len(),
    ensures
        end == term_end(s@, from as int),
        from <= end <= s.len(),
{
    let mut end = from;
    while end < s.len() && !is_whitespace(s[end])
        invariant
            from <= end <= s.len(),
            term_end(s@, from as int) == term_end(s@, end as int),
        decreases s.len() - end,
    {
        end += 1;
    }
    end
}

/// The depth reached from `depth` by the tokens of `tokens` from `start` on,
/// unless one of them ends a list where none is open.
fn depth_through(tokens: &Vec<Token>, start: usize, depth: usize) -> (res: Option<usize>)
    requires
        start <= tokens.len(),
        depth <= start,
    ensures
        res is Some <==> never_below(token_steps(tokens@.skip(start as int)), depth as int),
        res matches Some(d) ==> d == depth_after(
            token_steps(tokens@.skip(start as int)),
            depth as int,
        ) && d <= tokens.len(),
{
    let ghost steps = token_steps(tokens@.skip(start as int));
    let ghost initial = depth as int;
    let mut level = depth;
    let mut k = start;
    assert(steps.skip(0) == steps);
    while k < tokens.len()
        invariant
            start <= k <= tokens.len(),
            level <= k,
            initial == depth as int,
            steps == token_steps(tokens@.skip(start as int)),
            never_below(steps, initial) == never_below(steps.skip(k - start), level as int),
            depth_after(steps, initial) == depth_after(steps.skip(k - start), level as int),
        decreases tokens.len() - k,
    {
        proof {
            let ahead = steps.skip(k - start);
            assert(ahead[0] == tokens@[k as int].step());
            assert(ahead.skip(1) == steps.skip(k + 1 - start));
        }
        match &tokens[k] {
            Token::ArgumentListStart => {
                level += 1;
            },
            Token::ArgumentListStop => {
                if level == 0 {
                    proof {
                        let ahead = steps.skip(k - start);
                        assert(ahead.len() > 0 && ahead[0] == -1);
                        assert(!never_below(ahead.skip(1), 0 + ahead[0]));
                        assert(!never_below(ahead, 0));
                    }
                    return None;
                }
                level -= 1;
            },
            _ => {},
        }
        k += 1;
    }
    Some(level)
}

/// Reads a line of text into its token stream.
///
/// The stream of a line that is read nests: see [`balanced`]. Where a term is
/// not read, the error names it and keeps the tokens of the terms before it.
pub fn stalc(input: &str) -> (res: Result<Vec<Token>, SyntaxError>)
    ensures
        res is Ok <==> stalc_spec(input@) is Ok,
        res matches Err(e) ==> e.tells(stalc_spec(input@)->Err_0),
        res matches Ok(tokens) ==> spell(tokens@, stalc_spec(input@)->Ok_0) && balanced(
            token_steps(tokens@),
        ),
{
    let chars = chars_of(input);
    let s = chars.as_slice();
    let len = s.len();
    let mut tokens: Vec<Token> = Vec::new();
    let mut depth: usize = 0;
    let mut at: usize = 0;
    let ghost mut done: Seq<Lexeme> = Seq::empty();
    proof {
        lemma_read_on_nothing(stream_from(s@, 0, 0));
    }
    while at < len
        invariant
            s@ == input@,
            len == s.len(),
            at <= len,
            depth <= tokens.len(),
            spell(tokens@, done),
            stalc_spec(input@) == read_on(done, stream_from(s@, at as int, depth as int)),
        decreases len - at,
    {
        if is_whitespace(s[at]) {
            at += 1;
            continue;
        }
        let end = scan_term(s, at);
        let term = slice_subrange(s, at, end);
        proof {
            lemma_term_end_bounds(s@, at as int);
            assert(done + Seq::<Lexeme>::empty() == done);
        }
        let mut read = match token_of(term) {
            Ok(read) => read,
            Err(kind) => {
                return Err(SyntaxError { kind, term: string_of(term), position: at, tokens });
            },
        };
        let ghost lexemes = term_lexemes(term@)->0;
        let ghost before = tokens@;
        let ghost added = read@;
        let start = tokens.len();
        tokens.append(&mut read);
        assert(tokens@.skip(start as int) == added);
        proof {
            lemma_spelled_steps(added, lexemes);
        }
        match depth_through(&tokens, start, depth) {
            Some(d) => {
                depth = d;
            },
            None => {
                tokens.truncate(start);
                assert(tokens@ == before);
                return Err(
                    SyntaxError {
                        kind: ErrorKind::UnmatchedParen,
                        term: string_of(term),
                        position: at,
                        tokens,
                    },
                );
            },
        }
        proof {
            lemma_spell_joined(before, done, added, lexemes);
            lemma_read_on_twice(done, lexemes, stream_from(s@, end as int, depth as int));
            done = done + lexemes;
        }
        at = end;
    }
    proof {
        assert(done + Seq::<Lexeme>::empty() == done);
    }
    if depth != 0 {
        assert(input@.subrange(len as int, len as int) =~= Seq::<char>::empty());
        return Err(
            SyntaxError {
                kind: ErrorKind::UnmatchedParen,
                term: String::new(),
                position: len,
                tokens,
            },
        );
    }
    proof {
        lemma_stream_balanced(input@, 0, 0);
        lemma_spelled_steps(tokens@, done);
    }
    Ok(tokens)
}

/// With nothing read so far, all that is read is what the text is read as.
proof fn lemma_read_on_nothing(rest: Result<Seq<Lexeme>, Failure>)
    ensures
        read_on(Seq::empty(), rest) == rest,
{
    match rest {
        Ok(lexemes) => {
            assert(Seq::<Lexeme>::empty() + lexemes == lexemes);
        },
        Err(e) => {
            assert(Seq::<Lexeme>::empty() + e.read == e.read);
        },
    }
}

/// Reading on behind two runs of tokens, one after the other, is reading on
/// behind both.
proof fn lemma_read_on_twice(
    done: Seq<Lexeme>,
    more: Seq<Lexeme>,
    rest: Result<Seq<Lexeme>, Failure>,
)
    ensures
        read_on(done, read_on(more, rest)) == read_on(done + more, rest),
{
    match rest {
        Ok(lexemes) => {
            assert(done + (more + lexemes) == (done + more) + lexemes);
        },
        Err(e) => {
            assert(done + (more + e.read) == (done + more) + e.read);
        },
    }
}

} // verus!
