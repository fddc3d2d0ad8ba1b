//! The ways in which a text can fail to be read.

use vstd::prelude::*;

verus! {

/// Why a literal or a term was not read.
#[derive(Clone, Copy, Debug, PartialEq, Eq, Structural)]
pub enum ErrorKind {
    /// A digit stands for a value that is not below the radix.
    InvalidDigitForRadix,
    /// The radix is not between 1 and 62.
    InvalidRadix,
    /// A string opens with a quote and does not end with one.
    UnterminatedString,
    /// A `)` closes no list, or a list is still open where the input ends.
    UnmatchedParen,
    /// A form was recognised at the start, and characters are left behind it.
    TrailingCharacters,
    /// The text begins like none of the forms.
    NoAlternativeMatched,
    /// The text ends where a form has not begun yet.
    IncompleteInput,
}

} // verus!
