//! Boolean literals: the keywords `true` and `false`.

use crate::error::ErrorKind;
use crate::text::chars_of;
use vstd::prelude::*;

verus! {

/// The keyword for truth.
pub open spec fn true_keyword() -> Seq<char> {
    seq!['t', 'r', 'u', 'e']
}

/// The keyword for falsehood.
pub open spec fn false_keyword() -> Seq<char> {
    seq!['f', 'a', 'l', 's', 'e']
}

/// A boolean literal is exactly one of the two keywords, in lower case. A
/// text that goes on behind a keyword has trailing characters; any other text
/// is no boolean at all.
pub open spec fn boolean_spec(t: Seq<char>) -> Result<bool, ErrorKind> {
    if t.len() == 0 {
        Err(ErrorKind::IncompleteInput)
    } else if t == true_keyword() {
        Ok(true)
    } else if t == false_keyword() {
        Ok(false)
    } else if true_keyword().is_prefix_of(t) || false_keyword().is_prefix_of(t) {
        Err(ErrorKind::TrailingCharacters)
    } else {
        Err(ErrorKind::NoAlternativeMatched)
    }
}

/// Reads the boolean literal spelled by `t`.
pub fn boolean_of(t: &[char]) -> (res: Result<bool, ErrorKind>)
    ensures
        res == boolean_spec(t@),
{
    let len = t.len();
    if len == 0 {
        return Err(ErrorKind::IncompleteInput);
    }
    let starts_true = len >= 4 && t[0] == 't' && t[1] == 'r' && t[2] == 'u' && t[3] == 'e';
    let starts_false = len >= 5 && t[0] == 'f' && t[1] == 'a' && t[2] == 'l' && t[3] == 's'
        && t[4] == 'e';
    proof {
        assert(starts_true <==> true_keyword().is_prefix_of(t@)) by {
            if starts_true {
                assert(t@.subrange(0, 4) =~= true_keyword());
            }
            if true_keyword().is_prefix_of(t@) {
                assert(t@.subrange(0, 4) == true_keyword());
                assert(t@[0] == t@.subrange(0, 4)[0]);
                assert(t@[1] == t@.subrange(0, 4)[1]);
                assert(t@[2] == t@.subrange(0, 4)[2]);
                assert(t@[3] == t@.subrange(0, 4)[3]);
            }
        }
        assert(starts_false <==> false_keyword().is_prefix_of(t@)) by {
            if starts_false {
                assert(t@.subrange(0, 5) =~= false_keyword());
            }
            if false_keyword().is_prefix_of(t@) {
                assert(t@.subrange(0, 5) == false_keyword());
                assert(t@[0] == t@.subrange(0, 5)[0]);
                assert(t@[1] == t@.subrange(0, 5)[1]);
                assert(t@[2] == t@.subrange(0, 5)[2]);
                assert(t@[3] == t@.subrange(0, 5)[3]);
                assert(t@[4] == t@.subrange(0, 5)[4]);
            }
        }
        if len == 4 {
            assert(t@.subrange(0, 4) =~= t@);
        }
        if len == 5 {
            assert(t@.subrange(0, 5) =~= t@);
        }
    }
    if starts_true {
        if len == 4 {
            Ok(true)
        } else {
            Err(ErrorKind::TrailingCharacters)
        }
    } else if starts_false {
        if len == 5 {
            Ok(false)
        } else {
            Err(ErrorKind::TrailingCharacters)
        }
    } else {
        Err(ErrorKind::NoAlternativeMatched)
    }
}

/// Reads a boolean literal: `true` or `false` and nothing else.
pub fn boolean(input: &str) -> (res: Result<bool, ErrorKind>)
    ensures
        res == boolean_spec(input@),
{
    let chars = chars_of(input);
    boolean_of(chars.as_slice())
}

} // verus!
