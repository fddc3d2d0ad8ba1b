//! Date literals: a year of four digits, a month of two and a day of two,
//! joined by dashes.

use crate::alphabet::is_decimal;
use crate::error::ErrorKind;
use crate::text::{chars_of, string_of};
use vstd::prelude::*;
use vstd::slice::slice_subrange;
use vstd::string::StringExecFns;

verus! {

/// A date. Only the calendar date is read: `time` and `zone` stay empty.
#[derive(Debug, PartialEq, Eq)]
pub struct Datetime {
    /// Year, month and day as `YYYY-MM-DD`.
    pub date: String,
    /// Always empty.
    pub time: String,
    /// Always empty.
    pub zone: String,
}

/// What a [`Datetime`] holds.
pub struct DatetimeView {
    pub date: Seq<char>,
    pub time: Seq<char>,
    pub zone: Seq<char>,
}

impl View for Datetime {
    type V = DatetimeView;

    open spec fn view(&self) -> DatetimeView {
        DatetimeView { date: self.date@, time: self.time@, zone: self.zone@ }
    }
}

/// Whether `t` begins with four decimal digits, a dash, two decimal digits, a
/// dash and two decimal digits.
pub open spec fn date_shaped(t: Seq<char>) -> bool {
    &&& t.len() >= 10
    &&& is_decimal(t[0]) && is_decimal(t[1]) && is_decimal(t[2]) && is_decimal(t[3])
    &&& t[4] == '-'
    &&& is_decimal(t[5]) && is_decimal(t[6])
    &&& t[7] == '-'
    &&& is_decimal(t[8]) && is_decimal(t[9])
}

impl Datetime {
    /// Whether the date has the shape `YYYY-MM-DD` and nothing more, and time
    /// and zone are empty.
    pub open spec fn well_formed(&self) -> bool {
        &&& date_shaped(self.date@)
        &&& self.date@.len() == 10
        &&& self.time@.len() == 0
        &&& self.zone@.len() == 0
    }
}

/// The date that the first ten characters of `t` spell: the three groups of
/// digits with a dash between them.
pub open spec fn date_of(t: Seq<char>) -> DatetimeView {
    DatetimeView {
        date: t.subrange(0, 4) + seq!['-'] + t.subrange(5, 7) + seq!['-'] + t.subrange(8, 10),
        time: Seq::empty(),
        zone: Seq::empty(),
    }
}

/// A date literal is a text of exactly the shape `YYYY-MM-DD`. A text that
/// goes on behind a date has trailing characters; any other text is no date
/// at all.
pub open spec fn datetime_spec(t: Seq<char>) -> Result<DatetimeView, ErrorKind> {
    if t.len() == 0 {
        Err(ErrorKind::IncompleteInput)
    } else if !date_shaped(t) {
        Err(ErrorKind::NoAlternativeMatched)
    } else if t.len() > 10 {
        Err(ErrorKind::TrailingCharacters)
    } else {
        Ok(date_of(t))
    }
}

/// The date of a date literal is the literal itself: joining the three
/// groups of digits with dashes gives back the text they were read from.
pub proof fn lemma_date_is_the_text(t: Seq<char>)
    requires
        datetime_spec(t) is Ok,
    ensures
        datetime_spec(t)->Ok_0.date == t,
{
    assert(date_of(t).date =~= t);
}

/// Whether `c` is a decimal digit.
fn decimal(c: char) -> (b: bool)
    ensures
        b == is_decimal(c),
{
    '0' <= c && c <= '9'
}

/// Reads the date literal spelled by `t`.
pub fn datetime_of(t: &[char]) -> (res: Result<Datetime, ErrorKind>)
    ensures
        res is Ok <==> datetime_spec(t@) is Ok,
        res matches Err(e) ==> datetime_spec(t@) == Err::<DatetimeView, ErrorKind>(e),
        res matches Ok(d) ==> datetime_spec(t@) == Ok::<DatetimeView, ErrorKind>(d@),
        res matches Ok(d) ==> d.well_formed(),
{
    if t.len() == 0 {
        return Err(ErrorKind::IncompleteInput);
    }
    let shaped = t.len() >= 10 && decimal(t[0]) && decimal(t[1]) && decimal(t[2]) && decimal(t[3])
        && t[4] == '-' && decimal(t[5]) && decimal(t[6]) && t[7] == '-' && decimal(t[8])
        && decimal(t[9]);
    if !shaped {
        return Err(ErrorKind::NoAlternativeMatched);
    }
    if t.len() > 10 {
        return Err(ErrorKind::TrailingCharacters);
    }
    let mut date = string_of(slice_subrange(t, 0, 4));
    date.push('-');
    date.append(string_of(slice_subrange(t, 5, 7)).as_str());
    date.push('-');
    date.append(string_of(slice_subrange(t, 8, 10)).as_str());
    assert(date@ =~= date_of(t@).date);
    Ok(Datetime { date, time: String::new(), zone: String::new() })
}

/// Reads a date literal: `YYYY-MM-DD` and nothing else.
pub fn datetime(input: &str) -> (res: Result<Datetime, ErrorKind>)
    ensures
        res is Ok <==> datetime_spec(input@) is Ok,
        res matches Err(e) ==> datetime_spec(input@) == Err::<DatetimeView, ErrorKind>(e),
        res matches Ok(d) ==> datetime_spec(input@) == Ok::<DatetimeView, ErrorKind>(d@),
        res matches Ok(d) ==> d.well_formed(),
{
    let chars = chars_of(input);
    datetime_of(chars.as_slice())
}

} // verus!
