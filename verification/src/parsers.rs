use vstd::prelude::*;
use chrono::NaiveDateTime;
use std::num::ParseIntError;
use std::str::ParseBoolError;
use vstd::string::StringExecFns;

use crate::clock::{DateTime, valid_moment};
use crate::text::{same_text, trim, trimmed};

verus! {

/// chrono's refusal of a date text, carried through unread.
#[verifier::external_type_specification]
#[verifier::external_body]
pub struct ExChronoParseError(chrono::ParseError);

/// The standard library's refusal of a count text, carried through unread.
#[verifier::external_type_specification]
#[verifier::external_body]
pub struct ExParseIntError(ParseIntError);

/// The standard library's refusal of a yes/no text, carried through unread.
#[verifier::external_type_specification]
#[verifier::external_body]
pub struct ExParseBoolError(ParseBoolError);

/// What `NaiveDateTime::parse_from_str(text, format)` reads, as the whole seconds since
/// 1970-01-01 00:00:00 and the nanoseconds past them (beyond a second in a leap second),
/// or `None` where it refuses the text.
pub uninterp spec fn parsed_date_time(text: Seq<char>, format: Seq<char>) -> Option<(i64, u32)>;

/// Whether every character of `digits` is an ASCII decimal digit.
pub open spec fn all_decimal_digits(digits: Seq<char>) -> bool {
    forall|i: int| 0 <= i < digits.len() ==> '0' <= #[trigger] digits[i] <= '9'
}

/// The number that the decimal digits `digits` write, most significant first.
pub open spec fn decimal_value(digits: Seq<char>) -> int
    decreases digits.len(),
{
    if digits.len() == 0 {
        0
    } else {
        decimal_value(digits.drop_last()) * 10 + (digits.last() as int - '0' as int)
    }
}

/// What `str::parse::<usize>` reads from `text`: an optional `+` followed by one or more
/// ASCII decimal digits whose value fits in `usize`; any other text is refused (`None`).
pub open spec fn parsed_count(text: Seq<char>) -> Option<usize> {
    let digits = if text.len() > 0 && text[0] == '+' {
        text.drop_first()
    } else {
        text
    };
    if digits.len() > 0 && all_decimal_digits(digits) && decimal_value(digits) <= usize::MAX {
        Some(decimal_value(digits) as usize)
    } else {
        None
    }
}

/// What `str::to_lowercase` gives for `text`.
pub uninterp spec fn lowercased(text: Seq<char>) -> Seq<char>;

/// Calls `chrono::NaiveDateTime::parse_from_str` and turns the moment read into the whole
/// seconds since 1970-01-01 00:00:00 (`and_utc().timestamp()`) and the nanoseconds past
/// them (`and_utc().timestamp_subsec_nanos()`). The contract claims that the answer is the
/// one named by [`parsed_date_time`], and that the moment is one chrono can hold: its
/// nanoseconds stay below two seconds and pass one second only in a leap second, after
/// the 59th second of a minute (`NaiveTime::from_hms_nano_opt`, through which parsing
/// builds the time).
#[verifier::external_body]
fn parse_date_time(text: &str, format: &str) -> (res: Result<DateTime, chrono::ParseError>)
    ensures
        match res {
            Ok(t) => parsed_date_time(text@, format@) == Some((t.secs, t.nanos)) && valid_moment(t),
            Err(_) => parsed_date_time(text@, format@) is None,
        },
{
    match NaiveDateTime::parse_from_str(text, format) {
        Ok(t) => Ok(
            DateTime {
                secs: t.and_utc().timestamp(),
                nanos: t.and_utc().timestamp_subsec_nanos(),
            },
        ),
        Err(e) => Err(e),
    }
}

/// Calls `str::parse::<usize>`, which reads an optional `+` and then one or more ASCII
/// decimal digits, refusing a value beyond `usize::MAX` (see [`parsed_count`]).
#[verifier::external_body]
fn parse_count(text: &str) -> (res: Result<usize, ParseIntError>)
    ensures
        match res {
            Ok(n) => parsed_count(text@) == Some(n),
            Err(_) => parsed_count(text@) is None,
        },
{
    text.parse::<usize>()
}

/// Calls `str::to_lowercase`; the contract claims only that the answer is the one named by
/// [`lowercased`].
#[verifier::external_body]
fn to_lowercase(text: &str) -> (res: String)
    ensures
        res@ == lowercased(text@),
{
    text.to_lowercase()
}

/// Calls `str::parse::<bool>`, which accepts exactly `true` and `false`.
#[verifier::external_body]
fn parse_truth(text: &str) -> (res: Result<bool, ParseBoolError>)
    ensures
        res is Ok <==> (text@ == "true"@ || text@ == "false"@),
        res matches Ok(b) ==> (b <==> text@ == "true"@),
{
    text.parse::<bool>()
}

/// The date format of the card sheets, with a 12-hour clock.
pub open spec fn twelve_hour_format() -> Seq<char> {
    "%m/%d/%Y %I:%M %p"@
}

/// The date format of the card sheets, with a 24-hour clock and seconds.
pub open spec fn twenty_four_hour_format() -> Seq<char> {
    "%m/%d/%Y %H:%M:%S"@
}

/// The moment that `text` is read as under `format`.
pub open spec fn date_time_reading(text: Seq<char>, format: Seq<char>) -> Option<DateTime> {
    match parsed_date_time(text, format) {
        Some((secs, nanos)) => Some(DateTime { secs, nanos }),
        None => None,
    }
}

/// The moment in a date cell: the trimmed text read with a 12-hour clock, or failing
/// that with a 24-hour clock.
pub open spec fn date_cell(text: Seq<char>) -> Option<DateTime> {
    let t = trimmed(text);
    match date_time_reading(t, twelve_hour_format()) {
        Some(d) => Some(d),
        None => date_time_reading(t, twenty_four_hour_format()),
    }
}

/// Whether an optional cell holds nothing: it is empty, or says `Unknown` once trimmed.
pub open spec fn blank_cell(text: Seq<char>) -> bool {
    text.len() == 0 || trimmed(text) == "Unknown"@
}

/// Reads a date cell (see [`date_cell`]).
pub fn parse_date(text: &str) -> (res: Option<DateTime>)
    ensures
        res == date_cell(text@),
{
    let t = trim(text);
    match parse_date_time(t, "%m/%d/%Y %I:%M %p") {
        Ok(d) => Some(d),
        Err(_) => match parse_date_time(t, "%m/%d/%Y %H:%M:%S") {
            Ok(d) => Some(d),
            Err(_) => None,
        },
    }
}

/// Reads `text` with a 12-hour clock.
pub fn read_twelve_hour(text: &str) -> (res: Option<DateTime>)
    ensures
        res == date_time_reading(text@, twelve_hour_format()),
{
    match parse_date_time(text, "%m/%d/%Y %I:%M %p") {
        Ok(d) => Some(d),
        Err(_) => None,
    }
}

/// Whether `text` is a blank cell (see [`blank_cell`]).
fn is_blank(text: &str) -> (res: bool)
    ensures
        res == blank_cell(text@),
{
    if text.unicode_len() == 0 {
        true
    } else {
        same_text(trim(text), "Unknown")
    }
}

/// Reads an optional date cell: nothing when blank, else the untrimmed text read with a
/// 12-hour clock, refused with chrono's error when it does not read.
pub fn parse_optional_date(text: &str) -> (res: Result<Option<DateTime>, chrono::ParseError>)
    ensures
        blank_cell(text@) ==> res matches Ok(None),
        !blank_cell(text@) ==> {
            &&& res is Ok <==> date_time_reading(text@, twelve_hour_format()) is Some
            &&& res matches Ok(d) ==> d == date_time_reading(text@, twelve_hour_format())
        },
{
    if is_blank(text) {
        return Ok(None);
    }
    match parse_date_time(text, "%m/%d/%Y %I:%M %p") {
        Ok(d) => Ok(Some(d)),
        Err(e) => Err(e),
    }
}

/// Reads an optional count cell: nothing when blank, else the trimmed text read as a
/// count, refused with the standard library's error when it does not read.
pub fn parse_optional_number(text: &str) -> (res: Result<Option<usize>, ParseIntError>)
    ensures
        blank_cell(text@) ==> res matches Ok(None),
        !blank_cell(text@) ==> {
            &&& res is Ok <==> parsed_count(trimmed(text@)) is Some
            &&& res matches Ok(n) ==> n == parsed_count(trimmed(text@))
        },
{
    if is_blank(text) {
        return Ok(None);
    }
    match parse_count(trim(text)) {
        Ok(n) => Ok(Some(n)),
        Err(e) => Err(e),
    }
}

/// Reads a yes/no cell: the trimmed, lowercased text must be `true` or `false`.
pub fn parse_bool(text: &str) -> (res: Result<bool, ParseBoolError>)
    ensures
        res is Ok <==> (lowercased(trimmed(text@)) == "true"@ || lowercased(trimmed(text@))
            == "false"@),
        res matches Ok(b) ==> (b <==> lowercased(trimmed(text@)) == "true"@),
{
    let lowered = to_lowercase(trim(text));
    parse_truth(lowered.as_str())
}

/// The moment `clock` (as `HH:MM:SS`) on the day `date` (as `MM-DD`) of 2026.
pub open spec fn moment_reading(date: Seq<char>, clock: Seq<char>) -> Option<DateTime> {
    date_time_reading("2026-"@ + date + " "@ + clock, "%Y-%m-%d %H:%M:%S"@)
}

/// Reads the moment `clock` (as `HH:MM:SS`) on the day `date` (as `MM-DD`) of 2026.
pub fn moment_of_day(date: &str, clock: &str) -> (res: Option<DateTime>)
    ensures
        res == moment_reading(date@, clock@),
{
    let mut text = String::from_str("2026-");
    text.append(date);
    text.append(" ");
    text.append(clock);
    match parse_date_time(text.as_str(), "%Y-%m-%d %H:%M:%S") {
        Ok(d) => Some(d),
        Err(_) => None,
    }
}

} // verus!
