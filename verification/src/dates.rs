//! Instants and calendar dates. An instant is a count of seconds since the
//! start of 1970 in UTC; the calendar itself is left to `chrono`.

use crate::text::{
    chars_of, read_u32, spans_text, spans_within, split_on, split_spans, unsigned_decimal,
};
use vstd::prelude::*;

verus! {

/// The instant that `text` names when read as an RFC 3339 date and time, in
/// seconds since the start of 1970 in UTC, if `text` is such a date.
pub uninterp spec fn rfc3339_seconds(text: Seq<char>) -> Option<int>;

/// The instant at which the given time of the given day begins in UTC, in
/// seconds since the start of 1970, if there is such a day and time.
pub uninterp spec fn utc_seconds(
    year: int,
    month: int,
    day: int,
    hour: int,
    minute: int,
    second: int,
) -> Option<int>;

/// Calls `chrono::DateTime::parse_from_rfc3339` and, on success,
/// `DateTime::timestamp` on what it returned. The contract only names the
/// outcome `rfc3339_seconds`: the same text always gives the same instant,
/// or is always refused.
#[verifier::external_body]
pub(crate) fn parse_rfc3339(text: &str) -> (r: Option<i64>)
    ensures
        match r {
            Some(seconds) => rfc3339_seconds(text@) == Some(seconds as int),
            None => rfc3339_seconds(text@) is None,
        },
{
    match chrono::DateTime::parse_from_rfc3339(text) {
        Ok(instant) => Some(instant.timestamp()),
        Err(_) => None,
    }
}

/// Calls `chrono::TimeZone::with_ymd_and_hms` on `chrono::Utc` and, where
/// it names a single instant, `DateTime::timestamp` on that instant. The
/// contract only names the outcome `utc_seconds`: the same six numbers
/// always give the same instant, or are always refused.
#[verifier::external_body]
pub(crate) fn utc_instant(
    year: i32,
    month: u32,
    day: u32,
    hour: u32,
    minute: u32,
    second: u32,
) -> (r: Option<i64>)
    ensures
        match r {
            Some(seconds) => utc_seconds(
                year as int,
                month as int,
                day as int,
                hour as int,
                minute as int,
                second as int,
            ) == Some(seconds as int),
            None => utc_seconds(
                year as int,
                month as int,
                day as int,
                hour as int,
                minute as int,
                second as int,
            ) is None,
        },
{
    match chrono::TimeZone::with_ymd_and_hms(&chrono::Utc, year, month, day, hour, minute, second) {
        chrono::LocalResult::Single(instant) => Some(instant.timestamp()),
        chrono::LocalResult::Ambiguous(_, _) => None,
        chrono::LocalResult::None => None,
    }
}

/// Why a calendar date could not be read.
#[derive(Debug, Clone, Copy, PartialEq, Eq, Structural)]
pub enum DateError {
    /// A field between the hyphens is no unsigned 32-bit decimal number.
    NotANumber,
    /// The text has fewer than three fields.
    MissingField,
    /// The text has more than three fields.
    ExtraField,
    /// The three numbers name no day of the calendar.
    NoSuchDay,
}

/// The year, month and day that `text` writes as `year-month-day`: exactly
/// three fields between hyphens, each of them a number.
pub open spec fn date_fields(text: Seq<char>) -> Result<(int, int, int), DateError> {
    let fields = split_on(text, '-');
    if exists|k: int|
        0 <= k < fields.len() && unsigned_decimal(#[trigger] fields[k], u32::MAX as int) is None {
        Err(DateError::NotANumber)
    } else if fields.len() < 3 {
        Err(DateError::MissingField)
    } else if fields.len() > 3 {
        Err(DateError::ExtraField)
    } else {
        Ok(
            (
                unsigned_decimal(fields[0], u32::MAX as int)->0,
                unsigned_decimal(fields[1], u32::MAX as int)->0,
                unsigned_decimal(fields[2], u32::MAX as int)->0,
            ),
        )
    }
}

/// The instant at which the day that `text` names begins in UTC. A year
/// above `i32::MAX` is a year of no calendar.
pub open spec fn date_seconds(text: Seq<char>) -> Result<int, DateError> {
    match date_fields(text) {
        Err(e) => Err(e),
        Ok((year, month, day)) => if year > i32::MAX {
            Err(DateError::NoSuchDay)
        } else {
            match utc_seconds(year, month, day, 0, 0, 0) {
                Some(seconds) => Ok(seconds),
                None => Err(DateError::NoSuchDay),
            }
        },
    }
}

/// Reads the three numbers of a date written as `year-month-day`.
pub fn parse_date_fields(text: &str) -> (r: Result<(u32, u32, u32), DateError>)
    ensures
        match r {
            Ok((year, month, day)) => date_fields(text@) == Ok::<(int, int, int), DateError>(
                (year as int, month as int, day as int),
            ),
            Err(e) => date_fields(text@) == Err::<(int, int, int), DateError>(e),
        },
{
    let chars = chars_of(text);
    let spans = split_spans(&chars, '-');
    let ghost fields = split_on(text@, '-');
    let mut numbers: Vec<u32> = Vec::new();
    let mut k: usize = 0;
    while k < spans.len()
        invariant
            k <= spans@.len(),
            chars@ == text@,
            fields == split_on(text@, '-'),
            spans_within(spans@, chars@.len() as int),
            spans_text(chars@, spans@) == fields,
            numbers@.len() == k,
            forall|j: int|
                0 <= j < k ==> unsigned_decimal(#[trigger] fields[j], u32::MAX as int) == Some(
                    numbers@[j] as int,
                ),
        decreases spans.len() - k,
    {
        let (lo, hi) = spans[k];
        proof {
            assert(fields[k as int] == chars@.subrange(lo as int, hi as int));
        }
        match read_u32(&chars, lo, hi) {
            Some(n) => {
                numbers.push(n);
            },
            None => {
                return Err(DateError::NotANumber);
            },
        }
        k += 1;
    }
    if numbers.len() < 3 {
        return Err(DateError::MissingField);
    }
    if numbers.len() > 3 {
        return Err(DateError::ExtraField);
    }
    Ok((numbers[0], numbers[1], numbers[2]))
}

/// Reads a date written as `year-month-day` and returns the instant at
/// which that day begins in UTC.
pub fn parse_date(text: &str) -> (r: Result<i64, DateError>)
    ensures
        match r {
            Ok(seconds) => date_seconds(text@) == Ok::<int, DateError>(seconds as int),
            Err(e) => date_seconds(text@) == Err::<int, DateError>(e),
        },
{
    match parse_date_fields(text) {
        Err(e) => Err(e),
        Ok((year, month, day)) => {
            if year > 0x7FFF_FFFF {
                return Err(DateError::NoSuchDay);
            }
            match utc_instant(year as i32, month, day, 0, 0, 0) {
                Some(seconds) => Ok(seconds),
                None => Err(DateError::NoSuchDay),
            }
        },
    }
}

/// An inclusive range of instants. A window whose start lies after its end
/// is accepted; it holds no instant.
#[derive(Debug, Clone, Copy, PartialEq, Eq, Structural)]
pub struct DateWindow {
    /// The first instant of the window.
    pub from: i64,
    /// The last instant of the window.
    pub to: i64,
}

impl DateWindow {
    /// The instant lies in the window; both ends belong to it.
    pub open spec fn holds(&self, seconds: int) -> bool {
        self.from <= seconds <= self.to
    }

    /// The instant lies before the start of the window.
    pub open spec fn is_after(&self, seconds: int) -> bool {
        seconds < self.from
    }

    /// The window from `from` to `to`, both included.
    pub fn new(from: i64, to: i64) -> (w: DateWindow)
        ensures
            w.from == from,
            w.to == to,
    {
        DateWindow { from, to }
    }

    /// The window from the start of the day `from` to the start of the day
    /// `to`, both dates written as `year-month-day`. Where both dates are
    /// refused, the error is that of `from`.
    pub fn from_dates(from: &str, to: &str) -> (r: Result<DateWindow, DateError>)
        ensures
            match r {
                Ok(w) => date_seconds(from@) == Ok::<int, DateError>(w.from as int)
                    && date_seconds(to@) == Ok::<int, DateError>(w.to as int),
                Err(e) => date_seconds(from@) == Err::<int, DateError>(e) || (date_seconds(
                    from@,
                ) is Ok && date_seconds(to@) == Err::<int, DateError>(e)),
            },
    {
        let start = match parse_date(from) {
            Ok(seconds) => seconds,
            Err(e) => return Err(e),
        };
        match parse_date(to) {
            Ok(end) => Ok(DateWindow { from: start, to: end }),
            Err(e) => Err(e),
        }
    }

    /// Tells whether the instant lies in the window.
    pub fn contains(&self, seconds: i64) -> (r: bool)
        ensures
            r == self.holds(seconds as int),
    {
        self.from <= seconds && seconds <= self.to
    }

    /// Tells whether the window starts after the instant.
    pub fn starts_after(&self, seconds: i64) -> (r: bool)
        ensures
            r == self.is_after(seconds as int),
    {
        seconds < self.from
    }
}

/// A window whose start lies after its end holds no instant.
pub proof fn lemma_inverted_window_holds_nothing(w: DateWindow, seconds: int)
    requires
        w.from > w.to,
    ensures
        !w.holds(seconds),
{
}

} // verus!
