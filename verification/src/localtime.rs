//! Local time of the feed's zone, Europe/Tallinn: the current date there,
//! and the UTC instant of a local date and time of day.
//!
//! A date is written as its day number in the proleptic Gregorian calendar,
//! with 1 January of year 1 as day 1.

use chrono::{Datelike, LocalResult, NaiveDate, NaiveDateTime, NaiveTime, TimeZone, Utc};
use chrono_tz::Europe::Tallinn;
use vstd::prelude::*;

verus! {

/// What a local date and time of day in Tallinn resolves to. The instants are
/// written in RFC 3339 form, in UTC.
#[derive(Debug, PartialEq, Eq)]
pub enum LocalResolution {
    /// The local time occurs once.
    Single(String),
    /// The local time occurs twice, as clocks are set back: the earlier
    /// instant, then the later one.
    Ambiguous(String, String),
    /// The local time is skipped, as clocks are set forward.
    Gap,
    /// The day number names no date that the calendar library can hold.
    OutOfRange,
}

/// The view of a [`LocalResolution`].
pub enum LocalResolutionView {
    Single(Seq<char>),
    Ambiguous(Seq<char>, Seq<char>),
    Gap,
    OutOfRange,
}

impl DeepView for LocalResolution {
    type V = LocalResolutionView;

    open spec fn deep_view(&self) -> LocalResolutionView {
        match self {
            LocalResolution::Single(t) => LocalResolutionView::Single(t@),
            LocalResolution::Ambiguous(a, b) => LocalResolutionView::Ambiguous(a@, b@),
            LocalResolution::Gap => LocalResolutionView::Gap,
            LocalResolution::OutOfRange => LocalResolutionView::OutOfRange,
        }
    }
}

/// The resolution of `seconds` after midnight on day `day`, local time in
/// Tallinn, by the time zone database.
pub uninterp spec fn tallinn_utc(day: int, seconds: int) -> LocalResolutionView;

/// `TimeZone::from_local_datetime` of `chrono_tz::Europe::Tallinn`, on the
/// date with day number `day` and the time `seconds` after midnight, each
/// instant converted to UTC and written by `DateTime::to_rfc3339`. A day
/// number or a time of day that chrono refuses gives `OutOfRange`.
#[verifier::external_body]
fn resolve_tallinn(day: i32, seconds: u32) -> (r: LocalResolution)
    ensures
        r.deep_view() == tallinn_utc(day as int, seconds as int),
{
    let (Some(date), Some(time)) = (
        NaiveDate::from_num_days_from_ce_opt(day),
        NaiveTime::from_num_seconds_from_midnight_opt(seconds, 0),
    ) else {
        return LocalResolution::OutOfRange;
    };
    match Tallinn.from_local_datetime(&NaiveDateTime::new(date, time)) {
        LocalResult::Single(t) => LocalResolution::Single(t.with_timezone(&Utc).to_rfc3339()),
        LocalResult::Ambiguous(a, b) => LocalResolution::Ambiguous(
            a.with_timezone(&Utc).to_rfc3339(),
            b.with_timezone(&Utc).to_rfc3339(),
        ),
        LocalResult::None => LocalResolution::Gap,
    }
}

/// `Utc::now`, seen in Tallinn: the day number of the current date there.
#[verifier::external_body]
pub(crate) fn tallinn_today() -> (day: i32) {
    Utc::now().with_timezone(&Tallinn).date_naive().num_days_from_ce()
}

/// The seconds of one day.
pub const SECONDS_PER_DAY: u32 = 86400;

/// The UTC time, in RFC 3339 form, of a departure given in seconds after
/// local midnight of day `day`, or why there is none.
///
/// A count of 86400 or more means the next day: the day advances by one,
/// and the time of day is the count modulo 86400. A local time that occurs
/// twice means its earlier occurrence; one that is skipped is an error.
pub open spec fn local_seconds_to_utc(day: int, seconds: int) -> Result<Seq<char>, Seq<char>> {
    let time = seconds % 86400;
    let date = if seconds >= 86400 {
        day + 1
    } else {
        day
    };
    if date > i32::MAX {
        Err("date overflow"@)
    } else {
        match tallinn_utc(date, time) {
            LocalResolutionView::Single(t) => Ok(t),
            LocalResolutionView::Ambiguous(earlier, _) => Ok(earlier),
            LocalResolutionView::Gap => Err(
                "Local time does not exist in Tallinn today (DST gap)"@,
            ),
            LocalResolutionView::OutOfRange => Err("date overflow"@),
        }
    }
}

/// `r` is the answer `expected`, as text.
pub open spec fn is_time_answer(
    r: Result<String, &'static str>,
    expected: Result<Seq<char>, Seq<char>>,
) -> bool {
    match expected {
        Ok(t) => r matches Ok(s) && s@ == t,
        Err(m) => r matches Err(e) && e@ == m,
    }
}

/// Converts seconds after local midnight of the reference day to a UTC time
/// in RFC 3339 form.
pub fn local_seconds_to_utc_iso(reference_day: i32, seconds_from_midnight: u32) -> (r: Result<
    String,
    &'static str,
>)
    ensures
        is_time_answer(r, local_seconds_to_utc(reference_day as int, seconds_from_midnight as int)),
{
    let is_next_day = seconds_from_midnight >= SECONDS_PER_DAY;
    let time: u32 = seconds_from_midnight % SECONDS_PER_DAY;
    let date: i32 = if is_next_day {
        if reference_day == i32::MAX {
            return Err("date overflow");
        }
        reference_day + 1
    } else {
        reference_day
    };
    match resolve_tallinn(date, time) {
        LocalResolution::Single(t) => Ok(t),
        LocalResolution::Ambiguous(earlier, _) => Ok(earlier),
        LocalResolution::Gap => Err("Local time does not exist in Tallinn today (DST gap)"),
        LocalResolution::OutOfRange => Err("date overflow"),
    }
}

/// Converts seconds after local midnight of the current date in Tallinn to a
/// UTC time in RFC 3339 form. The answer is that of
/// [`local_seconds_to_utc_iso`] for the day on which the call is made.
pub fn seconds_from_midnight_to_utc_iso(seconds_from_midnight: u32) -> (r: Result<
    String,
    &'static str,
>)
    ensures
        exists|day: int|
            i32::MIN <= day <= i32::MAX && is_time_answer(
                r,
                #[trigger] local_seconds_to_utc(day, seconds_from_midnight as int),
            ),
{
    let today = tallinn_today();
    local_seconds_to_utc_iso(today, seconds_from_midnight)
}

/// Next-day wraparound: a count of seconds that runs into the next day
/// resolves as the rest of the count does on the day after the reference
/// day.
pub proof fn lemma_next_day_wraparound(day: int, seconds: int)
    requires
        86400 <= seconds,
        day < i32::MAX,
    ensures
        local_seconds_to_utc(day, seconds) == local_seconds_to_utc(day + 1, seconds % 86400),
{
}

/// A local time that occurs twice resolves to its earlier occurrence, and a
/// local time that is skipped is an error.
pub proof fn lemma_dst_disambiguation(day: int, seconds: int)
    requires
        0 <= seconds < 86400,
        day <= i32::MAX,
    ensures
        tallinn_utc(day, seconds) matches LocalResolutionView::Ambiguous(earlier, later)
            ==> local_seconds_to_utc(day, seconds) == Ok::<Seq<char>, Seq<char>>(earlier),
        tallinn_utc(day, seconds) is Gap ==> local_seconds_to_utc(day, seconds) is Err,
{
}

} // verus!
