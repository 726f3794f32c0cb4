//! Days of the week, times of the day and instants.
//!
//! An instant is a number of seconds since 1970-01-01T00:00:00Z. The calendar
//! itself is the one of the `chrono` crate.

use vstd::prelude::*;

verus! {

/// The least instant that `chrono` can represent.
pub const MIN_UNIX: i64 = -8334601228800;

/// The greatest instant that `chrono` can represent.
pub const MAX_UNIX: i64 = 8210266876799;

/// A day of the week.
#[derive(Clone, Copy, Debug, PartialEq, Eq, Structural)]
pub enum Weekday {
    Mon,
    Tue,
    Wed,
    Thu,
    Fri,
    Sat,
    Sun,
}

impl Weekday {
    /// The number of days from Monday to this day.
    pub open spec fn number(self) -> int {
        match self {
            Weekday::Mon => 0,
            Weekday::Tue => 1,
            Weekday::Wed => 2,
            Weekday::Thu => 3,
            Weekday::Fri => 4,
            Weekday::Sat => 5,
            Weekday::Sun => 6,
        }
    }

    /// The day that comes `n` days after a Monday.
    pub open spec fn after_monday(n: int) -> Weekday {
        if n % 7 == 0 {
            Weekday::Mon
        } else if n % 7 == 1 {
            Weekday::Tue
        } else if n % 7 == 2 {
            Weekday::Wed
        } else if n % 7 == 3 {
            Weekday::Thu
        } else if n % 7 == 4 {
            Weekday::Fri
        } else if n % 7 == 5 {
            Weekday::Sat
        } else {
            Weekday::Sun
        }
    }

    /// The day that comes `n` days after a Monday.
    pub fn from_monday(n: u32) -> (day: Weekday)
        ensures
            day == Weekday::after_monday(n as int),
    {
        match n % 7 {
            0 => Weekday::Mon,
            1 => Weekday::Tue,
            2 => Weekday::Wed,
            3 => Weekday::Thu,
            4 => Weekday::Fri,
            5 => Weekday::Sat,
            _ => Weekday::Sun,
        }
    }

    /// The next day.
    pub fn succ(self) -> (day: Weekday)
        ensures
            day == Weekday::after_monday(self.number() + 1),
    {
        match self {
            Weekday::Mon => Weekday::Tue,
            Weekday::Tue => Weekday::Wed,
            Weekday::Wed => Weekday::Thu,
            Weekday::Thu => Weekday::Fri,
            Weekday::Fri => Weekday::Sat,
            Weekday::Sat => Weekday::Sun,
            Weekday::Sun => Weekday::Mon,
        }
    }
}

/// A day of the week and a time of that day, as a clock on the wall shows them.
#[derive(Clone, Copy, Debug, PartialEq, Eq, Structural)]
pub struct LocalTime {
    pub weekday: Weekday,
    pub hour: u32,
    pub minute: u32,
}

/// Whether `chrono` can represent the instant `unix`.
pub open spec fn representable(unix: int) -> bool {
    MIN_UNIX <= unix <= MAX_UNIX
}

/// Whether a ride that starts at `start` and takes `seconds` ends at an instant
/// that `chrono` can represent.
pub open spec fn eta_fits(start: int, seconds: int) -> bool {
    representable(start) && seconds >= 0 && representable(start + seconds)
}

/// The day of the week in UTC at the instant `unix`; the epoch was a Thursday.
pub open spec fn utc_weekday(unix: int) -> Weekday {
    Weekday::after_monday(unix / 86400 + 3)
}

/// What a clock that shows UTC reads at the instant `unix`.
pub open spec fn utc_reading(unix: int) -> LocalTime {
    LocalTime {
        weekday: utc_weekday(unix),
        hour: (unix % 86400 / 3600) as u32,
        minute: (unix % 3600 / 60) as u32,
    }
}

/// Calls `chrono::Datelike::weekday` on the instant `unix` in UTC, which
/// `chrono::DateTime::from_timestamp` makes, and `num_days_from_monday` on the
/// day. The days of the proleptic Gregorian calendar follow one another without
/// a gap, each of 86400 seconds, and the day of the epoch was a Thursday.
#[verifier::external_body]
fn utc_days_from_monday(unix: i64) -> (days: u32)
    requires
        representable(unix as int),
    ensures
        days == (unix as int / 86400 + 3) % 7,
{
    let at = chrono::DateTime::from_timestamp(unix, 0).unwrap();
    chrono::Datelike::weekday(&at).num_days_from_monday()
}

/// Calls `chrono::Timelike::hour` on the instant `unix` in UTC, which
/// `chrono::DateTime::from_timestamp` makes: the whole hours since midnight.
#[verifier::external_body]
fn utc_hour(unix: i64) -> (hour: u32)
    requires
        representable(unix as int),
    ensures
        hour == unix as int % 86400 / 3600,
{
    let at = chrono::DateTime::from_timestamp(unix, 0).unwrap();
    chrono::Timelike::hour(&at)
}

/// Calls `chrono::Timelike::minute` on the instant `unix` in UTC, which
/// `chrono::DateTime::from_timestamp` makes: the whole minutes since the hour.
#[verifier::external_body]
fn utc_minute(unix: i64) -> (minute: u32)
    requires
        representable(unix as int),
    ensures
        minute == unix as int % 3600 / 60,
{
    let at = chrono::DateTime::from_timestamp(unix, 0).unwrap();
    chrono::Timelike::minute(&at)
}

/// What `chrono::DateTime::parse_from_rfc3339` makes of a text: the instant that
/// it writes, or the message of the error.
pub uninterp spec fn rfc3339_reading(text: Seq<char>) -> Result<i64, Seq<char>>;

/// Calls `chrono::DateTime::parse_from_rfc3339`, and `timestamp` on the instant
/// or `to_string` on the error. The outcome is named; of an instant it is also
/// said that `chrono` can represent it.
#[verifier::external_body]
pub(crate) fn parse_rfc3339(text: &str) -> (outcome: Result<i64, String>)
    ensures
        match outcome {
            Ok(unix) => rfc3339_reading(text@) == Ok::<i64, Seq<char>>(unix) && representable(
                unix as int,
            ),
            Err(message) => rfc3339_reading(text@) == Err::<i64, Seq<char>>(message@),
        },
{
    match chrono::DateTime::parse_from_rfc3339(text) {
        Ok(at) => Ok(at.timestamp()),
        Err(error) => Err(error.to_string()),
    }
}

impl LocalTime {
    /// Whether this is a time of the day.
    pub open spec fn wf(self) -> bool {
        self.hour < 24 && self.minute < 60
    }

    /// The number of whole minutes since midnight.
    pub open spec fn minute_of_day(self) -> int {
        self.hour * 60 + self.minute
    }

    /// What a clock that shows UTC reads at the instant `unix`.
    pub fn utc(unix: i64) -> (at: LocalTime)
        requires
            representable(unix as int),
        ensures
            at == utc_reading(unix as int),
            at.wf(),
    {
        LocalTime {
            weekday: Weekday::from_monday(utc_days_from_monday(unix)),
            hour: utc_hour(unix),
            minute: utc_minute(unix),
        }
    }
}

/// Whether [`eta_unix`] can be asked.
pub fn has_eta(start: i64, seconds: i64) -> (fits: bool)
    ensures
        fits == eta_fits(start as int, seconds as int),
{
    MIN_UNIX <= start && start <= MAX_UNIX && seconds >= 0 && seconds <= MAX_UNIX - start
}

/// The instant at which a ride that starts at `start` and takes `seconds` ends.
pub fn eta_unix(start: i64, seconds: i64) -> (eta: i64)
    requires
        eta_fits(start as int, seconds as int),
    ensures
        eta == start + seconds,
{
    start + seconds
}

} // verus!
