//! Calendar days and local wall-clock instants.
//!
//! A day is its number in the proleptic Gregorian calendar counted the way
//! chrono's `Datelike::num_days_from_ce` counts (0001-01-01 is day 1, a Monday).
//! An instant is a day plus the minute of that day (local wall clock). Days are
//! plain integers here, so "the next day" is `day + 1`; chrono is asked only to
//! parse and print `YYYY-MM-DD`. Reading the machine's clock and time zone is
//! left to the caller, which hands over the day, hour and minute it read
//! (`LocalTime::from_parts`).

use vstd::prelude::*;
use chrono::Datelike;

verus! {

/// Minutes in one day.
pub const MINUTES_PER_DAY: u32 = 1440;

/// Bound on day numbers handled here; chrono's own calendar range
/// (about ±262 000 years, i.e. under 10^8 days) lies well inside it.
pub open spec fn valid_day(d: int) -> bool {
    -1_000_000_000 <= d <= 1_000_000_000
}

/// Day numbers that day arithmetic here (a valid day plus a few years) stays in.
pub open spec fn near_day(d: int) -> bool {
    -2_000_000_000 <= d <= 2_000_000_000
}

/// ISO weekday of a day number: Monday = 1 .. Sunday = 7 (day 1 is a Monday).
pub open spec fn weekday_of(d: int) -> int {
    (d - 1) % 7 + 1
}

/// A local wall-clock instant at minute resolution.
#[derive(Clone, Copy, Debug, PartialEq, Eq, Structural)]
pub struct LocalTime {
    /// Day number (see the module documentation).
    pub day: i64,
    /// Minute of the day, 0 ..= 1439.
    pub minute: u32,
}

impl LocalTime {
    pub open spec fn wf(self) -> bool {
        self.minute < MINUTES_PER_DAY && valid_day(self.day as int)
    }

    /// Minutes since the start of day 0; orders instants.
    pub open spec fn stamp(self) -> int {
        self.day * 1440 + self.minute
    }

    /// The instant at `hour`:`minute` of day `day`, as a clock reading gives
    /// them; `None` when the day lies outside `valid_day`, the hour is 24 or more,
    /// or the minute is 60 or more.
    pub fn from_parts(day: i64, hour: u32, minute: u32) -> (r: Option<LocalTime>)
        ensures
            r is Some <==> (valid_day(day as int) && hour < 24 && minute < 60),
            r matches Some(t) ==> t.day == day && t.minute == hour * 60 + minute && t.wf(),
    {
        if -1_000_000_000 <= day && day <= 1_000_000_000 && hour < 24 && minute < 60 {
            Some(LocalTime { day, minute: hour * 60 + minute })
        } else {
            None
        }
    }

    /// Strictly earlier than `other`.
    pub fn is_before(&self, other: &LocalTime) -> (r: bool)
        requires
            self.minute < MINUTES_PER_DAY,
            other.minute < MINUTES_PER_DAY,
        ensures
            r == (self.stamp() < other.stamp()),
    {
        proof {
            lemma_stamp_order(*self, *other);
        }
        self.day < other.day || (self.day == other.day && self.minute < other.minute)
    }
}

/// Instants compare as (day, minute) pairs.
pub proof fn lemma_stamp_order(a: LocalTime, b: LocalTime)
    requires
        a.minute < MINUTES_PER_DAY,
        b.minute < MINUTES_PER_DAY,
    ensures
        (a.stamp() < b.stamp()) == (a.day < b.day || (a.day == b.day && a.minute < b.minute)),
        (a.stamp() == b.stamp()) == (a.day == b.day && a.minute == b.minute),
{
    if a.day < b.day {
        assert(a.day * 1440 + 1440 <= b.day * 1440) by (nonlinear_arith)
            requires
                a.day < b.day,
        ;
    } else if a.day > b.day {
        assert(b.day * 1440 + 1440 <= a.day * 1440) by (nonlinear_arith)
            requires
                b.day < a.day,
        ;
    }
}

/// ISO weekday number (Monday = 1 .. Sunday = 7) of a day.
pub fn weekday(d: i64) -> (r: u8)
    requires
        near_day(d as int),
    ensures
        r as int == weekday_of(d as int),
        1 <= r <= 7,
{
    let shifted: i64 = d - 1 + 7_000_000_000;
    let r = (shifted % 7) as u8;
    assert((d as int - 1) % 7 == (shifted as int) % 7) by {
        assert(shifted as int == (d as int - 1) + 7 * 1_000_000_000);
        vstd::arithmetic::div_mod::lemma_mod_multiples_vanish(
            1_000_000_000,
            d as int - 1,
            7,
        );
    }
    assert(shifted >= 0);
    r + 1
}

/// `YYYY-MM-DD` text of a day number, as chrono prints it.
pub uninterp spec fn iso_text(day: i64) -> Seq<char>;

/// Day that chrono parses from `YYYY-MM-DD` text (`None` when it refuses the text).
pub uninterp spec fn parsed_iso_day(text: Seq<char>) -> Option<i64>;

/// Calls `chrono::NaiveDate::from_num_days_from_ce_opt` and formats the date with
/// `%Y-%m-%d`. Claims only that the text is the name `iso_text` of the day; a day
/// outside chrono's range gives the empty text.
#[verifier::external_body]
pub(crate) fn iso_date(day: i64) -> (r: String)
    ensures
        r@ == iso_text(day),
{
    match i32::try_from(day).ok().and_then(chrono::NaiveDate::from_num_days_from_ce_opt) {
        Some(d) => d.format("%Y-%m-%d").to_string(),
        None => String::new(),
    }
}

/// Calls `chrono::NaiveDate::parse_from_str(text, "%Y-%m-%d")` and
/// `Datelike::num_days_from_ce`. Claims: the result is the name `parsed_iso_day`
/// of the text, and a parsed day lies inside chrono's range.
#[verifier::external_body]
pub(crate) fn parse_iso_day(text: &str) -> (r: Option<i64>)
    ensures
        r == parsed_iso_day(text@),
        r matches Some(d) ==> valid_day(d as int),
{
    chrono::NaiveDate::parse_from_str(text, "%Y-%m-%d").ok().map(|d| d.num_days_from_ce() as i64)
}

/// A clock that always answers the instant it was built with.
#[derive(Clone, Copy, Debug)]
pub struct FixedClock(pub LocalTime);

impl FixedClock {
    /// The fixed instant.
    pub fn now(&self) -> (r: LocalTime)
        ensures
            r == self.0,
    {
        self.0
    }
}

} // verus!
