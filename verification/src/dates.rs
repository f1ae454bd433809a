//! Date-time values for aggregation: a date-time is held as whole seconds
//! since the Unix epoch, so ordering and differences are plain integer
//! work; parsing with a caller-supplied format and rendering are done by
//! `chrono` behind trusted wrappers.

use crate::decimal::{dec_div_of, DecimalWrapper};
use chrono::{NaiveDate, NaiveDateTime};
use vstd::prelude::*;

verus! {

/// A strict bound on any timestamp `chrono` can produce: its years span
/// about ±262,000, roughly ±8.3e12 seconds from the epoch.
pub const TS_BOUND: i64 = 10_000_000_000_000;

/// Seconds in a civil day.
pub const SECONDS_PER_DAY: i64 = 86400;

/// A parsed date-time, as whole seconds since the Unix epoch.
#[derive(Clone, Copy, Debug, PartialEq, Eq, Structural)]
pub struct CustomDateObject {
    pub ts: i64,
}

impl View for CustomDateObject {
    type V = CustomDateObject;

    open spec fn view(&self) -> CustomDateObject {
        *self
    }
}

/// Timestamps lie strictly within the representable range.
pub open spec fn date_inv(d: CustomDateObject) -> bool {
    -TS_BOUND < d.ts < TS_BOUND
}

/// What `chrono`'s `NaiveDateTime::parse_from_str` yields for a string and
/// format, as a timestamp.
pub uninterp spec fn dt_parse_of(s: Seq<char>, fmt: Seq<char>) -> Option<int>;

/// What `chrono`'s `NaiveDate::parse_from_str` yields for a string and
/// format, as the timestamp of that date's midnight.
pub uninterp spec fn date_parse_of(s: Seq<char>, fmt: Seq<char>) -> Option<int>;

/// What `chrono` renders for a timestamp in `%Y-%m-%d %H:%M:%S` form.
pub uninterp spec fn dt_str_of(ts: int) -> Seq<char>;

/// Relies on chrono's `NaiveDateTime::parse_from_str`: success and the
/// parsed instant are functions of the string and format alone, named
/// `dt_parse_of`; any parsed timestamp lies within chrono's year range.
/// Converts through `and_utc().timestamp()`.
#[verifier::external_body]
fn raw_parse_datetime(s: &str, fmt: &str) -> (r: Option<i64>)
    ensures
        match r {
            Some(ts) => dt_parse_of(s@, fmt@) == Some(ts as int) && -TS_BOUND < ts < TS_BOUND,
            None => dt_parse_of(s@, fmt@) is None,
        },
{
    match NaiveDateTime::parse_from_str(s, fmt) {
        Ok(dt) => Some(dt.and_utc().timestamp()),
        Err(_) => None,
    }
}

/// Relies on chrono's `NaiveDate::parse_from_str`: success and the parsed
/// day are functions of the string and format alone, named `date_parse_of`
/// as the timestamp of that day's midnight; any parsed timestamp lies
/// within chrono's year range. Converts through `and_hms_opt(0, 0, 0)` and
/// `and_utc().timestamp()`.
#[verifier::external_body]
fn raw_parse_date(s: &str, fmt: &str) -> (r: Option<i64>)
    ensures
        match r {
            Some(ts) => date_parse_of(s@, fmt@) == Some(ts as int) && -TS_BOUND < ts < TS_BOUND,
            None => date_parse_of(s@, fmt@) is None,
        },
{
    match NaiveDate::parse_from_str(s, fmt) {
        Ok(d) => match d.and_hms_opt(0, 0, 0) {
            Some(dt) => Some(dt.and_utc().timestamp()),
            None => None,
        },
        Err(_) => None,
    }
}

/// Relies on chrono's `DateTime::from_timestamp` and `format`: rendering a
/// timestamp with the fixed format `%Y-%m-%d %H:%M:%S` is a function of the
/// timestamp alone, named `dt_str_of`.
#[verifier::external_body]
fn raw_format_datetime(ts: i64) -> (r: String)
    ensures
        r@ == dt_str_of(ts as int),
{
    match chrono::DateTime::<chrono::Utc>::from_timestamp(ts, 0) {
        Some(dt) => dt.naive_utc().format("%Y-%m-%d %H:%M:%S").to_string(),
        None => String::new(),
    }
}

/// What parsing a date field yields: a full date-time parse, with a bare
/// date (taken at midnight) as the fallback.
pub open spec fn date_value_of(s: Seq<char>, fmt: Seq<char>) -> Option<int> {
    if dt_parse_of(s, fmt) is Some {
        dt_parse_of(s, fmt)
    } else {
        date_parse_of(s, fmt)
    }
}

impl CustomDateObject {
    /// Well-formed: within chrono's representable range.
    pub open spec fn wf(&self) -> bool {
        date_inv(*self)
    }

    /// Parses a date-time with the given format; a bare date is accepted
    /// and taken at midnight.
    pub fn parse(s: &str, fmt: &str) -> (r: Option<CustomDateObject>)
        ensures
            match r {
                Some(d) => d.wf() && date_value_of(s@, fmt@) == Some(d.ts as int),
                None => date_value_of(s@, fmt@) is None,
            },
    {
        match raw_parse_datetime(s, fmt) {
            Some(ts) => Some(CustomDateObject { ts }),
            None => match raw_parse_date(s, fmt) {
                Some(ts) => Some(CustomDateObject { ts }),
                None => None,
            },
        }
    }

    /// Strict chronological order.
    pub fn lt(&self, other: &CustomDateObject) -> (r: bool)
        ensures
            r == (self.ts < other.ts),
    {
        self.ts < other.ts
    }

    /// The difference `self - other` in fractional days, by decimal
    /// division of the second difference by 86400.
    pub fn diff_days(&self, other: &CustomDateObject) -> (r: Option<DecimalWrapper>)
        requires
            self.wf(),
            other.wf(),
        ensures
            match r {
                Some(d) => d.wf() && dec_div_of(
                    self.ts - other.ts,
                    0,
                    SECONDS_PER_DAY as int,
                    0,
                ) == Some((d.mant as int, d.scale as nat)),
                None => dec_div_of(self.ts - other.ts, 0, SECONDS_PER_DAY as int, 0) is None,
            },
    {
        let secs: i64 = self.ts - other.ts;
        let num = DecimalWrapper::from_int(secs);
        let den = DecimalWrapper::from_int(SECONDS_PER_DAY);
        num.checked_div(&den)
    }

    /// The date-time rendered as `%Y-%m-%d %H:%M:%S` text.
    pub fn to_display_string(&self) -> (r: String)
        ensures
            r@ == dt_str_of(self.ts as int),
    {
        raw_format_datetime(self.ts)
    }
}

} // verus!
