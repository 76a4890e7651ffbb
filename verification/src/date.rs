//! Instants and their calendar dates, through `chrono`.

use vstd::prelude::*;
use chrono::Datelike;

verus! {

/// An instant in UTC (`DateTime<Utc>`): seconds and nanoseconds since the Unix
/// epoch, with the calendar date `chrono` assigns to it.
#[derive(Clone, Copy, Debug, PartialEq, Eq, Structural)]
pub struct Date {
    pub secs: i64,
    pub nanos: u32,
    pub year: i32,
    pub month: u32,
    pub day: u32,
}

/// The UTC calendar date `chrono` gives the instant `(secs, nanos)`, or `None`
/// when it is out of `chrono`'s range.
pub uninterp spec fn civil_date(secs: i64, nanos: u32) -> Option<(i32, u32, u32)>;

/// The instant `DateTime::parse_from_rfc3339` reads from a string, if it parses.
pub uninterp spec fn rfc3339_instant(s: Seq<char>) -> Option<(i64, u32)>;

/// The date `NaiveDate::parse_from_str(s, "%Y-%m-%d")` reads, if it parses.
pub uninterp spec fn ymd_text(s: Seq<char>) -> Option<(i32, u32, u32)>;

/// Seconds since the epoch of midnight UTC on a calendar date, when `chrono`
/// accepts the date.
pub uninterp spec fn midnight_secs(year: i32, month: u32, day: u32) -> Option<i64>;

/// The `Date` for an instant, as [`date_from_timestamp`] builds it.
pub open spec fn date_of(secs: i64, nanos: u32) -> Option<Date> {
    match civil_date(secs, nanos) {
        Some((y, m, d)) => Some(Date { secs, nanos, year: y, month: m, day: d }),
        None => None,
    }
}

/// Calls `DateTime::<Utc>::from_timestamp` and reads the date's year, month
/// and day; the contract names the calendar date `civil_date`.
#[verifier::external_body]
pub(crate) fn date_from_timestamp(secs: i64, nanos: u32) -> (r: Option<Date>)
    ensures
        r == (match civil_date(secs, nanos) {
            Some((y, m, d)) => Some(Date { secs, nanos, year: y, month: m, day: d }),
            None => None,
        }),
{
    chrono::DateTime::from_timestamp(secs, nanos).map(
        |dt| Date { secs, nanos, year: dt.year(), month: dt.month(), day: dt.day() },
    )
}

/// Calls `DateTime::parse_from_rfc3339` and reads the instant (seconds and
/// sub-second nanoseconds); the contract names it `rfc3339_instant`.
#[verifier::external_body]
pub(crate) fn parse_rfc3339(s: &str) -> (r: Option<(i64, u32)>)
    ensures
        r == rfc3339_instant(s@),
{
    chrono::DateTime::parse_from_rfc3339(s).ok().map(
        |dt| (dt.timestamp(), dt.timestamp_subsec_nanos()),
    )
}

/// Calls `NaiveDate::parse_from_str(s, "%Y-%m-%d")` and reads the year, month
/// and day; the contract names them `ymd_text`.
#[verifier::external_body]
pub(crate) fn parse_ymd(s: &str) -> (r: Option<(i32, u32, u32)>)
    ensures
        r == ymd_text(s@),
{
    chrono::NaiveDate::parse_from_str(s, "%Y-%m-%d").ok().map(|d| (d.year(), d.month(), d.day()))
}

/// Calls `NaiveDate::from_ymd_opt`, `and_hms_opt(0, 0, 0)`, `and_utc` and
/// `timestamp`: the seconds since the epoch of midnight UTC on that date, or
/// `None` for a date `chrono` rejects. The contract names it `midnight_secs`.
#[verifier::external_body]
pub(crate) fn midnight_utc(year: i32, month: u32, day: u32) -> (r: Option<i64>)
    ensures
        r == midnight_secs(year, month, day),
{
    chrono::NaiveDate::from_ymd_opt(year, month, day).and_then(|d| d.and_hms_opt(0, 0, 0)).map(
        |dt| dt.and_utc().timestamp(),
    )
}

impl Date {
    /// The Unix epoch, 1970-01-01T00:00:00Z (`DateTime::<Utc>::UNIX_EPOCH`).
    pub fn epoch() -> (r: Date)
        ensures
            r == (Date { secs: 0, nanos: 0, year: 1970, month: 1, day: 1 }),
    {
        Date { secs: 0, nanos: 0, year: 1970, month: 1, day: 1 }
    }

    /// The instant `secs` seconds and `nanos` nanoseconds after the epoch,
    /// with its UTC calendar date; `None` when `chrono` cannot represent it.
    pub fn from_timestamp(secs: i64, nanos: u32) -> (r: Option<Date>)
        ensures
            r == date_of(secs, nanos),
    {
        date_from_timestamp(secs, nanos)
    }

    /// Midnight UTC on the given calendar date, or `None` when `chrono`
    /// rejects the date.
    pub fn from_ymd(year: i32, month: u32, day: u32) -> (r: Option<Date>)
        ensures
            r == (match midnight_secs(year, month, day) {
                Some(t) => date_of(t, 0),
                None => None,
            }),
    {
        match midnight_utc(year, month, day) {
            Some(t) => date_from_timestamp(t, 0),
            None => None,
        }
    }
}

/// Strict order of instants (the order of `DateTime<Utc>`).
pub open spec fn date_lt(a: Date, b: Date) -> bool {
    a.secs < b.secs || (a.secs == b.secs && a.nanos < b.nanos)
}

/// Same instant.
pub open spec fn date_same(a: Date, b: Date) -> bool {
    a.secs == b.secs && a.nanos == b.nanos
}

/// `a < b` as instants.
pub fn date_less(a: &Date, b: &Date) -> (r: bool)
    ensures
        r == date_lt(*a, *b),
{
    a.secs < b.secs || (a.secs == b.secs && a.nanos < b.nanos)
}

/// A frontmatter date string read as RFC 3339 first, then as a bare
/// `YYYY-MM-DD` (midnight UTC).
pub open spec fn parse_date_spec(s: Seq<char>) -> Option<Date> {
    match rfc3339_instant(s) {
        Some((t, n)) => date_of(t, n),
        None => match ymd_text(s) {
            Some((y, m, d)) => match midnight_secs(y, m, d) {
                Some(t) => date_of(t, 0),
                None => None,
            },
            None => None,
        },
    }
}

/// Parse a frontmatter date string: RFC 3339 first, then a bare
/// `YYYY-MM-DD` (midnight UTC); `None` when neither parses.
pub fn parse_date_str(s: &str) -> (r: Option<Date>)
    ensures
        r == parse_date_spec(s@),
{
    match parse_rfc3339(s) {
        Some((t, n)) => date_from_timestamp(t, n),
        None => match parse_ymd(s) {
            Some((y, m, d)) => Date::from_ymd(y, m, d),
            None => None,
        },
    }
}

} // verus!
