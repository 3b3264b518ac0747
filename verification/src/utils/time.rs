//! Display of times and durations.

use vstd::prelude::*;
use chrono::{Datelike, Timelike};
use crate::external::current_unix_time;
use crate::text::{decimal_chars, decimal_string, spec_decimal, string_from_chars};
use crate::utils::encoding::{spec_zero_pad, zero_pad};

verus! {

/// A duration in seconds in its largest whole unit: seconds below a minute,
/// minutes below an hour, hours below a day, days otherwise.
pub open spec fn spec_format_duration_secs(secs: nat) -> Seq<char> {
    if secs < 60 {
        spec_decimal(secs) + "s"@
    } else if secs < 3600 {
        spec_decimal(secs / 60) + "m"@
    } else if secs < 86400 {
        spec_decimal(secs / 3600) + "h"@
    } else {
        spec_decimal(secs / 86400) + "d"@
    }
}

/// Formats a duration in seconds, as in `"5m"`.
pub fn format_duration_secs(secs: u64) -> (res: String)
    ensures
        res@ == spec_format_duration_secs(secs as nat),
{
    if secs < 60 {
        let mut s = decimal_string(secs);
        s.append("s");
        s
    } else if secs < 3600 {
        let mut s = decimal_string(secs / 60);
        s.append("m");
        s
    } else if secs < 86400 {
        let mut s = decimal_string(secs / 3600);
        s.append("h");
        s
    } else {
        let mut s = decimal_string(secs / 86400);
        s.append("d");
        s
    }
}

/// `"<n> <unit> ago"`, with the unit in the plural unless `n` is 1.
pub open spec fn spec_ago(n: nat, unit: Seq<char>) -> Seq<char> {
    spec_decimal(n) + " "@ + unit + (if n == 1 {
        Seq::<char>::empty()
    } else {
        "s"@
    }) + " ago"@
}

/// How long ago something happened, given the elapsed seconds: in the
/// future, just now (under a minute), or whole minutes, hours, days, months
/// of 30 days, or years of 365 days.
pub open spec fn spec_relative_time(elapsed: int) -> Seq<char> {
    if elapsed < 0 {
        "in the future"@
    } else if elapsed < 60 {
        "just now"@
    } else if elapsed / 60 < 60 {
        spec_ago((elapsed / 60) as nat, "minute"@)
    } else if elapsed / 3600 < 24 {
        spec_ago((elapsed / 3600) as nat, "hour"@)
    } else if elapsed / 86400 < 30 {
        spec_ago((elapsed / 86400) as nat, "day"@)
    } else if elapsed / 86400 < 365 {
        spec_ago((elapsed / 86400 / 30) as nat, "month"@)
    } else {
        spec_ago((elapsed / 86400 / 365) as nat, "year"@)
    }
}

fn ago(n: u64, unit: &str) -> (res: String)
    ensures
        res@ == spec_ago(n as nat, unit@),
{
    let mut s = decimal_string(n);
    s.append(" ");
    s.append(unit);
    if n != 1 {
        s.append("s");
    } else {
        proof {
            assert(s@ + Seq::<char>::empty() =~= s@);
        }
    }
    s.append(" ago");
    s
}

/// Formats a time (seconds since the Unix epoch) relative to `now`.
pub fn format_relative_time_at(dt: i64, now: i64) -> (res: String)
    ensures
        res@ == spec_relative_time(now - dt),
{
    let elapsed: i128 = now as i128 - dt as i128;
    if elapsed < 0 {
        return String::from_str("in the future");
    }
    if elapsed < 60 {
        return String::from_str("just now");
    }
    let e: u64 = elapsed as u64;
    if e / 60 < 60 {
        return ago(e / 60, "minute");
    }
    if e / 3600 < 24 {
        return ago(e / 3600, "hour");
    }
    if e / 86400 < 30 {
        return ago(e / 86400, "day");
    }
    if e / 86400 < 365 {
        return ago(e / 86400 / 30, "month");
    }
    ago(e / 86400 / 365, "year")
}

/// Formats a time (seconds since the Unix epoch) relative to now, as in
/// `"2 hours ago"`.
pub fn format_relative_time(dt: i64) -> (res: String)
    ensures
        exists|now: i64| res@ == #[trigger] spec_relative_time(now - dt),
{
    let now = current_unix_time();
    format_relative_time_at(dt, now)
}

/// The UTC calendar date and time chrono gives for a Unix timestamp:
/// (year, month, day, hour, minute, second), or nothing out of its range.
pub uninterp spec fn spec_utc_fields(secs: i64) -> Option<(i32, u32, u32, u32, u32, u32)>;

/// The UTC calendar fields of a Unix timestamp.
///
/// Trusted: calls `chrono::DateTime::from_timestamp(secs, 0)` and reads
/// `year`, `month`, `day`, `hour`, `minute` and `second`; the result is the
/// named value `spec_utc_fields` of the timestamp, and each field lies in
/// the range chrono documents for it (months 1 to 12, days 1 to 31, hours
/// 0 to 23, minutes and, with no leap second at zero nanoseconds, seconds
/// 0 to 59).
#[verifier::external_body]
pub(crate) fn utc_fields(secs: i64) -> (res: Option<(i32, u32, u32, u32, u32, u32)>)
    ensures
        res == spec_utc_fields(secs),
        res matches Some(f) ==> 1 <= f.1 <= 12 && 1 <= f.2 <= 31 && f.3 < 24 && f.4 < 60 && f.5 < 60,
{
    chrono::DateTime::from_timestamp(secs, 0).map(
        |t| (t.year(), t.month(), t.day(), t.hour(), t.minute(), t.second()),
    )
}

/// A year as `%Y` writes it: four digits with leading zeros for years 0 to
/// 9999, otherwise a sign and at least four digits.
pub open spec fn spec_year(y: i32) -> Seq<char> {
    if 0 <= y <= 9999 {
        spec_zero_pad(spec_decimal(y as nat), 4)
    } else if y < 0 {
        "-"@ + spec_zero_pad(spec_decimal((-y) as nat), 4)
    } else {
        "+"@ + spec_zero_pad(spec_decimal(y as nat), 4)
    }
}

/// Two digits with a leading zero.
pub open spec fn spec_two(v: u32) -> Seq<char> {
    spec_zero_pad(spec_decimal(v as nat), 2)
}

/// `YYYY-MM-DD HH:MM:SS UTC` for the given calendar fields.
pub open spec fn spec_timestamp_text(f: (i32, u32, u32, u32, u32, u32)) -> Seq<char> {
    spec_year(f.0) + "-"@ + spec_two(f.1) + "-"@ + spec_two(f.2) + " "@ + spec_two(f.3) + ":"@
        + spec_two(f.4) + ":"@ + spec_two(f.5) + " UTC"@
}

pub(crate) fn two_digits(v: u32) -> (res: String)
    ensures
        res@ == spec_two(v),
{
    string_from_chars(&zero_pad(decimal_chars(v as u64), 2))
}

pub(crate) fn year_text(y: i32) -> (res: String)
    ensures
        res@ == spec_year(y),
{
    if 0 <= y && y <= 9999 {
        string_from_chars(&zero_pad(decimal_chars(y as u64), 4))
    } else if y < 0 {
        let mut s = String::from_str("-");
        let m: i64 = -(y as i64);
        let digits = string_from_chars(&zero_pad(decimal_chars(m as u64), 4));
        s.append(digits.as_str());
        s
    } else {
        let mut s = String::from_str("+");
        let digits = string_from_chars(&zero_pad(decimal_chars(y as u64), 4));
        s.append(digits.as_str());
        s
    }
}

/// Formats a Unix timestamp as `YYYY-MM-DD HH:MM:SS UTC`; nothing for a
/// timestamp outside the range of calendar dates chrono represents.
pub fn format_timestamp(secs: i64) -> (res: Option<String>)
    ensures
        match spec_utc_fields(secs) {
            Some(f) => res matches Some(s) && s@ == spec_timestamp_text(f),
            None => res is None,
        },
{
    match utc_fields(secs) {
        None => None,
        Some((year, month, day, hour, minute, second)) => {
            let mut s = year_text(year);
            s.append("-");
            s.append(two_digits(month).as_str());
            s.append("-");
            s.append(two_digits(day).as_str());
            s.append(" ");
            s.append(two_digits(hour).as_str());
            s.append(":");
            s.append(two_digits(minute).as_str());
            s.append(":");
            s.append(two_digits(second).as_str());
            s.append(" UTC");
            Some(s)
        },
    }
}

} // verus!
