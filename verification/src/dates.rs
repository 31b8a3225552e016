//! Calendar days written `YYYY-MM-DD`: reading them, moving them, and the
//! dense axis of days that every series is aligned on. The calendar itself
//! is chrono's.

use chrono::Datelike;
use vstd::prelude::*;

verus! {

/// The day that `NaiveDate::parse_from_str(s, "%Y-%m-%d")` reads in `s`,
/// counted from the first day of the common era (`num_days_from_ce`).
pub uninterp spec fn day_number(s: Seq<char>) -> Option<i32>;

/// The `YYYY-MM-DD` writing of the day `n` of the common era, when chrono's
/// calendar reaches it.
pub uninterp spec fn day_text(n: i32) -> Option<Seq<char>>;

/// The UTC day, `YYYY-MM-DD`, of a Unix time in seconds, when chrono's
/// calendar reaches it.
pub uninterp spec fn utc_day_text(seconds: i64) -> Option<Seq<char>>;

/// Midnight UTC of the day `n` of the common era, written by
/// `DateTime::to_rfc3339`, when chrono's calendar reaches it.
pub uninterp spec fn midnight_text(n: i32) -> Option<Seq<char>>;

/// `NaiveDate::from_num_days_from_ce_opt`, at `and_hms_opt(0, 0, 0)`, taken
/// as UTC and written with `to_rfc3339`.
#[verifier::external_body]
pub(crate) fn midnight_utc(n: i32) -> (r: Option<String>)
    ensures
        match midnight_text(n) {
            Some(t) => r matches Some(x) && x@ == t,
            None => r is None,
        },
{
    chrono::NaiveDate::from_num_days_from_ce_opt(n)
        .and_then(|d| d.and_hms_opt(0, 0, 0))
        .map(|d| d.and_utc().to_rfc3339())
}

/// `NaiveDate::parse_from_str` with the `%Y-%m-%d` format, the date then
/// counted with `num_days_from_ce`.
#[verifier::external_body]
pub(crate) fn parse_day(s: &str) -> (r: Option<i32>)
    ensures
        r == day_number(s@),
{
    chrono::NaiveDate::parse_from_str(s, "%Y-%m-%d").ok().map(|d| d.num_days_from_ce())
}

/// `NaiveDate::from_num_days_from_ce_opt`, the date then written with the
/// `%Y-%m-%d` format.
#[verifier::external_body]
pub(crate) fn format_day(n: i32) -> (r: Option<String>)
    ensures
        match day_text(n) {
            Some(t) => r matches Some(x) && x@ == t,
            None => r is None,
        },
{
    chrono::NaiveDate::from_num_days_from_ce_opt(n).map(|d| d.format("%Y-%m-%d").to_string())
}

/// `DateTime::<Utc>::from_timestamp(seconds, 0)`, written with the
/// `%Y-%m-%d` format.
#[verifier::external_body]
pub(crate) fn utc_day(seconds: i64) -> (r: Option<String>)
    ensures
        match utc_day_text(seconds) {
            Some(t) => r matches Some(x) && x@ == t,
            None => r is None,
        },
{
    chrono::DateTime::from_timestamp(seconds, 0).map(|d| d.format("%Y-%m-%d").to_string())
}

/// Largest number of days that `TimeDelta::days` accepts without panicking.
pub open spec fn max_shift() -> i64 {
    106_751_991_167
}

/// `day` moved by `days` days, or `day` unchanged when it is not a date or
/// the move leaves the calendar.
pub open spec fn shifted(day: Seq<char>, days: i64) -> Seq<char> {
    match day_number(day) {
        Some(n) => {
            let m = n + days;
            if i32::MIN <= m <= i32::MAX {
                match day_text(m as i32) {
                    Some(t) => t,
                    None => day,
                }
            } else {
                day
            }
        },
        None => day,
    }
}

/// Adds `days` days to a `YYYY-MM-DD` date; an invalid date comes back
/// unchanged.
pub fn shift_day(day: &str, days: i64) -> (r: String)
    requires
        -max_shift() <= days <= max_shift(),
    ensures
        r@ == shifted(day@, days),
{
    match parse_day(day) {
        Some(n) => {
            let m: i64 = n as i64 + days;
            if i32::MIN as i64 <= m && m <= i32::MAX as i64 {
                match format_day(m as i32) {
                    Some(t) => t,
                    None => day.to_string(),
                }
            } else {
                day.to_string()
            }
        },
        None => day.to_string(),
    }
}

/// The instant a day starts at, midnight UTC in RFC 3339, or `now` when
/// the day is not a date.
pub open spec fn day_start_of(day: Seq<char>, now: Seq<char>) -> Seq<char> {
    match day_number(day) {
        Some(n) => match midnight_text(n) {
            Some(t) => t,
            None => now,
        },
        None => now,
    }
}

/// Midnight UTC of a `YYYY-MM-DD` day, written in RFC 3339, where the
/// analytics of a window start; `now`, the current instant as the caller
/// read it, when the day is not a date.
pub fn day_start(day: &str, now: &str) -> (r: String)
    ensures
        r@ == day_start_of(day@, now@),
{
    match parse_day(day) {
        Some(n) => match midnight_utc(n) {
            Some(t) => t,
            None => now.to_string(),
        },
        None => now.to_string(),
    }
}

/// The string is a real `YYYY-MM-DD` date.
pub open spec fn is_valid_day(day: Seq<char>) -> bool {
    day_number(day) is Some
}

pub fn valid_day(day: &str) -> (r: bool)
    ensures
        r == is_valid_day(day@),
{
    parse_day(day).is_some()
}

/// The days from `n` included to `end` excluded, stopping where the calendar
/// ends.
pub open spec fn days_between(n: int, end: int) -> Seq<Seq<char>>
    decreases end - n,
{
    if n >= end || n < i32::MIN || n > i32::MAX {
        seq![]
    } else {
        match day_text(n as i32) {
            Some(t) => seq![t] + days_between(n + 1, end),
            None => seq![],
        }
    }
}

/// There are no more days between two days than their distance.
pub proof fn lemma_days_between_len(n: int, end: int)
    ensures
        days_between(n, end).len() <= if end > n { end - n } else { 0 },
    decreases end - n,
{
    if n >= end || n < i32::MIN || n > i32::MAX {
    } else {
        match day_text(n as i32) {
            Some(_) => lemma_days_between_len(n + 1, end),
            None => {},
        }
    }
}

/// Dense axis of days from `from` included to `to` excluded; empty unless
/// both are dates.
pub open spec fn axis_of(from: Seq<char>, to: Seq<char>) -> Seq<Seq<char>> {
    match (day_number(from), day_number(to)) {
        (Some(a), Some(b)) => days_between(a as int, b as int),
        _ => seq![],
    }
}

/// Dense axis of days from `from` included to `to` excluded. Series align
/// on it, so that a day without downloads does not shift a whole curve.
pub fn day_axis(from: &str, to: &str) -> (r: Vec<String>)
    ensures
        r.deep_view() == axis_of(from@, to@),
{
    let (start, end) = match (parse_day(from), parse_day(to)) {
        (Some(a), Some(b)) => (a, b),
        _ => return Vec::new(),
    };
    let mut out: Vec<String> = Vec::new();
    let mut n: i32 = start;
    let ghost whole = days_between(start as int, end as int);
    assert(whole =~= Seq::<Seq<char>>::empty() + days_between(n as int, end as int));
    while n < end
        invariant
            start <= n,
            whole == days_between(start as int, end as int),
            whole == axis_of(from@, to@),
            out.deep_view() + days_between(n as int, end as int) == whole,
        decreases end - n,
    {
        match format_day(n) {
            Some(t) => {
                let ghost before = out.deep_view();
                out.push(t);
                proof {
                    assert(out.deep_view() =~= before.push(t@));
                    assert(before.push(t@) + days_between(n + 1, end as int) =~= before
                        + days_between(n as int, end as int));
                }
                n = n + 1;
            },
            None => {
                proof {
                    assert(day_text(n) is None);
                    assert(days_between(n as int, end as int) =~= Seq::<Seq<char>>::empty());
                    assert(out.deep_view() == whole);
                    assert(out.deep_view() =~= out.deep_view() + days_between(n as int, end as int));
                }
                return out;
            },
        }
    }
    proof {
        assert(out.deep_view() =~= out.deep_view() + days_between(n as int, end as int));
    }
    out
}

} // verus!
