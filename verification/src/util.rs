//! Dates and times: the Gregorian calendar, in UTC.
use crate::table::{lemma_code_points, less};
use crate::text::{
    chars_of, copy_text, digit, digit_char, is_digit, nat_text, padded, push_padded, trim, trimmed,
};
use vstd::prelude::*;

verus! {

/// The milliseconds of a day.
pub const DAY_MS: u64 = 86_400_000;

// ---- calendar --------------------------------------------------------------------------

/// A date.
#[derive(Debug, Clone, Copy, PartialEq, Eq, Structural)]
pub struct Date {
    pub year: i64,
    pub month: i64,
    pub day: i64,
}

/// Whether a year has 366 days.
pub open spec fn leap(y: int) -> bool {
    y % 4 == 0 && (y % 100 != 0 || y % 400 == 0)
}

/// How many leap years there are from the year one up to `y`.
pub open spec fn leaps(y: int) -> int {
    y / 4 - y / 100 + y / 400
}

/// The days of a month.
pub open spec fn month_days(y: int, m: int) -> int {
    if m == 2 {
        if leap(y) {
            29
        } else {
            28
        }
    } else if m == 4 || m == 6 || m == 9 || m == 11 {
        30
    } else {
        31
    }
}

/// The days of a year before a month.
pub open spec fn days_before(y: int, m: int) -> int
    decreases m,
{
    if m <= 1 {
        0
    } else {
        days_before(y, m - 1) + month_days(y, m - 1)
    }
}

/// The days from the first of January 1970 to the first of January of a year.
pub open spec fn new_year(y: int) -> int {
    365 * (y - 1970) + leaps(y - 1) - leaps(1969)
}

/// Whether a date is in the calendar.
pub open spec fn valid_date(y: int, m: int, d: int) -> bool {
    1 <= m <= 12 && 1 <= d <= month_days(y, m)
}

/// The days from the first of January 1970 to a date.
pub open spec fn day_number(y: int, m: int, d: int) -> int {
    new_year(y) + days_before(y, m) + d - 1
}

/// Whether a date is the one with a day number.
pub open spec fn is_date(t: (int, int, int), z: int) -> bool {
    valid_date(t.0, t.1, t.2) && day_number(t.0, t.1, t.2) == z
}

/// The date with a day number.
pub open spec fn date_of(z: int) -> (int, int, int) {
    choose|t: (int, int, int)| is_date(t, z)
}

proof fn lemma_days_before(y: int)
    ensures
        days_before(y, 1) == 0,
        days_before(y, 2) == 31,
        days_before(y, 3) == 59 + (if leap(y) {
            1int
        } else {
            0int
        }),
        days_before(y, 4) == days_before(y, 3) + 31,
        days_before(y, 5) == days_before(y, 3) + 61,
        days_before(y, 6) == days_before(y, 3) + 92,
        days_before(y, 7) == days_before(y, 3) + 122,
        days_before(y, 8) == days_before(y, 3) + 153,
        days_before(y, 9) == days_before(y, 3) + 184,
        days_before(y, 10) == days_before(y, 3) + 214,
        days_before(y, 11) == days_before(y, 3) + 245,
        days_before(y, 12) == days_before(y, 3) + 275,
{
    reveal_with_fuel(days_before, 13);
}

#[verifier::spinoff_prover]
proof fn lemma_leaps_step(y: int)
    ensures
        leaps(y) == leaps(y - 1) + (if leap(y) {
            1int
        } else {
            0int
        }),
{
    assert(y / 4 == (y - 1) / 4 + (if y % 4 == 0 {
        1int
    } else {
        0int
    }));
    assert(y / 100 == (y - 1) / 100 + (if y % 100 == 0 {
        1int
    } else {
        0int
    }));
    assert(y / 400 == (y - 1) / 400 + (if y % 400 == 0 {
        1int
    } else {
        0int
    }));
    assert(y % 400 == 0 ==> y % 100 == 0);
    assert(y % 100 == 0 ==> y % 4 == 0);
}

proof fn lemma_new_year_grows(a: int, b: int)
    requires
        a <= b,
    ensures
        new_year(a) <= new_year(b),
{
}

/// A date lies within its year.
proof fn lemma_within_year(y: int, m: int, d: int)
    requires
        valid_date(y, m, d),
    ensures
        new_year(y) <= day_number(y, m, d) < new_year(y + 1),
{
    lemma_days_before(y);
    lemma_leaps_step(y);
    assert(new_year(y + 1) == new_year(y) + 365 + (if leap(y) {
        1int
    } else {
        0int
    }));
}

/// No two dates have the same day number.
pub proof fn law_dates_differ(a: (int, int, int), b: (int, int, int))
    requires
        valid_date(a.0, a.1, a.2),
        valid_date(b.0, b.1, b.2),
        day_number(a.0, a.1, a.2) == day_number(b.0, b.1, b.2),
    ensures
        a == b,
{
    lemma_within_year(a.0, a.1, a.2);
    lemma_within_year(b.0, b.1, b.2);
    if a.0 < b.0 {
        lemma_new_year_grows(a.0 + 1, b.0);
    } else if b.0 < a.0 {
        lemma_new_year_grows(b.0 + 1, a.0);
    }
    lemma_days_before(a.0);
}

/// The date with a day number is the only one.
pub proof fn lemma_date_of(y: int, m: int, d: int)
    requires
        valid_date(y, m, d),
    ensures
        date_of(day_number(y, m, d)) == (y, m, d),
{
    let z = day_number(y, m, d);
    assert(is_date((y, m, d), z));
    law_dates_differ(date_of(z), (y, m, d));
}

/// The date with a day number, counted in years that begin in March, in cycles of 400 years.
pub fn civil_from_days(z: u64) -> (r: Date)
    requires
        z <= 1_000_000_000_000,
    ensures
        (r.year as int, r.month as int, r.day as int) == date_of(z as int),
        is_date((r.year as int, r.month as int, r.day as int), z as int),
        1970 <= r.year,
{
    let t: u64 = z + 719_468;
    let era: u64 = t / 146_097;
    let doe: u64 = t % 146_097;
    let c: u64 = if doe / 36_524 >= 4 {
        3
    } else {
        doe / 36_524
    };
    let r1: u64 = doe - c * 36_524;
    let q: u64 = r1 / 1_461;
    let r2: u64 = r1 % 1_461;
    let a: u64 = if r2 / 365 >= 4 {
        3
    } else {
        r2 / 365
    };
    let doy: u64 = r2 - a * 365;
    let y0: u64 = era * 400 + c * 100 + q * 4 + a;
    let mp: u64 = (5 * doy + 2) / 153;
    let d: u64 = doy - (153 * mp + 2) / 5 + 1;
    let m: u64 = if mp < 10 {
        mp + 3
    } else {
        mp - 9
    };
    let y: u64 = if m <= 2 {
        y0 + 1
    } else {
        y0
    };
    proof {
        lemma_civil(z as int, era as int, c as int, q as int, a as int, doy as int);
        lemma_march(y0 as int, doy as int, mp as int);
        lemma_date_of(y as int, m as int, d as int);
    }
    Date { year: y as i64, month: m as i64, day: d as i64 }
}

/// A day of a year that begins in March, and what it says of the year.
proof fn lemma_civil(z: int, era: int, c: int, q: int, a: int, doy: int)
    requires
        0 <= z,
        z + 719_468 == era * 146_097 + c * 36_524 + q * 1_461 + a * 365 + doy,
        0 <= era,
        0 <= c <= 3,
        0 <= q <= 24,
        0 <= a <= 3,
        0 <= doy <= 365,
        doy == 365 ==> a == 3 && (q < 24 || c == 3),
    ensures
        ({
            let y = era * 400 + c * 100 + q * 4 + a;
            &&& z + 719_468 == 365 * y + leaps(y) + doy
            &&& doy == 365 ==> leap(y + 1)
        }),
{
    let y = era * 400 + c * 100 + q * 4 + a;
    assert(y / 4 == era * 100 + c * 25 + q);
    assert(y / 100 == era * 4 + c);
    assert(y / 400 == era);
}

/// The date of a day of a year that begins in March.
proof fn lemma_march(y: int, doy: int, mp: int)
    requires
        0 <= doy <= 365,
        mp == (5 * doy + 2) / 153,
        doy == 365 ==> leap(y + 1),
    ensures
        ({
            let d = doy - (153 * mp + 2) / 5 + 1;
            let m = if mp < 10 {
                mp + 3
            } else {
                mp - 9
            };
            let y2 = if m <= 2 {
                y + 1
            } else {
                y
            };
            &&& 0 <= mp <= 11
            &&& valid_date(y2, m, d)
            &&& day_number(y2, m, d) + 719_468 == 365 * y + leaps(y) + doy
        }),
{
    lemma_days_before(y);
    lemma_days_before(y + 1);
    lemma_leaps_step(y);
    assert(leaps(1969) == 477);
}

// ---- times -----------------------------------------------------------------------------

/// The date of a time in milliseconds.
pub open spec fn date_at(ms: nat) -> (int, int, int) {
    date_of((ms / 86_400_000) as int)
}

/// The seconds of the day at a time in milliseconds.
pub open spec fn second_of_day(ms: nat) -> nat {
    (ms / 1000) % 86_400
}

/// A date and a time of day with given separators.
pub open spec fn stamped(ms: nat, dash: Seq<char>, t: Seq<char>, colon: Seq<char>) -> Seq<char> {
    let (y, m, d) = date_at(ms);
    let s = second_of_day(ms);
    padded(y as nat, 4) + dash + padded(m as nat, 2) + dash + padded(d as nat, 2) + t + padded(
        s / 3600,
        2,
    ) + colon + padded((s % 3600) / 60, 2) + colon + padded(s % 60, 2)
}

fn push_stamp(out: &mut String, ms: u64, dash: &str, t: &str, colon: &str)
    requires
        old(out)@.len() == 0,
    ensures
        final(out)@ == stamped(ms as nat, dash@, t@, colon@),
{
    let secs: u64 = ms / 1000;
    let days: u64 = secs / 86_400;
    let date: Date = civil_from_days(days);
    let tod: u64 = secs % 86_400;
    assert(days == ms / 86_400_000);
    assert(out@ =~= seq![]);
    push_padded(out, date.year as u64, 4);
    assert(out@ =~= padded(date.year as nat, 4));
    out.push_str(dash);
    push_padded(out, date.month as u64, 2);
    out.push_str(dash);
    push_padded(out, date.day as u64, 2);
    out.push_str(t);
    push_padded(out, tod / 3600, 2);
    out.push_str(colon);
    push_padded(out, (tod % 3600) / 60, 2);
    out.push_str(colon);
    push_padded(out, tod % 60, 2);
}

/// A time in ISO 8601, in UTC with milliseconds.
pub open spec fn iso_text(ms: nat) -> Seq<char> {
    stamped(ms, "-"@, "T"@, ":"@) + "."@ + padded(ms % 1000, 3) + "Z"@
}

/// A time in ISO 8601, in UTC with milliseconds.
pub fn iso8601(ms: u64) -> (r: String)
    ensures
        r@ == iso_text(ms as nat),
{
    let mut out: String = String::new();
    push_stamp(&mut out, ms, "-", "T", ":");
    out.push_str(".");
    push_padded(&mut out, ms % 1000, 3);
    out.push_str("Z");
    out
}

/// A time in ISO 8601, in UTC to the second.
pub open spec fn iso_secs_text(ms: nat) -> Seq<char> {
    stamped(ms, "-"@, "T"@, ":"@) + "Z"@
}

/// A time in ISO 8601, in UTC to the second.
pub fn iso8601_secs(ms: u64) -> (r: String)
    ensures
        r@ == iso_secs_text(ms as nat),
{
    let mut out: String = String::new();
    push_stamp(&mut out, ms, "-", "T", ":");
    out.push_str("Z");
    out
}

/// A time as fourteen digits, which sort as times do. The time is taken as the clock shows it;
/// the caller adds the offset of the zone.
pub fn stamp14(ms: u64) -> (r: String)
    ensures
        r@ == stamped(ms as nat, seq![], seq![], seq![]),
{
    let none: String = String::new();
    assert(none@ =~= seq![]);
    let mut out: String = String::new();
    push_stamp(&mut out, ms, none.as_str(), none.as_str(), none.as_str());
    out
}

/// The name of a day of the week, counted from Sunday.
pub open spec fn weekday_name(w: int) -> Seq<char> {
    if w == 0 {
        "Sun"@
    } else if w == 1 {
        "Mon"@
    } else if w == 2 {
        "Tue"@
    } else if w == 3 {
        "Wed"@
    } else if w == 4 {
        "Thu"@
    } else if w == 5 {
        "Fri"@
    } else {
        "Sat"@
    }
}

fn weekday(w: u64) -> (r: &'static str)
    ensures
        r@ == weekday_name(w as int),
{
    if w == 0 {
        "Sun"
    } else if w == 1 {
        "Mon"
    } else if w == 2 {
        "Tue"
    } else if w == 3 {
        "Wed"
    } else if w == 4 {
        "Thu"
    } else if w == 5 {
        "Fri"
    } else {
        "Sat"
    }
}

/// The short name of a month.
pub open spec fn month_name(m: int) -> Seq<char> {
    if m == 1 {
        "Jan"@
    } else if m == 2 {
        "Feb"@
    } else if m == 3 {
        "Mar"@
    } else if m == 4 {
        "Apr"@
    } else if m == 5 {
        "May"@
    } else if m == 6 {
        "Jun"@
    } else if m == 7 {
        "Jul"@
    } else if m == 8 {
        "Aug"@
    } else if m == 9 {
        "Sep"@
    } else if m == 10 {
        "Oct"@
    } else if m == 11 {
        "Nov"@
    } else {
        "Dec"@
    }
}

fn month_word(m: i64) -> (r: &'static str)
    ensures
        r@ == month_name(m as int),
{
    if m == 1 {
        "Jan"
    } else if m == 2 {
        "Feb"
    } else if m == 3 {
        "Mar"
    } else if m == 4 {
        "Apr"
    } else if m == 5 {
        "May"
    } else if m == 6 {
        "Jun"
    } else if m == 7 {
        "Jul"
    } else if m == 8 {
        "Aug"
    } else if m == 9 {
        "Sep"
    } else if m == 10 {
        "Oct"
    } else if m == 11 {
        "Nov"
    } else {
        "Dec"
    }
}

/// A time as a date of HTTP: the first day of 1970 was a Thursday.
pub open spec fn http_date_text(ms: nat) -> Seq<char> {
    let (y, m, d) = date_at(ms);
    let s = second_of_day(ms);
    weekday_name(((ms / 86_400_000 + 4) % 7) as int) + ", "@ + padded(d as nat, 2) + " "@ + month_name(m)
        + " "@ + padded(y as nat, 4) + " "@ + padded(s / 3600, 2) + ":"@ + padded((s % 3600) / 60, 2)
        + ":"@ + padded(s % 60, 2) + " GMT"@
}

/// A time as a date of HTTP.
pub fn http_date(ms: u64) -> (r: String)
    ensures
        r@ == http_date_text(ms as nat),
{
    let secs: u64 = ms / 1000;
    let days: u64 = secs / 86_400;
    let date: Date = civil_from_days(days);
    let tod: u64 = secs % 86_400;
    assert(days == ms / 86_400_000);
    let mut out: String = copy_text(weekday((days + 4) % 7));
    out.push_str(", ");
    push_padded(&mut out, date.day as u64, 2);
    out.push_str(" ");
    out.push_str(month_word(date.month));
    out.push_str(" ");
    push_padded(&mut out, date.year as u64, 4);
    out.push_str(" ");
    push_padded(&mut out, tod / 3600, 2);
    out.push_str(":");
    push_padded(&mut out, (tod % 3600) / 60, 2);
    out.push_str(":");
    push_padded(&mut out, tod % 60, 2);
    out.push_str(" GMT");
    out
}

// ---- reading a time --------------------------------------------------------------------

/// The value of a digit.
pub open spec fn digit_value(c: char) -> int {
    (c as u32) as int - 0x30
}

/// The number of two digits at `i`, or nothing.
pub open spec fn two_at(s: Seq<char>, i: int) -> Option<int> {
    if 0 <= i && i + 2 <= s.len() && is_digit(s[i]) && is_digit(s[i + 1]) {
        Some(digit_value(s[i]) * 10 + digit_value(s[i + 1]))
    } else {
        None
    }
}

/// The date that a text begins with, as `YYYY-MM-DD`.
pub open spec fn date_in(s: Seq<char>) -> Option<(int, int, int)> {
    match (two_at(s, 0), two_at(s, 2), two_at(s, 5), two_at(s, 8)) {
        (Some(a), Some(b), Some(m), Some(d)) => if s[4] == '-' && s[7] == '-' && valid_date(
            a * 100 + b,
            m,
            d,
        ) {
            Some((a * 100 + b, m, d))
        } else {
            None
        },
        _ => None,
    }
}

/// Where the digits from `i` on end.
pub open spec fn after_digits(s: Seq<char>, i: int) -> int
    decreases s.len() - i,
{
    if 0 <= i < s.len() && is_digit(s[i]) {
        after_digits(s, i + 1)
    } else {
        i
    }
}

/// The seconds of the day of a time `HH:MM`, `HH:MM:SS` or `HH:MM:SS.fff` at `i`, and where it
/// ends. A fraction of a second is dropped.
pub open spec fn time_in(s: Seq<char>, i: int) -> Option<(int, int)> {
    match (two_at(s, i), two_at(s, i + 3)) {
        (Some(h), Some(m)) => if s[i + 2] != ':' || h > 23 || m > 59 {
            None
        } else if i + 5 < s.len() && s[i + 5] == ':' {
            match two_at(s, i + 6) {
                Some(x) => if x > 59 {
                    None
                } else if i + 8 < s.len() && s[i + 8] == '.' {
                    Some((h * 3600 + m * 60 + x, after_digits(s, i + 9)))
                } else {
                    Some((h * 3600 + m * 60 + x, i + 8))
                },
                None => None,
            }
        } else {
            Some((h * 3600 + m * 60, i + 5))
        },
        _ => None,
    }
}

/// The offset in seconds that the zone at `i` is ahead of UTC: none and `Z` are UTC.
pub open spec fn zone_in(s: Seq<char>, i: int) -> Option<int> {
    if i == s.len() {
        Some(0)
    } else if i + 1 == s.len() && (s[i] == 'Z' || s[i] == 'z') {
        Some(0)
    } else if i + 6 == s.len() && (s[i] == '+' || s[i] == '-') && s[i + 3] == ':' {
        match (two_at(s, i + 1), two_at(s, i + 4)) {
            (Some(h), Some(m)) => if h > 23 || m > 59 {
                None
            } else if s[i] == '+' {
                Some(h * 3600 + m * 60)
            } else {
                Some(-(h * 3600 + m * 60))
            },
            _ => None,
        }
    } else {
        None
    }
}

/// The seconds since 1970 of a date with a time of day and a zone.
pub open spec fn iso_seconds(s: Seq<char>) -> Option<int> {
    match date_in(s) {
        None => None,
        Some((y, m, d)) => if s.len() == 10 {
            Some(day_number(y, m, d) * 86_400)
        } else if s[10] == 'T' || s[10] == 't' || s[10] == ' ' {
            match time_in(s, 11) {
                Some((t, i)) => match zone_in(s, i) {
                    Some(z) => Some(day_number(y, m, d) * 86_400 + t - z),
                    None => None,
                },
                None => None,
            }
        } else {
            None
        },
    }
}

/// The milliseconds since 1970 of a text in ISO 8601. A text without a zone is in UTC.
pub open spec fn parsed_iso(text: Seq<char>) -> Option<int> {
    match iso_seconds(trim(text)) {
        Some(n) => if n >= 0 {
            Some(n * 1000)
        } else {
            None
        },
        None => None,
    }
}

fn two(cs: &[char], i: usize) -> (r: Option<i64>)
    ensures
        match r {
            Some(n) => two_at(cs@, i as int) == Some(n as int) && 0 <= n <= 99,
            None => two_at(cs@, i as int) is None,
        },
{
    if i < cs.len() && cs.len() - i >= 2 && digit(cs[i]) && digit(cs[i + 1]) {
        let a: u32 = cs[i] as u32;
        let b: u32 = cs[i + 1] as u32;
        Some((a - 0x30) as i64 * 10 + (b - 0x30) as i64)
    } else {
        None
    }
}

fn leap_year(y: i64) -> (r: bool)
    requires
        0 <= y <= 9999,
    ensures
        r == leap(y as int),
{
    y % 4 == 0 && (y % 100 != 0 || y % 400 == 0)
}

fn days_in_month(y: i64, m: i64) -> (r: i64)
    requires
        0 <= y <= 9999,
    ensures
        r == month_days(y as int, m as int),
        28 <= r <= 31,
{
    if m == 2 {
        if leap_year(y) {
            29
        } else {
            28
        }
    } else if m == 4 || m == 6 || m == 9 || m == 11 {
        30
    } else {
        31
    }
}

/// The days from the first of January 1970 to a date.
pub fn days_from_civil(y: i64, m: i64, d: i64) -> (r: i64)
    requires
        0 <= y <= 9999,
        valid_date(y as int, m as int, d as int),
    ensures
        r == day_number(y as int, m as int, d as int),
        -1_000_000 <= r <= 4_000_000,
{
    let mut n: i64 = 0;
    let mut i: i64 = 1;
    while i < m
        invariant
            0 <= y <= 9999,
            1 <= i <= m <= 12,
            n == days_before(y as int, i as int),
            0 <= n <= 31 * (i - 1),
        decreases m - i,
    {
        n = n + days_in_month(y, i);
        i = i + 1;
    }
    if y == 0 {
        assert(leaps(-1) == -1) by {
            assert((-1int) / 4 == -1 && (-1int) / 100 == -1 && (-1int) / 400 == -1);
        }
        assert(leaps(1969) == 477);
        return 365 * (0 - 1970) - 1 - 477 + n + d - 1;
    }
    let p: i64 = y - 1;
    assert(leaps(1969) == 477);
    365 * (y - 1970) + (p / 4 - p / 100 + p / 400) - 477 + n + d - 1
}

fn read_time(cs: &[char]) -> (r: Option<(i64, usize)>)
    ensures
        match r {
            Some((t, i)) => time_in(cs@, 11) == Some((t as int, i as int)) && 0 <= t < 86_400 && i
                <= cs@.len(),
            None => time_in(cs@, 11) is None,
        },
{
    let (h, m): (i64, i64) = match (two(cs, 11), two(cs, 14)) {
        (Some(h), Some(m)) => (h, m),
        _ => {
            return None;
        },
    };
    if cs[13] != ':' || h > 23 || m > 59 {
        return None;
    }
    if 16 < cs.len() && cs[16] == ':' {
        let x: i64 = match two(cs, 17) {
            Some(x) => x,
            None => {
                return None;
            },
        };
        if x > 59 {
            return None;
        }
        let t: i64 = h * 3600 + m * 60 + x;
        if 19 < cs.len() && cs[19] == '.' {
            let mut i: usize = 20;
            while i < cs.len() && digit(cs[i])
                invariant
                    20 <= i <= cs@.len(),
                    after_digits(cs@, 20) == after_digits(cs@, i as int),
                decreases cs@.len() - i,
            {
                i = i + 1;
            }
            return Some((t, i));
        }
        return Some((t, 19));
    }
    Some((h * 3600 + m * 60, 16))
}

fn read_zone(cs: &[char], i: usize) -> (r: Option<i64>)
    requires
        i <= cs@.len(),
    ensures
        match r {
            Some(z) => zone_in(cs@, i as int) == Some(z as int) && -86_400 < z < 86_400,
            None => zone_in(cs@, i as int) is None,
        },
{
    let left: usize = cs.len() - i;
    if left == 0 {
        return Some(0);
    }
    if left == 1 && (cs[i] == 'Z' || cs[i] == 'z') {
        return Some(0);
    }
    if left == 6 && (cs[i] == '+' || cs[i] == '-') && cs[i + 3] == ':' {
        let (h, m): (i64, i64) = match (two(cs, i + 1), two(cs, i + 4)) {
            (Some(h), Some(m)) => (h, m),
            _ => {
                return None;
            },
        };
        if h > 23 || m > 59 {
            return None;
        }
        return if cs[i] == '+' {
            Some(h * 3600 + m * 60)
        } else {
            Some(-(h * 3600 + m * 60))
        };
    }
    None
}

/// The milliseconds since 1970 of a text in ISO 8601, as `2026-08-12T03:04:05Z`. A text without
/// a zone is in UTC; a zone such as `+08:00` is allowed; a date alone is its midnight. What is
/// no such text, or before 1970, is nothing.
pub fn parse_iso8601(text: &str) -> (r: Option<u64>)
    ensures
        match r {
            Some(n) => parsed_iso(text@) == Some(n as int),
            None => parsed_iso(text@) is None,
        },
{
    let t: String = trimmed(text);
    let v: Vec<char> = chars_of(t.as_str());
    let cs: &[char] = v.as_slice();
    let (a, b, m, d): (i64, i64, i64, i64) = match (
        two(cs, 0),
        two(cs, 2),
        two(cs, 5),
        two(cs, 8),
    ) {
        (Some(a), Some(b), Some(m), Some(d)) => (a, b, m, d),
        _ => {
            return None;
        },
    };
    let y: i64 = a * 100 + b;
    if cs[4] != '-' || cs[7] != '-' || m < 1 || m > 12 || d < 1 || d > days_in_month(y, m) {
        return None;
    }
    let days: i64 = days_from_civil(y, m, d);
    let mut secs: i64 = days * 86_400;
    if cs.len() > 10 {
        if cs[10] != 'T' && cs[10] != 't' && cs[10] != ' ' {
            return None;
        }
        let (tod, end): (i64, usize) = match read_time(cs) {
            Some((tod, end)) => (tod, end),
            None => {
                return None;
            },
        };
        match read_zone(cs, end) {
            Some(z) => {
                secs = secs + tod - z;
            },
            None => {
                return None;
            },
        }
    }
    if secs < 0 {
        return None;
    }
    Some(secs as u64 * 1000)
}

// ---- round trip ------------------------------------------------------------------------

/// Every day from 1970 on has a date.
pub proof fn lemma_date_exists(z: int)
    requires
        z >= 0,
    ensures
        is_date(date_of(z), z),
        date_of(z).0 >= 1970,
{
    let t = z + 719_468;
    let era = t / 146_097;
    let doe = t % 146_097;
    let c = if doe / 36_524 >= 4 {
        3
    } else {
        doe / 36_524
    };
    let r1 = doe - c * 36_524;
    let q = r1 / 1_461;
    let r2 = r1 % 1_461;
    let a = if r2 / 365 >= 4 {
        3
    } else {
        r2 / 365
    };
    let doy = r2 - a * 365;
    let y0 = era * 400 + c * 100 + q * 4 + a;
    let mp = (5 * doy + 2) / 153;
    lemma_civil(z, era, c, q, a, doy);
    lemma_march(y0, doy, mp);
    let d = doy - (153 * mp + 2) / 5 + 1;
    let m = if mp < 10 {
        mp + 3
    } else {
        mp - 9
    };
    let y = if m <= 2 {
        y0 + 1
    } else {
        y0
    };
    lemma_date_of(y, m, d);
    lemma_within_year(y, m, d);
    if y < 1970 {
        lemma_new_year_grows(y + 1, 1970);
    }
}

proof fn lemma_padded2(n: nat)
    requires
        n < 100,
    ensures
        padded(n, 2) == seq![digit_char((n / 10) as int), digit_char((n % 10) as int)],
{
    reveal_with_fuel(nat_text, 3);
    assert(digit_char(0) == '0');
    assert(padded(n, 2) =~= seq![digit_char((n / 10) as int), digit_char((n % 10) as int)]);
}

proof fn lemma_padded4(n: nat)
    requires
        n < 10_000,
    ensures
        padded(n, 4) == padded(n / 100, 2) + padded(n % 100, 2),
{
    reveal_with_fuel(nat_text, 5);
    lemma_padded2(n / 100);
    lemma_padded2(n % 100);
    assert(digit_char(0) == '0');
    assert(n / 10 / 10 == n / 100);
    assert(n / 100 / 10 == n / 1000);
    assert((n % 100) / 10 == (n / 10) % 10);
    assert((n % 100) % 10 == n % 10);
    assert((n / 100) % 10 == n / 100 - 10 * (n / 1000));
    assert(padded(n, 4) =~= padded(n / 100, 2) + padded(n % 100, 2));
}

/// Two digits are read back.
proof fn lemma_two_at(s: Seq<char>, i: int, n: nat)
    requires
        n < 100,
        0 <= i,
        i + 2 <= s.len(),
        s.subrange(i, i + 2) == padded(n, 2),
    ensures
        two_at(s, i) == Some(n as int),
{
    lemma_padded2(n);
    assert(s[i] == s.subrange(i, i + 2)[0]);
    assert(s[i + 1] == s.subrange(i, i + 2)[1]);
}

/// Where the parts of a time in ISO 8601 stand.
proof fn lemma_shape(
    a: Seq<char>,
    b: Seq<char>,
    m: Seq<char>,
    d: Seq<char>,
    h: Seq<char>,
    i: Seq<char>,
    x: Seq<char>,
)
    requires
        a.len() == 2,
        b.len() == 2,
        m.len() == 2,
        d.len() == 2,
        h.len() == 2,
        i.len() == 2,
        x.len() == 2,
    ensures
        ({
            let s = (a + b) + "-"@ + m + "-"@ + d + "T"@ + h + ":"@ + i + ":"@ + x + "Z"@;
            &&& s.len() == 20
            &&& s.subrange(0, 2) == a
            &&& s.subrange(2, 4) == b
            &&& s.subrange(5, 7) == m
            &&& s.subrange(8, 10) == d
            &&& s.subrange(11, 13) == h
            &&& s.subrange(14, 16) == i
            &&& s.subrange(17, 19) == x
            &&& s[0] == a[0]
            &&& s[4] == '-'
            &&& s[7] == '-'
            &&& s[10] == 'T'
            &&& s[13] == ':'
            &&& s[16] == ':'
            &&& s[19] == 'Z'
        }),
{
    reveal_strlit("-");
    reveal_strlit("T");
    reveal_strlit(":");
    reveal_strlit("Z");
    let s1 = (a + b) + "-"@ + m + "-"@ + d;
    assert(s1.len() == 10);
    assert(s1.subrange(0, 2) =~= a && s1.subrange(2, 4) =~= b && s1.subrange(5, 7) =~= m
        && s1.subrange(8, 10) =~= d && s1[4] == '-' && s1[7] == '-');
    let s2 = s1 + "T"@ + h + ":"@ + i + ":"@ + x + "Z"@;
    assert(s2.len() == 20);
    assert(s2.subrange(0, 2) =~= s1.subrange(0, 2));
    assert(s2.subrange(2, 4) =~= s1.subrange(2, 4));
    assert(s2.subrange(5, 7) =~= s1.subrange(5, 7));
    assert(s2.subrange(8, 10) =~= s1.subrange(8, 10));
    assert(s2.subrange(11, 13) =~= h);
    assert(s2.subrange(14, 16) =~= i);
    assert(s2.subrange(17, 19) =~= x);
    assert(s2[0] == s1.subrange(0, 2)[0]);
}

/// Reading a text with the shape of a time in ISO 8601.
proof fn lemma_read(s: Seq<char>, y: int, m: int, d: int, t: int)
    requires
        s.len() == 20,
        two_at(s, 0) == Some(y / 100),
        two_at(s, 2) == Some(y % 100),
        two_at(s, 5) == Some(m),
        two_at(s, 8) == Some(d),
        two_at(s, 11) == Some(t / 3600),
        two_at(s, 14) == Some((t % 3600) / 60),
        two_at(s, 17) == Some(t % 60),
        s[4] == '-',
        s[7] == '-',
        s[10] == 'T',
        s[13] == ':',
        s[16] == ':',
        s[19] == 'Z',
        0 <= y <= 9999,
        0 <= t < 86_400,
        valid_date(y, m, d),
    ensures
        iso_seconds(s) == Some(day_number(y, m, d) * 86_400 + t),
        trim(s) == s,
{
    assert(y / 100 * 100 + y % 100 == y);
    assert(date_in(s) == Some((y, m, d)));
    assert(t / 3600 * 3600 + (t % 3600) / 60 * 60 + t % 60 == t);
    assert(time_in(s, 11) == Some((t, 19int)));
    assert(zone_in(s, 19) == Some(0int));
    assert(is_digit(s[0]));
}

/// The parts of a date and a time of day are read back.
proof fn lemma_fields(y: nat, m: nat, d: nat, h: nat, i: nat, x: nat)
    requires
        y < 10_000,
        m < 100,
        d < 100,
        h < 100,
        i < 100,
        x < 100,
    ensures
        ({
            let s = padded(y, 4) + "-"@ + padded(m, 2) + "-"@ + padded(d, 2) + "T"@ + padded(h, 2)
                + ":"@ + padded(i, 2) + ":"@ + padded(x, 2) + "Z"@;
            &&& s.len() == 20
            &&& two_at(s, 0) == Some((y / 100) as int)
            &&& two_at(s, 2) == Some((y % 100) as int)
            &&& two_at(s, 5) == Some(m as int)
            &&& two_at(s, 8) == Some(d as int)
            &&& two_at(s, 11) == Some(h as int)
            &&& two_at(s, 14) == Some(i as int)
            &&& two_at(s, 17) == Some(x as int)
            &&& s[4] == '-'
            &&& s[7] == '-'
            &&& s[10] == 'T'
            &&& s[13] == ':'
            &&& s[16] == ':'
            &&& s[19] == 'Z'
        }),
{
    lemma_padded4(y);
    lemma_padded2_len(y / 100);
    lemma_padded2_len(y % 100);
    lemma_padded2_len(m);
    lemma_padded2_len(d);
    lemma_padded2_len(h);
    lemma_padded2_len(i);
    lemma_padded2_len(x);
    lemma_shape(
        padded(y / 100, 2),
        padded(y % 100, 2),
        padded(m, 2),
        padded(d, 2),
        padded(h, 2),
        padded(i, 2),
        padded(x, 2),
    );
    let s = padded(y, 4) + "-"@ + padded(m, 2) + "-"@ + padded(d, 2) + "T"@ + padded(h, 2) + ":"@
        + padded(i, 2) + ":"@ + padded(x, 2) + "Z"@;
    lemma_two_at(s, 0, y / 100);
    lemma_two_at(s, 2, y % 100);
    lemma_two_at(s, 5, m);
    lemma_two_at(s, 8, d);
    lemma_two_at(s, 11, h);
    lemma_two_at(s, 14, i);
    lemma_two_at(s, 17, x);
}

proof fn lemma_padded2_len(n: nat)
    requires
        n < 100,
    ensures
        padded(n, 2).len() == 2,
{
    lemma_padded2(n);
}

/// The time of day and the day make up the time.
proof fn lemma_seconds(ms: nat)
    ensures
        (ms / 86_400_000) * 86_400 + second_of_day(ms) == ms / 1000,
        second_of_day(ms) < 86_400,
{
    assert(ms / 86_400_000 == (ms / 1000) / 86_400);
}

proof fn lemma_read_back(y: int, m: int, d: int, t: nat)
    requires
        0 <= y <= 9999,
        valid_date(y, m, d),
        t < 86_400,
    ensures
        ({
            let s = padded(y as nat, 4) + "-"@ + padded(m as nat, 2) + "-"@ + padded(d as nat, 2)
                + "T"@ + padded(t / 3600, 2) + ":"@ + padded((t % 3600) / 60, 2) + ":"@ + padded(
                t % 60,
                2,
            ) + "Z"@;
            trim(s) == s && iso_seconds(s) == Some(day_number(y, m, d) * 86_400 + t)
        }),
{
    let s = padded(y as nat, 4) + "-"@ + padded(m as nat, 2) + "-"@ + padded(d as nat, 2) + "T"@
        + padded(t / 3600, 2) + ":"@ + padded((t % 3600) / 60, 2) + ":"@ + padded(t % 60, 2) + "Z"@;
    lemma_fields(y as nat, m as nat, d as nat, t / 3600, (t % 3600) / 60, t % 60);
    lemma_read(s, y, m, d, t as int);
}

/// A time to the second that is written in ISO 8601 is read back. (The years from 10000 on are
/// written with more than four digits and are not.)
pub proof fn law_iso_round_trip(ms: nat)
    requires
        date_at(ms).0 <= 9999,
    ensures
        parsed_iso(iso_secs_text(ms)) == Some((ms / 1000 * 1000) as int),
{
    lemma_date_exists((ms / 86_400_000) as int);
    let (y, m, d) = date_at(ms);
    lemma_seconds(ms);
    lemma_read_back(y, m, d, second_of_day(ms));
}

// ---- the order of stamps ---------------------------------------------------------------

/// Numbers as two digits each, one behind the other.
pub open spec fn fields_text(fs: Seq<nat>) -> Seq<char>
    decreases fs.len(),
{
    if fs.len() == 0 {
        seq![]
    } else {
        padded(fs[0], 2) + fields_text(fs.drop_first())
    }
}

/// Whether numbers come before others, or are the same, compared from the first on.
pub open spec fn in_turn(a: Seq<nat>, b: Seq<nat>) -> bool
    decreases a.len(),
{
    a.len() == 0 || (b.len() > 0 && (a[0] < b[0] || (a[0] == b[0] && in_turn(
        a.drop_first(),
        b.drop_first(),
    ))))
}

proof fn lemma_fields_order(a: Seq<nat>, b: Seq<nat>)
    requires
        a.len() == b.len(),
        forall|i: int| 0 <= i < a.len() ==> #[trigger] a[i] < 100,
        forall|i: int| 0 <= i < b.len() ==> #[trigger] b[i] < 100,
        in_turn(a, b),
    ensures
        !less(fields_text(b), fields_text(a)),
    decreases a.len(),
{
    if a.len() > 0 {
        let x = fields_text(a);
        let y = fields_text(b);
        lemma_padded2(a[0]);
        lemma_padded2(b[0]);
        let p = fields_text(a.drop_first());
        let q = fields_text(b.drop_first());
        assert(x.drop_first() =~= seq![digit_char((a[0] % 10) as int)] + p);
        assert(y.drop_first() =~= seq![digit_char((b[0] % 10) as int)] + q);
        assert(x.drop_first().drop_first() =~= p);
        assert(y.drop_first().drop_first() =~= q);
        assert(x[0] as u32 == 0x30 + a[0] / 10 && x.drop_first()[0] as u32 == 0x30 + a[0] % 10);
        assert(y[0] as u32 == 0x30 + b[0] / 10 && y.drop_first()[0] as u32 == 0x30 + b[0] % 10);
        lemma_code_points(x[0], y[0]);
        lemma_code_points(x.drop_first()[0], y.drop_first()[0]);
        reveal_with_fuel(less, 3);
        if a[0] == b[0] {
            lemma_fields_order(a.drop_first(), b.drop_first());
        } else {
            assert(a[0] / 10 < b[0] / 10 || (a[0] / 10 == b[0] / 10 && a[0] % 10 < b[0] % 10));
        }
    }
}

/// The numbers of a time: the hundreds and the rest of its year, month, day, hour, minute and
/// second.
pub open spec fn time_fields(ms: nat) -> Seq<nat> {
    let (y, m, d) = date_at(ms);
    let s = second_of_day(ms);
    seq![
        y as nat / 100,
        y as nat % 100,
        m as nat,
        d as nat,
        s / 3600,
        (s % 3600) / 60,
        s % 60,
    ]
}

proof fn lemma_time_fields(ms: nat)
    requires
        ms < 253_402_300_800_000,
    ensures
        1970 <= date_at(ms).0 <= 9999,
        valid_date(date_at(ms).0, date_at(ms).1, date_at(ms).2),
        forall|i: int| 0 <= i < 7 ==> #[trigger] time_fields(ms)[i] < 100,
        stamped(ms, seq![], seq![], seq![]) == fields_text(time_fields(ms)),
{
    let z = (ms / 86_400_000) as int;
    lemma_date_exists(z);
    let (y, m, d) = date_at(ms);
    lemma_within_year(y, m, d);
    assert(new_year(10_000) == 2_932_897);
    if y >= 10_000 {
        lemma_new_year_grows(10_000, y);
    }
    if y < 1970 {
        lemma_new_year_grows(y + 1, 1970);
    }
    lemma_seconds(ms);
    let s = second_of_day(ms);
    lemma_padded4(y as nat);
    lemma_seven(
        y as nat / 100,
        y as nat % 100,
        m as nat,
        d as nat,
        s / 3600,
        (s % 3600) / 60,
        s % 60,
    );
    lemma_no_separators(
        padded(y as nat, 4),
        padded(m as nat, 2),
        padded(d as nat, 2),
        padded(s / 3600, 2),
        padded((s % 3600) / 60, 2),
        padded(s % 60, 2),
    );
}

proof fn lemma_no_separators(
    a: Seq<char>,
    b: Seq<char>,
    c: Seq<char>,
    d: Seq<char>,
    e: Seq<char>,
    f: Seq<char>,
)
    ensures
        ({
            let none: Seq<char> = seq![];
            a + none + b + none + c + none + d + none + e + none + f == a + b + c + d + e + f
        }),
{
    let none: Seq<char> = seq![];
    assert(a + none =~= a);
    assert(a + b + none =~= a + b);
    assert(a + b + c + none =~= a + b + c);
    assert(a + b + c + d + none =~= a + b + c + d);
    assert(a + b + c + d + e + none =~= a + b + c + d + e);
}

proof fn lemma_field(a: nat, rest: Seq<nat>)
    ensures
        fields_text(seq![a] + rest) == padded(a, 2) + fields_text(rest),
{
    assert((seq![a] + rest).drop_first() =~= rest);
}

proof fn lemma_seven_joined(
    p: Seq<char>,
    q: Seq<char>,
    r: Seq<char>,
    s: Seq<char>,
    t: Seq<char>,
    u: Seq<char>,
    v: Seq<char>,
)
    ensures
        p + (q + (r + (s + (t + (u + (v + seq![])))))) == p + q + r + s + t + u + v,
{
    assert(v + seq![] =~= v);
    assert(t + (u + v) =~= t + u + v);
    assert(r + (s + (t + u + v)) =~= r + s + t + u + v);
    assert(p + (q + (r + s + t + u + v)) =~= p + q + r + s + t + u + v);
}

proof fn lemma_seven(a: nat, b: nat, c: nat, d: nat, e: nat, f: nat, g: nat)
    ensures
        fields_text(seq![a, b, c, d, e, f, g]) == padded(a, 2) + padded(b, 2) + padded(c, 2) + padded(
            d,
            2,
        ) + padded(e, 2) + padded(f, 2) + padded(g, 2),
{
    let none: Seq<nat> = seq![];
    let g1 = seq![g] + none;
    let f1 = seq![f] + g1;
    let e1 = seq![e] + f1;
    let d1 = seq![d] + e1;
    let c1 = seq![c] + d1;
    let b1 = seq![b] + c1;
    lemma_field(g, none);
    lemma_field(f, g1);
    lemma_field(e, f1);
    lemma_field(d, e1);
    lemma_field(c, d1);
    lemma_field(b, c1);
    lemma_field(a, b1);
    assert(seq![a, b, c, d, e, f, g] =~= seq![a] + b1);
    assert(fields_text(none) == Seq::<char>::empty());
    lemma_seven_joined(
        padded(a, 2),
        padded(b, 2),
        padded(c, 2),
        padded(d, 2),
        padded(e, 2),
        padded(f, 2),
        padded(g, 2),
    );
}

/// A later day is a later date.
proof fn lemma_date_order(a: (int, int, int), b: (int, int, int))
    requires
        valid_date(a.0, a.1, a.2),
        valid_date(b.0, b.1, b.2),
        day_number(a.0, a.1, a.2) < day_number(b.0, b.1, b.2),
    ensures
        a.0 < b.0 || (a.0 == b.0 && (a.1 < b.1 || (a.1 == b.1 && a.2 < b.2))),
{
    lemma_within_year(a.0, a.1, a.2);
    lemma_within_year(b.0, b.1, b.2);
    if b.0 < a.0 {
        lemma_new_year_grows(b.0 + 1, a.0);
    }
    lemma_days_before(a.0);
}

/// The digits of a text.
pub open spec fn digits_in(s: Seq<char>) -> Seq<char>
    decreases s.len(),
{
    if s.len() == 0 {
        seq![]
    } else if is_digit(s.last()) {
        digits_in(s.drop_last()).push(s.last())
    } else {
        digits_in(s.drop_last())
    }
}

proof fn lemma_digits_joined(a: Seq<char>, b: Seq<char>)
    ensures
        digits_in(a + b) == digits_in(a) + digits_in(b),
    decreases b.len(),
{
    if b.len() == 0 {
        assert(a + b =~= a);
        assert(digits_in(a) + digits_in(b) =~= digits_in(a));
    } else {
        lemma_digits_joined(a, b.drop_last());
        assert((a + b).drop_last() =~= a + b.drop_last());
        assert((a + b).last() == b.last());
        assert(digits_in(a + b) =~= digits_in(a) + digits_in(b));
    }
}

proof fn lemma_all_digits(s: Seq<char>)
    requires
        forall|i: int| 0 <= i < s.len() ==> is_digit(#[trigger] s[i]),
    ensures
        digits_in(s) == s,
    decreases s.len(),
{
    if s.len() > 0 {
        assert(is_digit(s[s.len() - 1]));
        assert forall|i: int| 0 <= i < s.drop_last().len() implies is_digit(#[trigger] s.drop_last()[i]) by {
            assert(s.drop_last()[i] == s[i]);
        }
        lemma_all_digits(s.drop_last());
        assert(s.drop_last().push(s.last()) =~= s);
    }
}

proof fn lemma_fields_are_digits(fs: Seq<nat>)
    requires
        forall|i: int| 0 <= i < fs.len() ==> #[trigger] fs[i] < 100,
    ensures
        fields_text(fs).len() == 2 * fs.len(),
        forall|i: int| 0 <= i < fields_text(fs).len() ==> is_digit(#[trigger] fields_text(fs)[i]),
    decreases fs.len(),
{
    if fs.len() > 0 {
        lemma_padded2(fs[0]);
        lemma_fields_are_digits(fs.drop_first());
        let t = fields_text(fs);
        let rest = fields_text(fs.drop_first());
        assert forall|i: int| 0 <= i < t.len() implies is_digit(#[trigger] t[i]) by {
            if i >= 2 {
                assert(t[i] == rest[i - 2]);
            }
        }
    }
}

proof fn lemma_two_digits(n: nat)
    requires
        n < 100,
    ensures
        digits_in(padded(n, 2)) == padded(n, 2),
{
    lemma_padded2(n);
    lemma_all_digits(padded(n, 2));
}

/// A stamp is the digits of the time in ISO 8601 up to the second. It has fourteen characters,
/// all digits.
pub proof fn law_stamp_is_iso(ms: nat)
    requires
        ms < 253_402_300_800_000,
    ensures
        stamped(ms, seq![], seq![], seq![]) == digits_in(iso_text(ms)).take(14),
        stamped(ms, seq![], seq![], seq![]).len() == 14,
        forall|i: int|
            0 <= i < 14 ==> is_digit(#[trigger] stamped(ms, seq![], seq![], seq![])[i]),
{
    lemma_time_fields(ms);
    let fs = time_fields(ms);
    lemma_fields_are_digits(fs);
    let (y, m, d) = date_at(ms);
    let s = second_of_day(ms);
    lemma_seconds(ms);
    lemma_padded4(y as nat);
    reveal_strlit("-");
    reveal_strlit("T");
    reveal_strlit(":");
    reveal_strlit("");
    let none: Seq<char> = seq![];
    assert("-"@.drop_last() =~= none && "T"@.drop_last() =~= none && ":"@.drop_last() =~= none);
    assert(digits_in(none) =~= none);
    assert(digits_in("-"@) =~= none && digits_in("T"@) =~= none && digits_in(":"@) =~= none);
    let yy = padded(y as nat, 4);
    lemma_two_digits(y as nat / 100);
    lemma_two_digits(y as nat % 100);
    lemma_digits_joined(padded(y as nat / 100, 2), padded(y as nat % 100, 2));
    let mm = padded(m as nat, 2);
    let dd = padded(d as nat, 2);
    let hh = padded(s / 3600, 2);
    let ii = padded((s % 3600) / 60, 2);
    let ss = padded(s % 60, 2);
    lemma_two_digits(m as nat);
    lemma_two_digits(d as nat);
    lemma_two_digits(s / 3600);
    lemma_two_digits((s % 3600) / 60);
    lemma_two_digits(s % 60);
    lemma_digits_joined(yy, "-"@);
    lemma_digits_joined(yy + "-"@, mm);
    lemma_digits_joined(yy + "-"@ + mm, "-"@);
    lemma_digits_joined(yy + "-"@ + mm + "-"@, dd);
    lemma_digits_joined(yy + "-"@ + mm + "-"@ + dd, "T"@);
    lemma_digits_joined(yy + "-"@ + mm + "-"@ + dd + "T"@, hh);
    lemma_digits_joined(yy + "-"@ + mm + "-"@ + dd + "T"@ + hh, ":"@);
    lemma_digits_joined(yy + "-"@ + mm + "-"@ + dd + "T"@ + hh + ":"@, ii);
    lemma_digits_joined(yy + "-"@ + mm + "-"@ + dd + "T"@ + hh + ":"@ + ii, ":"@);
    lemma_digits_joined(yy + "-"@ + mm + "-"@ + dd + "T"@ + hh + ":"@ + ii + ":"@, ss);
    let head = stamped(ms, "-"@, "T"@, ":"@);
    let t = stamped(ms, none, none, none);
    assert(digits_in(head) =~= t);
    lemma_digits_joined(head, "."@ + padded(ms % 1000, 3) + "Z"@);
    assert(iso_text(ms) =~= head + ("."@ + padded(ms % 1000, 3) + "Z"@));
    assert(digits_in(iso_text(ms)).take(14) =~= t);
}

proof fn lemma_year_order(a: nat, b: nat)
    requires
        a <= b,
    ensures
        a < b ==> a / 100 < b / 100 || (a / 100 == b / 100 && a % 100 < b % 100),
{
}

proof fn lemma_clock_order(a: nat, b: nat)
    requires
        a <= b < 86_400,
    ensures
        ({
            ||| a / 3600 < b / 3600
            ||| a / 3600 == b / 3600 && {
                ||| (a % 3600) / 60 < (b % 3600) / 60
                ||| (a % 3600) / 60 == (b % 3600) / 60 && a % 60 <= b % 60
            }
        }),
{
}

proof fn lemma_in_turn(f: Seq<nat>, g: Seq<nat>, n: int)
    requires
        f.len() == g.len(),
        0 <= n <= f.len(),
        forall|i: int| 0 <= i < n ==> #[trigger] f[i] == g[i],
        n < f.len() ==> f[n] < g[n],
    ensures
        in_turn(f, g),
    decreases f.len(),
{
    if n > 0 {
        let a = f.drop_first();
        let b = g.drop_first();
        assert forall|i: int| 0 <= i < n - 1 implies #[trigger] a[i] == b[i] by {
            assert(a[i] == f[i + 1] && b[i] == g[i + 1]);
        }
        assert(f[0] == g[0]);
        lemma_in_turn(a, b, n - 1);
    }
}

/// Stamps sort as times do: the stamp of a later time does not come before that of an earlier
/// one. (From the year 10000 on a year has more digits.)
pub proof fn law_stamps_sort(a: nat, b: nat)
    requires
        a <= b < 253_402_300_800_000,
    ensures
        !less(stamped(b, seq![], seq![], seq![]), stamped(a, seq![], seq![], seq![])),
{
    lemma_time_fields(a);
    lemma_time_fields(b);
    let x = date_at(a);
    let y = date_at(b);
    let za = (a / 86_400_000) as int;
    let zb = (b / 86_400_000) as int;
    lemma_date_exists(za);
    lemma_date_exists(zb);
    lemma_seconds(a);
    lemma_seconds(b);
    let f = time_fields(a);
    let g = time_fields(b);
    if za < zb {
        lemma_date_order(x, y);
        lemma_year_order(x.0 as nat, y.0 as nat);
    } else {
        assert(za == zb);
        lemma_clock_order(second_of_day(a), second_of_day(b));
    }
    let n: int = if f[0] != g[0] {
        0
    } else if f[1] != g[1] {
        1
    } else if f[2] != g[2] {
        2
    } else if f[3] != g[3] {
        3
    } else if f[4] != g[4] {
        4
    } else if f[5] != g[5] {
        5
    } else if f[6] != g[6] {
        6
    } else {
        7
    };
    lemma_in_turn(f, g, n);
    lemma_fields_order(f, g);
}

// ---- laws of the calendar ----------------------------------------------------------------

/// The calendar: every fourth year has a day more, but of the years that end a century only every
/// fourth. A year begins where the one before it ends, a month where the one before it ends, and
/// each day follows the one before it; the days are counted from the first of January 1970.
pub proof fn law_calendar(y: int, m: int, d: int)
    ensures
        leap(y) <==> (y % 4 == 0 && y % 100 != 0) || y % 400 == 0,
        new_year(y + 1) - new_year(y) == (if leap(y) {
            366int
        } else {
            365
        }),
        month_days(y, 2) == (if leap(y) {
            29int
        } else {
            28
        }),
        m == 4 || m == 6 || m == 9 || m == 11 ==> month_days(y, m) == 30,
        m == 1 || m == 3 || m == 5 || m == 7 || m == 8 || m == 10 || m == 12 ==> month_days(y, m)
            == 31,
        day_number(1970, 1, 1) == 0,
        day_number(y, m, d + 1) == day_number(y, m, d) + 1,
        1 <= m < 12 ==> day_number(y, m + 1, 1) == day_number(y, m, month_days(y, m)) + 1,
        day_number(y + 1, 1, 1) == day_number(y, 12, 31) + 1,
{
    lemma_leaps_step(y);
    assert((y % 400 == 0) ==> y % 4 == 0 && y % 100 == 0) by (nonlinear_arith);
    reveal_with_fuel(days_before, 13);
}

/// A time of day is its hours, minutes and seconds, each written with two digits, and a time in
/// ISO 8601 is the date and the time of day; with milliseconds they follow the seconds.
pub proof fn law_time_written(ms: nat)
    ensures
        ({
            let (y, m, d) = date_at(ms);
            let s = (ms / 1000) % 86_400;
            let date = padded(y as nat, 4) + "-"@ + padded(m as nat, 2) + "-"@ + padded(d as nat, 2);
            let time = padded(s / 3600, 2) + ":"@ + padded((s % 3600) / 60, 2) + ":"@ + padded(
                s % 60,
                2,
            );
            &&& iso_secs_text(ms) == date + "T"@ + time + "Z"@
            &&& iso_text(ms) == date + "T"@ + time + "."@ + padded(ms % 1000, 3) + "Z"@
            &&& s / 3600 < 24 && (s % 3600) / 60 < 60 && s % 60 < 60
            &&& (s / 3600) * 3600 + ((s % 3600) / 60) * 60 + s % 60 == s
        }),
{
    let (y, m, d) = date_at(ms);
    let s = second_of_day(ms);
    let date = padded(y as nat, 4) + "-"@ + padded(m as nat, 2) + "-"@ + padded(d as nat, 2);
    let time = padded(s / 3600, 2) + ":"@ + padded((s % 3600) / 60, 2) + ":"@ + padded(s % 60, 2);
    assert(stamped(ms, "-"@, "T"@, ":"@) =~= date + "T"@ + time);
}

/// A date in a header tells the day of the week, the day, the month by its name, the year and the
/// time of day. The days of the week follow each other, and the first of January 1970 was a
/// Thursday.
pub proof fn law_header_date(ms: nat)
    ensures
        ({
            let (y, m, d) = date_at(ms);
            let s = (ms / 1000) % 86_400;
            let day = (ms / 86_400_000) % 7;
            let name = if day == 0 {
                "Thu"@
            } else if day == 1 {
                "Fri"@
            } else if day == 2 {
                "Sat"@
            } else if day == 3 {
                "Sun"@
            } else if day == 4 {
                "Mon"@
            } else if day == 5 {
                "Tue"@
            } else {
                "Wed"@
            };
            let time = padded(s / 3600, 2) + ":"@ + padded((s % 3600) / 60, 2) + ":"@ + padded(
                s % 60,
                2,
            );
            http_date_text(ms) == name + ", "@ + padded(d as nat, 2) + " "@ + month_name(m) + " "@
                + padded(y as nat, 4) + " "@ + time + " GMT"@
        }),
        month_name(1) == "Jan"@ && month_name(2) == "Feb"@ && month_name(3) == "Mar"@ && month_name(
            4,
        ) == "Apr"@ && month_name(5) == "May"@ && month_name(6) == "Jun"@ && month_name(7)
            == "Jul"@ && month_name(8) == "Aug"@ && month_name(9) == "Sep"@ && month_name(10)
            == "Oct"@ && month_name(11) == "Nov"@ && month_name(12) == "Dec"@,
{
    let n = ms / 86_400_000;
    assert((n + 4) % 7 == (n % 7 + 4) % 7);
    let (y, m, d) = date_at(ms);
    let s = second_of_day(ms);
    let front = weekday_name(((n + 4) % 7) as int) + ", "@ + padded(d as nat, 2) + " "@ + month_name(m)
        + " "@ + padded(y as nat, 4) + " "@;
    let time = padded(s / 3600, 2) + ":"@ + padded((s % 3600) / 60, 2) + ":"@ + padded(s % 60, 2);
    assert(http_date_text(ms) =~= front + time + " GMT"@);
}

/// A zone is taken off: a time that is written with an offset is that much earlier than the same
/// time in UTC, and without a zone it is in UTC.
pub proof fn law_zone(s: Seq<char>, zone: Seq<char>, h: int, m: int)
    requires
        s.len() == 19,
        s[16] == ':',
        zone.len() == 6,
        zone[3] == ':',
        two_at(zone, 1) == Some(h),
        two_at(zone, 4) == Some(m),
        h <= 23,
        m <= 59,
    ensures
        iso_seconds(s) == iso_seconds(s + seq!['Z']),
        zone[0] == '+' ==> iso_seconds(s + zone) == (match iso_seconds(s) {
            Some(n) => Some(n - (h * 3600 + m * 60)),
            None => None,
        }),
        zone[0] == '-' ==> iso_seconds(s + zone) == (match iso_seconds(s) {
            Some(n) => Some(n + (h * 3600 + m * 60)),
            None => None,
        }),
{
    let a = s + seq!['Z'];
    let b = s + zone;
    assert(forall|i: int| 0 <= i < 19 ==> a[i] == s[i] && b[i] == s[i]);
    assert(a[19] == 'Z');
    assert(b[19] == zone[0] && b[20] == zone[1] && b[21] == zone[2] && b[22] == zone[3] && b[23]
        == zone[4] && b[24] == zone[5]);
    assert(date_in(a) == date_in(s) && date_in(b) == date_in(s));
    assert(time_in(a, 11) == time_in(s, 11));
}

} // verus!
