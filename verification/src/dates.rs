//! Calendar dates as plain year/month/day values: validity, text form
//! `YYYY-MM-DD`, month keys `YYYY-MM`, successor arithmetic, and the two
//! calendar questions (weekday, ISO week number) that are answered by an
//! outside date library.

use vstd::prelude::*;
use vstd::string::StringExecFns;
use crate::text::{
    all_digits,
    dec_val,
    digit_char,
    pad2,
    pad2_string,
    pad4,
    pad4_string,
    parse_uint,
    str_to_chars,
};
use chrono::Datelike;

verus! {

/// Proleptic-Gregorian leap-year rule.
pub open spec fn is_leap_year(y: int) -> bool {
    y % 4 == 0 && (y % 100 != 0 || y % 400 == 0)
}

/// Number of days of month `m` of year `y`.
pub open spec fn days_in_month(y: int, m: int) -> int {
    if m == 2 {
        if is_leap_year(y) {
            29
        } else {
            28
        }
    } else if m == 4 || m == 6 || m == 9 || m == 11 {
        30
    } else {
        31
    }
}

/// A real calendar date that the library handles: four-digit year,
/// month and day within the calendar.
pub open spec fn valid_date(y: int, m: int, d: int) -> bool {
    &&& 1 <= y <= 9999
    &&& 1 <= m <= 12
    &&& 1 <= d <= days_in_month(y, m)
}

/// One calendar date, held as plain numbers.
#[derive(Clone, Copy, PartialEq, Eq, Structural, Debug)]
pub struct Date {
    pub year: i32,
    pub month: u32,
    pub day: u32,
}

/// The date names a real day of the supported calendar range.
pub open spec fn date_wf(d: Date) -> bool {
    valid_date(d.year as int, d.month as int, d.day as int)
}

/// The text form `YYYY-MM-DD` of a date.
pub open spec fn date_seq(y: int, m: int, d: int) -> Seq<char> {
    pad4(y) + seq!['-'] + pad2(m) + seq!['-'] + pad2(d)
}

/// The text form `YYYY-MM` of a month key.
pub open spec fn month_seq(y: int, m: int) -> Seq<char> {
    pad4(y) + seq!['-'] + pad2(m)
}

/// One month of one year, the key of the monthly aggregates.
#[derive(Clone, Copy, PartialEq, Eq, Structural, Debug)]
pub struct YearMonth {
    pub year: i32,
    pub month: u32,
}

/// The month key names a month of the supported calendar range.
pub open spec fn ym_wf(ym: YearMonth) -> bool {
    1 <= ym.year <= 9999 && 1 <= ym.month <= 12
}

/// Chronological order on month keys.
pub open spec fn ym_lt(a: YearMonth, b: YearMonth) -> bool {
    a.year < b.year || (a.year == b.year && a.month < b.month)
}

/// Number of days of month `m` of year `y`.
pub fn days_in_month_of(y: i32, m: u32) -> (r: u32)
    requires
        0 <= y,
        1 <= m <= 12,
    ensures
        r == days_in_month(y as int, m as int),
{
    if m == 2 {
        if y % 4 == 0 && (y % 100 != 0 || y % 400 == 0) {
            29
        } else {
            28
        }
    } else if m == 4 || m == 6 || m == 9 || m == 11 {
        30
    } else {
        31
    }
}

/// The `YYYY-MM-DD` form of a date.
pub fn format_date(d: &Date) -> (s: String)
    requires
        date_wf(*d),
    ensures
        s@ == date_seq(d.year as int, d.month as int, d.day as int),
{
    proof {
        reveal_strlit("-");
    }
    let mut s = pad4_string(d.year as u64);
    s.append("-");
    let m = pad2_string(d.month as u64);
    s.append(m.as_str());
    s.append("-");
    let dd = pad2_string(d.day as u64);
    s.append(dd.as_str());
    proof {
        assert(s@ =~= date_seq(d.year as int, d.month as int, d.day as int));
    }
    s
}

/// The `YYYY-MM` form of a month key.
pub fn format_month(ym: &YearMonth) -> (s: String)
    requires
        ym_wf(*ym),
    ensures
        s@ == month_seq(ym.year as int, ym.month as int),
{
    proof {
        reveal_strlit("-");
    }
    let mut s = pad4_string(ym.year as u64);
    s.append("-");
    let m = pad2_string(ym.month as u64);
    s.append(m.as_str());
    proof {
        assert(s@ =~= month_seq(ym.year as int, ym.month as int));
    }
    s
}

/// What a text of the exact shape `YYYY-MM-DD` denotes: the date's
/// numbers when they name a real calendar day, nothing otherwise.
pub open spec fn spec_parse_date(s: Seq<char>) -> Option<(int, int, int)> {
    if s.len() == 10 && s[4] == '-' && s[7] == '-' && all_digits(s.subrange(0, 4)) && all_digits(
        s.subrange(5, 7),
    ) && all_digits(s.subrange(8, 10)) {
        let y = dec_val(s.subrange(0, 4)) as int;
        let m = dec_val(s.subrange(5, 7)) as int;
        let d = dec_val(s.subrange(8, 10)) as int;
        if valid_date(y, m, d) {
            Some((y, m, d))
        } else {
            None
        }
    } else {
        None
    }
}

/// Parses a `YYYY-MM-DD` text into a date; `None` on any other shape
/// and on day numbers outside the calendar.
pub fn parse_date(s: &[char]) -> (r: Option<Date>)
    ensures
        match r {
            Some(dt) => spec_parse_date(s@) == Some(
                (dt.year as int, dt.month as int, dt.day as int),
            ) && date_wf(dt),
            None => spec_parse_date(s@) is None,
        },
{
    if s.len() != 10 {
        return None;
    }
    if !(s[4] == '-' && s[7] == '-') {
        return None;
    }
    let y = match parse_uint(s, 0, 4) {
        Some(v) => v,
        None => { return None },
    };
    let m = match parse_uint(s, 5, 7) {
        Some(v) => v,
        None => { return None },
    };
    let d = match parse_uint(s, 8, 10) {
        Some(v) => v,
        None => { return None },
    };
    proof {
        crate::text::lemma_dec_val_bound(s@.subrange(0, 4));
        crate::text::lemma_pow10_small();
    }
    if y < 1 || m < 1 || m > 12 {
        return None;
    }
    let dim = days_in_month_of(y as i32, m as u32);
    if d < 1 || d > dim as u64 {
        return None;
    }
    Some(Date { year: y as i32, month: m as u32, day: d as u32 })
}

/// What a text of the exact shape `YYYY-MM` denotes: the year and month
/// numbers when the month is in `1..=12`, nothing otherwise.
pub open spec fn spec_parse_month(s: Seq<char>) -> Option<(int, int)> {
    if s.len() == 7 && s[4] == '-' && all_digits(s.subrange(0, 4)) && all_digits(
        s.subrange(5, 7),
    ) {
        let y = dec_val(s.subrange(0, 4)) as int;
        let m = dec_val(s.subrange(5, 7)) as int;
        if 1 <= m <= 12 {
            Some((y, m))
        } else {
            None
        }
    } else {
        None
    }
}

/// Parses a `YYYY-MM` month key; `None` on any other shape.
pub fn parse_month_key(s: &[char]) -> (r: Option<(i32, u32)>)
    ensures
        match r {
            Some(p) => spec_parse_month(s@) == Some((p.0 as int, p.1 as int)) && 0 <= p.0 <= 9999
                && 1 <= p.1 <= 12,
            None => spec_parse_month(s@) is None,
        },
{
    if s.len() != 7 {
        return None;
    }
    if s[4] != '-' {
        return None;
    }
    let y = match parse_uint(s, 0, 4) {
        Some(v) => v,
        None => { return None },
    };
    let m = match parse_uint(s, 5, 7) {
        Some(v) => v,
        None => { return None },
    };
    proof {
        crate::text::lemma_dec_val_bound(s@.subrange(0, 4));
        crate::text::lemma_pow10_small();
    }
    if m < 1 || m > 12 {
        return None;
    }
    Some((y as i32, m as u32))
}

/// The full English name of month `m`.
pub open spec fn month_name_seq(m: int) -> Seq<char> {
    if m == 1 {
        "January"@
    } else if m == 2 {
        "February"@
    } else if m == 3 {
        "March"@
    } else if m == 4 {
        "April"@
    } else if m == 5 {
        "May"@
    } else if m == 6 {
        "June"@
    } else if m == 7 {
        "July"@
    } else if m == 8 {
        "August"@
    } else if m == 9 {
        "September"@
    } else if m == 10 {
        "October"@
    } else if m == 11 {
        "November"@
    } else {
        "December"@
    }
}

/// The full English name of month `m`.
pub fn month_name(m: u32) -> (s: String)
    requires
        1 <= m <= 12,
    ensures
        s@ == month_name_seq(m as int),
{
    if m == 1 {
        "January".to_owned()
    } else if m == 2 {
        "February".to_owned()
    } else if m == 3 {
        "March".to_owned()
    } else if m == 4 {
        "April".to_owned()
    } else if m == 5 {
        "May".to_owned()
    } else if m == 6 {
        "June".to_owned()
    } else if m == 7 {
        "July".to_owned()
    } else if m == 8 {
        "August".to_owned()
    } else if m == 9 {
        "September".to_owned()
    } else if m == 10 {
        "October".to_owned()
    } else if m == 11 {
        "November".to_owned()
    } else {
        "December".to_owned()
    }
}

/// The full month name of a `YYYY-MM` key, and any other text unchanged.
pub fn month_to_name(month_str: &str) -> (s: String)
    ensures
        match spec_parse_month(month_str@) {
            Some(p) => s@ == month_name_seq(p.1),
            None => s@ == month_str@,
        },
{
    let chars = str_to_chars(month_str);
    match parse_month_key(chars.as_slice()) {
        Some(p) => month_name(p.1),
        None => month_str.to_owned(),
    }
}

/// The day after `(y, m, d)` in the calendar.
pub open spec fn next_ymd(y: int, m: int, d: int) -> (int, int, int) {
    if d < days_in_month(y, m) {
        (y, m, d + 1)
    } else if m < 12 {
        (y, m + 1, 1)
    } else {
        (y + 1, 1, 1)
    }
}

/// The date `n` days after `(y, m, d)`, while it stays inside the
/// supported year range.
pub open spec fn spec_date_plus(y: int, m: int, d: int, n: nat) -> Option<(int, int, int)>
    decreases n,
{
    if n == 0 {
        Some((y, m, d))
    } else if y == 9999 && m == 12 && d == 31 {
        None
    } else {
        let t = next_ymd(y, m, d);
        spec_date_plus(t.0, t.1, t.2, (n - 1) as nat)
    }
}

/// The day after `d`; `None` past the end of the supported range.
pub fn date_succ(d: &Date) -> (r: Option<Date>)
    requires
        date_wf(*d),
    ensures
        match r {
            Some(t) => next_ymd(d.year as int, d.month as int, d.day as int) == (
                t.year as int,
                t.month as int,
                t.day as int,
            ) && date_wf(t),
            None => d.year == 9999 && d.month == 12 && d.day == 31,
        },
{
    let dim = days_in_month_of(d.year, d.month);
    if d.day < dim {
        Some(Date { year: d.year, month: d.month, day: d.day + 1 })
    } else if d.month < 12 {
        Some(Date { year: d.year, month: d.month + 1, day: 1 })
    } else if d.year < 9999 {
        Some(Date { year: d.year + 1, month: 1, day: 1 })
    } else {
        None
    }
}

/// The date `n` days after `d`; `None` when that leaves the range.
pub fn date_plus(d: &Date, n: u32) -> (r: Option<Date>)
    requires
        date_wf(*d),
    ensures
        match r {
            Some(t) => spec_date_plus(d.year as int, d.month as int, d.day as int, n as nat)
                == Some((t.year as int, t.month as int, t.day as int)) && date_wf(t),
            None => spec_date_plus(d.year as int, d.month as int, d.day as int, n as nat) is None,
        },
{
    let mut cur: Date = *d;
    let mut i: u32 = 0;
    while i < n
        invariant
            i <= n,
            date_wf(cur),
            spec_date_plus(d.year as int, d.month as int, d.day as int, n as nat)
                == spec_date_plus(cur.year as int, cur.month as int, cur.day as int, (n - i) as nat),
        decreases n - i,
    {
        match date_succ(&cur) {
            Some(t) => {
                cur = t;
            },
            None => {
                return None;
            },
        }
        i = i + 1;
    }
    Some(cur)
}

/// Days from Monday (0) to Sunday (6) of the date `(y, m, d)`: what the
/// outside date library answers for it.
pub uninterp spec fn weekday_of(y: int, m: int, d: int) -> int;

/// Relies on chrono's `NaiveDate::from_ymd_opt` (a real calendar date in
/// this range always constructs) and `Datelike::weekday` with
/// `Weekday::num_days_from_monday`: the result counts from Monday = 0 to
/// Sunday = 6 and depends on the date alone.
#[verifier::external_body]
pub fn weekday_from_monday(year: i32, month: u32, day: u32) -> (r: u32)
    requires
        valid_date(year as int, month as int, day as int),
    ensures
        r == weekday_of(year as int, month as int, day as int),
        r < 7,
{
    match chrono::NaiveDate::from_ymd_opt(year, month, day) {
        Some(d) => d.weekday().num_days_from_monday(),
        None => 0,
    }
}

/// ISO 8601 week number of the date `(y, m, d)`: what the outside date
/// library answers for it.
pub uninterp spec fn iso_week_of(y: int, m: int, d: int) -> int;

/// Relies on chrono's `NaiveDate::from_ymd_opt` (a real calendar date in
/// this range always constructs) and `Datelike::iso_week` with
/// `IsoWeek::week`: the ISO 8601 week number, from 1 to 53, a function
/// of the date alone.
#[verifier::external_body]
pub fn iso_week_number(year: i32, month: u32, day: u32) -> (r: u32)
    requires
        valid_date(year as int, month as int, day as int),
    ensures
        r == iso_week_of(year as int, month as int, day as int),
        1 <= r <= 53,
{
    match chrono::NaiveDate::from_ymd_opt(year, month, day) {
        Some(d) => d.iso_week().week(),
        None => 1,
    }
}

/// The English day name for a days-from-Monday number.
pub open spec fn day_name_seq(w: int) -> Seq<char> {
    if w == 0 {
        "Monday"@
    } else if w == 1 {
        "Tuesday"@
    } else if w == 2 {
        "Wednesday"@
    } else if w == 3 {
        "Thursday"@
    } else if w == 4 {
        "Friday"@
    } else if w == 5 {
        "Saturday"@
    } else {
        "Sunday"@
    }
}

/// The English day name for a days-from-Monday number.
pub fn day_name(w: u32) -> (s: String)
    requires
        w < 7,
    ensures
        s@ == day_name_seq(w as int),
{
    if w == 0 {
        "Monday".to_owned()
    } else if w == 1 {
        "Tuesday".to_owned()
    } else if w == 2 {
        "Wednesday".to_owned()
    } else if w == 3 {
        "Thursday".to_owned()
    } else if w == 4 {
        "Friday".to_owned()
    } else if w == 5 {
        "Saturday".to_owned()
    } else {
        "Sunday".to_owned()
    }
}

} // verus!
