//! The analysis mode: the shape-based classifier for the operator's
//! free-text token, the week-selector parser, week boundaries within a
//! month, the per-relative-week month breakdown, the day-by-day weekly
//! totals, and the single-date listing.

use vstd::prelude::*;
use vstd::string::StringExecFns;
use crate::dates::{
    date_seq,
    date_wf,
    days_in_month,
    days_in_month_of,
    format_date,
    iso_week_number,
    iso_week_of,
    spec_date_plus,
    spec_parse_date,
    weekday_from_monday,
    weekday_of,
    Date,
    YearMonth,
};
use crate::error::SemError;
use crate::expense::{Expense, ExpenseView};
use crate::money::valid_amount;
use crate::stats::{amounts_ok, in_month, views};
use crate::text::{all_digits, dec_str, dec_val, find_char, lemma_find_char_at, parse_uint,
    str_to_chars, u64_to_string};

verus! {

/// What shape the operator's analysis token has: a week selector when
/// it holds both a dash and a colon, a month key when it is exactly
/// seven characters, a single date otherwise. A shape test, not a
/// structural parse.
#[derive(Clone, Copy, PartialEq, Eq, Structural, Debug)]
pub enum AnalysisKind {
    Week,
    Month,
    Date,
}

/// The classifier's verdict on a token.
pub open spec fn spec_classify(s: Seq<char>) -> AnalysisKind {
    if s.contains('-') && s.contains(':') {
        AnalysisKind::Week
    } else if s.len() == 7 {
        AnalysisKind::Month
    } else {
        AnalysisKind::Date
    }
}

/// Whether `c` occurs in the characters.
fn has_char(s: &[char], c: char) -> (r: bool)
    ensures
        r == s@.contains(c),
{
    let mut i: usize = 0;
    while i < s.len()
        invariant
            i <= s@.len(),
            forall|j: int| 0 <= j < i ==> s@[j] != c,
        decreases s@.len() - i,
    {
        if s[i] == c {
            return true;
        }
        i = i + 1;
    }
    false
}

/// Classifies an analysis token by its shape alone.
pub fn classify_analysis_token(s: &str) -> (r: AnalysisKind)
    ensures
        r == spec_classify(s@),
{
    let chars = str_to_chars(s);
    if has_char(chars.as_slice(), '-') && has_char(chars.as_slice(), ':') {
        AnalysisKind::Week
    } else if chars.len() == 7 {
        AnalysisKind::Month
    } else {
        AnalysisKind::Date
    }
}

/// What a week-selector token denotes: the digits before the first
/// dash are the year, those between that dash and the next dash or the
/// first colon are the month, those between the first and second colon
/// are the week index. Each run must be one to nine digits.
pub open spec fn spec_parse_week_input(s: Seq<char>) -> Option<(int, int, int)> {
    let c = find_char(s, ':');
    if c >= s.len() {
        None
    } else {
        let pre = s.subrange(0, c);
        let d1 = find_char(pre, '-');
        if d1 >= pre.len() {
            None
        } else {
            let ytxt = pre.subrange(0, d1);
            let rest = pre.subrange(d1 + 1, pre.len() as int);
            let d2 = find_char(rest, '-');
            let mtxt = rest.subrange(0, d2);
            let tail = s.subrange(c + 1, s.len() as int);
            let w2 = find_char(tail, ':');
            let wtxt = tail.subrange(0, w2);
            if 1 <= ytxt.len() <= 9 && all_digits(ytxt) && 1 <= mtxt.len() <= 9 && all_digits(
                mtxt,
            ) && 1 <= wtxt.len() <= 9 && all_digits(wtxt) {
                Some((dec_val(ytxt) as int, dec_val(mtxt) as int, dec_val(wtxt) as int))
            } else {
                None
            }
        }
    }
}

/// Parses a week-selector token into year, month and week index;
/// `None` exactly when the token does not fit the shape above.
pub fn parse_week_input(week_input: &str) -> (r: Option<(i32, u32, u32)>)
    ensures
        match r {
            Some(p) => spec_parse_week_input(week_input@) == Some(
                (p.0 as int, p.1 as int, p.2 as int),
            ),
            None => spec_parse_week_input(week_input@) is None,
        },
{
    let chars = str_to_chars(week_input);
    let s = chars.as_slice();
    let n = s.len();
    let mut c: usize = 0;
    while c < n && s[c] != ':'
        invariant
            c <= n,
            n == s@.len(),
            forall|j: int| 0 <= j < c ==> s@[j] != ':',
        decreases n - c,
    {
        c = c + 1;
    }
    proof {
        lemma_find_char_at(s@, ':', c as int);
    }
    if c == n {
        return None;
    }
    let ghost pre = s@.subrange(0, c as int);
    let mut d1: usize = 0;
    while d1 < c && s[d1] != '-'
        invariant
            d1 <= c,
            c < n,
            n == s@.len(),
            forall|j: int| 0 <= j < d1 ==> s@[j] != '-',
        decreases c - d1,
    {
        d1 = d1 + 1;
    }
    proof {
        assert forall|j: int| 0 <= j < pre.len() implies pre[j] == s@[j] by {}
        lemma_find_char_at(pre, '-', d1 as int);
    }
    if d1 == c {
        return None;
    }
    let ghost rest = pre.subrange(d1 + 1, pre.len() as int);
    let mut d2: usize = d1 + 1;
    while d2 < c && s[d2] != '-'
        invariant
            d1 + 1 <= d2 <= c,
            c < n,
            n == s@.len(),
            forall|j: int| d1 + 1 <= j < d2 ==> s@[j] != '-',
        decreases c - d2,
    {
        d2 = d2 + 1;
    }
    proof {
        assert forall|j: int| 0 <= j < rest.len() implies rest[j] == s@[j + d1 + 1] by {}
        if d2 < c {
            assert(rest[d2 - d1 - 1] == s@[d2 as int]);
        }
        lemma_find_char_at(rest, '-', d2 - d1 - 1);
    }
    let ghost tail = s@.subrange(c + 1, s@.len() as int);
    let mut w2: usize = c + 1;
    while w2 < n && s[w2] != ':'
        invariant
            c + 1 <= w2 <= n,
            c < n,
            n == s@.len(),
            forall|j: int| c + 1 <= j < w2 ==> s@[j] != ':',
        decreases n - w2,
    {
        w2 = w2 + 1;
    }
    proof {
        assert forall|j: int| 0 <= j < tail.len() implies tail[j] == s@[j + c + 1] by {}
        if w2 < n {
            assert(tail[w2 - c - 1] == s@[w2 as int]);
        }
        lemma_find_char_at(tail, ':', w2 - c - 1);
        assert(pre.subrange(0, d1 as int) =~= s@.subrange(0, d1 as int));
        assert(rest.subrange(0, d2 - d1 - 1) =~= s@.subrange(d1 + 1, d2 as int));
        assert(tail.subrange(0, w2 - c - 1) =~= s@.subrange(c + 1, w2 as int));
    }
    if d1 < 1 || d1 > 9 {
        return None;
    }
    if d2 - d1 - 1 < 1 || d2 - d1 - 1 > 9 {
        return None;
    }
    if w2 - c - 1 < 1 || w2 - c - 1 > 9 {
        return None;
    }
    let y = match parse_uint(s, 0, d1) {
        Some(v) => v,
        None => { return None },
    };
    let m = match parse_uint(s, d1 + 1, d2) {
        Some(v) => v,
        None => { return None },
    };
    let w = match parse_uint(s, c + 1, w2) {
        Some(v) => v,
        None => { return None },
    };
    proof {
        crate::text::lemma_dec_val_bound(s@.subrange(0, d1 as int));
        crate::text::lemma_dec_val_bound(s@.subrange(d1 + 1, d2 as int));
        crate::text::lemma_dec_val_bound(s@.subrange(c + 1, w2 as int));
        crate::text::lemma_pow10_mono(s@.subrange(0, d1 as int).len() as nat, 9);
        crate::text::lemma_pow10_mono(s@.subrange(d1 + 1, d2 as int).len() as nat, 9);
        crate::text::lemma_pow10_mono(s@.subrange(c + 1, w2 as int).len() as nat, 9);
        crate::text::lemma_pow10_small();
    }
    Some((y as i32, m as u32, w as u32))
}

/// The day of the month on which the selected week starts: the first
/// Monday of the month (the first itself, if a Monday) plus seven days
/// per earlier week.
pub open spec fn week_start_day(y: int, m: int, w: int) -> int {
    1 + ((7 - weekday_of(y, m, 1)) % 7) + (w - 1) * 7
}

/// The selected week lies within the given month of the supported
/// calendar, and its last day is still inside the calendar.
pub open spec fn week_valid(y: int, m: int, w: int) -> bool {
    &&& 1 <= y <= 9999
    &&& 1 <= m <= 12
    &&& 1 <= week_start_day(y, m, w) <= days_in_month(y, m)
    &&& spec_date_plus(y, m, week_start_day(y, m, w), 6) is Some
}

/// The first and last day of the selected week of the month; `None`
/// exactly when that week does not lie in the month.
pub fn get_week_date_range(year: i32, month: u32, week: u32) -> (r: Option<(Date, Date)>)
    ensures
        match r {
            Some(p) => {
                &&& week_valid(year as int, month as int, week as int)
                &&& p.0.year == year && p.0.month == month
                &&& p.0.day as int == week_start_day(year as int, month as int, week as int)
                &&& date_wf(p.0)
                &&& spec_date_plus(p.0.year as int, p.0.month as int, p.0.day as int, 6) == Some(
                    (p.1.year as int, p.1.month as int, p.1.day as int),
                )
                &&& date_wf(p.1)
            },
            None => !week_valid(year as int, month as int, week as int),
        },
{
    if year < 1 || year > 9999 || month < 1 || month > 12 {
        return None;
    }
    let wd = weekday_from_monday(year, month, 1);
    let fm: i64 = if wd == 0 {
        1
    } else {
        1 + (7 - wd as i64)
    };
    proof {
        assert(fm == 1 + ((7 - weekday_of(year as int, month as int, 1)) % 7));
    }
    let start_off: i64 = fm + (week as i64 - 1) * 7;
    let dim = days_in_month_of(year, month);
    if start_off < 1 || start_off > dim as i64 {
        return None;
    }
    let start = Date { year, month, day: start_off as u32 };
    match crate::dates::date_plus(&start, 6) {
        Some(end) => Some((start, end)),
        None => None,
    }
}

/// The expenses recorded under exactly the given date text, in store
/// order.
pub open spec fn spec_for_date(es: Seq<ExpenseView>, d: Seq<char>) -> Seq<ExpenseView>
    decreases es.len(),
{
    if es.len() == 0 {
        Seq::<ExpenseView>::empty()
    } else {
        let p = spec_for_date(es.drop_last(), d);
        if es.last().date == d {
            p.push(es.last())
        } else {
            p
        }
    }
}

/// The expenses recorded under exactly the given date text, in store
/// order.
pub fn transactions_for_date(es: &Vec<Expense>, date: &str) -> (r: Vec<Expense>)
    ensures
        r@.map_values(|e: Expense| e@) == spec_for_date(views(es@), date@),
{
    let ghost vs = views(es@);
    let dstr = date.to_owned();
    let mut r: Vec<Expense> = Vec::new();
    let mut i: usize = 0;
    while i < es.len()
        invariant
            i <= es@.len(),
            vs == views(es@),
            dstr@ == date@,
            r@.map_values(|e: Expense| e@) == spec_for_date(vs.take(i as int), date@),
        decreases es@.len() - i,
    {
        proof {
            assert(vs.take(i + 1).drop_last() =~= vs.take(i as int));
            assert(vs.take(i + 1).last() == es@[i as int]@);
        }
        if es[i].date == dstr {
            r.push(es[i].clone());
            proof {
                assert(r@.map_values(|e: Expense| e@) =~= r@.drop_last().map_values(
                    |e: Expense| e@,
                ).push(r@.last()@));
            }
        }
        i = i + 1;
    }
    proof {
        assert(vs.take(vs.len() as int) =~= vs);
    }
    r
}


/// Splitting a day walk: `a + b` days ahead is `b` days ahead of `a`
/// days ahead.
pub proof fn lemma_date_plus_split(y: int, m: int, d: int, a: nat, b: nat)
    ensures
        spec_date_plus(y, m, d, a + b) == (match spec_date_plus(y, m, d, a) {
            Some(t) => spec_date_plus(t.0, t.1, t.2, b),
            None => None,
        }),
    decreases a,
{
    if a == 0 {
    } else if y == 9999 && m == 12 && d == 31 {
    } else {
        let t = crate::dates::next_ymd(y, m, d);
        lemma_date_plus_split(t.0, t.1, t.2, (a - 1) as nat, b);
        assert(a + b > 0);
        assert(spec_date_plus(y, m, d, a + b) == spec_date_plus(t.0, t.1, t.2, (a + b - 1) as nat));
    }
}

/// A shorter day walk succeeds whenever a longer one does.
pub proof fn lemma_date_plus_mono(y: int, m: int, d: int, a: nat, b: nat)
    requires
        a <= b,
        spec_date_plus(y, m, d, b) is Some,
    ensures
        spec_date_plus(y, m, d, a) is Some,
{
    lemma_date_plus_split(y, m, d, a, (b - a) as nat);
}

/// `p` is a prefix of `s`.
pub open spec fn seq_starts_with(s: Seq<char>, p: Seq<char>) -> bool {
    p.len() <= s.len() && s.subrange(0, p.len() as int) == p
}

/// Whether the text starts with the given prefix.
fn starts_with_check(s: &str, p: &str) -> (r: bool)
    ensures
        r == seq_starts_with(s@, p@),
{
    let sc = str_to_chars(s);
    let pc = str_to_chars(p);
    if pc.len() > sc.len() {
        return false;
    }
    let mut i: usize = 0;
    while i < pc.len()
        invariant
            i <= pc@.len() <= sc@.len(),
            sc@ == s@,
            pc@ == p@,
            forall|j: int| 0 <= j < i ==> s@[j] == p@[j],
        decreases pc@.len() - i,
    {
        if sc[i] != pc[i] {
            proof {
                assert(s@.subrange(0, p@.len() as int)[i as int] != p@[i as int]);
            }
            return false;
        }
        i = i + 1;
    }
    proof {
        assert(s@.subrange(0, p@.len() as int) =~= p@);
    }
    true
}

/// Sum of the amounts whose date text starts with the given day's
/// text, the original's prefix match.
pub open spec fn date_total(es: Seq<ExpenseView>, d: Seq<char>) -> int
    decreases es.len(),
{
    if es.len() == 0 {
        0
    } else {
        date_total(es.drop_last(), d) + (if seq_starts_with(es.last().date, d) {
            es.last().amount
        } else {
            0
        })
    }
}

/// Sum of the amounts whose date text starts with the given day's
/// text.
pub fn date_total_of(es: &Vec<Expense>, d: &String) -> (t: i128)
    requires
        amounts_ok(es@),
    ensures
        t == date_total(views(es@), d@),
        -10_000_000_000_000_000 * es@.len() <= t <= 10_000_000_000_000_000 * es@.len(),
{
    let ghost vs = views(es@);
    let mut t: i128 = 0;
    let mut i: usize = 0;
    while i < es.len()
        invariant
            i <= es@.len(),
            vs == views(es@),
            amounts_ok(es@),
            t == date_total(vs.take(i as int), d@),
            -10_000_000_000_000_000 * (i as int) <= t <= 10_000_000_000_000_000 * (i as int),
        decreases es@.len() - i,
    {
        proof {
            assert(vs.take(i + 1).drop_last() =~= vs.take(i as int));
            assert(vs.take(i + 1).last() == es@[i as int]@);
            assert(valid_amount(es@[i as int]@.amount));
        }
        if starts_with_check(es[i].date.as_str(), d.as_str()) {
            t = t + es[i].amount as i128;
        }
        i = i + 1;
    }
    proof {
        assert(vs.take(vs.len() as int) =~= vs);
    }
    t
}

/// One rendered row of the weekly report: the day's name, its total,
/// and the total's plain decimal text.
#[derive(Debug)]
pub struct DayRow {
    pub name: String,
    pub text: String,
    pub total: i128,
}

/// Day-by-day totals of the selected week: seven rows from the week's
/// first day onward, each naming its weekday and summing the expenses
/// recorded under exactly that day's date text. Fails with
/// `InvalidWeekSelector` exactly when the week does not lie in the
/// month.
pub fn weekly_totals(es: &Vec<Expense>, year: i32, month: u32, week: u32) -> (r: Result<
    Vec<DayRow>,
    SemError,
>)
    requires
        amounts_ok(es@),
    ensures
        ({
            let vs = views(es@);
            let sd = week_start_day(year as int, month as int, week as int);
            match r {
                Ok(rows) => {
                    &&& week_valid(year as int, month as int, week as int)
                    &&& rows@.len() == 7
                    &&& forall|i: int|
                        0 <= i < 7 ==> ({
                            let d = spec_date_plus(year as int, month as int, sd, i as nat);
                            &&& d is Some
                            &&& (#[trigger] rows@[i]).name@ == crate::dates::day_name_seq(
                                weekday_of(d.unwrap().0, d.unwrap().1, d.unwrap().2),
                            )
                            &&& rows@[i].total == date_total(
                                vs,
                                date_seq(d.unwrap().0, d.unwrap().1, d.unwrap().2),
                            )
                            &&& rows@[i].text@ == crate::money::amount_seq(rows@[i].total as int)
                        })
                },
                Err(e) => {
                    &&& e == SemError::InvalidWeekSelector
                    &&& !week_valid(year as int, month as int, week as int)
                },
            }
        }),
{
    let ghost vs = views(es@);
    let _bound = es.len();
    proof {
        assert(es@.len() <= 0xffff_ffff_ffff_ffff);
    }
    let start = match get_week_date_range(year, month, week) {
        Some(p) => p.0,
        None => { return Err(SemError::InvalidWeekSelector) },
    };
    let mut rows: Vec<DayRow> = Vec::new();
    let mut i: usize = 0;
    while i < 7
        invariant
            i <= 7,
            vs == views(es@),
            amounts_ok(es@),
            es@.len() <= 0xffff_ffff_ffff_ffff,
            date_wf(start),
            start.year == year && start.month == month,
            start.day as int == week_start_day(year as int, month as int, week as int),
            spec_date_plus(start.year as int, start.month as int, start.day as int, 6) is Some,
            rows@.len() == i,
            forall|k: int|
                0 <= k < i ==> ({
                    let d = spec_date_plus(
                        year as int,
                        month as int,
                        week_start_day(year as int, month as int, week as int),
                        k as nat,
                    );
                    &&& d is Some
                    &&& (#[trigger] rows@[k]).name@ == crate::dates::day_name_seq(
                        weekday_of(d.unwrap().0, d.unwrap().1, d.unwrap().2),
                    )
                    &&& rows@[k].total == date_total(
                        vs,
                        date_seq(d.unwrap().0, d.unwrap().1, d.unwrap().2),
                    )
                    &&& rows@[k].text@ == crate::money::amount_seq(rows@[k].total as int)
                }),
        decreases 7 - i,
    {
        proof {
            lemma_date_plus_mono(
                start.year as int,
                start.month as int,
                start.day as int,
                i as nat,
                6,
            );
        }
        let day = match crate::dates::date_plus(&start, i as u32) {
            Some(d) => d,
            None => {
                proof {
                    assert(false);
                }
                start
            },
        };
        let wd = weekday_from_monday(day.year, day.month, day.day);
        let name = crate::dates::day_name(wd);
        let dstr = format_date(&day);
        let total = date_total_of(es, &dstr);
        proof {
            crate::money::lemma_total_bound(total as int, es@.len() as int);
        }
        let text = crate::money::format_amount_total(total);
        let ghost rows0 = rows@;
        rows.push(DayRow { name, text, total });
        proof {
            assert((i as u32) as nat == i as nat);
            assert forall|k2: int|
                0 <= k2 < 7 implies (#[trigger] spec_date_plus(
                year as int,
                month as int,
                week_start_day(year as int, month as int, week as int),
                k2 as nat,
            )) is Some by {
                lemma_date_plus_mono(
                    start.year as int,
                    start.month as int,
                    start.day as int,
                    k2 as nat,
                    6,
                );
            }
            assert forall|k: int|
                0 <= k < i + 1 implies ({
                let d = spec_date_plus(
                    year as int,
                    month as int,
                    week_start_day(year as int, month as int, week as int),
                    k as nat,
                );
                &&& d is Some
                &&& (#[trigger] rows@[k]).name@ == crate::dates::day_name_seq(
                    weekday_of(d.unwrap().0, d.unwrap().1, d.unwrap().2),
                )
                &&& rows@[k].total == date_total(
                    vs,
                    date_seq(d.unwrap().0, d.unwrap().1, d.unwrap().2),
                )
                &&& rows@[k].text@ == crate::money::amount_seq(rows@[k].total as int)
            }) by {
                if k == i {
                    let d = spec_date_plus(
                        year as int,
                        month as int,
                        week_start_day(year as int, month as int, week as int),
                        k as nat,
                    );
                    assert(d == Some((day.year as int, day.month as int, day.day as int)));
                    assert(rows@[k] == DayRow { name, text, total });
                } else {
                    assert(rows@[k] == rows0[k]);
                }
            }
        }
        i = i + 1;
    }
    proof {
        assert forall|k2: int|
            0 <= k2 < 7 implies (#[trigger] spec_date_plus(
            year as int,
            month as int,
            week_start_day(year as int, month as int, week as int),
            k2 as nat,
        )) is Some by {
            lemma_date_plus_mono(
                start.year as int,
                start.month as int,
                start.day as int,
                k2 as nat,
                6,
            );
        }
    }
    Ok(rows)
}

/// The relative week of day `d` within month `(y, m)`: the ISO week
/// number less the ISO week number of the month's first day, floored
/// at zero, plus one.
pub open spec fn rel_week(y: int, m: int, d: int) -> int {
    let off = iso_week_of(y, m, 1);
    let w = iso_week_of(y, m, d);
    (if w >= off {
        w - off
    } else {
        0
    }) + 1
}

/// The relative week of an expense known to lie in month `(y, m)`.
pub open spec fn rel_week_of(e: ExpenseView, y: int, m: int) -> int {
    rel_week(y, m, spec_parse_date(e.date).unwrap().2)
}

/// Sum of the amounts of month `(y, m)`'s expenses in relative week
/// `w`.
pub open spec fn week_total(es: Seq<ExpenseView>, y: int, m: int, w: int) -> int
    decreases es.len(),
{
    if es.len() == 0 {
        0
    } else {
        week_total(es.drop_last(), y, m, w) + (if in_month(es.last(), y, m) && rel_week_of(
            es.last(),
            y,
            m,
        ) == w {
            es.last().amount
        } else {
            0
        })
    }
}

/// The relative week an expense falls in, when it lies in the month.
fn rel_week_of_expense(e: &Expense, ym: &YearMonth) -> (r: Option<u32>)
    ensures
        match r {
            Some(w) => in_month(e@, ym.year as int, ym.month as int) && w as int == rel_week_of(
                e@,
                ym.year as int,
                ym.month as int,
            ) && 1 <= w <= 54,
            None => !in_month(e@, ym.year as int, ym.month as int),
        },
{
    let chars = str_to_chars(e.date.as_str());
    let dt = match crate::dates::parse_date(chars.as_slice()) {
        Some(d) => d,
        None => { return None },
    };
    if dt.year != ym.year || dt.month != ym.month {
        return None;
    }
    let off = iso_week_number(dt.year, dt.month, 1);
    let w = iso_week_number(dt.year, dt.month, dt.day);
    let rel = if w >= off {
        w - off
    } else {
        0
    };
    Some(rel + 1)
}

/// Sum of the amounts of one relative week of one month.
pub fn week_total_of(es: &Vec<Expense>, ym: &YearMonth, w: u32) -> (t: i128)
    requires
        amounts_ok(es@),
    ensures
        t == week_total(views(es@), ym.year as int, ym.month as int, w as int),
        -10_000_000_000_000_000 * es@.len() <= t <= 10_000_000_000_000_000 * es@.len(),
{
    let ghost vs = views(es@);
    let mut t: i128 = 0;
    let mut i: usize = 0;
    while i < es.len()
        invariant
            i <= es@.len(),
            vs == views(es@),
            amounts_ok(es@),
            t == week_total(vs.take(i as int), ym.year as int, ym.month as int, w as int),
            -10_000_000_000_000_000 * (i as int) <= t <= 10_000_000_000_000_000 * (i as int),
        decreases es@.len() - i,
    {
        proof {
            assert(vs.take(i + 1).drop_last() =~= vs.take(i as int));
            assert(vs.take(i + 1).last() == es@[i as int]@);
            assert(valid_amount(es@[i as int]@.amount));
        }
        let matches_week = match rel_week_of_expense(&es[i], ym) {
            Some(rw) => rw == w,
            None => false,
        };
        if matches_week {
            t = t + es[i].amount as i128;
        }
        i = i + 1;
    }
    proof {
        assert(vs.take(vs.len() as int) =~= vs);
    }
    t
}

/// Puts a week number into a sorted list, once.
fn insert_week(v: &mut Vec<u32>, w: u32)
    requires
        forall|i: int, j: int|
            0 <= i < j < old(v)@.len() ==> (#[trigger] old(v)@[i]) < (#[trigger] old(v)@[j]),
    ensures
        forall|i: int, j: int|
            0 <= i < j < final(v)@.len() ==> (#[trigger] final(v)@[i]) < (#[trigger] final(v)@[j]),
        forall|x: u32| final(v)@.contains(x) <==> (old(v)@.contains(x) || x == w),
{
    let n = v.len();
    let mut j: usize = 0;
    while j < n && v[j] < w
        invariant
            j <= n,
            n == v@.len(),
            v == old(v),
            forall|k: int| 0 <= k < j ==> v@[k] < w,
        decreases n - j,
    {
        j = j + 1;
    }
    if j < n && v[j] == w {
        proof {
            assert(v@.contains(w));
            assert forall|x: u32| v@.contains(x) <==> (old(v)@.contains(x) || x == w) by {}
        }
        return ;
    }
    v.insert(j, w);
    proof {
        old(v)@.insert_ensures(j as int, w);
        assert forall|a: int, b: int|
            0 <= a < b < v@.len() implies (#[trigger] v@[a]) < (#[trigger] v@[b]) by {
            let z = old(v)@;
            if a < j {
                assert(v@[a] == z[a]);
            } else if a == j {
                assert(v@[a] == w);
            } else {
                assert(z.insert(j as int, w)[(a - 1) + 1] == z[a - 1]);
                assert(v@[a] == z[a - 1]);
            }
            if b < j {
                assert(v@[b] == z[b]);
            } else if b == j {
                assert(v@[b] == w);
            } else {
                assert(z.insert(j as int, w)[(b - 1) + 1] == z[b - 1]);
                assert(v@[b] == z[b - 1]);
            }
        }
        assert forall|x: u32| v@.contains(x) <==> (old(v)@.contains(x) || x == w) by {
            if v@.contains(x) {
                let i = choose|i: int| 0 <= i < v@.len() && v@[i] == x;
                if i < j {
                    assert(old(v)@[i] == x);
                    assert(old(v)@.contains(x));
                } else if i > j {
                    assert(old(v)@.insert(j as int, w)[(i - 1) + 1] == old(v)@[i - 1]);
                    assert(old(v)@[i - 1] == x);
                    assert(old(v)@.contains(x));
                }
            }
            if old(v)@.contains(x) {
                let i = choose|i: int| 0 <= i < old(v)@.len() && old(v)@[i] == x;
                if i < j {
                    assert(v@[i] == x);
                } else {
                    assert(v@[i + 1] == x);
                }
                assert(v@.contains(x));
            }
            if x == w {
                assert(v@[j as int] == x);
                assert(v@.contains(x));
            }
        }
    }
}

/// How many of the month's expenses fall in relative week `w`.
pub open spec fn week_count(es: Seq<ExpenseView>, y: int, m: int, w: int) -> int
    decreases es.len(),
{
    if es.len() == 0 {
        0
    } else {
        week_count(es.drop_last(), y, m, w) + (if in_month(es.last(), y, m) && rel_week_of(
            es.last(),
            y,
            m,
        ) == w {
            1int
        } else {
            0int
        })
    }
}

/// A week with a matching expense has a positive count.
pub proof fn lemma_week_count_pos(es: Seq<ExpenseView>, y: int, m: int, w: int, k: int)
    requires
        0 <= k < es.len(),
        in_month(es[k], y, m),
        rel_week_of(es[k], y, m) == w,
    ensures
        week_count(es, y, m, w) >= 1,
    decreases es.len(),
{
    lemma_week_count_nonneg(es.drop_last(), y, m, w);
    if k == es.len() - 1 {
    } else {
        assert(es.drop_last()[k] == es[k]);
        lemma_week_count_pos(es.drop_last(), y, m, w, k);
    }
}

/// A count is never negative.
pub proof fn lemma_week_count_nonneg(es: Seq<ExpenseView>, y: int, m: int, w: int)
    ensures
        week_count(es, y, m, w) >= 0,
    decreases es.len(),
{
    if es.len() > 0 {
        lemma_week_count_nonneg(es.drop_last(), y, m, w);
    }
}

/// One rendered row of the month breakdown: the displayed label (one
/// less than the relative week), the relative week itself, its total
/// and the total's plain decimal text.
pub struct WeekRow {
    pub label: String,
    pub week: u32,
    pub total: i128,
    pub text: String,
}

/// The displayed label of a relative week: one less than the relative
/// week number itself.
pub open spec fn week_label_seq(w: int) -> Seq<char> {
    "Week "@ + dec_str((w - 1) as nat)
}

/// The displayed label of a relative week.
pub fn week_label(w: u32) -> (s: String)
    requires
        w >= 1,
    ensures
        s@ == week_label_seq(w as int),
{
    let mut s = "Week ".to_owned();
    let num = u64_to_string((w - 1) as u64);
    s.append(num.as_str());
    s
}

/// The month breakdown: one row per relative week that occurs among
/// the month's expenses, in ascending order, each with its total. An
/// unparseable month token yields no rows.
#[verifier::rlimit(100)]
pub fn month_breakdown(es: &Vec<Expense>, month_token: &str) -> (r: Vec<WeekRow>)
    requires
        amounts_ok(es@),
    ensures
        crate::dates::spec_parse_month(month_token@) is None ==> r@.len() == 0,
        crate::dates::spec_parse_month(month_token@) is Some ==> ({
            let vs = views(es@);
            let pm = crate::dates::spec_parse_month(month_token@).unwrap();
            &&& forall|a: int, b: int|
                0 <= a < b < r@.len() ==> (#[trigger] r@[a]).week < (#[trigger] r@[b]).week
            &&& forall|i: int| 0 <= i < r@.len() ==> (#[trigger] r@[i]).week >= 1
            &&& forall|i: int|
                0 <= i < r@.len() ==> (#[trigger] r@[i]).total == week_total(
                    vs,
                    pm.0,
                    pm.1,
                    r@[i].week as int,
                )
            &&& forall|i: int|
                0 <= i < r@.len() ==> (#[trigger] r@[i]).label@ == week_label_seq(r@[i].week as int)
            &&& forall|i: int|
                0 <= i < r@.len() ==> (#[trigger] r@[i]).text@ == crate::money::amount_seq(
                    r@[i].total as int,
                )
            &&& forall|i: int|
                0 <= i < r@.len() ==> week_count(vs, pm.0, pm.1, (#[trigger] r@[i]).week as int)
                    >= 1
            &&& forall|k: int|
                0 <= k < vs.len() && in_month(#[trigger] vs[k], pm.0, pm.1) ==> exists|i: int|
                    0 <= i < r@.len() && (#[trigger] r@[i]).week as int == rel_week_of(
                        vs[k],
                        pm.0,
                        pm.1,
                    )
        }),
{
    let ghost vs = views(es@);
    let _bound = es.len();
    proof {
        assert(es@.len() <= 0xffff_ffff_ffff_ffff);
    }
    let chars = str_to_chars(month_token);
    let ym = match crate::dates::parse_month_key(chars.as_slice()) {
        Some(p) => YearMonth { year: p.0, month: p.1 },
        None => { return Vec::new() },
    };
    let mut weeks: Vec<u32> = Vec::new();
    let mut i: usize = 0;
    while i < es.len()
        invariant
            i <= es@.len(),
            vs == views(es@),
            forall|a: int, b: int|
                0 <= a < b < weeks@.len() ==> (#[trigger] weeks@[a]) < (#[trigger] weeks@[b]),
            forall|x: u32|
                weeks@.contains(x) <==> exists|k: int|
                    0 <= k < i && in_month(#[trigger] vs[k], ym.year as int, ym.month as int)
                        && rel_week_of(vs[k], ym.year as int, ym.month as int) == x as int,
            forall|j: int| 0 <= j < weeks@.len() ==> (#[trigger] weeks@[j]) >= 1,
            forall|k: int|
                0 <= k < i && in_month(#[trigger] vs[k], ym.year as int, ym.month as int) ==> 1
                    <= rel_week_of(vs[k], ym.year as int, ym.month as int) <= 54,
        decreases es@.len() - i,
    {
        proof {
            assert(vs[i as int] == es@[i as int]@);
        }
        let ghost prev_weeks = weeks@;
        match rel_week_of_expense(&es[i], &ym) {
            Some(w) => {
                insert_week(&mut weeks, w);
                proof {
                    assert forall|j2: int| 0 <= j2 < weeks@.len() implies (#[trigger] weeks@[j2])
                        >= 1 by {
                        assert(weeks@.contains(weeks@[j2]));
                        if weeks@[j2] != w {
                            assert(prev_weeks.contains(weeks@[j2]));
                            let k2 = choose|k2: int|
                                0 <= k2 < prev_weeks.len() && prev_weeks[k2] == weeks@[j2];
                        }
                    }
                    assert forall|x: u32| weeks@.contains(x) <==> exists|k: int|
                        0 <= k < i + 1 && in_month(#[trigger] vs[k], ym.year as int, ym.month as int)
                            && rel_week_of(vs[k], ym.year as int, ym.month as int) == x as int by {
                        if x == w {
                            assert(in_month(vs[i as int], ym.year as int, ym.month as int)
                                && rel_week_of(vs[i as int], ym.year as int, ym.month as int)
                                == x as int);
                        }
                        if weeks@.contains(x) && x != w {
                            let k = choose|k: int|
                                0 <= k < i && in_month(
                                    #[trigger] vs[k],
                                    ym.year as int,
                                    ym.month as int,
                                ) && rel_week_of(vs[k], ym.year as int, ym.month as int)
                                    == x as int;
                            assert(0 <= k < i + 1);
                        }
                        if exists|k: int|
                            0 <= k < i + 1 && in_month(
                                #[trigger] vs[k],
                                ym.year as int,
                                ym.month as int,
                            ) && rel_week_of(vs[k], ym.year as int, ym.month as int) == x as int {
                            let k = choose|k: int|
                                0 <= k < i + 1 && in_month(
                                    #[trigger] vs[k],
                                    ym.year as int,
                                    ym.month as int,
                                ) && rel_week_of(vs[k], ym.year as int, ym.month as int)
                                    == x as int;
                            if k == i {
                                assert(x as int == w as int);
                                assert(x == w);
                            }
                        }
                    }
                }
            },
            None => {
                proof {
                    assert forall|x: u32| weeks@.contains(x) <==> exists|k: int|
                        0 <= k < i + 1 && in_month(#[trigger] vs[k], ym.year as int, ym.month as int)
                            && rel_week_of(vs[k], ym.year as int, ym.month as int) == x as int by {
                        if exists|k: int|
                            0 <= k < i + 1 && in_month(
                                #[trigger] vs[k],
                                ym.year as int,
                                ym.month as int,
                            ) && rel_week_of(vs[k], ym.year as int, ym.month as int) == x as int {
                            let k = choose|k: int|
                                0 <= k < i + 1 && in_month(
                                    #[trigger] vs[k],
                                    ym.year as int,
                                    ym.month as int,
                                ) && rel_week_of(vs[k], ym.year as int, ym.month as int)
                                    == x as int;
                            assert(k < i);
                        }
                    }
                }
            },
        }
        i = i + 1;
    }
    let mut rows: Vec<WeekRow> = Vec::new();
    let mut j: usize = 0;
    while j < weeks.len()
        invariant
            j <= weeks@.len(),
            vs == views(es@),
            amounts_ok(es@),
            es@.len() <= 0xffff_ffff_ffff_ffff,
            forall|a: int, b: int|
                0 <= a < b < weeks@.len() ==> (#[trigger] weeks@[a]) < (#[trigger] weeks@[b]),
            forall|k: int| 0 <= k < weeks@.len() ==> (#[trigger] weeks@[k]) >= 1,
            rows@.len() == j,
            forall|k: int| 0 <= k < j ==> (#[trigger] rows@[k]).week == weeks@[k],
            forall|k: int|
                0 <= k < j ==> (#[trigger] rows@[k]).total == week_total(
                    vs,
                    ym.year as int,
                    ym.month as int,
                    rows@[k].week as int,
                ),
            forall|k: int|
                0 <= k < j ==> (#[trigger] rows@[k]).label@ == week_label_seq(rows@[k].week as int),
            forall|k: int|
                0 <= k < j ==> (#[trigger] rows@[k]).text@ == crate::money::amount_seq(
                    rows@[k].total as int,
                ),
        decreases weeks@.len() - j,
    {
        let w = weeks[j];
        let total = week_total_of(es, &ym, w);
        proof {
            crate::money::lemma_total_bound(total as int, es@.len() as int);
        }
        let text = crate::money::format_amount_total(total);
        let label = week_label(w);
        rows.push(WeekRow { label, week: w, total, text });
        j = j + 1;
    }
    proof {
        let pm = crate::dates::spec_parse_month(month_token@).unwrap();
        assert(pm.0 == ym.year as int && pm.1 == ym.month as int);
        assert forall|i2: int| 0 <= i2 < rows@.len() implies week_count(
            vs,
            pm.0,
            pm.1,
            (#[trigger] rows@[i2]).week as int,
        ) >= 1 by {
            let w = rows@[i2].week;
            assert(weeks@[i2] == w);
            assert(weeks@.contains(w));
            let k = choose|k: int|
                0 <= k < es@.len() && in_month(#[trigger] vs[k], ym.year as int, ym.month as int)
                    && rel_week_of(vs[k], ym.year as int, ym.month as int) == w as int;
            lemma_week_count_pos(vs, ym.year as int, ym.month as int, w as int, k);
        }
        assert forall|k: int|
            0 <= k < vs.len() && in_month(
                #[trigger] vs[k],
                ym.year as int,
                ym.month as int,
            ) implies exists|i2: int|
            0 <= i2 < rows@.len() && (#[trigger] rows@[i2]).week as int == rel_week_of(
                vs[k],
                ym.year as int,
                ym.month as int,
            ) by {
            let e = es@[k]@;
            assert(vs[k] == e);
            assert(spec_parse_date(e.date) is Some);
            let rw = rel_week_of(e, ym.year as int, ym.month as int);
            assert(1 <= rw <= 54);
            let w32 = rw as u32;
            assert(weeks@.contains(w32));
            let i2 = choose|i2: int| 0 <= i2 < weeks@.len() && weeks@[i2] == w32;
            assert(rows@[i2].week as int == rw);
        }
    }
    rows
}

} // verus!
