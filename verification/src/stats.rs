//! Aggregation over the expense history: the overall total, per-month
//! and per-category totals, the month-by-category summary grid, and the
//! most-recent listing. A row whose date does not parse is left out of
//! the dated aggregates, never fatal.

use vstd::prelude::*;
use crate::dates::{month_name_seq, spec_parse_date, ym_lt, ym_wf, YearMonth};
use crate::expense::{Expense, ExpenseView};
use crate::money::valid_amount;
use crate::text::str_to_chars;

verus! {

/// The record views of a vector of expenses.
pub open spec fn views(s: Seq<Expense>) -> Seq<ExpenseView> {
    s.map_values(|e: Expense| e@)
}

/// The expense's date names a real calendar day.
pub open spec fn dated(e: ExpenseView) -> bool {
    spec_parse_date(e.date) is Some
}

/// The month key of an expense with a parseable date.
pub open spec fn month_of_s(e: ExpenseView) -> Option<(int, int)> {
    match spec_parse_date(e.date) {
        Some(d) => Some((d.0, d.1)),
        None => None,
    }
}

/// The expense belongs to the given month.
pub open spec fn in_month(e: ExpenseView, y: int, m: int) -> bool {
    month_of_s(e) == Some((y, m))
}

/// Sum of every amount, dated or not.
pub open spec fn total_amount(es: Seq<ExpenseView>) -> int
    decreases es.len(),
{
    if es.len() == 0 {
        0
    } else {
        total_amount(es.drop_last()) + es.last().amount
    }
}

/// Sum of the amounts of the dated expenses.
pub open spec fn dated_total(es: Seq<ExpenseView>) -> int
    decreases es.len(),
{
    if es.len() == 0 {
        0
    } else {
        dated_total(es.drop_last()) + (if dated(es.last()) {
            es.last().amount
        } else {
            0
        })
    }
}

/// Sum of the amounts of the dated expenses of one category.
pub open spec fn cat_total(es: Seq<ExpenseView>, c: Seq<char>) -> int
    decreases es.len(),
{
    if es.len() == 0 {
        0
    } else {
        cat_total(es.drop_last(), c) + (if dated(es.last()) && es.last().category == c {
            es.last().amount
        } else {
            0
        })
    }
}

/// Sum of the amounts of the expenses of one month.
pub open spec fn month_total(es: Seq<ExpenseView>, y: int, m: int) -> int
    decreases es.len(),
{
    if es.len() == 0 {
        0
    } else {
        month_total(es.drop_last(), y, m) + (if in_month(es.last(), y, m) {
            es.last().amount
        } else {
            0
        })
    }
}

/// Sum of the amounts of one category within one month: one cell of
/// the summary grid.
pub open spec fn cell_sum(es: Seq<ExpenseView>, c: Seq<char>, y: int, m: int) -> int
    decreases es.len(),
{
    if es.len() == 0 {
        0
    } else {
        cell_sum(es.drop_last(), c, y, m) + (if in_month(es.last(), y, m) && es.last().category
            == c {
            es.last().amount
        } else {
            0
        })
    }
}

/// Every amount of the vector lies within the library's bound.
pub open spec fn amounts_ok(s: Seq<Expense>) -> bool {
    forall|i: int| 0 <= i < s.len() ==> valid_amount(#[trigger] s[i]@.amount)
}

/// The month key of an expense, read from its date text.
pub fn month_of_expense(e: &Expense) -> (r: Option<YearMonth>)
    ensures
        match r {
            Some(ym) => month_of_s(e@) == Some((ym.year as int, ym.month as int)) && ym_wf(ym),
            None => month_of_s(e@) is None,
        },
{
    let chars = str_to_chars(e.date.as_str());
    match crate::dates::parse_date(chars.as_slice()) {
        Some(d) => Some(YearMonth { year: d.year, month: d.month }),
        None => None,
    }
}

/// Whether the expense's date parses and falls in the given month.
fn in_month_check(e: &Expense, ym: &YearMonth) -> (r: bool)
    ensures
        r == in_month(e@, ym.year as int, ym.month as int),
{
    match month_of_expense(e) {
        Some(m) => m.year == ym.year && m.month == ym.month,
        None => false,
    }
}

/// Whole-history total, over every record, dated or not.
pub fn calculate_total_expenses(es: &Vec<Expense>) -> (t: i128)
    requires
        amounts_ok(es@),
    ensures
        t == total_amount(views(es@)),
        -10_000_000_000_000_000 * es@.len() <= t <= 10_000_000_000_000_000 * es@.len(),
{
    let ghost vs = views(es@);
    let mut t: i128 = 0;
    let mut i: usize = 0;
    while i < es.len()
        invariant
            i <= es@.len(),
            vs == views(es@),
            amounts_ok(es@),
            t == total_amount(vs.take(i as int)),
            -10_000_000_000_000_000 * (i as int) <= t <= 10_000_000_000_000_000 * (i as int),
        decreases es@.len() - i,
    {
        proof {
            assert(vs.take(i + 1).drop_last() =~= vs.take(i as int));
            assert(vs.take(i + 1).last() == es@[i as int]@);
            assert(valid_amount(es@[i as int]@.amount));
        }
        t = t + es[i].amount as i128;
        i = i + 1;
    }
    proof {
        assert(vs.take(vs.len() as int) =~= vs);
    }
    t
}

/// Total of the dated records.
pub fn dated_total_of(es: &Vec<Expense>) -> (t: i128)
    requires
        amounts_ok(es@),
    ensures
        t == dated_total(views(es@)),
        -10_000_000_000_000_000 * es@.len() <= t <= 10_000_000_000_000_000 * es@.len(),
{
    let ghost vs = views(es@);
    let mut t: i128 = 0;
    let mut i: usize = 0;
    while i < es.len()
        invariant
            i <= es@.len(),
            vs == views(es@),
            amounts_ok(es@),
            t == dated_total(vs.take(i as int)),
            -10_000_000_000_000_000 * (i as int) <= t <= 10_000_000_000_000_000 * (i as int),
        decreases es@.len() - i,
    {
        proof {
            assert(vs.take(i + 1).drop_last() =~= vs.take(i as int));
            assert(vs.take(i + 1).last() == es@[i as int]@);
            assert(valid_amount(es@[i as int]@.amount));
        }
        if month_of_expense(&es[i]).is_some() {
            t = t + es[i].amount as i128;
        }
        i = i + 1;
    }
    proof {
        assert(vs.take(vs.len() as int) =~= vs);
    }
    t
}

/// Total of one category's dated records.
pub fn cat_total_of(es: &Vec<Expense>, cat: &String) -> (t: i128)
    requires
        amounts_ok(es@),
    ensures
        t == cat_total(views(es@), cat@),
        -10_000_000_000_000_000 * es@.len() <= t <= 10_000_000_000_000_000 * es@.len(),
{
    let ghost vs = views(es@);
    let mut t: i128 = 0;
    let mut i: usize = 0;
    while i < es.len()
        invariant
            i <= es@.len(),
            vs == views(es@),
            amounts_ok(es@),
            t == cat_total(vs.take(i as int), cat@),
            -10_000_000_000_000_000 * (i as int) <= t <= 10_000_000_000_000_000 * (i as int),
        decreases es@.len() - i,
    {
        proof {
            assert(vs.take(i + 1).drop_last() =~= vs.take(i as int));
            assert(vs.take(i + 1).last() == es@[i as int]@);
            assert(valid_amount(es@[i as int]@.amount));
        }
        if month_of_expense(&es[i]).is_some() && es[i].category == *cat {
            t = t + es[i].amount as i128;
        }
        i = i + 1;
    }
    proof {
        assert(vs.take(vs.len() as int) =~= vs);
    }
    t
}

/// Total of one month's records.
pub fn month_total_of(es: &Vec<Expense>, ym: &YearMonth) -> (t: i128)
    requires
        amounts_ok(es@),
    ensures
        t == month_total(views(es@), ym.year as int, ym.month as int),
        -10_000_000_000_000_000 * es@.len() <= t <= 10_000_000_000_000_000 * es@.len(),
{
    let ghost vs = views(es@);
    let mut t: i128 = 0;
    let mut i: usize = 0;
    while i < es.len()
        invariant
            i <= es@.len(),
            vs == views(es@),
            amounts_ok(es@),
            t == month_total(vs.take(i as int), ym.year as int, ym.month as int),
            -10_000_000_000_000_000 * (i as int) <= t <= 10_000_000_000_000_000 * (i as int),
        decreases es@.len() - i,
    {
        proof {
            assert(vs.take(i + 1).drop_last() =~= vs.take(i as int));
            assert(vs.take(i + 1).last() == es@[i as int]@);
            assert(valid_amount(es@[i as int]@.amount));
        }
        if in_month_check(&es[i], ym) {
            t = t + es[i].amount as i128;
        }
        i = i + 1;
    }
    proof {
        assert(vs.take(vs.len() as int) =~= vs);
    }
    t
}

/// One cell of the summary grid: a category's total within a month.
pub fn cell_total_of(es: &Vec<Expense>, cat: &String, ym: &YearMonth) -> (t: i128)
    requires
        amounts_ok(es@),
    ensures
        t == cell_sum(views(es@), cat@, ym.year as int, ym.month as int),
        -10_000_000_000_000_000 * es@.len() <= t <= 10_000_000_000_000_000 * es@.len(),
{
    let ghost vs = views(es@);
    let mut t: i128 = 0;
    let mut i: usize = 0;
    while i < es.len()
        invariant
            i <= es@.len(),
            vs == views(es@),
            amounts_ok(es@),
            t == cell_sum(vs.take(i as int), cat@, ym.year as int, ym.month as int),
            -10_000_000_000_000_000 * (i as int) <= t <= 10_000_000_000_000_000 * (i as int),
        decreases es@.len() - i,
    {
        proof {
            assert(vs.take(i + 1).drop_last() =~= vs.take(i as int));
            assert(vs.take(i + 1).last() == es@[i as int]@);
            assert(valid_amount(es@[i as int]@.amount));
        }
        if in_month_check(&es[i], ym) && es[i].category == *cat {
            t = t + es[i].amount as i128;
        }
        i = i + 1;
    }
    proof {
        assert(vs.take(vs.len() as int) =~= vs);
    }
    t
}

/// Chronological order on two month keys, as executable code.
fn ym_lt_check(a: &YearMonth, b: &YearMonth) -> (r: bool)
    ensures
        r == ym_lt(*a, *b),
{
    a.year < b.year || (a.year == b.year && a.month < b.month)
}

/// Puts a month key into a chronologically sorted list, once.
fn insert_month(v: &mut Vec<YearMonth>, ym: YearMonth)
    requires
        forall|i: int, j: int|
            0 <= i < j < old(v)@.len() ==> ym_lt(#[trigger] old(v)@[i], #[trigger] old(v)@[j]),
    ensures
        forall|i: int, j: int|
            0 <= i < j < final(v)@.len() ==> ym_lt(
                #[trigger] final(v)@[i],
                #[trigger] final(v)@[j],
            ),
        forall|x: YearMonth| final(v)@.contains(x) <==> (old(v)@.contains(x) || x == ym),
{
    let n = v.len();
    let mut j: usize = 0;
    while j < n && ym_lt_check(&v[j], &ym)
        invariant
            j <= n,
            n == v@.len(),
            v == old(v),
            forall|k: int| 0 <= k < j ==> ym_lt(v@[k], ym),
        decreases n - j,
    {
        j = j + 1;
    }
    if j < n && v[j].year == ym.year && v[j].month == ym.month {
        proof {
            assert(v@[j as int] == ym);
            assert(v@.contains(ym));
            assert forall|x: YearMonth| v@.contains(x) <==> (old(v)@.contains(x) || x == ym) by {}
        }
        return ;
    }
    proof {
        if j < n {
            assert(!ym_lt(v@[j as int], ym));
            assert(v@[j as int] != ym);
            assert(ym_lt(ym, v@[j as int]));
        }
    }
    v.insert(j, ym);
    proof {
        old(v)@.insert_ensures(j as int, ym);
        assert forall|a: int, b: int| 0 <= a < b < v@.len() implies ym_lt(v@[a], v@[b]) by {
            let w = old(v)@;
            if a < j {
                assert(v@[a] == w[a]);
            } else if a == j {
                assert(v@[a] == ym);
            } else {
                assert(w.insert(j as int, ym)[(a - 1) + 1] == w[a - 1]);
                assert(v@[a] == w[a - 1]);
            }
            if b < j {
                assert(v@[b] == w[b]);
            } else if b == j {
                assert(v@[b] == ym);
            } else {
                assert(w.insert(j as int, ym)[(b - 1) + 1] == w[b - 1]);
                assert(v@[b] == w[b - 1]);
            }
        }
        assert forall|x: YearMonth| v@.contains(x) <==> (old(v)@.contains(x) || x == ym) by {
            if v@.contains(x) {
                let i = choose|i: int| 0 <= i < v@.len() && v@[i] == x;
                if i < j {
                    assert(old(v)@[i] == x);
                    assert(old(v)@.contains(x));
                } else if i > j {
                    assert(old(v)@.insert(j as int, ym)[(i - 1) + 1] == old(v)@[i - 1]);
                    assert(old(v)@[i - 1] == x);
                    assert(old(v)@.contains(x));
                }
            }
            if old(v)@.contains(x) {
                let i = choose|i: int| 0 <= i < old(v)@.len() && old(v)@[i] == x;
                if i < j {
                    assert(v@[i] == x);
                } else {
                    assert(v@[i + 1] == x);
                }
                assert(v@.contains(x));
            }
            if x == ym {
                assert(v@[j as int] == x);
                assert(v@.contains(x));
            }
        }
    }
}

/// Every month that occurs among the dated records, in chronological
/// order, each exactly once.
pub fn months_of(es: &Vec<Expense>) -> (r: Vec<YearMonth>)
    ensures
        forall|i: int, j: int| 0 <= i < j < r@.len() ==> ym_lt(#[trigger] r@[i], #[trigger] r@[j]),
        forall|x: YearMonth|
            r@.contains(x) <==> exists|k: int|
                0 <= k < es@.len() && month_of_s(#[trigger] es@[k]@) == Some(
                    (x.year as int, x.month as int),
                ),
{
    let mut r: Vec<YearMonth> = Vec::new();
    let mut i: usize = 0;
    while i < es.len()
        invariant
            i <= es@.len(),
            forall|a: int, b: int| 0 <= a < b < r@.len() ==> ym_lt(#[trigger] r@[a], #[trigger] r@[b]),
            forall|x: YearMonth|
                r@.contains(x) <==> exists|k: int|
                    0 <= k < i && month_of_s(#[trigger] es@[k]@) == Some(
                        (x.year as int, x.month as int),
                    ),
        decreases es@.len() - i,
    {
        match month_of_expense(&es[i]) {
            Some(ym) => {
                insert_month(&mut r, ym);
                proof {
                    assert forall|x: YearMonth| r@.contains(x) <==> exists|k: int|
                        0 <= k < i + 1 && month_of_s(#[trigger] es@[k]@) == Some(
                            (x.year as int, x.month as int),
                        ) by {
                        if x == ym {
                            assert(month_of_s(es@[i as int]@) == Some(
                                (x.year as int, x.month as int),
                            ));
                        }
                        if r@.contains(x) && x != ym {
                            let k = choose|k: int|
                                0 <= k < i && month_of_s(#[trigger] es@[k]@) == Some(
                                    (x.year as int, x.month as int),
                                );
                            assert(0 <= k < i + 1);
                        }
                        if exists|k: int|
                            0 <= k < i + 1 && month_of_s(#[trigger] es@[k]@) == Some(
                                (x.year as int, x.month as int),
                            ) {
                            let k = choose|k: int|
                                0 <= k < i + 1 && month_of_s(#[trigger] es@[k]@) == Some(
                                    (x.year as int, x.month as int),
                                );
                            if k == i {
                                assert(x.year as int == ym.year as int && x.month as int
                                    == ym.month as int);
                                assert(x == ym);
                            }
                        }
                    }
                }
            },
            None => {
                proof {
                    assert forall|x: YearMonth| r@.contains(x) <==> exists|k: int|
                        0 <= k < i + 1 && month_of_s(#[trigger] es@[k]@) == Some(
                            (x.year as int, x.month as int),
                        ) by {
                        if exists|k: int|
                            0 <= k < i + 1 && month_of_s(#[trigger] es@[k]@) == Some(
                                (x.year as int, x.month as int),
                            ) {
                            let k = choose|k: int|
                                0 <= k < i + 1 && month_of_s(#[trigger] es@[k]@) == Some(
                                    (x.year as int, x.month as int),
                                );
                            assert(k < i);
                        }
                    }
                }
            },
        }
        i = i + 1;
    }
    r
}

/// Every category that occurs among the dated records, in order of
/// first appearance, each exactly once.
pub open spec fn cats_of(es: Seq<ExpenseView>) -> Seq<Seq<char>>
    decreases es.len(),
{
    if es.len() == 0 {
        Seq::<Seq<char>>::empty()
    } else {
        let p = cats_of(es.drop_last());
        if dated(es.last()) && !p.contains(es.last().category) {
            p.push(es.last().category)
        } else {
            p
        }
    }
}

/// The category list holds no duplicates, and holds exactly the
/// categories of the dated records.
pub proof fn lemma_cats_of_props(es: Seq<ExpenseView>)
    ensures
        forall|i: int, j: int| 0 <= i < j < cats_of(es).len() ==> cats_of(es)[i] != cats_of(es)[j],
        forall|k: int|
            0 <= k < es.len() && dated(#[trigger] es[k]) ==> cats_of(es).contains(es[k].category),
    decreases es.len(),
{
    if es.len() == 0 {
    } else {
        lemma_cats_of_props(es.drop_last());
        let p = cats_of(es.drop_last());
        assert forall|i: int, j: int|
            0 <= i < j < cats_of(es).len() implies cats_of(es)[i] != cats_of(es)[j] by {
            if j < p.len() {
                assert(cats_of(es)[i] == p[i] && cats_of(es)[j] == p[j]);
            } else if j == p.len() && cats_of(es).len() > p.len() {
                assert(cats_of(es)[i] == p[i]);
                assert(p.contains(p[i]));
                assert(cats_of(es)[j] == es.last().category);
            }
        }
        assert forall|k: int|
            0 <= k < es.len() && dated(#[trigger] es[k]) implies cats_of(es).contains(
            es[k].category,
        ) by {
            if k < es.len() - 1 {
                assert(es.drop_last()[k] == es[k]);
                assert(p.contains(es[k].category));
                let w = choose|w: int| 0 <= w < p.len() && p[w] == es[k].category;
                assert(cats_of(es)[w] == es[k].category);
                assert(cats_of(es).contains(es[k].category));
            } else {
                if p.contains(es.last().category) {
                    let w = choose|w: int| 0 <= w < p.len() && p[w] == es.last().category;
                    assert(cats_of(es)[w] == es.last().category);
                    assert(cats_of(es).contains(es.last().category));
                } else {
                    assert(cats_of(es).last() == es.last().category);
                    assert(cats_of(es).contains(es.last().category));
                }
            }
        }
    }
}

/// The categories of the dated records, first appearance first.
pub fn categories_of(es: &Vec<Expense>) -> (r: Vec<String>)
    ensures
        r@.map_values(|s: String| s@) == cats_of(views(es@)),
{
    let ghost vs = views(es@);
    let mut r: Vec<String> = Vec::new();
    let mut i: usize = 0;
    while i < es.len()
        invariant
            i <= es@.len(),
            vs == views(es@),
            r@.map_values(|s: String| s@) == cats_of(vs.take(i as int)),
        decreases es@.len() - i,
    {
        let ghost pfx = cats_of(vs.take(i as int));
        proof {
            assert(vs.take(i + 1).drop_last() =~= vs.take(i as int));
            assert(vs.take(i + 1).last() == es@[i as int]@);
        }
        if month_of_expense(&es[i]).is_some() {
            let mut seen = false;
            let mut j: usize = 0;
            while j < r.len()
                invariant
                    j <= r@.len(),
                    i < es@.len(),
                    seen <==> exists|k: int|
                        0 <= k < j && (#[trigger] r@[k])@ == es@[i as int]@.category,
                decreases r@.len() - j,
            {
                if r[j] == es[i].category {
                    proof {
                        assert(r@[j as int]@ == es@[i as int]@.category);
                    }
                    seen = true;
                }
                j = j + 1;
            }
            proof {
                if seen {
                    let k = choose|k: int|
                        0 <= k < r@.len() && (#[trigger] r@[k])@ == es@[i as int]@.category;
                    assert(r@.map_values(|s: String| s@)[k] == r@[k]@);
                    assert(pfx[k] == es@[i as int]@.category);
                    assert(pfx.contains(es@[i as int]@.category));
                } else {
                    if pfx.contains(es@[i as int]@.category) {
                        let k = choose|k: int|
                            0 <= k < pfx.len() && pfx[k] == es@[i as int]@.category;
                        assert(r@.map_values(|s: String| s@)[k] == r@[k]@);
                        assert(false);
                    }
                }
            }
            if !seen {
                r.push(es[i].category.clone());
                proof {
                    assert(r@.map_values(|s: String| s@) =~= pfx.push(es@[i as int]@.category));
                }
            }
        }
        i = i + 1;
    }
    proof {
        assert(vs.take(vs.len() as int) =~= vs);
    }
    r
}

/// The last up-to-five records, most recently appended first.
pub fn recent_transactions(es: &Vec<Expense>) -> (r: Vec<Expense>)
    ensures
        r@.len() == if es@.len() < 5 {
            es@.len()
        } else {
            5
        },
        forall|i: int| 0 <= i < r@.len() ==> r@[i]@ == es@[es@.len() - 1 - i]@,
{
    let n = es.len();
    let mut r: Vec<Expense> = Vec::new();
    let mut i: usize = 0;
    while i < n && i < 5
        invariant
            i <= n,
            n == es@.len(),
            i <= 5,
            r@.len() == i,
            forall|k: int| 0 <= k < i ==> r@[k]@ == es@[n - 1 - k]@,
        decreases n - i,
    {
        r.push(es[n - 1 - i].clone());
        i = i + 1;
    }
    r
}


/// Sum of the amounts whose key under `kf` is exactly `k`.
pub open spec fn sum_by<K>(es: Seq<ExpenseView>, kf: spec_fn(ExpenseView) -> Option<K>, k: K) -> int
    decreases es.len(),
{
    if es.len() == 0 {
        0
    } else {
        sum_by(es.drop_last(), kf, k) + (if kf(es.last()) == Some(k) {
            es.last().amount
        } else {
            0
        })
    }
}

/// Sum of the amounts that carry any key under `kf`.
pub open spec fn sum_keyed<K>(es: Seq<ExpenseView>, kf: spec_fn(ExpenseView) -> Option<K>) -> int
    decreases es.len(),
{
    if es.len() == 0 {
        0
    } else {
        sum_keyed(es.drop_last(), kf) + (if kf(es.last()) is Some {
            es.last().amount
        } else {
            0
        })
    }
}

/// Sum over a key list of the per-key sums.
pub open spec fn sum_over_keys<K>(
    keys: Seq<K>,
    es: Seq<ExpenseView>,
    kf: spec_fn(ExpenseView) -> Option<K>,
) -> int
    decreases keys.len(),
{
    if keys.len() == 0 {
        0
    } else {
        sum_over_keys(keys.drop_last(), es, kf) + sum_by(es, kf, keys.last())
    }
}

proof fn lemma_sum_over_keys_empty<K>(keys: Seq<K>, kf: spec_fn(ExpenseView) -> Option<K>)
    ensures
        sum_over_keys(keys, Seq::<ExpenseView>::empty(), kf) == 0,
    decreases keys.len(),
{
    if keys.len() > 0 {
        lemma_sum_over_keys_empty(keys.drop_last(), kf);
    }
}

proof fn lemma_sum_over_keys_snoc<K>(
    keys: Seq<K>,
    es: Seq<ExpenseView>,
    kf: spec_fn(ExpenseView) -> Option<K>,
)
    requires
        es.len() > 0,
        forall|i: int, j: int| 0 <= i < j < keys.len() ==> keys[i] != keys[j],
    ensures
        sum_over_keys(keys, es, kf) == sum_over_keys(keys, es.drop_last(), kf) + (match kf(
            es.last(),
        ) {
            Some(k) => if keys.contains(k) {
                es.last().amount
            } else {
                0
            },
            None => 0,
        }),
    decreases keys.len(),
{
    if keys.len() == 0 {
    } else {
        let keys0 = keys.drop_last();
        assert forall|i: int, j: int| 0 <= i < j < keys0.len() implies keys0[i] != keys0[j] by {
            assert(keys0[i] == keys[i] && keys0[j] == keys[j]);
        }
        lemma_sum_over_keys_snoc(keys0, es, kf);
        match kf(es.last()) {
            None => {},
            Some(k) => {
                if k == keys.last() {
                    if keys0.contains(k) {
                        let w = choose|w: int| 0 <= w < keys0.len() && keys0[w] == k;
                        assert(keys[w] == k);
                        assert(keys[w] == keys[keys.len() - 1]);
                        assert(false);
                    }
                    assert(keys.contains(k)) by {
                        assert(keys[keys.len() - 1] == k);
                    }
                } else {
                    if keys0.contains(k) {
                        let w = choose|w: int| 0 <= w < keys0.len() && keys0[w] == k;
                        assert(keys[w] == k);
                        assert(keys.contains(k));
                    }
                    if keys.contains(k) {
                        let w = choose|w: int| 0 <= w < keys.len() && keys[w] == k;
                        assert(w < keys.len() - 1);
                        assert(keys0[w] == k);
                        assert(keys0.contains(k));
                    }
                }
            },
        }
    }
}

/// Partition law: when the key list is duplicate-free and holds every
/// key that occurs, the per-key sums add up to the keyed total.
pub proof fn lemma_sum_partition<K>(
    keys: Seq<K>,
    es: Seq<ExpenseView>,
    kf: spec_fn(ExpenseView) -> Option<K>,
)
    requires
        forall|i: int, j: int| 0 <= i < j < keys.len() ==> keys[i] != keys[j],
        forall|i: int|
            0 <= i < es.len() && (#[trigger] kf(es[i])) is Some ==> keys.contains(
                kf(es[i]).unwrap(),
            ),
    ensures
        sum_over_keys(keys, es, kf) == sum_keyed(es, kf),
    decreases es.len(),
{
    if es.len() == 0 {
        assert(es =~= Seq::<ExpenseView>::empty());
        lemma_sum_over_keys_empty(keys, kf);
    } else {
        let es0 = es.drop_last();
        assert forall|i: int|
            0 <= i < es0.len() && (#[trigger] kf(es0[i])) is Some implies keys.contains(
            kf(es0[i]).unwrap(),
        ) by {
            assert(es0[i] == es[i]);
        }
        lemma_sum_partition(keys, es0, kf);
        lemma_sum_over_keys_snoc(keys, es, kf);
        if kf(es.last()) is Some {
            assert(kf(es[es.len() - 1]) is Some);
            assert(keys.contains(kf(es[es.len() - 1]).unwrap()));
        }
    }
}

/// The key of an expense in the per-category partition: its category,
/// for dated records.
pub open spec fn cat_key() -> spec_fn(ExpenseView) -> Option<Seq<char>> {
    |e: ExpenseView| if dated(e) {
        Some(e.category)
    } else {
        None
    }
}

/// The key of an expense in the per-month partition: its month.
pub open spec fn month_key() -> spec_fn(ExpenseView) -> Option<(int, int)> {
    |e: ExpenseView| month_of_s(e)
}

/// The key of an expense within one category's row: its month.
pub open spec fn row_key(c: Seq<char>) -> spec_fn(ExpenseView) -> Option<(int, int)> {
    |e: ExpenseView| if dated(e) && e.category == c {
        month_of_s(e)
    } else {
        None
    }
}

/// The key of an expense within one month's column: its category.
pub open spec fn col_key(y: int, m: int) -> spec_fn(ExpenseView) -> Option<Seq<char>> {
    |e: ExpenseView| if in_month(e, y, m) {
        Some(e.category)
    } else {
        None
    }
}

proof fn lemma_cat_key_sums(es: Seq<ExpenseView>, c: Seq<char>)
    ensures
        sum_by(es, cat_key(), c) == cat_total(es, c),
        sum_keyed(es, cat_key()) == dated_total(es),
    decreases es.len(),
{
    if es.len() > 0 {
        lemma_cat_key_sums(es.drop_last(), c);
    }
}

proof fn lemma_month_key_sums(es: Seq<ExpenseView>, y: int, m: int)
    ensures
        sum_by(es, month_key(), (y, m)) == month_total(es, y, m),
        sum_keyed(es, month_key()) == dated_total(es),
    decreases es.len(),
{
    if es.len() > 0 {
        lemma_month_key_sums(es.drop_last(), y, m);
    }
}

proof fn lemma_row_key_sums(es: Seq<ExpenseView>, c: Seq<char>, y: int, m: int)
    ensures
        sum_by(es, row_key(c), (y, m)) == cell_sum(es, c, y, m),
        sum_keyed(es, row_key(c)) == cat_total(es, c),
    decreases es.len(),
{
    if es.len() > 0 {
        lemma_row_key_sums(es.drop_last(), c, y, m);
    }
}

proof fn lemma_col_key_sums(es: Seq<ExpenseView>, c: Seq<char>, y: int, m: int)
    ensures
        sum_by(es, col_key(y, m), c) == cell_sum(es, c, y, m),
        sum_keyed(es, col_key(y, m)) == month_total(es, y, m),
    decreases es.len(),
{
    if es.len() > 0 {
        lemma_col_key_sums(es.drop_last(), c, y, m);
    }
}

/// Sum of the per-category totals over a category list.
pub open spec fn sum_cat_totals(cats: Seq<Seq<char>>, es: Seq<ExpenseView>) -> int
    decreases cats.len(),
{
    if cats.len() == 0 {
        0
    } else {
        sum_cat_totals(cats.drop_last(), es) + cat_total(es, cats.last())
    }
}

/// Sum of the per-month totals over a month list.
pub open spec fn sum_month_totals(months: Seq<(int, int)>, es: Seq<ExpenseView>) -> int
    decreases months.len(),
{
    if months.len() == 0 {
        0
    } else {
        sum_month_totals(months.drop_last(), es) + month_total(
            es,
            months.last().0,
            months.last().1,
        )
    }
}

/// Sum of one category's cells over a month list.
pub open spec fn sum_row_cells(months: Seq<(int, int)>, es: Seq<ExpenseView>, c: Seq<char>) -> int
    decreases months.len(),
{
    if months.len() == 0 {
        0
    } else {
        sum_row_cells(months.drop_last(), es, c) + cell_sum(
            es,
            c,
            months.last().0,
            months.last().1,
        )
    }
}

/// Sum of one month's cells over a category list.
pub open spec fn sum_col_cells(cats: Seq<Seq<char>>, es: Seq<ExpenseView>, y: int, m: int) -> int
    decreases cats.len(),
{
    if cats.len() == 0 {
        0
    } else {
        sum_col_cells(cats.drop_last(), es, y, m) + cell_sum(es, cats.last(), y, m)
    }
}

proof fn lemma_sum_cat_totals_keys(cats: Seq<Seq<char>>, es: Seq<ExpenseView>)
    ensures
        sum_over_keys(cats, es, cat_key()) == sum_cat_totals(cats, es),
    decreases cats.len(),
{
    if cats.len() > 0 {
        lemma_sum_cat_totals_keys(cats.drop_last(), es);
        lemma_cat_key_sums(es, cats.last());
    }
}

proof fn lemma_sum_month_totals_keys(months: Seq<(int, int)>, es: Seq<ExpenseView>)
    ensures
        sum_over_keys(months, es, month_key()) == sum_month_totals(months, es),
    decreases months.len(),
{
    if months.len() > 0 {
        lemma_sum_month_totals_keys(months.drop_last(), es);
        lemma_month_key_sums(es, months.last().0, months.last().1);
        assert(months.last() == (months.last().0, months.last().1));
    }
}

proof fn lemma_sum_row_cells_keys(months: Seq<(int, int)>, es: Seq<ExpenseView>, c: Seq<char>)
    ensures
        sum_over_keys(months, es, row_key(c)) == sum_row_cells(months, es, c),
    decreases months.len(),
{
    if months.len() > 0 {
        lemma_sum_row_cells_keys(months.drop_last(), es, c);
        lemma_row_key_sums(es, c, months.last().0, months.last().1);
        assert(months.last() == (months.last().0, months.last().1));
    }
}

proof fn lemma_sum_col_cells_keys(cats: Seq<Seq<char>>, es: Seq<ExpenseView>, y: int, m: int)
    ensures
        sum_over_keys(cats, es, col_key(y, m)) == sum_col_cells(cats, es, y, m),
    decreases cats.len(),
{
    if cats.len() > 0 {
        lemma_sum_col_cells_keys(cats.drop_last(), es, y, m);
        lemma_col_key_sums(es, cats.last(), y, m);
    }
}

/// With every date parseable, the dated total is the plain total.
pub proof fn lemma_all_dated_total(es: Seq<ExpenseView>)
    requires
        forall|i: int| 0 <= i < es.len() ==> dated(#[trigger] es[i]),
    ensures
        dated_total(es) == total_amount(es),
    decreases es.len(),
{
    if es.len() > 0 {
        assert forall|i: int| 0 <= i < es.drop_last().len() implies dated(
            #[trigger] es.drop_last()[i],
        ) by {
            assert(es.drop_last()[i] == es[i]);
        }
        lemma_all_dated_total(es.drop_last());
        assert(dated(es[es.len() - 1]));
    }
}

/// Summary cross-check: over duplicate-free category and month lists
/// that cover every dated record, the per-category row totals and the
/// per-month column totals each add up to the dated grand total; every
/// row total is the sum of its cells and every column total the sum of
/// its cells.
pub proof fn lemma_summary_totals(
    es: Seq<ExpenseView>,
    cats: Seq<Seq<char>>,
    months: Seq<(int, int)>,
)
    requires
        forall|i: int, j: int| 0 <= i < j < cats.len() ==> cats[i] != cats[j],
        forall|i: int, j: int| 0 <= i < j < months.len() ==> months[i] != months[j],
        forall|i: int|
            0 <= i < es.len() && dated(#[trigger] es[i]) ==> cats.contains(es[i].category),
        forall|i: int|
            0 <= i < es.len() && dated(#[trigger] es[i]) ==> months.contains(
                month_of_s(es[i]).unwrap(),
            ),
    ensures
        sum_cat_totals(cats, es) == dated_total(es),
        sum_month_totals(months, es) == dated_total(es),
        forall|c: Seq<char>| #[trigger] sum_row_cells(months, es, c) == cat_total(es, c),
        forall|y: int, m: int| #[trigger] sum_col_cells(cats, es, y, m) == month_total(es, y, m),
{
    assert forall|i: int|
        0 <= i < es.len() && (#[trigger] cat_key()(es[i])) is Some implies cats.contains(
        cat_key()(es[i]).unwrap(),
    ) by {
        assert(dated(es[i]));
    }
    lemma_sum_partition(cats, es, cat_key());
    lemma_sum_cat_totals_keys(cats, es);
    lemma_cat_key_sums(es, Seq::<char>::empty());
    assert forall|i: int|
        0 <= i < es.len() && (#[trigger] month_key()(es[i])) is Some implies months.contains(
        month_key()(es[i]).unwrap(),
    ) by {
        assert(dated(es[i]));
    }
    lemma_sum_partition(months, es, month_key());
    lemma_sum_month_totals_keys(months, es);
    lemma_month_key_sums(es, 0, 0);
    assert forall|c: Seq<char>| #[trigger] sum_row_cells(months, es, c) == cat_total(es, c) by {
        assert forall|i: int|
            0 <= i < es.len() && (#[trigger] row_key(c)(es[i])) is Some implies months.contains(
            row_key(c)(es[i]).unwrap(),
        ) by {
            assert(dated(es[i]));
            assert(row_key(c)(es[i]) == month_of_s(es[i]));
        }
        lemma_sum_partition(months, es, row_key(c));
        lemma_sum_row_cells_keys(months, es, c);
        lemma_row_key_sums(es, c, 0, 0);
    }
    assert forall|y: int, m: int|
        #[trigger] sum_col_cells(cats, es, y, m) == month_total(es, y, m) by {
        assert forall|i: int|
            0 <= i < es.len() && (#[trigger] col_key(y, m)(es[i])) is Some implies cats.contains(
            col_key(y, m)(es[i]).unwrap(),
        ) by {
            assert(in_month(es[i], y, m));
            assert(dated(es[i]));
        }
        lemma_sum_partition(cats, es, col_key(y, m));
        lemma_sum_col_cells_keys(cats, es, y, m);
        lemma_col_key_sums(es, Seq::<char>::empty(), y, m);
    }
}


/// One rendered cell of the summary grid: its display text and
/// whether it is at or above the high-spend threshold of 6000.00.
pub struct SummaryCell {
    pub text: String,
    pub high: bool,
}

/// One rendered row of the summary grid: a category, its cell per
/// month, and its row total.
pub struct SummaryRow {
    pub category: String,
    pub cells: Vec<SummaryCell>,
    pub total: String,
}

/// The rendered summary grid: month columns in chronological order,
/// one row per category in first-appearance order, a footer of month
/// totals, and the grand total.
pub struct SummaryTable {
    pub months: Vec<YearMonth>,
    pub month_names: Vec<String>,
    pub rows: Vec<SummaryRow>,
    pub month_totals: Vec<String>,
    pub grand_total: String,
}

/// Builds the spending-by-category summary grid: columns are every
/// month present among the dated records, chronologically; rows are
/// every category present, by first appearance; each cell, row total,
/// column total and the grand total carries the grouped display form
/// of the corresponding sum, and each cell is marked high at or above
/// 6000.00.
pub fn summary_table(es: &Vec<Expense>) -> (r: SummaryTable)
    requires
        amounts_ok(es@),
    ensures
        forall|a: int, b: int|
            0 <= a < b < r.months@.len() ==> ym_lt(#[trigger] r.months@[a], #[trigger] r.months@[b]),
        forall|x: YearMonth|
            r.months@.contains(x) <==> exists|k: int|
                0 <= k < es@.len() && month_of_s(#[trigger] es@[k]@) == Some(
                    (x.year as int, x.month as int),
                ),
        r.month_names@.len() == r.months@.len(),
        forall|j: int| 0 <= j < r.months@.len() ==> ym_wf(#[trigger] r.months@[j]),
        forall|j: int|
            0 <= j < r.months@.len() ==> (#[trigger] r.month_names@[j])@ == month_name_seq(
                r.months@[j].month as int,
            ),
        r.rows@.len() == cats_of(views(es@)).len(),
        forall|i: int|
            0 <= i < r.rows@.len() ==> (#[trigger] r.rows@[i]).category@ == cats_of(views(es@))[i],
        forall|i: int|
            0 <= i < r.rows@.len() ==> (#[trigger] r.rows@[i]).cells@.len() == r.months@.len(),
        forall|i: int, j: int|
            0 <= i < r.rows@.len() && 0 <= j < r.months@.len() ==> (#[trigger] r.rows@[i].cells@[j]).text@
                == crate::money::inr_seq(
                cell_sum(
                    views(es@),
                    cats_of(views(es@))[i],
                    r.months@[j].year as int,
                    r.months@[j].month as int,
                ),
            ),
        forall|i: int, j: int|
            0 <= i < r.rows@.len() && 0 <= j < r.months@.len() ==> (#[trigger] r.rows@[i].cells@[j]).high
                == (cell_sum(
                views(es@),
                cats_of(views(es@))[i],
                r.months@[j].year as int,
                r.months@[j].month as int,
            ) >= 600000),
        forall|i: int|
            0 <= i < r.rows@.len() ==> (#[trigger] r.rows@[i]).total@ == crate::money::inr_seq(
                cat_total(views(es@), cats_of(views(es@))[i]),
            ),
        r.month_totals@.len() == r.months@.len(),
        forall|j: int|
            0 <= j < r.months@.len() ==> (#[trigger] r.month_totals@[j])@
                == crate::money::inr_seq(
                month_total(views(es@), r.months@[j].year as int, r.months@[j].month as int),
            ),
        r.grand_total@ == crate::money::inr_seq(dated_total(views(es@))),
{
    let ghost vs = views(es@);
    let _bound = es.len();
    proof {
        assert(es@.len() == _bound as int);
        assert(es@.len() <= 0xffff_ffff_ffff_ffff);
    }
    let months = months_of(es);
    proof {
        assert forall|j: int| 0 <= j < months@.len() implies ym_wf(#[trigger] months@[j]) by {
            assert(months@.contains(months@[j]));
            let x = months@[j];
            let k = choose|k: int|
                0 <= k < es@.len() && month_of_s(#[trigger] es@[k]@) == Some(
                    (x.year as int, x.month as int),
                );
            assert(spec_parse_date(es@[k]@.date) is Some);
        }
    }
    let cats = categories_of(es);
    let mut month_names: Vec<String> = Vec::new();
    let mut j: usize = 0;
    while j < months.len()
        invariant
            j <= months@.len(),
            forall|k: int| 0 <= k < months@.len() ==> ym_wf(#[trigger] months@[k]),
            month_names@.len() == j,
            forall|k: int|
                0 <= k < j ==> (#[trigger] month_names@[k])@ == month_name_seq(
                    months@[k].month as int,
                ),
        decreases months@.len() - j,
    {
        month_names.push(crate::dates::month_name(months[j].month));
        j = j + 1;
    }
    let mut rows: Vec<SummaryRow> = Vec::new();
    let mut i: usize = 0;
    while i < cats.len()
        invariant
            i <= cats@.len(),
            vs == views(es@),
            amounts_ok(es@),
            es@.len() <= 0xffff_ffff_ffff_ffff,
            cats@.map_values(|s: String| s@) == cats_of(vs),
            forall|k: int| 0 <= k < months@.len() ==> ym_wf(#[trigger] months@[k]),
            rows@.len() == i,
            forall|k: int|
                0 <= k < i ==> (#[trigger] rows@[k]).category@ == cats_of(vs)[k],
            forall|k: int|
                0 <= k < i ==> (#[trigger] rows@[k]).cells@.len() == months@.len(),
            forall|k: int, l: int|
                0 <= k < i && 0 <= l < months@.len() ==> (#[trigger] rows@[k].cells@[l]).text@
                    == crate::money::inr_seq(
                    cell_sum(vs, cats_of(vs)[k], months@[l].year as int, months@[l].month as int),
                ),
            forall|k: int, l: int|
                0 <= k < i && 0 <= l < months@.len() ==> (#[trigger] rows@[k].cells@[l]).high == (
                cell_sum(vs, cats_of(vs)[k], months@[l].year as int, months@[l].month as int)
                    >= 600000),
            forall|k: int|
                0 <= k < i ==> (#[trigger] rows@[k]).total@ == crate::money::inr_seq(
                    cat_total(vs, cats_of(vs)[k]),
                ),
        decreases cats@.len() - i,
    {
        let mut cells: Vec<SummaryCell> = Vec::new();
        let mut l: usize = 0;
        while l < months.len()
            invariant
                l <= months@.len(),
                i < cats@.len(),
                vs == views(es@),
                amounts_ok(es@),
                es@.len() <= 0xffff_ffff_ffff_ffff,
                cats@.map_values(|s: String| s@) == cats_of(vs),
                cells@.len() == l,
                forall|k: int|
                    0 <= k < l ==> (#[trigger] cells@[k]).text@ == crate::money::inr_seq(
                        cell_sum(
                            vs,
                            cats_of(vs)[i as int],
                            months@[k].year as int,
                            months@[k].month as int,
                        ),
                    ),
                forall|k: int|
                    0 <= k < l ==> (#[trigger] cells@[k]).high == (cell_sum(
                        vs,
                        cats_of(vs)[i as int],
                        months@[k].year as int,
                        months@[k].month as int,
                    ) >= 600000),
            decreases months@.len() - l,
        {
            let t = cell_total_of(es, &cats[i], &months[l]);
            proof {
                crate::money::lemma_total_bound(t as int, es@.len() as int);
                assert(cats@.map_values(|s: String| s@)[i as int] == cats@[i as int]@);
            }
            let text = crate::money::format_inr_total(t);
            let high = t >= 600000;
            cells.push(SummaryCell { text, high });
            l = l + 1;
        }
        let t = cat_total_of(es, &cats[i]);
        proof {
            crate::money::lemma_total_bound(t as int, es@.len() as int);
            assert(cats@.map_values(|s: String| s@)[i as int] == cats@[i as int]@);
        }
        let total = crate::money::format_inr_total(t);
        let category = cats[i].clone();
        rows.push(SummaryRow { category, cells, total });
        i = i + 1;
    }
    let mut month_totals: Vec<String> = Vec::new();
    let mut l: usize = 0;
    while l < months.len()
        invariant
            l <= months@.len(),
            vs == views(es@),
            amounts_ok(es@),
            es@.len() <= 0xffff_ffff_ffff_ffff,
            month_totals@.len() == l,
            forall|k: int|
                0 <= k < l ==> (#[trigger] month_totals@[k])@ == crate::money::inr_seq(
                    month_total(vs, months@[k].year as int, months@[k].month as int),
                ),
        decreases months@.len() - l,
    {
        let t = month_total_of(es, &months[l]);
        proof {
            crate::money::lemma_total_bound(t as int, es@.len() as int);
        }
        month_totals.push(crate::money::format_inr_total(t));
        l = l + 1;
    }
    let g = dated_total_of(es);
    proof {
        crate::money::lemma_total_bound(g as int, es@.len() as int);
    }
    let grand_total = crate::money::format_inr_total(g);
    SummaryTable { months, month_names, rows, month_totals, grand_total }
}


/// The month-key pairs of a month list.
pub open spec fn ym_pairs(months: Seq<YearMonth>) -> Seq<(int, int)> {
    months.map_values(|ym: YearMonth| (ym.year as int, ym.month as int))
}

/// The summary cross-check applied to the lists the summary grid is
/// built from: a chronologically sorted month list that holds exactly
/// the months present, and the first-appearance category list. With
/// every date parseable, the grand total is the sum of every amount,
/// and both the row totals and the column totals add up to it.
pub proof fn lemma_summary_grid_totals(es: Seq<ExpenseView>, months: Seq<YearMonth>)
    requires
        forall|a: int, b: int|
            0 <= a < b < months.len() ==> ym_lt(#[trigger] months[a], #[trigger] months[b]),
        forall|x: YearMonth|
            months.contains(x) <==> exists|k: int|
                0 <= k < es.len() && month_of_s(#[trigger] es[k]) == Some(
                    (x.year as int, x.month as int),
                ),
        forall|i: int| 0 <= i < es.len() ==> dated(#[trigger] es[i]),
    ensures
        sum_cat_totals(cats_of(es), es) == total_amount(es),
        sum_month_totals(ym_pairs(months), es) == total_amount(es),
        forall|c: Seq<char>| #[trigger] sum_row_cells(ym_pairs(months), es, c) == cat_total(es, c),
        forall|y: int, m: int|
            #[trigger] sum_col_cells(cats_of(es), es, y, m) == month_total(es, y, m),
{
    lemma_cats_of_props(es);
    let cats = cats_of(es);
    let pairs = ym_pairs(months);
    assert forall|i: int, j: int| 0 <= i < j < pairs.len() implies pairs[i] != pairs[j] by {
        assert(ym_lt(months[i], months[j]));
        assert(pairs[i] == (months[i].year as int, months[i].month as int));
        assert(pairs[j] == (months[j].year as int, months[j].month as int));
    }
    assert forall|i: int|
        0 <= i < es.len() && dated(#[trigger] es[i]) implies pairs.contains(
        month_of_s(es[i]).unwrap(),
    ) by {
        let d = crate::dates::spec_parse_date(es[i].date).unwrap();
        let x = YearMonth { year: d.0 as i32, month: d.1 as u32 };
        assert(month_of_s(es[i]) == Some((x.year as int, x.month as int)));
        assert(months.contains(x));
        let w = choose|w: int| 0 <= w < months.len() && months[w] == x;
        assert(pairs[w] == (x.year as int, x.month as int));
        assert(pairs.contains(month_of_s(es[i]).unwrap()));
    }
    lemma_summary_totals(es, cats, pairs);
    lemma_all_dated_total(es);
}

} // verus!
