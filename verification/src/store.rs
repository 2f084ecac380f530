//! The transaction store as text: a fixed header line followed by one
//! comma-separated row per expense, commas and quotes in fields guarded
//! by RFC-4180-style quoting. Reading is tolerant: a malformed row is
//! counted and skipped, never fatal.

use vstd::prelude::*;
use vstd::slice::{slice_subrange, slice_to_vec};
use vstd::string::StringExecFns;
use crate::error::SemError;
use crate::expense::{csv_ok, expense_wf, Expense, ExpenseView};
use crate::money::{amount_seq, format_amount, parse_amount, spec_parse_amount};
use crate::text::{chars_to_string, find_char, lemma_find_char, lemma_find_char_at, push_char,
    str_to_chars};

verus! {

/// A field must be quoted when it holds a comma or a quote.
pub open spec fn needs_quote(s: Seq<char>) -> bool {
    exists|i: int| 0 <= i < s.len() && (s[i] == ',' || s[i] == '"')
}

/// Quote-doubling of a field's content, as inside a quoted field.
pub open spec fn escape_quotes(s: Seq<char>) -> Seq<char>
    decreases s.len(),
{
    if s.len() == 0 {
        Seq::<char>::empty()
    } else {
        (if s[0] == '"' {
            seq!['"', '"']
        } else {
            seq![s[0]]
        }) + escape_quotes(s.skip(1))
    }
}

/// The written form of one field: quoted with doubled quotes when it
/// needs quoting, the bare text otherwise.
pub open spec fn csv_field(s: Seq<char>) -> Seq<char> {
    if needs_quote(s) {
        seq!['"'] + escape_quotes(s) + seq!['"']
    } else {
        s
    }
}

/// The written row of one expense: date, amount, category, notes.
pub open spec fn expense_line(e: ExpenseView) -> Seq<char> {
    csv_field(e.date) + seq![','] + csv_field(amount_seq(e.amount)) + seq![','] + csv_field(
        e.category,
    ) + seq![','] + csv_field(e.notes)
}

/// Whether the field must be quoted.
fn needs_quote_check(s: &[char]) -> (r: bool)
    ensures
        r == needs_quote(s@),
{
    let mut i: usize = 0;
    while i < s.len()
        invariant
            i <= s@.len(),
            forall|j: int| 0 <= j < i ==> s@[j] != ',' && s@[j] != '"',
        decreases s@.len() - i,
    {
        let c = s[i];
        if c == ',' || c == '"' {
            return true;
        }
        i = i + 1;
    }
    false
}

/// Escaping one more character extends the escaped text at the end.
proof fn lemma_escape_snoc(s: Seq<char>, c: char)
    ensures
        escape_quotes(s.push(c)) == escape_quotes(s) + (if c == '"' {
            seq!['"', '"']
        } else {
            seq![c]
        }),
    decreases s.len(),
{
    assert(s.push(c)[s.len() as int] == c);
    if s.len() == 0 {
        assert(s.push(c)[0] == c);
        assert(s.push(c).skip(1) =~= Seq::<char>::empty());
        assert(escape_quotes(s.push(c).skip(1)) == Seq::<char>::empty());
        assert(escape_quotes(s) == Seq::<char>::empty());
        assert(escape_quotes(s.push(c)) == (if s.push(c)[0] == '"' {
            seq!['"', '"']
        } else {
            seq![s.push(c)[0]]
        }) + escape_quotes(s.push(c).skip(1)));
        assert(escape_quotes(s.push(c)) =~= escape_quotes(s) + (if c == '"' {
            seq!['"', '"']
        } else {
            seq![c]
        }));
    } else {
        assert(s.push(c)[0] == s[0]);
        assert(s.push(c).skip(1) =~= s.skip(1).push(c));
        lemma_escape_snoc(s.skip(1), c);
        assert(escape_quotes(s.push(c)) =~= escape_quotes(s) + (if c == '"' {
            seq!['"', '"']
        } else {
            seq![c]
        }));
    }
}

/// Appends the written form of one field.
fn append_field(out: &mut String, f: &[char])
    ensures
        final(out)@ == old(out)@ + csv_field(f@),
{
    if !needs_quote_check(f) {
        let t = chars_to_string(f);
        out.append(t.as_str());
    } else {
        push_char(out, '"');
        let mut i: usize = 0;
        while i < f.len()
            invariant
                i <= f@.len(),
                out@ == old(out)@ + seq!['"'] + escape_quotes(f@.take(i as int)),
            decreases f@.len() - i,
        {
            let c = f[i];
            proof {
                lemma_escape_snoc(f@.take(i as int), f@[i as int]);
                assert(f@.take(i as int).push(f@[i as int]) =~= f@.take(i + 1));
            }
            if c == '"' {
                push_char(out, '"');
                push_char(out, '"');
            } else {
                push_char(out, c);
            }
            proof {
                assert(out@ =~= old(out)@ + seq!['"'] + escape_quotes(f@.take(i + 1)));
            }
            i = i + 1;
        }
        push_char(out, '"');
        proof {
            assert(f@.take(f@.len() as int) =~= f@);
            assert(out@ =~= old(out)@ + csv_field(f@));
        }
    }
}

/// The written row of one expense.
pub fn serialize_expense(e: &Expense) -> (r: String)
    requires
        expense_wf(e@),
    ensures
        r@ == expense_line(e@),
{
    proof {
        reveal_strlit(",");
    }
    let mut out = String::new();
    let dchars = str_to_chars(e.date.as_str());
    append_field(&mut out, dchars.as_slice());
    out.append(",");
    let amt = format_amount(e.amount);
    let achars = str_to_chars(amt.as_str());
    append_field(&mut out, achars.as_slice());
    out.append(",");
    let cchars = str_to_chars(e.category.as_str());
    append_field(&mut out, cchars.as_slice());
    out.append(",");
    let nchars = str_to_chars(e.notes.as_str());
    append_field(&mut out, nchars.as_slice());
    proof {
        assert(out@ =~= expense_line(e@));
    }
    out
}

/// The store's fixed header row.
pub open spec fn header_seq() -> Seq<char> {
    "date,amount,category,notes"@
}

/// The store's fixed header row.
pub fn header_line() -> (s: String)
    ensures
        s@ == header_seq(),
{
    "date,amount,category,notes".to_owned()
}

/// The content of a freshly initialized, empty store.
pub open spec fn init_seq() -> Seq<char> {
    header_seq() + seq!['\n']
}

/// The content of a freshly initialized, empty store: the header row
/// and nothing else.
pub fn init_content() -> (s: String)
    ensures
        s@ == init_seq(),
{
    proof {
        reveal_strlit("\n");
    }
    let mut s = header_line();
    s.append("\n");
    proof {
        assert(s@ =~= init_seq());
    }
    s
}

/// Store content after appending one record: the header appears first
/// when the store was empty, and every prior byte is kept.
pub open spec fn append_seq(c: Seq<char>, e: ExpenseView) -> Seq<char> {
    if c.len() == 0 {
        init_seq() + expense_line(e) + seq!['\n']
    } else {
        c + expense_line(e) + seq!['\n']
    }
}

/// Appends one record to store content held in memory.
pub fn append_to_store(content: &str, e: &Expense) -> (r: String)
    requires
        expense_wf(e@),
    ensures
        r@ == append_seq(content@, e@),
{
    proof {
        reveal_strlit("\n");
    }
    let mut r = if content.unicode_len() == 0 {
        init_content()
    } else {
        content.to_owned()
    };
    let line = serialize_expense(e);
    r.append(line.as_str());
    r.append("\n");
    proof {
        assert(r@ =~= append_seq(content@, e@));
    }
    r
}

/// The bytes that one append writes at the end of the store file: the
/// header first when the file was just created.
pub fn append_chunk(store_exists: bool, e: &Expense) -> (r: String)
    requires
        expense_wf(e@),
    ensures
        store_exists ==> r@ == expense_line(e@) + seq!['\n'],
        !store_exists ==> r@ == init_seq() + expense_line(e@) + seq!['\n'],
{
    proof {
        reveal_strlit("\n");
    }
    let mut r = if store_exists {
        String::new()
    } else {
        init_content()
    };
    let line = serialize_expense(e);
    r.append(line.as_str());
    r.append("\n");
    proof {
        if store_exists {
            assert(r@ =~= expense_line(e@) + seq!['\n']);
        } else {
            assert(r@ =~= init_seq() + expense_line(e@) + seq!['\n']);
        }
    }
    r
}

/// The full rewritten content of a store holding exactly `vs`, in order.
pub open spec fn render_seq(vs: Seq<ExpenseView>) -> Seq<char>
    decreases vs.len(),
{
    if vs.len() == 0 {
        init_seq()
    } else {
        render_seq(vs.drop_last()) + expense_line(vs.last()) + seq!['\n']
    }
}

/// The full content of a store holding exactly the given records, in
/// the given order: header row, then one row per record.
pub fn render_store(es: &Vec<Expense>) -> (r: String)
    requires
        forall|i: int| 0 <= i < es@.len() ==> expense_wf(#[trigger] es@[i]@),
    ensures
        r@ == render_seq(es@.map_values(|x: Expense| x@)),
{
    proof {
        reveal_strlit("\n");
    }
    let ghost vs = es@.map_values(|x: Expense| x@);
    let mut r = init_content();
    let mut i: usize = 0;
    while i < es.len()
        invariant
            i <= es@.len(),
            vs == es@.map_values(|x: Expense| x@),
            forall|k: int| 0 <= k < es@.len() ==> expense_wf(#[trigger] es@[k]@),
            r@ == render_seq(vs.take(i as int)),
        decreases es@.len() - i,
    {
        let line = serialize_expense(&es[i]);
        r.append(line.as_str());
        r.append("\n");
        proof {
            reveal_strlit("\n");
            assert(vs.take(i + 1).drop_last() =~= vs.take(i as int));
            assert(vs.take(i + 1).last() == es@[i as int]@);
            assert(r@ =~= render_seq(vs.take(i + 1)));
        }
        i = i + 1;
    }
    proof {
        assert(vs.take(vs.len() as int) =~= vs);
    }
    r
}

/// Content and rest of a quoted field, read from just after its opening
/// quote: characters up to an unpaired quote, doubled quotes standing
/// for one. `None` when no closing quote follows.
pub open spec fn scan_quoted(s: Seq<char>) -> Option<(Seq<char>, Seq<char>)>
    decreases s.len(),
{
    if s.len() == 0 {
        None
    } else if s[0] == '"' {
        if s.len() >= 2 && s[1] == '"' {
            match scan_quoted(s.skip(2)) {
                Some(p) => Some((seq!['"'] + p.0, p.1)),
                None => None,
            }
        } else {
            Some((Seq::<char>::empty(), s.skip(1)))
        }
    } else {
        match scan_quoted(s.skip(1)) {
            Some(p) => Some((seq![s[0]] + p.0, p.1)),
            None => None,
        }
    }
}

/// Content and rest of the first field of `s`; the rest is empty or
/// starts at the separating comma. `None` on a lone or ill-closed
/// quoted field.
pub open spec fn parse_field(s: Seq<char>) -> Option<(Seq<char>, Seq<char>)> {
    if s.len() > 0 && s[0] == '"' {
        match scan_quoted(s.skip(1)) {
            Some(p) => if p.1.len() == 0 || p.1[0] == ',' {
                Some(p)
            } else {
                None
            },
            None => None,
        }
    } else {
        let e = find_char(s, ',');
        Some((s.subrange(0, e), s.skip(e)))
    }
}

/// What one row of the store denotes: exactly four fields, the second
/// an amount in the accepted decimal shape. Anything else denotes
/// nothing and counts as malformed.
pub open spec fn spec_parse_line(s: Seq<char>) -> Option<ExpenseView> {
    match parse_field(s) {
        Some(p1) => if p1.1.len() > 0 {
            match parse_field(p1.1.skip(1)) {
                Some(p2) => if p2.1.len() > 0 {
                    match parse_field(p2.1.skip(1)) {
                        Some(p3) => if p3.1.len() > 0 {
                            match parse_field(p3.1.skip(1)) {
                                Some(p4) => if p4.1.len() == 0 {
                                    match spec_parse_amount(p2.0) {
                                        Some(a) => Some(
                                            ExpenseView {
                                                date: p1.0,
                                                amount: a,
                                                category: p3.0,
                                                notes: p4.0,
                                            },
                                        ),
                                        None => None,
                                    }
                                } else {
                                    None
                                },
                                None => None,
                            }
                        } else {
                            None
                        },
                        None => None,
                    }
                } else {
                    None
                },
                None => None,
            }
        } else {
            None
        },
        None => None,
    }
}

/// Reads the first field of `s[i..]`; on success the content and the
/// index of the separating comma (or the end of `s`).
fn take_field(s: &[char], i: usize) -> (r: Option<(Vec<char>, usize)>)
    requires
        i <= s@.len(),
    ensures
        match r {
            Some(p) => {
                &&& i <= p.1 <= s@.len()
                &&& parse_field(s@.skip(i as int)) == Some((p.0@, s@.skip(p.1 as int)))
                &&& (p.1 == s@.len() || s@[p.1 as int] == ',')
            },
            None => parse_field(s@.skip(i as int)) is None,
        },
{
    let n = s.len();
    if i < n && s[i] == '"' {
        let ghost q0 = s@.skip(i + 1);
        let mut content: Vec<char> = Vec::new();
        let mut j: usize = i + 1;
        loop
            invariant
                i < n,
                s@[i as int] == '"',
                i + 1 <= j <= n,
                n == s@.len(),
                q0 == s@.skip(i + 1),
                match scan_quoted(s@.skip(j as int)) {
                    Some(p) => scan_quoted(q0) == Some((content@ + p.0, p.1)),
                    None => scan_quoted(q0) is None,
                },
            decreases n - j,
        {
            proof {
                assert(s@.skip(i as int)[0] == s@[i as int]);
                assert(s@.skip(i as int).skip(1) =~= s@.skip(i + 1));
            }
            if j >= n {
                assert(s@.skip(j as int).len() == 0);
                return None;
            }
            let c = s[j];
            proof {
                assert(s@.skip(j as int)[0] == s@[j as int]);
            }
            if c == '"' {
                if j + 1 < n && s[j + 1] == '"' {
                    proof {
                        assert(s@.skip(j as int)[1] == s@[j + 1]);
                        assert(s@.skip(j as int).skip(2) =~= s@.skip(j + 2));
                        if scan_quoted(s@.skip(j + 2)) is Some {
                            let p = scan_quoted(s@.skip(j + 2)).unwrap();
                            assert(content@ + (seq!['"'] + p.0) =~= content@.push('"') + p.0);
                        }
                    }
                    content.push('"');
                    j = j + 2;
                } else {
                    proof {
                        assert(s@.skip(j as int).skip(1) =~= s@.skip(j + 1));
                        if j + 1 < n {
                            assert(s@.skip(j as int)[1] == s@[j + 1]);
                        }
                        assert(scan_quoted(s@.skip(j as int)) == Some(
                            (Seq::<char>::empty(), s@.skip(j + 1)),
                        ));
                        assert(content@ + Seq::<char>::empty() =~= content@);
                    }
                    let next = j + 1;
                    if next == n {
                        proof {
                            assert(s@.skip(next as int).len() == 0);
                        }
                        return Some((content, next));
                    }
                    if s[next] == ',' {
                        proof {
                            assert(s@.skip(next as int)[0] == s@[next as int]);
                        }
                        return Some((content, next));
                    }
                    proof {
                        assert(s@.skip(next as int)[0] == s@[next as int]);
                    }
                    return None;
                }
            } else {
                proof {
                    assert(s@.skip(j as int).skip(1) =~= s@.skip(j + 1));
                    if scan_quoted(s@.skip(j + 1)) is Some {
                        let p = scan_quoted(s@.skip(j + 1)).unwrap();
                        assert(content@ + (seq![s@[j as int]] + p.0) =~= content@.push(
                            s@[j as int],
                        ) + p.0);
                    }
                }
                content.push(c);
                j = j + 1;
            }
        }
    } else {
        let mut e: usize = i;
        while e < n && s[e] != ','
            invariant
                i <= e <= n,
                n == s@.len(),
                forall|k: int| i <= k < e ==> s@[k] != ',',
            decreases n - e,
        {
            e = e + 1;
        }
        proof {
            let b = s@.skip(i as int);
            assert forall|k: int| 0 <= k < e - i implies b[k] != ',' by {
                assert(b[k] == s@[k + i]);
            }
            if (e - i) < b.len() {
                assert(b[e - i] == s@[e as int]);
            }
            lemma_find_char_at(b, ',', e - i);
            assert(b.subrange(0, e - i) =~= s@.subrange(i as int, e as int));
            assert(b.skip(e - i) =~= s@.skip(e as int));
        }
        let content = slice_to_vec(slice_subrange(s, i, e));
        Some((content, e))
    }
}

/// Reads one store row. `None` exactly on rows that do not denote an
/// expense; a row that parses yields an amount within the library's
/// bound.
pub fn parse_line(line: &[char]) -> (r: Option<Expense>)
    ensures
        match r {
            Some(e) => spec_parse_line(line@) == Some(e@) && crate::money::valid_amount(
                e.amount as int,
            ),
            None => spec_parse_line(line@) is None,
        },
{
    proof {
        assert(line@.skip(0) =~= line@);
    }
    let n = line.len();
    let (f1, j1) = match take_field(line, 0) {
        Some(p) => p,
        None => { return None },
    };
    if j1 == n {
        return None;
    }
    proof {
        assert(line@.skip(j1 as int).skip(1) =~= line@.skip(j1 + 1));
    }
    let (f2, j2) = match take_field(line, j1 + 1) {
        Some(p) => p,
        None => { return None },
    };
    if j2 == n {
        return None;
    }
    proof {
        assert(line@.skip(j2 as int).skip(1) =~= line@.skip(j2 + 1));
    }
    let (f3, j3) = match take_field(line, j2 + 1) {
        Some(p) => p,
        None => { return None },
    };
    if j3 == n {
        return None;
    }
    proof {
        assert(line@.skip(j3 as int).skip(1) =~= line@.skip(j3 + 1));
    }
    let (f4, j4) = match take_field(line, j3 + 1) {
        Some(p) => p,
        None => { return None },
    };
    if j4 != n {
        return None;
    }
    proof {
        assert(line@.skip(j4 as int).len() == 0);
    }
    let amount = match parse_amount(f2.as_slice()) {
        Some(v) => v,
        None => { return None },
    };
    let date = chars_to_string(f1.as_slice());
    let category = chars_to_string(f3.as_slice());
    let notes = chars_to_string(f4.as_slice());
    Some(Expense { date, amount, category, notes })
}

/// The store content split at line breaks; a trailing line break ends
/// the last line rather than opening an empty one.
pub open spec fn spec_lines(s: Seq<char>) -> Seq<Seq<char>>
    decreases s.len(),
{
    if s.len() == 0 {
        Seq::<Seq<char>>::empty()
    } else {
        let e = find_char(s, '\n');
        if e < 0 || e >= s.len() {
            seq![s]
        } else {
            seq![s.subrange(0, e)] + spec_lines(s.subrange(e + 1, s.len() as int))
        }
    }
}

/// A line without its trailing carriage return, if it carries one.
pub open spec fn strip_cr(l: Seq<char>) -> Seq<char> {
    if l.len() > 0 && l.last() == '\r' {
        l.drop_last()
    } else {
        l
    }
}

/// What a sequence of data rows denotes: the records of the rows that
/// parse, in order, and the count of non-empty rows that do not.
pub open spec fn spec_parse_rows(rows: Seq<Seq<char>>) -> (Seq<ExpenseView>, int)
    decreases rows.len(),
{
    if rows.len() == 0 {
        (Seq::<ExpenseView>::empty(), 0int)
    } else {
        let p = spec_parse_rows(rows.drop_last());
        let t = strip_cr(rows.last());
        if t.len() == 0 {
            p
        } else {
            match spec_parse_line(t) {
                Some(e) => (p.0.push(e), p.1),
                None => (p.0, p.1 + 1),
            }
        }
    }
}

/// What whole store content denotes: the first line is the header and
/// carries no record; every later line is a data row.
pub open spec fn spec_parse_store(s: Seq<char>) -> (Seq<ExpenseView>, int) {
    let ls = spec_lines(s);
    if ls.len() == 0 {
        (Seq::<ExpenseView>::empty(), 0int)
    } else {
        spec_parse_rows(ls.skip(1))
    }
}

/// The lines of `s`, split at line breaks.
fn split_lines(s: &[char]) -> (r: Vec<Vec<char>>)
    ensures
        r@.map_values(|v: Vec<char>| v@) == spec_lines(s@),
{
    let n = s.len();
    let mut lines: Vec<Vec<char>> = Vec::new();
    let mut p: usize = 0;
    proof {
        assert(s@.skip(0) =~= s@);
        assert(lines@.map_values(|v: Vec<char>| v@) =~= Seq::<Seq<char>>::empty());
        assert(lines@.map_values(|v: Vec<char>| v@) + spec_lines(s@) =~= spec_lines(s@));
    }
    while p < n
        invariant
            p <= n,
            n == s@.len(),
            spec_lines(s@) == lines@.map_values(|v: Vec<char>| v@) + spec_lines(
                s@.skip(p as int),
            ),
        decreases n - p,
    {
        let mut e: usize = p;
        while e < n && s[e] != '\n'
            invariant
                p <= e <= n,
                n == s@.len(),
                forall|k: int| p <= k < e ==> s@[k] != '\n',
            decreases n - e,
        {
            e = e + 1;
        }
        proof {
            let b = s@.skip(p as int);
            assert forall|k: int| 0 <= k < e - p implies b[k] != '\n' by {
                assert(b[k] == s@[k + p]);
            }
            if (e - p) < b.len() {
                assert(b[e - p] == s@[e as int]);
            }
            lemma_find_char_at(b, '\n', e - p);
            assert(b.subrange(0, e - p) =~= s@.subrange(p as int, e as int));
            if e < n {
                assert(b.subrange(e - p + 1, b.len() as int) =~= s@.skip(e + 1));
            }
        }
        let line = slice_to_vec(slice_subrange(s, p, e));
        lines.push(line);
        proof {
            assert(lines@.map_values(|v: Vec<char>| v@) =~= lines@.drop_last().map_values(
                |v: Vec<char>| v@,
            ).push(s@.subrange(p as int, e as int)));
            if e == n {
                assert(s@.subrange(p as int, e as int) =~= s@.skip(p as int));
                assert(s@.skip(n as int).len() == 0);
                assert(spec_lines(s@.skip(n as int)) =~= Seq::<Seq<char>>::empty());
                assert(spec_lines(s@.skip(p as int)) =~= seq![s@.skip(p as int)]);
                assert(lines@.map_values(|v: Vec<char>| v@) + spec_lines(s@.skip(n as int))
                    =~= spec_lines(s@));
            } else {
                assert(spec_lines(s@.skip(p as int)) =~= seq![s@.subrange(p as int, e as int)]
                    + spec_lines(s@.skip(e + 1)));
                assert(lines@.map_values(|v: Vec<char>| v@) + spec_lines(s@.skip(e + 1))
                    =~= spec_lines(s@));
            }
        }
        if e == n {
            p = n;
        } else {
            p = e + 1;
        }
    }
    proof {
        assert(spec_lines(s@.skip(p as int)) =~= Seq::<Seq<char>>::empty());
        assert(lines@.map_values(|v: Vec<char>| v@) =~= spec_lines(s@));
    }
    lines
}

/// A store read back into memory: the records of every row that
/// parses, and the count of malformed rows that were skipped.
pub struct ParsedStore {
    pub records: Vec<Expense>,
    pub skipped: usize,
}

/// Reads whole store content, tolerantly: the first line is the
/// header; each malformed later row is counted in `skipped` and the
/// rest of the store is still read.
pub fn parse_store(content: &str) -> (r: ParsedStore)
    ensures
        r.records@.map_values(|e: Expense| e@) == spec_parse_store(content@).0,
        r.skipped as int == spec_parse_store(content@).1,
        forall|k: int|
            0 <= k < r.records@.len() ==> crate::money::valid_amount(
                #[trigger] r.records@[k]@.amount,
            ),
{
    let chars = str_to_chars(content);
    let lines = split_lines(chars.as_slice());
    let mut records: Vec<Expense> = Vec::new();
    let mut skipped: usize = 0;
    if lines.len() == 0 {
        return ParsedStore { records, skipped };
    }
    let ghost rows = spec_lines(content@).skip(1);
    let nl = lines.len();
    let mut i: usize = 1;
    while i < nl
        invariant
            1 <= i <= nl,
            nl == lines@.len(),
            lines@.map_values(|v: Vec<char>| v@) == spec_lines(content@),
            rows == spec_lines(content@).skip(1),
            skipped <= i - 1,
            (records@.map_values(|e: Expense| e@), skipped as int) == spec_parse_rows(
                rows.take(i - 1),
            ),
            forall|k: int|
                0 <= k < records@.len() ==> crate::money::valid_amount(
                    #[trigger] records@[k]@.amount,
                ),
        decreases nl - i,
    {
        let row = &lines[i];
        let m = row.len();
        let t_end: usize = if m > 0 && row[m - 1] == '\r' {
            m - 1
        } else {
            m
        };
        let t = slice_subrange(row.as_slice(), 0, t_end);
        proof {
            assert(lines@.map_values(|v: Vec<char>| v@)[i as int] == lines@[i as int]@);
            assert(rows[i - 1] == spec_lines(content@)[i as int]);
            assert(t@ =~= strip_cr(rows[i - 1]));
            assert(rows.take(i as int).drop_last() =~= rows.take(i - 1));
            assert(rows.take(i as int).last() == rows[i - 1]);
        }
        if t.len() == 0 {
        } else {
            match parse_line(t) {
                Some(e) => {
                    records.push(e);
                    proof {
                        assert(records@.map_values(|e: Expense| e@) =~= records@.drop_last()
                            .map_values(|e: Expense| e@).push(records@.last()@));
                    }
                },
                None => {
                    skipped = skipped + 1;
                },
            }
        }
        i = i + 1;
    }
    proof {
        assert(rows.take(nl - 1) =~= rows);
    }
    ParsedStore { records, skipped }
}

/// Concatenation keeps text line-break-free.
proof fn lemma_csv_ok_concat(a: Seq<char>, b: Seq<char>)
    requires
        csv_ok(a),
        csv_ok(b),
    ensures
        csv_ok(a + b),
{
    assert forall|i: int| 0 <= i < (a + b).len() implies (a + b)[i] != '\n' && (a + b)[i]
        != '\r' by {
        if i < a.len() {
            assert((a + b)[i] == a[i]);
        } else {
            assert((a + b)[i] == b[i - a.len()]);
        }
    }
}

/// A member of line-break-free text is not a line break.
proof fn lemma_csv_ok_member(s: Seq<char>, x: char)
    requires
        csv_ok(s),
        s.contains(x),
    ensures
        x != '\n' && x != '\r',
{
    let j = choose|j: int| 0 <= j < s.len() && s[j] == x;
    assert(s[j] != '\n' && s[j] != '\r');
}

/// Every character of escaped text is a quote or taken from the text.
proof fn lemma_escape_charset(s: Seq<char>)
    ensures
        forall|i: int|
            0 <= i < escape_quotes(s).len() ==> (#[trigger] escape_quotes(s)[i] == '"'
                || s.contains(escape_quotes(s)[i])),
    decreases s.len(),
{
    if s.len() == 0 {
    } else {
        lemma_escape_charset(s.skip(1));
        let h = if s[0] == '"' {
            seq!['"', '"']
        } else {
            seq![s[0]]
        };
        assert(escape_quotes(s) == h + escape_quotes(s.skip(1)));
        assert forall|i: int| 0 <= i < escape_quotes(s).len() implies (#[trigger] escape_quotes(
            s,
        )[i] == '"' || s.contains(escape_quotes(s)[i])) by {
            if i < h.len() {
                assert(escape_quotes(s)[i] == h[i]);
                if s[0] != '"' {
                    assert(h[i] == s[0]);
                    assert(s.contains(s[0]));
                }
            } else {
                let x = escape_quotes(s)[i];
                assert(x == escape_quotes(s.skip(1))[i - h.len()]);
                if x != '"' {
                    assert(s.skip(1).contains(x));
                    let j = choose|j: int| 0 <= j < s.skip(1).len() && s.skip(1)[j] == x;
                    assert(s[j + 1] == x);
                    assert(s.contains(x));
                }
            }
        }
    }
}

/// The written form of a line-break-free field is line-break-free.
proof fn lemma_csv_field_ok(f: Seq<char>)
    requires
        csv_ok(f),
    ensures
        csv_ok(csv_field(f)),
{
    if needs_quote(f) {
        lemma_escape_charset(f);
        assert forall|i: int| 0 <= i < csv_field(f).len() implies csv_field(f)[i] != '\n'
            && csv_field(f)[i] != '\r' by {
            let q = csv_field(f);
            if i == 0 {
                assert(q[i] == '"');
            } else if i < 1 + escape_quotes(f).len() {
                assert(q[i] == escape_quotes(f)[i - 1]);
                let x = escape_quotes(f)[i - 1];
                if x != '"' {
                    lemma_csv_ok_member(f, x);
                }
            } else {
                assert(q[i] == '"');
            }
        }
    }
}

/// The written row of a well-formed expense is one non-empty,
/// line-break-free line.
pub proof fn lemma_expense_line_ok(e: ExpenseView)
    requires
        expense_wf(e),
    ensures
        csv_ok(expense_line(e)),
        expense_line(e).len() > 0,
{
    crate::money::lemma_amount_charset(e.amount);
    assert(csv_ok(amount_seq(e.amount)));
    lemma_csv_field_ok(e.date);
    lemma_csv_field_ok(amount_seq(e.amount));
    lemma_csv_field_ok(e.category);
    lemma_csv_field_ok(e.notes);
    assert(csv_ok(seq![',']));
    lemma_csv_ok_concat(csv_field(e.date), seq![',']);
    lemma_csv_ok_concat(csv_field(e.date) + seq![','], csv_field(amount_seq(e.amount)));
    lemma_csv_ok_concat(
        csv_field(e.date) + seq![','] + csv_field(amount_seq(e.amount)),
        seq![','],
    );
    lemma_csv_ok_concat(
        csv_field(e.date) + seq![','] + csv_field(amount_seq(e.amount)) + seq![','],
        csv_field(e.category),
    );
    lemma_csv_ok_concat(
        csv_field(e.date) + seq![','] + csv_field(amount_seq(e.amount)) + seq![','] + csv_field(
            e.category,
        ),
        seq![','],
    );
    lemma_csv_ok_concat(
        csv_field(e.date) + seq![','] + csv_field(amount_seq(e.amount)) + seq![','] + csv_field(
            e.category,
        ) + seq![','],
        csv_field(e.notes),
    );
}

/// Scanning the escaped form of a field finds the field again, up to
/// the closing quote.
proof fn lemma_scan_quoted_escape(f: Seq<char>, rest: Seq<char>)
    requires
        rest.len() == 0 || rest[0] != '"',
    ensures
        scan_quoted(escape_quotes(f) + seq!['"'] + rest) == Some((f, rest)),
    decreases f.len(),
{
    let s = escape_quotes(f) + seq!['"'] + rest;
    if f.len() == 0 {
        assert(s =~= seq!['"'] + rest);
        assert(s[0] == '"');
        if s.len() >= 2 {
            assert(s[1] == rest[0]);
        }
        assert(s.skip(1) =~= rest);
        assert(scan_quoted(s) == Some((Seq::<char>::empty(), rest)));
        assert(f =~= Seq::<char>::empty());
    } else {
        lemma_scan_quoted_escape(f.skip(1), rest);
        let h = if f[0] == '"' {
            seq!['"', '"']
        } else {
            seq![f[0]]
        };
        assert(escape_quotes(f) == h + escape_quotes(f.skip(1)));
        if f[0] == '"' {
            assert(s[0] == '"');
            assert(s[1] == '"');
            assert(s.skip(2) =~= escape_quotes(f.skip(1)) + seq!['"'] + rest);
            assert(seq!['"'] + f.skip(1) =~= f);
            assert(scan_quoted(s) == Some((f, rest)));
        } else {
            assert(s[0] == f[0]);
            assert(s.skip(1) =~= escape_quotes(f.skip(1)) + seq!['"'] + rest);
            assert(seq![f[0]] + f.skip(1) =~= f);
            assert(scan_quoted(s) == Some((f, rest)));
        }
    }
}

/// Reading the written form of a field yields the field again.
proof fn lemma_parse_field_round(f: Seq<char>, rest: Seq<char>)
    requires
        rest.len() == 0 || rest[0] == ',',
    ensures
        parse_field(csv_field(f) + rest) == Some((f, rest)),
{
    let s = csv_field(f) + rest;
    if needs_quote(f) {
        assert(s[0] == '"');
        assert(s.skip(1) =~= escape_quotes(f) + seq!['"'] + rest);
        lemma_scan_quoted_escape(f, rest);
        assert(parse_field(s) == Some((f, rest)));
    } else {
        assert forall|i: int| 0 <= i < f.len() implies f[i] != ',' && f[i] != '"' by {
            if f[i] == ',' || f[i] == '"' {
                assert(needs_quote(f));
            }
        }
        assert(s =~= f + rest);
        if s.len() > 0 {
            if f.len() > 0 {
                assert(s[0] == f[0]);
            } else {
                assert(s[0] == rest[0]);
            }
            assert(s[0] != '"');
        }
        assert forall|j: int| 0 <= j < f.len() implies s[j] != ',' by {
            assert(s[j] == f[j]);
        }
        if f.len() < s.len() {
            assert(s[f.len() as int] == rest[0]);
        }
        lemma_find_char_at(s, ',', f.len() as int);
        assert(s.subrange(0, f.len() as int) =~= f);
        assert(s.skip(f.len() as int) =~= rest);
        assert(parse_field(s) == Some((f, rest)));
    }
}

/// Reading back the written row of a well-formed expense yields the
/// record again.
pub proof fn lemma_line_round_trip(e: ExpenseView)
    requires
        expense_wf(e),
    ensures
        spec_parse_line(expense_line(e)) == Some(e),
{
    let f1 = csv_field(e.date);
    let f2 = csv_field(amount_seq(e.amount));
    let f3 = csv_field(e.category);
    let f4 = csv_field(e.notes);
    let rest3 = seq![','] + f4;
    let rest2 = seq![','] + f3 + rest3;
    let rest1 = seq![','] + f2 + rest2;
    let line = expense_line(e);
    assert(line =~= f1 + rest1);
    lemma_parse_field_round(e.date, rest1);
    assert(parse_field(line) == Some((e.date, rest1)));
    assert(rest1.skip(1) =~= f2 + rest2);
    lemma_parse_field_round(amount_seq(e.amount), rest2);
    assert(parse_field(rest1.skip(1)) == Some((amount_seq(e.amount), rest2)));
    assert(rest2.skip(1) =~= f3 + rest3);
    lemma_parse_field_round(e.category, rest3);
    assert(parse_field(rest2.skip(1)) == Some((e.category, rest3)));
    assert(rest3.skip(1) =~= f4 + Seq::<char>::empty());
    lemma_parse_field_round(e.notes, Seq::<char>::empty());
    assert(parse_field(rest3.skip(1)) == Some((e.notes, Seq::<char>::empty())));
    crate::money::lemma_amount_round_trip(e.amount);
    assert(spec_parse_line(line) == Some(
        ExpenseView { date: e.date, amount: e.amount, category: e.category, notes: e.notes },
    ));
    assert(ExpenseView { date: e.date, amount: e.amount, category: e.category, notes: e.notes }
        == e);
}

/// The first line of store content, header position included.
pub open spec fn first_line(s: Seq<char>) -> Seq<char> {
    s.subrange(0, find_char(s, '\n'))
}

/// The header row is line-break-free text of twenty-six characters.
pub proof fn lemma_header_ok()
    ensures
        csv_ok(header_seq()),
        header_seq().len() == 26,
{
    reveal_strlit("date,amount,category,notes");
}

/// A line break in a prefix fixes where the first one of the whole
/// text stands.
proof fn lemma_find_char_prefix(a: Seq<char>, b: Seq<char>, ch: char)
    requires
        find_char(a, ch) < a.len(),
    ensures
        find_char(a + b, ch) == find_char(a, ch),
{
    lemma_find_char(a, ch);
    let k = find_char(a, ch);
    assert((a + b)[k] == a[k]);
    assert forall|j: int| 0 <= j < k implies (a + b)[j] != ch by {
        assert((a + b)[j] == a[j]);
    }
    lemma_find_char_at(a + b, ch, k);
}

/// The header invariant: a freshly initialized store, and any append
/// on an empty target or on header-led content, keeps the header as
/// the first line.
pub proof fn lemma_header_invariant(c: Seq<char>, e: ExpenseView)
    requires
        expense_wf(e),
    ensures
        first_line(init_seq()) == header_seq(),
        first_line(append_seq(Seq::<char>::empty(), e)) == header_seq(),
        c.len() > 0 && c.last() == '\n' && first_line(c) == header_seq() ==> first_line(
            append_seq(c, e),
        ) == header_seq(),
{
    lemma_header_ok();
    assert(init_seq()[26] == '\n');
    assert forall|j: int| 0 <= j < 26 implies init_seq()[j] != '\n' by {
        assert(init_seq()[j] == header_seq()[j]);
    }
    lemma_find_char_at(init_seq(), '\n', 26);
    assert(first_line(init_seq()) =~= header_seq());
    let line = expense_line(e);
    let s0 = append_seq(Seq::<char>::empty(), e);
    assert(s0 =~= init_seq() + (line + seq!['\n']));
    lemma_find_char_prefix(init_seq(), line + seq!['\n'], '\n');
    assert(first_line(s0) =~= header_seq());
    if c.len() > 0 && c.last() == '\n' && first_line(c) == header_seq() {
        lemma_find_char(c, '\n');
        if find_char(c, '\n') == c.len() {
            assert(c[c.len() - 1] != '\n');
            assert(false);
        }
        let s1 = append_seq(c, e);
        assert(s1 =~= c + (line + seq!['\n']));
        lemma_find_char_prefix(c, line + seq!['\n'], '\n');
        assert(first_line(s1) =~= first_line(c));
    }
}

/// Appending one line-break-free line at the end adds exactly one line.
proof fn lemma_lines_snoc(c: Seq<char>, l: Seq<char>)
    requires
        c.len() == 0 || c.last() == '\n',
        csv_ok(l),
    ensures
        spec_lines(c + l + seq!['\n']) == spec_lines(c).push(l),
    decreases c.len(),
{
    let s = c + l + seq!['\n'];
    if c.len() == 0 {
        assert(s =~= l + seq!['\n']);
        assert(s[l.len() as int] == '\n');
        assert forall|j: int| 0 <= j < l.len() implies s[j] != '\n' by {
            assert(s[j] == l[j]);
        }
        lemma_find_char_at(s, '\n', l.len() as int);
        assert(s.subrange(0, l.len() as int) =~= l);
        assert(s.subrange(l.len() as int + 1, s.len() as int) =~= Seq::<char>::empty());
        assert(spec_lines(Seq::<char>::empty()) =~= Seq::<Seq<char>>::empty());
        assert(spec_lines(s) =~= seq![l]);
        assert(spec_lines(c) =~= Seq::<Seq<char>>::empty());
        assert(spec_lines(c).push(l) =~= seq![l]);
    } else {
        lemma_find_char(c, '\n');
        let ec = find_char(c, '\n');
        if ec == c.len() {
            assert(c[c.len() - 1] != '\n');
            assert(false);
        }
        lemma_find_char_prefix(c, l + seq!['\n'], '\n');
        assert(s =~= c + (l + seq!['\n']));
        assert(find_char(s, '\n') == ec);
        let c2 = c.subrange(ec + 1, c.len() as int);
        assert(c2.len() == 0 || c2.last() == '\n');
        lemma_lines_snoc(c2, l);
        assert(s.subrange(0, ec) =~= c.subrange(0, ec));
        assert(s.subrange(ec + 1, s.len() as int) =~= c2 + l + seq!['\n']);
        assert(spec_lines(s) == seq![c.subrange(0, ec)] + spec_lines(c2).push(l));
        assert(spec_lines(c) == seq![c.subrange(0, ec)] + spec_lines(c2));
        assert(seq![c.subrange(0, ec)] + spec_lines(c2).push(l) =~= (seq![c.subrange(0, ec)]
            + spec_lines(c2)).push(l));
    }
}

/// Append-only growth: appending one well-formed record to header-led,
/// line-break-terminated store content adds exactly that record at the
/// end of what a read returns, leaves every earlier record unchanged
/// and in place, and skips nothing new.
pub proof fn lemma_append_growth(c: Seq<char>, e: ExpenseView)
    requires
        c.len() > 0,
        c.last() == '\n',
        expense_wf(e),
    ensures
        spec_parse_store(append_seq(c, e)).0 == spec_parse_store(c).0.push(e),
        spec_parse_store(append_seq(c, e)).1 == spec_parse_store(c).1,
{
    let line = expense_line(e);
    lemma_expense_line_ok(e);
    lemma_line_round_trip(e);
    lemma_lines_snoc(c, line);
    assert(append_seq(c, e) =~= c + line + seq!['\n']);
    let ls = spec_lines(c);
    assert(ls.len() > 0);
    assert(spec_lines(append_seq(c, e)) == ls.push(line));
    assert(ls.push(line).skip(1) =~= ls.skip(1).push(line));
    let rows = ls.skip(1);
    assert(rows.push(line).drop_last() =~= rows);
    assert(rows.push(line).last() == line);
    assert(line.last() != '\r');
    assert(strip_cr(line) == line);
    assert(spec_parse_rows(rows.push(line)).0 == spec_parse_rows(rows).0.push(e));
    assert(spec_parse_rows(rows.push(line)).1 == spec_parse_rows(rows).1);
}

/// Rewritten store content is never empty and ends at a line break.
proof fn lemma_render_props(vs: Seq<ExpenseView>)
    ensures
        render_seq(vs).len() > 0,
        render_seq(vs).last() == '\n',
    decreases vs.len(),
{
    reveal_strlit("date,amount,category,notes");
    if vs.len() == 0 {
        assert(init_seq().last() == '\n');
    } else {
        lemma_render_props(vs.drop_last());
    }
}

/// Round trip: a store rewritten from any well-formed records reads
/// back as exactly those records, in the same order, with nothing
/// skipped.
pub proof fn lemma_store_round_trip(vs: Seq<ExpenseView>)
    requires
        forall|i: int| 0 <= i < vs.len() ==> expense_wf(#[trigger] vs[i]),
    ensures
        spec_parse_store(render_seq(vs)).0 == vs,
        spec_parse_store(render_seq(vs)).1 == 0,
    decreases vs.len(),
{
    if vs.len() == 0 {
        lemma_header_ok();
        lemma_lines_snoc(Seq::<char>::empty(), header_seq());
        assert(Seq::<char>::empty() + header_seq() + seq!['\n'] =~= init_seq());
        assert(spec_lines(init_seq()) == Seq::<Seq<char>>::empty().push(header_seq()));
        assert(spec_lines(init_seq()).len() == 1);
        assert(spec_lines(init_seq()).skip(1) =~= Seq::<Seq<char>>::empty());
        assert(spec_parse_store(render_seq(vs)).0 =~= vs);
    } else {
        let vs0 = vs.drop_last();
        lemma_store_round_trip(vs0);
        lemma_render_props(vs0);
        assert(append_seq(render_seq(vs0), vs.last()) =~= render_seq(vs));
        lemma_append_growth(render_seq(vs0), vs.last());
        assert(spec_parse_store(render_seq(vs)).0 =~= vs);
    }
}

/// Reads whole store content under the strict policy: any malformed
/// row fails the whole read with `MalformedRecord`.
pub fn parse_store_strict(content: &str) -> (r: Result<Vec<Expense>, SemError>)
    ensures
        match r {
            Ok(records) => spec_parse_store(content@).1 == 0 && records@.map_values(
                |e: Expense| e@,
            ) == spec_parse_store(content@).0,
            Err(err) => spec_parse_store(content@).1 > 0 && err == SemError::MalformedRecord,
        },
{
    let parsed = parse_store(content);
    if parsed.skipped > 0 {
        Err(SemError::MalformedRecord)
    } else {
        Ok(parsed.records)
    }
}

/// The file name of the store for one year: the active store rotates
/// at each year boundary.
pub fn store_file_name(year: i32) -> (s: String)
    requires
        0 <= year <= 9999,
    ensures
        s@ == "expenses-"@ + crate::text::pad4(year as int) + ".csv"@,
{
    let mut s = "expenses-".to_owned();
    let y = crate::text::pad4_string(year as u64);
    s.append(y.as_str());
    s.append(".csv");
    s
}

/// The outcome of the save confirmation: on yes, the appended store
/// content; on no, `NotSaved` and no change to any content.
pub fn apply_save_decision(confirmed: bool, content: &str, e: &Expense) -> (r: Result<
    String,
    SemError,
>)
    requires
        expense_wf(e@),
    ensures
        match r {
            Ok(c) => confirmed && c@ == append_seq(content@, e@),
            Err(err) => !confirmed && err == SemError::NotSaved,
        },
{
    if confirmed {
        Ok(append_to_store(content, e))
    } else {
        Err(SemError::NotSaved)
    }
}

} // verus!
