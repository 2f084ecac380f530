//! Money as fixed-point hundredths of the currency unit: the bound the
//! library enforces on amounts, the store's plain decimal form, the
//! South-Asian grouped display form, and the parser for operator-typed
//! amount text.

use vstd::prelude::*;
use vstd::slice::slice_subrange;
use vstd::string::StringExecFns;
use crate::text::{
    all_digits,
    chars_to_string,
    dec_str,
    dec_val,
    find_char,
    is_digit,
    lemma_dec_str_len,
    lemma_dec_str_val,
    lemma_dec_val_bound,
    lemma_digit_char_val,
    lemma_find_char,
    lemma_find_char_at,
    lemma_pow10_small,
    pad2,
    pad2_string,
    parse_uint,
    pow10,
    u64_to_string,
};

verus! {

/// Largest magnitude, in hundredths, that the library accepts for one
/// amount. The bound is what lets every total of a whole store fit in
/// 128-bit arithmetic.
pub open spec fn valid_amount(c: int) -> bool {
    -10_000_000_000_000_000 < c < 10_000_000_000_000_000
}

/// The plain decimal store form of an amount in hundredths: unit part,
/// a dot, and exactly two fraction digits, with a leading `-` when
/// negative.
pub open spec fn amount_seq(c: int) -> Seq<char> {
    if c < 0 {
        seq!['-'] + dec_str((-c / 100) as nat) + seq!['.'] + pad2(-c % 100)
    } else {
        dec_str((c / 100) as nat) + seq!['.'] + pad2(c % 100)
    }
}

/// Digit grouping by pairs, for the part left of the rightmost group of
/// three.
pub open spec fn group2(s: Seq<char>) -> Seq<char>
    decreases s.len(),
{
    if s.len() <= 2 {
        s
    } else {
        group2(s.take(s.len() - 2)) + seq![','] + s.skip(s.len() - 2)
    }
}

/// South-Asian digit grouping: the rightmost three digits in one group,
/// then pairs moving left.
pub open spec fn group3(s: Seq<char>) -> Seq<char> {
    if s.len() <= 3 {
        s
    } else {
        group2(s.take(s.len() - 3)) + seq![','] + s.skip(s.len() - 3)
    }
}

/// The grouped display form of an amount in hundredths: grouped unit
/// part, a dot, and exactly two fraction digits.
pub open spec fn inr_seq(c: int) -> Seq<char> {
    if c < 0 {
        seq!['-'] + group3(dec_str((-c / 100) as nat)) + seq!['.'] + pad2(-c % 100)
    } else {
        group3(dec_str((c / 100) as nat)) + seq!['.'] + pad2(c % 100)
    }
}

/// The plain decimal store form of an amount in hundredths.
pub fn format_amount(cents: i64) -> (s: String)
    requires
        valid_amount(cents as int),
    ensures
        s@ == amount_seq(cents as int),
{
    proof {
        reveal_strlit("-");
        reveal_strlit(".");
    }
    if cents < 0 {
        let mag = (-cents) as u64;
        let mut s = "-".to_owned();
        let units = u64_to_string(mag / 100);
        s.append(units.as_str());
        s.append(".");
        let fr = pad2_string(mag % 100);
        s.append(fr.as_str());
        proof {
            assert(s@ =~= amount_seq(cents as int));
        }
        s
    } else {
        let mag = cents as u64;
        let mut s = u64_to_string(mag / 100);
        s.append(".");
        let fr = pad2_string(mag % 100);
        s.append(fr.as_str());
        proof {
            assert(s@ =~= amount_seq(cents as int));
        }
        s
    }
}

/// Pair-grouping of a digit string, as executable code.
fn group2_exec(s: &[char]) -> (r: String)
    ensures
        r@ == group2(s@),
    decreases s@.len(),
{
    proof {
        reveal_strlit(",");
    }
    if s.len() <= 2 {
        chars_to_string(s)
    } else {
        let n = s.len();
        let mut r = group2_exec(slice_subrange(s, 0, n - 2));
        r.append(",");
        let tail = chars_to_string(slice_subrange(s, n - 2, n));
        r.append(tail.as_str());
        proof {
            assert(s@.subrange(0, s@.len() - 2) =~= s@.take(s@.len() - 2));
            assert(s@.subrange(s@.len() - 2, s@.len() as int) =~= s@.skip(s@.len() - 2));
            assert(r@ =~= group2(s@));
        }
        r
    }
}

/// South-Asian grouping of a digit string, as executable code.
fn group3_exec(s: &[char]) -> (r: String)
    ensures
        r@ == group3(s@),
{
    proof {
        reveal_strlit(",");
    }
    if s.len() <= 3 {
        chars_to_string(s)
    } else {
        let n = s.len();
        let mut r = group2_exec(slice_subrange(s, 0, n - 3));
        r.append(",");
        let tail = chars_to_string(slice_subrange(s, n - 3, n));
        r.append(tail.as_str());
        proof {
            assert(s@.subrange(0, s@.len() - 3) =~= s@.take(s@.len() - 3));
            assert(s@.subrange(s@.len() - 3, s@.len() as int) =~= s@.skip(s@.len() - 3));
            assert(r@ =~= group3(s@));
        }
        r
    }
}

/// The grouped display form of an amount in hundredths: the rightmost
/// three unit digits form one group, then pairs moving left, always
/// with exactly two fraction digits.
pub fn format_inr(cents: i64) -> (s: String)
    requires
        valid_amount(cents as int),
    ensures
        s@ == inr_seq(cents as int),
{
    proof {
        reveal_strlit("-");
        reveal_strlit(".");
    }
    if cents < 0 {
        let mag = (-cents) as u64;
        let units = u64_to_string(mag / 100);
        let uchars = crate::text::str_to_chars(units.as_str());
        let mut s = "-".to_owned();
        let grouped = group3_exec(uchars.as_slice());
        s.append(grouped.as_str());
        s.append(".");
        let fr = pad2_string(mag % 100);
        s.append(fr.as_str());
        proof {
            assert(s@ =~= inr_seq(cents as int));
        }
        s
    } else {
        let mag = cents as u64;
        let units = u64_to_string(mag / 100);
        let uchars = crate::text::str_to_chars(units.as_str());
        let mut s = group3_exec(uchars.as_slice());
        s.append(".");
        let fr = pad2_string(mag % 100);
        s.append(fr.as_str());
        proof {
            assert(s@ =~= inr_seq(cents as int));
        }
        s
    }
}

/// A bound that every total of a whole store respects: at most
/// `usize::MAX` records, each within the single-amount bound.
pub open spec fn valid_total(c: int) -> bool {
    -200_000_000_000_000_000_000_000_000_000_000_000 < c
        < 200_000_000_000_000_000_000_000_000_000_000_000
}

/// A sum of at most `2^64 - 1` bounded amounts is a valid total.
pub proof fn lemma_total_bound(t: int, n: int)
    requires
        0 <= n <= 0xffff_ffff_ffff_ffff,
        -10_000_000_000_000_000 * n <= t <= 10_000_000_000_000_000 * n,
    ensures
        valid_total(t),
{
    assert(10_000_000_000_000_000 * n <= 10_000_000_000_000_000 * 0xffff_ffff_ffff_ffff)
        by (nonlinear_arith)
        requires
            0 <= n <= 0xffff_ffff_ffff_ffff,
    ;
}

/// The plain decimal display form of a whole-store total in
/// hundredths: unit part, a dot, two fraction digits.
pub fn format_amount_total(cents: i128) -> (s: String)
    requires
        valid_total(cents as int),
    ensures
        s@ == amount_seq(cents as int),
{
    proof {
        reveal_strlit("-");
        reveal_strlit(".");
    }
    if cents < 0 {
        let mag = (-cents) as u128;
        let mut s = "-".to_owned();
        let units = crate::text::u128_to_string(mag / 100);
        s.append(units.as_str());
        s.append(".");
        let fr = pad2_string((mag % 100) as u64);
        s.append(fr.as_str());
        proof {
            assert(s@ =~= amount_seq(cents as int));
        }
        s
    } else {
        let mag = cents as u128;
        let mut s = crate::text::u128_to_string(mag / 100);
        s.append(".");
        let fr = pad2_string((mag % 100) as u64);
        s.append(fr.as_str());
        proof {
            assert(s@ =~= amount_seq(cents as int));
        }
        s
    }
}

/// The grouped display form of a whole-store total in hundredths.
pub fn format_inr_total(cents: i128) -> (s: String)
    requires
        valid_total(cents as int),
    ensures
        s@ == inr_seq(cents as int),
{
    proof {
        reveal_strlit("-");
        reveal_strlit(".");
    }
    if cents < 0 {
        let mag = (-cents) as u128;
        let units = crate::text::u128_to_string(mag / 100);
        let uchars = crate::text::str_to_chars(units.as_str());
        let mut s = "-".to_owned();
        let grouped = group3_exec(uchars.as_slice());
        s.append(grouped.as_str());
        s.append(".");
        let fr = pad2_string((mag % 100) as u64);
        s.append(fr.as_str());
        proof {
            assert(s@ =~= inr_seq(cents as int));
        }
        s
    } else {
        let mag = cents as u128;
        let units = crate::text::u128_to_string(mag / 100);
        let uchars = crate::text::str_to_chars(units.as_str());
        let mut s = group3_exec(uchars.as_slice());
        s.append(".");
        let fr = pad2_string((mag % 100) as u64);
        s.append(fr.as_str());
        proof {
            assert(s@ =~= inr_seq(cents as int));
        }
        s
    }
}

/// The scale of a fraction part of zero to two digits, in hundredths.
pub open spec fn frac_scaled(fp: Seq<char>) -> int {
    if fp.len() == 0 {
        0
    } else if fp.len() == 1 {
        dec_val(fp) * 10int
    } else {
        dec_val(fp) as int
    }
}

/// What operator-typed amount text denotes, in hundredths: an optional
/// leading `-`, a unit part of one to fourteen digits, and optionally a
/// dot followed by at most two fraction digits. Anything else denotes
/// nothing.
pub open spec fn spec_parse_amount(s: Seq<char>) -> Option<int> {
    let neg = s.len() > 0 && s[0] == '-';
    let b = if neg {
        s.skip(1)
    } else {
        s
    };
    let dot = find_char(b, '.');
    let ip = b.subrange(0, dot);
    let fp = if dot < b.len() {
        b.subrange(dot + 1, b.len() as int)
    } else {
        Seq::<char>::empty()
    };
    if 1 <= ip.len() <= 14 && all_digits(ip) && fp.len() <= 2 && all_digits(fp) {
        let mag = dec_val(ip) * 100 + frac_scaled(fp);
        Some(
            if neg {
                -mag
            } else {
                mag
            },
        )
    } else {
        None
    }
}

/// Parses operator-typed amount text into hundredths; `None` exactly on
/// text outside the accepted decimal shape.
pub fn parse_amount(s: &[char]) -> (r: Option<i64>)
    ensures
        match r {
            Some(v) => spec_parse_amount(s@) == Some(v as int) && valid_amount(v as int),
            None => spec_parse_amount(s@) is None,
        },
{
    let n = s.len();
    let neg = n > 0 && s[0] == '-';
    let start: usize = if neg {
        1
    } else {
        0
    };
    let ghost b = if neg {
        s@.skip(1)
    } else {
        s@
    };
    let mut dotpos: usize = start;
    while dotpos < n && s[dotpos] != '.'
        invariant
            start <= dotpos <= n,
            n == s@.len(),
            start == if neg {
                1int
            } else {
                0int
            },
            b == if neg {
                s@.skip(1)
            } else {
                s@
            },
            forall|j: int| start <= j < dotpos ==> s@[j] != '.',
        decreases n - dotpos,
    {
        dotpos = dotpos + 1;
    }
    proof {
        lemma_find_char(b, '.');
        let f = find_char(b, '.');
        assert forall|j: int| 0 <= j < b.len() implies b[j] == s@[j + start] by {
            if neg {
                assert(s@.skip(1)[j] == s@[j + 1]);
            }
        }
        if f < dotpos - start {
            assert(b[f] == '.');
            assert(s@[f + start] != '.');
            assert(false);
        }
        if dotpos < n && f > dotpos - start {
            assert(b[dotpos - start] != '.');
            assert(s@[dotpos as int] == '.');
            assert(false);
        }
        assert(find_char(b, '.') == dotpos - start);
    }
    if dotpos - start > 14 {
        proof {
            assert(b.subrange(0, dotpos - start).len() > 14);
        }
        return None;
    }
    let ip = match parse_uint(s, start, dotpos) {
        Some(v) => v,
        None => {
            proof {
                assert(b.subrange(0, dotpos - start) =~= s@.subrange(start as int, dotpos as int));
            }
            return None;
        },
    };
    proof {
        assert(b.subrange(0, dotpos - start) =~= s@.subrange(start as int, dotpos as int));
        lemma_dec_val_bound(s@.subrange(start as int, dotpos as int));
        crate::text::lemma_pow10_mono(s@.subrange(start as int, dotpos as int).len() as nat, 14);
        lemma_pow10_small();
    }
    let frac: u64 = if dotpos < n {
        if n - dotpos - 1 > 2 {
            proof {
                assert(b.subrange(dotpos - start + 1, b.len() as int).len() > 2);
            }
            return None;
        }
        if dotpos + 1 == n {
            0
        } else {
            match parse_uint(s, dotpos + 1, n) {
                Some(v) => {
                    proof {
                        assert(b.subrange(dotpos - start + 1, b.len() as int) =~= s@.subrange(
                            dotpos + 1,
                            n as int,
                        ));
                        lemma_dec_val_bound(s@.subrange(dotpos + 1, n as int));
                    }
                    if n - dotpos - 1 == 1 {
                        v * 10
                    } else {
                        v
                    }
                },
                None => {
                    proof {
                        assert(b.subrange(dotpos - start + 1, b.len() as int) =~= s@.subrange(
                            dotpos + 1,
                            n as int,
                        ));
                    }
                    return None;
                },
            }
        }
    } else {
        0
    };
    let mag: u64 = ip * 100 + frac;
    if neg {
        Some(-(mag as i64))
    } else {
        Some(mag as i64)
    }
}

/// Every character of the store form of an amount is a digit, a minus
/// sign or a dot.
pub proof fn lemma_amount_charset(c: int)
    requires
        valid_amount(c),
    ensures
        forall|i: int|
            0 <= i < amount_seq(c).len() ==> (is_digit(#[trigger] amount_seq(c)[i]) || amount_seq(
                c,
            )[i] == '-' || amount_seq(c)[i] == '.'),
        amount_seq(c).len() > 0,
{
    let m = if c < 0 {
        -c
    } else {
        c
    };
    lemma_dec_str_val((m / 100) as nat);
    lemma_digit_char_val((m % 100) / 10);
    lemma_digit_char_val((m % 100) % 10);
    let t = dec_str((m / 100) as nat) + seq!['.'] + pad2(m % 100);
    assert forall|i: int| 0 <= i < t.len() implies (is_digit(#[trigger] t[i]) || t[i] == '-'
        || t[i] == '.') by {
        let lu = dec_str((m / 100) as nat).len() as int;
        if i < lu {
            assert(t[i] == dec_str((m / 100) as nat)[i]);
        } else if i == lu {
        } else {
            assert(t[i] == pad2(m % 100)[i - lu - 1]);
        }
    }
    if c < 0 {
        assert(amount_seq(c) =~= seq!['-'] + t);
        assert forall|i: int| 0 <= i < amount_seq(c).len() implies (is_digit(
            #[trigger] amount_seq(c)[i],
        ) || amount_seq(c)[i] == '-' || amount_seq(c)[i] == '.') by {
            if i > 0 {
                assert(amount_seq(c)[i] == t[i - 1]);
            }
        }
    } else {
        assert(amount_seq(c) =~= t);
    }
}

/// The decomposition of a non-negative amount's store form at its dot.
proof fn lemma_amount_body(c: int)
    requires
        0 <= c < 10_000_000_000_000_000,
    ensures
        ({
            let t = dec_str((c / 100) as nat) + seq!['.'] + pad2(c % 100);
            let dot = find_char(t, '.');
            let ip = t.subrange(0, dot);
            let fp = t.subrange(dot + 1, t.len() as int);
            &&& 1 <= ip.len() <= 14
            &&& all_digits(ip)
            &&& fp.len() == 2
            &&& all_digits(fp)
            &&& dec_val(ip) * 100 + frac_scaled(fp) == c
            &&& t.len() > 0
            &&& is_digit(t[0])
            &&& dot == dec_str((c / 100) as nat).len()
            &&& t.len() == dot + 3
        }),
{
    let u = (c / 100) as nat;
    let f = c % 100;
    lemma_dec_str_val(u);
    lemma_pow10_small();
    lemma_dec_str_len(u, 14);
    lemma_digit_char_val(f / 10);
    lemma_digit_char_val(f % 10);
    let ds = dec_str(u);
    let lu = ds.len() as int;
    let t = ds + seq!['.'] + pad2(f);
    assert(t[lu] == '.');
    assert forall|j: int| 0 <= j < lu implies t[j] != '.' by {
        assert(t[j] == ds[j]);
        assert(is_digit(ds[j]));
    }
    lemma_find_char_at(t, '.', lu);
    let ip = t.subrange(0, lu);
    let fp = t.subrange(lu + 1, t.len() as int);
    assert(ip =~= ds);
    assert(fp =~= pad2(f));
    assert(fp.drop_last() =~= seq![crate::text::digit_char(f / 10)]);
    assert(fp.drop_last().drop_last() =~= Seq::<char>::empty());
    assert(dec_val(fp.drop_last()) == f / 10) by {
        assert(dec_val(Seq::<char>::empty()) == 0);
    }
    assert(dec_val(fp) == (f / 10) * 10 + f % 10);
    assert(frac_scaled(fp) == f);
    assert(dec_val(ip) * 100 + frac_scaled(fp) == c);
    assert(t[0] == ds[0]);
}

/// Writing an amount to its store form and parsing it back yields the
/// amount again.
pub proof fn lemma_amount_round_trip(c: int)
    requires
        valid_amount(c),
    ensures
        spec_parse_amount(amount_seq(c)) == Some(c),
{
    let m = if c < 0 {
        -c
    } else {
        c
    };
    lemma_amount_body(m);
    let t = dec_str((m / 100) as nat) + seq!['.'] + pad2(m % 100);
    let s = amount_seq(c);
    let dot = find_char(t, '.');
    let ip = t.subrange(0, dot);
    let fp = t.subrange(dot + 1, t.len() as int);
    if c < 0 {
        assert(s =~= seq!['-'] + t);
        assert(s[0] == '-');
        assert(s.skip(1) =~= t);
        assert(s.skip(1) == t);
        assert(dot < t.len());
        assert(1 <= ip.len() <= 14 && all_digits(ip) && fp.len() <= 2 && all_digits(fp));
        assert(dec_val(ip) * 100 + frac_scaled(fp) == m);
        assert(spec_parse_amount(s) == Some(-(dec_val(ip) * 100 + frac_scaled(fp))));
        assert(spec_parse_amount(s) == Some(c));
    } else {
        assert(s =~= t);
        assert(s == t);
        assert(is_digit(s[0]));
        assert(s[0] != '-');
        assert(dot < t.len());
        assert(1 <= ip.len() <= 14 && all_digits(ip) && fp.len() <= 2 && all_digits(fp));
        assert(dec_val(ip) * 100 + frac_scaled(fp) == m);
        assert(spec_parse_amount(s) == Some(dec_val(ip) * 100 + frac_scaled(fp)));
        assert(spec_parse_amount(s) == Some(c));
    }
}

} // verus!
