//! The date header of the rendered forum block.
//!
//! The header reads "Month Day(suffix), Year"; the month name is fixed-locale
//! English and the suffix follows the English ordinal rules.

use chrono::Datelike;
use vstd::prelude::*;
use crate::text::{chars_to_string, str_to_chars, no_nl, lemma_no_nl_concat};

verus! {

broadcast use vstd::string::group_string_axioms;

/// Relies on chrono's `Utc::now` and `Datelike`: the current UTC date as
/// (year, month, day); `month` ranges over 1..=12 and `day` over 1..=31.
#[verifier::external_body]
pub fn today_utc() -> (r: (i32, u32, u32))
    ensures
        1 <= r.1 <= 12,
        1 <= r.2 <= 31,
{
    let now = chrono::Utc::now();
    (now.year(), now.month(), now.day())
}

/// The English name of month `m`.
pub open spec fn spec_month_name(m: u32) -> Seq<char> {
    if m == 1 {
        "January"@
    } else if m == 2 {
        "February"@
    } else if m == 3 {
        "March"@
    } else if m == 4 {
        "April"@
    } else if m == 5 {
        "May"@
    } else if m == 6 {
        "June"@
    } else if m == 7 {
        "July"@
    } else if m == 8 {
        "August"@
    } else if m == 9 {
        "September"@
    } else if m == 10 {
        "October"@
    } else if m == 11 {
        "November"@
    } else {
        "December"@
    }
}

/// The English ordinal suffix of day `d`: 1, 21 and 31 take "st", 2 and 22
/// take "nd", 3 and 23 take "rd", and every other day takes "th".
pub open spec fn spec_suffix(d: u32) -> Seq<char> {
    if d == 1 || d == 21 || d == 31 {
        "st"@
    } else if d == 2 || d == 22 {
        "nd"@
    } else if d == 3 || d == 23 {
        "rd"@
    } else {
        "th"@
    }
}

/// The decimal digit character for `d`.
pub open spec fn digit_char(d: int) -> char {
    if d == 0 {
        '0'
    } else if d == 1 {
        '1'
    } else if d == 2 {
        '2'
    } else if d == 3 {
        '3'
    } else if d == 4 {
        '4'
    } else if d == 5 {
        '5'
    } else if d == 6 {
        '6'
    } else if d == 7 {
        '7'
    } else if d == 8 {
        '8'
    } else {
        '9'
    }
}

/// The decimal digits of the non-negative number `n`, most significant
/// first.
pub open spec fn dec_digits(n: int) -> Seq<char>
    decreases n,
{
    if n < 10 {
        seq![digit_char(n)]
    } else {
        dec_digits(n / 10).push(digit_char(n % 10))
    }
}

/// The decimal rendering of `y`, with a leading minus sign when negative.
pub open spec fn spec_int_chars(y: int) -> Seq<char> {
    if y < 0 {
        seq!['-'] + dec_digits(-y)
    } else {
        dec_digits(y)
    }
}

/// The date header: "Month Day(suffix), Year".
pub open spec fn spec_header(y: int, m: u32, d: u32) -> Seq<char> {
    spec_month_name(m) + seq![' '] + dec_digits(d as int) + spec_suffix(d) + ", "@
        + spec_int_chars(y)
}

/// The English name of month `m`.
pub fn month_name(m: u32) -> (r: String)
    requires
        1 <= m <= 12,
    ensures
        r@ == spec_month_name(m),
{
    let s: &str = if m == 1 {
        "January"
    } else if m == 2 {
        "February"
    } else if m == 3 {
        "March"
    } else if m == 4 {
        "April"
    } else if m == 5 {
        "May"
    } else if m == 6 {
        "June"
    } else if m == 7 {
        "July"
    } else if m == 8 {
        "August"
    } else if m == 9 {
        "September"
    } else if m == 10 {
        "October"
    } else if m == 11 {
        "November"
    } else {
        "December"
    };
    chars_to_string(&str_to_chars(s))
}

/// The English ordinal suffix of day `d`.
pub fn ordinal_suffix(d: u32) -> (r: String)
    ensures
        r@ == spec_suffix(d),
{
    let s: &str = if d == 1 || d == 21 || d == 31 {
        "st"
    } else if d == 2 || d == 22 {
        "nd"
    } else if d == 3 || d == 23 {
        "rd"
    } else {
        "th"
    };
    chars_to_string(&str_to_chars(s))
}

/// The decimal digits of `n`, agreeing with [`dec_digits`].
pub fn u32_digits(n: u32) -> (r: Vec<char>)
    ensures
        r@ == dec_digits(n as int),
    decreases n,
{
    let d: u32 = n % 10;
    let c: char = if d == 0 {
        '0'
    } else if d == 1 {
        '1'
    } else if d == 2 {
        '2'
    } else if d == 3 {
        '3'
    } else if d == 4 {
        '4'
    } else if d == 5 {
        '5'
    } else if d == 6 {
        '6'
    } else if d == 7 {
        '7'
    } else if d == 8 {
        '8'
    } else {
        '9'
    };
    if n < 10 {
        let mut r: Vec<char> = Vec::new();
        r.push(c);
        proof {
            assert(r@ =~= seq![digit_char(n as int)]);
        }
        r
    } else {
        let mut r = u32_digits(n / 10);
        r.push(c);
        r
    }
}

/// The decimal rendering of `y`, agreeing with [`spec_int_chars`].
pub fn int_chars(y: i32) -> (r: Vec<char>)
    ensures
        r@ == spec_int_chars(y as int),
{
    if y >= 0 {
        u32_digits(y as u32)
    } else {
        let m: u32 = (-(y as i64)) as u32;
        let mut r: Vec<char> = Vec::new();
        r.push('-');
        let ds = u32_digits(m);
        proof {
            assert(m as int == -(y as int));
        }
        crate::text::append_chars(&mut r, &ds);
        proof {
            assert(r@ =~= seq!['-'] + dec_digits(-(y as int)));
        }
        r
    }
}

/// Digit texts never hold a line break.
pub proof fn lemma_dec_digits_no_nl(n: int)
    ensures
        no_nl(dec_digits(n)),
    decreases n,
{
    if n < 10 {
    } else {
        lemma_dec_digits_no_nl(n / 10);
        let s = dec_digits(n / 10);
        let p = s.push(digit_char(n % 10));
        assert forall|i: int| 0 <= i < p.len() implies p[i] != '\n' by {
            if i < s.len() {
                assert(p[i] == s[i]);
            }
        }
    }
}

/// The date header is one single line and cannot be mistaken for a block
/// separator.
pub proof fn lemma_header_clean(y: int, m: u32, d: u32)
    ensures
        no_nl(spec_header(y, m, d)),
        spec_header(y, m, d).len() > 0,
        spec_header(y, m, d)[0] != '-',
{
    reveal_strlit("January");
    reveal_strlit("February");
    reveal_strlit("March");
    reveal_strlit("April");
    reveal_strlit("May");
    reveal_strlit("June");
    reveal_strlit("July");
    reveal_strlit("August");
    reveal_strlit("September");
    reveal_strlit("October");
    reveal_strlit("November");
    reveal_strlit("December");
    reveal_strlit("st");
    reveal_strlit("nd");
    reveal_strlit("rd");
    reveal_strlit("th");
    reveal_strlit(", ");
    let mn = spec_month_name(m);
    assert(no_nl(mn) && mn.len() > 0 && mn[0] != '-');
    lemma_dec_digits_no_nl(d as int);
    assert(no_nl(spec_suffix(d)));
    assert(no_nl(", "@));
    assert(no_nl(spec_int_chars(y))) by {
        if y < 0 {
            lemma_dec_digits_no_nl(-y);
            lemma_no_nl_concat(seq!['-'], dec_digits(-y));
        } else {
            lemma_dec_digits_no_nl(y);
        }
    }
    lemma_no_nl_concat(mn, seq![' ']);
    lemma_no_nl_concat(mn + seq![' '], dec_digits(d as int));
    lemma_no_nl_concat(mn + seq![' '] + dec_digits(d as int), spec_suffix(d));
    lemma_no_nl_concat(mn + seq![' '] + dec_digits(d as int) + spec_suffix(d), ", "@);
    lemma_no_nl_concat(
        mn + seq![' '] + dec_digits(d as int) + spec_suffix(d) + ", "@,
        spec_int_chars(y),
    );
    assert(spec_header(y, m, d)[0] == mn[0]);
}

/// The date header characters, agreeing with [`spec_header`].
pub fn header_chars(y: i32, m: u32, d: u32) -> (r: Vec<char>)
    requires
        1 <= m <= 12,
    ensures
        r@ == spec_header(y as int, m, d),
{
    let mn = month_name(m);
    let mut r = str_to_chars(mn.as_str());
    let mut sp: Vec<char> = Vec::new();
    sp.push(' ');
    proof {
        assert(sp@ =~= seq![' ']);
    }
    crate::text::append_chars(&mut r, &sp);
    let day = u32_digits(d);
    crate::text::append_chars(&mut r, &day);
    let suf = ordinal_suffix(d);
    let sufc = str_to_chars(suf.as_str());
    crate::text::append_chars(&mut r, &sufc);
    let comma = str_to_chars(", ");
    crate::text::append_chars(&mut r, &comma);
    let yc = int_chars(y);
    crate::text::append_chars(&mut r, &yc);
    r
}

} // verus!
