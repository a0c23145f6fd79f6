//! The day-scoped aggregate: one summary line per game, kept sorted by game
//! name, rendered as a date-headed forum block.

use vstd::prelude::*;
use crate::games::{classify, spec_classify, lemma_classify_clean};
use crate::text::{
    line_clean, no_nl, str_to_chars, chars_to_string, eq_chars, append_chars, split_nl, join_nl,
    lemma_split_concat, lemma_split_single, lemma_split_join,
};
use crate::dates::{spec_header, header_chars, today_utc, lemma_header_clean};

verus! {

broadcast use {crate::text::lemma_deep_view_chars, vstd::string::group_string_axioms};

/// Strict lexicographic order on character sequences by code point: the
/// order in which `str` comparison sorts game names.
pub open spec fn lex_lt(a: Seq<char>, b: Seq<char>) -> bool
    decreases a.len(),
{
    if b.len() == 0 {
        false
    } else if a.len() == 0 {
        true
    } else if (a[0] as u32) < (b[0] as u32) {
        true
    } else if a[0] == b[0] {
        lex_lt(a.drop_first(), b.drop_first())
    } else {
        false
    }
}

/// The order is irreflexive.
pub proof fn lemma_lex_irrefl(a: Seq<char>)
    ensures
        !lex_lt(a, a),
    decreases a.len(),
{
    if a.len() > 0 {
        lemma_lex_irrefl(a.drop_first());
    }
}

/// Any two texts are ordered or equal.
pub proof fn lemma_lex_trichotomy(a: Seq<char>, b: Seq<char>)
    ensures
        lex_lt(a, b) || lex_lt(b, a) || a == b,
    decreases a.len(),
{
    if a.len() == 0 || b.len() == 0 {
        if a.len() == b.len() {
            assert(a =~= b);
        }
    } else if (a[0] as u32) < (b[0] as u32) {
    } else if (b[0] as u32) < (a[0] as u32) {
    } else {
        assert(a[0] as u32 == b[0] as u32);
        vstd::utf8::char_u32_cast(a[0], a[0] as u32);
        vstd::utf8::char_u32_cast(b[0], b[0] as u32);
        assert(a[0] == b[0]);
        lemma_lex_trichotomy(a.drop_first(), b.drop_first());
        if a.drop_first() == b.drop_first() {
            assert(a.drop_first().len() == a.len() - 1);
            assert(b.drop_first().len() == b.len() - 1);
            assert(a.len() == b.len());
            assert forall|i: int| 0 <= i < a.len() implies a[i] == b[i] by {
                if i > 0 {
                    assert(a.drop_first()[i - 1] == b.drop_first()[i - 1]);
                }
            }
            assert(a =~= b);
        }
    }
}

/// The order is transitive.
pub proof fn lemma_lex_trans(a: Seq<char>, b: Seq<char>, c: Seq<char>)
    requires
        lex_lt(a, b),
        lex_lt(b, c),
    ensures
        lex_lt(a, c),
    decreases a.len(),
{
    if c.len() == 0 || b.len() == 0 {
    } else if a.len() == 0 {
    } else {
        if a[0] == b[0] && b[0] == c[0] {
            lemma_lex_trans(a.drop_first(), b.drop_first(), c.drop_first());
        }
    }
}

/// Compares two character vectors, agreeing with [`lex_lt`].
pub fn lex_lt_chars(a: &Vec<char>, b: &Vec<char>) -> (r: bool)
    ensures
        r == lex_lt(a@, b@),
{
    let mut i: usize = 0;
    proof {
        assert(a@.skip(0) =~= a@);
        assert(b@.skip(0) =~= b@);
    }
    loop
        invariant
            i <= a@.len(),
            i <= b@.len(),
            lex_lt(a@, b@) == lex_lt(a@.skip(i as int), b@.skip(i as int)),
        decreases a@.len() - i,
    {
        if i >= b.len() {
            proof {
                assert(b@.skip(i as int).len() == 0);
            }
            return false;
        }
        if i >= a.len() {
            proof {
                assert(a@.skip(i as int).len() == 0);
            }
            return true;
        }
        let ca = a[i];
        let cb = b[i];
        proof {
            assert(a@.skip(i as int)[0] == a@[i as int]);
            assert(b@.skip(i as int)[0] == b@[i as int]);
        }
        if (ca as u32) < (cb as u32) {
            return true;
        }
        if ca != cb {
            return false;
        }
        proof {
            assert(a@.skip(i as int).drop_first() =~= a@.skip(i as int + 1));
            assert(b@.skip(i as int).drop_first() =~= b@.skip(i as int + 1));
        }
        i += 1;
    }
}

/// One collected entry: a game name and its latest summary line.
struct Entry {
    name: Vec<char>,
    line: Vec<char>,
}

/// The entries are strictly ascending by game name, so names are unique.
pub open spec fn entries_sorted(s: Seq<(Seq<char>, Seq<char>)>) -> bool {
    forall|i: int, j: int|
        0 <= i < j < s.len() ==> lex_lt((#[trigger] s[i]).0, (#[trigger] s[j]).0)
}

/// Every collected summary is a clean single line.
pub open spec fn entries_clean(s: Seq<(Seq<char>, Seq<char>)>) -> bool {
    forall|i: int| 0 <= i < s.len() ==> line_clean((#[trigger] s[i]).1)
}

/// `s` with `(n, l)` upserted: an entry named `n` is overwritten in place,
/// and a new name enters at its sorted position.
pub open spec fn spec_upsert(
    s: Seq<(Seq<char>, Seq<char>)>,
    n: Seq<char>,
    l: Seq<char>,
) -> Seq<(Seq<char>, Seq<char>)>
    decreases s.len(),
{
    if s.len() == 0 {
        seq![(n, l)]
    } else if lex_lt(n, s[0].0) {
        seq![(n, l)] + s
    } else if s[0].0 == n {
        seq![(n, l)] + s.drop_first()
    } else {
        seq![s[0]] + spec_upsert(s.drop_first(), n, l)
    }
}

/// The summary stored under name `n`, if any.
pub open spec fn spec_lookup(s: Seq<(Seq<char>, Seq<char>)>, n: Seq<char>) -> Option<Seq<char>>
    decreases s.len(),
{
    if s.len() == 0 {
        None
    } else if s[0].0 == n {
        Some(s[0].1)
    } else {
        spec_lookup(s.drop_first(), n)
    }
}

/// Every entry of an upsert is the upserted pair or one of the old entries.
proof fn lemma_upsert_elems(s: Seq<(Seq<char>, Seq<char>)>, n: Seq<char>, l: Seq<char>)
    ensures
        forall|k: int|
            0 <= k < spec_upsert(s, n, l).len() ==> (#[trigger] spec_upsert(s, n, l)[k] == (n, l)
                || s.contains(spec_upsert(s, n, l)[k])),
    decreases s.len(),
{
    let up = spec_upsert(s, n, l);
    if s.len() == 0 {
    } else if lex_lt(n, s[0].0) {
        assert forall|k: int| 0 <= k < up.len() implies (#[trigger] up[k] == (n, l) || s.contains(
            up[k],
        )) by {
            if k > 0 {
                assert(up[k] == s[k - 1]);
            }
        }
    } else if s[0].0 == n {
        assert forall|k: int| 0 <= k < up.len() implies (#[trigger] up[k] == (n, l) || s.contains(
            up[k],
        )) by {
            if k > 0 {
                assert(up[k] == s[k]);
            }
        }
    } else {
        lemma_upsert_elems(s.drop_first(), n, l);
        assert forall|k: int| 0 <= k < up.len() implies (#[trigger] up[k] == (n, l) || s.contains(
            up[k],
        )) by {
            if k == 0 {
                assert(up[0] == s[0]);
            } else {
                assert(up[k] == spec_upsert(s.drop_first(), n, l)[k - 1]);
                if spec_upsert(s.drop_first(), n, l)[k - 1] != (n, l) {
                    let j = choose|j: int|
                        0 <= j < s.drop_first().len() && s.drop_first()[j] == up[k];
                    assert(s[j + 1] == up[k]);
                }
            }
        }
    }
}

/// An upsert into a sorted, clean entry list is again sorted and clean, and
/// stores `l` under `n`.
pub proof fn lemma_upsert_wf(s: Seq<(Seq<char>, Seq<char>)>, n: Seq<char>, l: Seq<char>)
    requires
        entries_sorted(s),
    ensures
        entries_sorted(spec_upsert(s, n, l)),
        entries_clean(s) && line_clean(l) ==> entries_clean(spec_upsert(s, n, l)),
        spec_lookup(spec_upsert(s, n, l), n) == Some(l),
        forall|m: Seq<char>|
            m != n ==> #[trigger] spec_lookup(spec_upsert(s, n, l), m) == spec_lookup(s, m),
    decreases s.len(),
{
    let up = spec_upsert(s, n, l);
    lemma_lex_irrefl(n);
    if s.len() == 0 {
        assert forall|m: Seq<char>| m != n implies #[trigger] spec_lookup(up, m) == spec_lookup(
            s,
            m,
        ) by {
            assert(up.drop_first() =~= Seq::<(Seq<char>, Seq<char>)>::empty());
            assert(spec_lookup(up, m) == spec_lookup(up.drop_first(), m));
        }
    } else if lex_lt(n, s[0].0) {
        assert forall|i: int, j: int| 0 <= i < j < up.len() implies lex_lt(
            (#[trigger] up[i]).0,
            (#[trigger] up[j]).0,
        ) by {
            if i == 0 {
                assert(up[j] == s[j - 1]);
                if j == 1 {
                } else {
                    lemma_lex_trans(n, s[0].0, s[j - 1].0);
                }
            } else {
                assert(up[i] == s[i - 1] && up[j] == s[j - 1]);
            }
        }
        assert(up.drop_first() =~= s);
        assert forall|m: Seq<char>| m != n implies #[trigger] spec_lookup(up, m) == spec_lookup(
            s,
            m,
        ) by {
            assert(up[0] == (n, l));
            assert(spec_lookup(up, m) == spec_lookup(up.drop_first(), m));
        }
    } else if s[0].0 == n {
        assert forall|i: int, j: int| 0 <= i < j < up.len() implies lex_lt(
            (#[trigger] up[i]).0,
            (#[trigger] up[j]).0,
        ) by {
            if i == 0 {
                assert(up[j] == s[j]);
                assert(lex_lt(s[0].0, s[j].0));
            } else {
                assert(up[i] == s[i] && up[j] == s[j]);
            }
        }
        assert(up.drop_first() =~= s.drop_first());
        assert forall|m: Seq<char>| m != n implies #[trigger] spec_lookup(up, m) == spec_lookup(
            s,
            m,
        ) by {
            assert(up[0] == (n, l));
            assert(spec_lookup(up, m) == spec_lookup(up.drop_first(), m));
            assert(spec_lookup(s, m) == spec_lookup(s.drop_first(), m));
        }
    } else {
        lemma_lex_trichotomy(n, s[0].0);
        assert(lex_lt(s[0].0, n));
        lemma_upsert_wf(s.drop_first(), n, l);
        lemma_upsert_elems(s.drop_first(), n, l);
        let sub = spec_upsert(s.drop_first(), n, l);
        assert forall|i: int, j: int| 0 <= i < j < up.len() implies lex_lt(
            (#[trigger] up[i]).0,
            (#[trigger] up[j]).0,
        ) by {
            if i == 0 {
                assert(up[j] == sub[j - 1]);
                if sub[j - 1] == (n, l) {
                } else {
                    assert(s.drop_first().contains(sub[j - 1]));
                    let q = choose|q: int|
                        0 <= q < s.drop_first().len() && s.drop_first()[q] == sub[j - 1];
                    assert(s[q + 1] == sub[j - 1]);
                    assert(lex_lt(s[0].0, s[q + 1].0));
                }
            } else {
                assert(up[i] == sub[i - 1] && up[j] == sub[j - 1]);
            }
        }
        if entries_clean(s) && line_clean(l) {
            assert forall|i: int| 0 <= i < up.len() implies line_clean((#[trigger] up[i]).1) by {
                if i == 0 {
                    assert(up[0] == s[0]);
                } else {
                    assert(up[i] == sub[i - 1]);
                    assert(entries_clean(s.drop_first()));
                    assert(entries_clean(sub));
                }
            }
        }
        assert(up.drop_first() =~= sub);
        assert forall|m: Seq<char>| m != n implies #[trigger] spec_lookup(up, m) == spec_lookup(
            s,
            m,
        ) by {
            assert(up[0] == s[0]);
            if s[0].0 == m {
            } else {
                assert(spec_lookup(up, m) == spec_lookup(sub, m));
                assert(spec_lookup(sub, m) == spec_lookup(s.drop_first(), m));
                assert(spec_lookup(s, m) == spec_lookup(s.drop_first(), m));
            }
        }
    }
}

/// An upsert at the scan position the sorted order determines is an update
/// in place for a present name and a sorted insertion for a new one.
proof fn lemma_upsert_at(
    s: Seq<(Seq<char>, Seq<char>)>,
    n: Seq<char>,
    l: Seq<char>,
    i: int,
)
    requires
        entries_sorted(s),
        0 <= i <= s.len(),
        forall|j: int| 0 <= j < i ==> lex_lt((#[trigger] s[j]).0, n),
        i < s.len() ==> !lex_lt(s[i].0, n),
    ensures
        i < s.len() && s[i].0 == n ==> spec_upsert(s, n, l) == s.update(i, (n, l)),
        (i == s.len() || s[i].0 != n) ==> spec_upsert(s, n, l) == s.insert(i, (n, l)),
    decreases s.len(),
{
    lemma_lex_irrefl(n);
    if s.len() == 0 {
        assert(spec_upsert(s, n, l) =~= s.insert(0, (n, l)));
    } else if i == 0 {
        if s[0].0 == n {
            assert(spec_upsert(s, n, l) =~= s.update(0, (n, l)));
        } else {
            lemma_lex_trichotomy(n, s[0].0);
            assert(lex_lt(n, s[0].0));
            assert(spec_upsert(s, n, l) =~= s.insert(0, (n, l)));
        }
    } else {
        assert(lex_lt(s[0].0, n));
        if lex_lt(n, s[0].0) {
            lemma_lex_trans(n, s[0].0, n);
            assert(false);
        }
        if s[0].0 == n {
            assert(false);
        }
        let d = s.drop_first();
        assert(entries_sorted(d)) by {
            assert forall|p: int, q: int| 0 <= p < q < d.len() implies lex_lt(
                (#[trigger] d[p]).0,
                (#[trigger] d[q]).0,
            ) by {
                assert(d[p] == s[p + 1] && d[q] == s[q + 1]);
            }
        }
        assert forall|j: int| 0 <= j < i - 1 implies lex_lt((#[trigger] d[j]).0, n) by {
            assert(d[j] == s[j + 1]);
        }
        assert(i - 1 < d.len() ==> !lex_lt(d[i - 1].0, n));
        lemma_upsert_at(d, n, l, i - 1);
        if i < s.len() && s[i].0 == n {
            assert(spec_upsert(s, n, l) =~= s.update(i, (n, l)));
        } else {
            assert(spec_upsert(s, n, l) =~= s.insert(i, (n, l)));
        }
    }
}

/// Upserting twice under one name keeps only the second summary: the first
/// upsert leaves no second entry behind, so the pair of insertions acts as
/// one.
pub proof fn lemma_upsert_twice(
    s: Seq<(Seq<char>, Seq<char>)>,
    n: Seq<char>,
    l1: Seq<char>,
    l2: Seq<char>,
)
    ensures
        spec_upsert(spec_upsert(s, n, l1), n, l2) == spec_upsert(s, n, l2),
    decreases s.len(),
{
    lemma_lex_irrefl(n);
    let u1 = spec_upsert(s, n, l1);
    if s.len() == 0 {
        assert(spec_upsert(u1, n, l2) =~= spec_upsert(s, n, l2));
    } else if lex_lt(n, s[0].0) {
        assert(u1.drop_first() =~= s);
        assert(spec_upsert(u1, n, l2) =~= spec_upsert(s, n, l2));
    } else if s[0].0 == n {
        assert(u1.drop_first() =~= s.drop_first());
        assert(spec_upsert(u1, n, l2) =~= spec_upsert(s, n, l2));
    } else {
        lemma_upsert_twice(s.drop_first(), n, l1, l2);
        assert(u1[0] == s[0]);
        assert(u1.drop_first() =~= spec_upsert(s.drop_first(), n, l1));
        assert(spec_upsert(u1, n, l2) =~= spec_upsert(s, n, l2));
    }
}

/// In a sorted entry list all names are distinct, so after an upsert there
/// is exactly one entry for the upserted game.
pub proof fn lemma_sorted_unique_names(s: Seq<(Seq<char>, Seq<char>)>)
    requires
        entries_sorted(s),
    ensures
        forall|i: int, j: int|
            0 <= i < s.len() && 0 <= j < s.len() && i != j ==> (#[trigger] s[i]).0 != (
            #[trigger] s[j]).0,
{
    assert forall|i: int, j: int|
        0 <= i < s.len() && 0 <= j < s.len() && i != j implies (#[trigger] s[i]).0 != (
    #[trigger] s[j]).0 by {
        if i < j {
            lemma_lex_irrefl(s[i].0);
        } else {
            lemma_lex_irrefl(s[i].0);
        }
    }
}

/// A block separator line.
pub open spec fn dashes() -> Seq<char> {
    "---"@
}

/// The text between the header, the summary block, and the end: a blank
/// line, a separator line, and another line break.
pub open spec fn sep_block() -> Seq<char> {
    "\n\n---\n\n"@
}

/// The collected summary lines, in entry order.
pub open spec fn lines_of(s: Seq<(Seq<char>, Seq<char>)>) -> Seq<Seq<char>> {
    s.map_values(|e: (Seq<char>, Seq<char>)| e.1)
}

/// The rendered forum block for entry list `s` on the given date.
pub open spec fn spec_render(
    s: Seq<(Seq<char>, Seq<char>)>,
    y: int,
    m: u32,
    d: u32,
) -> Seq<char> {
    spec_header(y, m, d) + sep_block() + join_nl(lines_of(s)) + sep_block()
}

/// Joining one more segment appends a line break and the segment.
proof fn lemma_join_push(ls: Seq<Seq<char>>, x: Seq<char>)
    ensures
        ls.len() == 0 ==> join_nl(ls.push(x)) == x,
        ls.len() > 0 ==> join_nl(ls.push(x)) == join_nl(ls) + seq!['\n'] + x,
    decreases ls.len(),
{
    let p = ls.push(x);
    if ls.len() == 0 {
        assert(p[0] == x);
    } else {
        assert(p.drop_first() =~= ls.drop_first().push(x));
        lemma_join_push(ls.drop_first(), x);
        if ls.len() == 1 {
            assert(join_nl(p) == p[0] + seq!['\n'] + join_nl(p.drop_first()));
            assert(p[0] == ls[0]);
        } else {
            assert(join_nl(p) == p[0] + seq!['\n'] + join_nl(p.drop_first()));
            assert(ls[0] + seq!['\n'] + (join_nl(ls.drop_first()) + seq!['\n'] + x) =~= (ls[0]
                + seq!['\n'] + join_nl(ls.drop_first())) + seq!['\n'] + x);
        }
    }
}

/// One segment filters to itself or to nothing.
proof fn lemma_filter_one(x: Seq<char>, pred: spec_fn(Seq<char>) -> bool)
    ensures
        pred(x) ==> seq![x].filter(pred) == seq![x],
        !pred(x) ==> seq![x].filter(pred) == Seq::<Seq<char>>::empty(),
{
    reveal(Seq::filter);
    assert(seq![x].drop_last() =~= Seq::<Seq<char>>::empty());
    assert(Seq::<Seq<char>>::empty().filter(pred) == Seq::<Seq<char>>::empty());
    if pred(x) {
        assert(seq![x].filter(pred) =~= seq![x]);
    }
}

/// The number of separator lines among the given segments.
pub open spec fn sep_count(segs: Seq<Seq<char>>) -> nat {
    segs.filter(|l: Seq<char>| l == dashes()).len()
}

/// Splitting text that ends with the separator block yields the text's own
/// segments followed by a blank line, a separator line, and two blank lines.
proof fn lemma_split_sep(x: Seq<char>)
    ensures
        split_nl(x + sep_block()) == split_nl(x) + seq![
            Seq::<char>::empty(),
            dashes(),
            Seq::<char>::empty(),
            Seq::<char>::empty(),
        ],
{
    reveal_strlit("---");
    reveal_strlit("\n\n---\n\n");
    let e = Seq::<char>::empty();
    let nl = seq!['\n'];
    let dd = dashes();
    assert(no_nl(dd));
    let t1 = nl + dd + nl + nl;
    let t2 = dd + nl + nl;
    let t3 = nl;
    assert(x + sep_block() =~= x + nl + t1);
    lemma_split_concat(x, t1);
    assert(t1 =~= e + nl + t2);
    lemma_split_concat(e, t2);
    lemma_split_single(e);
    assert(t2 =~= dd + nl + t3);
    lemma_split_concat(dd, t3);
    lemma_split_single(dd);
    assert(t3 =~= e + nl + e);
    lemma_split_concat(e, e);
    assert(split_nl(x + sep_block()) =~= split_nl(x) + seq![e, dd, e, e]);
}

/// Splitting a single-line header, the separator block, and a remainder
/// yields the header, a blank line, a separator line, a blank line, and the
/// remainder's segments.
proof fn lemma_split_head(h: Seq<char>, b: Seq<char>)
    requires
        no_nl(h),
    ensures
        split_nl(h + sep_block() + b) == seq![
            h,
            Seq::<char>::empty(),
            dashes(),
            Seq::<char>::empty(),
        ] + split_nl(b),
{
    reveal_strlit("---");
    reveal_strlit("\n\n---\n\n");
    let e = Seq::<char>::empty();
    let nl = seq!['\n'];
    let dd = dashes();
    assert(no_nl(dd));
    let t1 = nl + dd + nl + nl + b;
    let t2 = dd + nl + nl + b;
    let t3 = nl + b;
    assert(h + sep_block() + b =~= h + nl + t1);
    lemma_split_concat(h, t1);
    lemma_split_single(h);
    assert(t1 =~= e + nl + t2);
    lemma_split_concat(e, t2);
    lemma_split_single(e);
    assert(t2 =~= dd + nl + t3);
    lemma_split_concat(dd, t3);
    lemma_split_single(dd);
    assert(t3 =~= e + nl + b);
    lemma_split_concat(e, b);
    assert(split_nl(h + sep_block() + b) =~= seq![h, e, dd, e] + split_nl(b));
}

/// Among a header, middle segments that are no separator lines, and the two
/// separator blocks' segments, exactly two separator lines stand.
proof fn lemma_count_two(h: Seq<char>, bsegs: Seq<Seq<char>>, pred: spec_fn(Seq<char>) -> bool)
    requires
        pred(dashes()),
        !pred(h),
        !pred(Seq::<char>::empty()),
        forall|k: int| 0 <= k < bsegs.len() ==> !pred(#[trigger] bsegs[k]),
    ensures
        ({
            let e = Seq::<char>::empty();
            (seq![h, e, dashes(), e] + bsegs + seq![e, dashes(), e, e]).filter(pred).len() == 2
        }),
{
    let e = Seq::<char>::empty();
    let dd = dashes();
    let head4 = seq![h, e, dd, e];
    let tail4 = seq![e, dd, e, e];
    assert(head4 =~= seq![h] + seq![e] + seq![dd] + seq![e]);
    assert(tail4 =~= seq![e] + seq![dd] + seq![e] + seq![e]);
    lemma_filter_one(h, pred);
    lemma_filter_one(e, pred);
    lemma_filter_one(dd, pred);
    Seq::<Seq<char>>::filter_distributes_over_add(seq![h], seq![e], pred);
    Seq::<Seq<char>>::filter_distributes_over_add(seq![h] + seq![e], seq![dd], pred);
    Seq::<Seq<char>>::filter_distributes_over_add(seq![h] + seq![e] + seq![dd], seq![e], pred);
    assert(head4.filter(pred) =~= seq![dd]);
    Seq::<Seq<char>>::filter_distributes_over_add(seq![e], seq![dd], pred);
    Seq::<Seq<char>>::filter_distributes_over_add(seq![e] + seq![dd], seq![e], pred);
    Seq::<Seq<char>>::filter_distributes_over_add(seq![e] + seq![dd] + seq![e], seq![e], pred);
    assert(tail4.filter(pred) =~= seq![dd]);
    assert(bsegs.all(|x: Seq<char>| !pred(x)));
    bsegs.lemma_all_neg_filter_empty(pred);
    Seq::<Seq<char>>::filter_distributes_over_add(head4, bsegs, pred);
    Seq::<Seq<char>>::filter_distributes_over_add(head4 + bsegs, tail4, pred);
    assert((head4 + bsegs + tail4).filter(pred) =~= head4.filter(pred) + bsegs.filter(pred)
        + tail4.filter(pred));
}

/// The rendered block always holds exactly two separator lines, its last
/// line is blank, and it ends with a line break after that blank line.
pub proof fn lemma_render_shape(s: Seq<(Seq<char>, Seq<char>)>, y: int, m: u32, d: u32)
    requires
        entries_clean(s),
    ensures
        ({
            let r = spec_render(s, y, m, d);
            let segs = split_nl(r);
            &&& sep_count(segs) == 2
            &&& segs.len() > 0
            &&& segs.last() == Seq::<char>::empty()
            &&& r.len() >= 2
            &&& r[r.len() - 1] == '\n'
            &&& r[r.len() - 2] == '\n'
        }),
{
    reveal_strlit("---");
    reveal_strlit("\n\n---\n\n");
    let r = spec_render(s, y, m, d);
    let h = spec_header(y, m, d);
    let b = join_nl(lines_of(s));
    let dd = dashes();
    let e = Seq::<char>::empty();
    lemma_header_clean(y, m, d);
    // The segments of the middle block: the clean summary lines, or one
    // blank segment when nothing was collected.
    let lines = lines_of(s);
    let bsegs: Seq<Seq<char>> = if s.len() == 0 {
        seq![e]
    } else {
        lines
    };
    if s.len() == 0 {
        assert(b =~= e);
        lemma_split_single(e);
        assert(split_nl(b) == bsegs);
    } else {
        assert forall|k: int| 0 <= k < lines.len() implies no_nl(#[trigger] lines[k]) by {
            assert(lines[k] == s[k].1);
            assert(line_clean(s[k].1));
        }
        lemma_split_join(lines);
        assert(split_nl(b) == bsegs);
    }
    assert(r =~= (h + sep_block() + b) + sep_block());
    lemma_split_sep(h + sep_block() + b);
    lemma_split_head(h, b);
    let segs = split_nl(r);
    let head4 = seq![h, e, dd, e];
    let tail4 = seq![e, dd, e, e];
    assert(segs =~= head4 + bsegs + tail4);
    let pred = |l: Seq<char>| l == dashes();
    assert(dd.len() == 3 && dd[0] == '-');
    assert(!pred(h)) by {
        if h == dd {
            assert(h[0] == dd[0]);
        }
    }
    assert(!pred(e));
    assert forall|k: int| 0 <= k < bsegs.len() implies !pred(#[trigger] bsegs[k]) by {
        if s.len() == 0 {
            assert(bsegs[k] == e);
        } else {
            assert(bsegs[k] == s[k].1);
            assert(line_clean(s[k].1));
            if bsegs[k] == dd {
                assert(bsegs[k][0] == '-');
            }
        }
    }
    lemma_count_two(h, bsegs, pred);
    // The last segment is blank, and the text ends with two line breaks.
    assert(segs.last() == tail4[3]);
    assert(r[r.len() - 1] == sep_block()[6]);
    assert(r[r.len() - 2] == sep_block()[5]);
}

/// A well-formed aggregate yields its entries in strictly ascending
/// lexicographic order by game name, whatever order they were inserted in:
/// the order is an invariant of the state, not of the insertion history.
pub proof fn lemma_iterate_sorted(r: &DailyReducer)
    requires
        r.wf(),
    ensures
        forall|i: int, j: int|
            0 <= i < j < r.entries().len() ==> lex_lt(
                (#[trigger] r.entries()[i]).0,
                (#[trigger] r.entries()[j]).0,
            ),
{
}

/// The day-scoped aggregate of recognized summaries, at most one per game,
/// in ascending name order.
pub struct DailyReducer {
    items: Vec<Entry>,
}

impl DailyReducer {
    /// The mathematical contents: the (name, summary) pairs in order.
    pub closed spec fn entries(&self) -> Seq<(Seq<char>, Seq<char>)> {
        self.items@.map_values(|e: Entry| (e.name@, e.line@))
    }

    /// The aggregate's invariant: sorted strictly by name, every summary a
    /// clean single line.
    pub open spec fn wf(&self) -> bool {
        entries_sorted(self.entries()) && entries_clean(self.entries())
    }

    /// Creates an empty aggregate.
    pub fn new() -> (r: Self)
        ensures
            r.entries() == Seq::<(Seq<char>, Seq<char>)>::empty(),
            r.wf(),
    {
        let r = DailyReducer { items: Vec::new() };
        proof {
            assert(r.entries() =~= Seq::<(Seq<char>, Seq<char>)>::empty());
        }
        r
    }

    /// Upserts `(n, l)` at its sorted position.
    fn upsert(&mut self, n: Vec<char>, l: Vec<char>)
        requires
            old(self).wf(),
            line_clean(l@),
        ensures
            final(self).wf(),
            final(self).entries() == spec_upsert(old(self).entries(), n@, l@),
    {
        let ghost s0 = self.entries();
        let mut i: usize = 0;
        while i < self.items.len() && lex_lt_chars(&self.items[i].name, &n)
            invariant
                i <= self.items@.len(),
                *self == *old(self),
                forall|j: int| 0 <= j < i ==> lex_lt((#[trigger] s0[j]).0, n@),
                s0 == old(self).entries(),
            decreases self.items@.len() - i,
        {
            i += 1;
        }
        proof {
            lemma_upsert_at(s0, n@, l@, i as int);
            lemma_upsert_wf(s0, n@, l@);
        }
        if i < self.items.len() && eq_chars(&self.items[i].name, &n) {
            self.items.remove(i);
            self.items.insert(i, Entry { name: n, line: l });
            proof {
                assert(self.entries() =~= s0.update(i as int, (n@, l@)));
            }
        } else {
            self.items.insert(i, Entry { name: n, line: l });
            proof {
                assert(self.entries() =~= s0.insert(i as int, (n@, l@)));
            }
        }
    }

    /// Classifies `blurb` and stores the extracted summary under its game's
    /// name, overwriting an earlier one; reports whether classification
    /// succeeded, and leaves the aggregate untouched when it did not.
    pub fn insert(&mut self, blurb: &str) -> (r: bool)
        requires
            old(self).wf(),
        ensures
            final(self).wf(),
            ({
                let sc = spec_classify(blurb@);
                match sc {
                    Ok(pair) => r && final(self).entries() == spec_upsert(
                        old(self).entries(),
                        pair.0,
                        pair.1,
                    ),
                    Err(_) => !r && final(self).entries() == old(self).entries(),
                }
            }),
    {
        proof {
            lemma_classify_clean(blurb@);
        }
        match classify(blurb) {
            Err(_) => false,
            Ok((name, line)) => {
                let n = str_to_chars(name.as_str());
                let l = str_to_chars(line.as_str());
                self.upsert(n, l);
                true
            },
        }
    }

    /// Removes the entry at `index` in the sorted order; out-of-bounds
    /// indices are ignored.
    pub fn remove(&mut self, index: usize)
        requires
            old(self).wf(),
        ensures
            final(self).wf(),
            index < old(self).entries().len() ==> final(self).entries() == old(
                self,
            ).entries().remove(index as int),
            index >= old(self).entries().len() ==> final(self).entries() == old(self).entries(),
    {
        let ghost s0 = self.entries();
        if index < self.items.len() {
            self.items.remove(index);
            proof {
                assert(self.entries() =~= s0.remove(index as int));
                assert forall|i: int, j: int|
                    0 <= i < j < self.entries().len() implies lex_lt(
                    (#[trigger] self.entries()[i]).0,
                    (#[trigger] self.entries()[j]).0,
                ) by {
                    let p = if i < index { i } else { i + 1 };
                    let q = if j < index { j } else { j + 1 };
                    assert(self.entries()[i] == s0[p] && self.entries()[j] == s0[q]);
                }
                assert forall|i: int| 0 <= i < self.entries().len() implies line_clean(
                    (#[trigger] self.entries()[i]).1,
                ) by {
                    let p = if i < index { i } else { i + 1 };
                    assert(self.entries()[i] == s0[p]);
                }
            }
        }
    }

    /// The collected (name, summary) pairs, in ascending name order.
    pub fn iter(&self) -> (r: Vec<(String, String)>)
        ensures
            r@.len() == self.entries().len(),
            forall|i: int|
                0 <= i < r@.len() ==> (#[trigger] r@[i]).0@ == self.entries()[i].0 && r@[i].1@
                    == self.entries()[i].1,
    {
        let mut r: Vec<(String, String)> = Vec::new();
        let mut i: usize = 0;
        while i < self.items.len()
            invariant
                i <= self.items@.len(),
                r@.len() == i,
                forall|j: int|
                    0 <= j < i ==> (#[trigger] r@[j]).0@ == self.entries()[j].0 && r@[j].1@
                        == self.entries()[j].1,
            decreases self.items@.len() - i,
        {
            let name = chars_to_string(&self.items[i].name);
            let line = chars_to_string(&self.items[i].line);
            r.push((name, line));
            i += 1;
        }
        r
    }

    /// The collected summary lines joined by single line breaks, agreeing
    /// with [`join_nl`].
    fn block_chars(&self) -> (r: Vec<char>)
        ensures
            r@ == join_nl(lines_of(self.entries())),
    {
        let ghost lines = lines_of(self.entries());
        let mut r: Vec<char> = Vec::new();
        let mut i: usize = 0;
        proof {
            assert(lines.take(0) =~= Seq::<Seq<char>>::empty());
        }
        while i < self.items.len()
            invariant
                i <= self.items@.len(),
                lines == lines_of(self.entries()),
                lines.len() == self.items@.len(),
                r@ == join_nl(lines.take(i as int)),
            decreases self.items@.len() - i,
        {
            proof {
                lemma_join_push(lines.take(i as int), lines[i as int]);
                assert(lines.take(i as int).push(lines[i as int]) =~= lines.take(i as int + 1));
                assert(lines[i as int] == self.items@[i as int].line@);
            }
            if i > 0 {
                r.push('\n');
                proof {
                    assert(r@ =~= join_nl(lines.take(i as int)) + seq!['\n']);
                }
            }
            append_chars(&mut r, &self.items[i].line);
            proof {
                if i > 0 {
                    assert(r@ =~= join_nl(lines.take(i as int)) + seq!['\n'] + lines[i as int]);
                }
            }
            i += 1;
        }
        proof {
            assert(lines.take(lines.len() as int) =~= lines);
        }
        r
    }

    /// Renders the whole aggregate as the forum block for the given date:
    /// the date header, then the collected summary lines in name order
    /// between two separator lines, ending in a blank line.
    pub fn render_for_date(&self, year: i32, month: u32, day: u32) -> (r: String)
        requires
            1 <= month <= 12,
        ensures
            r@ == spec_render(self.entries(), year as int, month, day),
    {
        let mut v = header_chars(year, month, day);
        let sep = str_to_chars("\n\n---\n\n");
        append_chars(&mut v, &sep);
        let block = self.block_chars();
        append_chars(&mut v, &block);
        append_chars(&mut v, &sep);
        proof {
            assert(v@ =~= spec_render(self.entries(), year as int, month, day));
        }
        chars_to_string(&v)
    }

    /// Renders the whole aggregate as the forum block for the current UTC
    /// date.
    pub fn to_forum_block(&self) -> (r: String)
        ensures
            exists|y: int, m: u32, d: u32|
                1 <= m <= 12 && 1 <= d <= 31 && r@ == spec_render(self.entries(), y, m, d),
    {
        let (y, m, d) = today_utc();
        let r = self.render_for_date(y, m, d);
        proof {
            assert(1 <= m <= 12 && 1 <= d <= 31 && r@ == spec_render(
                self.entries(),
                y as int,
                m,
                d,
            ));
        }
        r
    }

    /// The summary stored for `name`, if any.
    pub fn lookup(&self, name: &str) -> (r: Option<String>)
        ensures
            ({
                let o = spec_lookup(self.entries(), name@);
                match r {
                    Some(line) => o is Some && line@ == o->0,
                    None => o is None,
                }
            }),
    {
        let n = str_to_chars(name);
        let mut i: usize = 0;
        proof {
            assert(self.entries().skip(0) =~= self.entries());
        }
        while i < self.items.len()
            invariant
                i <= self.items@.len(),
                n@ == name@,
                spec_lookup(self.entries(), name@) == spec_lookup(
                    self.entries().skip(i as int),
                    name@,
                ),
            decreases self.items@.len() - i,
        {
            proof {
                assert(self.entries().skip(i as int)[0] == self.entries()[i as int]);
                assert(self.entries().skip(i as int).drop_first() =~= self.entries().skip(
                    i as int + 1,
                ));
            }
            if eq_chars(&self.items[i].name, &n) {
                return Some(chars_to_string(&self.items[i].line));
            }
            i += 1;
        }
        proof {
            assert(self.entries().skip(self.items@.len() as int).len() == 0);
        }
        None
    }
}

} // verus!
