//! Character-sequence utilities shared by all blurb processors.
//!
//! All parsing in this crate works on `Vec<char>` values whose mathematical
//! model is `Seq<char>`; conversion from `&str` happens once at the public
//! boundary.

use vstd::prelude::*;
use vstd::std_specs::iter::IteratorSpec;

verus! {

broadcast use vstd::string::group_string_axioms;

/// The Unicode `White_Space` characters, the set `str::trim` strips.
pub open spec fn is_space(c: char) -> bool {
    c == ' ' || c == '\u{9}' || c == '\u{a}' || c == '\u{b}' || c == '\u{c}' || c == '\u{d}'
        || c == '\u{85}' || c == '\u{a0}' || c == '\u{1680}' || c == '\u{2000}' || c == '\u{2001}'
        || c == '\u{2002}' || c == '\u{2003}' || c == '\u{2004}' || c == '\u{2005}'
        || c == '\u{2006}' || c == '\u{2007}' || c == '\u{2008}' || c == '\u{2009}'
        || c == '\u{200a}' || c == '\u{2028}' || c == '\u{2029}' || c == '\u{202f}'
        || c == '\u{205f}' || c == '\u{3000}'
}

/// Index of the first occurrence of `c` in `s`, or `-1` when absent.
pub open spec fn find_first(s: Seq<char>, c: char) -> int
    decreases s.len(),
{
    if s.len() == 0 {
        -1
    } else if s[0] == c {
        0
    } else {
        let r = find_first(s.drop_first(), c);
        if r == -1 {
            -1
        } else {
            r + 1
        }
    }
}

/// Index of the last occurrence of `c` in `s`, or `-1` when absent.
pub open spec fn find_last(s: Seq<char>, c: char) -> int
    decreases s.len(),
{
    if s.len() == 0 {
        -1
    } else if s.last() == c {
        s.len() - 1
    } else {
        find_last(s.drop_last(), c)
    }
}

/// Index of the first occurrence of `p` as a contiguous part of `s`, or `-1`.
pub open spec fn find_sub(s: Seq<char>, p: Seq<char>) -> int
    decreases s.len(),
{
    if p.is_prefix_of(s) {
        0
    } else if s.len() == 0 {
        -1
    } else {
        let r = find_sub(s.drop_first(), p);
        if r == -1 {
            -1
        } else {
            r + 1
        }
    }
}

/// `s` split at every `'\n'`; the separators are consumed and every segment
/// is kept, including a final empty one.
pub open spec fn split_nl(s: Seq<char>) -> Seq<Seq<char>>
    decreases s.len(),
{
    let i = find_first(s, '\n');
    if 0 <= i < s.len() {
        seq![s.subrange(0, i)] + split_nl(s.subrange(i + 1, s.len() as int))
    } else {
        seq![s]
    }
}

/// One segment of `split_nl` as `str::lines` reports it: a trailing `'\r'`
/// is stripped.
pub open spec fn strip_cr(l: Seq<char>) -> Seq<char> {
    if l.len() > 0 && l.last() == '\r' {
        l.drop_last()
    } else {
        l
    }
}

/// The lines of `s`, exactly as `str::lines` yields them: split on `'\n'`,
/// each line stripped of a trailing `'\r'`, and no empty line after a final
/// `'\n'`.
pub open spec fn spec_lines(s: Seq<char>) -> Seq<Seq<char>> {
    if s.len() == 0 {
        Seq::empty()
    } else if s.last() == '\n' {
        split_nl(s).drop_last().map_values(|l: Seq<char>| strip_cr(l))
    } else {
        split_nl(s).map_values(|l: Seq<char>| strip_cr(l))
    }
}

/// `s` without leading whitespace.
pub open spec fn trim_start(s: Seq<char>) -> Seq<char>
    decreases s.len(),
{
    if s.len() > 0 && is_space(s[0]) {
        trim_start(s.drop_first())
    } else {
        s
    }
}

/// `s` without trailing whitespace.
pub open spec fn trim_end(s: Seq<char>) -> Seq<char>
    decreases s.len(),
{
    if s.len() > 0 && is_space(s.last()) {
        trim_end(s.drop_last())
    } else {
        s
    }
}

/// `s` without leading and trailing whitespace, as `str::trim` returns it.
pub open spec fn spec_trim(s: Seq<char>) -> Seq<char> {
    trim_end(trim_start(s))
}

/// `s` without trailing copies of `c`, as `str::trim_end_matches` with a
/// `char` pattern returns it.
pub open spec fn trim_trailing(s: Seq<char>, c: char) -> Seq<char>
    decreases s.len(),
{
    if s.len() > 0 && s.last() == c {
        trim_trailing(s.drop_last(), c)
    } else {
        s
    }
}

/// Whether `s` is free of `'\n'`, so that it renders as a single line.
pub open spec fn no_nl(s: Seq<char>) -> bool {
    forall|i: int| 0 <= i < s.len() ==> s[i] != '\n'
}

/// Whether `l` can stand as one collected summary line: a single nonempty
/// line that cannot be mistaken for a block separator.
pub open spec fn line_clean(l: Seq<char>) -> bool {
    no_nl(l) && l.len() > 0 && l[0] != '-'
}

/// The segments of `ls` joined by single `'\n'` characters.
pub open spec fn join_nl(ls: Seq<Seq<char>>) -> Seq<char>
    decreases ls.len(),
{
    if ls.len() == 0 {
        Seq::empty()
    } else if ls.len() == 1 {
        ls[0]
    } else {
        ls[0] + seq!['\n'] + join_nl(ls.drop_first())
    }
}

/// `find_first` returns `-1` exactly when `c` is absent, and otherwise the
/// least index holding `c`.
pub proof fn lemma_find_first(s: Seq<char>, c: char)
    ensures
        -1 <= find_first(s, c) < s.len(),
        find_first(s, c) == -1 ==> forall|j: int| 0 <= j < s.len() ==> s[j] != c,
        find_first(s, c) >= 0 ==> s[find_first(s, c)] == c,
        find_first(s, c) >= 0 ==> forall|j: int| 0 <= j < find_first(s, c) ==> s[j] != c,
    decreases s.len(),
{
    if s.len() == 0 {
    } else if s[0] == c {
    } else {
        lemma_find_first(s.drop_first(), c);
        assert forall|j: int| 1 <= j < s.len() implies s[j] == s.drop_first()[j - 1] by {}
    }
}

/// `find_last` returns `-1` exactly when `c` is absent, and otherwise the
/// greatest index holding `c`.
pub proof fn lemma_find_last(s: Seq<char>, c: char)
    ensures
        -1 <= find_last(s, c) < s.len(),
        find_last(s, c) == -1 ==> forall|j: int| 0 <= j < s.len() ==> s[j] != c,
        find_last(s, c) >= 0 ==> s[find_last(s, c)] == c,
        find_last(s, c) >= 0 ==> forall|j: int| find_last(s, c) < j < s.len() ==> s[j] != c,
    decreases s.len(),
{
    if s.len() == 0 {
    } else if s.last() == c {
    } else {
        lemma_find_last(s.drop_last(), c);
        assert forall|j: int| 0 <= j < s.len() - 1 implies s[j] == s.drop_last()[j] by {}
    }
}

/// `find_sub` returns `-1` exactly when `p` occurs nowhere in `s`, and
/// otherwise the least index where `p` starts.
pub proof fn lemma_find_sub(s: Seq<char>, p: Seq<char>)
    ensures
        -1 <= find_sub(s, p) <= s.len(),
        find_sub(s, p) == -1 ==> forall|i: int|
            0 <= i <= s.len() ==> !p.is_prefix_of(#[trigger] s.skip(i)),
        find_sub(s, p) >= 0 ==> p.is_prefix_of(s.skip(find_sub(s, p))),
        find_sub(s, p) >= 0 ==> forall|i: int|
            0 <= i < find_sub(s, p) ==> !p.is_prefix_of(#[trigger] s.skip(i)),
    decreases s.len(),
{
    assert(s.skip(0) =~= s);
    if p.is_prefix_of(s) {
    } else if s.len() == 0 {
        assert forall|i: int| 0 <= i <= s.len() implies !p.is_prefix_of(#[trigger] s.skip(i)) by {
            assert(s.skip(i) =~= s);
        }
    } else {
        lemma_find_sub(s.drop_first(), p);
        assert forall|i: int| 1 <= i <= s.len() implies s.skip(i) =~= s.drop_first().skip(
            i - 1,
        ) by {}
        let r = find_sub(s.drop_first(), p);
        if r == -1 {
            assert forall|i: int| 0 <= i <= s.len() implies !p.is_prefix_of(
                #[trigger] s.skip(i),
            ) by {
                if i >= 1 {
                    assert(!p.is_prefix_of(s.drop_first().skip(i - 1)));
                }
            }
        } else {
            assert(s.skip(r + 1) =~= s.drop_first().skip(r));
            assert forall|i: int| 0 <= i < r + 1 implies !p.is_prefix_of(#[trigger] s.skip(i)) by {
                if i >= 1 {
                    assert(!p.is_prefix_of(s.drop_first().skip(i - 1)));
                }
            }
        }
    }
}

/// Relies on `String::push`: appends exactly the given character at the end.
#[verifier::external_body]
fn push_char(s: &mut String, c: char)
    ensures
        final(s)@ == old(s)@.push(c),
{
    s.push(c);
}

/// Converts a character vector into the `String` holding those characters.
pub fn chars_to_string(v: &Vec<char>) -> (r: String)
    ensures
        r@ == v@,
{
    let mut r = String::new();
    let mut i: usize = 0;
    while i < v.len()
        invariant
            i <= v@.len(),
            r@ == v@.subrange(0, i as int),
        decreases v@.len() - i,
    {
        push_char(&mut r, v[i]);
        i += 1;
        proof {
            assert(r@ =~= v@.subrange(0, i as int));
        }
    }
    proof {
        assert(v@.subrange(0, v@.len() as int) =~= v@);
    }
    r
}

/// Whether `c` is whitespace, agreeing with [`is_space`].
pub fn is_space_char(c: char) -> (r: bool)
    ensures
        r == is_space(c),
{
    c == ' ' || c == '\u{9}' || c == '\u{a}' || c == '\u{b}' || c == '\u{c}' || c == '\u{d}'
        || c == '\u{85}' || c == '\u{a0}' || c == '\u{1680}' || c == '\u{2000}' || c == '\u{2001}'
        || c == '\u{2002}' || c == '\u{2003}' || c == '\u{2004}' || c == '\u{2005}'
        || c == '\u{2006}' || c == '\u{2007}' || c == '\u{2008}' || c == '\u{2009}'
        || c == '\u{200a}' || c == '\u{2028}' || c == '\u{2029}' || c == '\u{202f}'
        || c == '\u{205f}' || c == '\u{3000}'
}

/// Copies the characters of `s` between `from` and `to`.
pub fn subrange_chars(s: &Vec<char>, from: usize, to: usize) -> (r: Vec<char>)
    requires
        from <= to <= s@.len(),
    ensures
        r@ == s@.subrange(from as int, to as int),
{
    let mut r: Vec<char> = Vec::new();
    let mut i: usize = from;
    while i < to
        invariant
            from <= i <= to <= s@.len(),
            r@ == s@.subrange(from as int, i as int),
        decreases to - i,
    {
        r.push(s[i]);
        i += 1;
        proof {
            assert(r@ =~= s@.subrange(from as int, i as int));
        }
    }
    r
}

/// Whether the characters of `p` stand in `s` starting at `at`.
pub fn matches_at(s: &Vec<char>, p: &Vec<char>, at: usize) -> (r: bool)
    requires
        at <= s@.len(),
    ensures
        r == p@.is_prefix_of(s@.skip(at as int)),
{
    if p.len() > s.len() - at {
        proof {
            assert(!p@.is_prefix_of(s@.skip(at as int)));
        }
        return false;
    }
    let n: usize = s.len();
    let mut i: usize = 0;
    let mut k: usize = at;
    while i < p.len()
        invariant
            i <= p@.len(),
            at + p@.len() <= s@.len(),
            s@.len() == n,
            k == at + i,
            forall|j: int| 0 <= j < i ==> p@[j] == s@[at + j],
        decreases p@.len() - i,
    {
        if s[k] != p[i] {
            proof {
                assert(s@.skip(at as int)[i as int] == s@[at + i]);
                assert(!p@.is_prefix_of(s@.skip(at as int)));
            }
            return false;
        }
        i += 1;
        k += 1;
    }
    proof {
        assert(p@ =~= s@.skip(at as int).subrange(0, p@.len() as int));
    }
    true
}

/// Whether `s` starts with the characters of `p`.
pub fn starts_with_chars(s: &Vec<char>, p: &Vec<char>) -> (r: bool)
    ensures
        r == p@.is_prefix_of(s@),
{
    proof {
        assert(s@.skip(0) =~= s@);
    }
    matches_at(s, p, 0)
}

/// Whether `a` and `b` hold the same characters.
pub fn eq_chars(a: &Vec<char>, b: &Vec<char>) -> (r: bool)
    ensures
        r == (a@ == b@),
{
    if a.len() != b.len() {
        return false;
    }
    let mut i: usize = 0;
    while i < a.len()
        invariant
            i <= a@.len(),
            a@.len() == b@.len(),
            forall|j: int| 0 <= j < i ==> a@[j] == b@[j],
        decreases a@.len() - i,
    {
        if a[i] != b[i] {
            return false;
        }
        i += 1;
    }
    proof {
        assert(a@ =~= b@);
    }
    true
}

/// Finds the first occurrence of `c` in `s`, agreeing with [`find_first`].
pub fn find_first_char(s: &Vec<char>, c: char) -> (r: Option<usize>)
    ensures
        ({
            let f = find_first(s@, c);
            if f == -1 {
                r is None
            } else {
                r == Some(f as usize)
            }
        }),
{
    let mut i: usize = 0;
    while i < s.len()
        invariant
            i <= s@.len(),
            forall|j: int| 0 <= j < i ==> s@[j] != c,
        decreases s@.len() - i,
    {
        if s[i] == c {
            proof {
                lemma_find_first(s@, c);
            }
            return Some(i);
        }
        i += 1;
    }
    proof {
        lemma_find_first(s@, c);
    }
    None
}

/// Finds the last occurrence of `c` in `s`, agreeing with [`find_last`].
pub fn find_last_char(s: &Vec<char>, c: char) -> (r: Option<usize>)
    ensures
        ({
            let f = find_last(s@, c);
            if f == -1 {
                r is None
            } else {
                r == Some(f as usize)
            }
        }),
{
    let mut b: usize = s.len();
    while b > 0
        invariant
            b <= s@.len(),
            forall|j: int| b <= j < s@.len() ==> s@[j] != c,
        decreases b,
    {
        if s[b - 1] == c {
            proof {
                lemma_find_last(s@, c);
            }
            return Some(b - 1);
        }
        b -= 1;
    }
    proof {
        lemma_find_last(s@, c);
    }
    None
}

/// Finds the first occurrence of `p` as a contiguous part of `s`, agreeing
/// with [`find_sub`].
pub fn find_sub_chars(s: &Vec<char>, p: &Vec<char>) -> (r: Option<usize>)
    ensures
        ({
            let f = find_sub(s@, p@);
            if f == -1 {
                r is None
            } else {
                r == Some(f as usize)
            }
        }),
{
    if p.len() > s.len() {
        proof {
            lemma_find_sub(s@, p@);
            assert forall|i: int| 0 <= i <= s@.len() implies !p@.is_prefix_of(
                #[trigger] s@.skip(i),
            ) by {}
        }
        return None;
    }
    let mut i: usize = 0;
    while i <= s.len() - p.len()
        invariant
            p@.len() <= s@.len(),
            i <= s@.len() - p@.len() + 1,
            forall|j: int| 0 <= j < i ==> !p@.is_prefix_of(#[trigger] s@.skip(j)),
        decreases s@.len() - p@.len() + 1 - i,
    {
        if matches_at(s, p, i) {
            proof {
                lemma_find_sub(s@, p@);
            }
            return Some(i);
        }
        i += 1;
    }
    proof {
        lemma_find_sub(s@, p@);
        assert forall|j: int| 0 <= j <= s@.len() implies !p@.is_prefix_of(
            #[trigger] s@.skip(j),
        ) by {}
    }
    None
}

/// Removes leading and trailing whitespace, agreeing with [`spec_trim`].
pub fn trim_chars(s: &Vec<char>) -> (r: Vec<char>)
    ensures
        r@ == spec_trim(s@),
{
    let mut a: usize = 0;
    while a < s.len() && is_space_char(s[a])
        invariant
            a <= s@.len(),
            forall|j: int| 0 <= j < a ==> is_space(s@[j]),
        decreases s@.len() - a,
    {
        a += 1;
    }
    let mut b: usize = s.len();
    while b > a && is_space_char(s[b - 1])
        invariant
            a <= b <= s@.len(),
            forall|j: int| b <= j < s@.len() ==> is_space(s@[j]),
        decreases b,
    {
        b -= 1;
    }
    proof {
        lemma_trim_start_at(s@, a as int);
        let t = s@.skip(a as int);
        lemma_trim_end_at(t, b - a);
        assert(t.take(b - a) =~= s@.subrange(a as int, b as int));
    }
    subrange_chars(s, a, b)
}

/// When `s[k]` is the first occurrence of `c`, `find_first` returns `k`.
pub proof fn lemma_find_first_at(s: Seq<char>, c: char, k: int)
    requires
        0 <= k < s.len(),
        s[k] == c,
        forall|j: int| 0 <= j < k ==> s[j] != c,
    ensures
        find_first(s, c) == k,
{
    lemma_find_first(s, c);
}

/// When `c` is absent from `s`, `find_first` returns `-1`.
pub proof fn lemma_find_first_absent(s: Seq<char>, c: char)
    requires
        forall|j: int| 0 <= j < s.len() ==> s[j] != c,
    ensures
        find_first(s, c) == -1,
{
    lemma_find_first(s, c);
}

/// A newline-free text is one single segment.
pub proof fn lemma_split_single(s: Seq<char>)
    requires
        no_nl(s),
    ensures
        split_nl(s) == seq![s],
{
    lemma_find_first_absent(s, '\n');
}

/// Splitting distributes over concatenation at a `'\n'`.
pub proof fn lemma_split_concat(a: Seq<char>, b: Seq<char>)
    ensures
        split_nl(a + seq!['\n'] + b) == split_nl(a) + split_nl(b),
    decreases a.len(),
{
    let s = a + seq!['\n'] + b;
    let i = find_first(a, '\n');
    lemma_find_first(a, '\n');
    if i == -1 {
        lemma_find_first_at(s, '\n', a.len() as int);
        assert(s.subrange(0, a.len() as int) =~= a);
        assert(s.subrange(a.len() as int + 1, s.len() as int) =~= b);
        assert(split_nl(s) == seq![a] + split_nl(b));
        lemma_split_single(a);
    } else {
        lemma_find_first_at(s, '\n', i);
        let a2 = a.subrange(i + 1, a.len() as int);
        assert(s.subrange(0, i) =~= a.subrange(0, i));
        assert(s.subrange(i + 1, s.len() as int) =~= a2 + seq!['\n'] + b);
        lemma_split_concat(a2, b);
        assert(split_nl(s) == seq![a.subrange(0, i)] + (split_nl(a2) + split_nl(b)));
        assert(split_nl(a) == seq![a.subrange(0, i)] + split_nl(a2));
        assert(seq![a.subrange(0, i)] + (split_nl(a2) + split_nl(b)) =~= (seq![a.subrange(0, i)]
            + split_nl(a2)) + split_nl(b));
    }
}

/// Splitting a join of newline-free segments gives the segments back.
pub proof fn lemma_split_join(ls: Seq<Seq<char>>)
    requires
        ls.len() > 0,
        forall|k: int| 0 <= k < ls.len() ==> no_nl(#[trigger] ls[k]),
    ensures
        split_nl(join_nl(ls)) == ls,
    decreases ls.len(),
{
    if ls.len() == 1 {
        lemma_split_single(ls[0]);
        assert(seq![ls[0]] =~= ls);
    } else {
        lemma_split_concat(ls[0], join_nl(ls.drop_first()));
        lemma_split_join(ls.drop_first());
        lemma_split_single(ls[0]);
        assert(split_nl(join_nl(ls)) =~= ls);
    }
}

/// Every segment of a split is newline-free.
pub proof fn lemma_split_segments(s: Seq<char>)
    ensures
        forall|k: int| 0 <= k < split_nl(s).len() ==> no_nl(#[trigger] split_nl(s)[k]),
    decreases s.len(),
{
    let i = find_first(s, '\n');
    lemma_find_first(s, '\n');
    if 0 <= i < s.len() {
        lemma_split_segments(s.subrange(i + 1, s.len() as int));
        assert forall|k: int| 0 <= k < split_nl(s).len() implies no_nl(
            #[trigger] split_nl(s)[k],
        ) by {
            if k == 0 {
                assert(split_nl(s)[0] == s.subrange(0, i));
            } else {
                assert(split_nl(s)[k] == split_nl(s.subrange(i + 1, s.len() as int))[k - 1]);
            }
        }
    }
}

/// Every reported line is newline-free.
pub proof fn lemma_lines_no_nl(s: Seq<char>)
    ensures
        forall|k: int| 0 <= k < spec_lines(s).len() ==> no_nl(#[trigger] spec_lines(s)[k]),
{
    lemma_split_segments(s);
    assert forall|k: int| 0 <= k < spec_lines(s).len() implies no_nl(
        #[trigger] spec_lines(s)[k],
    ) by {
        if s.len() > 0 {
            assert(spec_lines(s)[k] == strip_cr(split_nl(s)[k]));
            assert(no_nl(split_nl(s)[k]));
            assert forall|i: int| 0 <= i < spec_lines(s)[k].len() implies spec_lines(s)[k][i]
                != '\n' by {
                assert(spec_lines(s)[k][i] == split_nl(s)[k][i]);
            }
        }
    }
}

/// When the text neither is empty nor opens with a line break, its first
/// line opens with the same character.
pub proof fn lemma_lines_first(s: Seq<char>)
    requires
        s.len() > 0,
        s[0] != '\n',
        s[0] != '\r',
    ensures
        spec_lines(s).len() > 0,
        spec_lines(s)[0].len() > 0,
        spec_lines(s)[0][0] == s[0],
{
    let i = find_first(s, '\n');
    lemma_find_first(s, '\n');
    let seg0 = split_nl(s)[0];
    if 0 <= i < s.len() {
        assert(i > 0);
        assert(seg0 == s.subrange(0, i));
    } else {
        assert(seg0 == s);
    }
    assert(seg0.len() > 0 && seg0[0] == s[0]);
    if s.last() == '\n' {
        assert(0 <= i < s.len());
        lemma_split_nl_nonempty(s.subrange(i + 1, s.len() as int));
        assert(split_nl(s).len() >= 2);
        assert(spec_lines(s)[0] == strip_cr(seg0));
    } else {
        assert(spec_lines(s)[0] == strip_cr(seg0));
    }
    if seg0.len() == 1 && seg0.last() == '\r' {
        assert(false);
    }
}

/// Dropping characters from either end keeps a text newline-free.
pub proof fn lemma_no_nl_subrange(s: Seq<char>, from: int, to: int)
    requires
        no_nl(s),
        0 <= from <= to <= s.len(),
    ensures
        no_nl(s.subrange(from, to)),
{
    assert forall|i: int| 0 <= i < to - from implies s.subrange(from, to)[i] != '\n' by {
        assert(s.subrange(from, to)[i] == s[from + i]);
    }
}

/// Concatenation of newline-free texts is newline-free.
pub proof fn lemma_no_nl_concat(a: Seq<char>, b: Seq<char>)
    requires
        no_nl(a),
        no_nl(b),
    ensures
        no_nl(a + b),
{
    assert forall|i: int| 0 <= i < a.len() + b.len() implies (a + b)[i] != '\n' by {
        if i < a.len() {
            assert((a + b)[i] == a[i]);
        } else {
            assert((a + b)[i] == b[i - a.len()]);
        }
    }
}

/// Trimming trailing whitespace keeps a text newline-free.
pub proof fn lemma_trim_end_no_nl(s: Seq<char>)
    requires
        no_nl(s),
    ensures
        no_nl(trim_end(s)),
    decreases s.len(),
{
    if s.len() > 0 && is_space(s.last()) {
        assert forall|i: int| 0 <= i < s.len() - 1 implies s.drop_last()[i] != '\n' by {
            assert(s.drop_last()[i] == s[i]);
        }
        lemma_trim_end_no_nl(s.drop_last());
    }
}

/// Trimming trailing copies of one character keeps a text newline-free.
pub proof fn lemma_trim_trailing_no_nl(s: Seq<char>, c: char)
    requires
        no_nl(s),
    ensures
        no_nl(trim_trailing(s, c)),
    decreases s.len(),
{
    if s.len() > 0 && s.last() == c {
        assert forall|i: int| 0 <= i < s.len() - 1 implies s.drop_last()[i] != '\n' by {
            assert(s.drop_last()[i] == s[i]);
        }
        lemma_trim_trailing_no_nl(s.drop_last(), c);
    }
}

/// A character vector's deep view is its view.
pub broadcast proof fn lemma_deep_view_chars(v: &Vec<char>)
    ensures
        #[trigger] v.deep_view() == v@,
{
    assert(v.deep_view() =~= v@);
}

/// Removes trailing whitespace, agreeing with [`trim_end`].
pub fn trim_end_chars(s: &Vec<char>) -> (r: Vec<char>)
    ensures
        r@ == trim_end(s@),
{
    let mut b: usize = s.len();
    while b > 0 && is_space_char(s[b - 1])
        invariant
            b <= s@.len(),
            forall|j: int| b <= j < s@.len() ==> is_space(s@[j]),
        decreases b,
    {
        b -= 1;
    }
    proof {
        lemma_trim_end_at(s@, b as int);
    }
    subrange_chars(s, 0, b)
}

/// Removes trailing copies of `c`, agreeing with [`trim_trailing`].
pub fn trim_trailing_chars(s: &Vec<char>, c: char) -> (r: Vec<char>)
    ensures
        r@ == trim_trailing(s@, c),
{
    let mut b: usize = s.len();
    while b > 0 && s[b - 1] == c
        invariant
            b <= s@.len(),
            forall|j: int| b <= j < s@.len() ==> s@[j] == c,
        decreases b,
    {
        b -= 1;
    }
    proof {
        lemma_trim_trailing_at(s@, c, b as int);
    }
    subrange_chars(s, 0, b)
}

/// When the first `k` characters of `s` are whitespace and the `k`th is not,
/// trimming from the start drops exactly those `k`.
proof fn lemma_trim_start_at(s: Seq<char>, k: int)
    requires
        0 <= k <= s.len(),
        forall|j: int| 0 <= j < k ==> is_space(s[j]),
        k < s.len() ==> !is_space(s[k]),
    ensures
        trim_start(s) == s.skip(k),
    decreases k,
{
    if k == 0 {
        assert(s.skip(0) =~= s);
    } else {
        lemma_trim_start_at(s.drop_first(), k - 1);
        assert(s.drop_first().skip(k - 1) =~= s.skip(k));
    }
}

/// When the characters of `s` from `k` on are whitespace and the one before
/// `k` is not, trimming from the end keeps exactly the first `k`.
proof fn lemma_trim_end_at(s: Seq<char>, k: int)
    requires
        0 <= k <= s.len(),
        forall|j: int| k <= j < s.len() ==> is_space(s[j]),
        k > 0 ==> !is_space(s[k - 1]),
    ensures
        trim_end(s) == s.take(k),
    decreases s.len(),
{
    if k == s.len() {
        assert(s.take(k) =~= s);
        if s.len() > 0 && is_space(s.last()) {
            assert(false);
        }
    } else {
        lemma_trim_end_at(s.drop_last(), k);
        assert(s.drop_last().take(k) =~= s.take(k));
    }
}

/// The analogue of [`lemma_trim_end_at`] for trailing copies of one
/// character.
proof fn lemma_trim_trailing_at(s: Seq<char>, c: char, k: int)
    requires
        0 <= k <= s.len(),
        forall|j: int| k <= j < s.len() ==> s[j] == c,
        k > 0 ==> s[k - 1] != c,
    ensures
        trim_trailing(s, c) == s.take(k),
    decreases s.len(),
{
    if k == s.len() {
        assert(s.take(k) =~= s);
        if s.len() > 0 && s.last() == c {
            assert(false);
        }
    } else {
        lemma_trim_trailing_at(s.drop_last(), c, k);
        assert(s.drop_last().take(k) =~= s.take(k));
    }
}

/// Splits `s` at every `'\n'`, agreeing with [`split_nl`].
pub fn split_nl_chars(s: &Vec<char>) -> (r: Vec<Vec<char>>)
    ensures
        r.deep_view() == split_nl(s@),
{
    let mut out: Vec<Vec<char>> = Vec::new();
    let mut rest: Vec<char> = subrange_chars(s, 0, s.len());
    proof {
        assert(s@.subrange(0, s@.len() as int) =~= s@);
        assert(out.deep_view() + split_nl(rest@) =~~= split_nl(s@));
    }
    loop
        invariant_except_break
            out.deep_view() + split_nl(rest@) =~~= split_nl(s@),
        ensures
            out.deep_view() =~~= split_nl(s@),
        decreases rest@.len(),
    {
        let ghost old_out = out.deep_view();
        let ghost old_rest = rest@;
        match find_first_char(&rest, '\n') {
            Some(i) => {
                proof {
                    lemma_find_first(old_rest, '\n');
                }
                let rl: usize = rest.len();
                let line = subrange_chars(&rest, 0, i);
                rest = subrange_chars(&rest, i + 1, rl);
                out.push(line);
                proof {
                    assert(out.deep_view() =~~= old_out.push(line@));
                    assert(split_nl(old_rest) == seq![old_rest.subrange(0, i as int)] + split_nl(
                        old_rest.subrange(i + 1, old_rest.len() as int),
                    ));
                    assert(out.deep_view() + split_nl(rest@) =~~= split_nl(s@));
                }
            },
            None => {
                proof {
                    lemma_find_first(old_rest, '\n');
                    assert(split_nl(old_rest) == seq![old_rest]);
                }
                out.push(rest);
                proof {
                    assert(out.deep_view() =~~= old_out.push(old_rest));
                    assert(out.deep_view() =~~= split_nl(s@));
                }
                break ;
            },
        }
    }
    proof {
        assert(out.deep_view() == split_nl(s@));
    }
    out
}

/// Splits `s` into its lines, agreeing with [`spec_lines`].
pub fn lines_chars(s: &Vec<char>) -> (r: Vec<Vec<char>>)
    ensures
        r.deep_view() == spec_lines(s@),
{
    if s.len() == 0 {
        let r: Vec<Vec<char>> = Vec::new();
        proof {
            assert(r.deep_view() =~~= spec_lines(s@));
        }
        return r;
    }
    let mut parts = split_nl_chars(s);
    if s[s.len() - 1] == '\n' {
        proof {
            lemma_split_nl_nonempty(s@);
        }
        parts.pop();
        proof {
            assert(parts.deep_view() =~~= split_nl(s@).drop_last());
        }
    }
    let ghost base = parts.deep_view();
    let mut out: Vec<Vec<char>> = Vec::new();
    let mut i: usize = 0;
    while i < parts.len()
        invariant
            i <= parts@.len(),
            parts.deep_view() == base,
            out.deep_view() =~~= base.subrange(0, i as int).map_values(
                |l: Seq<char>| strip_cr(l),
            ),
        decreases parts@.len() - i,
    {
        let ghost old_out = out.deep_view();
        let line = &parts[i];
        if line.len() > 0 && line[line.len() - 1] == '\r' {
            out.push(subrange_chars(line, 0, line.len() - 1));
            proof {
                assert(line@.subrange(0, line@.len() - 1) =~= line@.drop_last());
            }
        } else {
            out.push(subrange_chars(line, 0, line.len()));
            proof {
                assert(line@.subrange(0, line@.len() as int) =~= line@);
            }
        }
        i += 1;
        proof {
            assert(out.deep_view() =~~= old_out.push(strip_cr(base[i - 1])));
            assert(out.deep_view() =~~= base.subrange(0, i as int).map_values(
                |l: Seq<char>| strip_cr(l),
            ));
        }
    }
    proof {
        assert(base.subrange(0, base.len() as int) =~= base);
        assert(out.deep_view() =~~= spec_lines(s@));
    }
    out
}

/// `split_nl` always yields at least one segment.
proof fn lemma_split_nl_nonempty(s: Seq<char>)
    ensures
        split_nl(s).len() >= 1,
{
}

/// Appends the characters of `b` to `a`.
pub fn append_chars(a: &mut Vec<char>, b: &Vec<char>)
    ensures
        final(a)@ == old(a)@ + b@,
{
    a.extend_from_slice(b.as_slice());
}

/// Converts a string slice into the vector of its characters.
pub fn str_to_chars(s: &str) -> (v: Vec<char>)
    ensures
        v@ == s@,
{
    let mut it = s.chars();
    let mut v: Vec<char> = Vec::new();
    loop
        invariant
            it.obeys_prophetic_iter_laws(),
            it.decrease() is Some,
            v@ + it.remaining() == s@,
        ensures
            v@ == s@,
        decreases it.decrease()->0,
    {
        match it.next() {
            Some(c) => {
                v.push(c);
                proof {
                    assert(v@ + it.remaining() =~= s@);
                }
            },
            None => {
                proof {
                    assert(v@ =~= s@);
                }
                break ;
            },
        }
    }
    v
}

} // verus!
