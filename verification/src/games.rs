//! The per-game blurb processors, their registry, and the classifier.
//!
//! Each supported daily game has one processor: a recognizer (`detect`) for
//! its fixed "share your result" layout and an extractor (`process`) that
//! condenses a recognized blurb into a one-line summary.  The classifier
//! trims the pasted text once, asks every processor for an extraction, and
//! succeeds only when exactly one of them claims the text.

use vstd::prelude::*;
use crate::text::{
    find_first, find_last, find_sub, spec_lines, spec_trim, trim_end, trim_trailing,
    find_first_char, find_last_char, find_sub_chars, lines_chars, starts_with_chars,
    subrange_chars, trim_chars, trim_end_chars, trim_trailing_chars, append_chars,
    chars_to_string, str_to_chars, no_nl, line_clean, lemma_no_nl_concat, lemma_no_nl_subrange,
    lemma_lines_no_nl, lemma_lines_first, lemma_trim_end_no_nl, lemma_trim_trailing_no_nl,
    lemma_find_first, lemma_find_last, lemma_find_sub,
};

verus! {

broadcast use {crate::text::lemma_deep_view_chars, vstd::string::group_string_axioms};

/// Whether `c` is a Unicode letter or digit; named for
/// [`char_is_alphanumeric`], which computes it.
pub uninterp spec fn is_alnum(c: char) -> bool;

/// Relies on `char::is_alphanumeric`: true exactly for Unicode letters and
/// digits; the result depends on the character alone.
#[verifier::external_body]
fn char_is_alphanumeric(c: char) -> (r: bool)
    ensures
        r == is_alnum(c),
{
    c.is_alphanumeric()
}

/// The marker that opens every Akari blurb.
pub open spec fn akari_prefix() -> Seq<char> {
    "Daily Akari \u{1f60a}"@
}

/// The connective of the Akari summary line.
pub open spec fn akari_mid() -> Seq<char> {
    " -- \u{2705} Solved in "@
}

/// The closing marker of the Akari summary line.
pub open spec fn akari_tail() -> Seq<char> {
    " \u{2705}"@
}

/// The marker that opens every Bracket City blurb.
pub open spec fn bracket_prefix() -> Seq<char> {
    "[Bracket City]"@
}

/// The display name that opens the Bracket City summary line.
pub open spec fn bracket_name() -> Seq<char> {
    "Bracket City"@
}

/// The marker of the rank line of a Bracket City blurb.
pub open spec fn rank_prefix() -> Seq<char> {
    "Rank:"@
}

/// The marker of the score line of a Bracket City blurb.
pub open spec fn total_score_prefix() -> Seq<char> {
    "Total Score: "@
}

/// The separator between a summary's head and its extracted payload.
pub open spec fn dash_sep() -> Seq<char> {
    " -- "@
}

/// The marker that opens every Duotrigordle blurb.
pub open spec fn duo_prefix() -> Seq<char> {
    "Daily Duotrigordle"@
}

/// The marker that opens a long-form Clues by Sam blurb.
pub open spec fn clues_long_prefix() -> Seq<char> {
    "I solved the daily Clues by Sam"@
}

/// The marker that opens a short-form Clues by Sam blurb, and the display
/// name that opens its summary line.
pub open spec fn clues_short_prefix() -> Seq<char> {
    "Clues by Sam"@
}

/// The separator before the time in a long-form Clues by Sam headline.
pub open spec fn clues_close_in() -> Seq<char> {
    ") in "@
}

/// The connective between checks and time in the Clues by Sam summary.
pub open spec fn clues_in() -> Seq<char> {
    " in "@
}

/// The Akari extraction: line 2, stripped of trailing check marks and
/// whitespace, loses everything up to its last space; what remains is the
/// solve time.
pub open spec fn spec_process_akari(s: Seq<char>) -> Option<Seq<char>> {
    if !akari_prefix().is_prefix_of(s) {
        None
    } else {
        let ls = spec_lines(s);
        if ls.len() < 3 {
            None
        } else {
            let l2 = trim_end(trim_trailing(ls[2], '\u{2705}'));
            let k = find_last(l2, ' ');
            if k == -1 {
                None
            } else {
                Some(akari_prefix() + akari_mid() + l2.skip(k + 1) + akari_tail())
            }
        }
    }
}

/// One step of the Bracket City line walk: `acc` is the summary so far and
/// `score` records whether a blank or plain line has switched the walk into
/// score mode.
pub open spec fn bracket_step(acc: Seq<char>, score: bool, lines: Seq<Seq<char>>) -> Option<
    Seq<char>,
>
    decreases lines.len(),
{
    if lines.len() == 0 {
        Some(acc)
    } else {
        let line = lines[0];
        let rest = lines.drop_first();
        if score {
            if total_score_prefix().is_prefix_of(line) {
                bracket_step(acc + dash_sep() + line.skip(total_score_prefix().len() as int), true, rest)
            } else {
                bracket_step(acc + seq![' '] + line, true, rest)
            }
        } else if rank_prefix().is_prefix_of(line) {
            bracket_step(acc + line.skip(rank_prefix().len() as int), false, rest)
        } else if line.len() > 0 && !is_alnum(line[0]) {
            let k = find_first(line, ' ');
            if k == -1 {
                None
            } else {
                let after = line.skip(k + 1);
                let k2 = find_last(after, ' ');
                if k2 == -1 {
                    None
                } else {
                    bracket_step(
                        acc + seq![' '] + line.take(k) + seq![' '] + after.skip(k2 + 1),
                        false,
                        rest,
                    )
                }
            }
        } else {
            bracket_step(acc, true, rest)
        }
    }
}

/// The Bracket City extraction: skip the five heading lines, then walk the
/// remaining lines with [`bracket_step`].
pub open spec fn spec_process_bracket(s: Seq<char>) -> Option<Seq<char>> {
    if !bracket_prefix().is_prefix_of(s) {
        None
    } else {
        let ls = spec_lines(s);
        if ls.len() <= 5 {
            Some(bracket_name())
        } else {
            bracket_step(bracket_name(), false, ls.skip(5))
        }
    }
}

/// The Duotrigordle extraction: line 0 verbatim, then whatever follows the
/// first space of line 1.
pub open spec fn spec_process_duo(s: Seq<char>) -> Option<Seq<char>> {
    if !duo_prefix().is_prefix_of(s) {
        None
    } else {
        let ls = spec_lines(s);
        if ls.len() < 2 {
            None
        } else {
            let k = find_first(ls[1], ' ');
            if k == -1 {
                None
            } else {
                Some(ls[0] + dash_sep() + ls[1].skip(k + 1))
            }
        }
    }
}

/// The Clues by Sam extraction: the short form reads time and checks from
/// lines 1 and 2; the long form reads the time from line 0 after `") in "`
/// and the checks from line 1.
pub open spec fn spec_process_clues(s: Seq<char>) -> Option<Seq<char>> {
    if !clues_long_prefix().is_prefix_of(s) && !clues_short_prefix().is_prefix_of(s) {
        None
    } else {
        let ls = spec_lines(s);
        if clues_short_prefix().is_prefix_of(s) {
            if ls.len() < 3 {
                None
            } else {
                Some(clues_short_prefix() + dash_sep() + ls[2] + clues_in() + ls[1])
            }
        } else {
            if ls.len() < 2 {
                None
            } else {
                let k = find_sub(ls[0], clues_close_in());
                if k == -1 {
                    None
                } else {
                    let time = ls[0].skip(k + clues_close_in().len());
                    Some(clues_short_prefix() + dash_sep() + ls[1] + clues_in() + time)
                }
            }
        }
    }
}

/// Whether an optional extraction result carries a summary whose view is
/// `o`.
pub open spec fn opt_matches(r: Option<String>, o: Option<Seq<char>>) -> bool {
    match r {
        Some(line) => o is Some && line@ == o->0,
        None => o is None,
    }
}

/// The same correspondence for a summary still held as characters.
pub open spec fn opt_chars_matches(r: Option<Vec<char>>, o: Option<Seq<char>>) -> bool {
    match r {
        Some(line) => o is Some && line@ == o->0,
        None => o is None,
    }
}

fn process_akari_chars(s: &Vec<char>) -> (r: Option<Vec<char>>)
    ensures
        opt_chars_matches(r, spec_process_akari(s@)),
{
    let prefix = str_to_chars("Daily Akari \u{1f60a}");
    if !starts_with_chars(s, &prefix) {
        return None;
    }
    let ls = lines_chars(s);
    if ls.len() < 3 {
        return None;
    }
    let l2 = trim_end_chars(&trim_trailing_chars(&ls[2], '\u{2705}'));
    match find_last_char(&l2, ' ') {
        None => None,
        Some(k) => {
            proof {
                crate::text::lemma_find_last(l2@, ' ');
            }
            let ln: usize = l2.len();
            let mut out = str_to_chars("Daily Akari \u{1f60a}");
            let mid = str_to_chars(" -- \u{2705} Solved in ");
            append_chars(&mut out, &mid);
            let time = subrange_chars(&l2, k + 1, ln);
            append_chars(&mut out, &time);
            let tail = str_to_chars(" \u{2705}");
            append_chars(&mut out, &tail);
            proof {
                let kk = crate::text::find_last(l2@, ' ');
                assert(time@ =~= l2@.skip(kk + 1));
            }
            Some(out)
        },
    }
}

fn process_duo_chars(s: &Vec<char>) -> (r: Option<Vec<char>>)
    ensures
        opt_chars_matches(r, spec_process_duo(s@)),
{
    let prefix = str_to_chars("Daily Duotrigordle");
    if !starts_with_chars(s, &prefix) {
        return None;
    }
    let ls = lines_chars(s);
    if ls.len() < 2 {
        return None;
    }
    match find_first_char(&ls[1], ' ') {
        None => None,
        Some(k) => {
            let l1 = &ls[1];
            proof {
                crate::text::lemma_find_first(l1@, ' ');
            }
            let ln: usize = l1.len();
            let mut out = subrange_chars(&ls[0], 0, ls[0].len());
            let sep = str_to_chars(" -- ");
            append_chars(&mut out, &sep);
            let payload = subrange_chars(l1, k + 1, ln);
            append_chars(&mut out, &payload);
            proof {
                let l = spec_lines(s@);
                let kk = find_first(l[1], ' ');
                assert(ls@[0]@.subrange(0, ls@[0]@.len() as int) =~= l[0]);
                assert(payload@ =~= l[1].skip(kk + 1));
            }
            Some(out)
        },
    }
}

fn process_bracket_chars(s: &Vec<char>) -> (r: Option<Vec<char>>)
    ensures
        opt_chars_matches(r, spec_process_bracket(s@)),
{
    let prefix = str_to_chars("[Bracket City]");
    if !starts_with_chars(s, &prefix) {
        return None;
    }
    let ls = lines_chars(s);
    let mut acc = str_to_chars("Bracket City");
    if ls.len() <= 5 {
        proof {
            if spec_lines(s@).len() > 5 {
                assert(false);
            }
        }
        return Some(acc);
    }
    let ghost all = spec_lines(s@);
    let mut score = false;
    let mut i: usize = 5;
    while i < ls.len()
        invariant
            5 <= i <= all.len(),
            ls.deep_view() == all,
            ls@.len() == all.len(),
            spec_process_bracket(s@) == bracket_step(acc@, score, all.skip(i as int)),
        decreases all.len() - i,
    {
        let ghost pre = bracket_step(acc@, score, all.skip(i as int));
        proof {
            assert(all.skip(i as int)[0] == all[i as int]);
            assert(all.skip(i as int).drop_first() =~= all.skip(i as int + 1));
        }
        let line = &ls[i];
        if score {
            let tsp = str_to_chars("Total Score: ");
            if starts_with_chars(line, &tsp) {
                let sep = str_to_chars(" -- ");
                append_chars(&mut acc, &sep);
                let rest = subrange_chars(line, tsp.len(), line.len());
                append_chars(&mut acc, &rest);
                proof {
                    assert(rest@ =~= all[i as int].skip(total_score_prefix().len() as int));
                }
            } else {
                let mut sp: Vec<char> = Vec::new();
                sp.push(' ');
                proof {
                    assert(sp@ =~= seq![' ']);
                }
                append_chars(&mut acc, &sp);
                append_chars(&mut acc, line);
            }
        } else {
            let rkp = str_to_chars("Rank:");
            if starts_with_chars(line, &rkp) {
                let rest = subrange_chars(line, rkp.len(), line.len());
                append_chars(&mut acc, &rest);
                proof {
                    assert(rest@ =~= all[i as int].skip(rank_prefix().len() as int));
                }
            } else if line.len() > 0 && !char_is_alphanumeric(line[0]) {
                match find_first_char(line, ' ') {
                    None => {
                        return None;
                    },
                    Some(k) => {
                        proof {
                            crate::text::lemma_find_first(line@, ' ');
                        }
                        let ln: usize = line.len();
                        let emoji = subrange_chars(line, 0, k);
                        let after = subrange_chars(line, k + 1, ln);
                        match find_last_char(&after, ' ') {
                            None => {
                                proof {
                                    assert(after@ =~= all[i as int].skip(
                                        find_first(all[i as int], ' ') + 1,
                                    ));
                                }
                                return None;
                            },
                            Some(k2) => {
                                proof {
                                    crate::text::lemma_find_last(after@, ' ');
                                }
                                let an: usize = after.len();
                                let number = subrange_chars(&after, k2 + 1, an);
                                let mut sp: Vec<char> = Vec::new();
                                sp.push(' ');
                                proof {
                                    assert(sp@ =~= seq![' ']);
                                }
                                append_chars(&mut acc, &sp);
                                append_chars(&mut acc, &emoji);
                                append_chars(&mut acc, &sp);
                                append_chars(&mut acc, &number);
                                proof {
                                    let lsp = all[i as int];
                                    let kk = find_first(lsp, ' ');
                                    let aft = lsp.skip(kk + 1);
                                    assert(after@ =~= aft);
                                    assert(emoji@ =~= lsp.take(kk));
                                    assert(number@ =~= aft.skip(find_last(aft, ' ') + 1));
                                }
                            },
                        }
                    },
                }
            } else {
                score = true;
            }
        }
        i += 1;
    }
    proof {
        assert(all.skip(all.len() as int) =~= Seq::<Seq<char>>::empty());
    }
    Some(acc)
}

fn process_clues_chars(s: &Vec<char>) -> (r: Option<Vec<char>>)
    ensures
        opt_chars_matches(r, spec_process_clues(s@)),
{
    let long_prefix = str_to_chars("I solved the daily Clues by Sam");
    let short_prefix = str_to_chars("Clues by Sam");
    let is_long = starts_with_chars(s, &long_prefix);
    let is_short = starts_with_chars(s, &short_prefix);
    if !is_long && !is_short {
        return None;
    }
    let ls = lines_chars(s);
    if is_short {
        if ls.len() < 3 {
            return None;
        }
        let mut out = subrange_chars(&short_prefix, 0, short_prefix.len());
        let sep = str_to_chars(" -- ");
        append_chars(&mut out, &sep);
        append_chars(&mut out, &ls[2]);
        let conn = str_to_chars(" in ");
        append_chars(&mut out, &conn);
        append_chars(&mut out, &ls[1]);
        proof {
            assert(short_prefix@.subrange(0, short_prefix@.len() as int) =~= clues_short_prefix());
        }
        Some(out)
    } else {
        if ls.len() < 2 {
            return None;
        }
        let pat = str_to_chars(") in ");
        match find_sub_chars(&ls[0], &pat) {
            None => None,
            Some(k) => {
                let l0 = &ls[0];
                proof {
                    crate::text::lemma_find_sub(l0@, pat@);
                }
                let mut out = subrange_chars(&short_prefix, 0, short_prefix.len());
                let sep = str_to_chars(" -- ");
                append_chars(&mut out, &sep);
                append_chars(&mut out, &ls[1]);
                let conn = str_to_chars(" in ");
                append_chars(&mut out, &conn);
                let time = subrange_chars(l0, k + pat.len(), l0.len());
                append_chars(&mut out, &time);
                proof {
                    let l = spec_lines(s@);
                    let kk = find_sub(l[0], clues_close_in());
                    assert(short_prefix@.subrange(0, short_prefix@.len() as int)
                        =~= clues_short_prefix());
                    assert(time@ =~= l[0].skip(kk + clues_close_in().len()));
                }
                Some(out)
            },
        }
    }
}

/// One supported daily game, the unit of recognition and extraction.
///
/// The set of games is closed and compile-time known, so a game is a tagged
/// variant rather than an open-ended plugin.
#[derive(Clone, Copy, PartialEq, Eq, Structural, Debug)]
pub enum GameKind {
    DailyAkari,
    BracketCity,
    Duotrigordle,
    CluesBySam,
}

impl GameKind {
    /// The display name of the game: the aggregate's key and sort key.
    pub open spec fn spec_name(self) -> Seq<char> {
        match self {
            GameKind::DailyAkari => "Daily Akari"@,
            GameKind::BracketCity => "Bracket City"@,
            GameKind::Duotrigordle => "Duotrigordle"@,
            GameKind::CluesBySam => "Clues by Sam"@,
        }
    }

    /// The website the game can be played at; display-only.
    pub open spec fn spec_url(self) -> Seq<char> {
        match self {
            GameKind::DailyAkari => "https://dailyakari.com/"@,
            GameKind::BracketCity => "https://www.theatlantic.com/games/bracket-city/"@,
            GameKind::Duotrigordle => "https://duotrigordle.com/"@,
            GameKind::CluesBySam => "https://cluesbysam.com/"@,
        }
    }

    /// Whether this game's processor recognizes the blurb.
    pub open spec fn spec_detect(self, s: Seq<char>) -> bool {
        match self {
            GameKind::DailyAkari => akari_prefix().is_prefix_of(s),
            GameKind::BracketCity => bracket_prefix().is_prefix_of(s),
            GameKind::Duotrigordle => duo_prefix().is_prefix_of(s),
            GameKind::CluesBySam => clues_long_prefix().is_prefix_of(s) || clues_short_prefix(
            ).is_prefix_of(s),
        }
    }

    /// The summary this game's processor extracts from the blurb, if any.
    pub open spec fn spec_process(self, s: Seq<char>) -> Option<Seq<char>> {
        match self {
            GameKind::DailyAkari => spec_process_akari(s),
            GameKind::BracketCity => spec_process_bracket(s),
            GameKind::Duotrigordle => spec_process_duo(s),
            GameKind::CluesBySam => spec_process_clues(s),
        }
    }

    /// The display name of the game.
    pub fn name(&self) -> (r: String)
        ensures
            r@ == self.spec_name(),
    {
        match self {
            GameKind::DailyAkari => chars_to_string(&str_to_chars("Daily Akari")),
            GameKind::BracketCity => chars_to_string(&str_to_chars("Bracket City")),
            GameKind::Duotrigordle => chars_to_string(&str_to_chars("Duotrigordle")),
            GameKind::CluesBySam => chars_to_string(&str_to_chars("Clues by Sam")),
        }
    }

    /// The website the game can be played at.
    pub fn url(&self) -> (r: String)
        ensures
            r@ == self.spec_url(),
    {
        match self {
            GameKind::DailyAkari => chars_to_string(&str_to_chars("https://dailyakari.com/")),
            GameKind::BracketCity => chars_to_string(
                &str_to_chars("https://www.theatlantic.com/games/bracket-city/"),
            ),
            GameKind::Duotrigordle => chars_to_string(&str_to_chars("https://duotrigordle.com/")),
            GameKind::CluesBySam => chars_to_string(&str_to_chars("https://cluesbysam.com/")),
        }
    }

    /// Whether this game's processor recognizes the blurb.
    pub fn detect(&self, block: &str) -> (r: bool)
        ensures
            r == self.spec_detect(block@),
    {
        let v = str_to_chars(block);
        match self {
            GameKind::DailyAkari => starts_with_chars(&v, &str_to_chars("Daily Akari \u{1f60a}")),
            GameKind::BracketCity => starts_with_chars(&v, &str_to_chars("[Bracket City]")),
            GameKind::Duotrigordle => starts_with_chars(&v, &str_to_chars("Daily Duotrigordle")),
            GameKind::CluesBySam => {
                starts_with_chars(&v, &str_to_chars("I solved the daily Clues by Sam"))
                    || starts_with_chars(&v, &str_to_chars("Clues by Sam"))
            },
        }
    }

    /// Extracts this game's one-line summary from the blurb, or reports that
    /// none could be extracted.
    pub fn process(&self, block: &str) -> (r: Option<String>)
        ensures
            opt_matches(r, self.spec_process(block@)),
    {
        let v = str_to_chars(block);
        let out = match self {
            GameKind::DailyAkari => process_akari_chars(&v),
            GameKind::BracketCity => process_bracket_chars(&v),
            GameKind::Duotrigordle => process_duo_chars(&v),
            GameKind::CluesBySam => process_clues_chars(&v),
        };
        match out {
            Some(line) => Some(chars_to_string(&line)),
            None => None,
        }
    }
}

/// One entry of the game registry, carrying the tag its operations dispatch
/// on.
#[derive(Clone, Copy, PartialEq, Eq, Structural, Debug)]
pub struct Game {
    /// Which game this entry recognizes and extracts.
    pub kind: GameKind,
}

impl Game {
    /// The display name of the game: the aggregate's key and sort key.
    pub open spec fn spec_name(self) -> Seq<char> {
        self.kind.spec_name()
    }

    /// The website the game can be played at; display-only.
    pub open spec fn spec_url(self) -> Seq<char> {
        self.kind.spec_url()
    }

    /// The display name of the game.
    pub fn name(&self) -> (r: String)
        ensures
            r@ == self.spec_name(),
    {
        self.kind.name()
    }

    /// The website the game can be played at.
    pub fn url(&self) -> (r: String)
        ensures
            r@ == self.spec_url(),
    {
        self.kind.url()
    }

    /// Whether this game's processor recognizes the blurb.
    pub fn detect(&self, block: &str) -> (r: bool)
        ensures
            r == self.kind.spec_detect(block@),
    {
        self.kind.detect(block)
    }

    /// Extracts this game's one-line summary from the blurb, or reports that
    /// none could be extracted.
    pub fn process(&self, block: &str) -> (r: Option<String>)
        ensures
            opt_matches(r, self.kind.spec_process(block@)),
    {
        self.kind.process(block)
    }
}

/// The registry: every supported game, in its fixed display order.
pub open spec fn spec_games() -> Seq<GameKind> {
    seq![GameKind::DailyAkari, GameKind::BracketCity, GameKind::Duotrigordle, GameKind::CluesBySam]
}

/// The registry: every supported game, in its fixed display order.
pub fn games() -> (r: Vec<Game>)
    ensures
        r@.len() == spec_games().len(),
        forall|i: int| 0 <= i < r@.len() ==> (#[trigger] r@[i]).kind == spec_games()[i],
{
    let mut r: Vec<Game> = Vec::new();
    r.push(Game { kind: GameKind::DailyAkari });
    r.push(Game { kind: GameKind::BracketCity });
    r.push(Game { kind: GameKind::Duotrigordle });
    r.push(Game { kind: GameKind::CluesBySam });
    r
}

/// The recognition and extraction interface every supported game's
/// processor provides.
pub trait Processor {
    /// The display name of the game this processor serves.
    spec fn spec_name(&self) -> Seq<char>;

    /// The website the game can be played at.
    spec fn spec_url(&self) -> Seq<char>;

    /// Whether this processor claims the blurb.
    spec fn spec_detect(&self, s: Seq<char>) -> bool;

    /// The summary this processor extracts from the blurb, if any.
    spec fn spec_extract(&self, s: Seq<char>) -> Option<Seq<char>>;

    /// The name of the game.
    fn name(&self) -> (r: String)
        ensures
            r@ == self.spec_name(),
    ;

    /// URL to the game.
    fn url(&self) -> (r: String)
        ensures
            r@ == self.spec_url(),
    ;

    /// Whether this processor applies to the given piece of text.
    fn detect(&self, block: &str) -> (r: bool)
        ensures
            r == self.spec_detect(block@),
    ;

    /// Summarizes the daily game blurb into one line.
    fn process(&self, block: &str) -> (r: Option<String>)
        ensures
            opt_matches(r, self.spec_extract(block@)),
    ;
}

/// The Akari processor.
pub struct DailyAkari;

/// The Bracket City processor.
pub struct BracketCity;

/// The Duotrigordle processor.
pub struct Duotrigordle;

/// The Clues by Sam processor.
pub struct CluesBySam;

impl Processor for DailyAkari {
    open spec fn spec_name(&self) -> Seq<char> {
        GameKind::DailyAkari.spec_name()
    }

    open spec fn spec_url(&self) -> Seq<char> {
        GameKind::DailyAkari.spec_url()
    }

    open spec fn spec_detect(&self, s: Seq<char>) -> bool {
        GameKind::DailyAkari.spec_detect(s)
    }

    open spec fn spec_extract(&self, s: Seq<char>) -> Option<Seq<char>> {
        spec_process_akari(s)
    }

    fn name(&self) -> (r: String) {
        GameKind::DailyAkari.name()
    }

    fn url(&self) -> (r: String) {
        GameKind::DailyAkari.url()
    }

    fn detect(&self, block: &str) -> (r: bool) {
        GameKind::DailyAkari.detect(block)
    }

    fn process(&self, block: &str) -> (r: Option<String>) {
        GameKind::DailyAkari.process(block)
    }
}

impl Processor for BracketCity {
    open spec fn spec_name(&self) -> Seq<char> {
        GameKind::BracketCity.spec_name()
    }

    open spec fn spec_url(&self) -> Seq<char> {
        GameKind::BracketCity.spec_url()
    }

    open spec fn spec_detect(&self, s: Seq<char>) -> bool {
        GameKind::BracketCity.spec_detect(s)
    }

    open spec fn spec_extract(&self, s: Seq<char>) -> Option<Seq<char>> {
        spec_process_bracket(s)
    }

    fn name(&self) -> (r: String) {
        GameKind::BracketCity.name()
    }

    fn url(&self) -> (r: String) {
        GameKind::BracketCity.url()
    }

    fn detect(&self, block: &str) -> (r: bool) {
        GameKind::BracketCity.detect(block)
    }

    fn process(&self, block: &str) -> (r: Option<String>) {
        GameKind::BracketCity.process(block)
    }
}

impl Processor for Duotrigordle {
    open spec fn spec_name(&self) -> Seq<char> {
        GameKind::Duotrigordle.spec_name()
    }

    open spec fn spec_url(&self) -> Seq<char> {
        GameKind::Duotrigordle.spec_url()
    }

    open spec fn spec_detect(&self, s: Seq<char>) -> bool {
        GameKind::Duotrigordle.spec_detect(s)
    }

    open spec fn spec_extract(&self, s: Seq<char>) -> Option<Seq<char>> {
        spec_process_duo(s)
    }

    fn name(&self) -> (r: String) {
        GameKind::Duotrigordle.name()
    }

    fn url(&self) -> (r: String) {
        GameKind::Duotrigordle.url()
    }

    fn detect(&self, block: &str) -> (r: bool) {
        GameKind::Duotrigordle.detect(block)
    }

    fn process(&self, block: &str) -> (r: Option<String>) {
        GameKind::Duotrigordle.process(block)
    }
}

impl Processor for CluesBySam {
    open spec fn spec_name(&self) -> Seq<char> {
        GameKind::CluesBySam.spec_name()
    }

    open spec fn spec_url(&self) -> Seq<char> {
        GameKind::CluesBySam.spec_url()
    }

    open spec fn spec_detect(&self, s: Seq<char>) -> bool {
        GameKind::CluesBySam.spec_detect(s)
    }

    open spec fn spec_extract(&self, s: Seq<char>) -> Option<Seq<char>> {
        spec_process_clues(s)
    }

    fn name(&self) -> (r: String) {
        GameKind::CluesBySam.name()
    }

    fn url(&self) -> (r: String) {
        GameKind::CluesBySam.url()
    }

    fn detect(&self, block: &str) -> (r: bool) {
        GameKind::CluesBySam.detect(block)
    }

    fn process(&self, block: &str) -> (r: Option<String>) {
        GameKind::CluesBySam.process(block)
    }
}

/// Extracts the Akari summary from a raw blurb.
pub fn daily_akari(input: &str) -> (r: Option<String>)
    ensures
        opt_matches(r, spec_process_akari(input@)),
{
    GameKind::DailyAkari.process(input)
}

/// Extracts the Bracket City summary from a raw blurb.
pub fn bracket_city(input: &str) -> (r: Option<String>)
    ensures
        opt_matches(r, spec_process_bracket(input@)),
{
    GameKind::BracketCity.process(input)
}

/// Extracts the Duotrigordle summary from a raw blurb.
pub fn duotrigordle(input: &str) -> (r: Option<String>)
    ensures
        opt_matches(r, spec_process_duo(input@)),
{
    GameKind::Duotrigordle.process(input)
}

/// Extracts the Clues by Sam summary from a raw blurb.
pub fn clues_by_sam(input: &str) -> (r: Option<String>)
    ensures
        opt_matches(r, spec_process_clues(input@)),
{
    GameKind::CluesBySam.process(input)
}

/// Why classification of a pasted blurb failed.
#[derive(Clone, Copy, PartialEq, Eq, Structural, Debug)]
pub enum ClassifyError {
    /// No registered processor could extract a summary.
    NoMatch,
    /// Two or more processors extracted a summary: a format collision that
    /// callers should treat as an internal defect, not a user error.
    AmbiguousMatch,
}

/// One when the extraction succeeded, zero when it did not.
pub open spec fn opt_count(o: Option<Seq<char>>) -> int {
    if o is Some {
        1
    } else {
        0
    }
}

/// The classification of a raw pasted blurb: the text is trimmed once, every
/// registered processor attempts extraction, and the result is the single
/// successful (name, summary) pair, `NoMatch` when none succeeds, or
/// `AmbiguousMatch` when several do.
pub open spec fn spec_classify(s: Seq<char>) -> Result<(Seq<char>, Seq<char>), ClassifyError> {
    let t = spec_trim(s);
    let a = spec_process_akari(t);
    let b = spec_process_bracket(t);
    let d = spec_process_duo(t);
    let c = spec_process_clues(t);
    let n = opt_count(a) + opt_count(b) + opt_count(d) + opt_count(c);
    if n == 0 {
        Err(ClassifyError::NoMatch)
    } else if n >= 2 {
        Err(ClassifyError::AmbiguousMatch)
    } else if a is Some {
        Ok((GameKind::DailyAkari.spec_name(), a->0))
    } else if b is Some {
        Ok((GameKind::BracketCity.spec_name(), b->0))
    } else if d is Some {
        Ok((GameKind::Duotrigordle.spec_name(), d->0))
    } else {
        Ok((GameKind::CluesBySam.spec_name(), c->0))
    }
}

/// Classifies a raw pasted blurb, agreeing with [`spec_classify`].
pub fn classify(input: &str) -> (r: Result<(String, String), ClassifyError>)
    ensures
        ({
            let sc = spec_classify(input@);
            match r {
                Ok(pair) => sc is Ok && pair.0@ == sc->Ok_0.0 && pair.1@ == sc->Ok_0.1,
                Err(e) => sc is Err && e == sc->Err_0,
            }
        }),
{
    let v = str_to_chars(input);
    let t = trim_chars(&v);
    let a = process_akari_chars(&t);
    let b = process_bracket_chars(&t);
    let d = process_duo_chars(&t);
    let c = process_clues_chars(&t);
    let mut n: u32 = 0;
    if a.is_some() {
        n += 1;
    }
    if b.is_some() {
        n += 1;
    }
    if d.is_some() {
        n += 1;
    }
    if c.is_some() {
        n += 1;
    }
    if n == 0 {
        Err(ClassifyError::NoMatch)
    } else if n >= 2 {
        Err(ClassifyError::AmbiguousMatch)
    } else if let Some(line) = a {
        Ok((GameKind::DailyAkari.name(), chars_to_string(&line)))
    } else if let Some(line) = b {
        Ok((GameKind::BracketCity.name(), chars_to_string(&line)))
    } else if let Some(line) = d {
        Ok((GameKind::Duotrigordle.name(), chars_to_string(&line)))
    } else if let Some(line) = c {
        Ok((GameKind::CluesBySam.name(), chars_to_string(&line)))
    } else {
        proof {
            assert(false);
        }
        Err(ClassifyError::NoMatch)
    }
}

/// Registry formats are mutually exclusive: no text is claimed by two
/// different processors, so at most one extraction ever succeeds.
pub proof fn lemma_processors_exclusive(s: Seq<char>)
    ensures
        opt_count(spec_process_akari(s)) + opt_count(spec_process_bracket(s)) + opt_count(
            spec_process_duo(s),
        ) + opt_count(spec_process_clues(s)) <= 1,
{
    reveal_strlit("Daily Akari \u{1f60a}");
    reveal_strlit("[Bracket City]");
    reveal_strlit("Daily Duotrigordle");
    reveal_strlit("I solved the daily Clues by Sam");
    reveal_strlit("Clues by Sam");
    if spec_process_akari(s) is Some && spec_process_bracket(s) is Some {
        lemma_prefix_index(akari_prefix(), s, 0);
        lemma_prefix_index(bracket_prefix(), s, 0);
        assert(s[0] == 'D' && s[0] == '[');
    }
    if spec_process_akari(s) is Some && spec_process_duo(s) is Some {
        lemma_prefix_index(akari_prefix(), s, 6);
        lemma_prefix_index(duo_prefix(), s, 6);
        assert(s[6] == 'A' && s[6] == 'D');
    }
    if spec_process_akari(s) is Some && spec_process_clues(s) is Some {
        lemma_prefix_index(akari_prefix(), s, 6);
        if clues_long_prefix().is_prefix_of(s) {
            lemma_prefix_index(clues_long_prefix(), s, 6);
            assert(s[6] == 'A' && s[6] == 'e');
        } else {
            lemma_prefix_index(clues_short_prefix(), s, 6);
            assert(s[6] == 'A' && s[6] == 'b');
        }
    }
    if spec_process_bracket(s) is Some && spec_process_duo(s) is Some {
        lemma_prefix_index(bracket_prefix(), s, 0);
        lemma_prefix_index(duo_prefix(), s, 0);
        assert(s[0] == '[' && s[0] == 'D');
    }
    if spec_process_bracket(s) is Some && spec_process_clues(s) is Some {
        lemma_prefix_index(bracket_prefix(), s, 0);
        if clues_long_prefix().is_prefix_of(s) {
            lemma_prefix_index(clues_long_prefix(), s, 0);
            assert(s[0] == '[' && s[0] == 'I');
        } else {
            lemma_prefix_index(clues_short_prefix(), s, 0);
            assert(s[0] == '[' && s[0] == 'C');
        }
    }
    if spec_process_duo(s) is Some && spec_process_clues(s) is Some {
        lemma_prefix_index(duo_prefix(), s, 0);
        if clues_long_prefix().is_prefix_of(s) {
            lemma_prefix_index(clues_long_prefix(), s, 0);
            assert(s[0] == 'D' && s[0] == 'I');
        } else {
            lemma_prefix_index(clues_short_prefix(), s, 0);
            assert(s[0] == 'D' && s[0] == 'C');
        }
    }
}

/// The literal markers that enter summary lines are single-line texts, and
/// the summaries open with a letter.
proof fn lemma_markers_clean()
    ensures
        no_nl(akari_prefix()) && akari_prefix().len() > 0 && akari_prefix()[0] == 'D',
        no_nl(akari_mid()),
        no_nl(akari_tail()),
        no_nl(bracket_name()) && bracket_name().len() > 0 && bracket_name()[0] == 'B',
        no_nl(clues_short_prefix()) && clues_short_prefix().len() > 0 && clues_short_prefix()[0]
            == 'C',
        no_nl(clues_in()),
        no_nl(dash_sep()),
        duo_prefix().len() > 0 && duo_prefix()[0] == 'D',
{
    reveal_strlit("Daily Akari \u{1f60a}");
    reveal_strlit(" -- \u{2705} Solved in ");
    reveal_strlit(" \u{2705}");
    reveal_strlit("Bracket City");
    reveal_strlit("Clues by Sam");
    reveal_strlit(" in ");
    reveal_strlit(" -- ");
    reveal_strlit("Daily Duotrigordle");
}

/// One step of the Bracket City walk keeps the summary a clean single line
/// and never touches its first character.
proof fn lemma_bracket_step_clean(acc: Seq<char>, score: bool, lines: Seq<Seq<char>>)
    requires
        no_nl(acc),
        acc.len() > 0,
        forall|k: int| 0 <= k < lines.len() ==> no_nl(#[trigger] lines[k]),
    ensures
        bracket_step(acc, score, lines) matches Some(r) ==> no_nl(r) && r.len() >= acc.len()
            && r[0] == acc[0],
    decreases lines.len(),
{
    lemma_markers_clean();
    if lines.len() == 0 {
    } else {
        let line = lines[0];
        let rest = lines.drop_first();
        assert(no_nl(line));
        assert forall|k: int| 0 <= k < rest.len() implies no_nl(#[trigger] rest[k]) by {
            assert(rest[k] == lines[k + 1]);
        }
        if score {
            if total_score_prefix().is_prefix_of(line) {
                let frag = line.skip(total_score_prefix().len() as int);
                assert(frag =~= line.subrange(total_score_prefix().len() as int, line.len() as int));
                lemma_no_nl_subrange(line, total_score_prefix().len() as int, line.len() as int);
                lemma_no_nl_concat(acc, dash_sep());
                lemma_no_nl_concat(acc + dash_sep(), frag);
                lemma_bracket_step_clean(acc + dash_sep() + frag, true, rest);
            } else {
                assert(no_nl(seq![' ']));
                lemma_no_nl_concat(acc, seq![' ']);
                lemma_no_nl_concat(acc + seq![' '], line);
                lemma_bracket_step_clean(acc + seq![' '] + line, true, rest);
            }
        } else if rank_prefix().is_prefix_of(line) {
            let frag = line.skip(rank_prefix().len() as int);
            assert(frag =~= line.subrange(rank_prefix().len() as int, line.len() as int));
            lemma_no_nl_subrange(line, rank_prefix().len() as int, line.len() as int);
            lemma_no_nl_concat(acc, frag);
            lemma_bracket_step_clean(acc + frag, false, rest);
        } else if line.len() > 0 && !is_alnum(line[0]) {
            let k = find_first(line, ' ');
            lemma_find_first(line, ' ');
            if k == -1 {
            } else {
                let after = line.skip(k + 1);
                assert(after =~= line.subrange(k + 1, line.len() as int));
                lemma_no_nl_subrange(line, k + 1, line.len() as int);
                let k2 = find_last(after, ' ');
                lemma_find_last(after, ' ');
                if k2 == -1 {
                } else {
                    let emoji = line.take(k);
                    assert(emoji =~= line.subrange(0, k));
                    lemma_no_nl_subrange(line, 0, k);
                    let number = after.skip(k2 + 1);
                    assert(number =~= after.subrange(k2 + 1, after.len() as int));
                    lemma_no_nl_subrange(after, k2 + 1, after.len() as int);
                    assert(no_nl(seq![' ']));
                    lemma_no_nl_concat(acc, seq![' ']);
                    lemma_no_nl_concat(acc + seq![' '], emoji);
                    lemma_no_nl_concat(acc + seq![' '] + emoji, seq![' ']);
                    lemma_no_nl_concat(acc + seq![' '] + emoji + seq![' '], number);
                    lemma_bracket_step_clean(
                        acc + seq![' '] + emoji + seq![' '] + number,
                        false,
                        rest,
                    );
                }
            }
        } else {
            lemma_bracket_step_clean(acc, true, rest);
        }
    }
}

/// Every summary a processor extracts is a clean single line: it holds no
/// line break, is nonempty, and opens with a letter of the game's name, so
/// it can never be mistaken for a block separator.
pub proof fn lemma_summary_clean(g: GameKind, s: Seq<char>)
    ensures
        g.spec_process(s) matches Some(r) ==> line_clean(r),
{
    lemma_markers_clean();
    lemma_lines_no_nl(s);
    let ls = spec_lines(s);
    match g {
        GameKind::DailyAkari => {
            if spec_process_akari(s) is Some {
                let l2a = trim_trailing(ls[2], '\u{2705}');
                lemma_trim_trailing_no_nl(ls[2], '\u{2705}');
                let l2 = trim_end(l2a);
                lemma_trim_end_no_nl(l2a);
                let k = find_last(l2, ' ');
                lemma_find_last(l2, ' ');
                let time = l2.skip(k + 1);
                assert(time =~= l2.subrange(k + 1, l2.len() as int));
                lemma_no_nl_subrange(l2, k + 1, l2.len() as int);
                lemma_no_nl_concat(akari_prefix(), akari_mid());
                lemma_no_nl_concat(akari_prefix() + akari_mid(), time);
                lemma_no_nl_concat(akari_prefix() + akari_mid() + time, akari_tail());
            }
        },
        GameKind::BracketCity => {
            if spec_process_bracket(s) is Some {
                if ls.len() <= 5 {
                } else {
                    let tail = ls.skip(5);
                    assert forall|k: int| 0 <= k < tail.len() implies no_nl(
                        #[trigger] tail[k],
                    ) by {
                        assert(tail[k] == ls[k + 5]);
                    }
                    lemma_bracket_step_clean(bracket_name(), false, tail);
                }
            }
        },
        GameKind::Duotrigordle => {
            if spec_process_duo(s) is Some {
                lemma_prefix_index(duo_prefix(), s, 0);
                lemma_lines_first(s);
                let k = find_first(ls[1], ' ');
                lemma_find_first(ls[1], ' ');
                let payload = ls[1].skip(k + 1);
                assert(payload =~= ls[1].subrange(k + 1, ls[1].len() as int));
                lemma_no_nl_subrange(ls[1], k + 1, ls[1].len() as int);
                lemma_no_nl_concat(ls[0], dash_sep());
                lemma_no_nl_concat(ls[0] + dash_sep(), payload);
                assert((ls[0] + dash_sep() + payload)[0] == ls[0][0]);
            }
        },
        GameKind::CluesBySam => {
            if spec_process_clues(s) is Some {
                if clues_short_prefix().is_prefix_of(s) {
                    lemma_no_nl_concat(clues_short_prefix(), dash_sep());
                    lemma_no_nl_concat(clues_short_prefix() + dash_sep(), ls[2]);
                    lemma_no_nl_concat(clues_short_prefix() + dash_sep() + ls[2], clues_in());
                    lemma_no_nl_concat(
                        clues_short_prefix() + dash_sep() + ls[2] + clues_in(),
                        ls[1],
                    );
                } else {
                    let k = find_sub(ls[0], clues_close_in());
                    lemma_find_sub(ls[0], clues_close_in());
                    let time = ls[0].skip(k + clues_close_in().len());
                    if k >= 0 {
                        assert(clues_close_in().is_prefix_of(ls[0].skip(k)));
                        assert(k + clues_close_in().len() <= ls[0].len());
                        assert(time =~= ls[0].subrange(
                            k + clues_close_in().len(),
                            ls[0].len() as int,
                        ));
                        lemma_no_nl_subrange(
                            ls[0],
                            k + clues_close_in().len(),
                            ls[0].len() as int,
                        );
                        lemma_no_nl_concat(clues_short_prefix(), dash_sep());
                        lemma_no_nl_concat(clues_short_prefix() + dash_sep(), ls[1]);
                        lemma_no_nl_concat(
                            clues_short_prefix() + dash_sep() + ls[1],
                            clues_in(),
                        );
                        lemma_no_nl_concat(
                            clues_short_prefix() + dash_sep() + ls[1] + clues_in(),
                            time,
                        );
                    }
                }
            }
        },
    }
}

/// Every summary a successful classification reports is a clean single
/// line.
pub proof fn lemma_classify_clean(s: Seq<char>)
    ensures
        spec_classify(s) matches Ok(pair) ==> line_clean(pair.1),
{
    let t = spec_trim(s);
    lemma_summary_clean(GameKind::DailyAkari, t);
    lemma_summary_clean(GameKind::BracketCity, t);
    lemma_summary_clean(GameKind::Duotrigordle, t);
    lemma_summary_clean(GameKind::CluesBySam, t);
}

/// A prefix pins down the characters at its indices.
proof fn lemma_prefix_index(p: Seq<char>, s: Seq<char>, i: int)
    requires
        p.is_prefix_of(s),
        0 <= i < p.len(),
    ensures
        s[i] == p[i],
{
    assert(p =~= s.subrange(0, p.len() as int));
    assert(s.subrange(0, p.len() as int)[i] == s[i]);
}

/// Classification never reports an ambiguity: a corollary of
/// [`lemma_processors_exclusive`].
pub proof fn lemma_classify_unambiguous(s: Seq<char>)
    ensures
        spec_classify(s) != Err::<(Seq<char>, Seq<char>), ClassifyError>(
            ClassifyError::AmbiguousMatch,
        ),
{
    lemma_processors_exclusive(spec_trim(s));
}

} // verus!
