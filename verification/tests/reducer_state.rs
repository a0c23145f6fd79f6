use daily_reducer::DailyReducer;

const AKARI: &str = "Daily Akari \u{1f60a}\nPuzzle #100\n\u{1f60a} 10:24 \u{2705}";
const AKARI_LATER: &str = "Daily Akari \u{1f60a}\nPuzzle #101\n\u{1f60a} 12:00 \u{2705}";
const DUO: &str = "Daily Duotrigordle #123\nGuesses: 45";
const CLUES: &str = "Clues by Sam\n5:32\n6/9 checks";
const BRACKET: &str = "[Bracket City]\nApril 1st, 2025\nurl\n\n\u{1f4b0}\nRank: Mayor\n\u{274c} wrong guesses 2\n\nTotal Score: 98.5";

#[test]
fn insert_recognized_blurb_succeeds() {
    let mut r = DailyReducer::new();
    assert!(r.insert(AKARI));
    let entries = r.iter();
    assert_eq!(entries.len(), 1);
    assert_eq!(entries[0].0, "Daily Akari");
    assert_eq!(
        entries[0].1,
        "Daily Akari \u{1f60a} -- \u{2705} Solved in 10:24 \u{2705}"
    );
}

#[test]
fn insert_unrelated_text_changes_nothing() {
    let mut r = DailyReducer::new();
    assert!(r.insert(AKARI));
    let before = r.render_for_date(2025, 4, 1);
    assert!(!r.insert("hello world"));
    assert_eq!(r.iter().len(), 1);
    assert_eq!(r.render_for_date(2025, 4, 1), before);
}

#[test]
fn insert_twice_keeps_second_summary_only() {
    let mut r = DailyReducer::new();
    assert!(r.insert(AKARI));
    assert!(r.insert(AKARI_LATER));
    let entries = r.iter();
    assert_eq!(entries.len(), 1);
    assert_eq!(
        entries[0].1,
        "Daily Akari \u{1f60a} -- \u{2705} Solved in 12:00 \u{2705}"
    );
}

#[test]
fn iterate_is_sorted_by_name_whatever_the_insertion_order() {
    let mut r = DailyReducer::new();
    assert!(r.insert(DUO));
    assert!(r.insert(AKARI));
    assert!(r.insert(BRACKET));
    assert!(r.insert(CLUES));
    let names: Vec<String> = r.iter().into_iter().map(|e| e.0).collect();
    assert_eq!(
        names,
        vec!["Bracket City", "Clues by Sam", "Daily Akari", "Duotrigordle"]
    );

    let mut r2 = DailyReducer::new();
    assert!(r2.insert(CLUES));
    assert!(r2.insert(BRACKET));
    assert!(r2.insert(AKARI));
    assert!(r2.insert(DUO));
    let names2: Vec<String> = r2.iter().into_iter().map(|e| e.0).collect();
    assert_eq!(names, names2);
}

#[test]
fn insert_trims_surrounding_whitespace() {
    let mut r = DailyReducer::new();
    assert!(r.insert("  \n\tDaily Duotrigordle #5\nGuesses: 30\n   \n"));
    assert_eq!(r.iter()[0].1, "Daily Duotrigordle #5 -- 30");
}

#[test]
fn remove_drops_the_indexed_entry() {
    let mut r = DailyReducer::new();
    assert!(r.insert(AKARI));
    assert!(r.insert(DUO));
    r.remove(0);
    let entries = r.iter();
    assert_eq!(entries.len(), 1);
    assert_eq!(entries[0].0, "Duotrigordle");
}

#[test]
fn remove_out_of_bounds_is_a_no_op() {
    let mut r = DailyReducer::new();
    assert!(r.insert(AKARI));
    r.remove(5);
    assert_eq!(r.iter().len(), 1);
    let mut empty = DailyReducer::new();
    empty.remove(0);
    assert_eq!(empty.iter().len(), 0);
}

#[test]
fn lookup_finds_only_present_games() {
    let mut r = DailyReducer::new();
    assert!(r.insert(DUO));
    assert_eq!(
        r.lookup("Duotrigordle").as_deref(),
        Some("Daily Duotrigordle #123 -- 45")
    );
    assert_eq!(r.lookup("Daily Akari"), None);
}

#[test]
fn render_shows_header_lines_and_separators() {
    let mut r = DailyReducer::new();
    assert!(r.insert(AKARI));
    assert!(r.insert(DUO));
    let block = r.render_for_date(2025, 4, 1);
    assert_eq!(
        block,
        "April 1st, 2025\n\n---\n\n\
         Daily Akari \u{1f60a} -- \u{2705} Solved in 10:24 \u{2705}\n\
         Daily Duotrigordle #123 -- 45\n\n---\n\n"
    );
}

#[test]
fn render_of_empty_aggregate_keeps_the_frame() {
    let r = DailyReducer::new();
    assert_eq!(r.render_for_date(2024, 12, 22), "December 22nd, 2024\n\n---\n\n\n\n---\n\n");
}

#[test]
fn render_always_has_two_separator_lines_and_ends_blank() {
    let mut r = DailyReducer::new();
    for blurb in [AKARI, DUO, CLUES, BRACKET] {
        assert!(r.insert(blurb));
        let block = r.render_for_date(2025, 4, 1);
        assert_eq!(block.lines().filter(|l| *l == "---").count(), 2);
        assert_eq!(block.lines().last(), Some(""));
        assert!(block.ends_with("\n\n"));
    }
}

#[test]
fn forum_block_reflects_the_live_date_and_shape() {
    let mut r = DailyReducer::new();
    assert!(r.insert(CLUES));
    let block = r.to_forum_block();
    assert_eq!(block.lines().filter(|l| *l == "---").count(), 2);
    assert!(block.ends_with("\n\n"));
    assert!(block.contains("Clues by Sam -- 6/9 checks in 5:32"));
}
