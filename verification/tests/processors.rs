use daily_reducer::{
    bracket_city, clues_by_sam, daily_akari, duotrigordle, BracketCity, CluesBySam, DailyAkari,
    Duotrigordle, Processor,
};

#[test]
fn akari_extracts_time_from_line_two() {
    let blurb = "Daily Akari \u{1f60a}\nPuzzle #100\n\u{1f60a} 10:24 \u{2705}";
    assert_eq!(
        daily_akari(blurb).as_deref(),
        Some("Daily Akari \u{1f60a} -- \u{2705} Solved in 10:24 \u{2705}")
    );
}

#[test]
fn akari_rejects_foreign_text() {
    assert_eq!(daily_akari("hello world"), None);
}

#[test]
fn akari_rejects_short_input() {
    assert_eq!(daily_akari("Daily Akari \u{1f60a}"), None);
    assert_eq!(daily_akari("Daily Akari \u{1f60a}\nonly one more line"), None);
}

#[test]
fn duotrigordle_joins_headline_and_guesses() {
    let blurb = "Daily Duotrigordle #123\nGuesses: 45\n32/32 boards";
    assert_eq!(
        duotrigordle(blurb).as_deref(),
        Some("Daily Duotrigordle #123 -- 45")
    );
}

#[test]
fn duotrigordle_needs_a_space_in_line_one() {
    assert_eq!(duotrigordle("Daily Duotrigordle #123\nGuesses"), None);
    assert_eq!(duotrigordle("Daily Duotrigordle #123"), None);
}

#[test]
fn clues_by_sam_short_form() {
    let blurb = "Clues by Sam\n5:32\n6/9 checks";
    assert_eq!(
        clues_by_sam(blurb).as_deref(),
        Some("Clues by Sam -- 6/9 checks in 5:32")
    );
}

#[test]
fn clues_by_sam_long_form() {
    let blurb = "I solved the daily Clues by Sam (#5) in 00:30\n4 checks";
    assert_eq!(
        clues_by_sam(blurb).as_deref(),
        Some("Clues by Sam -- 4 checks in 00:30")
    );
}

#[test]
fn clues_by_sam_forms_share_one_shape() {
    let short = clues_by_sam("Clues by Sam\n00:30\n4 checks").unwrap();
    let long = clues_by_sam("I solved the daily Clues by Sam (#5) in 00:30\n4 checks").unwrap();
    assert_eq!(short, "Clues by Sam -- 4 checks in 00:30");
    assert_eq!(short, long);
}

#[test]
fn bracket_city_collects_rank_stats_and_score() {
    let blurb = "[Bracket City]\nApril 1st, 2025\nhttps://www.theatlantic.com/games/bracket-city/\n\n\u{1f4b0}\u{1f4b0}\u{1f4b0}\nRank: Power Broker\n\u{274c} wrong guesses 2\n\u{1f440} peeks 0\n\u{1f4a1} answers revealed 0\n\nTotal Score: 98.5";
    assert_eq!(
        bracket_city(blurb).as_deref(),
        Some("Bracket City Power Broker \u{274c} 2 \u{1f440} 0 \u{1f4a1} 0 -- 98.5")
    );
}

#[test]
fn bracket_city_malformed_stat_line_fails() {
    // A stat line whose remainder has no further space cannot be split into
    // a description and a number, so extraction aborts.
    let blurb = "[Bracket City]\na\nb\nc\nd\n\u{274c} 2\n\nTotal Score: 1";
    assert_eq!(bracket_city(blurb), None);
}

#[test]
fn bracket_city_short_input_keeps_bare_name() {
    assert_eq!(bracket_city("[Bracket City]").as_deref(), Some("Bracket City"));
}

#[test]
fn processors_report_names_and_urls() {
    assert_eq!(DailyAkari.name(), "Daily Akari");
    assert_eq!(DailyAkari.url(), "https://dailyakari.com/");
    assert_eq!(BracketCity.name(), "Bracket City");
    assert_eq!(
        BracketCity.url(),
        "https://www.theatlantic.com/games/bracket-city/"
    );
    assert_eq!(Duotrigordle.name(), "Duotrigordle");
    assert_eq!(Duotrigordle.url(), "https://duotrigordle.com/");
    assert_eq!(CluesBySam.name(), "Clues by Sam");
    assert_eq!(CluesBySam.url(), "https://cluesbysam.com/");
}

#[test]
fn processors_detect_their_own_formats() {
    let akari = "Daily Akari \u{1f60a}\nx\n\u{1f60a} 1:00 \u{2705}";
    let bracket = "[Bracket City]\na\nb\nc\nd\nRank: Mayor\n\nTotal Score: 1";
    let duo = "Daily Duotrigordle #1\nGuesses: 40";
    let clues = "Clues by Sam\n1:00\n2 checks";
    assert!(DailyAkari.detect(akari) && !DailyAkari.detect(bracket));
    assert!(BracketCity.detect(bracket) && !BracketCity.detect(duo));
    assert!(Duotrigordle.detect(duo) && !Duotrigordle.detect(clues));
    assert!(CluesBySam.detect(clues) && !CluesBySam.detect(akari));
    assert!(CluesBySam.detect("I solved the daily Clues by Sam (#5) in 00:30\n4 checks"));
    assert_eq!(
        DailyAkari.process(akari).as_deref(),
        Some("Daily Akari \u{1f60a} -- \u{2705} Solved in 1:00 \u{2705}")
    );
    assert_eq!(BracketCity.process(duo), None);
}
