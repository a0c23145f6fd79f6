use daily_reducer::dates::ordinal_suffix;
use daily_reducer::{classify, games, ClassifyError};

const FIXTURES: [&str; 5] = [
    "Daily Akari \u{1f60a}\nPuzzle #100\n\u{1f60a} 10:24 \u{2705}",
    "[Bracket City]\nApril 1st, 2025\nurl\n\n\u{1f4b0}\nRank: Mayor\n\u{274c} wrong guesses 2\n\nTotal Score: 98.5",
    "Daily Duotrigordle #123\nGuesses: 45",
    "Clues by Sam\n5:32\n6/9 checks",
    "I solved the daily Clues by Sam (#5) in 00:30\n4 checks",
];

#[test]
fn classify_tags_each_fixture_with_its_game() {
    let expected = [
        "Daily Akari",
        "Bracket City",
        "Duotrigordle",
        "Clues by Sam",
        "Clues by Sam",
    ];
    for (blurb, want) in FIXTURES.iter().zip(expected) {
        let (game, _) = classify(blurb).unwrap();
        assert_eq!(game, want);
    }
}

#[test]
fn classify_never_reports_ambiguity_on_known_fixtures() {
    for blurb in FIXTURES {
        assert!(classify(blurb) != Err(ClassifyError::AmbiguousMatch));
    }
}

#[test]
fn classify_rejects_unknown_text_as_no_match() {
    assert_eq!(classify("hello world"), Err(ClassifyError::NoMatch));
    assert_eq!(classify(""), Err(ClassifyError::NoMatch));
    assert_eq!(classify("   \n  "), Err(ClassifyError::NoMatch));
}

#[test]
fn classify_trims_before_matching() {
    let (game, line) = classify("\n  Daily Duotrigordle #7\nGuesses: 39  \n").unwrap();
    assert_eq!(game, "Duotrigordle");
    assert_eq!(line, "Daily Duotrigordle #7 -- 39");
}

#[test]
fn registry_lists_all_games_in_display_order() {
    let list = games();
    let names: Vec<String> = list.iter().map(|g| g.name()).collect();
    assert_eq!(
        names,
        vec!["Daily Akari", "Bracket City", "Duotrigordle", "Clues by Sam"]
    );
    let urls: Vec<String> = list.iter().map(|g| g.url()).collect();
    assert_eq!(
        urls,
        vec![
            "https://dailyakari.com/",
            "https://www.theatlantic.com/games/bracket-city/",
            "https://duotrigordle.com/",
            "https://cluesbysam.com/",
        ]
    );
}

#[test]
fn ordinal_suffixes_follow_english_rules() {
    let cases = [
        (1, "st"),
        (2, "nd"),
        (3, "rd"),
        (4, "th"),
        (11, "th"),
        (21, "st"),
        (22, "nd"),
        (23, "rd"),
        (31, "st"),
    ];
    for (day, want) in cases {
        assert_eq!(ordinal_suffix(day), want);
    }
}

#[test]
fn month_names_appear_in_rendered_headers() {
    let r = daily_reducer::DailyReducer::new();
    assert!(r.render_for_date(2025, 1, 11).starts_with("January 11th, 2025"));
    assert!(r.render_for_date(2025, 2, 2).starts_with("February 2nd, 2025"));
    assert!(r.render_for_date(2025, 9, 3).starts_with("September 3rd, 2025"));
    assert!(r.render_for_date(2025, 10, 31).starts_with("October 31st, 2025"));
}
