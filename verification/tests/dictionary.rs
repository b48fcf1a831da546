use wordle::{parse_entry, Solver, Statistics};

#[test]
fn a_line_holds_a_word_and_its_count() {
    let entry = parse_entry("tares 12345").unwrap();
    assert_eq!(entry.word, "tares");
    assert_eq!(entry.count, 12345);
    let entry = parse_entry("zzzzz 0").unwrap();
    assert_eq!(entry.word, "zzzzz");
    assert_eq!(entry.count, 0);
    let entry = parse_entry("crate 007").unwrap();
    assert_eq!(entry.count, 7);
    let entry = parse_entry("crate +42").unwrap();
    assert_eq!(entry.count, 42);
}

#[test]
fn the_largest_count_is_read_and_the_next_is_not() {
    let entry = parse_entry("tares 18446744073709551615").unwrap();
    assert_eq!(entry.count, u64::MAX);
    assert!(parse_entry("tares 18446744073709551616").is_none());
    assert!(parse_entry("tares 18446744073709551620").is_none());
    assert!(parse_entry("tares 99999999999999999999999").is_none());
    let entry = parse_entry("tares 00000000000000000000000001").unwrap();
    assert_eq!(entry.count, 1);
}

#[test]
fn other_lines_hold_nothing() {
    for line in [
        "",
        "tares",
        "tares ",
        "tares +",
        "tares  5",
        "tares 5 ",
        "tares 5x",
        "tares -5",
        "tares 1_000",
        "tares\t5",
        "tare 5",
        "taress 5",
        "Tares 5",
        "tar s 5",
        "tarés 5",
        " tares 5",
        "tares 5\r",
        "tares ++5",
        "tares ５",
    ] {
        assert!(parse_entry(line).is_none(), "{line:?}");
    }
}

#[test]
fn parsed_lines_make_a_dictionary() {
    let text = "abcde 40\ntares 900\ncrate 700\n";
    let mut entries = Vec::new();
    for line in text.lines() {
        entries.push(parse_entry(line).unwrap());
    }
    let solver = Solver::new(entries);
    assert_eq!(solver.len(), 3);
    assert_eq!(solver.candidate(0).word, "tares");
    assert_eq!(solver.candidate(1).word, "crate");
    assert_eq!(solver.candidate(2).word, "abcde");
    assert_eq!(solver.total_count(), 1640);
}

#[test]
fn a_new_tally_is_empty() {
    let stats = Statistics::new();
    assert_eq!(stats.games_played(), 0);
    assert_eq!(stats.total_score(), 0);
    assert!(stats.counts().is_empty());
}

#[test]
fn games_are_counted_by_their_turns() {
    let mut stats = Statistics::new();
    assert!(stats.record(3));
    assert_eq!(stats.counts(), &[0, 0, 0, 1]);
    assert!(stats.record(5));
    assert_eq!(stats.counts(), &[0, 0, 0, 1, 0, 1]);
    assert!(stats.record(3));
    assert!(stats.record(1));
    assert_eq!(stats.counts(), &[0, 1, 0, 2, 0, 1]);
    assert_eq!(stats.games_played(), 4);
    assert_eq!(stats.total_score(), 12);
    assert_eq!(stats.counts().iter().sum::<usize>(), stats.games_played());
}

#[test]
fn a_game_that_would_overflow_the_score_is_not_counted() {
    let mut stats = Statistics::new();
    assert!(stats.record(2));
    assert!(!stats.record(usize::MAX - 1));
    assert!(!stats.record(usize::MAX));
    assert_eq!(stats.games_played(), 1);
    assert_eq!(stats.total_score(), 2);
    assert_eq!(stats.counts(), &[0, 0, 1]);
}
