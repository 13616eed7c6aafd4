use freenet_search::presentation::{
    format_subscribers, highlight_snippet, plural, relative_time, truncate_key,
};

fn terms(words: &[&str]) -> Vec<String> {
    words.iter().map(|w| w.to_string()).collect()
}

#[test]
fn highlight_marks_matching_words() {
    let shown = highlight_snippet("hello world", &terms(&["world"]));
    assert_eq!(shown, "hello <mark>world</mark>");
}

#[test]
fn highlight_normalizes_before_matching() {
    let shown = highlight_snippet("The Caf\u{00E9}, again", &terms(&["cafe"]));
    assert_eq!(shown, "The <mark>Caf\u{00E9}</mark>, again");
}

#[test]
fn highlight_marks_every_occurrence() {
    let shown = highlight_snippet("fox and fox.", &terms(&["fox"]));
    assert_eq!(shown, "<mark>fox</mark> and <mark>fox</mark>.");
}

#[test]
fn highlight_without_terms_or_text_changes_nothing() {
    assert_eq!(highlight_snippet("hello world", &[]), "hello world");
    assert_eq!(highlight_snippet("", &terms(&["x"])), "");
}

#[test]
fn highlight_without_match_keeps_text() {
    assert_eq!(
        highlight_snippet("hello, world!", &terms(&["absent"])),
        "hello, world!"
    );
}

#[test]
fn highlight_cuts_long_text_at_the_start() {
    let snippet = "word ".repeat(100);
    let shown = highlight_snippet(&snippet, &terms(&["zzz"]));
    assert_eq!(shown, format!("{}...", "word ".repeat(60)));
}

#[test]
fn highlight_cuts_long_text_around_the_first_match() {
    let snippet = format!("{}match{}", "a ".repeat(200), " b".repeat(200));
    let shown = highlight_snippet(&snippet, &terms(&["match"]));
    let expected = format!(
        "...{}<mark>match</mark>{}...",
        "a ".repeat(75),
        " b".repeat(66)
    );
    assert_eq!(shown, expected);
}

#[test]
fn highlight_cuts_long_text_at_the_end() {
    let snippet = format!("{}match", "a ".repeat(200));
    let shown = highlight_snippet(&snippet, &terms(&["match"]));
    // 418 bytes marked, match at byte 400: the last 300 bytes are shown.
    let expected = format!("...{}<mark>match</mark>", "a ".repeat(141));
    assert_eq!(shown, expected);
}

#[test]
fn highlight_moves_the_window_to_character_boundaries() {
    let snippet = "\u{00E9}".repeat(200);
    let shown = highlight_snippet(&snippet, &terms(&["zzz"]));
    assert_eq!(shown, format!("{}...", "\u{00E9}".repeat(150)));
}

#[test]
fn truncate_key_keeps_short_keys() {
    assert_eq!(truncate_key("short", 20), "short");
    assert_eq!(truncate_key("exactly-twenty-chars", 20), "exactly-twenty-chars");
}

#[test]
fn truncate_key_shortens_in_the_middle() {
    assert_eq!(
        truncate_key("abcdefghijklmnopqrstuvwxyz", 10),
        "abcde...vwxyz"
    );
    assert_eq!(truncate_key("abcdefghijklmnopqrstuvwxyz", 0), "...");
    assert_eq!(truncate_key("abcdefghijklmnopqrstuvwxyz", 1), "...");
}

#[test]
fn truncate_key_respects_characters() {
    // Ten characters of two bytes each.
    let key = "\u{00E9}".repeat(10);
    // Half of 5 is 2: one whole character from the start, one from the end.
    assert_eq!(truncate_key(&key, 5), "\u{00E9}...\u{00E9}");
    // Half of 6 is 3: byte 3 is inside the second character.
    assert_eq!(
        truncate_key(&key, 6),
        "\u{00E9}\u{00E9}...\u{00E9}"
    );
}

#[test]
fn time_is_told_in_the_largest_unit() {
    assert_eq!(relative_time(10_000, 10_000), "0s ago");
    assert_eq!(relative_time(69_999, 10_000), "59s ago");
    assert_eq!(relative_time(70_000, 10_000), "1m ago");
    assert_eq!(relative_time(3_609_999, 10_000), "59m ago");
    assert_eq!(relative_time(3_610_000, 10_000), "1h ago");
    assert_eq!(relative_time(86_409_999, 10_000), "23h ago");
    assert_eq!(relative_time(86_410_000, 10_000), "1d ago");
    assert_eq!(relative_time(u64::MAX, 0), "213503982334d ago");
}

#[test]
fn moment_to_come_was_no_time_ago() {
    assert_eq!(relative_time(10_000, 99_000), "0s ago");
}

#[test]
fn nouns_end_by_their_count() {
    assert_eq!(plural(0), "s");
    assert_eq!(plural(1), "");
    assert_eq!(plural(2), "s");
}

#[test]
fn subscribers_are_counted_in_words() {
    assert_eq!(format_subscribers(0), "0 subscribers");
    assert_eq!(format_subscribers(1), "1 subscriber");
    assert_eq!(format_subscribers(4_294_967_295), "4294967295 subscribers");
}
