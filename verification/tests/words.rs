use lazier::ui::words::{changed_span, words};

fn span(old: &str, new: &str) -> Option<(String, String)> {
    changed_span(old, new)
        .map(|s| (old[s.old.0..s.old.1].to_string(), new[s.new.0..s.new.1].to_string()))
}

#[test]
fn finds_one_word_in_the_middle() {
    assert_eq!(
        span("let value = compute(a, b);", "let value = derive(a, b);"),
        Some(("compute".into(), "derive".into()))
    );
}

#[test]
fn finds_a_change_at_the_end() {
    assert_eq!(span("count = 1", "count = 20"), Some(("1".into(), "20".into())));
}

#[test]
fn finds_a_change_at_the_start() {
    assert_eq!(
        span("old_name.run()", "new_name.run()"),
        Some(("old_name".into(), "new_name".into()))
    );
}

#[test]
fn finds_added_text() {
    // Nothing goes away, thus the old side is empty.
    assert_eq!(span("fn run()", "fn run() -> bool"), Some(("".into(), " -> bool".into())));
}

#[test]
fn gives_nothing_when_the_lines_share_nothing() {
    assert!(span("alpha beta", "gamma delta").is_none());
}

#[test]
fn gives_nothing_for_equal_lines() {
    assert!(span("same", "same").is_none());
}

#[test]
fn words_split_at_punctuation_and_count_bytes() {
    assert_eq!(words("ab, c"), vec![(0, 2), (2, 3), (3, 4), (4, 5)]);
    // A letter of two bytes keeps the byte positions right.
    assert_eq!(words("é x"), vec![(0, 2), (2, 3), (3, 4)]);
    assert_eq!(words(""), vec![]);
}

#[test]
fn a_word_of_other_scripts_counts_as_a_word() {
    assert_eq!(span("größe = 1", "größe = 2"), Some(("1".into(), "2".into())));
}

#[test]
fn the_text_around_a_change_is_the_same_in_both_lines() {
    let (old, new) = ("size = width * 3 + pad;", "size = height * 3 + pad;");
    let s = changed_span(old, new).unwrap();
    assert_eq!(&old[..s.old.0], &new[..s.new.0]);
    assert_eq!(&old[s.old.1..], &new[s.new.1..]);
    assert_eq!(&old[s.old.0..s.old.1], "width");
    assert_eq!(&new[s.new.0..s.new.1], "height");
}

#[test]
fn the_changed_span_cuts_no_character_in_two() {
    let (old, new) = ("größe = ä", "größe = äöü");
    let s = changed_span(old, new).unwrap();
    for i in [s.old.0, s.old.1] {
        assert!(old.is_char_boundary(i));
    }
    for i in [s.new.0, s.new.1] {
        assert!(new.is_char_boundary(i));
    }
    assert_eq!(&old[..s.old.0], &new[..s.new.0]);
    assert_eq!(&old[s.old.1..], &new[s.new.1..]);
}
