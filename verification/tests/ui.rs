use lazier::ui::{
    centered, graph_colors, hint_line_width, line_kind, list_offset, mark_tone, wrapped_rows,
    LineKind, Rect, Tone,
};

#[test]
fn a_box_in_the_middle() {
    let area = Rect { x: 0, y: 1, width: 100, height: 30 };
    assert!(centered(area, 60, 10) == Rect { x: 20, y: 11, width: 60, height: 10 });
    assert!(centered(area, 200, 50) == area);
}

#[test]
fn the_selection_stays_in_view() {
    assert_eq!(list_offset(0, 10, 100), 0);
    assert_eq!(list_offset(9, 10, 100), 0);
    assert_eq!(list_offset(10, 10, 100), 1);
    assert_eq!(list_offset(99, 10, 100), 90);
    assert_eq!(list_offset(5, 10, 3), 0);
}

#[test]
fn lanes_have_colors() {
    let c = graph_colors("●─╮ │");
    let lanes: Vec<usize> = c.iter().map(|x| x.1).collect();
    assert_eq!(lanes, [0, 0, 1, 1, 2]);
    assert_eq!(graph_colors(&"x".repeat(14))[13].1, 0);
}

#[test]
fn marks_have_tones() {
    assert!(mark_tone('A') == Tone::Green);
    assert!(mark_tone('C') == Tone::Magenta);
    assert!(mark_tone('U') == Tone::LightRed);
    assert!(mark_tone('?') == Tone::DarkGray);
}

#[test]
fn kinds_of_diff_lines() {
    assert!(line_kind("--- a/x") == LineKind::Header);
    assert!(line_kind("+++ b/x") == LineKind::Header);
    assert!(line_kind("-gone") == LineKind::Removed);
    assert!(line_kind("+new") == LineKind::Added);
    assert!(line_kind("@@ -1 +1 @@") == LineKind::Hunk);
    assert!(line_kind("Author: x") == LineKind::Meta);
    assert!(line_kind(" context") == LineKind::Plain);
}

#[test]
fn long_lines_wrap() {
    assert_eq!(wrapped_rows("", 10), 1);
    assert_eq!(wrapped_rows("abcdefghij", 10), 1);
    assert_eq!(wrapped_rows("abcdefghijk", 10), 2);
}

fn hints(pairs: &[(&str, &str)]) -> Vec<(String, String)> {
    pairs.iter().map(|(k, d)| (k.to_string(), d.to_string())).collect()
}

#[test]
fn hints_that_do_not_fit_stay_out() {
    let groups = vec![hints(&[("a", "Stage all"), ("c", "Commit")]), hints(&[("q", "Quit")])];
    // "Stage all: a" is 12, " | Commit: c" is 12 more, " | Quit: q" 10 more.
    let (shown, dropped) = hint_line_width(&groups, 100);
    assert_eq!(shown.len(), 3);
    assert!(!dropped);
    let (shown, dropped) = hint_line_width(&groups, 26);
    assert_eq!(shown.len(), 2);
    assert!(dropped);
    // The first group ends at the hint that does not fit; a short hint of
    // the next group still comes.
    let groups = vec![hints(&[("a", "Stage all"), ("x", "A very long description")]), hints(&[("q", "Quit")])];
    let (shown, dropped) = hint_line_width(&groups, 30);
    let keys: Vec<&str> = shown.iter().map(|h| h.0.as_str()).collect();
    assert_eq!(keys, ["a", "q"]);
    assert!(dropped);
    let (shown, _) = hint_line_width(&groups, 0);
    assert!(shown.is_empty());
}


#[test]
fn the_hint_bar_never_runs_off_the_screen() {
    let groups: Vec<Vec<(String, String)>> = vec![
        vec![("<space>".into(), "Stage".into()), ("a".into(), "Stage all".into()), ("c".into(), "Commit".into())],
        vec![("?".into(), "Keys".into()), ("q".into(), "Quit".into())],
    ];
    for width in 2..80usize {
        let (shown, _) = hint_line_width(&groups, width);
        let used: usize = shown
            .iter()
            .enumerate()
            .map(|(i, (k, d))| if i == 0 { 0 } else { 3 } + d.len() + 2 + k.len())
            .sum();
        assert!(used <= width - 2, "width {width} used {used}");
    }
}
