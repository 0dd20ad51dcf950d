use lazier::git::patch::{hunk_patch, split_diff, subset_hunk};

#[test]
fn subset_keeps_only_the_selected_change() {
    // Two added lines. The user takes the second one only.
    let hunk = "@@ -1,2 +1,4 @@\n line one\n+added A\n+added B\n line two\n";
    let out = subset_hunk(hunk, &[2]).unwrap();
    assert_eq!(out, "@@ -1,2 +1,3 @@\n line one\n+added B\n line two\n");
}

#[test]
fn a_removal_that_is_not_selected_becomes_context() {
    // Two removed lines. The user takes the first one only. The second
    // line must stay in the file.
    let hunk = "@@ -1,3 +1,1 @@\n keep\n-gone A\n-gone B\n";
    let out = subset_hunk(hunk, &[1]).unwrap();
    assert_eq!(out, "@@ -1,3 +1,2 @@\n keep\n-gone A\n gone B\n");
}

#[test]
fn a_subset_with_no_change_gives_nothing() {
    let hunk = "@@ -1,2 +1,3 @@\n line one\n+added A\n line two\n";
    assert!(subset_hunk(hunk, &[]).is_none());
}

#[test]
fn a_missing_end_of_line_note_stays() {
    let hunk = "@@ -1 +1 @@\n-old\n+new\n\\ No newline at end of file\n";
    let out = subset_hunk(hunk, &[0, 1]).unwrap();
    assert_eq!(out, "@@ -1,1 +1,1 @@\n-old\n+new\n\\ No newline at end of file\n");
}

#[test]
fn a_hunk_with_a_bad_header_gives_nothing() {
    assert!(subset_hunk("@@ x @@\n+a\n", &[0]).is_none());
    assert!(subset_hunk("", &[0]).is_none());
    assert!(subset_hunk("not a hunk\n+a\n", &[0]).is_none());
}

#[test]
fn split_finds_the_header_and_each_hunk() {
    let diff = "diff --git a/f b/f\n--- a/f\n+++ b/f\n@@ -1 +1 @@\n-a\n+b\n@@ -9 +9 @@\n-c\n+d\n";
    let (header, hunks) = split_diff(diff).unwrap();
    assert_eq!(header, "diff --git a/f b/f\n--- a/f\n+++ b/f\n");
    assert_eq!(hunks, vec!["@@ -1 +1 @@\n-a\n+b\n".to_string(), "@@ -9 +9 @@\n-c\n+d\n".to_string()]);
    // The header and the hunks give the text back.
    assert_eq!(format!("{header}{}", hunks.concat()), diff);
}

#[test]
fn split_of_a_text_with_no_hunk_gives_nothing() {
    assert!(split_diff("diff --git a/f b/f\nBinary files differ\n").is_none());
    assert!(split_diff("@@ -1 +1 @@\n").is_none());
}

#[test]
fn a_patch_ends_with_an_end_of_line() {
    assert_eq!(hunk_patch("h\n", "@@ x\n+a"), "h\n@@ x\n+a\n");
    assert_eq!(hunk_patch("h\n", "@@ x\n+a\n"), "h\n@@ x\n+a\n");
    assert_eq!(hunk_patch("", ""), "\n");
}

#[test]
fn a_partial_hunk_always_expects_the_same_old_lines() {
    let hunk = "@@ -4,3 +4,3 @@\n ctx\n-old A\n-old B\n+new A\n+new B\n";
    let mut olds = Vec::new();
    for sel in [&[1usize][..], &[2], &[3], &[1, 3], &[0, 1, 2, 3, 4]] {
        let out = subset_hunk(hunk, sel).unwrap();
        let header = out.lines().next().unwrap().to_string();
        olds.push(header.split(' ').nth(1).unwrap().to_string());
    }
    assert!(olds.iter().all(|o| o == "-4,3"));
    assert!(subset_hunk(hunk, &[]).is_none());
}

// The diff that git gives for a file of six lines where lines 2, 3 and 4
// changed: one hunk holds all three.
const THREE_CHANGES: &str = "diff --git a/f.txt b/f.txt\nindex 1f2a4a5..7c2b9e1 100644\n--- a/f.txt\n+++ b/f.txt\n@@ -1,6 +1,6 @@\n line 1\n-line 2\n-line 3\n-line 4\n+line 2 CHANGED\n+line 3 CHANGED\n+line 4 CHANGED\n line 5\n line 6\n";

#[test]
fn staging_one_line_of_three_leaves_the_others_out() {
    let (header, hunks) = split_diff(THREE_CHANGES).unwrap();
    assert_eq!(hunks.len(), 1);
    let body: Vec<&str> = hunks[0].lines().skip(1).collect();
    let minus3 = body.iter().position(|l| *l == "-line 3").unwrap();
    let plus3 = body.iter().position(|l| *l == "+line 3 CHANGED").unwrap();
    let subset = subset_hunk(&hunks[0], &[minus3, plus3]).unwrap();
    assert_eq!(
        subset,
        "@@ -1,6 +1,6 @@\n line 1\n line 2\n-line 3\n line 4\n+line 3 CHANGED\n line 5\n line 6\n"
    );
    let patch = hunk_patch(&header, &subset);
    assert!(patch.contains("+line 3 CHANGED"));
    assert!(!patch.contains("+line 2 CHANGED") && !patch.contains("+line 4 CHANGED"));
}

#[test]
fn one_hunk_of_two_makes_its_own_patch() {
    let diff = "diff --git a/f.txt b/f.txt\nindex 3b18e51..8d1c2a0 100644\n--- a/f.txt\n+++ b/f.txt\n@@ -1,5 +1,5 @@\n line 1\n-line 2\n+line 2 CHANGED\n line 3\n line 4\n line 5\n@@ -15,6 +15,6 @@\n line 15\n line 16\n line 17\n-line 18\n+line 18 CHANGED\n line 19\n line 20\n";
    let (header, hunks) = split_diff(diff).unwrap();
    assert_eq!(hunks.len(), 2);
    let patch = hunk_patch(&header, &hunks[0]);
    assert_eq!(patch, format!("{header}{}", hunks[0]));
    assert!(patch.contains("line 2 CHANGED"));
    assert!(!patch.contains("line 18 CHANGED"));
}

#[test]
fn selecting_every_line_gives_the_hunk_back() {
    let hunk = "@@ -4,3 +4,4 @@\n ctx\n-old\n+new\n+more\n tail\n";
    let all: Vec<usize> = (0..5).collect();
    assert_eq!(subset_hunk(hunk, &all).as_deref(), Some(hunk));
    let note = "@@ -1,1 +1,1 @@\n-a\n+b\n\\ No newline at end of file\n";
    let all: Vec<usize> = (0..3).collect();
    assert_eq!(subset_hunk(note, &all).as_deref(), Some(note));
}
