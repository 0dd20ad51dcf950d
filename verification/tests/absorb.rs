use lazier::git::absorb::{
    apply_note, blame_range, blame_target, changed_lines, commit_note, count_of, file_of, fits,
    fixup_arg, hunk_jobs, may_take_id, nothing_made, old_range, oldest_target, rebase_base,
    rebase_failed, since_arg, split_files, summary, Absorb,
};

#[test]
fn reads_the_old_range_of_a_hunk() {
    assert_eq!(old_range("@@ -12,5 +12,7 @@\n ctx\n"), Some((12, 5)));
    // No count means one line.
    assert_eq!(old_range("@@ -3 +3,2 @@\n ctx\n"), Some((3, 1)));
    // A hunk that only adds lines has a count of zero.
    assert_eq!(old_range("@@ -7,0 +8,3 @@\n+a\n"), Some((7, 0)));
}

#[test]
fn a_text_that_is_no_hunk_has_no_range() {
    assert_eq!(old_range(""), None);
    assert_eq!(old_range("diff --git a/x b/x\n"), None);
    assert_eq!(old_range("@@ +1,2 -1 @@\n"), None);
    assert_eq!(old_range("@@ -x,2 +1 @@\n"), None);
    // A count that is no number counts as one line.
    assert_eq!(old_range("@@ -4,y +4 @@\n"), Some((4, 1)));
}

// Only the lines that change may vote. Context lines belong to older
// commits and would win by number alone.
#[test]
fn only_the_changed_lines_count() {
    let hunk = "@@ -1,3 +1,3 @@\n ctx one\n-old two\n+new two\n ctx three\n";
    assert_eq!(changed_lines(hunk), vec![2]);
}

#[test]
fn several_removed_lines_all_count() {
    let hunk = "@@ -10,4 +10,3 @@\n ctx\n-a\n-b\n+c\n ctx\n";
    assert_eq!(changed_lines(hunk), vec![11, 12]);
}

#[test]
fn a_hunk_that_only_adds_takes_the_line_above() {
    let hunk = "@@ -5,2 +5,3 @@\n ctx five\n+added\n ctx six\n";
    assert_eq!(changed_lines(hunk), vec![5]);
}

#[test]
fn an_add_at_the_top_takes_the_first_line() {
    let hunk = "@@ -1,2 +1,3 @@\n+new top\n ctx one\n ctx two\n";
    assert_eq!(changed_lines(hunk), vec![1]);
    let hunk = "@@ -0,0 +1,1 @@\n+only\n";
    assert_eq!(changed_lines(hunk), vec![1]);
}

#[test]
fn the_note_about_a_missing_end_of_line_moves_nothing() {
    let hunk = "@@ -3,2 +3,2 @@\n ctx\n-old\n\\ No newline at end of file\n+new\n";
    assert_eq!(changed_lines(hunk), vec![4]);
}

#[test]
fn a_hunk_with_no_header_changes_nothing() {
    assert_eq!(changed_lines("no header\n-a\n"), Vec::<u32>::new());
}

#[test]
fn line_numbers_past_the_limit_do_not_fit() {
    assert!(fits("@@ -10,4 +10,3 @@\n ctx\n-a\n"));
    assert!(!fits("@@ -4294967295 +1 @@\n ctx\n-a\n"));
    assert!(fits("not a hunk"));
}

#[test]
fn splits_a_diff_by_file() {
    let diff = "diff --git a/x b/x\n--- a/x\n+++ b/x\n@@ -1 +1 @@\n-a\n+b\n\
                diff --git a/y b/y\n--- a/y\n+++ b/y\n@@ -1 +1 @@\n-c\n+d\n";
    let parts = split_files(diff);
    assert_eq!(parts.len(), 2);
    assert_eq!(file_of(&parts[0]).as_deref(), Some("x"));
    assert_eq!(file_of(&parts[1]).as_deref(), Some("y"));
}

#[test]
fn each_block_ends_its_lines() {
    let parts = split_files("diff --git a/x b/x\n+++ b/x\ndiff --git a/y b/y");
    assert_eq!(parts, vec!["diff --git a/x b/x\n+++ b/x\n", "diff --git a/y b/y\n"]);
    assert!(split_files("").is_empty());
    assert_eq!(file_of("--- a/x\n"), None);
}

const ID_A: &str = "aaaaaaa111111111111111111111111111111111";
const ID_B: &str = "bbbbbbb222222222222222222222222222222222";

fn blame_out() -> String {
    format!(
        "{ID_A} 1 10 2\nauthor A\n\tline ten\n{ID_A} 2 11\n\tline eleven\n\
         {ID_B} 5 12 1\nauthor B\n\tline twelve\n"
    )
}

#[test]
fn the_commit_with_most_lines_wins() {
    assert_eq!(blame_target(&blame_out(), &[10, 11, 12]).as_deref(), Some(ID_A));
    assert_eq!(blame_target(&blame_out(), &[12]).as_deref(), Some(ID_B));
    // A tie goes to the commit that the earlier line names.
    assert_eq!(blame_target(&blame_out(), &[12, 10]).as_deref(), Some(ID_B));
    assert_eq!(blame_target(&blame_out(), &[10, 12]).as_deref(), Some(ID_A));
}

#[test]
fn lines_blame_does_not_name_have_no_vote() {
    assert_eq!(blame_target(&blame_out(), &[99]), None);
    assert_eq!(blame_target(&blame_out(), &[]), None);
    // A short id is no header.
    assert_eq!(blame_target("abc 1 1 1\n", &[1]), None);
}

#[test]
fn the_range_spans_the_lines() {
    assert_eq!(blame_range(&[12, 3, 40, 7]), Some((3, 40)));
    assert_eq!(blame_range(&[5]), Some((5, 5)));
    assert_eq!(blame_range(&[]), None);
}

#[test]
fn only_your_own_commits_may_take() {
    let own = vec!["aaaaaaa".to_string()];
    assert!(may_take_id(&own, &ID_A.to_string()));
    assert!(!may_take_id(&own, &ID_B.to_string()));
}

fn staged() -> String {
    "diff --git a/x b/x\nindex 1..2 100644\n--- a/x\n+++ b/x\n\
     @@ -10,2 +10,2 @@\n ctx\n-a\n+b\n\
     @@ -12,1 +12,2 @@\n ctx\n+c\n"
        .to_string()
}

#[test]
fn each_hunk_of_each_file_is_a_job() {
    let jobs = hunk_jobs(&staged());
    assert_eq!(jobs.len(), 2);
    let first = jobs[0].as_ref().unwrap();
    assert_eq!(first.file, "x");
    assert_eq!(first.header, "diff --git a/x b/x\nindex 1..2 100644\n--- a/x\n+++ b/x\n");
    assert_eq!(first.hunk, "@@ -10,2 +10,2 @@\n ctx\n-a\n+b\n");
    assert_eq!(first.lines, vec![11]);
    assert_eq!(jobs[1].as_ref().unwrap().lines, vec![12]);
}

#[test]
fn an_empty_stage_has_nothing_to_send() {
    assert_eq!(
        Absorb::start(" \n").err().as_deref(),
        Some("stage the changes you want to send back first")
    );
}

#[test]
fn the_hunks_go_to_the_commits_that_wrote_them() {
    let own = vec!["aaaaaaa".to_string()];
    let mut work = Absorb::start(&staged()).unwrap();
    let (file, lo, hi) = work.question().unwrap();
    assert_eq!((file.as_str(), lo, hi), ("x", 11, 11));
    let out = format!("{ID_A} 1 11 1\n\tline\n");
    work.answer(Some(&out), &own);
    assert!(work.question().is_some());
    // Blame names a commit that is not yours: the hunk stays.
    let out = format!("{ID_B} 1 12 1\n\tline\n");
    work.answer(Some(&out), &own);
    assert_eq!(work.question(), None);
    assert_eq!(work.skipped, 1);
    assert_eq!(work.groups.len(), 1);
    assert_eq!(work.groups[0].target, ID_A);
    assert_eq!(work.groups[0].hunks, 1);
    assert_eq!(
        work.groups[0].patch,
        "diff --git a/x b/x\nindex 1..2 100644\n--- a/x\n+++ b/x\n@@ -10,2 +10,2 @@\n ctx\n-a\n+b\n"
    );
    assert_eq!(work.total(), 1);
    assert!(work.check().is_ok());
}

#[test]
fn two_hunks_of_one_commit_share_a_group() {
    let own = vec!["aaaaaaa".to_string()];
    let mut work = Absorb::start(&staged()).unwrap();
    while let Some((_, lo, _)) = work.question() {
        let out = format!("{ID_A} 1 {lo} 1\n\tline\n");
        work.answer(Some(&out), &own);
    }
    assert_eq!(work.groups.len(), 1);
    assert_eq!(work.groups[0].hunks, 2);
    assert_eq!(work.total(), 2);
    assert!(work.groups[0].patch.ends_with("+++ b/x\n@@ -12,1 +12,2 @@\n ctx\n+c\n"));
}

#[test]
fn no_group_means_nothing_to_do() {
    let mut work = Absorb::start(&staged()).unwrap();
    while work.question().is_some() {
        work.answer(None, &[]);
    }
    assert_eq!(work.skipped, 2);
    assert_eq!(
        work.check().err().as_deref(),
        Some("no change belongs to a commit that is still yours to change")
    );
}

#[test]
fn the_notes_name_the_short_commit() {
    assert_eq!(apply_note(ID_A, "boom"), "could not apply the changes for aaaaaaa: boom");
    assert_eq!(commit_note(ID_B, "no"), "could not commit for bbbbbbb: no");
    assert_eq!(fixup_arg("abc"), "--fixup=abc");
    assert_eq!(since_arg("abc"), "abc..HEAD");
    assert_eq!(rebase_base("abc"), "abc^");
}

#[test]
fn the_last_note_tells_why_nothing_was_made() {
    assert_eq!(nothing_made(&["a".to_string(), "b".to_string()]), "b");
    assert_eq!(nothing_made(&[]), "nothing was absorbed");
}

#[test]
fn the_count_of_commits_is_read_or_zero() {
    assert_eq!(count_of(Some(" 42\n")), 42);
    assert_eq!(count_of(Some("many")), 0);
    assert_eq!(count_of(None), 0);
}

#[test]
fn the_oldest_commit_has_the_most_after_it() {
    let counts = vec![(3, "a".to_string()), (7, "b".to_string()), (7, "c".to_string()), (1, "d".to_string())];
    assert_eq!(oldest_target(&counts), "c");
    assert_eq!(oldest_target(&[]), "");
}

#[test]
fn a_stopped_rebase_says_so_first() {
    let notes = vec!["could not commit for aaaaaaa: x".to_string()];
    assert_eq!(
        rebase_failed(&notes, "error: one\nhint: two\nhint: three\nhint: four\n"),
        "the fixup commits are there, but the rebase stopped; could not commit for aaaaaaa: x; \
         error: one hint: two hint: three"
    );
}

#[test]
fn the_summary_counts_changes_and_commits() {
    assert_eq!(summary(3, 2, 0, &[]), vec!["3 changes went back into 2 commits"]);
    assert_eq!(
        summary(1, 1, 2, &["note".to_string()]),
        vec![
            "1 changes went back into 1 commits",
            "2 changes stayed, because no commit of yours holds those lines",
            "note"
        ]
    );
}
