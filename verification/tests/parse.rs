use lazier::git::parse::{
    parse_blame, parse_branches, parse_reflog, parse_submodules, parse_worktrees, short_age,
    short_ids, submodule_lines_ok, sync_counts, track_count, upstream_of, ymd,
};

#[test]
fn dates_of_the_calendar() {
    assert_eq!(ymd(0), "1970-01-01");
    assert_eq!(ymd(86_399), "1970-01-01");
    assert_eq!(ymd(86_400), "1970-01-02");
    assert_eq!(ymd(951_782_400), "2000-02-29");
    assert_eq!(ymd(1_753_000_000), "2025-07-20");
    assert_eq!(ymd(u32::MAX), "2106-02-07");
}

#[test]
fn ages_are_short() {
    assert_eq!(short_age("3 days ago"), "3d");
    assert_eq!(short_age("2 years, 3 months ago"), "2y");
    assert_eq!(short_age("just now"), "now");
    assert_eq!(short_age("5"), "");
    assert_eq!(short_age(""), "");
}

#[test]
fn track_counts() {
    assert_eq!(track_count("[ahead 2, behind 1]", "ahead "), 2);
    assert_eq!(track_count("[ahead 2, behind 13]", "behind "), 13);
    assert_eq!(track_count("[gone]", "ahead "), 0);
    assert_eq!(track_count("", "behind "), 0);
}

#[test]
fn the_current_branch_goes_first() {
    let out = "feature\t \t[ahead 2]\t3 days ago\trefs/heads/feature\n\
               main\t*\t[ahead 1, behind 4]\t2 weeks ago\trefs/heads/main\n\
               old\t \t[gone]\t1 year ago\trefs/heads/old\n";
    let list = parse_branches(out);
    let names: Vec<&str> = list.iter().map(|b| b.name.as_str()).collect();
    assert_eq!(names, ["main", "feature", "old"]);
    assert!(list[0].current && !list[1].current);
    assert_eq!((list[0].ahead, list[0].behind), (1, 4));
    assert_eq!(list[0].age, "2w");
    assert!(list[2].gone);
    assert!(!list[0].remote);
}

#[test]
fn a_remote_branch_is_marked() {
    let list = parse_branches("origin/x\t\t\t\trefs/remotes/origin/x\n");
    assert!(list[0].remote);
    assert_eq!(list[0].age, "");
}

#[test]
fn blame_rows_carry_the_header_before_them() {
    let id = "0123456789abcdef0123456789abcdef01234567";
    let text = format!(
        "{id} 1 1 2\nauthor Ann\nauthor-time 86400\nauthor-tz +0000\n\tfirst line\n\
         {id} 2 2\n\tsecond line\n"
    );
    let rows = parse_blame(&text);
    assert_eq!(rows.len(), 2);
    assert_eq!(rows[0].id, "0123456");
    assert_eq!(rows[0].author, "Ann");
    assert_eq!(rows[0].date, "1970-01-02");
    assert_eq!(rows[0].text, "first line");
    assert_eq!(rows[1].text, "second line");
    assert_eq!(rows[1].author, "Ann");
}

#[test]
fn submodules_and_their_marks() {
    let out = " 1234567890 lib/a (v1)\n-abcdef0123 lib/b\n+99999999aa lib/c (heads/main)\nbad\n";
    assert!(submodule_lines_ok(out));
    let list = parse_submodules(out);
    assert_eq!(list.len(), 3);
    assert_eq!((list[0].state, list[0].id.as_str(), list[0].path.as_str()), (' ', "1234567", "lib/a"));
    assert_eq!(list[1].state, '-');
    assert_eq!(list[2].state, '+');
    assert!(!submodule_lines_ok("→x y\n"));
}

#[test]
fn reflog_rows() {
    let out = "abc1234\tHEAD@{0}\tcommit: one\nabc1235\tHEAD@{1}\nlonely\n";
    let list = parse_reflog(out);
    assert_eq!(list.len(), 2);
    assert_eq!(list[0].what, "commit: one");
    assert_eq!(list[1].at, "HEAD@{1}");
    assert_eq!(list[1].what, "");
}

#[test]
fn worktree_blocks() {
    let out = "worktree /repo\nHEAD abc\nbranch refs/heads/main\n\n\
               worktree /repo-x\nHEAD def\ndetached\nlocked\n\n\
               worktree /bare\nbare\nprunable gitdir file points to non-existent location\n";
    let list = parse_worktrees(out);
    assert_eq!(list.len(), 3);
    assert_eq!((list[0].path.as_str(), list[0].branch.as_str()), ("/repo", "main"));
    assert!(list[0].main && !list[1].main);
    assert_eq!(list[1].branch, "(detached)");
    assert!(list[1].locked);
    assert_eq!(list[2].branch, "(bare)");
    assert!(list[2].prunable);
    assert!(list.iter().all(|w| !w.current));
}

#[test]
fn sync_state_from_rev_list() {
    assert_eq!(sync_counts(Some("3\t5\n")), (3, 5));
    assert_eq!(sync_counts(Some("x\t5")), (0, 5));
    assert_eq!(sync_counts(Some("7")), (0, 0));
    assert_eq!(sync_counts(None), (0, 0));
    assert_eq!(short_ids(Some("abcdef123\n0123456\n")), vec!["abcdef1", "0123456"]);
    assert!(short_ids(None).is_empty());
    assert_eq!(upstream_of(Some(" origin/main\n")).as_deref(), Some("origin/main"));
    assert_eq!(upstream_of(Some("\n")), None);
}

#[test]
fn each_unpushed_id_comes_once() {
    assert_eq!(short_ids(Some("abcdef123\n0123456\nabcdef1\n")), vec!["abcdef1", "0123456"]);
}
