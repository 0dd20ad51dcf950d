use lazier::git::{clean_lines, is_network, CommitEntry, FileEntry, LOG_LINES};

#[test]
fn a_push_keeps_the_link_and_drops_the_marks() {
    let out = "\
remote:
remote: Create a pull request for 'work' on GitHub by visiting:
remote:      https://github.com/maxmalkin/lazier/pull/new/work
remote:
To https://github.com/maxmalkin/lazier.git
 * [new branch]      work -> work
";
    assert_eq!(
        clean_lines(out),
        [
            "Create a pull request for 'work' on GitHub by visiting:",
            "https://github.com/maxmalkin/lazier/pull/new/work",
            "To https://github.com/maxmalkin/lazier.git",
            " * [new branch]      work -> work",
        ]
    );
}

#[test]
fn a_line_that_is_not_from_the_server_keeps_its_shape() {
    assert_eq!(clean_lines("error: it did not work\n"), ["error: it did not work"]);
}

#[test]
fn the_log_takes_only_the_first_lines() {
    let many: String = (0..40).map(|i| format!("line {i}\n")).collect();
    assert_eq!(clean_lines(&many).len(), LOG_LINES);
}

#[test]
fn network_commands_are_push_pull_and_fetch() {
    let v = |s: &[&str]| s.iter().map(|x| x.to_string()).collect::<Vec<_>>();
    assert!(is_network(&v(&["push", "-u"])));
    assert!(is_network(&v(&["pull"])));
    assert!(is_network(&v(&["fetch", "--all"])));
    assert!(!is_network(&v(&["commit", "push"])));
    assert!(!is_network(&v(&[])));
}

#[test]
fn a_file_entry_knows_its_columns() {
    let f = FileEntry { index: 'M', work: ' ', path: "a".into() };
    assert!(f.staged() && !f.conflicted());
    let g = FileEntry { index: ' ', work: 'U', path: "b".into() };
    assert!(!g.staged() && g.conflicted());
}

#[test]
fn a_commit_id_reads_as_text() {
    let c = CommitEntry { id: *b"0a0c001", graph: "●".into(), subject: "s".into(), author: "a".into(), time: 0 };
    assert_eq!(c.id_str(), "0a0c001");
    let bad = CommitEntry { id: [0xff; 7], graph: String::new(), subject: String::new(), author: String::new(), time: 0 };
    assert_eq!(bad.id_str(), "???????");
}
