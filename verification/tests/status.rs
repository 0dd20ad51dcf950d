use lazier::git::status::{
    commit_entry, group_tags, stash_rows, status_rows, tree_mark, worktree_mark, Change, Side, Summary,
    TreeChange,
};

fn change(path: &str, side: Side, mark: char) -> Change {
    Change { path: path.into(), side, mark }
}

#[test]
fn one_row_for_each_path_in_path_order() {
    let cs = vec![
        change("b.txt", Side::Work, 'M'),
        change("a.txt", Side::Index, 'A'),
        change("b.txt", Side::Index, 'M'),
        change("c.txt", Side::Work, '?'),
    ];
    let rows = status_rows(&cs);
    let shown: Vec<(char, char, &str)> = rows.iter().map(|f| (f.index, f.work, f.path.as_str())).collect();
    assert_eq!(shown, [('A', ' ', "a.txt"), ('M', 'M', "b.txt"), (' ', '?', "c.txt")]);
    assert!(status_rows(&vec![]).is_empty());
}

#[test]
fn the_marks_of_each_change() {
    assert_eq!(worktree_mark(true, Some(Summary::Added)), '?');
    assert_eq!(worktree_mark(false, Some(Summary::Added)), 'A');
    assert_eq!(worktree_mark(false, Some(Summary::IntentToAdd)), 'A');
    assert_eq!(worktree_mark(false, Some(Summary::Conflict)), 'U');
    assert_eq!(worktree_mark(false, None), '?');
    assert_eq!(tree_mark(TreeChange::Rewrite), 'R');
    assert_eq!(tree_mark(TreeChange::Deletion), 'D');
}

#[test]
fn stash_rows_are_numbered() {
    let rows = stash_rows(&vec!["WIP on main".to_string(), "On dev: x".to_string()]);
    assert_eq!(rows, vec!["stash@{0}: WIP on main", "stash@{1}: On dev: x"]);
}

#[test]
fn a_commit_row_from_the_walk() {
    let c = commit_entry("abcdef0123", "●".into(), "subject".into(), "Ann".into(), -5);
    assert_eq!(c.id_str(), "abcdef0");
    assert_eq!(c.time, 0);
    let c = commit_entry("1234567", String::new(), String::new(), String::new(), 1_753_000_000);
    assert_eq!(c.time, 1_753_000_000);
    assert_eq!(&c.id, b"1234567");
}

#[test]
fn tags_group_by_their_commit() {
    let pairs: Vec<(String, String)> = [("aaa1111", "v1"), ("bbb2222", "v2"), ("aaa1111", "stable")]
        .iter()
        .map(|(a, b)| (a.to_string(), b.to_string()))
        .collect();
    let groups = group_tags(&pairs);
    assert_eq!(
        groups,
        vec![
            ("aaa1111".to_string(), vec!["v1".to_string(), "stable".to_string()]),
            ("bbb2222".to_string(), vec!["v2".to_string()]),
        ]
    );
    assert!(group_tags(&Vec::new()).is_empty());
}
