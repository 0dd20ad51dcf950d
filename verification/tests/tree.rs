use lazier::git::FileEntry;
use lazier::tree::build;

fn entries(paths: &[&str]) -> Vec<FileEntry> {
    paths.iter().map(|p| FileEntry { index: ' ', work: 'M', path: p.to_string() }).collect()
}

#[test]
fn nests_and_collapses() {
    let files = entries(&["a/b/f1", "a/f2", "top.txt"]);
    let rows = build(&files, &Vec::new());
    let names: Vec<(&str, u8)> = rows.iter().map(|r| (r.name.as_str(), r.depth)).collect();
    assert_eq!(names, [("a", 0), ("b", 1), ("f1", 2), ("f2", 1), ("top.txt", 0)]);

    let collapsed: Vec<String> = vec!["a/b".to_string()];
    let rows = build(&files, &collapsed);
    let names: Vec<&str> = rows.iter().map(|r| r.name.as_str()).collect();
    // The b row stays. Its children go away.
    assert_eq!(names, ["a", "b", "f2", "top.txt"]);

    let collapsed: Vec<String> = vec!["a".to_string()];
    let rows = build(&files, &collapsed);
    let names: Vec<&str> = rows.iter().map(|r| r.name.as_str()).collect();
    assert_eq!(names, ["a", "top.txt"]);
}

#[test]
fn rows_follow_the_order_of_the_paths() {
    let files = entries(&["z.txt", "b/x", "a.txt"]);
    let rows = build(&files, &Vec::new());
    let names: Vec<&str> = rows.iter().map(|r| r.name.as_str()).collect();
    assert_eq!(names, ["a.txt", "b", "x", "z.txt"]);
    // A file row points back into the list; a directory row names its path.
    assert_eq!(rows[0].file, Some(2));
    assert_eq!(rows[1].dir.as_deref(), Some("b"));
    assert_eq!(rows[2].file, Some(1));
}

#[test]
fn with_nothing_folded_each_file_has_one_row() {
    let files: Vec<FileEntry> = ["src/b.rs", "README.md", "src/a/x.rs", "src/a/y.rs", "docs/z.md"]
        .iter()
        .map(|p| FileEntry { index: 'M', work: ' ', path: p.to_string() })
        .collect();
    let rows = build(&files, &Vec::new());
    let mut ids: Vec<usize> = rows.iter().filter_map(|r| r.file).collect();
    ids.sort();
    assert_eq!(ids, vec![0, 1, 2, 3, 4]);
}
