use lazier::git::watch::{interesting, relative_names, MAX_PATHS};

fn parts(p: &str) -> Vec<Vec<u8>> {
    p.split('/').filter(|s| !s.is_empty()).map(|s| s.as_bytes().to_vec()).collect()
}

#[test]
fn head_index_and_refs_ask_for_a_refresh() {
    assert!(interesting(&parts("/r/.git/HEAD")));
    assert!(interesting(&parts("/r/.git/index")));
    assert!(interesting(&parts("/r/.git/refs/heads/main")));
    assert!(!interesting(&parts("/r/.git/objects/ab/cd")));
    assert!(!interesting(&parts("/r/.git/index.lock")));
}

#[test]
fn names_under_the_root() {
    let root = parts("/home/me/repo");
    let paths = vec![parts("/home/me/repo/src/a.rs"), parts("/home/me/repo/.git/index"), parts("/home/me/repo")];
    assert_eq!(relative_names(&root, None, &paths), Some(vec!["src/a.rs".to_string()]));
    // A path outside the root makes the set unusable.
    let paths = vec![parts("/elsewhere/x")];
    assert_eq!(relative_names(&root, None, &paths), None);
    // The real place of the root counts too.
    let real = parts("/data/repo");
    let paths = vec![parts("/data/repo/b.txt")];
    assert_eq!(relative_names(&root, Some(&real), &paths), Some(vec!["b.txt".to_string()]));
    // Nothing usable means nothing.
    assert_eq!(relative_names(&root, None, &vec![]), None);
}

#[test]
fn too_many_names_ask_for_a_full_scan() {
    let root = parts("/r");
    let many: Vec<Vec<Vec<u8>>> = (0..=MAX_PATHS).map(|i| parts(&format!("/r/f{i}"))).collect();
    assert_eq!(relative_names(&root, None, &many), None);
    let enough: Vec<Vec<Vec<u8>>> = (0..MAX_PATHS).map(|i| parts(&format!("/r/f{i}"))).collect();
    assert_eq!(relative_names(&root, None, &enough).unwrap().len(), MAX_PATHS);
}

#[test]
fn a_name_that_is_not_utf8_makes_the_set_unusable() {
    let root = parts("/r");
    let bad = vec![vec![b"r".to_vec(), vec![0xff, 0xfe]]];
    assert_eq!(relative_names(&root, None, &bad), None);
}
