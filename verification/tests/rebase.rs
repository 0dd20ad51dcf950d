use lazier::git::rebase::{detect, num, serialize, sh_quote, TodoAction, TodoItem};

fn item(action: TodoAction, id: &str) -> TodoItem {
    TodoItem { action, id: id.into(), subject: format!("subject of {id}") }
}

#[test]
fn serialize_reverses_order() {
    let items = vec![
        item(TodoAction::Fixup, "ccc"),
        item(TodoAction::Drop, "bbb"),
        item(TodoAction::Pick, "aaa"),
    ];
    assert_eq!(
        serialize(&items),
        "pick aaa subject of aaa\n\
         drop bbb subject of bbb\n\
         fixup ccc subject of ccc\n"
    );
}

#[test]
fn quotes_paths_with_spaces() {
    assert_eq!(sh_quote("/a b/lazier"), "'/a b/lazier'");
    assert_eq!(sh_quote("it's"), r"'it'\''s'");
}

#[test]
fn each_action_has_its_word() {
    assert_eq!(TodoAction::Reword.word(), "reword");
    assert_eq!(TodoAction::Edit.word(), "edit");
    assert_eq!(TodoAction::Squash.word(), "squash");
}

#[test]
fn reads_the_counts_of_a_stopped_rebase() {
    assert!(detect(None).is_none());
    let info = detect(Some((Some("3\n".to_string()), Some("7\n".to_string())))).unwrap();
    assert_eq!((info.step, info.total), (3, 7));
    // A count that cannot be read is zero.
    let info = detect(Some((None, Some("x".to_string())))).unwrap();
    assert_eq!((info.step, info.total), (0, 0));
    assert_eq!(num(" 12 \n"), Some(12));
    assert_eq!(num("+5"), Some(5));
    assert_eq!(num(""), None);
}

#[test]
fn detects_stopped_rebase() {
    // No rebase directory: no rebase.
    assert!(detect(None).is_none());
    // A merge rebase at step 3 of 7.
    let info = detect(Some((Some("3\n".to_string()), Some("7\n".to_string())))).unwrap();
    assert_eq!((info.step, info.total), (3, 7));
    // The directory went away again.
    assert!(detect(None).is_none());
}
