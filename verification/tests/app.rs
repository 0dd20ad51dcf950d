use lazier::app::{App, ConfirmAction, InputPurpose, Mode};
use lazier::event::Msg;
use lazier::git::{BranchEntry, CommitEntry, DiffTarget, FileEntry, Req, Resp};
use lazier::keys::{action_for, Action, Key};

// Make an application with test data. The tests must not touch a real
// repository.
fn demo() -> App {
    let mut app = App::new();
    app.repo.head = Some("main".into());
    app.repo.ahead = 2;
    app.repo.files = [('M', ' ', "src/main.rs"), (' ', 'A', "src/app.rs"), (' ', '?', "notes.txt")]
        .into_iter()
        .map(|(index, work, path)| FileEntry { index, work, path: path.into() })
        .collect();
    app.repo.unpushed = vec!["0a0c000".to_string(), "0a0c001".to_string()];
    app.repo.branches = vec!["feature/ui".into(), "main".into()];
    app.repo.stashes = vec!["stash@{0}: WIP on main".into()];
    app.repo.commits = (0..100_000)
        .map(|i| {
            let mut id = [b'0'; 7];
            id.copy_from_slice(format!("{:07x}", 0xa0c000 + i).as_bytes());
            let graph = ["●", "◉─╮", "● │", "│ ●", "●─╯"][i % 5];
            CommitEntry {
                id,
                graph: graph.into(),
                subject: format!("fake: commit subject #{i}"),
                author: "Test Author".into(),
                time: 1_753_000_000 + i as u32,
            }
        })
        .collect();
    app.repo.diff = "diff --git a/src/main.rs b/src/main.rs\n+added line\n-removed line".into();
    app.rebuild_tree();
    app
}

#[test]
fn navigation() {
    let mut app = demo();
    app.apply(Action::Down);
    assert_eq!(app.selected[1], 1);
    app.apply(Action::Up);
    app.apply(Action::Up); // The selection stays at zero.
    assert_eq!(app.selected[1], 0);
    app.apply(Action::FocusPanel(3));
    assert_eq!(app.focus, 3);
    app.apply(Action::NextPanel);
    app.apply(Action::NextPanel); // The focus reaches the diff pane.
    assert_eq!(app.focus, 5);
    app.apply(Action::NextPanel); // The focus wraps to panel 0.
    assert_eq!(app.focus, 0);
    app.apply(Action::PrevPanel);
    assert_eq!(app.focus, 5);
}

#[test]
fn a_new_app_starts_on_the_files() {
    let app = App::new();
    assert_eq!(app.focus, 1);
    assert_eq!(app.selected, [0; 6]);
    assert!(matches!(app.mode, Mode::Normal));
    assert!(app.show_log && app.message_ok && !app.quit);
    assert_eq!(app.panel_len(0), 1);
    assert_eq!(app.panel_len(1), 0);
    assert_eq!(app.panel_len(9), 0);
}

#[test]
fn the_selection_stays_within_the_rows() {
    let mut app = demo();
    app.apply(Action::FocusPanel(2));
    app.apply(Action::Bottom);
    assert_eq!(app.selected[2], 1);
    app.apply(Action::Down);
    assert_eq!(app.selected[2], 1);
    app.apply(Action::FocusPanel(3));
    app.apply(Action::PageDown);
    assert_eq!(app.selected[3], 15);
    app.apply(Action::PageUp);
    app.apply(Action::PageUp);
    assert_eq!(app.selected[3], 0);
    app.apply(Action::Bottom);
    assert_eq!(app.selected[3], 99_999);
    app.apply(Action::PageDown);
    assert_eq!(app.selected[3], 99_999);
    app.apply(Action::Top);
    assert_eq!(app.selected[3], 0);
}

#[test]
fn the_motion_keys_scroll_the_diff_pane() {
    let mut app = demo();
    app.apply(Action::FocusPanel(3));
    app.apply(Action::NextPanel);
    app.apply(Action::NextPanel);
    assert_eq!(app.focus, 5);
    app.apply(Action::Up);
    assert_eq!(app.diff_scroll, 0);
    app.apply(Action::PageDown);
    app.apply(Action::Down);
    assert_eq!(app.diff_scroll, 16);
    app.apply(Action::DiffScroll(-20));
    assert_eq!(app.diff_scroll, 0);
    app.apply(Action::DiffScroll(i16::MAX));
    app.apply(Action::DiffScroll(i16::MAX));
    app.apply(Action::DiffScroll(i16::MAX));
    assert_eq!(app.diff_scroll, u16::MAX);
    app.apply(Action::Top);
    assert_eq!(app.diff_scroll, 0);
}

#[test]
fn a_write_goes_to_the_log_and_the_outbox() {
    let mut app = demo();
    app.connected = true;
    app.apply(Action::StageAll);
    assert_eq!(app.cmd_log.last().unwrap(), &(true, "→ git add -A".to_string()));
    let out = app.take_outbox();
    assert_eq!(out.len(), 1);
    assert!(matches!(&out[0], Req::Write(a) if a == &["add", "-A"]));
    assert!(app.take_outbox().is_empty());
}

#[test]
fn without_git_nothing_is_sent() {
    let mut app = demo();
    app.apply(Action::StageAll);
    assert_eq!(app.cmd_log.len(), 1);
    assert!(app.take_outbox().is_empty());
    app.apply(Action::Refresh);
    assert!(app.take_outbox().is_empty());
    assert_eq!(app.repo.commits.len(), 100_000);
}

#[test]
fn the_log_keeps_only_the_last_hundred_lines() {
    let mut app = demo();
    for _ in 0..130 {
        app.apply(Action::StageAll);
    }
    assert_eq!(app.cmd_log.len(), 100);
}

#[test]
fn the_space_key_stages_or_unstages_a_file() {
    let mut app = demo();
    app.connected = true;
    // The tree: notes.txt, src/, src/app.rs, src/main.rs.
    let rows: Vec<String> = app.tree.iter().map(|r| r.name.clone()).collect();
    let at = |name: &str| rows.iter().position(|n| n == name).unwrap();
    app.selected[1] = at("main.rs");
    app.apply(Action::ToggleStage);
    app.selected[1] = at("app.rs");
    app.apply(Action::ToggleStage);
    app.selected[1] = at("src");
    app.apply(Action::ToggleStage);
    let out = app.take_outbox();
    let args: Vec<Vec<String>> = out
        .into_iter()
        .map(|r| match r {
            Req::Write(a) => a,
            _ => panic!("not a write"),
        })
        .collect();
    assert_eq!(args[0], ["restore", "--staged", "--", "src/main.rs"]);
    assert_eq!(args[1], ["add", "--", "src/app.rs"]);
    assert_eq!(args[2], ["add", "--", "src"]);
}

#[test]
fn the_enter_key_folds_a_directory() {
    let mut app = demo();
    let rows = app.tree.len();
    let src = app.tree.iter().position(|r| r.name == "src").unwrap();
    app.selected[1] = src;
    app.apply(Action::EnterHunks);
    assert_eq!(app.collapsed, vec!["src".to_string()]);
    assert_eq!(app.tree.len(), rows - 2);
    app.apply(Action::EnterHunks);
    assert!(app.collapsed.is_empty());
    assert_eq!(app.tree.len(), rows);
}

#[test]
fn prompts_and_windows() {
    let mut app = demo();
    app.apply(Action::CommitPrompt);
    assert!(matches!(&app.mode, Mode::Input { prompt: "commit message", buffer, purpose: InputPurpose::CommitMsg } if buffer.is_empty()));
    app.apply(Action::Help);
    assert!(matches!(app.mode, Mode::Help));
    app.handle_key(Key::Char('x'));
    assert!(matches!(app.mode, Mode::Normal));
    app.apply(Action::FocusPanel(1));
    app.apply(Action::DeleteBranch);
    app.selected[2] = 1;
    app.apply(Action::DeleteBranch);
    assert!(matches!(&app.mode, Mode::Confirm { prompt, action: ConfirmAction::DeleteBranch(n) } if prompt == "delete branch main? y/n" && n == "main"));
    app.selected[4] = 0;
    app.apply(Action::DropStash);
    assert!(matches!(&app.mode, Mode::Confirm { prompt, action: ConfirmAction::DropStash(0) } if prompt == "drop stash@{0}? y/n"));
    app.apply(Action::Push);
    assert_eq!(app.take_suspend(), Some(vec!["push".to_string()]));
    assert_eq!(app.take_suspend(), None);
}

#[test]
fn typing_a_commit_message() {
    let mut app = demo();
    app.connected = true;
    app.apply(Action::CommitPrompt);
    for c in "feat: xy".chars() {
        app.handle_key(Key::Char(c));
    }
    app.handle_key(Key::Backspace);
    app.handle_key(Key::Enter);
    assert!(matches!(app.mode, Mode::Normal));
    let out = app.take_outbox();
    assert!(matches!(&out[0], Req::Write(a) if a == &["commit", "-m", "feat: x"]));
}

#[test]
fn an_empty_message_sends_nothing() {
    let mut app = demo();
    app.connected = true;
    app.apply(Action::StashPrompt);
    app.handle_key(Key::Enter);
    assert!(app.take_outbox().is_empty());
}

#[test]
fn a_yes_deletes_the_branch() {
    let mut app = demo();
    app.connected = true;
    app.selected[2] = 0;
    app.apply(Action::DeleteBranch);
    app.handle_key(Key::Char('y'));
    let out = app.take_outbox();
    assert!(matches!(&out[0], Req::Write(a) if a == &["branch", "-D", "feature/ui"]));
    app.apply(Action::DropStash);
    app.handle_key(Key::Char('n'));
    assert!(matches!(app.mode, Mode::Normal));
    assert!(app.take_outbox().is_empty());
}

#[test]
fn the_keys_map_to_actions() {
    assert!(action_for(Key::Char('q'), 3) == Some(Action::Quit));
    assert!(action_for(Key::Char('3'), 1) == Some(Action::FocusPanel(2)));
    assert!(action_for(Key::Char(' '), 1) == Some(Action::ToggleStage));
    assert!(action_for(Key::Char(' '), 2).is_none());
    assert!(action_for(Key::Enter, 2) == Some(Action::Checkout));
    assert!(action_for(Key::Char('a'), 4) == Some(Action::ApplyStash));
    assert!(action_for(Key::Char('j'), 4) == Some(Action::Down));
    assert!(action_for(Key::Char('6'), 1).is_none());
}

#[test]
fn a_key_in_the_normal_mode_clears_the_message() {
    let mut app = demo();
    app.message = "old".into();
    app.update(Msg::Key(Key::Char('j')));
    assert!(app.message.is_empty());
    assert_eq!(app.selected[1], 1);
}

#[test]
fn hunks_open_for_the_file_in_the_diff_pane() {
    let mut app = demo();
    app.connected = true;
    let main = app.tree.iter().position(|r| r.name == "main.rs").unwrap();
    app.selected[1] = main;
    app.repo.diff =
        "diff --git a/src/main.rs b/src/main.rs\n--- a/src/main.rs\n+++ b/src/main.rs\n@@ -1 +1 @@\n-a\n+b\n@@ -9 +9 @@\n-c\n+d\n"
            .into();
    // The pane does not show this file yet: nothing happens.
    app.apply(Action::EnterHunks);
    assert!(matches!(app.mode, Mode::Normal));
    app.flush_requests();
    let out = app.take_outbox();
    assert!(matches!(&out[0], Req::Diff { seq: 1, target: DiffTarget::WorktreeFile { path, untracked: false } } if path == "src/main.rs"));
    app.apply(Action::EnterHunks);
    assert!(matches!(&app.mode, Mode::Hunks { hunks, cursor: 0, .. } if hunks.len() == 2));
    app.handle_key(Key::Char('j'));
    app.handle_key(Key::Char('j'));
    assert!(matches!(&app.mode, Mode::Hunks { cursor: 1, .. }));
    app.handle_key(Key::Char(' '));
    assert!(matches!(app.mode, Mode::Normal));
    let out = app.take_outbox();
    assert!(matches!(&out[0], Req::ApplyPatch { patch, reverse: false } if patch.ends_with("+++ b/src/main.rs\n@@ -9 +9 @@\n-c\n+d\n")));
}

#[test]
fn answers_of_git_fill_the_state() {
    let mut app = demo();
    app.apply_resp(Resp::Branches {
        current: Some("dev".into()),
        entries: vec![BranchEntry {
            name: "dev".into(),
            current: true,
            ahead: 0,
            behind: 0,
            gone: false,
            age: "1d".into(),
            remote: false,
        }],
    });
    assert_eq!(app.repo.head.as_deref(), Some("dev"));
    assert_eq!(app.repo.branches, vec!["dev".to_string()]);
    app.diff_target = None;
    app.apply_resp(Resp::Diff { seq: 7, text: "stale".into(), staged: String::new() });
    assert!(app.repo.diff.starts_with("diff --git"));
    app.apply_resp(Resp::Diff { seq: 0, text: "fresh".into(), staged: String::new() });
    assert_eq!(app.repo.diff, "fresh");
    app.apply_resp(Resp::WriteDone { ok: false, cmd: "git push".into(), output: vec![], ms: 3 });
    assert_eq!(app.message, "git push");
    assert!(!app.message_ok);
    app.apply_resp(Resp::Stashes(vec![]));
    assert_eq!(app.selected[4], 0);
    app.apply_resp(Resp::StatusPaths {
        scanned: vec!["notes.txt".into()],
        files: vec![FileEntry { index: ' ', work: 'M', path: "new.txt".into() }],
    });
    let paths: Vec<&str> = app.repo.files.iter().map(|f| f.path.as_str()).collect();
    assert_eq!(paths, ["src/main.rs", "src/app.rs", "new.txt"]);
}

#[test]
fn a_chunk_of_commits_grows_the_list() {
    let mut app = App::new();
    app.connected = true;
    app.refresh_all();
    let out = app.take_outbox();
    assert_eq!(out.len(), 6);
    assert!(matches!(out[5], Req::LogChunk { count: 100 }));
    assert!(app.log_inflight);
    let entry = CommitEntry { id: *b"abcdef0", graph: "●".into(), subject: "s".into(), author: "a".into(), time: 0 };
    app.apply_resp(Resp::LogChunk { entries: vec![entry], done: true });
    assert_eq!(app.repo.commits.len(), 1);
    assert!(app.repo.log_done && !app.log_inflight);
    app.focus = 3;
    app.flush_requests();
    let out = app.take_outbox();
    assert!(matches!(&out[0], Req::Diff { target: DiffTarget::Commit(id), .. } if id == "abcdef0"));
}

#[test]
fn deleting_asks_first() {
    let mut app = demo();
    app.connected = true;
    // The delete keys of the branches and the stash panels only ask.
    app.handle_key(Key::Char('3'));
    app.handle_key(Key::Char('d'));
    assert!(matches!(app.mode, Mode::Confirm { .. }));
    assert!(app.take_outbox().is_empty());
    app.handle_key(Key::Esc);
    app.handle_key(Key::Char('5'));
    app.handle_key(Key::Char('d'));
    assert!(matches!(app.mode, Mode::Confirm { .. }));
    assert!(app.take_outbox().is_empty());
    // Only the yes sends the drop.
    app.handle_key(Key::Char('y'));
    let out = app.take_outbox();
    assert!(matches!(&out[0], Req::Write(a) if a == &["stash", "drop", "stash@{0}"]));
}

#[test]
fn a_refresh_asks_again_for_the_diff() {
    let mut app = demo();
    app.connected = true;
    app.handle_key(Key::Char('2'));
    app.flush_requests();
    let first = app.take_outbox();
    assert!(matches!(first.last(), Some(Req::Diff { .. })));
    // Nothing changed: no second request.
    app.flush_requests();
    assert!(app.take_outbox().is_empty());
    // After a refresh the same diff is asked for once more.
    app.refresh_all();
    app.flush_requests();
    let out = app.take_outbox();
    assert!(matches!(out.last(), Some(Req::Diff { seq: 2, target: DiffTarget::WorktreeFile { .. } })));
}

#[test]
fn the_bar_says_how_a_terminal_command_went() {
    let mut app = demo();
    app.connected = true;
    let args = vec!["push".to_string(), "-u".to_string()];
    app.resume(&args, Ok((true, "exit status: 0".into())));
    assert!(app.message_ok);
    assert_eq!(app.message, "git push -u done");
    // It reads everything again.
    assert_eq!(app.take_outbox().len(), 6);
    app.resume(&args, Ok((false, "exit status: 1".into())));
    assert!(!app.message_ok);
    assert_eq!(app.message, "git push -u failed (exit status: 1)");
    app.resume(&args, Err("no such program".into()));
    assert!(!app.message_ok);
    assert_eq!(app.message, "no such program");
}

#[test]
fn only_the_last_diff_request_counts() {
    let mut app = demo();
    app.connected = true;
    app.flush_requests();
    // Two rows down: past the src directory to src/app.rs.
    app.apply(Action::Down);
    app.apply(Action::Down);
    app.flush_requests();
    let out = app.take_outbox();
    assert!(matches!(out.last(), Some(Req::Diff { seq: 2, .. })));
    let before = app.repo.diff.clone();
    app.apply_resp(Resp::Diff { seq: 1, text: "old answer".into(), staged: String::new() });
    assert_eq!(app.repo.diff, before);
    app.diff_scroll = 4;
    app.apply_resp(Resp::Diff { seq: 2, text: "new answer".into(), staged: String::new() });
    assert_eq!(app.repo.diff, "new answer");
    assert_eq!(app.diff_scroll, 0);
}

#[test]
fn the_unpushed_ids_form_a_set() {
    let mut app = demo();
    let ids = vec!["1111111".to_string(), "2222222".to_string(), "1111111".to_string()];
    app.apply_resp(Resp::Sync { ahead: 2, behind: 0, unpushed: ids, upstream: None });
    assert_eq!(app.repo.unpushed, vec!["1111111".to_string(), "2222222".to_string()]);
    assert_eq!(app.repo.ahead, 2);
}
