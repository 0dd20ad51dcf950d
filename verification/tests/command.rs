use lazier::git::command::{
    applied_line, apply_args, command_line, copy_line, diff_commands, diff_text, fetch_secs,
    ignore_line,
    names_a_file, program_of, rule_text, shell_line,
};
use lazier::git::DiffTarget;

#[test]
fn command_log_lines() {
    assert_eq!(command_line(&vec!["push".to_string(), "-u".to_string()]), "git push -u");
    assert_eq!(shell_line("ls -l"), ": ls -l");
    assert_eq!(copy_line("abc"), "copy abc");
    assert_eq!(ignore_line(true, "*.log"), "exclude += *.log");
    assert_eq!(ignore_line(false, "*.log"), ".gitignore += *.log");
    assert_eq!(apply_args(true), vec!["apply", "--cached", "-R"]);
    assert_eq!(applied_line(false), "git apply --cached (staged)");
    assert_eq!(applied_line(true), "git apply --cached -R (unstaged)");
}

#[test]
fn the_commands_of_each_diff() {
    let file = DiffTarget::WorktreeFile { path: "a.txt".into(), untracked: false };
    assert_eq!(diff_commands(&file), vec![vec!["diff", "--", "a.txt"], vec!["diff", "--cached", "--", "a.txt"]]);
    let new = DiffTarget::WorktreeFile { path: "n.txt".into(), untracked: true };
    assert_eq!(diff_commands(&new), vec![vec!["diff", "--no-index", "--", "/dev/null", "n.txt"]]);
    assert_eq!(diff_commands(&DiffTarget::Commit("abc".into())), vec![vec!["show", "--stat", "--patch", "abc"]]);
    let range = DiffTarget::Range { from: "a".into(), to: "b".into() };
    assert_eq!(diff_commands(&range), vec![vec!["diff", "--stat", "--patch", "a..b"]]);
    assert_eq!(diff_commands(&DiffTarget::Stash(2)), vec![vec!["stash", "show", "--stat", "--patch", "stash@{2}"]]);
}

#[test]
fn the_fetch_interval() {
    assert_eq!(fetch_secs(None), Some(180));
    assert_eq!(fetch_secs(Some(" 60 ")), Some(60));
    assert_eq!(fetch_secs(Some("0")), None);
    assert_eq!(fetch_secs(Some("soon")), Some(180));
}

#[test]
fn the_program_of_a_command_line() {
    assert_eq!(program_of("vim --wait").as_deref(), Some("vim"));
    assert_eq!(program_of("\"code\" -w").as_deref(), Some("code"));
    assert_eq!(program_of("   "), None);
    assert_eq!(program_of(""), None);
    assert_eq!(program_of("\"\""), None);
    assert!(names_a_file("/usr/bin/vi"));
    assert!(names_a_file("C:\\x.exe"));
    assert!(!names_a_file("nano"));
}

#[test]
fn an_ignore_rule_goes_in_once() {
    assert_eq!(rule_text("", "*.log").as_deref(), Some("*.log\n"));
    assert_eq!(rule_text("target", "*.log").as_deref(), Some("target\n*.log\n"));
    assert_eq!(rule_text("target\n", "*.log").as_deref(), Some("target\n*.log\n"));
    assert_eq!(rule_text("a\n  *.log  \nb\n", "*.log"), None);
}

#[test]
fn adding_a_rule_twice_writes_it_once() {
    let once = rule_text("target", "/build/").unwrap();
    assert_eq!(once, "target\n/build/\n");
    assert_eq!(rule_text(&once, "/build/"), None);
    let first = rule_text("", "*.tmp").unwrap();
    assert_eq!(rule_text(&first, "*.tmp"), None);
}

#[test]
fn a_diff_shows_its_output_whenever_there_is_any() {
    assert_eq!(diff_text(true, "".into(), "warn".into()), "");
    assert_eq!(diff_text(false, "+a\n".into(), "".into()), "+a\n");
    assert_eq!(diff_text(false, "".into(), "fatal: bad\n".into()), "fatal: bad\n");
}
