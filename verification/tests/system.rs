use lazier::git::system::{clipboard_commands, exe_suffixes, fallback_editors, shell_command, Platform};

#[test]
fn the_clipboard_program_of_each_system() {
    assert_eq!(clipboard_commands(Platform::MacOs), vec![vec!["pbcopy".to_string()]]);
    assert_eq!(clipboard_commands(Platform::Windows), vec![vec!["clip".to_string()]]);
    let unix = clipboard_commands(Platform::Unix);
    assert_eq!(unix.len(), 3);
    assert_eq!(unix[0], ["wl-copy"]);
    assert_eq!(unix[1], ["xclip", "-selection", "clipboard"]);
    assert_eq!(unix[2], ["xsel", "-ib"]);
}

#[test]
fn the_shell_of_each_system() {
    assert_eq!(shell_command(Platform::Windows), ["cmd", "/C"]);
    assert_eq!(shell_command(Platform::Unix), ["sh", "-c"]);
    assert_eq!(shell_command(Platform::MacOs), ["sh", "-c"]);
}

#[test]
fn editors_and_program_endings() {
    let editors = fallback_editors();
    assert_eq!(editors.first().map(String::as_str), Some("nano"));
    assert_eq!(editors.len(), 8);
    assert_eq!(exe_suffixes(Platform::Windows), ["", ".exe", ".cmd", ".bat"]);
    assert_eq!(exe_suffixes(Platform::Unix), [""]);
}
