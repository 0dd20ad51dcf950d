//! What differs from one operating system to the next: the program that
//! takes text for the clipboard, the shell that runs a command line, and
//! the names a program file can have.
use vstd::prelude::*;

use crate::app::{svec2, svec3};
use crate::git::patch::views;
use crate::text::string_from;

verus! {

/// The kind of system the program runs on.
#[derive(Clone, Copy, PartialEq, Eq, Structural)]
pub enum Platform {
    MacOs,
    Windows,
    Unix,
}

/// The commands to try, in order, to put text on the clipboard: each the
/// program and its arguments.
pub open spec fn clipboard_of(p: Platform) -> Seq<Seq<Seq<char>>> {
    match p {
        Platform::MacOs => seq![seq!["pbcopy"@]],
        Platform::Windows => seq![seq!["clip"@]],
        Platform::Unix => seq![
            seq!["wl-copy"@],
            seq!["xclip"@, "-selection"@, "clipboard"@],
            seq!["xsel"@, "-ib"@],
        ],
    }
}

/// The views of a list of commands.
pub open spec fn command_views(v: Seq<Vec<String>>) -> Seq<Seq<Seq<char>>> {
    v.map_values(|c: Vec<String>| views(c@))
}

fn one(a: &str) -> (r: Vec<String>)
    ensures
        views(r@) == seq![a@],
{
    let mut v = Vec::new();
    v.push(string_from(a));
    proof {
        assert(views(v@) =~= seq![a@]);
    }
    v
}

/// The commands that can take text for the clipboard.
pub fn clipboard_commands(p: Platform) -> (r: Vec<Vec<String>>)
    ensures
        command_views(r@) == clipboard_of(p),
{
    let mut out: Vec<Vec<String>> = Vec::new();
    match p {
        Platform::MacOs => out.push(one("pbcopy")),
        Platform::Windows => out.push(one("clip")),
        Platform::Unix => {
            out.push(one("wl-copy"));
            out.push(svec3("xclip", "-selection", "clipboard"));
            out.push(svec2("xsel", "-ib"));
        },
    }
    proof {
        assert(command_views(out@) =~= clipboard_of(p));
    }
    out
}

/// The shell that runs a command line, and its flag for one.
pub open spec fn shell_of(p: Platform) -> Seq<Seq<char>> {
    match p {
        Platform::Windows => seq!["cmd"@, "/C"@],
        _ => seq!["sh"@, "-c"@],
    }
}

/// The program that runs a command line, and its flag for one.
pub fn shell_command(p: Platform) -> (r: Vec<String>)
    ensures
        views(r@) == shell_of(p),
{
    match p {
        Platform::Windows => svec2("cmd", "/C"),
        _ => svec2("sh", "-c"),
    }
}

/// Editors to try when git names one that is not on this machine. The
/// first ones are the easiest to leave.
pub open spec fn fallback_of() -> Seq<Seq<char>> {
    seq!["nano"@, "micro"@, "hx"@, "helix"@, "nvim"@, "vim"@, "vi"@, "notepad"@]
}

/// The editors to try, in order.
pub fn fallback_editors() -> (r: Vec<String>)
    ensures
        views(r@) == fallback_of(),
{
    let mut v = Vec::new();
    v.push(string_from("nano"));
    v.push(string_from("micro"));
    v.push(string_from("hx"));
    v.push(string_from("helix"));
    v.push(string_from("nvim"));
    v.push(string_from("vim"));
    v.push(string_from("vi"));
    v.push(string_from("notepad"));
    proof {
        assert(views(v@) =~= fallback_of());
    }
    v
}

/// The endings that the file of a program can have after its name.
pub open spec fn suffixes_of(p: Platform) -> Seq<Seq<char>> {
    match p {
        Platform::Windows => seq![""@, ".exe"@, ".cmd"@, ".bat"@],
        _ => seq![""@],
    }
}

/// The endings a program file can have.
pub fn exe_suffixes(p: Platform) -> (r: Vec<String>)
    ensures
        views(r@) == suffixes_of(p),
{
    match p {
        Platform::Windows => crate::app::svec4("", ".exe", ".cmd", ".bat"),
        _ => one(""),
    }
}

} // verus!
