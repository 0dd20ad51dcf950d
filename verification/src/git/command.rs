//! The commands that the git worker runs, and the lines that the command
//! log shows for them. The worker itself runs in the program around the
//! library; here are its choices.
use vstd::prelude::*;

use crate::git::patch::views;
use crate::git::DiffTarget;
use crate::app::stash_name;
use crate::app::stash_ref;
use crate::text::{
    chars_of, join, lines_of, line_ranges, parse_u64, parse_uint, push_char, push_joined, push_str,
    string_from, string_of, trim, trim_end_pos, trim_start_pos, words_of, first_word, is_ws,
    lemma_lines_concat, lemma_lines_one, lemma_trimmed_last,
};

verus! {

// ---------------------------------------------------------------------
// Command lines
// ---------------------------------------------------------------------
/// The line of a git command: `git` and its arguments.
pub open spec fn git_text(args: Seq<Seq<char>>) -> Seq<char> {
    "git "@ + join(args, " "@)
}

/// The line that the command log shows for a git command.
pub fn command_line(args: &Vec<String>) -> (r: String)
    ensures
        r@ == git_text(views(args@)),
{
    let mut s = string_from("git ");
    push_joined(&mut s, args, " ");
    proof {
        assert(args@.map_values(|x: String| x@) =~= views(args@));
    }
    s
}

/// The line that the command log shows for a shell command.
pub fn shell_line(line: &str) -> (r: String)
    ensures
        r@ == ": "@ + line@,
{
    let mut s = string_from(": ");
    push_str(&mut s, line);
    s
}

/// The line that the command log shows for a copy to the clipboard.
pub fn copy_line(text: &str) -> (r: String)
    ensures
        r@ == "copy "@ + text@,
{
    let mut s = string_from("copy ");
    push_str(&mut s, text);
    s
}

/// The name of the file of ignore rules: the private one or the shared one.
pub open spec fn ignore_file(local: bool) -> Seq<char> {
    if local {
        "exclude"@
    } else {
        ".gitignore"@
    }
}

/// The line that the command log shows for a new ignore rule.
pub fn ignore_line(local: bool, pattern: &str) -> (r: String)
    ensures
        r@ == ignore_file(local) + " += "@ + pattern@,
{
    let mut s = if local {
        string_from("exclude")
    } else {
        string_from(".gitignore")
    };
    push_str(&mut s, " += ");
    push_str(&mut s, pattern);
    s
}

/// The arguments that apply a patch to the index; reverse takes it out.
pub open spec fn apply_words(reverse: bool) -> Seq<Seq<char>> {
    if reverse {
        seq!["apply"@, "--cached"@, "-R"@]
    } else {
        seq!["apply"@, "--cached"@]
    }
}

/// The arguments that apply a patch to the index.
pub fn apply_args(reverse: bool) -> (r: Vec<String>)
    ensures
        views(r@) == apply_words(reverse),
{
    let mut v: Vec<String> = Vec::new();
    v.push(string_from("apply"));
    v.push(string_from("--cached"));
    if reverse {
        v.push(string_from("-R"));
    }
    proof {
        assert(views(v@) =~= apply_words(reverse));
    }
    v
}

/// The line that the command log shows when a patch went in: the command
/// and what it did.
pub fn applied_line(reverse: bool) -> (r: String)
    ensures
        r@ == git_text(apply_words(reverse)) + " ("@ + (if reverse {
            "unstaged"@
        } else {
            "staged"@
        }) + ")"@,
{
    let args = apply_args(reverse);
    let mut s = command_line(&args);
    push_str(&mut s, " (");
    if reverse {
        push_str(&mut s, "unstaged");
    } else {
        push_str(&mut s, "staged");
    }
    push_str(&mut s, ")");
    s
}

/// The commands that show a diff: the first gives the text of the pane,
/// the second, for a file that git tracks, the staged part. `diff
/// --no-index` compares a file that git does not track with an empty
/// file, thus every line is an add.
pub open spec fn diff_words(t: DiffTarget) -> Seq<Seq<Seq<char>>> {
    match t {
        DiffTarget::WorktreeFile { path, untracked } => if untracked {
            seq![seq!["diff"@, "--no-index"@, "--"@, "/dev/null"@, path@]]
        } else {
            seq![seq!["diff"@, "--"@, path@], seq!["diff"@, "--cached"@, "--"@, path@]]
        },
        DiffTarget::Commit(id) => seq![seq!["show"@, "--stat"@, "--patch"@, id@]],
        DiffTarget::Range { from, to } => seq![
            seq!["diff"@, "--stat"@, "--patch"@, from@ + ".."@ + to@],
        ],
        DiffTarget::Stash(i) => seq![
            seq!["stash"@, "show"@, "--stat"@, "--patch"@, stash_name(i as nat)],
        ],
    }
}

/// A list of texts.
fn texts(a: Seq<Seq<char>>, items: Vec<String>) -> (r: Vec<String>)
    requires
        views(items@) == a,
    ensures
        views(r@) == a,
{
    items
}

/// Push a text.
fn push_text(v: &mut Vec<String>, s: String)
    ensures
        views(final(v)@) == views(old(v)@).push(s@),
{
    v.push(s);
    proof {
        assert(views(v@) =~= views(old(v)@).push(s@));
    }
}

/// One command.
fn one_command(c: Vec<String>) -> (r: Vec<Vec<String>>)
    ensures
        r@.map_values(|x: Vec<String>| views(x@)) == seq![views(c@)],
{
    let ghost cv = views(c@);
    let mut out: Vec<Vec<String>> = Vec::new();
    out.push(c);
    proof {
        assert(out@.map_values(|x: Vec<String>| views(x@)) =~= seq![cv]);
    }
    out
}

/// The commands that show the diff of a target.
pub fn diff_commands(target: &DiffTarget) -> (r: Vec<Vec<String>>)
    ensures
        r@.map_values(|c: Vec<String>| views(c@)) == diff_words(*target),
{
    match target {
        DiffTarget::WorktreeFile { path, untracked } => {
            if *untracked {
                let mut c = Vec::new();
                push_text(&mut c, string_from("diff"));
                push_text(&mut c, string_from("--no-index"));
                push_text(&mut c, string_from("--"));
                push_text(&mut c, string_from("/dev/null"));
                push_text(&mut c, path.clone());
                assert(views(c@) =~= seq!["diff"@, "--no-index"@, "--"@, "/dev/null"@, path@]);
                one_command(c)
            } else {
                let mut c = Vec::new();
                push_text(&mut c, string_from("diff"));
                push_text(&mut c, string_from("--"));
                push_text(&mut c, path.clone());
                let mut d = Vec::new();
                push_text(&mut d, string_from("diff"));
                push_text(&mut d, string_from("--cached"));
                push_text(&mut d, string_from("--"));
                push_text(&mut d, path.clone());
                assert(views(c@) =~= seq!["diff"@, "--"@, path@]);
                assert(views(d@) =~= seq!["diff"@, "--cached"@, "--"@, path@]);
                let mut out = one_command(c);
                let ghost first = out@.map_values(|x: Vec<String>| views(x@));
                let ghost dv = views(d@);
                out.push(d);
                proof {
                    assert(out@.map_values(|x: Vec<String>| views(x@)) =~= first.push(dv));
                }
                out
            }
        },
        DiffTarget::Commit(id) => {
            let mut c = Vec::new();
            push_text(&mut c, string_from("show"));
            push_text(&mut c, string_from("--stat"));
            push_text(&mut c, string_from("--patch"));
            push_text(&mut c, id.clone());
            assert(views(c@) =~= seq!["show"@, "--stat"@, "--patch"@, id@]);
            one_command(c)
        },
        DiffTarget::Range { from, to } => {
            let mut range = from.clone();
            push_str(&mut range, "..");
            push_str(&mut range, to.as_str());
            let mut c = Vec::new();
            push_text(&mut c, string_from("diff"));
            push_text(&mut c, string_from("--stat"));
            push_text(&mut c, string_from("--patch"));
            push_text(&mut c, range);
            assert(views(c@) =~= seq!["diff"@, "--stat"@, "--patch"@, from@ + ".."@ + to@]);
            one_command(c)
        },
        DiffTarget::Stash(i) => {
            let mut c = Vec::new();
            push_text(&mut c, string_from("stash"));
            push_text(&mut c, string_from("show"));
            push_text(&mut c, string_from("--stat"));
            push_text(&mut c, string_from("--patch"));
            push_text(&mut c, stash_ref(*i));
            assert(views(c@) =~= seq!["stash"@, "show"@, "--stat"@, "--patch"@, stash_name(*i as nat)]);
            one_command(c)
        },
    }
}

// ---------------------------------------------------------------------
// Settings and programs
// ---------------------------------------------------------------------
/// The seconds between one quiet fetch and the next: the number that the
/// setting holds, else 180. Zero turns the fetching off.
pub open spec fn fetch_secs_of(setting: Option<Seq<char>>) -> Option<u64> {
    let secs = match setting {
        Some(s) => match parse_uint(trim(s), u64::MAX as nat) {
            Some(n) => n as u64,
            None => 180u64,
        },
        None => 180u64,
    };
    if secs > 0 {
        Some(secs)
    } else {
        None
    }
}

/// The text that a diff command shows: its output whenever there is any,
/// since `diff --no-index` reports a difference with exit code one; else
/// what it wrote as an error.
pub fn diff_text(ok: bool, out: String, err: String) -> (r: String)
    ensures
        r@ == (if ok || out@.len() > 0 {
            out@
        } else {
            err@
        }),
{
    if ok || !out.as_str().is_empty() {
        out
    } else {
        err
    }
}

/// How long to wait between one quiet fetch and the next. The setting
/// `LAZIER_FETCH_SECS` sets another number of seconds, and zero turns the
/// fetching off.
pub fn fetch_secs(setting: Option<&str>) -> (r: Option<u64>)
    ensures
        r == fetch_secs_of(
            match setting {
                Some(s) => Some(s@),
                None => None,
            },
        ),
{
    let secs = match setting {
        Some(s) => {
            let v = chars_of(s);
            let a = trim_start_pos(v.as_slice(), 0, v.len());
            let b = trim_end_pos(v.as_slice(), a, v.len());
            proof {
                assert(v@.subrange(0, v@.len() as int) =~= s@);
            }
            match parse_u64(v.as_slice(), a, b) {
                Some(n) => n,
                None => 180,
            }
        },
        None => 180,
    };
    if secs > 0 {
        Some(secs)
    } else {
        None
    }
}

/// `s` without the `c`s at its start.
pub open spec fn trim_start_char(s: Seq<char>, c: char) -> Seq<char>
    decreases s.len(),
{
    if s.len() > 0 && s[0] == c {
        trim_start_char(s.drop_first(), c)
    } else {
        s
    }
}

/// The program of a command line: its first word, without the quotes
/// round it. None when there is no such word.
pub open spec fn program_text(cmd: Seq<char>) -> Option<Seq<char>> {
    let ws = words_of(cmd);
    let word = if ws.len() > 0 {
        ws[0]
    } else {
        seq![]
    };
    let p = crate::git::parse::trim_end_char(trim_start_char(word, '"'), '"');
    if p.len() > 0 {
        Some(p)
    } else {
        None
    }
}

/// The program that a command line names. The word can carry flags after
/// it, thus only the first word counts.
pub fn program_of(cmd: &str) -> (r: Option<String>)
    ensures
        match r {
            Some(p) => program_text(cmd@) == Some(p@),
            None => program_text(cmd@) is None,
        },
{
    let v = chars_of(cmd);
    proof {
        assert(v@.subrange(0, v@.len() as int) =~= cmd@);
    }
    let (a0, a1) = match first_word(v.as_slice(), 0, v.len()) {
        Some(w) => w,
        None => (0, 0),
    };
    proof {
        if words_of(cmd@).len() == 0 {
            assert(v@.subrange(a0 as int, a1 as int) =~= Seq::<char>::empty());
        } else {
            assert(words_of(cmd@)[0] == v@.subrange(a0 as int, a1 as int));
        }
    }
    let mut a = a0;
    while a < a1 && v[a] == '"'
        invariant
            a0 <= a <= a1 <= v@.len(),
            trim_start_char(v@.subrange(a0 as int, a1 as int), '"') == trim_start_char(
                v@.subrange(a as int, a1 as int),
                '"',
            ),
        decreases a1 - a,
    {
        proof {
            assert(v@.subrange(a as int, a1 as int).drop_first() =~= v@.subrange(a + 1, a1 as int));
        }
        a += 1;
    }
    let mut b = a1;
    while b > a && v[b - 1] == '"'
        invariant
            a <= b <= a1 <= v@.len(),
            crate::git::parse::trim_end_char(v@.subrange(a as int, a1 as int), '"')
                == crate::git::parse::trim_end_char(v@.subrange(a as int, b as int), '"'),
        decreases b - a,
    {
        proof {
            assert(v@.subrange(a as int, b as int).drop_last() =~= v@.subrange(a as int, b - 1));
        }
        b -= 1;
    }
    proof {
        let t = v@.subrange(a as int, a1 as int);
        if a < a1 {
            assert(t[0] == v@[a as int]);
        }
        assert(trim_start_char(t, '"') == t);
        let u = v@.subrange(a as int, b as int);
        if b > a {
            assert(u.last() == v@[b - 1]);
        }
        assert(crate::git::parse::trim_end_char(u, '"') == u);
    }
    if a == b {
        None
    } else {
        Some(string_of(v.as_slice(), a, b))
    }
}

/// A name with a directory in it points at the file, not at the PATH.
pub fn names_a_file(program: &str) -> (r: bool)
    ensures
        r == (program@.contains('/') || program@.contains('\\')),
{
    let v = chars_of(program);
    let mut k: usize = 0;
    while k < v.len()
        invariant
            v@ == program@,
            0 <= k <= v@.len(),
            forall|j: int| 0 <= j < k ==> v@[j] != '/' && v@[j] != '\\',
        decreases v@.len() - k,
    {
        if v[k] == '/' || v[k] == '\\' {
            assert(program@[k as int] == v@[k as int]);
            return true;
        }
        k += 1;
    }
    false
}

/// The text of a file of ignore rules after one more rule: None when a
/// line of it, trimmed, is the rule already. Else the rule goes at the
/// end on a line of its own; the old text gets a newline first when it
/// does not end with one, thus the rules never join together.
pub open spec fn rule_added(old: Seq<char>, pattern: Seq<char>) -> Option<Seq<char>> {
    if exists|k: int| 0 <= k < lines_of(old).len() && trim(#[trigger] lines_of(old)[k]) == pattern {
        None
    } else {
        let sep = if old.len() > 0 && old.last() != '\n' {
            seq!['\n']
        } else {
            seq![]
        };
        Some(old + sep + pattern + seq!['\n'])
    }
}

/// The text of a file of ignore rules with the rule added, or None when
/// it holds the rule already.
pub fn rule_text(old: &str, pattern: &str) -> (r: Option<String>)
    ensures
        match r {
            Some(t) => rule_added(old@, pattern@) == Some(t@),
            None => rule_added(old@, pattern@) is None,
        },
{
    let v = chars_of(old);
    let lines = line_ranges(v.as_slice());
    let ghost ls = lines_of(old@);
    let mut k: usize = 0;
    while k < lines.len()
        invariant
            v@ == old@,
            ls == lines_of(old@),
            lines@.len() == ls.len(),
            forall|j: int|
                #![trigger lines@[j]]
                0 <= j < lines@.len() ==> lines@[j].0 <= lines@[j].1 && lines@[j].1 <= v@.len()
                    && v@.subrange(lines@[j].0 as int, lines@[j].1 as int) == ls[j],
            0 <= k <= lines@.len(),
            forall|j: int| 0 <= j < k ==> trim(#[trigger] ls[j]) != pattern@,
        decreases lines@.len() - k,
    {
        let (a, b) = lines[k];
        let line = string_of(v.as_slice(), a, b);
        let lv = chars_of(line.as_str());
        let (x, y) = {
            let p = trim_start_pos(lv.as_slice(), 0, lv.len());
            let q = trim_end_pos(lv.as_slice(), p, lv.len());
            (p, q)
        };
        let t = string_of(lv.as_slice(), x, y);
        proof {
            assert(lv@.subrange(0, lv@.len() as int) =~= ls[k as int]);
        }
        // A rule that is already there needs no second copy.
        if crate::git::text_eq(t.as_str(), pattern) {
            return None;
        }
        k += 1;
    }
    let mut text = string_from(old);
    let n = v.len();
    if n > 0 && v[n - 1] != '\n' {
        push_char(&mut text, '\n');
    }
    push_str(&mut text, pattern);
    push_char(&mut text, '\n');
    proof {
        if n > 0 {
            assert(old@.last() == v@[n - 1]);
        }
        let sep = if old@.len() > 0 && old@.last() != '\n' {
            seq!['\n']
        } else {
            Seq::<char>::empty()
        };
        assert(text@ =~= old@ + sep + pattern@ + seq!['\n']);
    }
    Some(text)
}

/// A rule that is already there needs no second copy: once a rule (a
/// trimmed text on one line) has been added, adding it again leaves the
/// file as it is.
pub proof fn lemma_rule_added_once(old: Seq<char>, pattern: Seq<char>)
    requires
        trim(pattern) == pattern,
        !pattern.contains('\n'),
    ensures
        rule_added(old, pattern) matches Some(t) ==> rule_added(t, pattern) is None,
{
    if let Some(t) = rule_added(old, pattern) {
        let sep = if old.len() > 0 && old.last() != '\n' {
            seq!['\n']
        } else {
            Seq::<char>::empty()
        };
        let a = old + sep;
        assert(a.len() == 0 || a.last() == '\n');
        assert(t =~= a + (pattern + seq!['\n']));
        lemma_trimmed_last(pattern);
        assert(is_ws('\r'));
        lemma_lines_one(pattern);
        lemma_lines_concat(a, pattern + seq!['\n']);
        let k = lines_of(a).len() as int;
        assert(lines_of(t)[k] == pattern);
        assert(0 <= k < lines_of(t).len() && trim(lines_of(t)[k]) == pattern);
    }
}

} // verus!
