//! The git side: the answers of git turned into rows, and the patches and
//! commands that go back to it. Reads and writes happen in the program
//! around the library; here the text they give becomes values.
pub mod absorb;
pub mod command;
pub mod graph;
pub mod parse;
pub mod patch;
pub mod rebase;
pub mod status;
pub mod system;
pub mod watch;

use vstd::prelude::*;
use vstd::string::StringSliceAdditionalSpecFns;

use crate::git::patch::views;

use crate::text::{
    all_ws, chars_of, is_whitespace, line_ranges, lines_of, starts_with, string_of, trim_start,
    trim_start_pos,
};

verus! {

/// One row for each path. `index` is the state against HEAD. `work` is the
/// state against the index. A space means no change on that side. This is
/// the same shape as the two columns of `git status --short`.
pub struct FileEntry {
    pub index: char,
    pub work: char,
    pub path: String,
}

impl FileEntry {
    /// The file has a change in the index.
    pub fn staged(&self) -> (r: bool)
        ensures
            r == (self.index != ' '),
    {
        self.index != ' '
    }

    /// The file is in a merge conflict.
    pub fn conflicted(&self) -> (r: bool)
        ensures
            r == (self.work == 'U' || self.index == 'U'),
    {
        self.work == 'U' || self.index == 'U'
    }
}

pub struct BranchEntry {
    pub name: String,
    pub current: bool,
    pub ahead: u32,
    pub behind: u32,
    /// The upstream branch is not there any more.
    pub gone: bool,
    /// The age of the last commit, in a short form such as "3d".
    pub age: String,
    /// The branch lives on a remote. A checkout makes a local branch that
    /// follows it.
    pub remote: bool,
}

pub struct BlameLine {
    pub id: String,
    pub author: String,
    pub date: String,
    pub text: String,
}

pub struct SubmoduleEntry {
    pub path: String,
    pub id: String,
    /// A dash means the submodule has no checkout. A plus means it sits at
    /// another commit than the one the repository records.
    pub state: char,
}

pub struct ReflogEntry {
    pub id: String,
    /// The position, such as HEAD@{2}.
    pub at: String,
    pub what: String,
}

/// One commit of the log. The short id is inline.
pub struct CommitEntry {
    pub id: [u8; 7],
    pub graph: String,
    pub subject: String,
    pub author: String,
    pub time: u32,
}

/// `std::str::from_utf8`: the bytes as text when they are valid UTF-8.
#[verifier::external_body]
pub(crate) fn str_from_utf8(v: &[u8]) -> (r: Option<&str>)
    ensures
        r is Some <==> vstd::utf8::valid_utf8(v@),
        r matches Some(s) ==> s.spec_bytes() == v@,
{
    std::str::from_utf8(v).ok()
}

impl CommitEntry {
    /// The short id as text.
    pub fn id_str(&self) -> (r: &str)
        ensures
            vstd::utf8::valid_utf8(self.id@) ==> r.spec_bytes() == self.id@,
            !vstd::utf8::valid_utf8(self.id@) ==> r@ == seq!['?', '?', '?', '?', '?', '?', '?'],
    {
        // The id always contains hex digits, thus this cannot fail.
        match str_from_utf8(&self.id) {
            Some(s) => s,
            None => {
                let q = "???????";
                proof {
                    reveal_strlit("???????");
                }
                q
            },
        }
    }
}

pub enum LogReq {
    Chunk(usize),
    /// Look at HEAD. Walk again only when HEAD moved. A refresh after a
    /// stage or a fetch must not throw away a long list of commits.
    Refresh(usize),
    /// Show only the commits whose message holds this text. None gives the
    /// whole history again.
    Filter(Option<String>),
    /// Follow only the first parent of each commit, or every parent. The
    /// walk starts again, thus the list shows the new shape at once.
    FirstParent(bool),
    /// Walk again from the new HEAD.
    Reset,
}

pub enum Req {
    Status,
    /// Look at these paths only. The answer replaces what is known about
    /// them and leaves every other path as it is.
    StatusPaths(Vec<String>),
    Branches,
    Stashes,
    LogChunk { count: usize },
    LogRefresh { count: usize },
    LogFilter(Option<String>),
    /// Follow only the first parent of each commit, or every parent.
    LogFirstParent(bool),
    /// Walk the log again from HEAD.
    LogReset,
    Diff { seq: u64, target: DiffTarget },
    /// Run a git command with the given arguments. Capture the output.
    Write(Vec<String>),
    /// Apply a patch to the index. Reverse removes it from the index.
    ApplyPatch { patch: String, reverse: bool },
    /// Read the sync state against the upstream branch.
    Sync,
    /// Read the full message of a commit, for the reword window.
    ReadMessage { id: String, index: usize },
    /// List the worktrees of the repository.
    Worktrees,
    /// List the recent positions of HEAD.
    Reflog,
    /// Put text on the clipboard of the system.
    Copy(String),
    /// Read the tags, so the commit rows can show them.
    Tags,
    /// Read who last changed each line of a file.
    Blame(String),
    /// List the submodules of the repository.
    Submodules,
    /// Send each staged change back to the commit that last wrote those
    /// lines. Only the commits in the list may take a change.
    Absorb { own: Vec<String> },
    /// Run a command line through the shell, in the root of the repository.
    Shell(String),
    /// Add a pattern to the ignore rules. `local` writes to the private
    /// file of the repository, thus no other person sees the rule.
    Ignore { pattern: String, local: bool },
}

/// The request for the log worker that a request stands for, if it is one
/// of the log requests. Every other request goes to the main worker.
pub fn log_req(req: Req) -> (r: Result<LogReq, Req>)
    ensures
        match req {
            Req::LogChunk { count } => r == Ok::<LogReq, Req>(LogReq::Chunk(count)),
            Req::LogRefresh { count } => r == Ok::<LogReq, Req>(LogReq::Refresh(count)),
            Req::LogFirstParent(on) => r == Ok::<LogReq, Req>(LogReq::FirstParent(on)),
            Req::LogFilter(text) => r == Ok::<LogReq, Req>(LogReq::Filter(text)),
            Req::LogReset => r == Ok::<LogReq, Req>(LogReq::Reset),
            _ => r == Err::<LogReq, Req>(req),
        },
{
    match req {
        Req::LogChunk { count } => Ok(LogReq::Chunk(count)),
        Req::LogRefresh { count } => Ok(LogReq::Refresh(count)),
        Req::LogFirstParent(on) => Ok(LogReq::FirstParent(on)),
        Req::LogFilter(text) => Ok(LogReq::Filter(text)),
        Req::LogReset => Ok(LogReq::Reset),
        other => Err(other),
    }
}

pub struct WorktreeEntry {
    pub path: String,
    pub branch: String,
    pub current: bool,
    /// The first worktree of a repository. Git does not let you remove it.
    pub main: bool,
    pub locked: bool,
    /// The directory is gone. A prune removes the record.
    pub prunable: bool,
}

pub enum DiffTarget {
    /// A file in the work tree. Git does not track a new file, thus its
    /// diff needs another command.
    WorktreeFile { path: String, untracked: bool },
    Commit(String),
    /// A stash entry, by its position in the list.
    Stash(usize),
    /// Everything between two commits.
    Range { from: String, to: String },
}

pub enum Resp {
    Status(Vec<FileEntry>),
    /// The state of the paths that were looked at. A path that was looked
    /// at and is not in `files` has no change any more.
    StatusPaths { scanned: Vec<String>, files: Vec<FileEntry> },
    Branches { current: Option<String>, entries: Vec<BranchEntry> },
    Stashes(Vec<String>),
    LogChunk { entries: Vec<CommitEntry>, done: bool },
    /// HEAD moved. These entries take the place of the whole list.
    LogReplace { entries: Vec<CommitEntry>, done: bool },
    /// `text` is the work-tree diff. `staged` is the index diff. A commit
    /// puts everything in `text` and leaves `staged` empty.
    Diff { seq: u64, text: String, staged: String },
    /// `output` holds the first lines that the command printed. The command
    /// log shows them.
    WriteDone { ok: bool, cmd: String, output: Vec<String>, ms: u64 },
    /// A command that the program started on its own. It only writes to
    /// the log, thus it never opens a window over your work.
    Background { ok: bool, cmd: String, output: Vec<String>, ms: u64 },
    Sync {
        ahead: u32,
        behind: u32,
        /// The short ids of the commits that the upstream branch lacks.
        unpushed: Vec<String>,
        /// The upstream branch, such as "origin/main".
        upstream: Option<String>,
    },
    Message { text: String, index: usize },
    Worktrees(Vec<WorktreeEntry>),
    Reflog(Vec<ReflogEntry>),
    /// The tag names of each commit that carries one.
    Tags(Vec<(String, Vec<String>)>),
    Blame { path: String, lines: Vec<BlameLine> },
    Submodules(Vec<SubmoduleEntry>),
}

/// Whether two texts are equal.
pub fn text_eq(a: &str, b: &str) -> (r: bool)
    ensures
        r == (a@ == b@),
{
    let x = chars_of(a);
    let y = chars_of(b);
    if x.len() != y.len() {
        return false;
    }
    let mut i: usize = 0;
    while i < x.len()
        invariant
            x@ == a@,
            y@ == b@,
            x@.len() == y@.len(),
            0 <= i <= x@.len(),
            forall|j: int| 0 <= j < i ==> x@[j] == y@[j],
        decreases x@.len() - i,
    {
        if x[i] != y[i] {
            assert(x@[i as int] != y@[i as int]);
            return false;
        }
        i += 1;
    }
    assert(x@ =~= y@);
    true
}

/// The texts of a list, each once, in the order they first came.
pub open spec fn distinct(s: Seq<Seq<char>>) -> Seq<Seq<char>>
    decreases s.len(),
{
    if s.len() == 0 {
        seq![]
    } else {
        let d = distinct(s.drop_last());
        if d.contains(s.last()) {
            d
        } else {
            d.push(s.last())
        }
    }
}

/// `distinct` holds no text twice, and holds what the list holds.
pub proof fn lemma_distinct(s: Seq<Seq<char>>)
    ensures
        distinct(s).no_duplicates(),
        forall|x: Seq<char>| #[trigger] distinct(s).contains(x) <==> s.contains(x),
    decreases s.len(),
{
    if s.len() > 0 {
        let p = s.drop_last();
        lemma_distinct(p);
        let d = distinct(p);
        assert forall|x: Seq<char>| #[trigger] distinct(s).contains(x) <==> s.contains(x) by {
            if s.contains(x) {
                let i = choose|i: int| 0 <= i < s.len() && s[i] == x;
                if i < s.len() - 1 {
                    assert(p[i] == x);
                    assert(p.contains(x));
                    assert(distinct(p).contains(x));
                    if !d.contains(s.last()) {
                        let j = choose|j: int| 0 <= j < d.len() && d[j] == x;
                        assert(d.push(s.last())[j] == x);
                    }
                } else if !d.contains(s.last()) {
                    assert(d.push(s.last())[d.len() as int] == x);
                }
            }
            if distinct(s).contains(x) {
                let i = choose|i: int| 0 <= i < distinct(s).len() && distinct(s)[i] == x;
                if d.contains(s.last()) || i < d.len() {
                    if !d.contains(s.last()) {
                        assert(d[i] == x);
                    }
                    assert(d.contains(x));
                    assert(distinct(p).contains(x));
                    assert(p.contains(x));
                    let j = choose|j: int| 0 <= j < p.len() && p[j] == x;
                    assert(s[j] == x);
                } else {
                    assert(s[s.len() - 1] == x);
                }
            }
        }
        if !d.contains(s.last()) {
            let e = d.push(s.last());
            assert forall|i: int, j: int| 0 <= i < e.len() && 0 <= j < e.len() && i != j implies e[i]
                != e[j] by {
                if i == d.len() {
                    assert(d.contains(e[j]));
                } else if j == d.len() {
                    assert(d.contains(e[i]));
                }
            }
        }
    }
}

/// The texts of a list, each once, in the order they first came.
pub fn distinct_texts(v: &Vec<String>) -> (r: Vec<String>)
    ensures
        views(r@) == distinct(views(v@)),
{
    let ghost vs = views(v@);
    let mut out: Vec<String> = Vec::new();
    let mut i: usize = 0;
    while i < v.len()
        invariant
            vs == views(v@),
            0 <= i <= v@.len(),
            views(out@) == distinct(vs.take(i as int)),
        decreases v@.len() - i,
    {
        proof {
            assert(vs.take(i + 1).drop_last() =~= vs.take(i as int));
            assert(vs.take(i + 1).last() == v@[i as int]@);
        }
        let mut found = false;
        let mut k: usize = 0;
        while k < out.len()
            invariant
                0 <= k <= out@.len(),
                found == exists|j: int| 0 <= j < k && #[trigger] out@[j]@ == v@[i as int]@,
                0 <= i < v@.len(),
            decreases out@.len() - k,
        {
            if text_eq(out[k].as_str(), v[i].as_str()) {
                found = true;
            }
            k += 1;
        }
        proof {
            if views(out@).contains(v@[i as int]@) {
                let j = choose|j: int| 0 <= j < views(out@).len() && views(out@)[j] == v@[i as int]@;
                assert(out@[j]@ == v@[i as int]@);
            }
            if found {
                let j = choose|j: int| 0 <= j < k && #[trigger] out@[j]@ == v@[i as int]@;
                assert(views(out@)[j] == v@[i as int]@);
            }
        }
        if !found {
            let t = v[i].clone();
            proof {
                assert(views(out@.push(t)) =~= views(out@).push(t@));
            }
            out.push(t);
        }
        i += 1;
    }
    proof {
        assert(vs.take(i as int) =~= vs);
    }
    out
}

/// True for a command that talks to a remote. Those commands are slow.
pub fn is_network(args: &[String]) -> (r: bool)
    ensures
        r == (args@.len() > 0 && (args@[0]@ == "push"@ || args@[0]@ == "pull"@ || args@[0]@
            == "fetch"@)),
{
    if args.len() == 0 {
        return false;
    }
    let first = args[0].as_str();
    text_eq(first, "push") || text_eq(first, "pull") || text_eq(first, "fetch")
}

/// The number of output lines that the command log keeps.
pub const LOG_LINES: usize = 12;

/// A line of output with the server's mark taken away.
pub open spec fn unmark(l: Seq<char>) -> Seq<char> {
    if starts_with(l, "remote:"@) {
        trim_start(l.skip(7))
    } else {
        l
    }
}

/// The lines that say something, with the server's marks taken away.
pub open spec fn telling_lines(ls: Seq<Seq<char>>) -> Seq<Seq<char>>
    decreases ls.len(),
{
    if ls.len() == 0 {
        seq![]
    } else {
        let rest = telling_lines(ls.drop_last());
        let l = unmark(ls.last());
        if all_ws(l) {
            rest
        } else {
            rest.push(l)
        }
    }
}

proof fn lemma_telling_prefix(ls: Seq<Seq<char>>, k: int)
    requires
        0 <= k <= ls.len(),
    ensures
        telling_lines(ls.take(k)).len() <= telling_lines(ls).len(),
        telling_lines(ls.take(k)) == telling_lines(ls).take(telling_lines(ls.take(k)).len() as int),
    decreases ls.len() - k,
{
    if k == ls.len() {
        assert(ls.take(k) =~= ls);
        assert(telling_lines(ls).take(telling_lines(ls).len() as int) =~= telling_lines(ls));
    } else {
        lemma_telling_prefix(ls, k + 1);
        assert(ls.take(k + 1).drop_last() =~= ls.take(k));
        let a = telling_lines(ls.take(k));
        let b = telling_lines(ls.take(k + 1));
        assert(a == b || a == b.drop_last());
        assert(a =~= b.take(a.len() as int));
        assert(telling_lines(ls).take(a.len() as int) =~= telling_lines(ls).take(
            b.len() as int,
        ).take(a.len() as int));
    }
}

/// The lines of an output, ready for the command log. Git marks each line
/// that comes from the server with "remote:". The mark costs width and
/// says nothing, thus take it away. A line that is then empty says nothing
/// at all, thus drop it and keep the row for a line that does.
pub fn clean_lines(text: &str) -> (r: Vec<String>)
    ensures
        r@.len() == if telling_lines(lines_of(text@)).len() < LOG_LINES {
            telling_lines(lines_of(text@)).len()
        } else {
            LOG_LINES as nat
        },
        forall|k: int|
            0 <= k < r@.len() ==> (#[trigger] r@[k])@ == telling_lines(lines_of(text@))[k],
{
    let v = chars_of(text);
    let lines = line_ranges(v.as_slice());
    let ghost ls = lines_of(text@);
    let mark = vec!['r', 'e', 'm', 'o', 't', 'e', ':'];
    proof {
        assert(mark@ =~= "remote:"@) by {
            reveal_strlit("remote:");
        }
    }
    let mut out: Vec<String> = Vec::new();
    let mut k: usize = 0;
    while k < lines.len() && out.len() < LOG_LINES
        invariant
            v@ == text@,
            ls == lines_of(text@),
            mark@ == "remote:"@,
            mark@.len() == 7,
            lines@.len() == ls.len(),
            forall|j: int|
                #![trigger lines@[j]]
                0 <= j < lines@.len() ==> lines@[j].0 <= lines@[j].1 && lines@[j].1 <= v@.len()
                    && v@.subrange(lines@[j].0 as int, lines@[j].1 as int) == ls[j],
            0 <= k <= lines@.len(),
            out@.len() <= LOG_LINES,
            out@.len() == telling_lines(ls.take(k as int)).len(),
            forall|j: int|
                0 <= j < out@.len() ==> (#[trigger] out@[j])@ == telling_lines(ls.take(k as int))[j],
        decreases lines@.len() - k,
    {
        let (a, b) = lines[k];
        let ghost l = ls[k as int];
        assert(v@.subrange(a as int, b as int) == l);
        let marked = b - a >= 7 && crate::text::matches_at(v.as_slice(), a, mark.as_slice());
        let start = if marked {
            trim_start_pos(v.as_slice(), a + 7, b)
        } else {
            a
        };
        proof {
            let m = "remote:"@;
            assert(m.len() == 7);
            assert(l.len() == b - a);
            if marked {
                assert(l.take(7) =~= v@.subrange(a as int, a + 7));
                assert(l.skip(7) =~= v@.subrange(a + 7, b as int));
                assert(starts_with(l, m));
            } else if starts_with(l, m) {
                assert(b - a >= 7);
                assert(l.take(7) =~= v@.subrange(a as int, a + 7));
                assert(false);
            }
            assert(v@.subrange(start as int, b as int) == unmark(l));
        }
        // Keep the line if any character is not white space.
        let mut i = start;
        while i < b && is_whitespace(v[i])
            invariant
                start <= i <= b <= v@.len(),
                forall|j: int| start <= j < i ==> crate::text::is_ws(v@[j]),
            decreases b - i,
        {
            i += 1;
        }
        proof {
            assert(ls.take(k + 1).drop_last() =~= ls.take(k as int));
            assert(ls.take(k + 1).last() == l);
            let u = unmark(l);
            if i == b {
                assert forall|j: int| 0 <= j < u.len() implies crate::text::is_ws(
                    #[trigger] u[j],
                ) by {
                    assert(u[j] == v@[start + j]);
                }
            } else {
                assert(u[i - start] == v@[i as int]);
            }
        }
        if i < b {
            out.push(string_of(v.as_slice(), start, b));
        }
        k += 1;
    }
    proof {
        lemma_telling_prefix(ls, k as int);
        if k == lines@.len() {
            assert(ls.take(k as int) =~= ls);
        }
        let t = telling_lines(ls);
        let p = telling_lines(ls.take(k as int));
        assert(p == t.take(p.len() as int));
        if out@.len() < LOG_LINES {
            assert(k == lines@.len());
            assert(p == t);
        } else {
            assert(t.len() >= LOG_LINES);
        }
        assert forall|j: int| 0 <= j < out@.len() implies (#[trigger] out@[j])@ == t[j] by {
            assert(p[j] == t.take(p.len() as int)[j]);
        }
    }
    out
}

} // verus!
