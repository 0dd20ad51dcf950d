//! The state of the program, and what each action and each answer of git
//! does to it. The program around the library reads the keys, sends the
//! requests that wait in the outbox, and draws the state.
use vstd::prelude::*;

use crate::git::patch::{diff_split, hunk_patch, patch_of, split_diff, views};
use crate::event::Msg;
use crate::git::{text_eq, BranchEntry, CommitEntry, DiffTarget, FileEntry, Req, Resp};
use crate::keys::{action_for, global_action, panel_action, Action, Key};
use crate::text::{chars_of, decimal, join, push_char, push_decimal, push_joined, push_str, string_from, string_of};
use crate::tree::{build, row_view, string_views, tree_of, TreeRow};

verus! {

/// Commits come in small chunks. A large chunk touches many pack pages at
/// start time. The scroll logic asks for the next chunk early enough.
pub const LOG_CHUNK: usize = 100;

/// The most lines that the command log keeps.
pub const CMD_LOG_MAX: usize = 100;

/// What the program knows of the repository.
pub struct RepoState {
    pub head: Option<String>,
    pub files: Vec<FileEntry>,
    pub branches: Vec<String>,
    pub commits: Vec<CommitEntry>,
    pub stashes: Vec<String>,
    pub log_done: bool,
    pub diff: String,
    pub ahead: u32,
    pub behind: u32,
    /// Short ids of commits that the upstream branch does not have.
    pub unpushed: Vec<String>,
}

impl RepoState {
    /// Nothing known yet.
    pub open spec fn is_empty_state(&self) -> bool {
        &&& self.head is None
        &&& self.files@.len() == 0
        &&& self.branches@.len() == 0
        &&& self.commits@.len() == 0
        &&& self.stashes@.len() == 0
        &&& !self.log_done
        &&& self.diff@.len() == 0
        &&& self.ahead == 0
        &&& self.behind == 0
        &&& self.unpushed@.len() == 0
    }
}

impl Default for RepoState {
    fn default() -> (r: Self)
        ensures
            r.is_empty_state(),
    {
        RepoState {
            head: None,
            files: Vec::new(),
            branches: Vec::new(),
            commits: Vec::new(),
            stashes: Vec::new(),
            log_done: false,
            diff: String::new(),
            ahead: 0,
            behind: 0,
            unpushed: Vec::new(),
        }
    }
}

#[derive(Clone, Copy)]
pub enum InputPurpose {
    CommitMsg,
    NewBranch,
    StashMsg,
}

pub enum ConfirmAction {
    DeleteBranch(String),
    DropStash(usize),
}

pub enum Mode {
    Normal,
    Input { prompt: &'static str, buffer: String, purpose: InputPurpose },
    Confirm { prompt: String, action: ConfirmAction },
    Hunks { path: String, header: String, hunks: Vec<String>, cursor: usize },
    Help,
}

pub struct App {
    /// Focus 0 to 4 is a left panel. Focus 5 is the diff pane.
    pub focus: usize,
    pub selected: [usize; 6],
    pub quit: bool,
    pub repo: RepoState,
    pub mode: Mode,
    pub message: String,
    pub message_ok: bool,
    pub zoom: bool,
    pub diff_scroll: u16,
    pub tree: Vec<TreeRow>,
    /// The directories of the file tree that are folded.
    pub collapsed: Vec<String>,
    pub cmd_log: Vec<(bool, String)>,
    pub show_log: bool,
    /// Git is there to take requests.
    pub connected: bool,
    /// The requests for git that wait to be sent, oldest first.
    pub outbox: Vec<Req>,
    pub log_inflight: bool,
    pub diff_seq: u64,
    pub diff_target: Option<DiffTarget>,
    /// A git command that needs the terminal, to run before the next draw.
    pub pending_suspend: Option<Vec<String>>,
}

/// The command log after one more line: the oldest line goes when the log
/// is longer than it may be.
pub open spec fn capped(log: Seq<(bool, Seq<char>)>) -> Seq<(bool, Seq<char>)> {
    if log.len() > CMD_LOG_MAX {
        log.drop_first()
    } else {
        log
    }
}

/// The views of the command log.
pub open spec fn log_views(log: Seq<(bool, String)>) -> Seq<(bool, Seq<char>)> {
    log.map_values(|e: (bool, String)| (e.0, e.1@))
}

/// The line that the command log shows for a git command.
pub open spec fn git_line(args: Seq<Seq<char>>) -> Seq<char> {
    "→ git "@ + join(args, " "@)
}

/// A request to run git with these arguments.
pub open spec fn is_write(r: Req, args: Seq<Seq<char>>) -> bool {
    r matches Req::Write(a) && views(a@) == args
}

/// The view of a diff target: its kind, its texts and its number.
pub open spec fn target_view(t: DiffTarget) -> (nat, Seq<char>, Seq<char>, bool, usize) {
    match t {
        DiffTarget::WorktreeFile { path, untracked } => (0, path@, seq![], untracked, 0),
        DiffTarget::Commit(id) => (1, id@, seq![], false, 0),
        DiffTarget::Stash(i) => (2, seq![], seq![], false, i),
        DiffTarget::Range { from, to } => (3, from@, to@, false, 0),
    }
}

/// Two optional targets are the same target.
pub open spec fn same_target(a: Option<DiffTarget>, b: Option<DiffTarget>) -> bool {
    match (a, b) {
        (None, None) => true,
        (Some(x), Some(y)) => target_view(x) == target_view(y),
        _ => false,
    }
}

/// Whether two optional targets are the same target.
pub fn target_eq(a: &Option<DiffTarget>, b: &Option<DiffTarget>) -> (r: bool)
    ensures
        r == same_target(*a, *b),
{
    match (a, b) {
        (None, None) => true,
        (Some(x), Some(y)) => match (x, y) {
            (
                DiffTarget::WorktreeFile { path: p, untracked: u },
                DiffTarget::WorktreeFile { path: q, untracked: v },
            ) => *u == *v && text_eq(p.as_str(), q.as_str()),
            (DiffTarget::Commit(p), DiffTarget::Commit(q)) => text_eq(p.as_str(), q.as_str()),
            (DiffTarget::Stash(i), DiffTarget::Stash(j)) => *i == *j,
            (DiffTarget::Range { from: f1, to: t1 }, DiffTarget::Range { from: f2, to: t2 }) =>
                text_eq(f1.as_str(), f2.as_str()) && text_eq(t1.as_str(), t2.as_str()),
            _ => false,
        },
        _ => false,
    }
}

/// The list of texts as owned strings.
pub(crate) fn svec2(a: &str, b: &str) -> (r: Vec<String>)
    ensures
        views(r@) == seq![a@, b@],
{
    let mut v = Vec::new();
    v.push(string_from(a));
    v.push(string_from(b));
    proof {
        assert(views(v@) =~= seq![a@, b@]);
    }
    v
}

/// The list of texts as owned strings.
pub(crate) fn svec3(a: &str, b: &str, c: &str) -> (r: Vec<String>)
    ensures
        views(r@) == seq![a@, b@, c@],
{
    let mut v = Vec::new();
    v.push(string_from(a));
    v.push(string_from(b));
    v.push(string_from(c));
    proof {
        assert(views(v@) =~= seq![a@, b@, c@]);
    }
    v
}

/// The list of texts as owned strings.
pub(crate) fn svec4(a: &str, b: &str, c: &str, d: &str) -> (r: Vec<String>)
    ensures
        views(r@) == seq![a@, b@, c@, d@],
{
    let mut v = Vec::new();
    v.push(string_from(a));
    v.push(string_from(b));
    v.push(string_from(c));
    v.push(string_from(d));
    proof {
        assert(views(v@) =~= seq![a@, b@, c@, d@]);
    }
    v
}

/// The name of stash `i`: `stash@{i}`.
pub open spec fn stash_name(i: nat) -> Seq<char> {
    "stash@{"@ + decimal(i) + seq!['}']
}

/// The name of stash `i`.
pub fn stash_ref(i: usize) -> (r: String)
    ensures
        r@ == stash_name(i as nat),
{
    let mut s = string_from("stash@{");
    push_decimal(&mut s, i as u64);
    push_char(&mut s, '}');
    s
}

/// The directories without `d`.
pub open spec fn without(c: Seq<Seq<char>>, d: Seq<char>) -> Seq<Seq<char>>
    decreases c.len(),
{
    if c.len() == 0 {
        seq![]
    } else if c.last() == d {
        without(c.drop_last(), d)
    } else {
        without(c.drop_last(), d).push(c.last())
    }
}

/// The folded directories after a toggle of `d`: it goes if it was there,
/// else it comes.
pub open spec fn toggled(c: Seq<Seq<char>>, d: Seq<char>) -> Seq<Seq<char>> {
    if c.contains(d) {
        without(c, d)
    } else {
        c.push(d)
    }
}

proof fn lemma_without(c: Seq<Seq<char>>, d: Seq<char>)
    ensures
        forall|x: Seq<char>| #[trigger] without(c, d).contains(x) <==> c.contains(x) && x != d,
    decreases c.len(),
{
    if c.len() > 0 {
        let p = c.drop_last();
        let w = without(p, d);
        lemma_without(p, d);
        assert forall|x: Seq<char>| #[trigger] without(c, d).contains(x) implies c.contains(x)
            && x != d by {
            let i = choose|i: int| 0 <= i < without(c, d).len() && #[trigger] without(c, d)[i] == x;
            if c.last() == d {
                assert(w.contains(x));
                let j = choose|j: int| 0 <= j < p.len() && #[trigger] p[j] == x;
                assert(c[j] == x);
            } else if i == w.len() {
                assert(c[c.len() - 1] == x);
            } else {
                assert(w[i] == x);
                assert(w.contains(x));
                let j = choose|j: int| 0 <= j < p.len() && #[trigger] p[j] == x;
                assert(c[j] == x);
            }
        }
        assert forall|x: Seq<char>| c.contains(x) && x != d implies #[trigger] without(
            c,
            d,
        ).contains(x) by {
            let i = choose|i: int| 0 <= i < c.len() && #[trigger] c[i] == x;
            if i == c.len() - 1 {
                assert(without(c, d)[w.len() as int] == x);
            } else {
                assert(p[i] == x);
                assert(p.contains(x));
                assert(w.contains(x));
                let j = choose|j: int| 0 <= j < w.len() && #[trigger] w[j] == x;
                if c.last() != d {
                    assert(without(c, d)[j] == x);
                }
            }
        }
    }
}

/// A list with no directory twice keeps none twice after a toggle.
proof fn lemma_toggled_unique(c: Seq<Seq<char>>, d: Seq<char>)
    requires
        c.no_duplicates(),
    ensures
        toggled(c, d).no_duplicates(),
{
    if c.contains(d) {
        lemma_without_unique(c, d);
    }
}

proof fn lemma_without_unique(c: Seq<Seq<char>>, d: Seq<char>)
    requires
        c.no_duplicates(),
    ensures
        without(c, d).no_duplicates(),
    decreases c.len(),
{
    if c.len() > 0 {
        let p = c.drop_last();
        assert(p.no_duplicates()) by {
            assert forall|i: int, j: int| 0 <= i < p.len() && 0 <= j < p.len() && i != j implies p[i]
                != p[j] by {
                assert(p[i] == c[i] && p[j] == c[j]);
            }
        }
        lemma_without_unique(p, d);
        lemma_without(p, d);
        if c.last() != d {
            let w = without(p, d);
            if w.contains(c.last()) {
                let j = choose|j: int| 0 <= j < p.len() && p[j] == c.last();
                assert(c[j] == c[c.len() - 1]);
            }
            assert forall|i: int, j: int|
                0 <= i < w.push(c.last()).len() && 0 <= j < w.push(c.last()).len() && i != j implies w.push(
                c.last(),
            )[i] != w.push(c.last())[j] by {
                if i == w.len() {
                    assert(w.contains(w.push(c.last())[j]));
                } else if j == w.len() {
                    assert(w.contains(w.push(c.last())[i]));
                }
            }
        }
    }
}

/// Fold or unfold directory `d`.
fn toggle_dir(collapsed: &mut Vec<String>, d: &String)
    ensures
        string_views(final(collapsed)@) == toggled(string_views(old(collapsed)@), d@),
{
    let ghost c = string_views(collapsed@);
    let mut kept: Vec<String> = Vec::new();
    let mut found = false;
    let mut k: usize = 0;
    while k < collapsed.len()
        invariant
            c == string_views(collapsed@),
            0 <= k <= collapsed@.len(),
            string_views(kept@) == without(c.take(k as int), d@),
            found == c.take(k as int).contains(d@),
        decreases collapsed@.len() - k,
    {
        proof {
            assert(c.take(k + 1).drop_last() =~= c.take(k as int));
            assert(c.take(k + 1).last() == collapsed@[k as int]@);
        }
        if text_eq(collapsed[k].as_str(), d.as_str()) {
            found = true;
            proof {
                assert(c.take(k + 1)[k as int] == d@);
            }
        } else {
            proof {
                assert(string_views(kept@.push(collapsed@[k as int])) =~= string_views(kept@).push(
                    collapsed@[k as int]@,
                ));
            }
            kept.push(collapsed[k].clone());
        }
        proof {
            if c.take(k + 1).contains(d@) && !c.take(k as int).contains(d@) {
                let i = choose|i: int| 0 <= i < k + 1 && #[trigger] c.take(k + 1)[i] == d@;
                if i < k {
                    assert(c.take(k as int)[i] == d@);
                }
            }
            if c.take(k as int).contains(d@) {
                let i = choose|i: int| 0 <= i < k && #[trigger] c.take(k as int)[i] == d@;
                assert(c.take(k + 1)[i] == d@);
            }
        }
        k += 1;
    }
    proof {
        assert(c.take(k as int) =~= c);
    }
    if found {
        *collapsed = kept;
    } else {
        let e = d.clone();
        proof {
            assert(string_views(collapsed@.push(e)) =~= c.push(d@));
        }
        collapsed.push(e);
    }
}

/// Take the last character off a text.
fn pop_char(s: &mut String)
    ensures
        final(s)@ == if old(s)@.len() > 0 {
            old(s)@.drop_last()
        } else {
            old(s)@
        },
{
    let v = chars_of(s.as_str());
    if v.len() > 0 {
        let t = string_of(v.as_slice(), 0, v.len() - 1);
        proof {
            assert(t@ =~= v@.drop_last());
        }
        *s = t;
    }
}

impl App {
    /// Focus names a panel, the command log is no longer than it may be,
    /// and the hunk cursor points at a hunk.
    pub open spec fn wf(&self) -> bool {
        &&& self.focus < 6
        &&& self.cmd_log@.len() <= CMD_LOG_MAX
        &&& string_views(self.collapsed@).no_duplicates()
        &&& views(self.repo.unpushed@).no_duplicates()
        &&& (self.mode matches Mode::Hunks { hunks, cursor, .. } ==> cursor < hunks@.len())
    }

    /// The number of rows of a panel.
    pub open spec fn len_of(&self, panel: usize) -> nat {
        if panel == 0 {
            1
        } else if panel == 1 {
            self.tree@.len()
        } else if panel == 2 {
            self.repo.branches@.len()
        } else if panel == 3 {
            self.repo.commits@.len()
        } else if panel == 4 {
            self.repo.stashes@.len()
        } else {
            0
        }
    }

    /// The row of the file tree under the selection.
    pub open spec fn row_at(&self) -> Option<TreeRow> {
        if self.selected[1] < self.tree@.len() {
            Some(self.tree@[self.selected[1] as int])
        } else {
            None
        }
    }

    /// The directory under the selection of the file tree.
    pub open spec fn dir_at(&self) -> Option<String> {
        match self.row_at() {
            Some(r) => r.dir,
            None => None,
        }
    }

    /// The file under the selection of the file tree.
    pub open spec fn file_at(&self) -> Option<FileEntry> {
        match self.row_at() {
            Some(r) => match r.file {
                Some(i) => if i < self.repo.files@.len() {
                    Some(self.repo.files@[i as int])
                } else {
                    None
                },
                None => None,
            },
            None => None,
        }
    }

    pub fn new() -> (r: App)
        ensures
            r.wf(),
            r.focus == 1,
            forall|i: int| 0 <= i < 6 ==> r.selected[i] == 0,
            !r.quit,
            r.repo.is_empty_state(),
            r.mode is Normal,
            r.message@.len() == 0,
            r.message_ok,
            !r.zoom,
            r.diff_scroll == 0,
            r.tree@.len() == 0,
            r.collapsed@.len() == 0,
            r.cmd_log@.len() == 0,
            r.show_log,
            !r.connected,
            r.outbox@.len() == 0,
            !r.log_inflight,
            r.diff_seq == 0,
            r.diff_target is None,
            r.pending_suspend is None,
    {
        App {
            focus: 1,
            selected: [0;6],
            quit: false,
            repo: RepoState::default(),
            mode: Mode::Normal,
            message: String::new(),
            message_ok: true,
            zoom: false,
            diff_scroll: 0,
            tree: Vec::new(),
            collapsed: Vec::new(),
            cmd_log: Vec::new(),
            show_log: true,
            connected: false,
            outbox: Vec::new(),
            log_inflight: false,
            diff_seq: 0,
            diff_target: None,
            pending_suspend: None,
        }
    }

    /// The number of rows of a panel.
    pub fn panel_len(&self, panel: usize) -> (r: usize)
        ensures
            r == self.len_of(panel),
    {
        match panel {
            0 => 1,
            1 => self.tree.len(),
            2 => self.repo.branches.len(),
            3 => self.repo.commits.len(),
            4 => self.repo.stashes.len(),
            _ => 0,
        }
    }

    /// Add a line to the command log. Old entries have no value, thus the
    /// log stays short.
    pub fn log_cmd(&mut self, ok: bool, line: String)
        requires
            old(self).cmd_log@.len() <= CMD_LOG_MAX,
        ensures
            log_views(final(self).cmd_log@) == capped(log_views(old(self).cmd_log@).push((ok, line@))),
            final(self).cmd_log@.len() <= CMD_LOG_MAX,
            *final(self) == (App { cmd_log: final(self).cmd_log, ..*old(self) }),
    {
        let ghost before = log_views(self.cmd_log@);
        self.cmd_log.push((ok, line));
        proof {
            assert(log_views(self.cmd_log@) =~= before.push((ok, line@)));
        }
        if self.cmd_log.len() > CMD_LOG_MAX {
            self.cmd_log.remove(0);
            proof {
                assert(log_views(self.cmd_log@) =~= before.push((ok, line@)).drop_first());
            }
        }
    }

    /// Run a git command: the log shows it, and the request waits in the
    /// outbox.
    pub fn write(&mut self, args: Vec<String>)
        requires
            old(self).cmd_log@.len() <= CMD_LOG_MAX,
        ensures
            wrote(*old(self), *final(self), views(args@)),
            final(self).cmd_log@.len() <= CMD_LOG_MAX,
    {
        let ghost a = views(args@);
        let mut line = string_from("→ git ");
        push_joined(&mut line, &args, " ");
        proof {
            assert(args@.map_values(|s: String| s@) =~= views(args@));
        }
        self.log_cmd(true, line);
        if self.connected {
            let ghost before = self.outbox@;
            self.outbox.push(Req::Write(args));
            proof {
                assert(self.outbox@.drop_last() =~= before);
            }
        }
    }

    /// The selection of the panel in focus becomes `v`.
    fn select(&mut self, v: usize)
        requires
            old(self).focus < 6,
        ensures
            selects(*old(self), *final(self), v as int),
    {
        let f = self.focus;
        self.selected[f] = v;
        proof {
            assert(self.selected@ =~= old(self).selected@.update(f as int, v));
        }
    }

    /// Keep the selection of a panel within its rows.
    pub fn clamp(&mut self, panel: usize)
        requires
            panel < 6,
        ensures
            clamped(*old(self), *final(self), panel as int),
    {
        let len = self.panel_len(panel);
        let last = if len == 0 {
            0
        } else {
            len - 1
        };
        let v = if self.selected[panel] <= last {
            self.selected[panel]
        } else {
            last
        };
        self.selected[panel] = v;
        proof {
            assert(self.selected@ =~= old(self).selected@.update(panel as int, v));
        }
    }

    /// Build the file tree again from the files and the folded directories.
    pub fn rebuild_tree(&mut self)
        ensures
            final(self).tree@.map_values(|r: TreeRow| row_view(r)) == tree_of(
                old(self).repo.files@,
                old(self).collapsed@,
            ),
            ({
                let rows = tree_of(old(self).repo.files@, old(self).collapsed@);
                let last = if rows.len() == 0 {
                    0
                } else {
                    rows.len() - 1
                };
                final(self).selected@ == old(self).selected@.update(
                    1,
                    (if old(self).selected@[1] <= last {
                        old(self).selected@[1] as int
                    } else {
                        last
                    }) as usize,
                )
            }),
            *final(self) == (App { tree: final(self).tree, selected: final(self).selected, ..*old(self) }),
    {
        let t = build(self.repo.files.as_slice(), &self.collapsed);
        self.tree = t;
        proof {
            assert(self.tree@.len() == tree_of(old(self).repo.files@, old(self).collapsed@).len());
        }
        self.clamp(1);
    }

    /// Ask git for everything again.
    pub fn refresh_all(&mut self)
        ensures
            refreshed(*old(self), *final(self)),
    {
        if !self.connected {
            return;
        }
        let ghost start = self.outbox@;
        self.outbox.push(Req::Status);
        self.outbox.push(Req::Branches);
        self.outbox.push(Req::Stashes);
        self.outbox.push(Req::Sync);
        self.repo.commits.clear();
        self.repo.log_done = false;
        self.outbox.push(Req::LogReset);
        self.outbox.push(Req::LogChunk { count: LOG_CHUNK });
        self.log_inflight = true;
        // Force a new diff request for the current selection.
        self.diff_target = None;
        proof {
            assert(self.outbox@.take(start.len() as int) =~= start);
        }
    }

    /// Back from a git command that had the terminal: say how it went and
    /// read everything again. `outcome` is whether the command succeeded,
    /// with the text of its exit status, or the error that kept it from
    /// running.
    pub fn resume(&mut self, args: &Vec<String>, outcome: Result<(bool, String), String>)
        ensures
            exists|m: App|
                {
                    &&& #[trigger] resumed_text(string_views(args@), outcome) == (
                    m.message_ok,
                    m.message@,
                    )
                    &&& m == (App { message: m.message, message_ok: m.message_ok, ..*old(self) })
                    &&& refreshed(m, *final(self))
                },
    {
        let ghost parts = string_views(args@);
        assert(parts =~= args@.map_values(|s: String| s@));
        let mut text = string_from("git ");
        push_joined(&mut text, args, " ");
        match outcome {
            Ok((true, _)) => {
                push_str(&mut text, " done");
                self.message_ok = true;
                self.message = text;
            },
            Ok((false, status)) => {
                push_str(&mut text, " failed (");
                push_str(&mut text, status.as_str());
                push_char(&mut text, ')');
                self.message_ok = false;
                self.message = text;
            },
            Err(e) => {
                self.message_ok = false;
                self.message = e;
            },
        }
        let ghost m = *self;
        assert(resumed_text(parts, outcome) == (m.message_ok, m.message@));
        self.refresh_all();
    }

    /// The directory under the selection of the file tree.
    fn selected_dir(&self) -> (r: Option<String>)
        ensures
            match r {
                Some(d) => self.dir_at() matches Some(e) && d@ == e@,
                None => self.dir_at() is None,
            },
    {
        let i = self.selected[1];
        if i < self.tree.len() {
            match &self.tree[i].dir {
                Some(d) => Some(d.clone()),
                None => None,
            }
        } else {
            None
        }
    }

    /// The position in the status list of the file under the selection.
    fn selected_file(&self) -> (r: Option<usize>)
        ensures
            match r {
                Some(i) => i < self.repo.files@.len() && self.file_at() == Some(
                    self.repo.files@[i as int],
                ),
                None => self.file_at() is None,
            },
    {
        let i = self.selected[1];
        if i < self.tree.len() {
            match self.tree[i].file {
                Some(k) => if k < self.repo.files.len() {
                    Some(k)
                } else {
                    None
                },
                None => None,
            }
        } else {
            None
        }
    }

    /// The diff pane scrolled by `d` lines.
    fn scroll(&mut self, d: i32)
        requires
            -65536 < d < 65536,
        ensures
            scrolls(*old(self), *final(self), scroll_by(old(self).diff_scroll, d as int)),
    {
        let s = self.diff_scroll as i32 + d;
        self.diff_scroll = if s < 0 {
            0
        } else if s > 65535 {
            65535
        } else {
            s as u16
        };
    }

    /// Do what an action asks for.
    pub fn apply(&mut self, action: Action)
        requires
            old(self).wf(),
            action matches Action::FocusPanel(i) ==> i < 6,
        ensures
            final(self).wf(),
            applied(*old(self), action, *final(self)),
    {
        let sel = self.selected[self.focus];
        match action {
            Action::Quit => self.quit = true,
            Action::NextPanel => self.focus = (self.focus + 1) % 6,
            Action::PrevPanel => self.focus = (self.focus + 5) % 6,
            Action::FocusPanel(i) => self.focus = i,
            // In the diff pane, the motion keys scroll the text.
            Action::Down => if self.focus == 5 {
                self.scroll(1);
            } else {
                let len = self.panel_len(self.focus);
                if sel < len && len - sel > 1 {
                    self.select(sel + 1);
                } else {
                    self.select(sel);
                }
            },
            Action::Up => if self.focus == 5 {
                self.scroll(-1);
            } else {
                self.select(if sel >= 1 { sel - 1 } else { 0 });
            },
            Action::PageDown => if self.focus == 5 {
                self.scroll(15);
            } else {
                let len = self.panel_len(self.focus);
                let last = if len == 0 {
                    0
                } else {
                    len - 1
                };
                self.select(if sel <= last && last - sel >= 15 { sel + 15 } else { last });
            },
            Action::PageUp => if self.focus == 5 {
                self.scroll(-15);
            } else {
                self.select(if sel >= 15 { sel - 15 } else { 0 });
            },
            Action::Top => if self.focus == 5 {
                self.diff_scroll = 0;
            } else {
                self.select(0);
            },
            Action::Bottom => {
                let len = self.panel_len(self.focus);
                self.select(if len == 0 { 0 } else { len - 1 });
            },
            Action::DiffScroll(d) => self.scroll(d as i32),
            Action::ZoomGraph => self.zoom = !self.zoom,
            Action::Help => self.mode = Mode::Help,
            Action::ToggleLog => self.show_log = !self.show_log,
            Action::Refresh => self.refresh_all(),
            Action::ToggleStage => {
                // On a directory row, stage the whole directory.
                match self.selected_dir() {
                    Some(dir) => {
                        let args = svec3("add", "--", dir.as_str());
                        self.write(args);
                    },
                    None => match self.selected_file() {
                        Some(i) => {
                            let args = if self.repo.files[i].index != ' ' {
                                svec4("restore", "--staged", "--", self.repo.files[i].path.as_str())
                            } else {
                                svec3("add", "--", self.repo.files[i].path.as_str())
                            };
                            self.write(args);
                        },
                        None => {},
                    },
                }
            },
            Action::StageAll => {
                let args = svec2("add", "-A");
                self.write(args);
            },
            Action::CommitPrompt => {
                self.mode = Mode::Input {
                    prompt: "commit message",
                    buffer: String::new(),
                    purpose: InputPurpose::CommitMsg,
                };
            },
            Action::CommitEditor => {
                let mut v = Vec::new();
                v.push(string_from("commit"));
                proof {
                    assert(views(v@) =~= seq!["commit"@]);
                }
                self.pending_suspend = Some(v);
            },
            Action::StashPrompt => {
                self.mode = Mode::Input {
                    prompt: "stash message",
                    buffer: String::new(),
                    purpose: InputPurpose::StashMsg,
                };
            },
            Action::EnterHunks => self.enter_hunks(),
            Action::TakeOurs => self.take_side("--ours"),
            Action::TakeTheirs => self.take_side("--theirs"),
            Action::Checkout => {
                let i = self.selected[2];
                if i < self.repo.branches.len() {
                    let args = svec2("checkout", self.repo.branches[i].as_str());
                    self.write(args);
                }
            },
            Action::NewBranchPrompt => {
                self.mode = Mode::Input {
                    prompt: "new branch name",
                    buffer: String::new(),
                    purpose: InputPurpose::NewBranch,
                };
            },
            Action::DeleteBranch => {
                let i = self.selected[2];
                if i < self.repo.branches.len() {
                    let name = self.repo.branches[i].clone();
                    let mut prompt = string_from("delete branch ");
                    push_str(&mut prompt, name.as_str());
                    push_str(&mut prompt, "? y/n");
                    self.mode = Mode::Confirm { prompt, action: ConfirmAction::DeleteBranch(name) };
                }
            },
            Action::Push => {
                let mut v = Vec::new();
                v.push(string_from("push"));
                proof {
                    assert(views(v@) =~= seq!["push"@]);
                }
                self.pending_suspend = Some(v);
            },
            Action::Pull => {
                let mut v = Vec::new();
                v.push(string_from("pull"));
                proof {
                    assert(views(v@) =~= seq!["pull"@]);
                }
                self.pending_suspend = Some(v);
            },
            Action::Fetch => {
                let mut v = Vec::new();
                v.push(string_from("fetch"));
                proof {
                    assert(views(v@) =~= seq!["fetch"@]);
                }
                self.pending_suspend = Some(v);
            },
            Action::ApplyStash => {
                let i = self.selected[4];
                if i < self.repo.stashes.len() {
                    let name = stash_ref(i);
                    let args = svec3("stash", "apply", name.as_str());
                    self.write(args);
                }
            },
            Action::PopStash => {
                let i = self.selected[4];
                if i < self.repo.stashes.len() {
                    let name = stash_ref(i);
                    let args = svec3("stash", "pop", name.as_str());
                    self.write(args);
                }
            },
            Action::DropStash => {
                let i = self.selected[4];
                if i < self.repo.stashes.len() {
                    let mut prompt = string_from("drop ");
                    let name = stash_ref(i);
                    push_str(&mut prompt, name.as_str());
                    push_str(&mut prompt, "? y/n");
                    self.mode = Mode::Confirm { prompt, action: ConfirmAction::DropStash(i) };
                }
            },
        }
    }

    /// Take one side of a conflict: check that side out, then stage it.
    fn take_side(&mut self, side: &str)
        requires
            old(self).wf(),
            side@ == "--ours"@ || side@ == "--theirs"@,
        ensures
            final(self).wf(),
            match old(self).file_at() {
                Some(f) => if f.work == 'U' || f.index == 'U' {
                    wrote_two(
                        *old(self),
                        *final(self),
                        seq!["checkout"@, side@, "--"@, f.path@],
                        seq!["add"@, "--"@, f.path@],
                    )
                } else {
                    *final(self) == *old(self)
                },
                None => *final(self) == *old(self),
            },
    {
        match self.selected_file() {
            Some(i) => {
                if self.repo.files[i].conflicted() {
                    let path = self.repo.files[i].path.clone();
                    let ghost a = *self;
                    self.write(svec4("checkout", side, "--", path.as_str()));
                    let ghost m = *self;
                    self.write(svec3("add", "--", path.as_str()));
                    proof {
                        assert(self.outbox@.take(a.outbox@.len() as int) =~= a.outbox@);
                    }
                }
            },
            None => {},
        }
    }

    /// The enter key on the files panel.
    fn enter_hunks(&mut self)
        requires
            old(self).wf(),
        ensures
            final(self).wf(),
            enters_hunks(*old(self), *final(self)),
    {
        // On a directory row, the enter key folds or unfolds it.
        match self.selected_dir() {
            Some(dir) => {
                proof {
                    lemma_toggled_unique(string_views(self.collapsed@), dir@);
                }
                toggle_dir(&mut self.collapsed, &dir);
                self.rebuild_tree();
                return;
            },
            None => {},
        }
        let i = match self.selected_file() {
            Some(i) => i,
            None => {
                return;
            },
        };
        let path = self.repo.files[i].path.clone();
        let untracked = self.repo.files[i].work == '?';
        // The diff pane must already show this file. The diff text is
        // index-to-worktree, thus the hunks fit `apply --cached`.
        let shown = Some(DiffTarget::WorktreeFile { path: path.clone(), untracked });
        if !target_eq(&self.diff_target, &shown) {
            return;
        }
        match split_diff(self.repo.diff.as_str()) {
            Some((header, hunks)) => {
                if hunks.len() > 0 {
                    self.mode = Mode::Hunks { path, header, hunks, cursor: 0 };
                } else {
                    self.message = string_from("no hunks in this file");
                }
            },
            None => {
                self.message = string_from("no hunks in this file");
            },
        }
    }

    /// Send the text that was typed.
    fn submit_input(&mut self, purpose: InputPurpose, buffer: String)
        requires
            old(self).cmd_log@.len() <= CMD_LOG_MAX,
        ensures
            final(self).cmd_log@.len() <= CMD_LOG_MAX,
            submitted(*old(self), purpose, buffer@, *final(self)),
    {
        if buffer.as_str().is_empty() {
            return;
        }
        let args = match purpose {
            InputPurpose::CommitMsg => svec3("commit", "-m", buffer.as_str()),
            InputPurpose::NewBranch => svec3("checkout", "-b", buffer.as_str()),
            InputPurpose::StashMsg => svec4("stash", "push", "-m", buffer.as_str()),
        };
        self.write(args);
    }

    /// What a key does: in the normal mode it clears the message and does
    /// its action; a window takes the key for itself.
    pub fn handle_key(&mut self, key: Key)
        requires
            old(self).wf(),
        ensures
            final(self).wf(),
            key_handled(*old(self), key, *final(self)),
    {
        let mut mode = Mode::Normal;
        std::mem::swap(&mut mode, &mut self.mode);
        let ghost a = *old(self);
        match mode {
            Mode::Normal => {
                // A key press removes the old message. The bar then shows
                // the key hints again.
                self.message = String::new();
                let ghost m = *self;
                assert(m == (App { message: m.message, ..a }));
                match action_for(key, self.focus) {
                    Some(action) => {
                        proof {
                            if let Action::FocusPanel(i) = action {
                                if let Key::Char(c) = key {
                                    assert('1' <= c && c <= '5');
                                }
                            }
                        }
                        self.apply(action);
                    },
                    None => {},
                }
            },
            Mode::Help => {},
            Mode::Input { prompt, buffer, purpose } => {
                let mut buffer = buffer;
                match key {
                    Key::Esc => {},
                    Key::Backspace => {
                        pop_char(&mut buffer);
                        self.mode = Mode::Input { prompt, buffer, purpose };
                    },
                    Key::Char(c) => {
                        push_char(&mut buffer, c);
                        self.mode = Mode::Input { prompt, buffer, purpose };
                    },
                    Key::Enter => {
                        self.submit_input(purpose, buffer);
                    },
                    _ => {
                        self.mode = Mode::Input { prompt, buffer, purpose };
                    },
                }
            },
            Mode::Confirm { prompt, action } => {
                if key == Key::Char('y') {
                    let args = match action {
                        ConfirmAction::DeleteBranch(name) => svec3("branch", "-D", name.as_str()),
                        ConfirmAction::DropStash(i) => {
                            let name = stash_ref(i);
                            svec3("stash", "drop", name.as_str())
                        },
                    };
                    self.write(args);
                }
            },
            Mode::Hunks { path, header, hunks, cursor } => {
                match key {
                    Key::Esc | Key::Char('q') => {},
                    Key::Char('j') | Key::Down => {
                        let n = hunks.len();
                        let c = if n - cursor > 1 {
                            cursor + 1
                        } else {
                            n - 1
                        };
                        self.mode = Mode::Hunks { path, header, hunks, cursor: c };
                    },
                    Key::Char('k') | Key::Up => {
                        let c = if cursor >= 1 {
                            cursor - 1
                        } else {
                            0
                        };
                        self.mode = Mode::Hunks { path, header, hunks, cursor: c };
                    },
                    Key::Char(' ') => {
                        let patch = hunk_patch(header.as_str(), hunks[cursor].as_str());
                        // Line numbers of the other hunks change after the
                        // apply. Leave the mode instead of a stale re-use.
                        if self.connected {
                            let ghost before = self.outbox@;
                            self.outbox.push(Req::ApplyPatch { patch, reverse: false });
                            proof {
                                assert(self.outbox@.drop_last() =~= before);
                            }
                        }
                    },
                    _ => {
                        self.mode = Mode::Hunks { path, header, hunks, cursor };
                    },
                }
            },
        }
    }

    /// The requests that wait for git; the outbox is empty after.
    pub fn take_outbox(&mut self) -> (r: Vec<Req>)
        ensures
            r@ == old(self).outbox@,
            final(self).outbox@.len() == 0,
            *final(self) == (App { outbox: final(self).outbox, ..*old(self) }),
    {
        let mut out = Vec::new();
        std::mem::swap(&mut out, &mut self.outbox);
        out
    }

    /// The git command that needs the terminal, if one waits; none waits
    /// after.
    pub fn take_suspend(&mut self) -> (r: Option<Vec<String>>)
        ensures
            r == old(self).pending_suspend,
            *final(self) == (App { pending_suspend: None, ..*old(self) }),
    {
        let mut out = None;
        std::mem::swap(&mut out, &mut self.pending_suspend);
        out
    }

    /// Take an answer of git into the state.
    pub fn apply_resp(&mut self, resp: Resp)
        requires
            old(self).wf(),
        ensures
            final(self).wf(),
            resp_applied(*old(self), resp, *final(self)),
    {
        match resp {
            Resp::Status(files) => {
                self.repo.files = files;
                self.rebuild_tree();
            },
            Resp::StatusPaths { scanned, files } => self.take_paths(scanned, files),
            Resp::Branches { current, entries } => self.take_branches(current, entries),
            Resp::Stashes(stashes) => {
                self.repo.stashes = stashes;
                self.clamp(4);
            },
            Resp::LogChunk { entries, done } => self.take_chunk(entries, done),
            Resp::LogReplace { entries, done } => {
                self.repo.commits = entries;
                self.repo.log_done = done;
                self.log_inflight = false;
                self.clamp(3);
            },
            // Ignore a diff for an old selection. Only the last request counts.
            Resp::Diff { seq, text, staged } => {
                if seq == self.diff_seq {
                    self.repo.diff = text;
                    self.diff_scroll = 0;
                }
            },
            Resp::WriteDone { ok, cmd, output, ms } => self.take_done(ok, cmd),
            // A command that the program started on its own only writes to
            // the log.
            Resp::Background { ok, cmd, output, ms } => {
                self.log_cmd(ok, cmd);
            },
            Resp::Sync { ahead, behind, unpushed, upstream } => {
                // The ids form a set: each one once.
                let ids = crate::git::distinct_texts(&unpushed);
                proof {
                    crate::git::lemma_distinct(views(unpushed@));
                }
                self.repo.ahead = ahead;
                self.repo.behind = behind;
                self.repo.unpushed = ids;
            },
            _ => {},
        }
    }

    /// The state of the paths that were looked at.
    fn take_paths(&mut self, scanned: Vec<String>, files: Vec<FileEntry>)
        requires
            old(self).wf(),
        ensures
            final(self).wf(),
            exists|fs: Vec<FileEntry>| #[trigger] paths_step(*old(self), views(scanned@), files@, fs, *final(self)),
    {
        let ghost f = files@;
        let merged = merge_paths(&self.repo.files, &scanned, files);
        self.repo.files = merged;
        let ghost mid = *self;
        self.rebuild_tree();
        proof {
            let a = *old(self);
            assert(mid == (App { repo: RepoState { files: mid.repo.files, ..a.repo }, ..a }));
            assert(paths_step(a, views(scanned@), f, mid.repo.files, *self));
        }
    }

    /// The branches, and the branch at HEAD.
    fn take_branches(&mut self, current: Option<String>, entries: Vec<BranchEntry>)
        requires
            old(self).wf(),
        ensures
            final(self).wf(),
            exists|names: Vec<String>| #[trigger] branches_step(*old(self), current, entries@, names, *final(self)),
    {
        self.repo.head = current;
        self.repo.branches = branch_names(&entries);
        let ghost mid = *self;
        self.clamp(2);
        proof {
            let a = *old(self);
            assert(mid == (App {
                repo: RepoState { head: current, branches: mid.repo.branches, ..a.repo },
                ..a
            }));
            assert(branches_step(a, current, entries@, mid.repo.branches, *self));
        }
    }

    /// More commits at the end of the list.
    fn take_chunk(&mut self, entries: Vec<CommitEntry>, done: bool)
        requires
            old(self).wf(),
        ensures
            final(self).wf(),
            exists|cs: Vec<CommitEntry>| #[trigger] chunk_step(*old(self), entries@, done, cs, *final(self)),
    {
        let ghost e = entries@;
        let mut entries = entries;
        self.repo.commits.append(&mut entries);
        self.repo.log_done = done;
        self.log_inflight = false;
        let ghost mid = *self;
        self.clamp(3);
        proof {
            let a = *old(self);
            assert(mid == (App {
                repo: RepoState { commits: mid.repo.commits, log_done: done, ..a.repo },
                log_inflight: false,
                ..a
            }));
            assert(chunk_step(a, e, done, mid.repo.commits, *self));
        }
    }

    /// A command finished: show its line, log it, and after a success ask
    /// for everything again.
    fn take_done(&mut self, ok: bool, cmd: String)
        requires
            old(self).wf(),
        ensures
            final(self).wf(),
            exists|m: App| #[trigger] done_step(*old(self), ok, cmd@, m, *final(self)),
    {
        let ghost c = cmd@;
        self.message = cmd.clone();
        self.message_ok = ok;
        self.log_cmd(ok, cmd);
        let ghost mid = *self;
        if ok {
            self.refresh_all();
        }
        proof {
            let a = *old(self);
            assert(mid == (App { message: mid.message, message_ok: ok, cmd_log: mid.cmd_log, ..a }));
            assert(done_step(a, ok, c, mid, *self));
        }
    }

    /// Send the requests that the new state makes necessary. The main loop
    /// calls this one time after each message burst. Thus a fast scroll
    /// makes one diff request, not one for each step.
    pub fn flush_requests(&mut self)
        requires
            old(self).wf(),
            old(self).diff_seq < u64::MAX,
        ensures
            final(self).wf(),
            flushed(*old(self), *final(self)),
    {
        if !self.connected {
            return;
        }
        // Load more commits before the selection comes near the loaded end.
        let len = self.repo.commits.len();
        let sel = self.selected[3];
        let near_end = len <= LOG_CHUNK / 2 || sel >= len - LOG_CHUNK / 2;
        let ghost start = *self;
        if self.focus == 3 && near_end && !self.repo.log_done && !self.log_inflight {
            self.outbox.push(Req::LogChunk { count: LOG_CHUNK });
            self.log_inflight = true;
        }
        let ghost mid = *self;
        let target = match self.focus {
            1 => match self.selected_file() {
                Some(i) => Some(
                    DiffTarget::WorktreeFile {
                        path: self.repo.files[i].path.clone(),
                        untracked: self.repo.files[i].work == '?',
                    },
                ),
                None => None,
            },
            3 => if sel < len {
                Some(DiffTarget::Commit(string_from(self.repo.commits[sel].id_str())))
            } else {
                None
            },
            _ => None,
        };
        let ghost want = target;
        proof {
            assert(wanted_target(start, want));
            if self.focus == 3 && near_end && !start.repo.log_done && !start.log_inflight {
                assert(mid.outbox@ =~= start.outbox@.push(Req::LogChunk { count: LOG_CHUNK }));
            }
        }
        match target {
            Some(t) => {
                let t2 = Some(t);
                if !target_eq(&t2, &self.diff_target) {
                    let t = t2.unwrap();
                    self.diff_seq += 1;
                    self.diff_target = Some(t.clone_target());
                    self.outbox.push(Req::Diff { seq: self.diff_seq, target: t });
                    proof {
                        assert(self.outbox@ =~= mid.outbox@.push(Req::Diff { seq: self.diff_seq, target: want->0 }));
                    }
                }
            },
            None => {},
        }
        proof {
            assert(start == *old(self));
            assert(flush_step(start, mid, want, *self));
        }
    }

    /// Take a message of the main loop.
    pub fn update(&mut self, msg: Msg)
        requires
            old(self).wf(),
        ensures
            final(self).wf(),
            match msg {
                Msg::Key(k) => key_handled(*old(self), k, *final(self)),
                Msg::Git(r) => resp_applied(*old(self), r, *final(self)),
                Msg::Refresh => refreshed(*old(self), *final(self)),
                Msg::Dirty(names) => dirty_handled(*old(self), names, *final(self)),
                // A resize needs no work. The next draw uses the new size.
                _ => *final(self) == *old(self),
            },
    {
        match msg {
            Msg::Key(k) => self.handle_key(k),
            Msg::Git(r) => self.apply_resp(r),
            Msg::Refresh => self.refresh_all(),
            Msg::Dirty(names) => self.take_dirty(names),
            _ => {},
        }
    }

    /// Files of the work tree changed: ask for the status of those files,
    /// or of every file when which ones is not known.
    pub fn take_dirty(&mut self, names: Option<Vec<String>>)
        ensures
            dirty_handled(*old(self), names, *final(self)),
    {
        if !self.connected {
            return;
        }
        let req = match names {
            Some(paths) => Req::StatusPaths(paths),
            None => Req::Status,
        };
        self.outbox.push(req);
    }
}

/// `b` is `a` after one git command: the log shows it, and, when git is
/// there, the request waits in the outbox.
pub open spec fn wrote(a: App, b: App, args: Seq<Seq<char>>) -> bool {
    &&& log_views(b.cmd_log@) == capped(log_views(a.cmd_log@).push((true, git_line(args))))
    &&& if a.connected {
        b.outbox@.len() == a.outbox@.len() + 1 && b.outbox@.drop_last() == a.outbox@ && is_write(
            b.outbox@.last(),
            args,
        )
    } else {
        b.outbox@ == a.outbox@
    }
    &&& b == App { cmd_log: b.cmd_log, outbox: b.outbox, ..a }
}

/// `b` is `a` after two git commands, one after the other.
pub open spec fn wrote_two(a: App, b: App, x: Seq<Seq<char>>, y: Seq<Seq<char>>) -> bool {
    &&& log_views(b.cmd_log@) == capped(
        capped(log_views(a.cmd_log@).push((true, git_line(x)))).push((true, git_line(y))),
    )
    &&& if a.connected {
        b.outbox@.len() == a.outbox@.len() + 2 && b.outbox@.take(a.outbox@.len() as int)
            == a.outbox@ && is_write(b.outbox@[a.outbox@.len() as int], x) && is_write(
            b.outbox@[a.outbox@.len() + 1int],
            y,
        )
    } else {
        b.outbox@ == a.outbox@
    }
    &&& b == App { cmd_log: b.cmd_log, outbox: b.outbox, ..a }
}

/// `b` is `a` with the selection of the panel in focus at `v`.
pub open spec fn selects(a: App, b: App, v: int) -> bool {
    &&& b.selected@ == a.selected@.update(a.focus as int, v as usize)
    &&& b == App { selected: b.selected, ..a }
}

/// `b` is `a` with the diff scrolled to `v`.
pub open spec fn scrolls(a: App, b: App, v: int) -> bool {
    b == App { diff_scroll: v as u16, ..a }
}

/// `b` is `a` in the mode that asks for text.
pub open spec fn prompts(a: App, b: App, prompt: Seq<char>, purpose: InputPurpose) -> bool {
    &&& b.mode matches Mode::Input { prompt: p, buffer, purpose: q } && p@ == prompt
        && buffer@.len() == 0 && q == purpose
    &&& b == App { mode: b.mode, ..a }
}

/// `b` is `a` with a git command that needs the terminal waiting.
pub open spec fn suspends(a: App, b: App, args: Seq<Seq<char>>) -> bool {
    &&& b.pending_suspend matches Some(v) && views(v@) == args
    &&& b == App { pending_suspend: b.pending_suspend, ..a }
}

/// `b` is `a` with the selection of panel `p` kept within its rows.
pub open spec fn clamped(a: App, b: App, p: int) -> bool {
    let len = a.len_of(p as usize);
    let last = if len == 0 {
        0
    } else {
        len - 1
    };
    let v = if a.selected@[p] <= last {
        a.selected@[p] as int
    } else {
        last
    };
    &&& b.selected@ == a.selected@.update(p, v as usize)
    &&& b == App { selected: b.selected, ..a }
}

/// `b` is `a` after a refresh: when git is there, it is asked for the
/// status, the branches, the stashes and the sync state, and the log starts
/// again from HEAD with a first chunk.
pub open spec fn refreshed(a: App, b: App) -> bool {
    if !a.connected {
        b == a
    } else {
        &&& b.outbox@.len() == a.outbox@.len() + 6
        &&& b.outbox@.take(a.outbox@.len() as int) == a.outbox@
        &&& b.outbox@[a.outbox@.len() as int] is Status
        &&& b.outbox@[a.outbox@.len() + 1int] is Branches
        &&& b.outbox@[a.outbox@.len() + 2int] is Stashes
        &&& b.outbox@[a.outbox@.len() + 3int] is Sync
        &&& b.outbox@[a.outbox@.len() + 4int] is LogReset
        &&& b.outbox@[a.outbox@.len() + 5int] == Req::LogChunk { count: LOG_CHUNK }
        &&& b.repo.commits@.len() == 0
        &&& b.repo == RepoState { commits: b.repo.commits, log_done: false, ..a.repo }
        &&& b == App {
            outbox: b.outbox,
            repo: b.repo,
            log_inflight: true,
            diff_target: None,
            ..a
        }
    }
}

/// The diff pane scrolled by `d` lines, within the range of a `u16`.
pub open spec fn scroll_by(s: u16, d: int) -> int {
    if s + d < 0 {
        0
    } else if s + d > u16::MAX {
        u16::MAX as int
    } else {
        s + d
    }
}

/// `b` is `a` after a fold or an unfold of directory `d` of the file tree.
pub open spec fn folds(a: App, b: App, d: Seq<char>) -> bool {
    let c = toggled(string_views(a.collapsed@), d);
    let rows = tree_of(a.repo.files@, b.collapsed@);
    let last = if rows.len() == 0 {
        0
    } else {
        rows.len() - 1
    };
    &&& string_views(b.collapsed@) == c
    &&& b.tree@.map_values(|r: TreeRow| row_view(r)) == rows
    &&& b.selected@ == a.selected@.update(
        1,
        (if a.selected@[1] <= last {
            a.selected@[1] as int
        } else {
            last
        }) as usize,
    )
    &&& b == App { collapsed: b.collapsed, tree: b.tree, selected: b.selected, ..a }
}

/// `b` is `a` after the enter key on the files panel: a directory folds
/// or unfolds; a file whose diff the pane shows opens its hunks; a diff
/// with no hunk says so.
pub open spec fn enters_hunks(a: App, b: App) -> bool {
    match a.dir_at() {
        Some(d) => folds(a, b, d@),
        None => match a.file_at() {
            None => b == a,
            Some(f) => if !same_target(
                a.diff_target,
                Some(DiffTarget::WorktreeFile { path: f.path, untracked: f.work == '?' }),
            ) {
                b == a
            } else {
                match diff_split(a.repo.diff@) {
                    Some((h, hs)) => if hs.len() > 0 {
                        &&& b.mode matches Mode::Hunks { path, header, hunks, cursor } && path@
                            == f.path@ && header@ == h && views(hunks@) == hs && cursor == 0
                        &&& b == App { mode: b.mode, ..a }
                    } else {
                        b == App { message: b.message, ..a } && b.message@
                            == "no hunks in this file"@
                    },
                    None => b == App { message: b.message, ..a } && b.message@
                        == "no hunks in this file"@,
                }
            },
        },
    }
}

/// What an action does to the state.
pub open spec fn applied(a: App, action: Action, b: App) -> bool {
    let sel = a.selected@[a.focus as int];
    let len = a.len_of(a.focus);
    let last = if len == 0 {
        0
    } else {
        len - 1
    };
    match action {
        Action::Quit => b == App { quit: true, ..a },
        Action::NextPanel => b == App { focus: ((a.focus + 1) % 6) as usize, ..a },
        Action::PrevPanel => b == App { focus: ((a.focus + 5) % 6) as usize, ..a },
        Action::FocusPanel(i) => b == App { focus: i, ..a },
        Action::Down => if a.focus == 5 {
            scrolls(a, b, scroll_by(a.diff_scroll, 1))
        } else {
            selects(a, b, if sel + 1 < len { sel + 1 } else { sel as int })
        },
        Action::Up => if a.focus == 5 {
            scrolls(a, b, scroll_by(a.diff_scroll, -1))
        } else {
            selects(a, b, if sel >= 1 { sel - 1 } else { 0 })
        },
        Action::PageDown => if a.focus == 5 {
            scrolls(a, b, scroll_by(a.diff_scroll, 15))
        } else {
            selects(a, b, if sel + 15 <= last { sel + 15 } else { last })
        },
        Action::PageUp => if a.focus == 5 {
            scrolls(a, b, scroll_by(a.diff_scroll, -15))
        } else {
            selects(a, b, if sel >= 15 { sel - 15 } else { 0 })
        },
        Action::Top => if a.focus == 5 {
            scrolls(a, b, 0)
        } else {
            selects(a, b, 0)
        },
        Action::Bottom => selects(a, b, last),
        Action::DiffScroll(d) => scrolls(a, b, scroll_by(a.diff_scroll, d as int)),
        Action::ZoomGraph => b == App { zoom: !a.zoom, ..a },
        Action::Help => b == App { mode: Mode::Help, ..a },
        Action::ToggleLog => b == App { show_log: !a.show_log, ..a },
        Action::Refresh => refreshed(a, b),
        Action::ToggleStage => match a.dir_at() {
            Some(d) => wrote(a, b, seq!["add"@, "--"@, d@]),
            None => match a.file_at() {
                Some(f) => if f.index != ' ' {
                    wrote(a, b, seq!["restore"@, "--staged"@, "--"@, f.path@])
                } else {
                    wrote(a, b, seq!["add"@, "--"@, f.path@])
                },
                None => b == a,
            },
        },
        Action::StageAll => wrote(a, b, seq!["add"@, "-A"@]),
        Action::CommitPrompt => prompts(a, b, "commit message"@, InputPurpose::CommitMsg),
        Action::CommitEditor => suspends(a, b, seq!["commit"@]),
        Action::StashPrompt => prompts(a, b, "stash message"@, InputPurpose::StashMsg),
        Action::EnterHunks => enters_hunks(a, b),
        Action::TakeOurs => match a.file_at() {
            Some(f) => if f.work == 'U' || f.index == 'U' {
                wrote_two(
                    a,
                    b,
                    seq!["checkout"@, "--ours"@, "--"@, f.path@],
                    seq!["add"@, "--"@, f.path@],
                )
            } else {
                b == a
            },
            None => b == a,
        },
        Action::TakeTheirs => match a.file_at() {
            Some(f) => if f.work == 'U' || f.index == 'U' {
                wrote_two(
                    a,
                    b,
                    seq!["checkout"@, "--theirs"@, "--"@, f.path@],
                    seq!["add"@, "--"@, f.path@],
                )
            } else {
                b == a
            },
            None => b == a,
        },
        Action::Checkout => if a.selected@[2] < a.repo.branches@.len() {
            wrote(a, b, seq!["checkout"@, a.repo.branches@[a.selected@[2] as int]@])
        } else {
            b == a
        },
        Action::NewBranchPrompt => prompts(a, b, "new branch name"@, InputPurpose::NewBranch),
        Action::DeleteBranch => if a.selected@[2] < a.repo.branches@.len() {
            let name = a.repo.branches@[a.selected@[2] as int]@;
            &&& b.mode matches Mode::Confirm { prompt, action: ConfirmAction::DeleteBranch(n) }
                && prompt@ == "delete branch "@ + name + "? y/n"@ && n@ == name
            &&& b == App { mode: b.mode, ..a }
        } else {
            b == a
        },
        Action::Push => suspends(a, b, seq!["push"@]),
        Action::Pull => suspends(a, b, seq!["pull"@]),
        Action::Fetch => suspends(a, b, seq!["fetch"@]),
        Action::ApplyStash => if a.selected@[4] < a.repo.stashes@.len() {
            wrote(a, b, seq!["stash"@, "apply"@, stash_name(a.selected@[4] as nat)])
        } else {
            b == a
        },
        Action::PopStash => if a.selected@[4] < a.repo.stashes@.len() {
            wrote(a, b, seq!["stash"@, "pop"@, stash_name(a.selected@[4] as nat)])
        } else {
            b == a
        },
        Action::DropStash => if a.selected@[4] < a.repo.stashes@.len() {
            &&& b.mode matches Mode::Confirm { prompt, action: ConfirmAction::DropStash(i) }
                && prompt@ == "drop "@ + stash_name(a.selected@[4] as nat) + "? y/n"@ && i
                == a.selected@[4]
            &&& b == App { mode: b.mode, ..a }
        } else {
            b == a
        },
    }
}

/// The action of a key in a panel.
pub open spec fn action_of(key: Key, focus: usize) -> Option<Action> {
    if global_action(key) is Some {
        global_action(key)
    } else {
        panel_action(focus, key)
    }
}

/// `b` is `a` after the text that was typed went to git: a commit message,
/// a branch name or a stash message. Empty text sends nothing.
pub open spec fn submitted(a: App, purpose: InputPurpose, buffer: Seq<char>, b: App) -> bool {
    if buffer.len() == 0 {
        b == a
    } else {
        match purpose {
            InputPurpose::CommitMsg => wrote(a, b, seq!["commit"@, "-m"@, buffer]),
            InputPurpose::NewBranch => wrote(a, b, seq!["checkout"@, "-b"@, buffer]),
            InputPurpose::StashMsg => wrote(a, b, seq!["stash"@, "push"@, "-m"@, buffer]),
        }
    }
}

/// What a key does to the state.
pub open spec fn key_handled(a: App, key: Key, b: App) -> bool {
    let normal = App { mode: Mode::Normal, ..a };
    match a.mode {
        Mode::Normal => exists|m: App|
            {
                &&& m.message@.len() == 0
                &&& m == (App { message: m.message, ..a })
                &&& match action_of(key, a.focus) {
                    Some(act) => applied(m, act, b),
                    None => b == m,
                }
            },
        Mode::Help => b == normal,
        Mode::Input { prompt, buffer, purpose } => match key {
            Key::Esc => b == normal,
            Key::Backspace => {
                &&& b.mode matches Mode::Input { prompt: p, buffer: nb, purpose: q } && p == prompt
                    && q == purpose && nb@ == (if buffer@.len() > 0 {
                    buffer@.drop_last()
                } else {
                    buffer@
                })
                &&& b == (App { mode: b.mode, ..a })
            },
            Key::Char(c) => {
                &&& b.mode matches Mode::Input { prompt: p, buffer: nb, purpose: q } && p == prompt
                    && q == purpose && nb@ == buffer@.push(c)
                &&& b == (App { mode: b.mode, ..a })
            },
            Key::Enter => submitted(normal, purpose, buffer@, b),
            _ => b == a,
        },
        Mode::Confirm { prompt, action } => if key == Key::Char('y') {
            match action {
                ConfirmAction::DeleteBranch(name) => wrote(
                    normal,
                    b,
                    seq!["branch"@, "-D"@, name@],
                ),
                ConfirmAction::DropStash(i) => wrote(
                    normal,
                    b,
                    seq!["stash"@, "drop"@, stash_name(i as nat)],
                ),
            }
        } else {
            b == normal
        },
        Mode::Hunks { path, header, hunks, cursor } => match key {
            Key::Esc | Key::Char('q') => b == normal,
            Key::Char('j') | Key::Down => b == (App {
                mode: Mode::Hunks {
                    path,
                    header,
                    hunks,
                    cursor: if cursor + 1 < hunks@.len() {
                        (cursor + 1) as usize
                    } else {
                        (hunks@.len() - 1) as usize
                    },
                },
                ..a
            }),
            Key::Char('k') | Key::Up => b == (App {
                mode: Mode::Hunks {
                    path,
                    header,
                    hunks,
                    cursor: if cursor >= 1 {
                        (cursor - 1) as usize
                    } else {
                        0
                    },
                },
                ..a
            }),
            Key::Char(' ') => {
                &&& if a.connected {
                    &&& b.outbox@.len() == a.outbox@.len() + 1
                    &&& b.outbox@.drop_last() == a.outbox@
                    &&& b.outbox@.last() matches Req::ApplyPatch { patch, reverse } && patch@
                        == patch_of(header@, hunks@[cursor as int]@) && !reverse
                } else {
                    b.outbox@ == a.outbox@
                }
                &&& b == (App { outbox: b.outbox, ..normal })
            },
            _ => b == a,
        },
    }
}

impl DiffTarget {
    /// A copy of the target.
    pub fn clone_target(&self) -> (r: DiffTarget)
        ensures
            r == *self,
    {
        match self {
            DiffTarget::WorktreeFile { path, untracked } => DiffTarget::WorktreeFile {
                path: path.clone(),
                untracked: *untracked,
            },
            DiffTarget::Commit(id) => DiffTarget::Commit(id.clone()),
            DiffTarget::Stash(i) => DiffTarget::Stash(*i),
            DiffTarget::Range { from, to } => DiffTarget::Range { from: from.clone(), to: to.clone() },
        }
    }
}

/// The names of the branches.
pub fn branch_names(entries: &Vec<BranchEntry>) -> (r: Vec<String>)
    ensures
        views(r@) == entries@.map_values(|e: BranchEntry| e.name@),
{
    let mut out: Vec<String> = Vec::new();
    let mut k: usize = 0;
    while k < entries.len()
        invariant
            0 <= k <= entries@.len(),
            views(out@) == entries@.take(k as int).map_values(|e: BranchEntry| e.name@),
        decreases entries@.len() - k,
    {
        proof {
            assert(views(out@.push(entries@[k as int].name)) =~= views(out@).push(entries@[k as int].name@));
            assert(entries@.take(k + 1).map_values(|e: BranchEntry| e.name@) =~= entries@.take(
                k as int,
            ).map_values(|e: BranchEntry| e.name@).push(entries@[k as int].name@));
        }
        out.push(entries[k].name.clone());
        k += 1;
    }
    proof {
        assert(entries@.take(k as int) =~= entries@);
    }
    out
}

/// The files after a scan of some paths: the rows of the paths that were
/// not looked at stay, and the rows of the scan follow them.
pub open spec fn merged_paths(old: Seq<FileEntry>, scanned: Seq<Seq<char>>, files: Seq<FileEntry>) -> Seq<FileEntry> {
    old.filter(|f: FileEntry| !scanned.contains(f.path@)) + files
}

/// Whether the list holds the text.
fn holds_text(v: &Vec<String>, t: &String) -> (r: bool)
    ensures
        r == views(v@).contains(t@),
{
    let mut k: usize = 0;
    while k < v.len()
        invariant
            0 <= k <= v@.len(),
            forall|j: int| 0 <= j < k ==> v@[j]@ != t@,
        decreases v@.len() - k,
    {
        if text_eq(v[k].as_str(), t.as_str()) {
            assert(views(v@)[k as int] == t@);
            return true;
        }
        k += 1;
    }
    proof {
        if views(v@).contains(t@) {
            let j = choose|j: int| 0 <= j < views(v@).len() && #[trigger] views(v@)[j] == t@;
            assert(v@[j]@ == t@);
        }
    }
    false
}

/// The files after a scan of some paths.
fn merge_paths(old: &Vec<FileEntry>, scanned: &Vec<String>, files: Vec<FileEntry>) -> (r: Vec<FileEntry>)
    ensures
        r@ == merged_paths(old@, views(scanned@), files@),
{
    let ghost sc = views(scanned@);
    let mut out: Vec<FileEntry> = Vec::new();
    let mut k: usize = 0;
    while k < old.len()
        invariant
            sc == views(scanned@),
            0 <= k <= old@.len(),
            out@ == old@.take(k as int).filter(|f: FileEntry| !sc.contains(f.path@)),
        decreases old@.len() - k,
    {
        proof {
            assert(old@.take(k + 1).drop_last() =~= old@.take(k as int));
            reveal(Seq::filter);
        }
        if !holds_text(scanned, &old[k].path) {
            let f = FileEntry { index: old[k].index, work: old[k].work, path: old[k].path.clone() };
            out.push(f);
        }
        k += 1;
    }
    proof {
        assert(old@.take(k as int) =~= old@);
    }
    let mut files = files;
    out.append(&mut files);
    out
}

/// `b` is `a` with the file tree built again from `a`'s files.
pub open spec fn rebuilt(a: App, b: App) -> bool {
    let rows = tree_of(a.repo.files@, a.collapsed@);
    let last = if rows.len() == 0 {
        0
    } else {
        rows.len() - 1
    };
    &&& b.tree@.map_values(|r: TreeRow| row_view(r)) == rows
    &&& b.selected@ == a.selected@.update(
        1,
        (if a.selected@[1] <= last {
            a.selected@[1] as int
        } else {
            last
        }) as usize,
    )
    &&& b == (App { tree: b.tree, selected: b.selected, ..a })
}

/// `b` is `a` with the files `fs` of a scan of some paths.
pub open spec fn paths_step(a: App, scanned: Seq<Seq<char>>, files: Seq<FileEntry>, fs: Vec<FileEntry>, b: App) -> bool {
    fs@ == merged_paths(a.repo.files@, scanned, files) && rebuilt(
        App { repo: RepoState { files: fs, ..a.repo }, ..a },
        b,
    )
}

/// `b` is `a` with the branch names `names` and the branch at HEAD.
pub open spec fn branches_step(a: App, current: Option<String>, entries: Seq<BranchEntry>, names: Vec<String>, b: App) -> bool {
    views(names@) == entries.map_values(|e: BranchEntry| e.name@) && clamped(
        App { repo: RepoState { head: current, branches: names, ..a.repo }, ..a },
        b,
        2,
    )
}

/// `b` is `a` with the list of commits `cs` that a chunk made longer.
pub open spec fn chunk_step(a: App, entries: Seq<CommitEntry>, done: bool, cs: Vec<CommitEntry>, b: App) -> bool {
    cs@ == a.repo.commits@ + entries && clamped(
        App { repo: RepoState { commits: cs, log_done: done, ..a.repo }, log_inflight: false, ..a },
        b,
        3,
    )
}

/// `b` is `a` after a command finished: `m` shows its line as the message
/// and in the log; a command that went well asks for everything again.
pub open spec fn done_step(a: App, ok: bool, cmd: Seq<char>, m: App, b: App) -> bool {
    &&& m.message@ == cmd
    &&& log_views(m.cmd_log@) == capped(log_views(a.cmd_log@).push((ok, cmd)))
    &&& m == (App { message: m.message, message_ok: ok, cmd_log: m.cmd_log, ..a })
    &&& if ok {
        refreshed(m, b)
    } else {
        b == m
    }
}

/// `b` is `a` after files of the work tree changed: when git is there, it
/// is asked for the status of those files, or of every file.
pub open spec fn dirty_handled(a: App, names: Option<Vec<String>>, b: App) -> bool {
    if !a.connected {
        b == a
    } else {
        &&& b.outbox@ == a.outbox@.push(
            match names {
                Some(paths) => Req::StatusPaths(paths),
                None => Req::Status,
            },
        )
        &&& b == (App { outbox: b.outbox, ..a })
    }
}

/// What an answer of git does to the state.
pub open spec fn resp_applied(a: App, resp: Resp, b: App) -> bool {
    match resp {
        Resp::Status(files) => rebuilt(App { repo: RepoState { files, ..a.repo }, ..a }, b),
        Resp::StatusPaths { scanned, files } => exists|fs: Vec<FileEntry>|
            #[trigger] paths_step(a, views(scanned@), files@, fs, b),
        Resp::Branches { current, entries } => exists|names: Vec<String>|
            #[trigger] branches_step(a, current, entries@, names, b),
        Resp::Stashes(stashes) => clamped(App { repo: RepoState { stashes, ..a.repo }, ..a }, b, 4),
        Resp::LogChunk { entries, done } => exists|cs: Vec<CommitEntry>|
            #[trigger] chunk_step(a, entries@, done, cs, b),
        Resp::LogReplace { entries, done } => clamped(
            App { repo: RepoState { commits: entries, log_done: done, ..a.repo }, log_inflight: false, ..a },
            b,
            3,
        ),
        Resp::Diff { seq, text, staged } => if seq == a.diff_seq {
            b == (App { repo: RepoState { diff: text, ..a.repo }, diff_scroll: 0, ..a })
        } else {
            b == a
        },
        Resp::WriteDone { ok, cmd, output, ms } => exists|m: App| #[trigger] done_step(a, ok, cmd@, m, b),
        Resp::Background { ok, cmd, output, ms } => log_views(b.cmd_log@) == capped(
            log_views(a.cmd_log@).push((ok, cmd@)),
        ) && b == (App { cmd_log: b.cmd_log, ..a }),
        Resp::Sync { ahead, behind, unpushed, upstream } => {
            &&& views(b.repo.unpushed@) == crate::git::distinct(views(unpushed@))
            &&& b == (App { repo: RepoState { ahead, behind, unpushed: b.repo.unpushed, ..a.repo }, ..a })
        },
        _ => b == a,
    }
}

/// The text that `id_str` gives for a commit id.
pub open spec fn id_text(id: [u8; 7], s: Seq<char>) -> bool {
    &&& vstd::utf8::valid_utf8(id@) ==> vstd::utf8::encode_utf8(s) == id@
    &&& !vstd::utf8::valid_utf8(id@) ==> s == seq!['?', '?', '?', '?', '?', '?', '?']
}

/// The diff the pane should show: the file under the selection of the
/// files panel, or the commit under the selection of the commits panel.
pub open spec fn wanted_target(a: App, t: Option<DiffTarget>) -> bool {
    if a.focus == 1 {
        match a.file_at() {
            Some(f) => t == Some(DiffTarget::WorktreeFile { path: f.path, untracked: f.work == '?' }),
            None => t is None,
        }
    } else if a.focus == 3 {
        if a.selected@[3] < a.repo.commits@.len() {
            t matches Some(DiffTarget::Commit(id)) && id_text(a.repo.commits@[a.selected@[3] as int].id, id@)
        } else {
            t is None
        }
    } else {
        t is None
    }
}

/// One way to flush: `m` is `a` with the next chunk of commits asked for
/// when `more`, and `t` is the diff the pane should show.
pub open spec fn flush_step(a: App, m: App, t: Option<DiffTarget>, b: App) -> bool {
    let len = a.repo.commits@.len();
    let more = a.focus == 3 && a.selected@[3] + LOG_CHUNK / 2 >= len && !a.repo.log_done
        && !a.log_inflight;
    &&& (if more {
        m.outbox@ == a.outbox@.push(Req::LogChunk { count: LOG_CHUNK }) && m == (App {
            outbox: m.outbox,
            log_inflight: true,
            ..a
        })
    } else {
        m == a
    })
    &&& wanted_target(a, t)
    &&& if t is Some && !same_target(t, m.diff_target) {
        &&& b.diff_seq == m.diff_seq + 1
        &&& b.diff_target == t
        &&& b.outbox@ == m.outbox@.push(Req::Diff { seq: b.diff_seq, target: t->0 })
        &&& b == (App { diff_seq: b.diff_seq, diff_target: b.diff_target, outbox: b.outbox, ..m })
    } else {
        b == m
    }
}

/// `b` is `a` after the requests that `a` makes necessary: the next chunk
/// of commits when the selection nears the loaded end, and the diff of the
/// selection when the pane does not show it yet.
pub open spec fn flushed(a: App, b: App) -> bool {
    if !a.connected {
        b == a
    } else {
        exists|m: App, t: Option<DiffTarget>| #[trigger] flush_step(a, m, t, b)
    }
}

/// The next panel and then the one before it give back the same state.
pub proof fn lemma_next_then_prev(a: App, b: App, c: App)
    requires
        a.focus < 6,
        applied(a, Action::NextPanel, b),
        applied(b, Action::PrevPanel, c),
    ensures
        c == a,
{
}

/// A move of the selection keeps it on a row of the panel when the panel
/// has rows and the selection was on one of them.
pub proof fn lemma_moves_stay_on_rows(a: App, action: Action, b: App)
    requires
        a.focus < 5,
        a.selected@[a.focus as int] < a.len_of(a.focus),
        action is Up || action is Down || action is PageUp || action is PageDown || action is Top
            || action is Bottom,
        applied(a, action, b),
    ensures
        b.focus == a.focus,
        b.selected@[b.focus as int] < b.len_of(b.focus),
{
}

/// Folding a directory twice leaves the same directories folded.
pub proof fn lemma_fold_twice(c: Seq<Seq<char>>, d: Seq<char>)
    ensures
        forall|x: Seq<char>| #[trigger] toggled(toggled(c, d), d).contains(x) <==> c.contains(x),
{
    lemma_without(c, d);
    if c.contains(d) {
        let w = without(c, d);
        let t2 = w.push(d);
        assert(!w.contains(d));
        assert(toggled(c, d) == w);
        assert(toggled(toggled(c, d), d) == t2);
        assert forall|x: Seq<char>| #[trigger] toggled(toggled(c, d), d).contains(x) <==> c.contains(
            x,
        ) by {
            assert(w.contains(x) == (c.contains(x) && x != d));
            if x == d {
                assert(t2[w.len() as int] == d);
            } else {
                if t2.contains(x) {
                    let i = choose|i: int| 0 <= i < t2.len() && #[trigger] t2[i] == x;
                    assert(i < w.len());
                    assert(w[i] == x);
                }
                if c.contains(x) {
                    let i = choose|i: int| 0 <= i < w.len() && #[trigger] w[i] == x;
                    assert(t2[i] == x);
                }
            }
        }
    } else {
        let p = c.push(d);
        assert(p[c.len() as int] == d);
        assert(p.contains(d));
        assert(toggled(c, d) == p);
        assert(toggled(toggled(c, d), d) == without(p, d));
        lemma_without(p, d);
        assert forall|x: Seq<char>| #[trigger] toggled(toggled(c, d), d).contains(x) <==> c.contains(
            x,
        ) by {
            assert(without(p, d).contains(x) == (p.contains(x) && x != d));
            if c.contains(x) {
                let i = choose|i: int| 0 <= i < c.len() && #[trigger] c[i] == x;
                assert(p[i] == x);
            }
            if p.contains(x) && x != d {
                let i = choose|i: int| 0 <= i < p.len() && #[trigger] p[i] == x;
                assert(i < c.len());
                assert(c[i] == x);
            }
        }
    }
}

/// Git arguments that delete a branch or drop a stash.
pub open spec fn destroys(args: Seq<Seq<char>>) -> bool {
    args.len() >= 2 && ((args[0] == "branch"@ && args[1] == "-D"@) || (args[0] == "stash"@
        && args[1] == "drop"@))
}

/// A request that deletes a branch or drops a stash.
pub open spec fn is_destructive(r: Req) -> bool {
    r matches Req::Write(args) && destroys(views(args@))
}

/// The requests that `b` holds past those of `a` are none of them
/// destructive.
pub open spec fn adds_no_destructive(a: App, b: App) -> bool {
    forall|k: int|
        a.outbox@.len() <= k < b.outbox@.len() ==> !is_destructive(#[trigger] b.outbox@[k])
}

proof fn lemma_wrote_safe(a: App, b: App, args: Seq<Seq<char>>)
    requires
        wrote(a, b, args),
        !destroys(args),
    ensures
        adds_no_destructive(a, b),
{
    if a.connected {
        assert forall|k: int| a.outbox@.len() <= k < b.outbox@.len() implies !is_destructive(
            #[trigger] b.outbox@[k],
        ) by {
            assert(k == b.outbox@.len() - 1);
        }
    }
}

proof fn lemma_literals()
    ensures
        "add"@ != "branch"@ && "add"@ != "stash"@,
        "restore"@ != "branch"@ && "restore"@ != "stash"@,
        "commit"@ != "branch"@ && "commit"@ != "stash"@,
        "checkout"@ != "branch"@ && "checkout"@ != "stash"@,
        "apply"@ != "drop"@ && "pop"@ != "drop"@ && "push"@ != "drop"@,
        "stash"@ != "branch"@,
{
    reveal_strlit("add");
    reveal_strlit("restore");
    reveal_strlit("commit");
    reveal_strlit("checkout");
    reveal_strlit("branch");
    reveal_strlit("stash");
    reveal_strlit("apply");
    reveal_strlit("pop");
    reveal_strlit("push");
    reveal_strlit("drop");
    assert("add"@.len() != "branch"@.len());
    assert("add"@.len() != "stash"@.len());
    assert("restore"@.len() != "branch"@.len());
    assert("restore"@.len() != "stash"@.len());
    assert("commit"@[0] != "branch"@[0]);
    assert("commit"@.len() != "stash"@.len());
    assert("checkout"@.len() != "branch"@.len());
    assert("checkout"@.len() != "stash"@.len());
    assert("apply"@.len() != "drop"@.len());
    assert("pop"@.len() != "drop"@.len());
    assert("push"@[0] != "drop"@[0]);
    assert("stash"@.len() != "branch"@.len());
}

proof fn lemma_action_safe(m: App, act: Action, b: App)
    requires
        applied(m, act, b),
    ensures
        adds_no_destructive(m, b),
{
    lemma_literals();
    let sel = m.selected@[m.focus as int];
    match act {
        Action::ToggleStage => match m.dir_at() {
            Some(d) => lemma_wrote_safe(m, b, seq!["add"@, "--"@, d@]),
            None => match m.file_at() {
                Some(f) => if f.index != ' ' {
                    lemma_wrote_safe(m, b, seq!["restore"@, "--staged"@, "--"@, f.path@]);
                } else {
                    lemma_wrote_safe(m, b, seq!["add"@, "--"@, f.path@]);
                },
                None => {},
            },
        },
        Action::StageAll => lemma_wrote_safe(m, b, seq!["add"@, "-A"@]),
        Action::TakeOurs | Action::TakeTheirs => {
            if m.connected {
                assert forall|k: int| m.outbox@.len() <= k < b.outbox@.len() implies !is_destructive(
                    #[trigger] b.outbox@[k],
                ) by {
                    assert(k == m.outbox@.len() || k == m.outbox@.len() + 1);
                }
            }
        },
        Action::Checkout => if m.selected@[2] < m.repo.branches@.len() {
            lemma_wrote_safe(
                m,
                b,
                seq!["checkout"@, m.repo.branches@[m.selected@[2] as int]@],
            );
        },
        Action::ApplyStash => if m.selected@[4] < m.repo.stashes@.len() {
            let args = seq!["stash"@, "apply"@, stash_name(m.selected@[4] as nat)];
            assert(args[1] == "apply"@);
            lemma_wrote_safe(m, b, args);
        },
        Action::PopStash => if m.selected@[4] < m.repo.stashes@.len() {
            let args = seq!["stash"@, "pop"@, stash_name(m.selected@[4] as nat)];
            assert(args[1] == "pop"@);
            lemma_wrote_safe(m, b, args);
        },
        Action::Refresh => {
            if m.connected {
                assert forall|k: int| m.outbox@.len() <= k < b.outbox@.len() implies !is_destructive(
                    #[trigger] b.outbox@[k],
                ) by {
                    let j = k - m.outbox@.len();
                    assert(0 <= j < 6);
                }
            }
        },
        _ => {},
    }
}

/// Deleting a branch and dropping a stash happen only after a yes: no key
/// adds such a request to the outbox, but `y` in the window that asks.
pub proof fn lemma_asks_first(a: App, key: Key, b: App)
    requires
        key_handled(a, key, b),
        !(a.mode is Confirm && key == Key::Char('y')),
    ensures
        adds_no_destructive(a, b),
{
    lemma_literals();
    let normal = App { mode: Mode::Normal, ..a };
    match a.mode {
        Mode::Normal => {
            let m = choose|m: App|
                {
                    &&& m.message@.len() == 0
                    &&& m == (App { message: m.message, ..a })
                    &&& match action_of(key, a.focus) {
                        Some(act) => applied(m, act, b),
                        None => b == m,
                    }
                };
            if let Some(act) = action_of(key, a.focus) {
                lemma_action_safe(m, act, b);
            }
        },
        Mode::Input { prompt, buffer, purpose } => {
            if key == Key::Enter && buffer@.len() > 0 {
                match purpose {
                    InputPurpose::CommitMsg => lemma_wrote_safe(
                        normal,
                        b,
                        seq!["commit"@, "-m"@, buffer@],
                    ),
                    InputPurpose::NewBranch => lemma_wrote_safe(
                        normal,
                        b,
                        seq!["checkout"@, "-b"@, buffer@],
                    ),
                    InputPurpose::StashMsg => {
                        let args = seq!["stash"@, "push"@, "-m"@, buffer@];
                        assert(args[1] == "push"@);
                        lemma_wrote_safe(normal, b, args);
                    },
                }
            }
        },
        Mode::Hunks { .. } => {
            if key == Key::Char(' ') && a.connected {
                assert forall|k: int| a.outbox@.len() <= k < b.outbox@.len() implies !is_destructive(
                    #[trigger] b.outbox@[k],
                ) by {
                    assert(k == b.outbox@.len() - 1);
                }
            }
        },
        _ => {},
    }
}

/// A refresh asks again for the diff of the selection: the flush after it
/// sends a diff request for the target that the selection wants, though
/// the pane showed that target before.
pub proof fn lemma_refresh_asks_diff(a: App, b: App, c: App, t0: DiffTarget)
    requires
        a.connected,
        refreshed(a, b),
        flushed(b, c),
        wanted_target(b, Some(t0)),
    ensures
        c.outbox@.len() > 0,
        c.outbox@.last() matches Req::Diff { seq, target } && seq == c.diff_seq && c.diff_target
            == Some(target) && wanted_target(b, Some(target)),
{
    let (m, t) = choose|m: App, t: Option<DiffTarget>| #[trigger] flush_step(b, m, t, c);
    assert(flush_step(b, m, t, c));
    assert(m.diff_target is None);
    assert(t is Some);
}

/// What the bar says after a git command that had the terminal: that it
/// is done, that it failed with its exit status, or why it did not run.
pub open spec fn resumed_text(args: Seq<Seq<char>>, outcome: Result<(bool, String), String>) -> (
    bool,
    Seq<char>,
) {
    match outcome {
        Ok((true, _)) => (true, "git "@ + join(args, " "@) + " done"@),
        Ok((false, status)) => (false, "git "@ + join(args, " "@) + " failed ("@ + status@ + seq![')']),
        Err(e) => (false, e@),
    }
}

/// Only the last diff request counts: once a flush has asked for a new
/// diff, the answer to an earlier request changes nothing, and the answer
/// to the new one shows its text from the top.
pub proof fn lemma_only_last_diff_counts(a: App, b: App, resp: Resp, c: App)
    requires
        flushed(a, b),
        b.diff_seq != a.diff_seq,
        resp is Diff,
        resp_applied(b, resp, c),
    ensures
        resp->Diff_seq <= a.diff_seq ==> c == b,
        resp->Diff_seq == b.diff_seq ==> c.repo.diff == resp->Diff_text && c.diff_scroll == 0,
{
    if a.connected {
        let (m, t) = choose|m: App, t: Option<DiffTarget>| #[trigger] flush_step(a, m, t, b);
        assert(flush_step(a, m, t, b));
    }
}

/// The request `r` runs `git checkout <side> -- <path>`.
pub open spec fn checks_out(r: Req, side: Seq<char>, path: Seq<char>) -> bool {
    r matches Req::Write(v) && v@.len() == 4 && v@[0]@ == "checkout"@ && v@[1]@ == side && v@[2]@
        == "--"@ && v@[3]@ == path
}

/// The request `r` runs `git add -- <path>`.
pub open spec fn adds(r: Req, path: Seq<char>) -> bool {
    r matches Req::Write(v) && v@.len() == 3 && v@[0]@ == "add"@ && v@[1]@ == "--"@ && v@[2]@
        == path
}

/// Taking a side of a conflict: on a conflicted file, "ours" checks out
/// `--ours` and "theirs" checks out `--theirs`, then the file is staged;
/// on any other row nothing is asked of git.
pub proof fn lemma_take_side(a: App, action: Action, b: App)
    requires
        action is TakeOurs || action is TakeTheirs,
        applied(a, action, b),
        a.connected,
    ensures
        match a.file_at() {
            Some(f) => if f.work == 'U' || f.index == 'U' {
                &&& b.outbox@.len() == a.outbox@.len() + 2
                &&& b.outbox@.take(a.outbox@.len() as int) == a.outbox@
                &&& checks_out(
                    b.outbox@[a.outbox@.len() as int],
                    if action is TakeOurs {
                        "--ours"@
                    } else {
                        "--theirs"@
                    },
                    f.path@,
                )
                &&& adds(b.outbox@[a.outbox@.len() + 1int], f.path@)
            } else {
                b.outbox == a.outbox
            },
            None => b.outbox == a.outbox,
        },
{
    if let Some(f) = a.file_at() {
        if f.work == 'U' || f.index == 'U' {
            let n = a.outbox@.len() as int;
            let side = if action is TakeOurs {
                "--ours"@
            } else {
                "--theirs"@
            };
            let x = seq!["checkout"@, side, "--"@, f.path@];
            let y = seq!["add"@, "--"@, f.path@];
            assert(wrote_two(a, b, x, y));
            if let Req::Write(v) = b.outbox@[n] {
                assert(views(v@) == x);
                assert(v@.len() == views(v@).len());
                assert(v@[0]@ == views(v@)[0]);
                assert(v@[1]@ == views(v@)[1]);
                assert(v@[2]@ == views(v@)[2]);
                assert(v@[3]@ == views(v@)[3]);
            }
            if let Req::Write(v) = b.outbox@[n + 1] {
                assert(views(v@) == y);
                assert(v@.len() == views(v@).len());
                assert(v@[0]@ == views(v@)[0]);
                assert(v@[1]@ == views(v@)[1]);
                assert(v@[2]@ == views(v@)[2]);
            }
        }
    }
}

/// `b` holds one more request than `a`, a git command with these
/// arguments.
pub open spec fn sends_git(a: App, b: App, args: Seq<Seq<char>>) -> bool {
    &&& b.outbox@.len() == a.outbox@.len() + 1
    &&& b.outbox@.take(a.outbox@.len() as int) == a.outbox@
    &&& b.outbox@.last() matches Req::Write(v) && v@.len() == args.len() && forall|k: int|
        0 <= k < args.len() ==> #[trigger] v@[k]@ == args[k]
}

/// `b` waits to give the terminal to git with these arguments.
pub open spec fn waits_for(b: App, args: Seq<Seq<char>>) -> bool {
    b.pending_suspend matches Some(v) && v@.len() == args.len() && forall|k: int|
        0 <= k < args.len() ==> #[trigger] v@[k]@ == args[k]
}

/// The name git gives stash `i`: `stash@{i}`.
pub open spec fn stash_label(i: nat) -> Seq<char> {
    seq!['s', 't', 'a', 's', 'h', '@', '{'] + decimal(i) + seq!['}']
}

proof fn lemma_wrote_sends(a: App, b: App, args: Seq<Seq<char>>)
    requires
        wrote(a, b, args),
        a.connected,
    ensures
        sends_git(a, b, args),
{
    if let Req::Write(v) = b.outbox@.last() {
        assert(views(v@) == args);
        assert forall|k: int| 0 <= k < args.len() implies #[trigger] v@[k]@ == args[k] by {
            assert(views(v@)[k] == v@[k]@);
        }
    }
    assert(b.outbox@.take(a.outbox@.len() as int) =~= b.outbox@.drop_last());
}

proof fn lemma_suspends_waits(a: App, b: App, args: Seq<Seq<char>>)
    requires
        suspends(a, b, args),
    ensures
        waits_for(b, args),
{
    if let Some(v) = b.pending_suspend {
        assert(views(v@) == args);
        assert forall|k: int| 0 <= k < args.len() implies #[trigger] v@[k]@ == args[k] by {
            assert(views(v@)[k] == v@[k]@);
        }
    }
}

/// What git is asked for by each action that changes the repository:
/// staging a directory or a clean file adds it, staging a staged file
/// takes it out of the index, `StageAll` adds everything, `Checkout`
/// checks out the selected branch, the stash actions apply or pop the
/// selected stash, and push, pull, fetch and the commit editor get the
/// terminal.
pub proof fn lemma_action_requests(a: App, action: Action, b: App)
    requires
        applied(a, action, b),
        a.connected,
    ensures
        action is ToggleStage ==> match a.dir_at() {
            Some(d) => sends_git(a, b, seq!["add"@, "--"@, d@]),
            None => match a.file_at() {
                Some(f) => if f.index != ' ' {
                    sends_git(a, b, seq!["restore"@, "--staged"@, "--"@, f.path@])
                } else {
                    sends_git(a, b, seq!["add"@, "--"@, f.path@])
                },
                None => b.outbox == a.outbox,
            },
        },
        action is StageAll ==> sends_git(a, b, seq!["add"@, "-A"@]),
        action is Checkout && a.selected@[2] < a.repo.branches@.len() ==> sends_git(
            a,
            b,
            seq!["checkout"@, a.repo.branches@[a.selected@[2] as int]@],
        ),
        action is ApplyStash && a.selected@[4] < a.repo.stashes@.len() ==> sends_git(
            a,
            b,
            seq!["stash"@, "apply"@, stash_label(a.selected@[4] as nat)],
        ),
        action is PopStash && a.selected@[4] < a.repo.stashes@.len() ==> sends_git(
            a,
            b,
            seq!["stash"@, "pop"@, stash_label(a.selected@[4] as nat)],
        ),
        action is Push ==> waits_for(b, seq!["push"@]),
        action is Pull ==> waits_for(b, seq!["pull"@]),
        action is Fetch ==> waits_for(b, seq!["fetch"@]),
        action is CommitEditor ==> waits_for(b, seq!["commit"@]),
{
    reveal_strlit("stash@{");
    assert(stash_label(a.selected@[4] as nat) == stash_name(a.selected@[4] as nat));
    match action {
        Action::ToggleStage => match a.dir_at() {
            Some(d) => lemma_wrote_sends(a, b, seq!["add"@, "--"@, d@]),
            None => match a.file_at() {
                Some(f) => if f.index != ' ' {
                    lemma_wrote_sends(a, b, seq!["restore"@, "--staged"@, "--"@, f.path@]);
                } else {
                    lemma_wrote_sends(a, b, seq!["add"@, "--"@, f.path@]);
                },
                None => {},
            },
        },
        Action::StageAll => lemma_wrote_sends(a, b, seq!["add"@, "-A"@]),
        Action::Checkout => if a.selected@[2] < a.repo.branches@.len() {
            lemma_wrote_sends(a, b, seq!["checkout"@, a.repo.branches@[a.selected@[2] as int]@]);
        },
        Action::ApplyStash => if a.selected@[4] < a.repo.stashes@.len() {
            lemma_wrote_sends(a, b, seq!["stash"@, "apply"@, stash_name(a.selected@[4] as nat)]);
        },
        Action::PopStash => if a.selected@[4] < a.repo.stashes@.len() {
            lemma_wrote_sends(a, b, seq!["stash"@, "pop"@, stash_name(a.selected@[4] as nat)]);
        },
        Action::Push => lemma_suspends_waits(a, b, seq!["push"@]),
        Action::Pull => lemma_suspends_waits(a, b, seq!["pull"@]),
        Action::Fetch => lemma_suspends_waits(a, b, seq!["fetch"@]),
        Action::CommitEditor => lemma_suspends_waits(a, b, seq!["commit"@]),
        _ => {},
    }
}

/// What git is asked for when typed text or a yes is taken: a commit
/// message commits with it, a branch name makes and checks out that
/// branch, a stash message pushes a stash with it; a yes deletes the
/// branch or drops the stash it was asked about.
pub proof fn lemma_key_requests(a: App, key: Key, b: App)
    requires
        key_handled(a, key, b),
        a.connected,
    ensures
        a.mode matches Mode::Input { buffer, purpose, .. } ==> key == Key::Enter && buffer@.len()
            > 0 ==> match purpose {
            InputPurpose::CommitMsg => sends_git(a, b, seq!["commit"@, "-m"@, buffer@]),
            InputPurpose::NewBranch => sends_git(a, b, seq!["checkout"@, "-b"@, buffer@]),
            InputPurpose::StashMsg => sends_git(a, b, seq!["stash"@, "push"@, "-m"@, buffer@]),
        },
        a.mode matches Mode::Confirm { action, .. } ==> key == Key::Char('y') ==> match action {
            ConfirmAction::DeleteBranch(name) => sends_git(a, b, seq!["branch"@, "-D"@, name@]),
            ConfirmAction::DropStash(i) => sends_git(
                a,
                b,
                seq!["stash"@, "drop"@, stash_label(i as nat)],
            ),
        },
{
    reveal_strlit("stash@{");
    let normal = App { mode: Mode::Normal, ..a };
    match a.mode {
        Mode::Input { buffer, purpose, .. } => if key == Key::Enter && buffer@.len() > 0 {
            match purpose {
                InputPurpose::CommitMsg => lemma_wrote_sends(
                    normal,
                    b,
                    seq!["commit"@, "-m"@, buffer@],
                ),
                InputPurpose::NewBranch => lemma_wrote_sends(
                    normal,
                    b,
                    seq!["checkout"@, "-b"@, buffer@],
                ),
                InputPurpose::StashMsg => lemma_wrote_sends(
                    normal,
                    b,
                    seq!["stash"@, "push"@, "-m"@, buffer@],
                ),
            }
        },
        Mode::Confirm { action, .. } => if key == Key::Char('y') {
            match action {
                ConfirmAction::DeleteBranch(name) => lemma_wrote_sends(
                    normal,
                    b,
                    seq!["branch"@, "-D"@, name@],
                ),
                ConfirmAction::DropStash(i) => {
                    assert(stash_label(i as nat) == stash_name(i as nat));
                    lemma_wrote_sends(normal, b, seq!["stash"@, "drop"@, stash_name(i as nat)]);
                },
            }
        },
        _ => {},
    }
}

} // verus!
