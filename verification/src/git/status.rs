//! What the reads of the repository turn into: the rows of the status, the
//! marks of each kind of change, the stash rows, and the commit rows. The
//! program around the library walks the repository and hands the changes
//! here as plain values.
use vstd::prelude::*;
use vstd::string::StringSliceAdditionalSpecFns;

use crate::app::stash_name;
use crate::git::patch::views;
use crate::git::{text_eq, CommitEntry, FileEntry};
use crate::sort::{sort_perm, sorted_order};
use crate::text::{chars_of, push_decimal, push_str, string_from};

verus! {

/// The side of a change: the index against HEAD, or the work tree against
/// the index.
#[derive(Clone, Copy, PartialEq, Eq, Structural)]
pub enum Side {
    Index,
    Work,
}

/// A change that the status scan found: its path, its side and its mark.
pub struct Change {
    pub path: String,
    pub side: Side,
    pub mark: char,
}

/// A change as plain values.
pub open spec fn change_view(c: Change) -> (Seq<char>, Side, char) {
    (c.path@, c.side, c.mark)
}

/// The paths of the changes, each once, in the order they first come.
pub open spec fn paths_once(cs: Seq<(Seq<char>, Side, char)>) -> Seq<Seq<char>>
    decreases cs.len(),
{
    if cs.len() == 0 {
        seq![]
    } else {
        let rest = paths_once(cs.drop_last());
        if rest.contains(cs.last().0) {
            rest
        } else {
            rest.push(cs.last().0)
        }
    }
}

/// The mark of the last change of `path` on `side`, or a space when there
/// is none.
pub open spec fn mark_on(cs: Seq<(Seq<char>, Side, char)>, path: Seq<char>, side: Side) -> char
    decreases cs.len(),
{
    if cs.len() == 0 {
        ' '
    } else if cs.last().0 == path && cs.last().1 == side {
        cs.last().2
    } else {
        mark_on(cs.drop_last(), path, side)
    }
}

/// One row for each path, in the order of the paths: the mark of its
/// index side, the mark of its work-tree side, and the path. A file can
/// have a staged change and a work-tree change at the same time, thus it
/// needs one row with two marks, not two rows.
pub open spec fn status_of(cs: Seq<(Seq<char>, Side, char)>) -> Seq<(char, char, Seq<char>)> {
    let ps = paths_once(cs);
    sort_perm(ps).map_values(
        |i: usize| (mark_on(cs, ps[i as int], Side::Index), mark_on(cs, ps[i as int], Side::Work), ps[i as int]),
    )
}

/// A status row as plain values.
pub open spec fn file_view(f: FileEntry) -> (char, char, Seq<char>) {
    (f.index, f.work, f.path@)
}

/// The mark of the last change of the path on a side.
fn mark_exec(cs: &Vec<Change>, path: &String, side: Side) -> (r: char)
    ensures
        r == mark_on(cs@.map_values(|c: Change| change_view(c)), path@, side),
{
    let ghost all = cs@.map_values(|c: Change| change_view(c));
    let mut k = cs.len();
    proof {
        assert(all.take(k as int) =~= all);
    }
    while k > 0
        invariant
            all == cs@.map_values(|c: Change| change_view(c)),
            k <= cs@.len(),
            mark_on(all, path@, side) == mark_on(all.take(k as int), path@, side),
        decreases k,
    {
        proof {
            assert(all.take(k as int).last() == change_view(cs@[k - 1]));
            assert(all.take(k as int).drop_last() =~= all.take(k - 1));
        }
        if cs[k - 1].side == side && text_eq(cs[k - 1].path.as_str(), path.as_str()) {
            return cs[k - 1].mark;
        }
        k -= 1;
    }
    proof {
        assert(all.take(0) =~= Seq::<(Seq<char>, Side, char)>::empty());
    }
    ' '
}

/// Whether the list holds the text.
fn holds_path(v: &Vec<String>, t: &String) -> (r: bool)
    ensures
        r == views(v@).contains(t@),
{
    let mut k: usize = 0;
    while k < v.len()
        invariant
            0 <= k <= v@.len(),
            forall|j: int| 0 <= j < k ==> v@[j]@ != t@,
        decreases v@.len() - k,
    {
        if text_eq(v[k].as_str(), t.as_str()) {
            assert(views(v@)[k as int] == t@);
            return true;
        }
        k += 1;
    }
    proof {
        if views(v@).contains(t@) {
            let j = choose|j: int|
                0 <= j < v@.len() && #[trigger] views(v@)[j] == t@;
            assert(v@[j]@ == t@);
        }
    }
    false
}

/// The rows of the status from the changes that the scan found: one row
/// for each path, in the order of the paths.
pub fn status_rows(cs: &Vec<Change>) -> (r: Vec<FileEntry>)
    ensures
        r@.map_values(|f: FileEntry| file_view(f)) == status_of(cs@.map_values(|c: Change| change_view(c))),
{
    let ghost all = cs@.map_values(|c: Change| change_view(c));
    let mut paths: Vec<String> = Vec::new();
    let mut keys: Vec<Vec<char>> = Vec::new();
    let mut k: usize = 0;
    while k < cs.len()
        invariant
            all == cs@.map_values(|c: Change| change_view(c)),
            0 <= k <= cs@.len(),
            views(paths@) == paths_once(all.take(k as int)),
            keys@.len() == paths@.len(),
            forall|j: int| 0 <= j < keys@.len() ==> (#[trigger] keys@[j])@ == paths@[j]@,
        decreases cs@.len() - k,
    {
        proof {
            assert(all.take(k + 1).drop_last() =~= all.take(k as int));
            assert(all.take(k + 1).last() == change_view(cs@[k as int]));
        }
        let p = &cs[k].path;
        if !holds_path(&paths, p) {
            let ghost before = views(paths@);
            keys.push(chars_of(p.as_str()));
            paths.push(p.clone());
            proof {
                assert(views(paths@) =~= before.push(p@));
            }
        }
        k += 1;
    }
    proof {
        assert(all.take(k as int) =~= all);
    }
    let ghost ps = views(paths@);
    let order = sorted_order(&keys);
    proof {
        assert(keys@.map_values(|x: Vec<char>| x@) =~= ps);
        order@.to_multiset_ensures();
        crate::sort::range_seq(0, keys@.len() as int).to_multiset_ensures();
    }
    let mut rows: Vec<FileEntry> = Vec::new();
    let mut i: usize = 0;
    while i < order.len()
        invariant
            all == cs@.map_values(|c: Change| change_view(c)),
            ps == views(paths@),
            ps == paths_once(all),
            order@ == sort_perm(ps),
            order@.len() == ps.len(),
            forall|j: int| 0 <= j < order@.len() ==> #[trigger] order@[j] < paths@.len(),
            0 <= i <= order@.len(),
            rows@.map_values(|f: FileEntry| file_view(f)) == order@.take(i as int).map_values(
                |x: usize| (mark_on(all, ps[x as int], Side::Index), mark_on(all, ps[x as int], Side::Work), ps[x as int]),
            ),
        decreases order@.len() - i,
    {
        let at = order[i];
        let path = &paths[at];
        let index = mark_exec(cs, path, Side::Index);
        let work = mark_exec(cs, path, Side::Work);
        let row = FileEntry { index, work, path: path.clone() };
        let ghost before = rows@.map_values(|f: FileEntry| file_view(f));
        rows.push(row);
        proof {
            assert(ps[at as int] == path@);
            let f = |x: usize| (mark_on(all, ps[x as int], Side::Index), mark_on(all, ps[x as int], Side::Work), ps[x as int]);
            assert(order@.take(i + 1).map_values(f) =~= order@.take(i as int).map_values(f).push(f(at)));
            assert(rows@.map_values(|g: FileEntry| file_view(g)) =~= before.push(file_view(row)));
        }
        i += 1;
    }
    proof {
        assert(order@.take(i as int) =~= order@);
    }
    rows
}

/// What a work-tree scan says of a file.
#[derive(Clone, Copy, PartialEq, Eq, Structural)]
pub enum Summary {
    Removed,
    Added,
    IntentToAdd,
    Modified,
    TypeChange,
    Renamed,
    Copied,
    Conflict,
}

/// The mark of a work-tree change. The walk of the directories finds the
/// files that git does not track; their summary says "added", thus only
/// the kind of the item tells that they are new.
pub fn worktree_mark(untracked: bool, summary: Option<Summary>) -> (r: char)
    ensures
        r == if untracked {
            '?'
        } else {
            match summary {
                Some(Summary::Removed) => 'D',
                Some(Summary::Added) | Some(Summary::IntentToAdd) => 'A',
                Some(Summary::Modified) => 'M',
                Some(Summary::TypeChange) => 'T',
                Some(Summary::Renamed) => 'R',
                Some(Summary::Copied) => 'C',
                Some(Summary::Conflict) => 'U',
                None => '?',
            }
        },
{
    if untracked {
        return '?';
    }
    match summary {
        Some(Summary::Removed) => 'D',
        Some(Summary::Added) | Some(Summary::IntentToAdd) => 'A',
        Some(Summary::Modified) => 'M',
        Some(Summary::TypeChange) => 'T',
        Some(Summary::Renamed) => 'R',
        Some(Summary::Copied) => 'C',
        Some(Summary::Conflict) => 'U',
        None => '?',
    }
}

/// A change between the HEAD tree and the index.
#[derive(Clone, Copy, PartialEq, Eq, Structural)]
pub enum TreeChange {
    Addition,
    Deletion,
    Modification,
    Rewrite,
}

/// The mark of a change in the index.
pub fn tree_mark(c: TreeChange) -> (r: char)
    ensures
        r == match c {
            TreeChange::Addition => 'A',
            TreeChange::Deletion => 'D',
            TreeChange::Modification => 'M',
            TreeChange::Rewrite => 'R',
        },
{
    match c {
        TreeChange::Addition => 'A',
        TreeChange::Deletion => 'D',
        TreeChange::Modification => 'M',
        TreeChange::Rewrite => 'R',
    }
}

/// The rows of the stash list, newest first: `stash@{i}: ` and the
/// message of each entry.
pub fn stash_rows(messages: &Vec<String>) -> (r: Vec<String>)
    ensures
        r@.len() == messages@.len(),
        forall|i: int|
            0 <= i < r@.len() ==> (#[trigger] r@[i])@ == stash_name(i as nat) + ": "@ + messages@[i]@,
{
    let mut out: Vec<String> = Vec::new();
    let mut i: usize = 0;
    while i < messages.len()
        invariant
            0 <= i <= messages@.len(),
            out@.len() == i,
            forall|j: int|
                0 <= j < i ==> (#[trigger] out@[j])@ == stash_name(j as nat) + ": "@ + messages@[j]@,
        decreases messages@.len() - i,
    {
        let mut line = crate::app::stash_ref(i);
        push_str(&mut line, ": ");
        push_str(&mut line, messages[i].as_str());
        out.push(line);
        i += 1;
    }
    out
}

/// A commit row from the values that the log walk reads: the short id is
/// the first seven bytes of the hexadecimal id; a time before 1970 counts
/// as zero, and the seconds are cut to 32 bits.
pub fn commit_entry(hex: &str, graph: String, subject: String, author: String, seconds: i64) -> (r: CommitEntry)
    requires
        hex.spec_bytes().len() >= 7,
    ensures
        r.id@ == hex.spec_bytes().take(7),
        r.graph == graph,
        r.subject == subject,
        r.author == author,
        r.time == (if seconds < 0 {
            0
        } else {
            seconds as u32
        }),
{
    let b = hex.as_bytes();
    let id: [u8; 7] = [b[0], b[1], b[2], b[3], b[4], b[5], b[6]];
    proof {
        assert(id@ =~= hex.spec_bytes().take(7));
    }
    let time = if seconds < 0 {
        0
    } else {
        seconds as u32
    };
    CommitEntry { id, graph, subject, author, time }
}

/// The commit ids of (commit id, tag name) pairs, each once, in the order
/// their first tag came.
pub open spec fn first_ids(pairs: Seq<(Seq<char>, Seq<char>)>) -> Seq<Seq<char>>
    decreases pairs.len(),
{
    if pairs.len() == 0 {
        seq![]
    } else {
        let ids = first_ids(pairs.drop_last());
        if ids.contains(pairs.last().0) {
            ids
        } else {
            ids.push(pairs.last().0)
        }
    }
}

/// The tag names of one commit, in their order.
pub open spec fn names_of(pairs: Seq<(Seq<char>, Seq<char>)>, id: Seq<char>) -> Seq<Seq<char>>
    decreases pairs.len(),
{
    if pairs.len() == 0 {
        seq![]
    } else if pairs.last().0 == id {
        names_of(pairs.drop_last(), id).push(pairs.last().1)
    } else {
        names_of(pairs.drop_last(), id)
    }
}

/// The tag names of each commit that carries one.
pub open spec fn tag_groups(pairs: Seq<(Seq<char>, Seq<char>)>) -> Seq<(Seq<char>, Seq<Seq<char>>)> {
    first_ids(pairs).map_values(|id: Seq<char>| (id, names_of(pairs, id)))
}

/// The views of pairs of texts.
pub open spec fn pair_views(v: Seq<(String, String)>) -> Seq<(Seq<char>, Seq<char>)> {
    v.map_values(|p: (String, String)| (p.0@, p.1@))
}

/// The views of the tag groups.
pub open spec fn group_views(v: Seq<(String, Vec<String>)>) -> Seq<(Seq<char>, Seq<Seq<char>>)> {
    v.map_values(|g: (String, Vec<String>)| (g.0@, views(g.1@)))
}

/// The names of the pairs `..n` that belong to `id`.
fn names_for(pairs: &Vec<(String, String)>, id: &String) -> (r: Vec<String>)
    ensures
        views(r@) == names_of(pair_views(pairs@), id@),
{
    let ghost pv = pair_views(pairs@);
    let mut out: Vec<String> = Vec::new();
    let mut i: usize = 0;
    while i < pairs.len()
        invariant
            pv == pair_views(pairs@),
            0 <= i <= pairs@.len(),
            views(out@) == names_of(pv.take(i as int), id@),
        decreases pairs@.len() - i,
    {
        proof {
            assert(pv.take(i + 1).drop_last() =~= pv.take(i as int));
            assert(pv.take(i + 1).last() == (pairs@[i as int].0@, pairs@[i as int].1@));
        }
        if text_eq(pairs[i].0.as_str(), id.as_str()) {
            let name = pairs[i].1.clone();
            proof {
                assert(views(out@.push(name)) =~= views(out@).push(name@));
            }
            out.push(name);
        }
        i += 1;
    }
    proof {
        assert(pv.take(i as int) =~= pv);
    }
    out
}

/// Group (commit id, tag name) pairs by commit: one entry for each commit,
/// in the order its first tag came, with its tag names in their order.
pub fn group_tags(pairs: &Vec<(String, String)>) -> (r: Vec<(String, Vec<String>)>)
    ensures
        group_views(r@) == tag_groups(pair_views(pairs@)),
{
    let ghost pv = pair_views(pairs@);
    let mut ids: Vec<String> = Vec::new();
    let mut i: usize = 0;
    while i < pairs.len()
        invariant
            pv == pair_views(pairs@),
            0 <= i <= pairs@.len(),
            views(ids@) == first_ids(pv.take(i as int)),
        decreases pairs@.len() - i,
    {
        proof {
            assert(pv.take(i + 1).drop_last() =~= pv.take(i as int));
            assert(pv.take(i + 1).last() == (pairs@[i as int].0@, pairs@[i as int].1@));
        }
        if !holds_path(&ids, &pairs[i].0) {
            let id = pairs[i].0.clone();
            proof {
                assert(views(ids@.push(id)) =~= views(ids@).push(id@));
            }
            ids.push(id);
        }
        i += 1;
    }
    proof {
        assert(pv.take(i as int) =~= pv);
    }
    let ghost want = tag_groups(pv);
    let mut out: Vec<(String, Vec<String>)> = Vec::new();
    let mut k: usize = 0;
    while k < ids.len()
        invariant
            pv == pair_views(pairs@),
            want == tag_groups(pv),
            views(ids@) == first_ids(pv),
            0 <= k <= ids@.len(),
            group_views(out@) == want.take(k as int),
        decreases ids@.len() - k,
    {
        let names = names_for(pairs, &ids[k]);
        let id = ids[k].clone();
        proof {
            assert(views(ids@)[k as int] == id@);
            assert(first_ids(pv)[k as int] == id@);
            assert(want[k as int] == (id@, names_of(pv, id@)));
            assert(group_views(out@.push((id, names))) =~= group_views(out@).push(
                (id@, views(names@)),
            ));
            assert(want.take(k + 1) =~= want.take(k as int).push(want[k as int]));
        }
        out.push((id, names));
        k += 1;
    }
    proof {
        assert(want.take(k as int) =~= want);
    }
    out
}

} // verus!
