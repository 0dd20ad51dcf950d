//! Send each staged change to the commit that last touched those lines.
//!
//! For each hunk that waits in the index, blame tells which commit last
//! wrote the lines it changes. The hunks are grouped by that commit, one
//! fixup commit is made for each group, and a rebase folds them all in.
//!
//! Only a commit that no remote has yet can take a change, thus published
//! history never moves. The program around the library runs git; here the
//! staged diff becomes the questions for blame, the answers of blame become
//! groups, and the outcome becomes the lines for the command log.
use vstd::prelude::*;

use crate::git::patch::{
    diff_split, first_num, first_num_exec, header_middle, hunk_patch, patch_of, split_diff, views,
};
use crate::git::text_eq;
use crate::text::{
    before_seq, chars_of, find_seq, find_within, first_word, line_ranges, lines_of, matches_at,
    parse_u32, parse_uint, push_char, push_decimal, push_range, push_str, split_on, split_ranges,
    starts_with, string_from, string_of, trim, trim_end_pos, trim_start_pos, words_of, decimal,
    join, push_joined,
};

verus! {

// ---------------------------------------------------------------------
// The lines that a hunk changes
// ---------------------------------------------------------------------
/// The number after the first comma of the old range `-a,b` (without its
/// dash): one when there is none or it is no number.
pub open spec fn count_part(old: Seq<char>) -> u32 {
    match find_seq(old, seq![','], 0) {
        None => 1,
        Some(i) => match first_num(old.skip(i + 1)) {
            Some(c) => c,
            None => 1,
        },
    }
}

/// The first line and the number of lines that a hunk covers on the old
/// side, read from its `@@ -a,b ... @@` line.
pub open spec fn old_range_of(hunk: Seq<char>) -> Option<(u32, u32)> {
    let ls = lines_of(hunk);
    if ls.len() == 0 || !starts_with(ls[0], seq!['@', '@', ' ']) {
        None
    } else {
        let ws = words_of(before_seq(ls[0].skip(3), seq![' ', '@', '@']));
        if ws.len() == 0 || !starts_with(ws[0], seq!['-']) {
            None
        } else {
            let old = ws[0].drop_first();
            match first_num(old) {
                None => None,
                Some(start) => Some((start, count_part(old))),
            }
        }
    }
}

/// The first line and the number of lines that a hunk covers on the old
/// side. This is the range of the hunk, context lines and all.
#[verifier::spinoff_prover]
pub fn old_range(hunk: &str) -> (r: Option<(u32, u32)>)
    ensures
        r == old_range_of(hunk@),
{
    let v = chars_of(hunk);
    let lines = line_ranges(v.as_slice());
    if lines.len() == 0 {
        return None;
    }
    let (h0, h1) = lines[0];
    let ghost head = v@.subrange(h0 as int, h1 as int);
    assert(head == lines_of(hunk@)[0]);
    let mid_end = match header_middle(v.as_slice(), h0, h1) {
        Some(e) => e,
        None => {
            return None;
        },
    };
    let (a0, a1) = match first_word(v.as_slice(), h0 + 3, mid_end) {
        Some(w) => w,
        None => {
            return None;
        },
    };
    let ghost ws = words_of(v@.subrange(h0 + 3, mid_end as int));
    proof {
        assert(ws[0] == v@.subrange(a0 as int, a1 as int));
        crate::text::lemma_starts_with_one(ws[0], '-');
    }
    if v[a0] != '-' {
        return None;
    }
    let ghost old = v@.subrange(a0 + 1, a1 as int);
    proof {
        assert(ws[0].drop_first() =~= old);
    }
    let start = match first_num_exec(v.as_slice(), a0 + 1, a1) {
        Some(s) => s,
        None => {
            return None;
        },
    };
    let comma = vec![','];
    proof {
        assert(comma@ =~= seq![',']);
    }
    let count = match find_within(v.as_slice(), a0 + 1, a1, comma.as_slice()) {
        None => 1,
        Some(c) => {
            proof {
                assert(old.skip(c - a0) =~= v@.subrange(c + 1, a1 as int));
            }
            match first_num_exec(v.as_slice(), c + 1, a1) {
                Some(n) => n,
                None => 1,
            }
        },
    };
    Some((start, count))
}

/// The walk over the body lines of a hunk: the old line that comes next,
/// the removed lines so far, and the old line where the first added line
/// sits. A context line moves the old line on; a removed line is taken and
/// moves it on; an added line and the note about a missing end of line
/// leave it.
pub open spec fn walk(lines: Seq<Seq<char>>, start: int) -> (int, Seq<int>, Option<int>)
    decreases lines.len(),
{
    if lines.len() == 0 {
        (start, seq![], None)
    } else {
        let (line, out, first_add) = walk(lines.drop_last(), start);
        let t = lines.last();
        if t.len() > 0 && t[0] == '-' {
            (line + 1, out.push(line), first_add)
        } else if t.len() > 0 && t[0] == '+' {
            (line, out, if first_add is None {
                Some(line)
            } else {
                first_add
            })
        } else if t.len() > 0 && t[0] == '\\' {
            (line, out, first_add)
        } else {
            (line + 1, out, first_add)
        }
    }
}

/// The old lines that a hunk really changes: its removed lines, or, when
/// it removes nothing, the line above its first added line (never before
/// the first line). A hunk with no readable range changes nothing.
pub open spec fn changed_of(hunk: Seq<char>) -> Seq<int> {
    match old_range_of(hunk) {
        None => seq![],
        Some((start, _)) => {
            let (_, out, first_add) = walk(lines_of(hunk).drop_first(), start as int);
            if out.len() > 0 {
                out
            } else {
                let base = match first_add {
                    Some(l) => l,
                    None => start as int,
                };
                seq![if base <= 1 { 1 } else { base - 1 }]
            }
        },
    }
}

/// The line numbers of a hunk stay within a `u32`.
pub open spec fn fits_u32(hunk: Seq<char>) -> bool {
    match old_range_of(hunk) {
        Some((start, _)) => start + lines_of(hunk).len() <= u32::MAX,
        None => true,
    }
}

proof fn lemma_walk_bounds(lines: Seq<Seq<char>>, start: int)
    ensures
        start <= walk(lines, start).0 <= start + lines.len(),
        forall|k: int|
            0 <= k < walk(lines, start).1.len() ==> start <= #[trigger] walk(lines, start).1[k]
                < walk(lines, start).0,
        walk(lines, start).2 matches Some(l) ==> start <= l <= walk(lines, start).0,
    decreases lines.len(),
{
    if lines.len() > 0 {
        lemma_walk_bounds(lines.drop_last(), start);
    }
}

/// A body line that removes an old line.
pub open spec fn removes(l: Seq<char>) -> bool {
    l.len() > 0 && l[0] == '-'
}

/// A body line that adds a new line.
pub open spec fn adds_new(l: Seq<char>) -> bool {
    l.len() > 0 && l[0] == '+'
}

/// A body line that stands for a line of the old file: a context line or a
/// removed one; not an added line and not the note about a missing end of
/// line.
pub open spec fn old_line(l: Seq<char>) -> bool {
    !(l.len() > 0 && (l[0] == '+' || l[0] == '\\'))
}

/// How many lines of the old file the body lines stand for.
pub open spec fn old_count(ls: Seq<Seq<char>>) -> nat
    decreases ls.len(),
{
    if ls.len() == 0 {
        0
    } else {
        old_count(ls.drop_last()) + if old_line(ls.last()) {
            1nat
        } else {
            0nat
        }
    }
}

/// How many body lines remove a line.
pub open spec fn removed_count(ls: Seq<Seq<char>>) -> nat
    decreases ls.len(),
{
    if ls.len() == 0 {
        0
    } else {
        removed_count(ls.drop_last()) + if removes(ls.last()) {
            1nat
        } else {
            0nat
        }
    }
}

proof fn lemma_removed_prefix(ls: Seq<Seq<char>>, k: int)
    requires
        0 <= k <= ls.len(),
    ensures
        removed_count(ls.take(k)) <= removed_count(ls),
        k < ls.len() && removes(ls[k]) ==> removed_count(ls.take(k)) < removed_count(ls),
    decreases ls.len() - k,
{
    if k < ls.len() {
        lemma_removed_prefix(ls, k + 1);
        assert(ls.take(k + 1).drop_last() =~= ls.take(k));
        assert(ls.take(k + 1).last() == ls[k]);
    } else {
        assert(ls.take(k) =~= ls);
    }
}

/// The walk in plain counts: the old line it ends on, one number for each
/// removed line (the start plus the old lines before it), and where the
/// first added line sits.
proof fn lemma_walk_counts(lines: Seq<Seq<char>>, s: int)
    ensures
        walk(lines, s).0 == s + old_count(lines),
        walk(lines, s).1.len() == removed_count(lines),
        forall|i: int|
            0 <= i < lines.len() && removes(#[trigger] lines[i]) ==> walk(lines, s).1[removed_count(lines.take(i)) as int] == s + old_count(lines.take(i)),
        walk(lines, s).2 is None <==> forall|j: int| 0 <= j < lines.len() ==> !adds_new(lines[j]),
        forall|f: int|
            0 <= f < lines.len() && adds_new(#[trigger] lines[f]) && (forall|j: int|
                0 <= j < f ==> !adds_new(lines[j])) ==> walk(lines, s).2 == Some(
                s + old_count(lines.take(f)),
            ),
    decreases lines.len(),
{
    if lines.len() > 0 {
        let p = lines.drop_last();
        let n = lines.len() - 1;
        lemma_walk_counts(p, s);
        assert(lines.take(n) =~= p);
        let w = walk(p, s);
        assert(lines.last() == lines[n]);
        assert(walk(lines, s).1 == if removes(lines[n]) {
            w.1.push(w.0)
        } else {
            w.1
        });
        assert forall|i: int| 0 <= i < lines.len() && removes(#[trigger] lines[i]) implies walk(
            lines,
            s,
        ).1[removed_count(lines.take(i)) as int] == s + old_count(lines.take(i)) by {
            if i == n {
                assert(removed_count(lines.take(i)) == w.1.len());
            } else {
                assert(lines.take(i) =~= p.take(i));
                assert(p[i] == lines[i]);
                lemma_removed_prefix(p, i);
            }
        }
        assert(walk(lines, s).2 is None <==> forall|j: int|
            0 <= j < lines.len() ==> !adds_new(lines[j])) by {
            if walk(lines, s).2 is None {
                assert forall|j: int| 0 <= j < lines.len() implies !adds_new(lines[j]) by {
                    if j < n {
                        assert(p[j] == lines[j]);
                    }
                }
            }
            if forall|j: int| 0 <= j < lines.len() ==> !adds_new(lines[j]) {
                assert forall|j: int| 0 <= j < p.len() implies !adds_new(p[j]) by {
                    assert(p[j] == lines[j]);
                }
            }
        }
        assert forall|f: int|
            0 <= f < lines.len() && adds_new(#[trigger] lines[f]) && (forall|j: int|
                0 <= j < f ==> !adds_new(lines[j])) implies walk(lines, s).2 == Some(
            s + old_count(lines.take(f)),
        ) by {
            if f < n {
                assert(lines.take(f) =~= p.take(f));
                assert(p[f] == lines[f]);
                assert forall|j: int| 0 <= j < f implies !adds_new(p[j]) by {
                    assert(p[j] == lines[j]);
                }
                assert(walk(p, s).2 is Some);
            } else {
                assert forall|j: int| 0 <= j < p.len() implies !adds_new(p[j]) by {
                    assert(p[j] == lines[j]);
                }
            }
        }
    }
}

/// Which old lines a hunk changes, in plain counts. For a hunk whose old
/// side starts at line `s`: the removed line that comes after `k` other
/// removed lines is number `s` plus the context and removed lines before
/// it; added lines and the note about a missing end of line move nothing.
/// A hunk that removes nothing gives the line above its first added line
/// (never line 0), or the line above `s` when it adds nothing either.
pub proof fn lemma_changed_positions(hunk: Seq<char>)
    ensures
        match old_range_of(hunk) {
            None => changed_of(hunk) == Seq::<int>::empty(),
            Some((s, _)) => {
                let body = lines_of(hunk).drop_first();
                &&& removed_count(body) > 0 ==> changed_of(hunk).len() == removed_count(body)
                &&& forall|i: int|
                    0 <= i < body.len() && removes(#[trigger] body[i]) ==> changed_of(hunk)[removed_count(body.take(i)) as int] == s + old_count(body.take(i))
                &&& removed_count(body) == 0 ==> forall|f: int|
                    0 <= f < body.len() && adds_new(#[trigger] body[f]) && (forall|j: int|
                        0 <= j < f ==> !adds_new(body[j])) ==> changed_of(hunk) == seq![
                        if s + old_count(body.take(f)) <= 1 {
                            1
                        } else {
                            s + old_count(body.take(f)) - 1
                        },
                    ]
                &&& (removed_count(body) == 0 && forall|j: int|
                    0 <= j < body.len() ==> !adds_new(body[j])) ==> changed_of(hunk) == seq![
                    if s <= 1 {
                        1
                    } else {
                        s - 1
                    },
                ]
            },
        },
{
    if let Some((s, _)) = old_range_of(hunk) {
        let body = lines_of(hunk).drop_first();
        lemma_walk_counts(body, s as int);
        let w = walk(body, s as int);
        assert forall|i: int| 0 <= i < body.len() && removes(#[trigger] body[i]) implies changed_of(
            hunk,
        )[removed_count(body.take(i)) as int] == s + old_count(body.take(i)) by {
            lemma_removed_prefix(body, i);
            assert(w.1.len() > 0);
            assert(changed_of(hunk) == w.1);
        }
    }
}

/// The old lines that the hunk really changes. Context lines are not in
/// the list, because the commit that wrote them is not the one to fix.
/// A hunk that only adds lines gives the line above the new text.
pub fn changed_lines(hunk: &str) -> (r: Vec<u32>)
    requires
        fits_u32(hunk@),
    ensures
        r@.len() == changed_of(hunk@).len(),
        forall|k: int| 0 <= k < r@.len() ==> r@[k] == #[trigger] changed_of(hunk@)[k],
{
    let start = match old_range(hunk) {
        None => {
            return Vec::new();
        },
        Some((s, _)) => s,
    };
    let v = chars_of(hunk);
    let lines = line_ranges(v.as_slice());
    let ghost ls = lines_of(hunk@);
    let ghost body = ls.drop_first();
    let mut line: u32 = start;
    let mut out: Vec<u32> = Vec::new();
    // Where the first new text sits, for a hunk that removes nothing.
    let mut first_add: Option<u32> = None;
    let mut k: usize = 1;
    proof {
        assert(body.take(0) =~= Seq::<Seq<char>>::empty());
    }
    while k < lines.len()
        invariant
            v@ == hunk@,
            ls == lines_of(hunk@),
            body == ls.drop_first(),
            lines@.len() == ls.len(),
            ls.len() > 0,
            start + ls.len() <= u32::MAX,
            forall|j: int|
                #![trigger lines@[j]]
                0 <= j < lines@.len() ==> lines@[j].0 <= lines@[j].1 && lines@[j].1 <= v@.len()
                    && v@.subrange(lines@[j].0 as int, lines@[j].1 as int) == ls[j],
            1 <= k <= lines@.len(),
            line as int == walk(body.take(k - 1), start as int).0,
            out@.len() == walk(body.take(k - 1), start as int).1.len(),
            forall|j: int|
                0 <= j < out@.len() ==> out@[j] == #[trigger] walk(body.take(k - 1), start as int).1[j],
            match first_add {
                Some(l) => walk(body.take(k - 1), start as int).2 == Some(l as int),
                None => walk(body.take(k - 1), start as int).2 is None,
            },
        decreases lines@.len() - k,
    {
        let (a, b) = lines[k];
        let ghost t = ls[k as int];
        let ghost pre = body.take(k - 1);
        proof {
            assert(v@.subrange(a as int, b as int) == t);
            assert(body.take(k as int).drop_last() =~= pre);
            assert(body.take(k as int).last() == t);
            lemma_walk_bounds(pre, start as int);
            if a < b {
                assert(t[0] == v@[a as int]);
            }
        }
        if a < b && v[a] == '-' {
            out.push(line);
            line += 1;
        } else if a < b && v[a] == '+' {
            if first_add.is_none() {
                first_add = Some(line);
            }
        } else if a < b && v[a] == '\\' {
        } else {
            line += 1;
        }
        proof {
            let w = walk(body.take(k as int), start as int);
            assert(out@.len() == w.1.len());
            assert forall|j: int| 0 <= j < out@.len() implies out@[j] == #[trigger] w.1[j] by {}
        }
        k += 1;
    }
    proof {
        assert(body.take(k - 1) =~= body);
        lemma_walk_bounds(body, start as int);
    }
    if out.len() == 0 {
        // Nothing goes away, thus take the line above the new text.
        let base = match first_add {
            Some(l) => l,
            None => start,
        };
        out.push(if base <= 1 {
            1
        } else {
            base - 1
        });
    }
    out
}

// ---------------------------------------------------------------------
// One block for each file
// ---------------------------------------------------------------------
/// The line that starts the diff of a file.
pub open spec fn file_mark() -> Seq<char> {
    seq!['d', 'i', 'f', 'f', ' ', '-', '-', 'g', 'i', 't', ' ']
}

/// The walk over the lines of a diff: the finished blocks and the block
/// that grows. A line that starts the diff of a file ends the growing
/// block, unless that block is still empty.
pub open spec fn file_walk(ls: Seq<Seq<char>>) -> (Seq<Seq<char>>, Seq<char>)
    decreases ls.len(),
{
    if ls.len() == 0 {
        (seq![], seq![])
    } else {
        let (out, cur) = file_walk(ls.drop_last());
        let l = ls.last();
        if starts_with(l, file_mark()) && cur.len() > 0 {
            (out.push(cur), l.push('\n'))
        } else {
            (out, cur + l.push('\n'))
        }
    }
}

/// The blocks of a diff, one for each file, each line with its `\n`.
pub open spec fn files_of(diff: Seq<char>) -> Seq<Seq<char>> {
    let (out, cur) = file_walk(lines_of(diff));
    if cur.len() > 0 {
        out.push(cur)
    } else {
        out
    }
}

/// Split a diff into one text for each file.
pub fn split_files(diff: &str) -> (r: Vec<String>)
    ensures
        views(r@) == files_of(diff@),
{
    let v = chars_of(diff);
    let lines = line_ranges(v.as_slice());
    let ghost ls = lines_of(diff@);
    let mark = vec!['d', 'i', 'f', 'f', ' ', '-', '-', 'g', 'i', 't', ' '];
    proof {
        assert(mark@ =~= file_mark());
    }
    let mut out: Vec<String> = Vec::new();
    let mut current = String::new();
    let mut k: usize = 0;
    while k < lines.len()
        invariant
            v@ == diff@,
            ls == lines_of(diff@),
            mark@ == file_mark(),
            lines@.len() == ls.len(),
            forall|j: int|
                #![trigger lines@[j]]
                0 <= j < lines@.len() ==> lines@[j].0 <= lines@[j].1 && lines@[j].1 <= v@.len()
                    && v@.subrange(lines@[j].0 as int, lines@[j].1 as int) == ls[j],
            0 <= k <= lines@.len(),
            views(out@) == file_walk(ls.take(k as int)).0,
            current@ == file_walk(ls.take(k as int)).1,
        decreases lines@.len() - k,
    {
        let (a, b) = lines[k];
        let ghost l = ls[k as int];
        proof {
            assert(v@.subrange(a as int, b as int) == l);
            assert(ls.take(k + 1).drop_last() =~= ls.take(k as int));
            assert(ls.take(k + 1).last() == l);
        }
        let starts = b - a >= 11 && matches_at(v.as_slice(), a, mark.as_slice());
        proof {
            if b - a >= 11 {
                assert(l.take(11) =~= v@.subrange(a as int, a + 11));
            }
        }
        if starts && !current.as_str().is_empty() {
            let done = current;
            current = String::new();
            proof {
                assert(views(out@.push(done)) =~= views(out@).push(done@));
            }
            out.push(done);
        }
        let ghost before = current@;
        push_range(&mut current, v.as_slice(), a, b);
        push_char(&mut current, '\n');
        proof {
            assert(current@ =~= before + l.push('\n'));
        }
        k += 1;
    }
    proof {
        assert(ls.take(k as int) =~= ls);
    }
    if !current.as_str().is_empty() {
        proof {
            assert(views(out@.push(current)) =~= views(out@).push(current@));
        }
        out.push(current);
    }
    out
}

/// The lines of a text, each with its `\n`.
pub open spec fn with_newlines(ls: Seq<Seq<char>>) -> Seq<char>
    decreases ls.len(),
{
    if ls.len() == 0 {
        seq![]
    } else {
        with_newlines(ls.drop_last()) + ls.last().push('\n')
    }
}

proof fn lemma_file_walk_keeps(ls: Seq<Seq<char>>)
    ensures
        file_walk(ls).0.flatten() + file_walk(ls).1 == with_newlines(ls),
    decreases ls.len(),
{
    if ls.len() > 0 {
        lemma_file_walk_keeps(ls.drop_last());
        let (out, cur) = file_walk(ls.drop_last());
        out.lemma_flatten_push(cur);
        assert(out.flatten() + cur + ls.last().push('\n') =~= out.flatten() + (cur
            + ls.last().push('\n')));
        assert(out.push(cur).flatten() + ls.last().push('\n') =~= out.flatten() + cur
            + ls.last().push('\n'));
    }
}

/// Splitting a diff by file loses no line: the blocks, one after the
/// other, are the lines of the diff, each with its end of line.
pub proof fn lemma_split_files_keeps_lines(diff: Seq<char>)
    ensures
        files_of(diff).flatten() == with_newlines(lines_of(diff)),
{
    let (out, cur) = file_walk(lines_of(diff));
    lemma_file_walk_keeps(lines_of(diff));
    if cur.len() > 0 {
        out.lemma_flatten_push(cur);
    } else {
        assert(out.flatten() + cur =~= out.flatten());
    }
}

/// The rest of the first line that starts with `p`.
pub open spec fn first_after(ls: Seq<Seq<char>>, p: Seq<char>) -> Option<Seq<char>>
    decreases ls.len(),
{
    if ls.len() == 0 {
        None
    } else if starts_with(ls[0], p) {
        Some(ls[0].skip(p.len() as int))
    } else {
        first_after(ls.drop_first(), p)
    }
}

/// The line that names the file on the new side of a diff.
pub open spec fn new_file_mark() -> Seq<char> {
    seq!['+', '+', '+', ' ', 'b', '/']
}

/// The name that follows `+++ b/` in a block of a diff.
pub open spec fn file_name(block: Seq<char>) -> Option<Seq<char>> {
    first_after(lines_of(block), new_file_mark())
}

/// The name of the file that a diff block is about.
#[verifier::spinoff_prover]
#[verifier::rlimit(40)]
pub fn file_of(block: &str) -> (r: Option<String>)
    ensures
        match r {
            Some(name) => file_name(block@) == Some(name@),
            None => file_name(block@) is None,
        },
{
    let v = chars_of(block);
    let lines = line_ranges(v.as_slice());
    let ghost ls = lines_of(block@);
    let p = vec!['+', '+', '+', ' ', 'b', '/'];
    let ghost ps = new_file_mark();
    proof {
        assert(p@ =~= ps);
        assert(ls.skip(0) =~= ls);
    }
    let mut k: usize = 0;
    while k < lines.len()
        invariant
            v@ == block@,
            ls == lines_of(block@),
            p@ == ps,
            ps == new_file_mark(),
            lines@.len() == ls.len(),
            forall|j: int|
                #![trigger lines@[j]]
                0 <= j < lines@.len() ==> lines@[j].0 <= lines@[j].1 && lines@[j].1 <= v@.len()
                    && v@.subrange(lines@[j].0 as int, lines@[j].1 as int) == ls[j],
            0 <= k <= lines@.len(),
            first_after(ls, ps) == first_after(ls.skip(k as int), ps),
        decreases lines@.len() - k,
    {
        let (a, b) = lines[k];
        let ghost l = ls[k as int];
        proof {
            assert(v@.subrange(a as int, b as int) == l);
            assert(ls.skip(k as int)[0] == l);
            assert(ls.skip(k as int).drop_first() =~= ls.skip(k + 1));
            assert(ps.len() == 6);
            assert(ls.skip(k as int).len() > 0);
            assert(first_after(ls.skip(k as int), ps) == if starts_with(l, ps) {
                Some(l.skip(6))
            } else {
                first_after(ls.skip(k + 1), ps)
            });
        }
        if b - a >= 6 && matches_at(v.as_slice(), a, p.as_slice()) {
            proof {
                assert(l.take(6) =~= v@.subrange(a as int, a + 6));
                assert(l.skip(6) =~= v@.subrange(a + 6, b as int));
            }
            return Some(string_of(v.as_slice(), a + 6, b));
        }
        proof {
            if starts_with(l, ps) {
                assert(l.take(6) =~= v@.subrange(a as int, a + 6));
            }
        }
        k += 1;
    }
    proof {
        assert(ls.skip(k as int) =~= Seq::<Seq<char>>::empty());
    }
    None
}

// ---------------------------------------------------------------------
// The commit that last wrote the lines
// ---------------------------------------------------------------------
/// A hexadecimal digit.
pub open spec fn is_hex(c: char) -> bool {
    ('0' <= c && c <= '9') || ('a' <= c && c <= 'f') || ('A' <= c && c <= 'F')
}

/// A full commit id: forty hexadecimal digits.
pub open spec fn is_commit_id(s: Seq<char>) -> bool {
    s.len() == 40 && forall|i: int| 0 <= i < 40 ==> is_hex(#[trigger] s[i])
}

/// A header line of `blame --porcelain`: the commit, the old line, and the
/// line in the file, split at each space. It gives the line in the file
/// and the commit.
pub open spec fn blame_header(line: Seq<char>) -> Option<(u32, Seq<char>)> {
    let p = split_on(line, ' ');
    if p.len() >= 3 && is_commit_id(p[0]) {
        match parse_uint(p[2], u32::MAX as nat) {
            Some(n) => Some((n as u32, p[0])),
            None => None,
        }
    } else {
        None
    }
}

/// The headers among the lines of the blame output, in their order.
pub open spec fn headers(ls: Seq<Seq<char>>) -> Seq<(u32, Seq<char>)>
    decreases ls.len(),
{
    if ls.len() == 0 {
        seq![]
    } else {
        let h = headers(ls.drop_last());
        match blame_header(ls.last()) {
            Some(e) => h.push(e),
            None => h,
        }
    }
}

/// The commit that the last header of line `n` names.
pub open spec fn last_id(hs: Seq<(u32, Seq<char>)>, n: u32) -> Option<Seq<char>>
    decreases hs.len(),
{
    if hs.len() == 0 {
        None
    } else if hs.last().0 == n {
        Some(hs.last().1)
    } else {
        last_id(hs.drop_last(), n)
    }
}

/// The commit of each of the given lines, as the blame output names it.
pub open spec fn line_ids(out: Seq<char>, lines: Seq<u32>) -> Seq<Option<Seq<char>>> {
    Seq::new(lines.len(), |k: int| last_id(headers(lines_of(out)), lines[k]))
}

/// How many of the lines the commit `id` wrote.
pub open spec fn votes(ids: Seq<Option<Seq<char>>>, id: Seq<char>) -> nat
    decreases ids.len(),
{
    if ids.len() == 0 {
        0
    } else {
        votes(ids.drop_last(), id) + if ids.last() == Some(id) {
            1nat
        } else {
            0nat
        }
    }
}

/// `id`, first named at position `k`, wrote the most of the lines, and no
/// commit named before it wrote as many.
pub open spec fn wins(ids: Seq<Option<Seq<char>>>, id: Seq<char>, k: int) -> bool {
    &&& 0 <= k < ids.len()
    &&& ids[k] == Some(id)
    &&& forall|j: int|
        0 <= j < ids.len() && #[trigger] ids[j] is Some ==> votes(ids, ids[j]->0) <= votes(
            ids,
            id,
        )
    &&& forall|j: int|
        0 <= j < k && #[trigger] ids[j] is Some ==> votes(ids, ids[j]->0) < votes(ids, id)
}

/// The commit that wrote the most of the lines; of two with as many, the
/// one that the earlier line names. None when no line has a commit.
pub open spec fn winner(ids: Seq<Option<Seq<char>>>) -> Option<Seq<char>> {
    if exists|id: Seq<char>, k: int| #[trigger] wins(ids, id, k) {
        Some((choose|id: Seq<char>, k: int| wins(ids, id, k)).0)
    } else {
        None
    }
}

/// Only one commit wins.
pub proof fn lemma_one_winner(ids: Seq<Option<Seq<char>>>, a: Seq<char>, i: int, b: Seq<char>, j: int)
    requires
        wins(ids, a, i),
        wins(ids, b, j),
    ensures
        a == b,
{
    if i < j {
        assert(ids[i] is Some);
        assert(votes(ids, ids[i]->0) < votes(ids, b));
        assert(ids[j] is Some);
        assert(votes(ids, ids[j]->0) <= votes(ids, a));
    } else if j < i {
        assert(ids[j] is Some);
        assert(votes(ids, ids[j]->0) < votes(ids, a));
        assert(ids[i] is Some);
        assert(votes(ids, ids[i]->0) <= votes(ids, b));
    }
}

/// The view of an optional text.
pub open spec fn opt_view(o: Option<String>) -> Option<Seq<char>> {
    match o {
        Some(s) => Some(s@),
        None => None,
    }
}

/// The views of a list of optional texts.
pub open spec fn opt_views(v: Seq<Option<String>>) -> Seq<Option<Seq<char>>> {
    v.map_values(|o: Option<String>| opt_view(o))
}

/// Whether `v[lo..hi]` is a full commit id.
fn commit_id_at(v: &[char], lo: usize, hi: usize) -> (r: bool)
    requires
        lo <= hi <= v@.len(),
    ensures
        r == is_commit_id(v@.subrange(lo as int, hi as int)),
{
    if hi - lo != 40 {
        return false;
    }
    let mut i = lo;
    while i < hi
        invariant
            lo <= i <= hi <= v@.len(),
            hi - lo == 40,
            forall|j: int| lo <= j < i ==> is_hex(#[trigger] v@[j]),
        decreases hi - i,
    {
        let c = v[i];
        if !(('0' <= c && c <= '9') || ('a' <= c && c <= 'f') || ('A' <= c && c <= 'F')) {
            assert(v@.subrange(lo as int, hi as int)[i - lo] == c);
            return false;
        }
        i += 1;
    }
    assert forall|j: int| 0 <= j < 40 implies is_hex(#[trigger] v@.subrange(lo as int, hi as int)[j]) by {
        assert(v@.subrange(lo as int, hi as int)[j] == v@[lo + j]);
    }
    true
}

/// The headers of a blame output.
fn blame_headers(out: &str) -> (r: Vec<(u32, String)>)
    ensures
        r@.len() == headers(lines_of(out@)).len(),
        forall|k: int|
            0 <= k < r@.len() ==> (#[trigger] r@[k]).0 == headers(lines_of(out@))[k].0 && r@[k].1@
                == headers(lines_of(out@))[k].1,
{
    let v = chars_of(out);
    let lines = line_ranges(v.as_slice());
    let ghost ls = lines_of(out@);
    let mut found: Vec<(u32, String)> = Vec::new();
    let mut k: usize = 0;
    while k < lines.len()
        invariant
            v@ == out@,
            ls == lines_of(out@),
            lines@.len() == ls.len(),
            forall|j: int|
                #![trigger lines@[j]]
                0 <= j < lines@.len() ==> lines@[j].0 <= lines@[j].1 && lines@[j].1 <= v@.len()
                    && v@.subrange(lines@[j].0 as int, lines@[j].1 as int) == ls[j],
            0 <= k <= lines@.len(),
            found@.len() == headers(ls.take(k as int)).len(),
            forall|j: int|
                0 <= j < found@.len() ==> (#[trigger] found@[j]).0 == headers(ls.take(k as int))[j].0
                    && found@[j].1@ == headers(ls.take(k as int))[j].1,
        decreases lines@.len() - k,
    {
        let (a, b) = lines[k];
        let ghost l = ls[k as int];
        let ghost before = headers(ls.take(k as int));
        proof {
            assert(v@.subrange(a as int, b as int) == l);
            assert(ls.take(k + 1).drop_last() =~= ls.take(k as int));
            assert(ls.take(k + 1).last() == l);
        }
        let parts = split_ranges(v.as_slice(), a, b, ' ');
        let ghost p = split_on(l, ' ');
        if parts.len() >= 3 {
            let (i0, i1) = parts[0];
            let (n0, n1) = parts[2];
            assert(v@.subrange(i0 as int, i1 as int) == p[0]);
            assert(v@.subrange(n0 as int, n1 as int) == p[2]);
            if commit_id_at(v.as_slice(), i0, i1) {
                match parse_u32(v.as_slice(), n0, n1) {
                    Some(n) => {
                        let id = string_of(v.as_slice(), i0, i1);
                        found.push((n, id));
                    },
                    None => {},
                }
            }
        }
        proof {
            let now = headers(ls.take(k + 1));
            assert(found@.len() == now.len());
            assert forall|j: int| 0 <= j < found@.len() implies (#[trigger] found@[j]).0 == now[j].0
                && found@[j].1@ == now[j].1 by {}
        }
        k += 1;
    }
    proof {
        assert(ls.take(k as int) =~= ls);
    }
    found
}

/// The commit that the last header of line `n` names.
fn id_of_line(found: &Vec<(u32, String)>, n: u32, Ghost(hs): Ghost<Seq<(u32, Seq<char>)>>) -> (r: Option<String>)
    requires
        found@.len() == hs.len(),
        forall|k: int| 0 <= k < found@.len() ==> (#[trigger] found@[k]).0 == hs[k].0 && found@[k].1@ == hs[k].1,
    ensures
        opt_view(r) == last_id(hs, n),
{
    let mut i = found.len();
    proof {
        assert(hs.take(i as int) =~= hs);
    }
    while i > 0
        invariant
            i <= found@.len() == hs.len(),
            forall|k: int| 0 <= k < found@.len() ==> (#[trigger] found@[k]).0 == hs[k].0 && found@[k].1@ == hs[k].1,
            last_id(hs, n) == last_id(hs.take(i as int), n),
        decreases i,
    {
        proof {
            assert(hs.take(i as int).last() == hs[i - 1]);
            assert(hs.take(i as int).drop_last() =~= hs.take(i - 1));
        }
        if found[i - 1].0 == n {
            return Some(found[i - 1].1.clone());
        }
        i -= 1;
    }
    None
}

/// Whether an optional text holds `id`.
fn holds(o: &Option<String>, id: &String) -> (r: bool)
    ensures
        r == (opt_view(*o) == Some(id@)),
{
    match o {
        Some(s) => text_eq(s.as_str(), id.as_str()),
        None => false,
    }
}

/// How many of the lines the commit `id` wrote.
fn count_votes(ids: &Vec<Option<String>>, id: &String) -> (r: usize)
    ensures
        r == votes(opt_views(ids@), id@),
{
    let ghost all = opt_views(ids@);
    let mut n: usize = 0;
    let mut k: usize = 0;
    while k < ids.len()
        invariant
            all == opt_views(ids@),
            0 <= k <= ids@.len(),
            n == votes(all.take(k as int), id@),
            n <= k,
        decreases ids@.len() - k,
    {
        proof {
            assert(all.take(k + 1).drop_last() =~= all.take(k as int));
            assert(all.take(k + 1).last() == opt_view(ids@[k as int]));
        }
        if holds(&ids[k], id) {
            n += 1;
        }
        k += 1;
    }
    proof {
        assert(all.take(k as int) =~= all);
    }
    n
}

/// The commit that last wrote most of the given lines, as the output of
/// `blame --porcelain` tells it. Only the lines the hunk changes count,
/// thus the context around them cannot outvote them. Of two commits with
/// as many lines, the one that the earlier line names wins.
pub fn blame_target(out: &str, lines: &[u32]) -> (r: Option<String>)
    ensures
        opt_view(r) == winner(line_ids(out@, lines@)),
{
    let found = blame_headers(out);
    let ghost hs = headers(lines_of(out@));
    let ghost want = line_ids(out@, lines@);
    let mut ids: Vec<Option<String>> = Vec::new();
    let mut k: usize = 0;
    while k < lines.len()
        invariant
            found@.len() == hs.len(),
            forall|j: int| 0 <= j < found@.len() ==> (#[trigger] found@[j]).0 == hs[j].0 && found@[j].1@ == hs[j].1,
            hs == headers(lines_of(out@)),
            want == line_ids(out@, lines@),
            0 <= k <= lines@.len(),
            opt_views(ids@) == want.take(k as int),
        decreases lines@.len() - k,
    {
        let id = id_of_line(&found, lines[k], Ghost(hs));
        proof {
            assert(opt_views(ids@.push(id)) =~= opt_views(ids@).push(opt_view(id)));
            assert(want.take(k + 1) =~= want.take(k as int).push(want[k as int]));
        }
        ids.push(id);
        k += 1;
    }
    let ghost all = opt_views(ids@);
    proof {
        assert(want.take(k as int) =~= want);
    }
    // The best line so far, and the votes of its commit.
    let mut best: Option<usize> = None;
    let mut best_votes: usize = 0;
    let mut i: usize = 0;
    while i < ids.len()
        invariant
            all == opt_views(ids@),
            all.len() == ids@.len(),
            0 <= i <= ids@.len(),
            best is None ==> forall|j: int| 0 <= j < i ==> (#[trigger] all[j]) is None,
            best matches Some(b) ==> {
                &&& b < i
                &&& all[b as int] is Some
                &&& best_votes == votes(all, all[b as int]->0)
                &&& forall|j: int|
                    0 <= j < i && #[trigger] all[j] is Some ==> votes(all, all[j]->0) <= best_votes
                &&& forall|j: int|
                    0 <= j < b && #[trigger] all[j] is Some ==> votes(all, all[j]->0) < best_votes
            },
        decreases ids@.len() - i,
    {
        assert(all[i as int] == opt_view(ids@[i as int]));
        match &ids[i] {
            Some(id) => {
                let n = count_votes(&ids, id);
                let better = match best {
                    None => true,
                    Some(_) => n > best_votes,
                };
                if better {
                    best = Some(i);
                    best_votes = n;
                }
            },
            None => {},
        }
        i += 1;
    }
    match best {
        None => {
            proof {
                assert forall|id: Seq<char>, k: int| !wins(all, id, k) by {
                    if wins(all, id, k) {
                        assert(all[k] is Some);
                    }
                }
            }
            None
        },
        Some(b) => {
            let r = ids[b].clone();
            proof {
                let id = all[b as int]->0;
                assert(wins(all, id, b as int));
                let (c, ck) = choose|x: Seq<char>, k: int| wins(all, x, k);
                lemma_one_winner(all, id, b as int, c, ck);
            }
            r
        },
    }
}

/// The first and the last line of a list, for the range that blame reads.
pub fn blame_range(lines: &[u32]) -> (r: Option<(u32, u32)>)
    ensures
        r is None <==> lines@.len() == 0,
        r matches Some((lo, hi)) ==> lines@.contains(lo) && lines@.contains(hi) && forall|k: int|
            0 <= k < lines@.len() ==> lo <= #[trigger] lines@[k] <= hi,
{
    if lines.len() == 0 {
        return None;
    }
    let mut lo = lines[0];
    let mut hi = lines[0];
    let ghost mut li: int = 0;
    let ghost mut hi_at: int = 0;
    let mut k: usize = 1;
    while k < lines.len()
        invariant
            1 <= k <= lines@.len(),
            0 <= li < k && lines@[li] == lo,
            0 <= hi_at < k && lines@[hi_at] == hi,
            forall|j: int| 0 <= j < k ==> lo <= #[trigger] lines@[j] <= hi,
        decreases lines@.len() - k,
    {
        if lines[k] < lo {
            lo = lines[k];
            proof {
                li = k as int;
            }
        }
        if lines[k] > hi {
            hi = lines[k];
            proof {
                hi_at = k as int;
            }
        }
        k += 1;
    }
    proof {
        assert(lines@[li] == lo);
        assert(lines@[hi_at] == hi);
    }
    Some((lo, hi))
}

// ---------------------------------------------------------------------
// The questions for blame
// ---------------------------------------------------------------------
/// Whether the line numbers of a hunk stay within a `u32`.
pub fn fits(hunk: &str) -> (r: bool)
    ensures
        r == fits_u32(hunk@),
{
    match old_range(hunk) {
        None => true,
        Some((start, _)) => {
            let v = chars_of(hunk);
            let lines = line_ranges(v.as_slice());
            (lines.len() as u64) <= (u32::MAX as u64) - (start as u64)
        },
    }
}

/// A hunk that waits for the answer of blame: the file it changes, the
/// header of that file's diff, the hunk, and the old lines it changes.
pub struct HunkJob {
    pub file: String,
    pub header: String,
    pub hunk: String,
    pub lines: Vec<u32>,
}

/// A job as plain values.
pub open spec fn job_view(j: HunkJob) -> (Seq<char>, Seq<char>, Seq<char>, Seq<u32>) {
    (j.file@, j.header@, j.hunk@, j.lines@)
}

/// The views of a list of jobs.
pub open spec fn job_views(v: Seq<Option<HunkJob>>) -> Seq<Option<(Seq<char>, Seq<char>, Seq<char>, Seq<u32>)>> {
    v.map_values(
        |o: Option<HunkJob>|
            match o {
                Some(j) => Some(job_view(j)),
                None => None,
            },
    )
}

/// The job for one hunk of a file, or None when no line of it can be
/// named.
pub open spec fn hunk_job(file: Seq<char>, header: Seq<char>, hunk: Seq<char>) -> Option<(Seq<char>, Seq<char>, Seq<char>, Seq<u32>)> {
    if fits_u32(hunk) && changed_of(hunk).len() > 0 {
        Some((file, header, hunk, changed_of(hunk).map_values(|x: int| x as u32)))
    } else {
        None
    }
}

/// The jobs of one block: one for each hunk, when the block names its file
/// and has hunks.
pub open spec fn block_jobs(block: Seq<char>) -> Seq<Option<(Seq<char>, Seq<char>, Seq<char>, Seq<u32>)>> {
    match file_name(block) {
        None => seq![],
        Some(f) => match diff_split(block) {
            None => seq![],
            Some((h, hs)) => hs.map_values(|x: Seq<char>| hunk_job(f, h, x)),
        },
    }
}

/// The jobs of a staged diff, file by file and hunk by hunk.
pub open spec fn staged_jobs(staged: Seq<char>) -> Seq<Option<(Seq<char>, Seq<char>, Seq<char>, Seq<u32>)>> {
    files_of(staged).map_values(|b: Seq<char>| block_jobs(b)).flatten()
}

/// The job of one hunk.
fn job_of(file: &String, header: &String, hunk: &String) -> (r: Option<HunkJob>)
    ensures
        match r {
            Some(j) => hunk_job(file@, header@, hunk@) == Some(job_view(j)),
            None => hunk_job(file@, header@, hunk@) is None,
        },
{
    if !fits(hunk.as_str()) {
        return None;
    }
    let lines = changed_lines(hunk.as_str());
    if lines.len() == 0 {
        return None;
    }
    proof {
        assert(lines@ =~= changed_of(hunk@).map_values(|x: int| x as u32));
    }
    Some(HunkJob { file: file.clone(), header: header.clone(), hunk: hunk.clone(), lines })
}

/// The staged hunks, file by file, each with the lines to ask blame about.
/// A hunk whose lines cannot be named has no job.
pub fn hunk_jobs(staged: &str) -> (r: Vec<Option<HunkJob>>)
    ensures
        job_views(r@) == staged_jobs(staged@),
{
    let blocks = split_files(staged);
    let ghost bv = views(blocks@);
    let mut out: Vec<Option<HunkJob>> = Vec::new();
    let mut k: usize = 0;
    proof {
        assert(bv.take(0).map_values(|b: Seq<char>| block_jobs(b)).flatten() =~= Seq::<
            Option<(Seq<char>, Seq<char>, Seq<char>, Seq<u32>)>,
        >::empty());
        assert(job_views(out@) =~= Seq::<Option<(Seq<char>, Seq<char>, Seq<char>, Seq<u32>)>>::empty());
    }
    while k < blocks.len()
        invariant
            bv == views(blocks@),
            bv == files_of(staged@),
            0 <= k <= blocks@.len(),
            job_views(out@) == bv.take(k as int).map_values(|b: Seq<char>| block_jobs(b)).flatten(),
        decreases blocks@.len() - k,
    {
        let ghost before = job_views(out@);
        let block = &blocks[k];
        assert(block@ == bv[k as int]);
        match file_of(block.as_str()) {
            None => {},
            Some(file) => match split_diff(block.as_str()) {
                None => {},
                Some((header, hunks)) => {
                    let ghost hv = views(hunks@);
                    let mut i: usize = 0;
                    proof {
                        assert(hv.take(0).map_values(|x: Seq<char>| hunk_job(file@, header@, x))
                            =~= Seq::<Option<(Seq<char>, Seq<char>, Seq<char>, Seq<u32>)>>::empty());
                        assert(job_views(out@) =~= before + Seq::<Option<(Seq<char>, Seq<char>, Seq<char>, Seq<u32>)>>::empty());
                    }
                    while i < hunks.len()
                        invariant
                            hv == views(hunks@),
                            0 <= i <= hunks@.len(),
                            job_views(out@) == before + hv.take(i as int).map_values(
                                |x: Seq<char>| hunk_job(file@, header@, x),
                            ),
                        decreases hunks@.len() - i,
                    {
                        let job = job_of(&file, &header, &hunks[i]);
                        proof {
                            let f = |x: Seq<char>| hunk_job(file@, header@, x);
                            assert(hv.take(i + 1).map_values(f) =~= hv.take(i as int).map_values(
                                f,
                            ).push(f(hv[i as int])));
                            assert(job_views(out@.push(job)) =~= job_views(out@).push(
                                match job {
                                    Some(j) => Some(job_view(j)),
                                    None => None,
                                },
                            ));
                        }
                        out.push(job);
                        i += 1;
                    }
                    proof {
                        assert(hv.take(i as int) =~= hv);
                    }
                },
            },
        }
        proof {
            let g = |b: Seq<char>| block_jobs(b);
            assert(bv.take(k + 1).map_values(g) =~= bv.take(k as int).map_values(g).push(
                g(bv[k as int]),
            ));
            bv.take(k as int).map_values(g).lemma_flatten_push(g(bv[k as int]));
            assert(job_views(out@) =~= before + block_jobs(bv[k as int]));
        }
        k += 1;
    }
    proof {
        assert(bv.take(k as int) =~= bv);
    }
    out
}

// ---------------------------------------------------------------------
// The groups
// ---------------------------------------------------------------------
/// The first seven characters of a commit id, as the lists of short ids
/// hold it.
pub open spec fn short_id(id: Seq<char>) -> Seq<char> {
    if id.len() <= 7 {
        id
    } else {
        id.take(7)
    }
}

/// Only a commit that the list of your own commits holds may take a change.
pub open spec fn may_take(own: Seq<Seq<char>>, id: Seq<char>) -> bool {
    own.contains(short_id(id))
}

/// The commit that takes a hunk, from the answer of blame about its lines:
/// the winner of the vote, when it is one of your own commits.
pub open spec fn target_of(out: Option<Seq<char>>, lines: Seq<u32>, own: Seq<Seq<char>>) -> Option<Seq<char>> {
    match out {
        None => None,
        Some(o) => match winner(line_ids(o, lines)) {
            Some(id) => if may_take(own, id) {
                Some(id)
            } else {
                None
            },
            None => None,
        },
    }
}

/// A hunk goes only to one of your own commits, named by its full id.
pub proof fn lemma_target_is_own(out: Option<Seq<char>>, lines: Seq<u32>, own: Seq<Seq<char>>)
    ensures
        target_of(out, lines, own) matches Some(t) ==> may_take(own, t) && is_commit_id(t),
{
    if let Some(o) = out {
        lemma_winner_id(o, lines);
    }
}

/// The position of the group of commit `t`.
pub open spec fn group_of(gs: Seq<(Seq<char>, Seq<char>, nat)>, t: Seq<char>) -> Option<int>
    decreases gs.len(),
{
    if gs.len() == 0 {
        None
    } else if gs.last().0 == t {
        Some(gs.len() - 1)
    } else {
        group_of(gs.drop_last(), t)
    }
}

/// The groups after a hunk with patch `p` goes to commit `t`: its group
/// grows, or a new group starts at the end.
pub open spec fn add_hunk(gs: Seq<(Seq<char>, Seq<char>, nat)>, t: Seq<char>, p: Seq<char>) -> Seq<(Seq<char>, Seq<char>, nat)> {
    match group_of(gs, t) {
        Some(i) => gs.update(i, (t, gs[i].1 + p, gs[i].2 + 1)),
        None => gs.push((t, p, 1)),
    }
}

/// The number of hunks in all groups.
pub open spec fn hunk_sum(gs: Seq<(Seq<char>, Seq<char>, nat)>) -> nat
    decreases gs.len(),
{
    if gs.len() == 0 {
        0
    } else {
        hunk_sum(gs.drop_last()) + gs.last().2
    }
}

/// One group: the commit that takes the changes, and the patch to apply.
pub struct Group {
    pub target: String,
    pub patch: String,
    pub hunks: usize,
}

/// A group as plain values.
pub open spec fn group_views(gs: Seq<Group>) -> Seq<(Seq<char>, Seq<char>, nat)> {
    gs.map_values(|g: Group| (g.target@, g.patch@, g.hunks as nat))
}

proof fn lemma_group_of(gs: Seq<(Seq<char>, Seq<char>, nat)>, t: Seq<char>)
    ensures
        group_of(gs, t) matches Some(i) ==> 0 <= i < gs.len() && gs[i].0 == t,
        group_of(gs, t) is None ==> forall|i: int| 0 <= i < gs.len() ==> gs[i].0 != t,
    decreases gs.len(),
{
    if gs.len() > 0 {
        lemma_group_of(gs.drop_last(), t);
        if gs.last().0 != t {
            assert forall|i: int| 0 <= i < gs.len() - 1 implies gs[i] == gs.drop_last()[i] by {}
        }
    }
}

proof fn lemma_sum_update(gs: Seq<(Seq<char>, Seq<char>, nat)>, i: int, x: (Seq<char>, Seq<char>, nat))
    requires
        0 <= i < gs.len(),
    ensures
        hunk_sum(gs.update(i, x)) + gs[i].2 == hunk_sum(gs) + x.2,
    decreases gs.len(),
{
    if i == gs.len() - 1 {
        assert(gs.update(i, x).drop_last() =~= gs.drop_last());
    } else {
        assert(gs.update(i, x).drop_last() =~= gs.drop_last().update(i, x));
        lemma_sum_update(gs.drop_last(), i, x);
    }
}

proof fn lemma_sum_each(gs: Seq<(Seq<char>, Seq<char>, nat)>, i: int)
    requires
        0 <= i < gs.len(),
    ensures
        gs[i].2 <= hunk_sum(gs),
    decreases gs.len(),
{
    if i < gs.len() - 1 {
        lemma_sum_each(gs.drop_last(), i);
    }
}

proof fn lemma_last_id_in(hs: Seq<(u32, Seq<char>)>, n: u32)
    ensures
        last_id(hs, n) matches Some(id) ==> exists|i: int| 0 <= i < hs.len() && (#[trigger] hs[i]).1 == id,
    decreases hs.len(),
{
    if hs.len() > 0 && hs.last().0 != n {
        lemma_last_id_in(hs.drop_last(), n);
        if let Some(id) = last_id(hs, n) {
            let i = choose|i: int| 0 <= i < hs.drop_last().len() && (#[trigger] hs.drop_last()[i]).1 == id;
            assert(hs[i] == hs.drop_last()[i]);
        }
    }
}

proof fn lemma_headers_ids(ls: Seq<Seq<char>>)
    ensures
        forall|i: int| 0 <= i < headers(ls).len() ==> is_commit_id(#[trigger] headers(ls)[i].1),
    decreases ls.len(),
{
    if ls.len() > 0 {
        lemma_headers_ids(ls.drop_last());
        let h = headers(ls.drop_last());
        assert forall|i: int| 0 <= i < headers(ls).len() implies is_commit_id(#[trigger] headers(ls)[i].1) by {
            if i < h.len() {
                assert(headers(ls)[i] == h[i]);
            }
        }
    }
}

/// The winner of a vote over blame output is a full commit id.
proof fn lemma_winner_id(out: Seq<char>, lines: Seq<u32>)
    ensures
        winner(line_ids(out, lines)) matches Some(id) ==> is_commit_id(id),
{
    let ids = line_ids(out, lines);
    if let Some(id) = winner(ids) {
        let (w, k) = choose|w: Seq<char>, k: int| wins(ids, w, k);
        let hs = headers(lines_of(out));
        assert(ids[k] == last_id(hs, lines[k]));
        lemma_last_id_in(hs, lines[k]);
        lemma_headers_ids(lines_of(out));
    }
}

/// Whether the list of your own commits holds the short form of `id`.
pub fn may_take_id(own: &[String], id: &String) -> (r: bool)
    ensures
        r == may_take(views(own@), id@),
{
    let v = chars_of(id.as_str());
    let end = if v.len() <= 7 {
        v.len()
    } else {
        7
    };
    let short = string_of(v.as_slice(), 0, end);
    proof {
        assert(short@ =~= short_id(id@));
    }
    let mut k: usize = 0;
    while k < own.len()
        invariant
            short@ == short_id(id@),
            0 <= k <= own@.len(),
            forall|j: int| 0 <= j < k ==> own@[j]@ != short@,
        decreases own@.len() - k,
    {
        if text_eq(own[k].as_str(), short.as_str()) {
            assert(views(own@)[k as int] == short@);
            return true;
        }
        k += 1;
    }
    proof {
        if views(own@).contains(short@) {
            let j = choose|j: int| 0 <= j < views(own@).len() && views(own@)[j] == short@;
            assert(own@[j]@ == short@);
        }
    }
    false
}

/// The position of the group of commit `t`.
fn find_group(groups: &Vec<Group>, t: &String) -> (r: Option<usize>)
    ensures
        match r {
            Some(i) => group_of(group_views(groups@), t@) == Some(i as int),
            None => group_of(group_views(groups@), t@) is None,
        },
{
    let ghost gv = group_views(groups@);
    let mut i = groups.len();
    proof {
        assert(gv.take(i as int) =~= gv);
    }
    while i > 0
        invariant
            gv == group_views(groups@),
            i <= groups@.len(),
            group_of(gv, t@) == group_of(gv.take(i as int), t@),
        decreases i,
    {
        proof {
            assert(gv.take(i as int).last() == gv[i - 1]);
            assert(gv.take(i as int).drop_last() =~= gv.take(i - 1));
        }
        if text_eq(groups[i - 1].target.as_str(), t.as_str()) {
            return Some(i - 1);
        }
        i -= 1;
    }
    None
}

/// The work of absorb between the staged diff and the fixup commits: the
/// jobs, the next job to ask blame about, the groups so far, and how many
/// hunks stay where they are.
pub struct Absorb {
    pub jobs: Vec<Option<HunkJob>>,
    pub next: usize,
    pub groups: Vec<Group>,
    pub skipped: usize,
}

impl Absorb {
    /// The jobs before `next` are done; each of them went to a group or
    /// stays; each group belongs to a full commit id.
    pub open spec fn wf(&self) -> bool {
        &&& self.next <= self.jobs@.len()
        &&& self.skipped + hunk_sum(group_views(self.groups@)) == self.next
        &&& forall|i: int|
            0 <= i < self.groups@.len() ==> is_commit_id(#[trigger] self.groups@[i].target@)
    }

    /// Start the work on a staged diff. An empty diff has nothing to send.
    pub fn start(staged: &str) -> (r: Result<Absorb, String>)
        ensures
            r is Err <==> trim(staged@).len() == 0,
            r matches Err(e) ==> e@ == "stage the changes you want to send back first"@,
            r matches Ok(a) ==> {
                &&& a.wf()
                &&& job_views(a.jobs@) == staged_jobs(staged@)
                &&& a.next == 0
                &&& a.groups@.len() == 0
                &&& a.skipped == 0
            },
    {
        let v = chars_of(staged);
        let a = trim_start_pos(v.as_slice(), 0, v.len());
        let b = trim_end_pos(v.as_slice(), a, v.len());
        proof {
            assert(v@.subrange(0, v@.len() as int) =~= staged@);
        }
        if a == b {
            return Err(string_from("stage the changes you want to send back first"));
        }
        let jobs = hunk_jobs(staged);
        let r = Absorb { jobs, next: 0, groups: Vec::new(), skipped: 0 };
        proof {
            assert(group_views(r.groups@) =~= Seq::<(Seq<char>, Seq<char>, nat)>::empty());
        }
        Ok(r)
    }

    /// The next question for blame: the file, and the first and the last
    /// of the lines to read. Jobs with no lines stay where they are and
    /// are passed on the way. None when every job is done.
    pub fn question(&mut self) -> (r: Option<(String, u32, u32)>)
        requires
            old(self).wf(),
        ensures
            final(self).wf(),
            final(self).jobs == old(self).jobs,
            final(self).groups == old(self).groups,
            old(self).next <= final(self).next,
            forall|i: int|
                old(self).next <= i < final(self).next ==> match #[trigger] old(self).jobs@[i] {
                    Some(j) => j.lines@.len() == 0,
                    None => true,
                },
            final(self).skipped == old(self).skipped + (final(self).next - old(self).next),
            r is None <==> final(self).next == final(self).jobs@.len(),
            r matches Some((f, lo, hi)) ==> {
                &&& final(self).next < final(self).jobs@.len()
                &&& final(self).jobs@[final(self).next as int] matches Some(j)
                &&& f@ == j.file@
                &&& j.lines@.contains(lo)
                &&& j.lines@.contains(hi)
                &&& forall|k: int| 0 <= k < j.lines@.len() ==> lo <= #[trigger] j.lines@[k] <= hi
            },
    {
        loop
            invariant
                self.wf(),
                self.jobs == old(self).jobs,
                self.groups == old(self).groups,
                old(self).next <= self.next,
                forall|i: int|
                    old(self).next <= i < self.next ==> match #[trigger] old(self).jobs@[i] {
                        Some(j) => j.lines@.len() == 0,
                        None => true,
                    },
                self.skipped == old(self).skipped + (self.next - old(self).next),
            decreases self.jobs@.len() - self.next,
        {
            if self.next == self.jobs.len() {
                return None;
            }
            let asked = match &self.jobs[self.next] {
                Some(j) => match blame_range(j.lines.as_slice()) {
                    Some((lo, hi)) => Some((j.file.clone(), lo, hi)),
                    None => None,
                },
                None => None,
            };
            if asked.is_some() {
                return asked;
            }
            self.skipped += 1;
            self.next += 1;
        }
    }

    /// Take the answer of blame for the next job: `out` is its output, or
    /// None when blame failed. The hunk goes to the group of the commit
    /// that wrote most of its lines, when that commit is one of `own`;
    /// else it stays where it is.
    pub fn answer(&mut self, out: Option<&str>, own: &[String])
        requires
            old(self).wf(),
            old(self).next < old(self).jobs@.len(),
            old(self).jobs@[old(self).next as int] is Some,
        ensures
            final(self).wf(),
            final(self).jobs == old(self).jobs,
            final(self).next == old(self).next + 1,
            ({
                let j = old(self).jobs@[old(self).next as int]->0;
                let o = match out {
                    Some(t) => Some(t@),
                    None => None,
                };
                match target_of(o, j.lines@, views(own@)) {
                    Some(t) => group_views(final(self).groups@) == add_hunk(
                        group_views(old(self).groups@),
                        t,
                        patch_of(j.header@, j.hunk@),
                    ) && final(self).skipped == old(self).skipped,
                    None => final(self).groups == old(self).groups && final(self).skipped
                        == old(self).skipped + 1,
                }
            }),
    {
        let ghost o = match out {
            Some(t) => Some(t@),
            None => None,
        };
        let (target, p) = match &self.jobs[self.next] {
            Some(j) => {
                let won = match out {
                    Some(text) => blame_target(text, j.lines.as_slice()),
                    None => None,
                };
                proof {
                    if out is Some {
                        lemma_winner_id(o->0, j.lines@);
                    }
                }
                let t = match won {
                    Some(id) => if may_take_id(own, &id) {
                        Some(id)
                    } else {
                        None
                    },
                    None => None,
                };
                (t, hunk_patch(j.header.as_str(), j.hunk.as_str()))
            },
            None => {
                return;
            },
        };
        let n = self.jobs.len();
        assert(self.next < n);
        self.next += 1;
        match target {
            None => {
                self.skipped += 1;
            },
            Some(t) => {
                self.add(t, p);
            },
        }
    }

    /// Put a patch into the group of commit `t`.
    fn add(&mut self, t: String, p: String)
        requires
            old(self).skipped + hunk_sum(group_views(old(self).groups@)) + 1 == old(self).next,
            old(self).next <= old(self).jobs@.len(),
            is_commit_id(t@),
            forall|i: int|
                0 <= i < old(self).groups@.len() ==> is_commit_id(#[trigger] old(self).groups@[i].target@),
        ensures
            final(self).wf(),
            final(self).jobs == old(self).jobs,
            final(self).next == old(self).next,
            final(self).skipped == old(self).skipped,
            group_views(final(self).groups@) == add_hunk(group_views(old(self).groups@), t@, p@),
    {
        let ghost gv = group_views(self.groups@);
        let found = find_group(&self.groups, &t);
        proof {
            lemma_group_of(gv, t@);
        }
        if found.is_none() {
            proof {
                assert(group_views(self.groups@.push(Group { target: t, patch: p, hunks: 1 })) =~= gv.push((t@, p@, 1)));
                assert(gv.push((t@, p@, 1)).drop_last() =~= gv);
            }
            self.groups.push(Group { target: t, patch: p, hunks: 1 });
        } else {
            let k = found.unwrap();
            proof {
                lemma_sum_each(gv, k as int);
            }
            let mut patch = self.groups[k].patch.clone();
            push_str(&mut patch, p.as_str());
            let g = Group { target: self.groups[k].target.clone(), patch, hunks: self.groups[k].hunks + 1 };
            proof {
                lemma_sum_update(gv, k as int, (g.target@, g.patch@, g.hunks as nat));
                assert(group_views(self.groups@.update(k as int, g)) =~= gv.update(
                    k as int,
                    (t@, gv[k as int].1 + p@, gv[k as int].2 + 1),
                ));
            }
            self.groups.set(k, g);
        }
    }

    /// At least one group has a commit to go to.
    pub fn check(&self) -> (r: Result<(), String>)
        ensures
            r is Err <==> self.groups@.len() == 0,
            r matches Err(e) ==> e@ == "no change belongs to a commit that is still yours to change"@,
    {
        if self.groups.len() == 0 {
            Err(string_from("no change belongs to a commit that is still yours to change"))
        } else {
            Ok(())
        }
    }

    /// The number of hunks in all groups.
    pub fn total(&self) -> (r: usize)
        requires
            self.wf(),
        ensures
            r == hunk_sum(group_views(self.groups@)),
    {
        let ghost gv = group_views(self.groups@);
        let mut n: usize = 0;
        let mut k: usize = 0;
        while k < self.groups.len()
            invariant
                gv == group_views(self.groups@),
                self.wf(),
                0 <= k <= self.groups@.len(),
                n == hunk_sum(gv.take(k as int)),
            decreases self.groups@.len() - k,
        {
            proof {
                assert(gv.take(k + 1).drop_last() =~= gv.take(k as int));
                lemma_sum_each(gv.take(k + 1), k as int);
                assert(gv.take(k + 1) =~= gv.take(k + 1));
                lemma_prefix_sum(gv, k + 1);
            }
            n += self.groups[k].hunks;
            k += 1;
        }
        proof {
            assert(gv.take(k as int) =~= gv);
        }
        n
    }
}

proof fn lemma_prefix_sum(gs: Seq<(Seq<char>, Seq<char>, nat)>, k: int)
    requires
        0 <= k <= gs.len(),
    ensures
        hunk_sum(gs.take(k)) <= hunk_sum(gs),
    decreases gs.len() - k,
{
    if k < gs.len() {
        lemma_prefix_sum(gs, k + 1);
        assert(gs.take(k + 1).drop_last() =~= gs.take(k));
    } else {
        assert(gs.take(k) =~= gs);
    }
}

// ---------------------------------------------------------------------
// The outcome
// ---------------------------------------------------------------------
/// The note when the patch of a group does not apply.
pub open spec fn apply_note_text(target: Seq<char>, err: Seq<char>) -> Seq<char> {
    "could not apply the changes for "@ + target.take(7) + ": "@ + err
}

/// The note when the patch of a group does not apply.
pub fn apply_note(target: &str, err: &str) -> (r: String)
    requires
        target@.len() >= 7,
    ensures
        r@ == apply_note_text(target@, err@),
{
    let v = chars_of(target);
    let mut out = string_from("could not apply the changes for ");
    push_range(&mut out, v.as_slice(), 0, 7);
    push_str(&mut out, ": ");
    push_str(&mut out, err);
    proof {
        assert(v@.subrange(0, 7) =~= target@.take(7));
    }
    out
}

/// The note when the fixup commit of a group fails.
pub open spec fn commit_note_text(target: Seq<char>, err: Seq<char>) -> Seq<char> {
    "could not commit for "@ + target.take(7) + ": "@ + err
}

/// The note when the fixup commit of a group fails.
pub fn commit_note(target: &str, err: &str) -> (r: String)
    requires
        target@.len() >= 7,
    ensures
        r@ == commit_note_text(target@, err@),
{
    let v = chars_of(target);
    let mut out = string_from("could not commit for ");
    push_range(&mut out, v.as_slice(), 0, 7);
    push_str(&mut out, ": ");
    push_str(&mut out, err);
    proof {
        assert(v@.subrange(0, 7) =~= target@.take(7));
    }
    out
}

/// The argument that makes a fixup commit for `target`.
pub fn fixup_arg(target: &str) -> (r: String)
    ensures
        r@ == "--fixup="@ + target@,
{
    let mut out = string_from("--fixup=");
    push_str(&mut out, target);
    out
}

/// The range of the commits after `target`, for counting them.
pub fn since_arg(target: &str) -> (r: String)
    ensures
        r@ == target@ + "..HEAD"@,
{
    let mut out = string_from(target);
    push_str(&mut out, "..HEAD");
    out
}

/// The parent of `target`, where the rebase starts.
pub fn rebase_base(target: &str) -> (r: String)
    ensures
        r@ == target@ + seq!['^'],
{
    let mut out = string_from(target);
    push_char(&mut out, '^');
    out
}

/// What fails when no fixup commit was made: the last note, or a plain
/// word when there is none.
pub fn nothing_made(notes: &[String]) -> (r: String)
    ensures
        notes@.len() > 0 ==> r@ == notes@.last()@,
        notes@.len() == 0 ==> r@ == "nothing was absorbed"@,
{
    if notes.len() > 0 {
        notes[notes.len() - 1].clone()
    } else {
        string_from("nothing was absorbed")
    }
}

/// The number in the output of `rev-list --count`, or zero when the
/// command failed or printed no number.
pub open spec fn count_in(out: Option<Seq<char>>) -> u32 {
    match out {
        Some(t) => match parse_uint(trim(t), u32::MAX as nat) {
            Some(n) => n as u32,
            None => 0,
        },
        None => 0,
    }
}

/// The number in the output of `rev-list --count`.
pub fn count_of(out: Option<&str>) -> (r: u32)
    ensures
        r == count_in(
            match out {
                Some(t) => Some(t@),
                None => None,
            },
        ),
{
    match out {
        None => 0,
        Some(t) => {
            let v = chars_of(t);
            let a = trim_start_pos(v.as_slice(), 0, v.len());
            let b = trim_end_pos(v.as_slice(), a, v.len());
            proof {
                assert(v@.subrange(0, v@.len() as int) =~= t@);
            }
            match parse_u32(v.as_slice(), a, b) {
                Some(n) => n,
                None => 0,
            }
        },
    }
}

/// The commit with the most commits after it, of those that took a change:
/// of two with as many, the later one in the list.
pub open spec fn oldest_of(counts: Seq<(u32, Seq<char>)>) -> (u32, Seq<char>)
    decreases counts.len(),
{
    if counts.len() == 0 {
        (0, seq![])
    } else {
        let best = oldest_of(counts.drop_last());
        if counts.last().0 >= best.0 {
            counts.last()
        } else {
            best
        }
    }
}

/// Rebase from the parent of the oldest commit that took a change. The
/// oldest one has the most commits between it and HEAD.
pub fn oldest_target(counts: &[(u32, String)]) -> (r: String)
    ensures
        r@ == oldest_of(counts@.map_values(|c: (u32, String)| (c.0, c.1@))).1,
{
    let ghost cv = counts@.map_values(|c: (u32, String)| (c.0, c.1@));
    let mut best: u32 = 0;
    let mut target = String::new();
    let mut k: usize = 0;
    proof {
        assert(cv.take(0) =~= Seq::<(u32, Seq<char>)>::empty());
    }
    while k < counts.len()
        invariant
            cv == counts@.map_values(|c: (u32, String)| (c.0, c.1@)),
            0 <= k <= counts@.len(),
            (best, target@) == oldest_of(cv.take(k as int)),
        decreases counts@.len() - k,
    {
        proof {
            assert(cv.take(k + 1).drop_last() =~= cv.take(k as int));
            assert(cv.take(k + 1).last() == cv[k as int]);
        }
        if counts[k].0 >= best {
            best = counts[k].0;
            target = counts[k].1.clone();
        }
        k += 1;
    }
    proof {
        assert(cv.take(k as int) =~= cv);
    }
    target
}

/// The first lines of a text, at most `n` of them.
pub open spec fn first_lines(text: Seq<char>, n: nat) -> Seq<Seq<char>> {
    let ls = lines_of(text);
    if ls.len() <= n {
        ls
    } else {
        ls.take(n as int)
    }
}

/// The error when the rebase stops: a note that the fixup commits are
/// there, the other notes, and the first three lines that the rebase
/// printed on one line, all joined with `; `.
pub open spec fn rebase_failed_text(notes: Seq<Seq<char>>, stderr: Seq<char>) -> Seq<char> {
    join(
        seq!["the fixup commits are there, but the rebase stopped"@] + notes + seq![
            join(first_lines(stderr, 3), seq![' ']),
        ],
        "; "@,
    )
}

/// The error when the rebase stops.
pub fn rebase_failed(notes: &[String], stderr: &str) -> (r: String)
    ensures
        r@ == rebase_failed_text(views(notes@), stderr@),
{
    let mut parts: Vec<String> = Vec::new();
    parts.push(string_from("the fixup commits are there, but the rebase stopped"));
    let mut k: usize = 0;
    while k < notes.len()
        invariant
            0 <= k <= notes@.len(),
            views(parts@) == seq!["the fixup commits are there, but the rebase stopped"@] + views(
                notes@,
            ).take(k as int),
        decreases notes@.len() - k,
    {
        proof {
            assert(views(parts@.push(notes@[k as int])) =~= views(parts@).push(notes@[k as int]@));
            assert(views(notes@).take(k + 1) =~= views(notes@).take(k as int).push(notes@[k as int]@));
        }
        parts.push(notes[k].clone());
        k += 1;
    }
    let v = chars_of(stderr);
    let lines = line_ranges(v.as_slice());
    let ghost ls = lines_of(stderr@);
    let mut first: Vec<String> = Vec::new();
    let mut i: usize = 0;
    while i < lines.len() && i < 3
        invariant
            v@ == stderr@,
            ls == lines_of(stderr@),
            lines@.len() == ls.len(),
            forall|j: int|
                #![trigger lines@[j]]
                0 <= j < lines@.len() ==> lines@[j].0 <= lines@[j].1 && lines@[j].1 <= v@.len()
                    && v@.subrange(lines@[j].0 as int, lines@[j].1 as int) == ls[j],
            0 <= i <= 3,
            i <= lines@.len(),
            views(first@) == ls.take(i as int),
        decreases lines@.len() - i,
    {
        let (a, b) = lines[i];
        let line = string_of(v.as_slice(), a, b);
        proof {
            assert(views(first@.push(line)) =~= views(first@).push(line@));
            assert(ls.take(i + 1) =~= ls.take(i as int).push(ls[i as int]));
        }
        first.push(line);
        i += 1;
    }
    proof {
        assert(ls.take(i as int) =~= first_lines(stderr@, 3));
    }
    let mut last = String::new();
    push_joined(&mut last, &first, " ");
    proof {
        assert(views(parts@.push(last)) =~= views(parts@).push(last@));
    }
    parts.push(last);
    let mut out = String::new();
    proof {
        reveal_strlit(" ");
        assert(" "@ =~= seq![' ']);
        assert(views(notes@).take(notes@.len() as int) =~= views(notes@));
        assert(views(parts@) =~= seq!["the fixup commits are there, but the rebase stopped"@]
            + views(notes@) + seq![join(first_lines(stderr@, 3), seq![' '])]);
    }
    push_joined(&mut out, &parts, "; ");
    proof {
        assert(out@ =~= rebase_failed_text(views(notes@), stderr@));
    }
    out
}

/// The lines for the command log when the work is done: how many changes
/// went into how many commits, how many stayed, and the notes.
pub open spec fn summary_lines(total: nat, made: nat, skipped: nat, notes: Seq<Seq<char>>) -> Seq<Seq<char>> {
    seq![decimal(total) + " changes went back into "@ + decimal(made) + " commits"@] + (if skipped > 0 {
        seq![decimal(skipped) + " changes stayed, because no commit of yours holds those lines"@]
    } else {
        seq![]
    }) + notes
}

/// The lines for the command log when the work is done.
pub fn summary(total: usize, made: usize, skipped: usize, notes: &[String]) -> (r: Vec<String>)
    ensures
        views(r@) == summary_lines(total as nat, made as nat, skipped as nat, views(notes@)),
{
    let mut out: Vec<String> = Vec::new();
    let mut head = String::new();
    push_decimal(&mut head, total as u64);
    push_str(&mut head, " changes went back into ");
    push_decimal(&mut head, made as u64);
    push_str(&mut head, " commits");
    out.push(head);
    if skipped > 0 {
        let mut stay = String::new();
        push_decimal(&mut stay, skipped as u64);
        push_str(&mut stay, " changes stayed, because no commit of yours holds those lines");
        out.push(stay);
    }
    let ghost lead = views(out@);
    let mut k: usize = 0;
    while k < notes.len()
        invariant
            0 <= k <= notes@.len(),
            views(out@) == lead + views(notes@).take(k as int),
        decreases notes@.len() - k,
    {
        proof {
            assert(views(out@.push(notes@[k as int])) =~= views(out@).push(notes@[k as int]@));
            assert(views(notes@).take(k + 1) =~= views(notes@).take(k as int).push(notes@[k as int]@));
        }
        out.push(notes[k].clone());
        k += 1;
    }
    proof {
        assert(views(notes@).take(k as int) =~= views(notes@));
        assert(views(out@) =~= summary_lines(total as nat, made as nat, skipped as nat, views(notes@)));
    }
    out
}

} // verus!
