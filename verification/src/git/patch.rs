//! Split a unified diff into a file header and hunks. Build a patch for one
//! hunk. `git apply --cached` consumes the patch.
use vstd::prelude::*;

use crate::text::{
    all_digits, digits_value, first_ws, is_digit, is_ws, lemma_decimal, lemma_first_ws_is,
    lemma_lines_concat, lemma_lines_one, strip_cr, lemma_find_seq_is, lemma_find_seq_none, lemma_starts_with_one, before_seq, find_seq, chars_of, contains_at, contains_seq, decimal, find_from, find_within, first_word,
    line_ranges, lines_of, matches_at, occurs_at, parse_u32, parse_uint, push_char, push_decimal,
    push_range, push_str, starts_with, starts_with_at, string_from, string_of, words_of,
};

verus! {

/// The mark that starts a hunk on a new line: `\n@@`.
pub open spec fn hunk_mark() -> Seq<char> {
    seq!['\n', '@', '@']
}

/// The views of a list of strings.
pub open spec fn views(v: Seq<String>) -> Seq<Seq<char>> {
    v.map_values(|s: String| s@)
}

/// `hunks` cut `body` at each `\n@@`: each piece starts with `@@`, holds
/// no `\n@@`, and each piece but the last ends with its `\n`.
pub open spec fn cut_at_hunks(body: Seq<char>, hunks: Seq<Seq<char>>) -> bool {
    &&& hunks.flatten() == body
    &&& hunks.len() > 0
    &&& forall|k: int|
        0 <= k < hunks.len() ==> starts_with(#[trigger] hunks[k], seq!['@', '@'])
            && !contains_seq(hunks[k], hunk_mark())
    &&& forall|k: int| 0 <= k < hunks.len() - 1 ==> (#[trigger] hunks[k]).last() == '\n'
}

fn mark() -> (m: Vec<char>)
    ensures
        m@ == hunk_mark(),
{
    let mut m = Vec::new();
    m.push('\n');
    m.push('@');
    m.push('@');
    assert(m@ =~= hunk_mark());
    m
}

proof fn lemma_flatten_push(s: Seq<Seq<char>>, x: Seq<char>)
    ensures
        s.push(x).flatten() == s.flatten() + x,
{
    s.lemma_flatten_and_flatten_alt_are_equivalent();
    s.push(x).lemma_flatten_and_flatten_alt_are_equivalent();
    assert(s.push(x).drop_last() =~= s);
}

proof fn lemma_mark_at(v: Seq<char>, i: int)
    requires
        occurs_at(v, hunk_mark(), i),
    ensures
        v[i] == '\n',
        v[i + 1] == '@',
        v[i + 2] == '@',
{
    assert(v.subrange(i, i + 3)[0] == v[i]);
    assert(v.subrange(i, i + 3)[1] == v[i + 1]);
    assert(v.subrange(i, i + 3)[2] == v[i + 2]);
}

/// A hunk piece: it starts with `@@` and holds no `\n@@`.
#[verifier::opaque]
pub open spec fn piece_ok(h: Seq<char>) -> bool {
    starts_with(h, seq!['@', '@']) && !contains_seq(h, hunk_mark())
}

/// A piece `v[start..end]` that starts with `@@` and holds no whole `\n@@`.
proof fn lemma_hunk_piece(v: Seq<char>, start: int, end: int)
    requires
        0 <= start,
        start + 2 <= end <= v.len(),
        v[start] == '@',
        v[start + 1] == '@',
        forall|j: int| start <= j && j + 3 <= end ==> !occurs_at(v, hunk_mark(), j),
    ensures
        piece_ok(v.subrange(start, end)),
{
    reveal(piece_ok);
    let hs = v.subrange(start, end);
    assert(hs.take(2) =~= seq!['@', '@']);
    assert forall|j: int| !occurs_at(hs, hunk_mark(), j) by {
        if occurs_at(hs, hunk_mark(), j) {
            assert(hs.subrange(j, j + 3) =~= v.subrange(start + j, start + j + 3));
            assert(occurs_at(v, hunk_mark(), start + j));
        }
    }
}

proof fn lemma_split_done(v: Seq<char>, f: int, hv: Seq<Seq<char>>)
    requires
        0 <= f,
        f + 1 <= v.len(),
        hv.flatten() == v.subrange(f + 1, v.len() as int),
        hv.len() > 0,
        forall|k: int| 0 <= k < hv.len() ==> piece_ok(#[trigger] hv[k]),
        forall|k: int| 0 <= k < hv.len() - 1 ==> (#[trigger] hv[k]).last() == '\n',
    ensures
        cut_at_hunks(v.skip(f + 1), hv),
        v.take(f + 1) + hv.flatten() == v,
{
    reveal(piece_ok);
    assert(v.subrange(f + 1, v.len() as int) =~= v.skip(f + 1));
    assert(v.take(f + 1) + v.skip(f + 1) =~= v);
}

/// The end of the hunk piece that starts at `start`: the position after the
/// `\n` of the next `\n@@`, or the end of the text.
fn piece_end(v: &[char], m: &[char], start: usize) -> (e: usize)
    requires
        m@ == hunk_mark(),
        start + 2 <= v@.len(),
        v@[start as int] == '@',
        v@[start + 1] == '@',
    ensures
        start < e <= v@.len(),
        piece_ok(v@.subrange(start as int, e as int)),
        e < v@.len() ==> e + 2 <= v@.len() && v@[e - 1] == '\n' && v@[e as int] == '@' && v@[e
            + 1] == '@',
{
    match find_from(v, start, m) {
        Some(i) => {
            let n = v.len();
            assert(i + 3 <= n);
            proof {
                lemma_mark_at(v@, i as int);
                lemma_hunk_piece(v@, start as int, i + 1);
            }
            i + 1
        },
        None => {
            proof {
                lemma_hunk_piece(v@, start as int, v@.len() as int);
            }
            v.len()
        },
    }
}

/// Cut `v[start..]` into hunk pieces.
fn cut_pieces(v: &[char], start0: usize) -> (hunks: Vec<String>)
    requires
        start0 + 2 <= v@.len(),
        v@[start0 as int] == '@',
        v@[start0 + 1] == '@',
    ensures
        views(hunks@).flatten() == v@.subrange(start0 as int, v@.len() as int),
        hunks@.len() > 0,
        forall|k: int| 0 <= k < hunks@.len() ==> piece_ok(#[trigger] views(hunks@)[k]),
        forall|k: int|
            0 <= k < hunks@.len() - 1 ==> (#[trigger] views(hunks@)[k]).last() == '\n',
{
    let m = mark();
    let mut hunks: Vec<String> = Vec::new();
    let mut start = start0;
    let ghost hv: Seq<Seq<char>> = seq![];
    proof {
        assert(hv.flatten() =~= v@.subrange(start0 as int, start as int));
    }
    loop
        invariant
            m@ == hunk_mark(),
            start0 <= start,
            start + 2 <= v@.len(),
            v@[start as int] == '@',
            v@[start + 1] == '@',
            hunks@.len() == hv.len(),
            forall|k: int| 0 <= k < hv.len() ==> (#[trigger] hunks@[k])@ == hv[k],
            hv.flatten() == v@.subrange(start0 as int, start as int),
            forall|k: int| 0 <= k < hv.len() ==> piece_ok(#[trigger] hv[k]),
            forall|k: int| 0 <= k < hv.len() ==> (#[trigger] hv[k]).last() == '\n',
        decreases v@.len() - start,
    {
        let e = piece_end(v, m.as_slice(), start);
        let h = string_of(v, start, e);
        proof {
            let hs = v@.subrange(start as int, e as int);
            lemma_flatten_push(hv, hs);
            assert(v@.subrange(start0 as int, start as int) + hs =~= v@.subrange(
                start0 as int,
                e as int,
            ));
            hv = hv.push(hs);
        }
        hunks.push(h);
        if e == v.len() {
            proof {
                assert(views(hunks@) =~= hv);
            }
            return hunks;
        }
        start = e;
    }
}

/// The hunks of a diff body: a cut after each `\n` that a `@@` follows.
pub open spec fn hunk_cuts(body: Seq<char>) -> Seq<Seq<char>>
    decreases body.len(),
{
    match find_seq(body, hunk_mark(), 0) {
        Some(i) => if 0 <= i && i + 1 < body.len() {
            seq![body.take(i + 1)] + hunk_cuts(body.skip(i + 1))
        } else {
            seq![body]
        },
        None => seq![body],
    }
}

/// The file header and the hunks of a one-file diff: the header ends with
/// the first `\n` that a `@@` follows. A text with no hunk has no split.
pub open spec fn diff_split(text: Seq<char>) -> Option<(Seq<char>, Seq<Seq<char>>)> {
    match find_seq(text, hunk_mark(), 0) {
        None => None,
        Some(f) => Some((text.take(f + 1), hunk_cuts(text.skip(f + 1)))),
    }
}

/// A body has only one cut at its hunks.
proof fn lemma_cut_unique(body: Seq<char>, h: Seq<Seq<char>>)
    requires
        cut_at_hunks(body, h),
    ensures
        h == hunk_cuts(body),
    decreases h.len(),
{
    let a = h[0];
    let rest = h.drop_first();
    let rb = rest.flatten();
    assert(starts_with(a, seq!['@', '@']));
    assert(a.take(2)[0] == a[0] && a.take(2)[1] == a[1]);
    assert(body == a + rb);
    if h.len() == 1 {
        assert(rb =~= Seq::<char>::empty());
        assert(body =~= a);
        assert forall|j: int| 0 <= j implies !occurs_at(body, hunk_mark(), j) by {
            if occurs_at(body, hunk_mark(), j) {
                assert(contains_seq(a, hunk_mark()));
            }
        }
        lemma_find_seq_none(body, hunk_mark(), 0);
        assert(h =~= seq![body]);
    } else {
        assert forall|k: int| 0 <= k < rest.len() implies starts_with(
            #[trigger] rest[k],
            seq!['@', '@'],
        ) && !contains_seq(rest[k], hunk_mark()) by {
            assert(rest[k] == h[k + 1]);
        }
        assert forall|k: int| 0 <= k < rest.len() - 1 implies (#[trigger] rest[k]).last()
            == '\n' by {
            assert(rest[k] == h[k + 1]);
        }
        lemma_cut_unique(rb, rest);
        let b = rest[0];
        assert(starts_with(b, seq!['@', '@']));
        assert(b.take(2)[0] == b[0] && b.take(2)[1] == b[1]);
        assert(rb == b + rest.drop_first().flatten());
        assert(a.last() == '\n');
        let i = a.len() - 1;
        assert(body[i] == '\n');
        assert(body[i + 1] == b[0]);
        assert(body[i + 2] == b[1]);
        assert(body.subrange(i, i + 3) =~= hunk_mark());
        assert forall|j: int| 0 <= j < i implies !occurs_at(body, hunk_mark(), j) by {
            if occurs_at(body, hunk_mark(), j) {
                assert(body.subrange(j, j + 3)[1] == body[j + 1]);
                if j + 3 <= a.len() {
                    assert(a.subrange(j, j + 3) =~= body.subrange(j, j + 3));
                    assert(occurs_at(a, hunk_mark(), j));
                } else {
                    assert(body[j + 1] == a[a.len() - 1]);
                }
            }
        }
        lemma_find_seq_is(body, hunk_mark(), 0, i);
        assert(body.take(i + 1) =~= a);
        assert(body.skip(i + 1) =~= rb);
        assert(h =~= seq![a] + rest);
    }
}

/// Split one-file diff text. Return the file header and the hunk blocks.
/// Each hunk block starts at its `@@` line.
pub fn split_diff(text: &str) -> (r: Option<(String, Vec<String>)>)
    ensures
        match r {
            None => forall|i: int| !occurs_at(text@, hunk_mark(), i),
            Some((header, hunks)) => exists|f: int|
                {
                    &&& occurs_at(text@, hunk_mark(), f)
                    &&& forall|j: int| 0 <= j < f ==> !occurs_at(text@, hunk_mark(), j)
                    &&& header@ == text@.take(f + 1)
                    &&& cut_at_hunks(text@.skip(f + 1), views(hunks@))
                },
        },
        r is None <==> diff_split(text@) is None,
        r matches Some((header, hunks)) ==> diff_split(text@) == Some((header@, views(hunks@))),
        // The header and the hunks give the text back.
        r matches Some((header, hunks)) ==> header@ + views(hunks@).flatten() == text@,
{
    let v = chars_of(text);
    let m = mark();
    let f = match find_from(v.as_slice(), 0, m.as_slice()) {
        None => {
            proof {
                lemma_find_seq_none(text@, hunk_mark(), 0);
            }
            return None;
        },
        Some(f) => f,
    };
    proof {
        lemma_find_seq_is(text@, hunk_mark(), 0, f as int);
    }
    let n = v.len();
    assert(f + 3 <= n);
    proof {
        lemma_mark_at(v@, f as int);
    }
    let header = string_of(v.as_slice(), 0, f + 1);
    let hunks = cut_pieces(v.as_slice(), f + 1);
    proof {
        let hv = views(hunks@);
        assert forall|k: int| 0 <= k < hv.len() - 1 implies (#[trigger] hv[k]).last() == '\n' by {}
        lemma_split_done(v@, f as int, hv);
        lemma_cut_unique(text@.skip(f + 1), hv);
        assert(header@ =~= text@.take(f + 1));
    }
    Some((header, hunks))
}

/// The patch text of a file header and one hunk: the two joined, with an
/// end of line added where the hunk has none.
pub open spec fn patch_of(header: Seq<char>, hunk: Seq<char>) -> Seq<char> {
    let p = header + hunk;
    if p.len() > 0 && p.last() == '\n' {
        p
    } else {
        p.push('\n')
    }
}

/// Build a patch that contains the file header and one hunk.
pub fn hunk_patch(header: &str, hunk: &str) -> (r: String)
    ensures
        r@ == patch_of(header@, hunk@),
{
    let mut patch = string_from(header);
    push_str(&mut patch, hunk);
    let hv = chars_of(hunk);
    let ends = if hv.len() > 0 {
        hv[hv.len() - 1] == '\n'
    } else {
        let hd = chars_of(header);
        hd.len() > 0 && hd[hd.len() - 1] == '\n'
    };
    if !ends {
        push_char(&mut patch, '\n');
    }
    patch
}

// ---------------------------------------------------------------------
// One hunk with only the chosen lines
// ---------------------------------------------------------------------
/// The two line numbers of a `@@ -a,b +c,d @@` line: `a` and `c`.
pub open spec fn header_nums(head: Seq<char>) -> Option<(u32, u32)> {
    if !starts_with(head, seq!['@', '@', ' ']) {
        None
    } else {
        let mid = before_seq(head.skip(3), seq![' ', '@', '@']);
        let ws = words_of(mid);
        if ws.len() < 2 || !starts_with(ws[0], seq!['-']) || !starts_with(ws[1], seq!['+']) {
            None
        } else {
            match (first_num(ws[0].drop_first()), first_num(ws[1].drop_first())) {
                (Some(a), Some(b)) => Some((a, b)),
                _ => None,
            }
        }
    }
}

/// The number before the first comma of `s`.
pub open spec fn first_num(s: Seq<char>) -> Option<u32> {
    match parse_uint(before_seq(s, seq![',']), u32::MAX as nat) {
        Some(n) => Some(n as u32),
        None => None,
    }
}

/// The number before the first comma of `v[lo..hi]`.
pub fn first_num_exec(v: &[char], lo: usize, hi: usize) -> (r: Option<u32>)
    requires
        lo <= hi <= v@.len(),
    ensures
        r == first_num(v@.subrange(lo as int, hi as int)),
{
    let comma = vec![','];
    let end = match find_within(v, lo, hi, comma.as_slice()) {
        Some(i) => i,
        None => hi,
    };
    proof {
        let s = v@.subrange(lo as int, hi as int);
        assert(comma@ =~= seq![',']);
        match find_seq(s, seq![','], 0) {
            Some(i) => {
                assert(end == lo + i);
                assert(v@.subrange(lo as int, end as int) =~= s.take(i));
            },
            None => {
                assert(v@.subrange(lo as int, end as int) =~= s);
            },
        }
    }
    parse_u32(v, lo, end)
}

/// The middle of a `@@ ... @@` line `v[lo..hi]`: the end of the text
/// between `@@ ` and the next ` @@`, when the line starts with `@@ `.
pub fn header_middle(v: &[char], lo: usize, hi: usize) -> (r: Option<usize>)
    requires
        lo <= hi <= v@.len(),
    ensures
        match r {
            None => !starts_with(v@.subrange(lo as int, hi as int), seq!['@', '@', ' ']),
            Some(e) => starts_with(v@.subrange(lo as int, hi as int), seq!['@', '@', ' '])
                && lo + 3 <= e <= hi && v@.subrange(lo + 3, e as int) == before_seq(
                v@.subrange(lo as int, hi as int).skip(3),
                seq![' ', '@', '@'],
            ),
        },
{
    let ghost head = v@.subrange(lo as int, hi as int);
    let pre = vec!['@', '@', ' '];
    proof {
        assert(pre@ =~= seq!['@', '@', ' ']);
    }
    if !matches_at(v, lo, pre.as_slice()) || hi - lo < 3 {
        proof {
            if starts_with(head, seq!['@', '@', ' ']) {
                assert(head.take(3) =~= v@.subrange(lo as int, lo + 3));
            }
        }
        return None;
    }
    proof {
        assert(head.take(3) =~= v@.subrange(lo as int, lo + 3));
    }
    let close = vec![' ', '@', '@'];
    proof {
        assert(close@ =~= seq![' ', '@', '@']);
    }
    let mid_end = match find_within(v, lo + 3, hi, close.as_slice()) {
        Some(i) => i,
        None => hi,
    };
    proof {
        let rest = head.skip(3);
        let mid = v@.subrange(lo + 3, mid_end as int);
        assert(rest =~= v@.subrange(lo + 3, hi as int));
        match find_seq(rest, seq![' ', '@', '@'], 0) {
            Some(i) => {
                assert(mid_end == lo + 3 + i);
                assert(mid =~= rest.take(i));
            },
            None => {
                assert(mid =~= rest);
            },
        }
    }
    Some(mid_end)
}

/// Read the two line numbers out of a "@@ -a,b +c,d @@" line, the line
/// being `v[lo..hi]`.
pub fn parse_header(v: &[char], lo: usize, hi: usize) -> (r: Option<(u32, u32)>)
    requires
        lo <= hi <= v@.len(),
    ensures
        r == header_nums(v@.subrange(lo as int, hi as int)),
{
    let ghost head = v@.subrange(lo as int, hi as int);
    let mid_end = match header_middle(v, lo, hi) {
        Some(e) => e,
        None => {
            return None;
        },
    };
    let ghost mid = v@.subrange(lo + 3, mid_end as int);
    let (a0, a1) = match first_word(v, lo + 3, mid_end) {
        Some(w) => w,
        None => {
            return None;
        },
    };
    let (b0, b1) = match first_word(v, a1, mid_end) {
        Some(w) => w,
        None => {
            return None;
        },
    };
    let ghost ws = words_of(mid);
    proof {
        assert(ws[0] == v@.subrange(a0 as int, a1 as int));
        assert(ws[1] == v@.subrange(b0 as int, b1 as int));
        lemma_starts_with_one(ws[0], '-');
        lemma_starts_with_one(ws[1], '+');
    }
    if v[a0] != '-' || v[b0] != '+' {
        return None;
    }
    proof {
        assert(ws[0].take(1) =~= seq!['-']);
        assert(ws[1].take(1) =~= seq!['+']);
        assert(ws[0].drop_first() =~= v@.subrange(a0 + 1, a1 as int));
        assert(ws[1].drop_first() =~= v@.subrange(b0 + 1, b1 as int));
    }
    let a = first_num_exec(v, a0 + 1, a1);
    let b = first_num_exec(v, b0 + 1, b1);
    proof {
        assert(ws.len() >= 2);
        assert(starts_with(head, seq!['@', '@', ' ']));
        assert(first_num(ws[0].drop_first()) == a);
        assert(first_num(ws[1].drop_first()) == b);
        assert(starts_with(ws[0], seq!['-']));
        assert(starts_with(ws[1], seq!['+']));
    }
    match (a, b) {
        (Some(x), Some(y)) => Some((x, y)),
        _ => None,
    }
}

/// What one body line of a hunk becomes, and how much it adds to the old
/// and the new count. A change that is not taken must not go away: an
/// added line goes out, a removed line becomes context.
pub open spec fn line_out(line: Seq<char>, take: bool) -> (Seq<char>, nat, nat) {
    if line.len() > 0 && line[0] == '\\' {
        (line.push('\n'), 0, 0)
    } else if line.len() > 0 && line[0] == '+' {
        if take {
            (line.push('\n'), 0, 1)
        } else {
            (seq![], 0, 0)
        }
    } else if line.len() > 0 && line[0] == '-' {
        if take {
            (line.push('\n'), 1, 0)
        } else {
            (seq![' '] + line.drop_first() + seq!['\n'], 1, 1)
        }
    } else {
        (line.push('\n'), 1, 1)
    }
}

/// The body of the new hunk, and its old and new line counts, for the body
/// lines `lines` (the line at position `i` is taken when `i` is selected).
pub open spec fn body_out(lines: Seq<Seq<char>>, selected: Seq<usize>) -> (Seq<char>, nat, nat)
    decreases lines.len(),
{
    if lines.len() == 0 {
        (seq![], 0, 0)
    } else {
        let (b, o, n) = body_out(lines.drop_last(), selected);
        let (x, oi, ni) = line_out(lines.last(), selected.contains((lines.len() - 1) as usize));
        (b + x, o + oi, n + ni)
    }
}

/// A body that still holds an added or a removed line.
pub open spec fn has_change(body: Seq<char>) -> bool {
    ||| contains_seq(body, seq!['\n', '+'])
    ||| starts_with(body, seq!['+'])
    ||| contains_seq(body, seq!['\n', '-'])
    ||| starts_with(body, seq!['-'])
}

/// The `@@ -a,b +c,d @@` line.
pub open spec fn header_line(a: nat, b: nat, c: nat, d: nat) -> Seq<char> {
    seq!['@', '@', ' ', '-'] + decimal(a) + seq![','] + decimal(b) + seq![' ', '+'] + decimal(c)
        + seq![','] + decimal(d) + seq![' ', '@', '@', '\n']
}

/// The hunk that holds only the selected changes.
pub open spec fn subset_of(hunk: Seq<char>, selected: Seq<usize>) -> Option<Seq<char>> {
    let ls = lines_of(hunk);
    if ls.len() == 0 {
        None
    } else {
        match header_nums(ls[0]) {
            None => None,
            Some((a, c)) => {
                let (body, b, d) = body_out(ls.drop_first(), selected);
                if b == d && !has_change(body) {
                    None
                } else {
                    Some(header_line(a as nat, b, c as nat, d) + body)
                }
            },
        }
    }
}

proof fn lemma_body_counts(lines: Seq<Seq<char>>, selected: Seq<usize>)
    ensures
        body_out(lines, selected).1 <= lines.len(),
        body_out(lines, selected).2 <= lines.len(),
    decreases lines.len(),
{
    if lines.len() > 0 {
        lemma_body_counts(lines.drop_last(), selected);
    }
}

/// Whether `x` is in the list.
pub fn contains_index(s: &[usize], x: usize) -> (r: bool)
    ensures
        r == s@.contains(x),
{
    let mut i: usize = 0;
    while i < s.len()
        invariant
            0 <= i <= s@.len(),
            forall|j: int| 0 <= j < i ==> s@[j] != x,
        decreases s@.len() - i,
    {
        if s[i] == x {
            return true;
        }
        i += 1;
    }
    false
}

/// Make a hunk that holds only the selected changes. The index numbers
/// point to the body lines of the hunk, thus the `@@` line is not one of
/// them.
///
/// A change that the user did not select must not go away. An added line
/// that is not selected goes out of the hunk. A removed line that is not
/// selected becomes a context line, thus the line stays in the file.
pub fn subset_hunk(hunk: &str, selected: &[usize]) -> (r: Option<String>)
    requires
        lines_of(hunk@).len() <= u32::MAX as nat + 1,
    ensures
        r matches Some(s) ==> subset_of(hunk@, selected@) == Some(s@),
        r is None ==> subset_of(hunk@, selected@) is None,
{
    let v = chars_of(hunk);
    let lines = line_ranges(v.as_slice());
    if lines.len() == 0 {
        return None;
    }
    let (h0, h1) = lines[0];
    let (old_start, new_start) = match parse_header(v.as_slice(), h0, h1) {
        Some(p) => p,
        None => {
            return None;
        },
    };
    let ghost ls = lines_of(hunk@);
    let ghost body_lines = ls.drop_first();
    let mut body = String::new();
    let mut old_count: u32 = 0;
    let mut new_count: u32 = 0;
    let mut k: usize = 1;
    proof {
        assert(body_lines.take(0) =~= Seq::<Seq<char>>::empty());
    }
    while k < lines.len()
        invariant
            v@ == hunk@,
            ls == lines_of(hunk@),
            body_lines == ls.drop_first(),
            lines@.len() == ls.len(),
            ls.len() <= u32::MAX as nat + 1,
            forall|j: int|
                #![trigger lines@[j]]
                0 <= j < lines@.len() ==> lines@[j].0 <= lines@[j].1 && lines@[j].1 <= v@.len()
                    && v@.subrange(lines@[j].0 as int, lines@[j].1 as int) == ls[j],
            1 <= k <= lines@.len(),
            (body@, old_count as nat, new_count as nat) == body_out(
                body_lines.take(k - 1),
                selected@,
            ),
        decreases lines@.len() - k,
    {
        let i = k - 1;
        let take = contains_index(selected, i);
        let (a, b) = lines[k];
        let ghost line = ls[k as int];
        assert(v@.subrange(a as int, b as int) == line);
        let ghost pre = body@;
        proof {
            assert(body_lines.take(k as int).drop_last() =~= body_lines.take(k - 1));
            assert(body_lines.take(k as int).last() == line);
            lemma_body_counts(body_lines.take(k - 1), selected@);
        }
        if a < b && v[a] == '\\' {
            push_range(&mut body, v.as_slice(), a, b);
            push_char(&mut body, '\n');
        } else if a < b && v[a] == '+' {
            if take {
                push_range(&mut body, v.as_slice(), a, b);
                push_char(&mut body, '\n');
                new_count += 1;
            }
        } else if a < b && v[a] == '-' {
            if take {
                push_range(&mut body, v.as_slice(), a, b);
                push_char(&mut body, '\n');
                old_count += 1;
            } else {
                push_char(&mut body, ' ');
                push_range(&mut body, v.as_slice(), a + 1, b);
                push_char(&mut body, '\n');
                old_count += 1;
                new_count += 1;
            }
        } else {
            push_range(&mut body, v.as_slice(), a, b);
            push_char(&mut body, '\n');
            old_count += 1;
            new_count += 1;
        }
        proof {
            let (x, oi, ni) = line_out(line, selected@.contains(i));
            if a < b {
                assert(line[0] == v@[a as int]);
                assert(line.drop_first() =~= v@.subrange(a + 1, b as int));
            }
            if a < b && v@[a as int] == '-' && !take {
                assert(body@ =~= pre + x);
            } else {
                assert(body@ =~= pre + x);
            }
        }
        k += 1;
    }
    proof {
        assert(body_lines.take(k - 1) =~= body_lines);
    }
    let bv = chars_of(body.as_str());
    let nl_plus = vec!['\n', '+'];
    let nl_minus = vec!['\n', '-'];
    let plus = vec!['+'];
    let minus = vec!['-'];
    proof {
        assert(nl_plus@ =~= seq!['\n', '+']);
        assert(nl_minus@ =~= seq!['\n', '-']);
        assert(plus@ =~= seq!['+']);
        assert(minus@ =~= seq!['-']);
    }
    let changed = contains_at(bv.as_slice(), nl_plus.as_slice()) || starts_with_at(
        bv.as_slice(),
        plus.as_slice(),
    ) || contains_at(bv.as_slice(), nl_minus.as_slice()) || starts_with_at(
        bv.as_slice(),
        minus.as_slice(),
    );
    // A hunk with no change does nothing.
    if old_count == new_count && !changed {
        return None;
    }
    let mut out = String::new();
    let head = vec!['@', '@', ' ', '-'];
    push_range(&mut out, head.as_slice(), 0, 4);
    push_decimal(&mut out, old_start as u64);
    push_char(&mut out, ',');
    push_decimal(&mut out, old_count as u64);
    push_char(&mut out, ' ');
    push_char(&mut out, '+');
    push_decimal(&mut out, new_start as u64);
    push_char(&mut out, ',');
    push_decimal(&mut out, new_count as u64);
    push_char(&mut out, ' ');
    push_char(&mut out, '@');
    push_char(&mut out, '@');
    push_char(&mut out, '\n');
    let ghost hl = out@;
    push_str(&mut out, body.as_str());
    proof {
        assert(head@.subrange(0, 4) =~= seq!['@', '@', ' ', '-']);
        assert(hl =~= header_line(
            old_start as nat,
            old_count as nat,
            new_start as nat,
            new_count as nat,
        ));
        assert(ls[0] == v@.subrange(h0 as int, h1 as int));
    }
    Some(out)
}

// ---------------------------------------------------------------------
// What a partial hunk keeps
// ---------------------------------------------------------------------
/// The old count of a partial hunk does not depend on what is selected: a
/// removed line that is not taken stays as context, thus the hunk always
/// expects the same old lines.
pub proof fn lemma_old_count_fixed(lines: Seq<Seq<char>>, s1: Seq<usize>, s2: Seq<usize>)
    ensures
        body_out(lines, s1).1 == body_out(lines, s2).1,
    decreases lines.len(),
{
    if lines.len() > 0 {
        lemma_old_count_fixed(lines.drop_last(), s1, s2);
    }
}

/// No line of `s` starts with `+` or `-`.
pub open spec fn no_change_line(s: Seq<char>) -> bool {
    forall|i: int|
        0 <= i < s.len() && (i == 0 || s[i - 1] == '\n') ==> #[trigger] s[i] != '+' && s[i] != '-'
}

proof fn lemma_no_change_line(s: Seq<char>)
    requires
        no_change_line(s),
    ensures
        !has_change(s),
{
    if s.len() > 0 {
        assert(s[0] != '+' && s[0] != '-');
        lemma_starts_with_one(s, '+');
        lemma_starts_with_one(s, '-');
    }
    assert forall|i: int| !occurs_at(s, seq!['\n', '+'], i) by {
        if occurs_at(s, seq!['\n', '+'], i) {
            assert(s.subrange(i, i + 2)[0] == '\n');
            assert(s.subrange(i, i + 2)[1] == '+');
            assert(s[i + 1] == '+');
            assert(s[(i + 1) - 1] == '\n');
        }
    }
    assert forall|i: int| !occurs_at(s, seq!['\n', '-'], i) by {
        if occurs_at(s, seq!['\n', '-'], i) {
            assert(s.subrange(i, i + 2)[0] == '\n');
            assert(s.subrange(i, i + 2)[1] == '-');
            assert(s[i + 1] == '-');
            assert(s[(i + 1) - 1] == '\n');
        }
    }
}

/// With nothing selected, a body keeps no change, and it adds as many
/// old lines as new ones.
proof fn lemma_body_unselected(lines: Seq<Seq<char>>)
    requires
        forall|k: int| 0 <= k < lines.len() ==> !(#[trigger] lines[k]).contains('\n'),
    ensures
        no_change_line(body_out(lines, seq![]).0),
        body_out(lines, seq![]).0.len() == 0 || body_out(lines, seq![]).0.last() == '\n',
        body_out(lines, seq![]).1 == body_out(lines, seq![]).2,
    decreases lines.len(),
{
    if lines.len() > 0 {
        let sel = Seq::<usize>::empty();
        lemma_body_unselected(lines.drop_last());
        let b = body_out(lines.drop_last(), sel).0;
        let line = lines.last();
        assert(!line.contains('\n'));
        assert(!sel.contains((lines.len() - 1) as usize));
        let x = line_out(line, false).0;
        assert(x.len() > 0 ==> x[0] != '+' && x[0] != '-' && x.last() == '\n');
        assert(forall|j: int| 0 <= j < x.len() - 1 ==> x[j] != '\n') by {
            assert forall|j: int| 0 <= j < x.len() - 1 implies x[j] != '\n' by {
                if line.len() > 0 && line[0] == '-' {
                    assert(x[j] == (seq![' '] + line.drop_first())[j]);
                    if j > 0 {
                        assert(x[j] == line[j]);
                    }
                } else {
                    assert(x[j] == line[j]);
                }
            }
        }
        let s = b + x;
        assert(body_out(lines, sel).0 == s);
        assert forall|i: int|
            0 <= i < s.len() && (i == 0 || s[i - 1] == '\n') implies #[trigger] s[i] != '+'
            && s[i] != '-' by {
            if i < b.len() {
                assert(s[i] == b[i]);
                if i > 0 {
                    assert(s[i - 1] == b[i - 1]);
                }
            } else if i == b.len() {
                assert(s[i] == x[0]);
            } else {
                assert(s[i - 1] == x[i - 1 - b.len()]);
            }
        }
        if x.len() > 0 {
            assert(s.last() == x.last());
        } else {
            assert(s =~= b);
        }
    }
}

/// With no line selected there is nothing to stage.
pub proof fn lemma_nothing_selected(hunk: Seq<char>)
    ensures
        subset_of(hunk, seq![]) is None,
{
    let ls = lines_of(hunk);
    if ls.len() > 0 {
        crate::text::lemma_lines_no_newline(hunk);
        let body = ls.drop_first();
        assert forall|k: int| 0 <= k < body.len() implies !(#[trigger] body[k]).contains('\n') by {
            assert(body[k] == ls[k + 1]);
        }
        lemma_body_unselected(body);
        lemma_no_change_line(body_out(body, seq![]).0);
    }
}

// ---------------------------------------------------------------------
// Selecting every line
// ---------------------------------------------------------------------
/// The lines one after the other, each with its end of line.
pub open spec fn body_text(lines: Seq<Seq<char>>) -> Seq<char>
    decreases lines.len(),
{
    if lines.len() == 0 {
        seq![]
    } else {
        body_text(lines.drop_last()) + lines.last().push('\n')
    }
}

/// The lines that the old side of a hunk holds: those that do not add
/// and are no note.
pub open spec fn old_side(lines: Seq<Seq<char>>) -> nat
    decreases lines.len(),
{
    if lines.len() == 0 {
        0
    } else {
        old_side(lines.drop_last()) + if lines.last().len() > 0 && (lines.last()[0] == '+'
            || lines.last()[0] == '\\') {
            0nat
        } else {
            1nat
        }
    }
}

/// The lines that the new side of a hunk holds: those that do not remove
/// and are no note.
pub open spec fn new_side(lines: Seq<Seq<char>>) -> nat
    decreases lines.len(),
{
    if lines.len() == 0 {
        0
    } else {
        new_side(lines.drop_last()) + if lines.last().len() > 0 && (lines.last()[0] == '-'
            || lines.last()[0] == '\\') {
            0nat
        } else {
            1nat
        }
    }
}

/// With every line selected, the body comes out as it went in, and the
/// counts are those of its two sides.
proof fn lemma_body_all(lines: Seq<Seq<char>>, selected: Seq<usize>)
    requires
        lines.len() <= usize::MAX,
        forall|i: usize| i < lines.len() ==> #[trigger] selected.contains(i),
    ensures
        body_out(lines, selected) == (body_text(lines), old_side(lines), new_side(lines)),
    decreases lines.len(),
{
    if lines.len() > 0 {
        lemma_body_all(lines.drop_last(), selected);
        assert(selected.contains((lines.len() - 1) as usize));
    }
}

/// Every position of a body of `n` lines.
pub open spec fn every_line(n: nat) -> Seq<usize> {
    Seq::new(n, |i: int| i as usize)
}

/// Selecting every body line keeps the hunk: its body comes back as it
/// was, line by line, under a header whose counts are those of the body.
pub proof fn lemma_all_selected(hunk: Seq<char>)
    requires
        lines_of(hunk).len() <= usize::MAX,
    ensures
        lines_of(hunk).len() > 0 ==> match header_nums(lines_of(hunk)[0]) {
            Some((a, c)) => has_change(body_text(lines_of(hunk).drop_first())) ==> subset_of(
                hunk,
                every_line(lines_of(hunk).drop_first().len()),
            ) == Some(
                header_line(
                    a as nat,
                    old_side(lines_of(hunk).drop_first()),
                    c as nat,
                    new_side(lines_of(hunk).drop_first()),
                ) + body_text(lines_of(hunk).drop_first()),
            ),
            None => subset_of(hunk, every_line(lines_of(hunk).drop_first().len())) is None,
        },
{
    let ls = lines_of(hunk);
    if ls.len() > 0 {
        let body = ls.drop_first();
        let sel = every_line(body.len());
        assert forall|i: usize| i < body.len() implies #[trigger] sel.contains(i) by {
            assert(sel[i as int] == i);
        }
        lemma_body_all(body, sel);
    }
}

/// No white space and no `@` in the text.
pub open spec fn tight(s: Seq<char>) -> bool {
    forall|i: int| 0 <= i < s.len() ==> !is_ws(#[trigger] s[i]) && s[i] != '@'
}

proof fn lemma_tight_concat(x: Seq<char>, y: Seq<char>)
    requires
        tight(x),
        tight(y),
    ensures
        tight(x + y),
{
    assert forall|i: int| 0 <= i < (x + y).len() implies !is_ws(#[trigger] (x + y)[i]) && (x
        + y)[i] != '@' by {
        if i < x.len() {
            assert((x + y)[i] == x[i]);
        } else {
            assert((x + y)[i] == y[i - x.len()]);
        }
    }
}

proof fn lemma_decimal_tight(n: nat)
    ensures
        tight(decimal(n)),
        forall|i: int| 0 <= i < decimal(n).len() ==> #[trigger] decimal(n)[i] != ',' && decimal(
            n,
        )[i] != '+',
{
    lemma_decimal(n);
    assert forall|i: int| 0 <= i < decimal(n).len() implies !is_ws(#[trigger] decimal(n)[i])
        && decimal(n)[i] != '@' && decimal(n)[i] != ',' && decimal(n)[i] != '+' by {
        assert(is_digit(decimal(n)[i]));
    }
}

/// The number before the comma of `D(x) + "," + D(y)` is `x`.
proof fn lemma_first_num_of(x: u32, y: nat)
    ensures
        first_num(decimal(x as nat) + seq![','] + decimal(y)) == Some(x),
{
    let dx = decimal(x as nat);
    let t = dx + seq![','] + decimal(y);
    lemma_decimal(x as nat);
    lemma_decimal_tight(x as nat);
    assert(t.subrange(dx.len() as int, dx.len() as int + 1) =~= seq![',']);
    assert forall|j: int| 0 <= j < dx.len() implies !occurs_at(t, seq![','], j) by {
        assert(t[j] == dx[j]);
        if occurs_at(t, seq![','], j) {
            assert(t.subrange(j, j + 1)[0] == t[j]);
        }
    }
    lemma_find_seq_is(t, seq![','], 0, dx.len() as int);
    assert(before_seq(t, seq![',']) =~= dx);
    assert(dx[0] != '+');
}

/// Two tight words with a blank between them, then ` @@`: the text before
/// the first ` @@` is the two words.
proof fn lemma_before_mark(w0: Seq<char>, w1: Seq<char>)
    requires
        tight(w0),
        tight(w1),
    ensures
        before_seq(w0 + seq![' '] + w1 + seq![' ', '@', '@'], seq![' ', '@', '@']) == w0 + seq![' ']
            + w1,
{
    let m = w0 + seq![' '] + w1;
    let q = seq![' ', '@', '@'];
    let mq = m + q;
    assert(mq.subrange(m.len() as int, m.len() as int + 3) =~= q);
    assert forall|j: int| 0 <= j < m.len() implies !occurs_at(mq, q, j) by {
        if occurs_at(mq, q, j) {
            assert(mq.subrange(j, j + 3)[1] == mq[j + 1]);
            assert(mq[j + 1] == '@');
            if j + 1 < m.len() {
                assert(mq[j + 1] == m[j + 1]);
                if j + 1 < w0.len() {
                    assert(m[j + 1] == w0[j + 1]);
                } else if j + 1 > w0.len() {
                    assert(m[j + 1] == w1[j + 1 - w0.len() - 1]);
                }
            }
        }
    }
    lemma_find_seq_is(mq, q, 0, m.len() as int);
    assert(mq.take(m.len() as int) =~= m);
}

/// Two tight words with a blank between them are those two words.
proof fn lemma_two_words(w0: Seq<char>, w1: Seq<char>)
    requires
        tight(w0),
        tight(w1),
        w0.len() > 0,
        w1.len() > 0,
    ensures
        words_of(w0 + seq![' '] + w1) == seq![w0, w1],
{
    let m = w0 + seq![' '] + w1;
    assert forall|j: int| 0 <= j < w0.len() implies !is_ws(#[trigger] m[j]) by {
        assert(m[j] == w0[j]);
    }
    assert(m[w0.len() as int] == ' ');
    assert(is_ws(' '));
    lemma_first_ws_is(m, 0, w0.len() as int);
    assert(m[0] == w0[0]);
    assert(m.take(w0.len() as int) =~= w0);
    let rest = m.skip(w0.len() as int);
    assert(rest =~= seq![' '] + w1);
    assert(rest.drop_first() =~= w1);
    assert(words_of(rest) == words_of(w1));
    lemma_first_ws_is(w1, 0, w1.len() as int);
    assert(words_of(w1) == seq![w1]);
    assert(words_of(m) == seq![w0] + words_of(rest));
    assert(seq![w0] + seq![w1] =~= seq![w0, w1]);
}

/// A header in the form this library writes reads back as its numbers.
#[verifier::spinoff_prover]
#[verifier::rlimit(40)]
proof fn lemma_header_nums(a: u32, b: nat, c: u32, d: nat)
    ensures
        header_nums(header_line(a as nat, b, c as nat, d).drop_last()) == Some((a, c)),
{
    let da = decimal(a as nat);
    let db = decimal(b);
    let dc = decimal(c as nat);
    let dd = decimal(d);
    lemma_decimal_tight(a as nat);
    lemma_decimal_tight(b);
    lemma_decimal_tight(c as nat);
    lemma_decimal_tight(d);
    let w0 = seq!['-'] + da + seq![','] + db;
    let w1 = seq!['+'] + dc + seq![','] + dd;
    assert(tight(seq!['-'])) by {
        assert(!is_ws('-'));
    }
    assert(tight(seq!['+'])) by {
        assert(!is_ws('+'));
    }
    assert(tight(seq![','])) by {
        assert(!is_ws(','));
    }
    lemma_tight_concat(seq!['-'], da);
    lemma_tight_concat(seq!['-'] + da, seq![',']);
    lemma_tight_concat(seq!['-'] + da + seq![','], db);
    lemma_tight_concat(seq!['+'], dc);
    lemma_tight_concat(seq!['+'] + dc, seq![',']);
    lemma_tight_concat(seq!['+'] + dc + seq![','], dd);
    let m = w0 + seq![' '] + w1;
    let h = header_line(a as nat, b, c as nat, d).drop_last();
    assert(h =~= seq!['@', '@', ' '] + (m + seq![' ', '@', '@']));
    assert(h.take(3) =~= seq!['@', '@', ' ']);
    assert(h.skip(3) =~= m + seq![' ', '@', '@']);
    lemma_before_mark(w0, w1);
    lemma_two_words(w0, w1);
    assert(w0[0] == '-' && w1[0] == '+');
    lemma_starts_with_one(w0, '-');
    lemma_starts_with_one(w1, '+');
    assert(w0.drop_first() =~= da + seq![','] + db);
    assert(w1.drop_first() =~= dc + seq![','] + dd);
    lemma_first_num_of(a, b);
    lemma_first_num_of(c, d);
}

/// The lines of a body text are its lines.
proof fn lemma_body_lines(lines: Seq<Seq<char>>)
    requires
        forall|k: int|
            0 <= k < lines.len() ==> !(#[trigger] lines[k]).contains('\n') && strip_cr(lines[k])
                == lines[k],
    ensures
        lines_of(body_text(lines)) == lines,
        body_text(lines).len() == 0 || body_text(lines).last() == '\n',
    decreases lines.len(),
{
    if lines.len() > 0 {
        let p = lines.drop_last();
        assert forall|k: int| 0 <= k < p.len() implies !(#[trigger] p[k]).contains('\n')
            && strip_cr(p[k]) == p[k] by {
            assert(p[k] == lines[k]);
        }
        lemma_body_lines(p);
        let l = lines.last();
        assert(!lines[lines.len() - 1].contains('\n'));
        assert(strip_cr(lines[lines.len() - 1]) == lines[lines.len() - 1]);
        lemma_lines_one(l);
        lemma_lines_concat(body_text(p), l.push('\n'));
        assert(l.push('\n') =~= l + seq!['\n']);
        assert(p + seq![l] =~= lines);
    }
}

/// The body text of two runs of lines is the text of one, then the other.
proof fn lemma_body_concat(x: Seq<Seq<char>>, y: Seq<Seq<char>>)
    ensures
        body_text(x + y) == body_text(x) + body_text(y),
    decreases y.len(),
{
    if y.len() == 0 {
        assert(x + y =~= x);
        assert(body_text(x) + body_text(y) =~= body_text(x));
    } else {
        lemma_body_concat(x, y.drop_last());
        assert((x + y).drop_last() =~= x + y.drop_last());
        assert(body_text(x) + body_text(y.drop_last()) + y.last().push('\n') =~= body_text(x) + (
        body_text(y.drop_last()) + y.last().push('\n')));
    }
}

/// A body with a line that adds or removes holds a change.
proof fn lemma_body_change(lines: Seq<Seq<char>>, k: int)
    requires
        0 <= k < lines.len(),
        lines[k].len() > 0,
        lines[k][0] == '+' || lines[k][0] == '-',
        forall|j: int|
            0 <= j < lines.len() ==> !(#[trigger] lines[j]).contains('\n') && strip_cr(lines[j])
                == lines[j],
    ensures
        has_change(body_text(lines)),
{
    let front = lines.take(k);
    let back = lines.skip(k);
    assert(front + back =~= lines);
    lemma_body_concat(front, back);
    assert(back =~= seq![lines[k]] + back.drop_first());
    lemma_body_concat(seq![lines[k]], back.drop_first());
    assert(seq![lines[k]].drop_last() =~= Seq::<Seq<char>>::empty());
    assert(body_text(Seq::<Seq<char>>::empty()) =~= Seq::<char>::empty());
    assert(body_text(seq![lines[k]]) =~= lines[k].push('\n'));
    assert forall|j: int| 0 <= j < front.len() implies !(#[trigger] front[j]).contains('\n')
        && strip_cr(front[j]) == front[j] by {
        assert(front[j] == lines[j]);
    }
    lemma_body_lines(front);
    let t = body_text(lines);
    let f = body_text(front);
    let x = lines[k][0];
    assert(t == f + (lines[k].push('\n') + body_text(back.drop_first())));
    assert(t[f.len() as int] == x);
    if f.len() == 0 {
        crate::text::lemma_starts_with_one(t, x);
    } else {
        assert(t[f.len() - 1] == '\n');
        assert(t.subrange(f.len() - 1, f.len() as int + 1) =~= seq!['\n', x]);
        assert(occurs_at(t, seq!['\n', x], f.len() - 1));
    }
}

proof fn lemma_no_newline_concat(x: Seq<char>, y: Seq<char>)
    requires
        !x.contains('\n'),
        !y.contains('\n'),
    ensures
        !(x + y).contains('\n'),
{
    if (x + y).contains('\n') {
        let i = choose|i: int| 0 <= i < (x + y).len() && (x + y)[i] == '\n';
        if i < x.len() {
            assert(x[i] == '\n');
        } else {
            assert(y[i - x.len()] == '\n');
        }
    }
}

proof fn lemma_tight_no_newline(x: Seq<char>)
    requires
        tight(x),
    ensures
        !x.contains('\n'),
{
    if x.contains('\n') {
        let i = choose|i: int| 0 <= i < x.len() && x[i] == '\n';
        assert(is_ws(x[i]));
    }
}

/// The header line this library writes holds no end of line but its last.
proof fn lemma_header_one_line(a: nat, b: nat, c: nat, d: nat)
    ensures
        !header_line(a, b, c, d).drop_last().contains('\n'),
        header_line(a, b, c, d).last() == '\n',
        header_line(a, b, c, d).drop_last().last() == '@',
{
    lemma_decimal_tight(a);
    lemma_decimal_tight(b);
    lemma_decimal_tight(c);
    lemma_decimal_tight(d);
    let h = header_line(a, b, c, d);
    let parts = seq![
        seq!['@', '@', ' ', '-'],
        decimal(a),
        seq![','],
        decimal(b),
        seq![' ', '+'],
        decimal(c),
        seq![','],
        decimal(d),
        seq![' ', '@', '@'],
    ];
    assert forall|i: int| 0 <= i < parts.len() implies !(#[trigger] parts[i]).contains('\n') by {
        if i == 1 || i == 3 || i == 5 || i == 7 {
            lemma_tight_no_newline(parts[i]);
        } else if parts[i].contains('\n') {
            let j = choose|j: int| 0 <= j < parts[i].len() && parts[i][j] == '\n';
        }
    }
    lemma_no_newline_concat(parts[0], parts[1]);
    lemma_no_newline_concat(parts[0] + parts[1], parts[2]);
    lemma_no_newline_concat(parts[0] + parts[1] + parts[2], parts[3]);
    lemma_no_newline_concat(parts[0] + parts[1] + parts[2] + parts[3], parts[4]);
    lemma_no_newline_concat(parts[0] + parts[1] + parts[2] + parts[3] + parts[4], parts[5]);
    lemma_no_newline_concat(
        parts[0] + parts[1] + parts[2] + parts[3] + parts[4] + parts[5],
        parts[6],
    );
    lemma_no_newline_concat(
        parts[0] + parts[1] + parts[2] + parts[3] + parts[4] + parts[5] + parts[6],
        parts[7],
    );
    lemma_no_newline_concat(
        parts[0] + parts[1] + parts[2] + parts[3] + parts[4] + parts[5] + parts[6] + parts[7],
        parts[8],
    );
    assert(h.drop_last() =~= parts[0] + parts[1] + parts[2] + parts[3] + parts[4] + parts[5]
        + parts[6] + parts[7] + parts[8]);
}

/// Selecting every body line of a hunk gives the hunk back unchanged, for
/// a hunk in the form this library writes: the header `@@ -a,b +c,d @@`
/// with the counts of its body, then the body lines, each with its end of
/// line and none ending with `\r`, one of them adding or removing.
pub proof fn lemma_all_selected_gives_hunk(a: u32, c: u32, lines: Seq<Seq<char>>, k: int)
    requires
        lines.len() < usize::MAX,
        forall|j: int|
            0 <= j < lines.len() ==> !(#[trigger] lines[j]).contains('\n') && strip_cr(lines[j])
                == lines[j],
        0 <= k < lines.len(),
        lines[k].len() > 0,
        lines[k][0] == '+' || lines[k][0] == '-',
    ensures
        subset_of(
            header_line(a as nat, old_side(lines), c as nat, new_side(lines)) + body_text(lines),
            every_line(lines.len()),
        ) == Some(
            header_line(a as nat, old_side(lines), c as nat, new_side(lines)) + body_text(lines),
        ),
{
    let hl = header_line(a as nat, old_side(lines), c as nat, new_side(lines));
    let hunk = hl + body_text(lines);
    lemma_header_one_line(a as nat, old_side(lines), c as nat, new_side(lines));
    lemma_lines_one(hl.drop_last());
    assert(hl.drop_last() + seq!['\n'] =~= hl);
    lemma_body_lines(lines);
    lemma_lines_concat(hl, body_text(lines));
    let ls = lines_of(hunk);
    assert(ls == seq![hl.drop_last()] + lines);
    assert(ls[0] == hl.drop_last());
    assert(ls.drop_first() =~= lines);
    lemma_header_nums(a, old_side(lines), c, new_side(lines));
    lemma_body_change(lines, k);
    lemma_all_selected(hunk);
}

} // verus!
