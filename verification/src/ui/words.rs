//! Find the words that differ between a removed line and the added line
//! that follows it. The diff pane then marks only those words, thus a
//! small change in a long line is easy to see.
use vstd::prelude::*;
use vstd::string::StringSliceAdditionalSpecFns;

use crate::text::{char_width, chars_of, lemma_encode_concat, lemma_encode_one};
use vstd::utf8::{encode_scalar, encode_utf8};

verus! {

broadcast use vstd::utf8::char_is_scalar;

/// What `char::is_alphanumeric` answers for a character: whether it is
/// Alphabetic or Numeric in the Unicode tables.
pub uninterp spec fn alnum(c: char) -> bool;

/// `char::is_alphanumeric` of std. Its answer is taken to be `alnum(c)`:
/// a function of the character alone, which the Unicode tables decide and
/// which nothing here states further.
#[verifier::external_body]
fn is_alphanumeric(c: char) -> (r: bool)
    ensures
        r == alnum(c),
{
    c.is_alphanumeric()
}

/// A character that belongs to a word: a letter, a digit, or `_`.
pub open spec fn wordy(c: char) -> bool {
    alnum(c) || c == '_'
}

/// Which characters of a text belong to a word.
pub open spec fn wordy_flags(s: Seq<char>) -> Seq<bool> {
    Seq::new(s.len(), |i: int| wordy(s[i]))
}

/// The state of the word scan after the first `n` characters: the pieces
/// so far, and the start of a word that is still open.
pub open spec fn scan(w: Seq<bool>, n: int) -> (Seq<(int, int)>, Option<int>)
    decreases n,
{
    if n <= 0 {
        (seq![], None)
    } else {
        let (out, st) = scan(w, n - 1);
        let i = n - 1;
        if w[i] {
            match st {
                None => (out, Some(i)),
                Some(s) => (out, Some(s)),
            }
        } else {
            match st {
                Some(s) => (out.push((s, i)).push((i, i + 1)), None),
                None => (out.push((i, i + 1)), None),
            }
        }
    }
}

/// The pieces of a text, as ranges of character positions: each run of
/// word characters is one piece, each other character stands alone.
pub open spec fn pieces(w: Seq<bool>) -> Seq<(int, int)> {
    let (out, st) = scan(w, w.len() as int);
    match st {
        Some(s) => out.push((s, w.len() as int)),
        None => out,
    }
}

/// The byte position of character `k` of `s`.
pub open spec fn byte_at(s: Seq<char>, k: int) -> int {
    encode_utf8(s.take(k)).len() as int
}

/// The pieces of a text as ranges of byte positions.
pub open spec fn word_spans(s: Seq<char>) -> Seq<(int, int)> {
    pieces(wordy_flags(s)).map_values(|t: (int, int)| (byte_at(s, t.0), byte_at(s, t.1)))
}


/// The byte position of each character of `v`, and of its end.
fn byte_positions(v: &Vec<char>, total: usize) -> (r: Vec<usize>)
    requires
        total == encode_utf8(v@).len(),
    ensures
        r@.len() == v@.len() + 1,
        forall|k: int| 0 <= k <= v@.len() ==> #[trigger] r@[k] == byte_at(v@, k),
{
    let mut r: Vec<usize> = Vec::new();
    let mut acc: usize = 0;
    let mut i: usize = 0;
    assert(v@.take(0) =~= Seq::<char>::empty());
    while i < v.len()
        invariant
            total == encode_utf8(v@).len(),
            0 <= i <= v@.len(),
            r@.len() == i,
            acc == byte_at(v@, i as int),
            forall|k: int| 0 <= k < i ==> #[trigger] r@[k] == byte_at(v@, k),
        decreases v@.len() - i,
    {
        r.push(acc);
        let w = char_width(v[i]);
        proof {
            assert(v@.take(i + 1) =~= v@.take(i as int) + seq![v@[i as int]]);
            lemma_encode_concat(v@.take(i as int), seq![v@[i as int]]);
            lemma_encode_one(v@[i as int]);
            assert(v@ =~= v@.take(i + 1) + v@.skip(i + 1));
            lemma_encode_concat(v@.take(i + 1), v@.skip(i + 1));
        }
        acc = acc + w;
        i += 1;
    }
    r.push(acc);
    r
}

proof fn lemma_scan_bounds(w: Seq<bool>, n: int)
    requires
        0 <= n <= w.len(),
    ensures
        forall|k: int|
            0 <= k < scan(w, n).0.len() ==> 0 <= #[trigger] scan(w, n).0[k].0 < scan(w, n).0[k].1
                <= n,
        scan(w, n).1 matches Some(s) ==> 0 <= s < n,
    decreases n,
{
    if n > 0 {
        lemma_scan_bounds(w, n - 1);
    }
}

/// The pieces of a text as ranges of character positions, given which of
/// its characters belong to a word.
fn char_pieces(w: &[bool]) -> (r: Vec<(usize, usize)>)
    ensures
        r@.len() == pieces(w@).len(),
        forall|k: int|
            #![trigger r@[k]]
            0 <= k < r@.len() ==> r@[k].0 as int == pieces(w@)[k].0 && r@[k].1 as int == pieces(
                w@,
            )[k].1,
        forall|k: int|
            #![trigger pieces(w@)[k]]
            0 <= k < pieces(w@).len() ==> 0 <= pieces(w@)[k].0 < pieces(w@)[k].1 <= w@.len(),
{
    let mut out: Vec<(usize, usize)> = Vec::new();
    let mut start: Option<usize> = None;
    let mut i: usize = 0;
    while i < w.len()
        invariant
            0 <= i <= w@.len(),
            out@.len() == scan(w@, i as int).0.len(),
            forall|k: int|
                #![trigger out@[k]]
                0 <= k < out@.len() ==> out@[k].0 as int == scan(w@, i as int).0[k].0
                    && out@[k].1 as int == scan(w@, i as int).0[k].1,
            match scan(w@, i as int).1 {
                Some(s) => start matches Some(t) && t as int == s,
                None => start is None,
            },
        decreases w@.len() - i,
    {
        proof {
            lemma_scan_bounds(w@, i as int);
        }
        if w[i] {
            if start.is_none() {
                start = Some(i);
            }
        } else {
            match start {
                Some(s) => {
                    out.push((s, i));
                    out.push((i, i + 1));
                },
                None => {
                    out.push((i, i + 1));
                },
            }
            start = None;
        }
        i += 1;
    }
    proof {
        lemma_scan_bounds(w@, i as int);
    }
    if let Some(s) = start {
        out.push((s, w.len()));
    }
    out
}

/// The pieces of a text, as ranges of byte positions, given which of its
/// characters belong to a word.
pub fn word_ranges(text: &str, wordy_at: &[bool]) -> (r: Vec<(usize, usize)>)
    requires
        wordy_at@.len() == text@.len(),
    ensures
        r@.len() == pieces(wordy_at@).len(),
        forall|k: int|
            #![trigger r@[k]]
            0 <= k < r@.len() ==> r@[k].0 == byte_at(text@, pieces(wordy_at@)[k].0) && r@[k].1
                == byte_at(text@, pieces(wordy_at@)[k].1),
{
    let v = chars_of(text);
    let bytes = text.as_bytes();
    let total = bytes.len();
    let pos = byte_positions(&v, total);
    let cp = char_pieces(wordy_at);
    let mut out: Vec<(usize, usize)> = Vec::new();
    let mut k: usize = 0;
    while k < cp.len()
        invariant
            v@ == text@,
            wordy_at@.len() == v@.len(),
            pos@.len() == v@.len() + 1,
            forall|j: int| 0 <= j <= v@.len() ==> #[trigger] pos@[j] == byte_at(v@, j),
            cp@.len() == pieces(wordy_at@).len(),
            forall|j: int|
                #![trigger cp@[j]]
                0 <= j < cp@.len() ==> cp@[j].0 as int == pieces(wordy_at@)[j].0 && cp@[j].1 as int
                    == pieces(wordy_at@)[j].1,
            forall|j: int|
                #![trigger pieces(wordy_at@)[j]]
                0 <= j < pieces(wordy_at@).len() ==> 0 <= pieces(wordy_at@)[j].0 < pieces(
                    wordy_at@,
                )[j].1 <= wordy_at@.len(),
            0 <= k <= cp@.len(),
            out@.len() == k,
            forall|j: int|
                #![trigger out@[j]]
                0 <= j < k ==> out@[j].0 == byte_at(text@, pieces(wordy_at@)[j].0) && out@[j].1
                    == byte_at(text@, pieces(wordy_at@)[j].1),
        decreases cp@.len() - k,
    {
        let (a, b) = cp[k];
        assert(pieces(wordy_at@)[k as int].1 <= wordy_at@.len());
        out.push((pos[a], pos[b]));
        k += 1;
    }
    out
}

/// Which characters of `v` belong to a word.
fn flags_of(v: &Vec<char>) -> (r: Vec<bool>)
    ensures
        r@ == wordy_flags(v@),
{
    let mut flags: Vec<bool> = Vec::new();
    let mut i: usize = 0;
    while i < v.len()
        invariant
            0 <= i <= v@.len(),
            flags@ == wordy_flags(v@).take(i as int),
        decreases v@.len() - i,
    {
        let c = v[i];
        let f = is_alphanumeric(c) || c == '_';
        flags.push(f);
        i += 1;
        assert(flags@ =~= wordy_flags(v@).take(i as int));
    }
    assert(flags@ =~= wordy_flags(v@));
    flags
}

/// Split a text into its pieces, as ranges of byte positions. A word is a
/// run of letters and digits. Every other character stands alone, thus
/// punctuation marks a boundary.
pub fn words(text: &str) -> (r: Vec<(usize, usize)>)
    ensures
        r@.len() == word_spans(text@).len(),
        forall|k: int|
            0 <= k < r@.len() ==> (#[trigger] r@[k]).0 == word_spans(text@)[k].0 && r@[k].1
                == word_spans(text@)[k].1,
{
    let v = chars_of(text);
    let flags = flags_of(&v);
    word_ranges(text, flags.as_slice())
}

// ---------------------------------------------------------------------
// The changed part of two lines
// ---------------------------------------------------------------------
/// The part of each line that changed, as a range of byte positions. The
/// text before and after that range is the same in both lines.
pub struct WordSpan {
    pub old: (usize, usize),
    pub new: (usize, usize),
}

/// The text of piece `t` of `s`.
pub open spec fn piece_text(s: Seq<char>, t: (int, int)) -> Seq<char> {
    s.subrange(t.0, t.1)
}

/// The number of pieces that match at the start of both lines, counted
/// from piece `h` on.
pub open spec fn front_count(a: Seq<char>, b: Seq<char>, h: int) -> int
    decreases pieces(wordy_flags(a)).len() - h,
{
    let pa = pieces(wordy_flags(a));
    let pb = pieces(wordy_flags(b));
    if 0 <= h < pa.len() && h < pb.len() && piece_text(a, pa[h]) == piece_text(b, pb[h]) {
        front_count(a, b, h + 1)
    } else {
        h
    }
}

/// The number of pieces that match at the end of both lines, among those
/// after the first `head`, counted from `t` on.
pub open spec fn back_count(a: Seq<char>, b: Seq<char>, head: int, t: int) -> int
    decreases pieces(wordy_flags(a)).len() - head - t,
{
    let pa = pieces(wordy_flags(a));
    let pb = pieces(wordy_flags(b));
    if 0 <= t < pa.len() - head && t < pb.len() - head && piece_text(a, pa[pa.len() - 1 - t])
        == piece_text(b, pb[pb.len() - 1 - t]) {
        back_count(a, b, head, t + 1)
    } else {
        t
    }
}

proof fn lemma_front_step(a: Seq<char>, b: Seq<char>, h: int)
    requires
        0 <= h < pieces(wordy_flags(a)).len(),
        h < pieces(wordy_flags(b)).len(),
        piece_text(a, pieces(wordy_flags(a))[h]) == piece_text(b, pieces(wordy_flags(b))[h]),
    ensures
        front_count(a, b, h) == front_count(a, b, h + 1),
{
}

proof fn lemma_back_step(a: Seq<char>, b: Seq<char>, head: int, t: int)
    requires
        0 <= t < pieces(wordy_flags(a)).len() - head,
        t < pieces(wordy_flags(b)).len() - head,
        piece_text(a, pieces(wordy_flags(a))[pieces(wordy_flags(a)).len() - 1 - t]) == piece_text(
            b,
            pieces(wordy_flags(b))[pieces(wordy_flags(b)).len() - 1 - t],
        ),
    ensures
        back_count(a, b, head, t) == back_count(a, b, head, t + 1),
{
}

/// The byte range of the middle part of `a` that is not the same, when
/// `head` pieces match at the start and `tail` at the end.
pub open spec fn middle(a: Seq<char>, head: int, tail: int) -> (int, int) {
    let pa = pieces(wordy_flags(a));
    let len = byte_at(a, a.len() as int);
    let start = if head < pa.len() {
        byte_at(a, pa[head].0)
    } else {
        len
    };
    let end = if tail == 0 {
        len
    } else {
        byte_at(a, pa[pa.len() - tail].0)
    };
    (start, if end < start {
        start
    } else {
        end
    })
}

/// The changed middle of two lines. None when the lines are equal, or when
/// they share no piece at either end.
pub open spec fn changed_of(a: Seq<char>, b: Seq<char>) -> Option<((int, int), (int, int))> {
    if a == b {
        None
    } else {
        let head = front_count(a, b, 0);
        let tail = back_count(a, b, head, 0);
        if head == 0 && tail == 0 {
            None
        } else {
            Some((middle(a, head, tail), middle(b, head, tail)))
        }
    }
}

/// Whether `a[a0..a1]` and `b[b0..b1]` hold the same characters.
fn same_range(a: &Vec<char>, a0: usize, a1: usize, b: &Vec<char>, b0: usize, b1: usize) -> (r:
    bool)
    requires
        a0 <= a1 <= a@.len(),
        b0 <= b1 <= b@.len(),
    ensures
        r == (a@.subrange(a0 as int, a1 as int) == b@.subrange(b0 as int, b1 as int)),
{
    if a1 - a0 != b1 - b0 {
        assert(a@.subrange(a0 as int, a1 as int).len() != b@.subrange(b0 as int, b1 as int).len());
        return false;
    }
    let mut i: usize = 0;
    while i < a1 - a0
        invariant
            a0 <= a1 <= a@.len(),
            b0 <= b1 <= b@.len(),
            a1 - a0 == b1 - b0,
            0 <= i <= a1 - a0,
            forall|j: int| 0 <= j < i ==> a@.subrange(a0 as int, a1 as int)[j] == #[trigger] b@.subrange(b0 as int, b1 as int)[j],
        decreases a1 - a0 - i,
    {
        if a[a0 + i] != b[b0 + i] {
            assert(a@.subrange(a0 as int, a1 as int)[i as int] != b@.subrange(
                b0 as int,
                b1 as int,
            )[i as int]);
            return false;
        }
        i += 1;
    }
    assert(a@.subrange(a0 as int, a1 as int) =~= b@.subrange(b0 as int, b1 as int));
    true
}

/// Whether two character lists are equal.
fn same_chars(a: &Vec<char>, b: &Vec<char>) -> (r: bool)
    ensures
        r == (a@ == b@),
{
    let r = same_range(a, 0, a.len(), b, 0, b.len());
    assert(a@.subrange(0, a@.len() as int) =~= a@);
    assert(b@.subrange(0, b@.len() as int) =~= b@);
    r
}

/// The byte range of the middle of a line.
fn middle_exec(
    Ghost(a): Ghost<Seq<char>>,
    pa: &Vec<(usize, usize)>,
    pos: &Vec<usize>,
    head: usize,
    tail: usize,
) -> (r: (usize, usize))
    requires
        pa@.len() == pieces(wordy_flags(a)).len(),
        forall|k: int|
            #![trigger pa@[k]]
            0 <= k < pa@.len() ==> pa@[k].0 as int == pieces(wordy_flags(a))[k].0 && pa@[k].1 as int
                == pieces(wordy_flags(a))[k].1,
        forall|k: int|
            #![trigger pieces(wordy_flags(a))[k]]
            0 <= k < pieces(wordy_flags(a)).len() ==> 0 <= pieces(wordy_flags(a))[k].0 < pieces(
                wordy_flags(a),
            )[k].1 <= a.len(),
        pos@.len() == a.len() + 1,
        forall|j: int| 0 <= j <= a.len() ==> #[trigger] pos@[j] == byte_at(a, j),
        head + tail <= pa@.len(),
    ensures
        r.0 as int == middle(a, head as int, tail as int).0,
        r.1 as int == middle(a, head as int, tail as int).1,
{
    let len = pos[pos.len() - 1];
    let start = if head < pa.len() {
        pos[pa[head].0]
    } else {
        len
    };
    let end = if tail == 0 {
        len
    } else {
        pos[pa[pa.len() - tail].0]
    };
    (start, if end < start {
        start
    } else {
        end
    })
}

/// Compare two lines. The result names the middle part of each line that
/// is not the same. None means the lines share no useful boundary, thus
/// the caller should mark the whole line.
pub fn changed_span(old: &str, new: &str) -> (r: Option<WordSpan>)
    ensures
        match changed_of(old@, new@) {
            None => r is None,
            Some((o, n)) => r matches Some(s) && s.old.0 == o.0 && s.old.1 == o.1 && s.new.0 == n.0
                && s.new.1 == n.1,
        },
        old@ == new@ ==> r is None,
        r matches Some(s) ==> {
            &&& s.old.0 <= s.old.1 <= old.spec_bytes().len()
            &&& s.new.0 <= s.new.1 <= new.spec_bytes().len()
            &&& vstd::utf8::is_char_boundary(old.spec_bytes(), s.old.0 as int)
            &&& vstd::utf8::is_char_boundary(old.spec_bytes(), s.old.1 as int)
            &&& vstd::utf8::is_char_boundary(new.spec_bytes(), s.new.0 as int)
            &&& vstd::utf8::is_char_boundary(new.spec_bytes(), s.new.1 as int)
            &&& old.spec_bytes().take(s.old.0 as int) == new.spec_bytes().take(s.new.0 as int)
            &&& old.spec_bytes().skip(s.old.1 as int) == new.spec_bytes().skip(s.new.1 as int)
        },
{
    proof {
        lemma_changed_frames(old@, new@);
    }
    let a = chars_of(old);
    let b = chars_of(new);
    if same_chars(&a, &b) {
        return None;
    }
    let fa = flags_of(&a);
    let fb = flags_of(&b);
    let pa = char_pieces(fa.as_slice());
    let pb = char_pieces(fb.as_slice());
    let pos_a = byte_positions(&a, old.as_bytes().len());
    let pos_b = byte_positions(&b, new.as_bytes().len());
    let ghost qa = pieces(wordy_flags(old@));
    let ghost qb = pieces(wordy_flags(new@));
    // Count the words that match at the start, then at the end.
    let mut head: usize = 0;
    loop
        invariant
            a@ == old@,
            b@ == new@,
            qa == pieces(wordy_flags(old@)),
            qb == pieces(wordy_flags(new@)),
            pa@.len() == qa.len(),
            pb@.len() == qb.len(),
            forall|k: int|
                #![trigger pa@[k]]
                0 <= k < pa@.len() ==> pa@[k].0 as int == qa[k].0 && pa@[k].1 as int == qa[k].1,
            forall|k: int|
                #![trigger pb@[k]]
                0 <= k < pb@.len() ==> pb@[k].0 as int == qb[k].0 && pb@[k].1 as int == qb[k].1,
            forall|k: int| #![trigger qa[k]] 0 <= k < qa.len() ==> 0 <= qa[k].0 < qa[k].1 <= a@.len(),
            forall|k: int| #![trigger qb[k]] 0 <= k < qb.len() ==> 0 <= qb[k].0 < qb[k].1 <= b@.len(),
            0 <= head <= pa@.len(),
            head <= pb@.len(),
            front_count(old@, new@, 0) == front_count(old@, new@, head as int),
        ensures
            front_count(old@, new@, 0) == head,
            head <= pa@.len(),
            head <= pb@.len(),
        decreases pa@.len() - head,
    {
        if !(head < pa.len() && head < pb.len() && same_range(
            &a,
            pa[head].0,
            pa[head].1,
            &b,
            pb[head].0,
            pb[head].1,
        )) {
            break;
        }
        proof {
            let h = head as int;
            assert(pa@[h].0 as int == qa[h].0 && pa@[h].1 as int == qa[h].1);
            assert(pb@[h].0 as int == qb[h].0 && pb@[h].1 as int == qb[h].1);
            assert(piece_text(old@, qa[h]) == piece_text(new@, qb[h]));
            lemma_front_step(old@, new@, h);
        }
        head += 1;
    }
    let mut tail: usize = 0;
    loop
        invariant
            a@ == old@,
            b@ == new@,
            qa == pieces(wordy_flags(old@)),
            qb == pieces(wordy_flags(new@)),
            pa@.len() == qa.len(),
            pb@.len() == qb.len(),
            forall|k: int|
                #![trigger pa@[k]]
                0 <= k < pa@.len() ==> pa@[k].0 as int == qa[k].0 && pa@[k].1 as int == qa[k].1,
            forall|k: int|
                #![trigger pb@[k]]
                0 <= k < pb@.len() ==> pb@[k].0 as int == qb[k].0 && pb@[k].1 as int == qb[k].1,
            forall|k: int| #![trigger qa[k]] 0 <= k < qa.len() ==> 0 <= qa[k].0 < qa[k].1 <= a@.len(),
            forall|k: int| #![trigger qb[k]] 0 <= k < qb.len() ==> 0 <= qb[k].0 < qb[k].1 <= b@.len(),
            head <= pa@.len(),
            head <= pb@.len(),
            0 <= tail <= pa@.len() - head,
            tail <= pb@.len() - head,
            back_count(old@, new@, head as int, 0) == back_count(
                old@,
                new@,
                head as int,
                tail as int,
            ),
        ensures
            back_count(old@, new@, head as int, 0) == tail,
            head + tail <= pa@.len(),
        decreases pa@.len() - head - tail,
    {
        if !(tail < pa.len() - head && tail < pb.len() - head && same_range(
            &a,
            pa[pa.len() - 1 - tail].0,
            pa[pa.len() - 1 - tail].1,
            &b,
            pb[pb.len() - 1 - tail].0,
            pb[pb.len() - 1 - tail].1,
        )) {
            break;
        }
        proof {
            let ia = pa@.len() - 1 - tail;
            let ib = pb@.len() - 1 - tail;
            assert(pa@[ia].0 as int == qa[ia].0 && pa@[ia].1 as int == qa[ia].1);
            assert(pb@[ib].0 as int == qb[ib].0 && pb@[ib].1 as int == qb[ib].1);
            assert(piece_text(old@, qa[ia]) == piece_text(new@, qb[ib]));
            lemma_back_step(old@, new@, head as int, tail as int);
        }
        tail += 1;
    }
    // Nothing matches at either end, thus the whole line changed.
    if head == 0 && tail == 0 {
        return None;
    }
    let o = middle_exec(Ghost(old@), &pa, &pos_a, head, tail);
    let n = middle_exec(Ghost(new@), &pb, &pos_b, head, tail);
    Some(WordSpan { old: o, new: n })
}

// ---------------------------------------------------------------------
// What stays the same around a change
// ---------------------------------------------------------------------
/// The pieces `ps` cover the positions `0..end` one after another, each
/// one not empty, with no gap and no overlap.
pub open spec fn tiles(ps: Seq<(int, int)>, end: int) -> bool {
    &&& ps.len() == 0 ==> end == 0
    &&& ps.len() > 0 ==> ps[0].0 == 0 && ps[ps.len() - 1].1 == end
    &&& forall|k: int| 0 <= k < ps.len() - 1 ==> #[trigger] ps[k].1 == ps[k + 1].0
    &&& forall|k: int| 0 <= k < ps.len() ==> #[trigger] ps[k].0 < ps[k].1
}

/// Where the scan has covered the text to: the start of the open word, or
/// the position it reached.
pub open spec fn scan_end(w: Seq<bool>, n: int) -> int {
    match scan(w, n).1 {
        Some(s) => s,
        None => n,
    }
}

proof fn lemma_scan_tiles(w: Seq<bool>, n: int)
    requires
        0 <= n <= w.len(),
    ensures
        tiles(scan(w, n).0, scan_end(w, n)),
    decreases n,
{
    reveal(tiles);
    if n > 0 {
        lemma_scan_tiles(w, n - 1);
        lemma_scan_bounds(w, n - 1);
        let out = scan(w, n - 1).0;
        let st = scan(w, n - 1).1;
        let i = n - 1;
        if !w[i] {
            match st {
                Some(s) => {
                    let a = out.push((s, i));
                    let b = a.push((i, i + 1));
                    assert(scan(w, n).0 == b);
                    assert(tiles(a, i));
                    assert(tiles(b, i + 1));
                },
                None => {
                    let b = out.push((i, i + 1));
                    assert(scan(w, n).0 == b);
                    assert(tiles(b, i + 1));
                },
            }
        }
    }
}

/// The pieces of a text cover it.
pub proof fn lemma_pieces_tile(w: Seq<bool>)
    ensures
        tiles(pieces(w), w.len() as int),
{
    reveal(tiles);
    let n = w.len() as int;
    lemma_scan_tiles(w, n);
    lemma_scan_bounds(w, n);
    let out = scan(w, n).0;
    if let Some(s) = scan(w, n).1 {
        assert(pieces(w) == out.push((s, n)));
        assert(tiles(out.push((s, n)), n));
    }
}

/// Later pieces start and end later.
proof fn lemma_tiles_order(ps: Seq<(int, int)>, end: int, i: int, j: int)
    requires
        tiles(ps, end),
        0 <= i <= j < ps.len(),
    ensures
        ps[i].0 <= ps[j].0,
        ps[i].1 <= ps[j].1,
    decreases j - i,
{
    reveal(tiles);
    if i < j {
        lemma_tiles_order(ps, end, i, j - 1);
        assert(ps[j - 1].1 == ps[j].0);
    }
}

proof fn lemma_tiles_bounds(ps: Seq<(int, int)>, end: int, k: int)
    requires
        tiles(ps, end),
        0 <= k < ps.len(),
    ensures
        0 <= ps[k].0 < ps[k].1 <= end,
{
    reveal(tiles);
    lemma_tiles_order(ps, end, 0, k);
    lemma_tiles_order(ps, end, k, ps.len() - 1);
}

/// Where the piece after piece `k` starts is where piece `k` ends.
proof fn lemma_tile_next(ps: Seq<(int, int)>, end: int, k: int)
    requires
        tiles(ps, end),
        0 <= k < ps.len(),
    ensures
        0 <= ps[k].0 < ps[k].1 <= end,
        start_at(ps, end, k + 1) == ps[k].1,
        k == ps.len() - 1 ==> ps[k].1 == end,
        k < ps.len() - 1 ==> ps[k].1 == ps[k + 1].0,
{
    reveal(tiles);
    lemma_tiles_bounds(ps, end, k);
}

/// The first piece starts at the start; with no piece the text is empty.
proof fn lemma_tile_first(ps: Seq<(int, int)>, end: int)
    requires
        tiles(ps, end),
    ensures
        start_at(ps, end, 0) == 0,
        end >= 0,
{
    reveal(tiles);
    if ps.len() > 0 {
        lemma_tiles_bounds(ps, end, 0);
    }
}

/// Where piece `h` starts; the end of the text when there is none.
pub open spec fn start_at(ps: Seq<(int, int)>, end: int, h: int) -> int {
    if h < ps.len() {
        ps[h].0
    } else {
        end
    }
}

/// Where the last `t` pieces start; the end of the text for none.
pub open spec fn end_at(ps: Seq<(int, int)>, end: int, t: int) -> int {
    if t == 0 {
        end
    } else {
        ps[ps.len() - t].0
    }
}

proof fn lemma_front_count(a: Seq<char>, b: Seq<char>, h: int)
    requires
        0 <= h,
    ensures
        h <= front_count(a, b, h),
        front_count(a, b, h) > h ==> front_count(a, b, h) <= pieces(wordy_flags(a)).len()
            && front_count(a, b, h) <= pieces(wordy_flags(b)).len(),
        forall|k: int|
            h <= k < front_count(a, b, h) ==> piece_text(a, pieces(wordy_flags(a))[k]) == piece_text(
                b,
                #[trigger] pieces(wordy_flags(b))[k],
            ),
    decreases pieces(wordy_flags(a)).len() - h,
{
    let pa = pieces(wordy_flags(a));
    let pb = pieces(wordy_flags(b));
    if 0 <= h < pa.len() && h < pb.len() && piece_text(a, pa[h]) == piece_text(b, pb[h]) {
        lemma_front_count(a, b, h + 1);
    }
}

proof fn lemma_back_count(a: Seq<char>, b: Seq<char>, head: int, t: int)
    requires
        0 <= t,
    ensures
        t <= back_count(a, b, head, t),
        back_count(a, b, head, t) > t ==> back_count(a, b, head, t) <= pieces(wordy_flags(a)).len()
            - head && back_count(a, b, head, t) <= pieces(wordy_flags(b)).len() - head,
        forall|k: int|
            t <= k < back_count(a, b, head, t) ==> piece_text(
                a,
                pieces(wordy_flags(a))[pieces(wordy_flags(a)).len() - 1 - k],
            ) == piece_text(
                b,
                #[trigger] pieces(wordy_flags(b))[pieces(wordy_flags(b)).len() - 1 - k],
            ),
    decreases pieces(wordy_flags(a)).len() - head - t,
{
    let pa = pieces(wordy_flags(a));
    let pb = pieces(wordy_flags(b));
    if 0 <= t < pa.len() - head && t < pb.len() - head && piece_text(a, pa[pa.len() - 1 - t])
        == piece_text(b, pb[pb.len() - 1 - t]) {
        lemma_back_count(a, b, head, t + 1);
    }
}

/// The text before the first `h` pieces is the same in both texts when
/// those pieces are.
proof fn lemma_same_front(
    a: Seq<char>,
    b: Seq<char>,
    pa: Seq<(int, int)>,
    pb: Seq<(int, int)>,
    h: int,
)
    requires
        tiles(pa, a.len() as int),
        tiles(pb, b.len() as int),
        0 <= h <= pa.len(),
        h <= pb.len(),
        forall|k: int| 0 <= k < h ==> piece_text(a, pa[k]) == piece_text(b, #[trigger] pb[k]),
    ensures
        a.take(start_at(pa, a.len() as int, h)) == b.take(start_at(pb, b.len() as int, h)),
    decreases h,
{
    if h == 0 {
        lemma_tile_first(pa, a.len() as int);
        lemma_tile_first(pb, b.len() as int);
        assert(a.take(0) =~= Seq::<char>::empty());
        assert(b.take(0) =~= Seq::<char>::empty());
    } else {
        let k = h - 1;
        lemma_same_front(a, b, pa, pb, k);
        assert(piece_text(a, pa[k]) == piece_text(b, pb[k]));
        lemma_tile_next(pa, a.len() as int, k);
        lemma_tile_next(pb, b.len() as int, k);
        assert(a.take(pa[k].1) =~= a.take(pa[k].0) + a.subrange(pa[k].0, pa[k].1));
        assert(b.take(pb[k].1) =~= b.take(pb[k].0) + b.subrange(pb[k].0, pb[k].1));
    }
}

/// The text after the last `t` pieces is the same in both texts when
/// those pieces are.
proof fn lemma_same_back(
    a: Seq<char>,
    b: Seq<char>,
    pa: Seq<(int, int)>,
    pb: Seq<(int, int)>,
    t: int,
)
    requires
        tiles(pa, a.len() as int),
        tiles(pb, b.len() as int),
        0 <= t <= pa.len(),
        t <= pb.len(),
        forall|k: int|
            0 <= k < t ==> piece_text(a, pa[pa.len() - 1 - k]) == piece_text(
                b,
                #[trigger] pb[pb.len() - 1 - k],
            ),
    ensures
        a.skip(end_at(pa, a.len() as int, t)) == b.skip(end_at(pb, b.len() as int, t)),
    decreases t,
{
    if t == 0 {
        assert(a.skip(a.len() as int) =~= Seq::<char>::empty());
        assert(b.skip(b.len() as int) =~= Seq::<char>::empty());
    } else {
        let k = t - 1;
        lemma_same_back(a, b, pa, pb, k);
        let ia = pa.len() - 1 - k;
        let ib = pb.len() - 1 - k;
        assert(piece_text(a, pa[ia]) == piece_text(b, pb[ib]));
        lemma_tile_next(pa, a.len() as int, ia);
        lemma_tile_next(pb, b.len() as int, ib);
        assert(end_at(pa, a.len() as int, k) == pa[ia].1);
        assert(end_at(pb, b.len() as int, k) == pb[ib].1);
        assert(a.skip(pa[ia].0) =~= a.subrange(pa[ia].0, pa[ia].1) + a.skip(pa[ia].1));
        assert(b.skip(pb[ib].0) =~= b.subrange(pb[ib].0, pb[ib].1) + b.skip(pb[ib].1));
    }
}

/// The bytes of a text split where a character position splits it.
proof fn lemma_bytes_split(s: Seq<char>, k: int)
    requires
        0 <= k <= s.len(),
    ensures
        encode_utf8(s).take(byte_at(s, k)) == encode_utf8(s.take(k)),
        encode_utf8(s).skip(byte_at(s, k)) == encode_utf8(s.skip(k)),
{
    assert(s =~= s.take(k) + s.skip(k));
    lemma_encode_concat(s.take(k), s.skip(k));
    let e = encode_utf8(s.take(k)) + encode_utf8(s.skip(k));
    assert(e.take(encode_utf8(s.take(k)).len() as int) =~= encode_utf8(s.take(k)));
    assert(e.skip(encode_utf8(s.take(k)).len() as int) =~= encode_utf8(s.skip(k)));
}

/// A later character position is a later byte position.
proof fn lemma_byte_order(s: Seq<char>, i: int, j: int)
    requires
        0 <= i <= j <= s.len(),
    ensures
        byte_at(s, i) <= byte_at(s, j),
{
    assert(s.take(j) =~= s.take(i) + s.subrange(i, j));
    lemma_encode_concat(s.take(i), s.subrange(i, j));
}

/// The middle range of a line, in characters, before it becomes bytes.
proof fn lemma_middle_chars(a: Seq<char>, head: int, tail: int)
    requires
        0 <= head,
        0 <= tail,
        tail > 0 ==> tail <= pieces(wordy_flags(a)).len() - head,
        head > 0 ==> head <= pieces(wordy_flags(a)).len(),
    ensures
        0 <= start_at(pieces(wordy_flags(a)), a.len() as int, head) <= end_at(
            pieces(wordy_flags(a)),
            a.len() as int,
            tail,
        ) <= a.len(),
        middle(a, head, tail) == (
            byte_at(a, start_at(pieces(wordy_flags(a)), a.len() as int, head)),
            byte_at(a, end_at(pieces(wordy_flags(a)), a.len() as int, tail)),
        ),
{
    let pa = pieces(wordy_flags(a));
    let n = a.len() as int;
    lemma_pieces_tile(wordy_flags(a));
    let s = start_at(pa, n, head);
    let e = end_at(pa, n, tail);
    if head < pa.len() {
        lemma_tiles_bounds(pa, n, head);
    }
    if tail > 0 {
        lemma_tiles_bounds(pa, n, pa.len() - tail);
        lemma_tiles_order(pa, n, head, pa.len() - tail);
    }
    lemma_byte_order(a, s, e);
}

/// The byte position of a character position is a character boundary.
proof fn lemma_byte_at_boundary(s: Seq<char>, k: int)
    requires
        0 <= k <= s.len(),
    ensures
        vstd::utf8::is_char_boundary(encode_utf8(s), byte_at(s, k)),
    decreases k,
{
    vstd::utf8::encode_utf8_valid_utf8(s);
    if k > 0 {
        let t = s.drop_first();
        lemma_byte_at_boundary(t, k - 1);
        vstd::utf8::encode_utf8_first_scalar(s);
        let bytes = encode_utf8(s);
        assert(vstd::utf8::pop_first_scalar(bytes) =~= encode_utf8(t));
        assert(s.take(k) =~= seq![s[0]] + t.take(k - 1));
        lemma_encode_concat(seq![s[0]], t.take(k - 1));
        lemma_encode_one(s[0]);
        assert(s =~= seq![s[0]] + t);
        lemma_encode_concat(seq![s[0]], t);
        lemma_byte_order(t, k - 1, t.len() as int);
        assert(t.take(t.len() as int) =~= t);
        assert(byte_at(s, k) == vstd::utf8::length_of_first_scalar(bytes) + byte_at(t, k - 1));
    }
}

/// Both ends of the middle range of a line are character boundaries.
proof fn lemma_middle_boundaries(a: Seq<char>, head: int, tail: int)
    requires
        0 <= head,
        0 <= tail,
        tail > 0 ==> tail <= pieces(wordy_flags(a)).len() - head,
        head > 0 ==> head <= pieces(wordy_flags(a)).len(),
    ensures
        vstd::utf8::is_char_boundary(encode_utf8(a), middle(a, head, tail).0),
        vstd::utf8::is_char_boundary(encode_utf8(a), middle(a, head, tail).1),
{
    lemma_middle_chars(a, head, tail);
    let pa = pieces(wordy_flags(a));
    lemma_byte_at_boundary(a, start_at(pa, a.len() as int, head));
    lemma_byte_at_boundary(a, end_at(pa, a.len() as int, tail));
}

/// The text before and after the changed part is the same in both lines:
/// what `changed_of` marks, in bytes, is framed by equal bytes.
#[verifier::spinoff_prover]
pub proof fn lemma_changed_frames(a: Seq<char>, b: Seq<char>)
    ensures
        changed_of(a, b) matches Some((o, n)) ==> {
            &&& 0 <= o.0 <= o.1 <= encode_utf8(a).len()
            &&& 0 <= n.0 <= n.1 <= encode_utf8(b).len()
            &&& encode_utf8(a).take(o.0) == encode_utf8(b).take(n.0)
            &&& encode_utf8(a).skip(o.1) == encode_utf8(b).skip(n.1)
            &&& vstd::utf8::is_char_boundary(encode_utf8(a), o.0)
            &&& vstd::utf8::is_char_boundary(encode_utf8(a), o.1)
            &&& vstd::utf8::is_char_boundary(encode_utf8(b), n.0)
            &&& vstd::utf8::is_char_boundary(encode_utf8(b), n.1)
        },
        a == b ==> changed_of(a, b) is None,
{
    if a != b {
        let head = front_count(a, b, 0);
        let tail = back_count(a, b, head, 0);
        if head != 0 || tail != 0 {
            let pa = pieces(wordy_flags(a));
            let pb = pieces(wordy_flags(b));
            lemma_front_count(a, b, 0);
            lemma_back_count(a, b, head, 0);
            lemma_middle_chars(a, head, tail);
            lemma_middle_chars(b, head, tail);
            let sa = start_at(pa, a.len() as int, head);
            let sb = start_at(pb, b.len() as int, head);
            let ea = end_at(pa, a.len() as int, tail);
            let eb = end_at(pb, b.len() as int, tail);
            lemma_pieces_tile(wordy_flags(a));
            lemma_pieces_tile(wordy_flags(b));
            lemma_same_front(a, b, pa, pb, head);
            lemma_same_back(a, b, pa, pb, tail);
            lemma_bytes_split(a, sa);
            lemma_bytes_split(b, sb);
            lemma_bytes_split(a, ea);
            lemma_bytes_split(b, eb);
            lemma_byte_order(a, ea, a.len() as int);
            lemma_byte_order(b, eb, b.len() as int);
            lemma_middle_boundaries(a, head, tail);
            lemma_middle_boundaries(b, head, tail);
            assert(a.take(a.len() as int) =~= a);
            assert(b.take(b.len() as int) =~= b);
        }
    }
}

} // verus!
