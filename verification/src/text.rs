//! Text as a sequence of characters: lines, white space, numbers.
//!
//! Every text function of the library works on `Seq<char>`, the view of a
//! `str` or a `String`. The spec functions here say what std's `lines`,
//! `trim`, `split_whitespace` and the parse of an unsigned number give.
use vstd::prelude::*;

verus! {

broadcast use vstd::string::group_string_axioms;

/// The characters that `char::is_whitespace` accepts: the Unicode
/// White_Space property.
pub open spec fn is_ws(c: char) -> bool {
    let u = c as u32;
    ||| 9 <= u <= 13
    ||| u == 32
    ||| u == 0x85
    ||| u == 0xA0
    ||| u == 0x1680
    ||| 0x2000 <= u <= 0x200A
    ||| u == 0x2028
    ||| u == 0x2029
    ||| u == 0x202F
    ||| u == 0x205F
    ||| u == 0x3000
}

/// `char::is_whitespace`.
pub fn is_whitespace(c: char) -> (r: bool)
    ensures
        r == is_ws(c),
{
    let u = c as u32;
    (9 <= u && u <= 13) || u == 32 || u == 0x85 || u == 0xA0 || u == 0x1680 || (0x2000 <= u
        && u <= 0x200A) || u == 0x2028 || u == 0x2029 || u == 0x202F || u == 0x205F || u
        == 0x3000
}

/// The characters of a string.
pub fn chars_of(s: &str) -> (v: Vec<char>)
    ensures
        v@ == s@,
{
    let mut v: Vec<char> = Vec::new();
    for c in it: s.chars()
        invariant
            it.seq() == s@,
            v@ == it.seq().take(it.index() as int),
    {
        v.push(c);
    }
    assert(v@ =~= s@);
    v
}

/// `String::push`: the string gets one more character at its end.
#[verifier::external_body]
pub(crate) fn push_char(s: &mut String, c: char)
    ensures
        final(s)@ == old(s)@.push(c),
{
    s.push(c);
}

/// Append the characters `v[lo..hi]` to a string.
pub fn push_range(s: &mut String, v: &[char], lo: usize, hi: usize)
    requires
        lo <= hi <= v@.len(),
    ensures
        final(s)@ == old(s)@ + v@.subrange(lo as int, hi as int),
{
    let mut i = lo;
    while i < hi
        invariant
            lo <= i <= hi <= v@.len(),
            s@ == old(s)@ + v@.subrange(lo as int, i as int),
        decreases hi - i,
    {
        push_char(s, v[i]);
        i += 1;
        assert(v@.subrange(lo as int, i as int) =~= v@.subrange(lo as int, i - 1).push(
            v@[i - 1],
        ));
    }
}

/// A string that holds the characters `v[lo..hi]`.
pub fn string_of(v: &[char], lo: usize, hi: usize) -> (s: String)
    requires
        lo <= hi <= v@.len(),
    ensures
        s@ == v@.subrange(lo as int, hi as int),
{
    let mut s = String::new();
    push_range(&mut s, v, lo, hi);
    s
}

/// Append a whole `str` to a string.
pub fn push_str(s: &mut String, t: &str)
    ensures
        final(s)@ == old(s)@ + t@,
{
    let v = chars_of(t);
    push_range(s, v.as_slice(), 0, v.len());
    assert(v@.subrange(0, v@.len() as int) =~= t@);
}

/// A string that holds the characters of a `str`.
pub fn string_from(t: &str) -> (s: String)
    ensures
        s@ == t@,
{
    let mut s = String::new();
    push_str(&mut s, t);
    assert(s@ =~= t@);
    s
}

/// `s` begins with `p`.
pub open spec fn starts_with(s: Seq<char>, p: Seq<char>) -> bool {
    p.len() <= s.len() && s.take(p.len() as int) == p
}

pub proof fn lemma_starts_with_one(s: Seq<char>, c: char)
    requires
        s.len() > 0,
    ensures
        starts_with(s, seq![c]) <==> s[0] == c,
{
    assert(s.take(1) =~= seq![s[0]]);
    if starts_with(s, seq![c]) {
        assert(s.take(1)[0] == seq![c][0]);
    }
}

/// `p` occurs in `s` at position `i`.
pub open spec fn occurs_at(s: Seq<char>, p: Seq<char>, i: int) -> bool {
    0 <= i && i + p.len() <= s.len() && s.subrange(i, i + p.len()) == p
}

/// `p` occurs somewhere in `s`.
pub open spec fn contains_seq(s: Seq<char>, p: Seq<char>) -> bool {
    exists|i: int| occurs_at(s, p, i)
}

/// Whether `v[at..]` begins with `p`.
pub fn matches_at(v: &[char], at: usize, p: &[char]) -> (r: bool)
    ensures
        r == occurs_at(v@, p@, at as int),
{
    if at > v.len() || p.len() > v.len() - at {
        return false;
    }
    let end = at + p.len();
    let mut k: usize = 0;
    while k < p.len()
        invariant
            end == at + p@.len(),
            end <= v@.len(),
            0 <= k <= p@.len(),
            forall|j: int| 0 <= j < k ==> v@[at + j] == p@[j],
        decreases p@.len() - k,
    {
        if v[at + k] != p[k] {
            assert(v@.subrange(at as int, at + p@.len())[k as int] != p@[k as int]);
            return false;
        }
        k += 1;
    }
    assert(v@.subrange(at as int, at + p@.len()) =~= p@);
    true
}

/// Whether `v` begins with `p`.
pub fn starts_with_at(v: &[char], p: &[char]) -> (r: bool)
    ensures
        r == starts_with(v@, p@),
{
    let r = matches_at(v, 0, p);
    proof {
        if p@.len() <= v@.len() {
            assert(v@.subrange(0, p@.len() as int) =~= v@.take(p@.len() as int));
        }
    }
    r
}

/// Whether `v` contains `p` somewhere.
pub fn contains_at(v: &[char], p: &[char]) -> (r: bool)
    ensures
        r == contains_seq(v@, p@),
{
    if p.len() > v.len() {
        assert forall|j: int| !occurs_at(v@, p@, j) by {}
        return false;
    }
    let last = v.len() - p.len();
    let mut i: usize = 0;
    while i < last
        invariant
            last == v@.len() - p@.len(),
            0 <= i <= last,
            forall|j: int| 0 <= j < i ==> !occurs_at(v@, p@, j),
        decreases last - i,
    {
        if matches_at(v, i, p) {
            return true;
        }
        i += 1;
    }
    if matches_at(v, last, p) {
        return true;
    }
    assert forall|j: int| !occurs_at(v@, p@, j) by {
        if 0 <= j < last {
        }
    }
    false
}

/// The first occurrence of `p` in `s` at or after `from`.
pub open spec fn find_seq(s: Seq<char>, p: Seq<char>, from: int) -> Option<int>
    decreases s.len() + 1 - from,
{
    if from < 0 || from + p.len() > s.len() {
        None
    } else if occurs_at(s, p, from) {
        Some(from)
    } else {
        find_seq(s, p, from + 1)
    }
}

/// The text before the first `p` in `s`, or all of `s` (the first piece
/// that `str::split` gives).
pub open spec fn before_seq(s: Seq<char>, p: Seq<char>) -> Seq<char> {
    match find_seq(s, p, 0) {
        Some(i) => s.take(i),
        None => s,
    }
}

pub proof fn lemma_find_seq_bounds(s: Seq<char>, p: Seq<char>, from: int)
    requires
        0 <= from,
    ensures
        find_seq(s, p, from) matches Some(i) ==> from <= i && occurs_at(s, p, i) && forall|j: int|
            from <= j < i ==> !occurs_at(s, p, j),
    decreases s.len() + 1 - from,
{
    if from + p.len() <= s.len() && !occurs_at(s, p, from) {
        lemma_find_seq_bounds(s, p, from + 1);
    }
}

pub proof fn lemma_find_seq_is(s: Seq<char>, p: Seq<char>, from: int, i: int)
    requires
        0 <= from <= i,
        occurs_at(s, p, i),
        forall|j: int| from <= j < i ==> !occurs_at(s, p, j),
    ensures
        find_seq(s, p, from) == Some(i),
    decreases i - from,
{
    if from < i {
        lemma_find_seq_is(s, p, from + 1, i);
    }
}

pub proof fn lemma_find_seq_none(s: Seq<char>, p: Seq<char>, from: int)
    requires
        0 <= from,
        forall|j: int| from <= j ==> !occurs_at(s, p, j),
    ensures
        find_seq(s, p, from) is None,
    decreases s.len() + 1 - from,
{
    if from + p.len() <= s.len() {
        lemma_find_seq_none(s, p, from + 1);
    }
}

/// The first occurrence of `p` in `v` at or after `from`.
pub fn find_from(v: &[char], from: usize, p: &[char]) -> (r: Option<usize>)
    requires
        from <= v@.len(),
    ensures
        match r {
            Some(i) => from <= i && occurs_at(v@, p@, i as int) && forall|j: int|
                from <= j < i ==> !occurs_at(v@, p@, j),
            None => forall|j: int| from <= j ==> !occurs_at(v@, p@, j),
        },
{
    if p.len() > v.len() - from {
        return None;
    }
    let last = v.len() - p.len();
    let mut i = from;
    while i < last
        invariant
            from <= i <= last,
            last == v@.len() - p@.len(),
            forall|j: int| from <= j < i ==> !occurs_at(v@, p@, j),
        decreases last - i,
    {
        if matches_at(v, i, p) {
            return Some(i);
        }
        i += 1;
    }
    if matches_at(v, last, p) {
        return Some(last);
    }
    None
}

/// The first occurrence of `p` in `v[lo..hi]`, as a position in `v`.
pub fn find_within(v: &[char], lo: usize, hi: usize, p: &[char]) -> (r: Option<usize>)
    requires
        lo <= hi <= v@.len(),
    ensures
        match r {
            Some(j) => lo <= j && j + p@.len() <= hi && find_seq(
                v@.subrange(lo as int, hi as int),
                p@,
                0,
            ) == Some(j - lo),
            None => find_seq(v@.subrange(lo as int, hi as int), p@, 0) is None,
        },
{
    let ghost s = v@.subrange(lo as int, hi as int);
    if p.len() > hi - lo {
        proof {
            lemma_find_seq_none(s, p@, 0);
        }
        return None;
    }
    let last = hi - p.len();
    let mut i = lo;
    while i <= last
        invariant
            lo <= i,
            i <= last || i == last + 1,
            last + p@.len() == hi,
            hi <= v@.len(),
            s == v@.subrange(lo as int, hi as int),
            forall|j: int| 0 <= j < i - lo ==> !occurs_at(s, p@, j),
        decreases last + 1 - i,
    {
        if matches_at(v, i, p) {
            proof {
                assert(s.subrange(i - lo, i - lo + p@.len()) =~= v@.subrange(
                    i as int,
                    i + p@.len(),
                ));
                lemma_find_seq_is(s, p@, 0, i - lo);
            }
            return Some(i);
        }
        proof {
            assert(s.subrange(i - lo, i - lo + p@.len()) =~= v@.subrange(i as int, i + p@.len()));
        }
        if i == last {
            proof {
                lemma_find_seq_none(s, p@, 0);
            }
            return None;
        }
        i += 1;
    }
    proof {
        lemma_find_seq_none(s, p@, 0);
    }
    None
}

// ---------------------------------------------------------------------
// Lines
// ---------------------------------------------------------------------
/// The position of the first `c` in `s` at or after `from`, if any.
pub open spec fn find_char(s: Seq<char>, c: char, from: int) -> Option<int>
    decreases s.len() - from,
{
    if from < 0 || from >= s.len() {
        None
    } else if s[from] == c {
        Some(from)
    } else {
        find_char(s, c, from + 1)
    }
}

/// A line without its `\r` end.
pub open spec fn strip_cr(l: Seq<char>) -> Seq<char> {
    if l.len() > 0 && l.last() == '\r' {
        l.drop_last()
    } else {
        l
    }
}

/// The lines of a text, as `str::lines` gives them: split at each `\n`,
/// a `\r` before the `\n` goes too, and a last `\n` makes no empty line.
pub open spec fn lines_of(s: Seq<char>) -> Seq<Seq<char>>
    decreases s.len(),
{
    if s.len() == 0 {
        seq![]
    } else {
        match find_char(s, '\n', 0) {
            None => seq![s],
            Some(i) => {
                proof {
                    lemma_find_char_bounds(s, '\n', 0);
                }
                seq![strip_cr(s.take(i))] + lines_of(s.skip(i + 1))
            },
        }
    }
}

pub proof fn lemma_find_char_bounds(s: Seq<char>, c: char, from: int)
    requires
        0 <= from,
    ensures
        match find_char(s, c, from) {
            Some(i) => from <= i < s.len() && s[i] == c && 0 <= from && forall|j: int|
                from <= j < i ==> s[j] != c,
            None => forall|j: int| from <= j < s.len() ==> s[j] != c,
        },
    decreases s.len() - from,
{
    if from < 0 || from >= s.len() {
    } else if s[from] == c {
    } else {
        lemma_find_char_bounds(s, c, from + 1);
    }
}

/// `find_char` from `from` equals a first match, whenever one is given.
pub proof fn lemma_find_char_is(s: Seq<char>, c: char, from: int, i: int)
    requires
        0 <= from <= i < s.len(),
        s[i] == c,
        forall|j: int| from <= j < i ==> s[j] != c,
    ensures
        find_char(s, c, from) == Some(i),
    decreases i - from,
{
    if from < i {
        lemma_find_char_is(s, c, from + 1, i);
    }
}

pub proof fn lemma_find_char_none(s: Seq<char>, c: char, from: int)
    requires
        0 <= from,
        forall|j: int| from <= j < s.len() ==> s[j] != c,
    ensures
        find_char(s, c, from) is None,
    decreases s.len() - from,
{
    if from < s.len() {
        lemma_find_char_none(s, c, from + 1);
    }
}

/// The first `\n` at or after `pos`, or the length.
pub fn next_newline(v: &[char], pos: usize) -> (r: usize)
    requires
        pos <= v@.len(),
    ensures
        pos <= r <= v@.len(),
        r < v@.len() ==> v@[r as int] == '\n',
        forall|j: int| pos <= j < r ==> v@[j] != '\n',
{
    let mut i = pos;
    while i < v.len()
        invariant
            pos <= i <= v@.len(),
            forall|j: int| pos <= j < i ==> v@[j] != '\n',
        decreases v@.len() - i,
    {
        if v[i] == '\n' {
            return i;
        }
        i += 1;
    }
    i
}

/// The line that starts at `pos`: its end, without `\n` and the `\r` before
/// it, and the start of the next line.
pub fn line_at(v: &[char], pos: usize) -> (r: (usize, usize))
    requires
        pos < v@.len(),
    ensures
        pos <= r.0 <= r.1 <= v@.len(),
        r.1 > pos,
        lines_of(v@.skip(pos as int)) == seq![v@.subrange(pos as int, r.0 as int)] + lines_of(
            v@.skip(r.1 as int),
        ),
{
    let nl = next_newline(v, pos);
    let ghost s = v@.skip(pos as int);
    if nl == v.len() {
        proof {
            lemma_find_char_none(s, '\n', 0);
            assert(v@.subrange(pos as int, v@.len() as int) =~= s);
            assert(v@.skip(v@.len() as int) =~= Seq::<char>::empty());
            assert(lines_of(Seq::<char>::empty()) =~= Seq::<Seq<char>>::empty());
            assert(seq![s] + Seq::<Seq<char>>::empty() =~= seq![s]);
        }
        (nl, nl)
    } else {
        let end = if nl > pos && v[nl - 1] == '\r' {
            nl - 1
        } else {
            nl
        };
        proof {
            let i = nl - pos;
            lemma_find_char_is(s, '\n', 0, i as int);
            assert(s.skip(i + 1) =~= v@.skip(nl + 1));
            assert(strip_cr(s.take(i as int)) =~= v@.subrange(pos as int, end as int));
        }
        (end, nl + 1)
    }
}

/// The lines of a text as ranges `(start, end)` of its characters.
pub fn line_ranges(v: &[char]) -> (r: Vec<(usize, usize)>)
    ensures
        r@.len() == lines_of(v@).len(),
        forall|k: int|
            #![trigger r@[k]]
            0 <= k < r@.len() ==> r@[k].0 <= r@[k].1 && r@[k].1 <= v@.len() && v@.subrange(
                r@[k].0 as int,
                r@[k].1 as int,
            ) == lines_of(v@)[k],
{
    let mut out: Vec<(usize, usize)> = Vec::new();
    let mut pos: usize = 0;
    let ghost done: Seq<Seq<char>> = seq![];
    assert(v@.skip(0) =~= v@);
    while pos < v.len()
        invariant
            pos <= v@.len(),
            lines_of(v@) == done + lines_of(v@.skip(pos as int)),
            out@.len() == done.len(),
            forall|k: int|
                0 <= k < out@.len() ==> #[trigger] out@[k].0 <= out@[k].1 <= v@.len()
                    && v@.subrange(out@[k].0 as int, out@[k].1 as int) == done[k],
        decreases v@.len() - pos,
    {
        let (end, next) = line_at(v, pos);
        out.push((pos, end));
        proof {
            let l = v@.subrange(pos as int, end as int);
            assert(done + lines_of(v@.skip(pos as int)) =~= done.push(l) + lines_of(
                v@.skip(next as int),
            ));
            done = done.push(l);
        }
        pos = next;
    }
    proof {
        assert(v@.skip(pos as int) =~= Seq::<char>::empty());
        assert(done + Seq::<Seq<char>>::empty() =~= done);
        assert(lines_of(v@) == done);
        assert forall|k: int| #![trigger out@[k]] 0 <= k < out@.len() implies out@[k].0 <= out@[k].1
            && out@[k].1 <= v@.len() && v@.subrange(out@[k].0 as int, out@[k].1 as int)
            == lines_of(v@)[k] by {
            assert(v@.subrange(out@[k].0 as int, out@[k].1 as int) == done[k]);
        }
    }
    out
}

// ---------------------------------------------------------------------
// Split at a character
// ---------------------------------------------------------------------
/// The pieces of `s` between the `c`s (`str::split` with a character):
/// there is always at least one piece, and empty pieces stay.
pub open spec fn split_on(s: Seq<char>, c: char) -> Seq<Seq<char>>
    decreases s.len(),
{
    match find_char(s, c, 0) {
        None => seq![s],
        Some(i) => {
            proof {
                lemma_find_char_bounds(s, c, 0);
            }
            seq![s.take(i)] + split_on(s.skip(i + 1), c)
        },
    }
}

/// There is always at least one piece.
pub proof fn lemma_split_on_len(s: Seq<char>, c: char)
    ensures
        split_on(s, c).len() >= 1,
{
}

/// The pieces of `v[lo..hi]` between the `c`s, as ranges.
pub fn split_ranges(v: &[char], lo: usize, hi: usize, c: char) -> (r: Vec<(usize, usize)>)
    requires
        lo <= hi <= v@.len(),
    ensures
        r@.len() == split_on(v@.subrange(lo as int, hi as int), c).len(),
        forall|k: int|
            #![trigger r@[k]]
            0 <= k < r@.len() ==> lo <= r@[k].0 <= r@[k].1 <= hi && v@.subrange(
                r@[k].0 as int,
                r@[k].1 as int,
            ) == split_on(v@.subrange(lo as int, hi as int), c)[k],
{
    let mut out: Vec<(usize, usize)> = Vec::new();
    let mut start = lo;
    let ghost done: Seq<Seq<char>> = seq![];
    loop
        invariant
            lo <= start <= hi <= v@.len(),
            split_on(v@.subrange(lo as int, hi as int), c) == done + split_on(
                v@.subrange(start as int, hi as int),
                c,
            ),
            out@.len() == done.len(),
            forall|k: int|
                #![trigger out@[k]]
                0 <= k < out@.len() ==> lo <= out@[k].0 <= out@[k].1 <= hi && v@.subrange(
                    out@[k].0 as int,
                    out@[k].1 as int,
                ) == done[k],
        decreases hi - start,
    {
        let ghost s = v@.subrange(start as int, hi as int);
        let mut i = start;
        while i < hi && v[i] != c
            invariant
                start <= i <= hi <= v@.len(),
                forall|j: int| start <= j < i ==> v@[j] != c,
            decreases hi - i,
        {
            i += 1;
        }
        out.push((start, i));
        if i == hi {
            proof {
                lemma_find_char_none(s, c, 0);
                assert(s == v@.subrange(start as int, i as int));
                assert(done.push(s) =~= done + seq![s]);
                done = done.push(s);
                assert(split_on(v@.subrange(lo as int, hi as int), c) =~= done);
            }
            return out;
        }
        proof {
            lemma_find_char_is(s, c, 0, i - start);
            assert(s.take(i - start) =~= v@.subrange(start as int, i as int));
            assert(s.skip(i - start + 1) =~= v@.subrange(i + 1, hi as int));
            let piece = v@.subrange(start as int, i as int);
            assert(done + (seq![piece] + split_on(v@.subrange(i + 1, hi as int), c)) =~= done.push(
                piece,
            ) + split_on(v@.subrange(i + 1, hi as int), c));
            done = done.push(piece);
        }
        start = i + 1;
    }
}

// ---------------------------------------------------------------------
// Trim and words
// ---------------------------------------------------------------------
/// `s` with white space taken from its end (`str::trim_end`).
pub open spec fn trim_end(s: Seq<char>) -> Seq<char>
    decreases s.len(),
{
    if s.len() > 0 && is_ws(s.last()) {
        trim_end(s.drop_last())
    } else {
        s
    }
}

/// `s` with white space taken from its start (`str::trim_start`).
pub open spec fn trim_start(s: Seq<char>) -> Seq<char>
    decreases s.len(),
{
    if s.len() > 0 && is_ws(s[0]) {
        trim_start(s.drop_first())
    } else {
        s
    }
}

/// `str::trim`.
pub open spec fn trim(s: Seq<char>) -> Seq<char> {
    trim_end(trim_start(s))
}

/// Every character of `s` is white space.
pub open spec fn all_ws(s: Seq<char>) -> bool {
    forall|i: int| 0 <= i < s.len() ==> is_ws(#[trigger] s[i])
}

/// The position where `trim_start` cuts.
pub fn trim_start_pos(v: &[char], lo: usize, hi: usize) -> (r: usize)
    requires
        lo <= hi <= v@.len(),
    ensures
        lo <= r <= hi,
        trim_start(v@.subrange(lo as int, hi as int)) == v@.subrange(r as int, hi as int),
{
    let mut i = lo;
    while i < hi && is_whitespace(v[i])
        invariant
            lo <= i <= hi <= v@.len(),
            trim_start(v@.subrange(lo as int, hi as int)) == trim_start(
                v@.subrange(i as int, hi as int),
            ),
        decreases hi - i,
    {
        assert(v@.subrange(i as int, hi as int).drop_first() =~= v@.subrange(i + 1, hi as int));
        i += 1;
    }
    i
}

/// The position where `trim_end` cuts.
pub fn trim_end_pos(v: &[char], lo: usize, hi: usize) -> (r: usize)
    requires
        lo <= hi <= v@.len(),
    ensures
        lo <= r <= hi,
        trim_end(v@.subrange(lo as int, hi as int)) == v@.subrange(lo as int, r as int),
{
    let mut i = hi;
    while i > lo && is_whitespace(v[i - 1])
        invariant
            lo <= i <= hi <= v@.len(),
            trim_end(v@.subrange(lo as int, hi as int)) == trim_end(
                v@.subrange(lo as int, i as int),
            ),
        decreases i - lo,
    {
        assert(v@.subrange(lo as int, i as int).drop_last() =~= v@.subrange(lo as int, i - 1));
        i -= 1;
    }
    i
}

/// The words of `s` (`str::split_whitespace`): the runs of characters that
/// are not white space.
pub open spec fn words_of(s: Seq<char>) -> Seq<Seq<char>>
    decreases s.len(),
{
    if s.len() == 0 {
        seq![]
    } else if is_ws(s[0]) {
        words_of(s.drop_first())
    } else {
        match first_ws(s, 0) {
            None => seq![s],
            Some(i) => {
                proof {
                    lemma_first_ws(s, 0);
                }
                seq![s.take(i)] + words_of(s.skip(i))
            },
        }
    }
}

/// The position of the first white space at or after `from`.
pub open spec fn first_ws(s: Seq<char>, from: int) -> Option<int>
    decreases s.len() - from,
{
    if from < 0 || from >= s.len() {
        None
    } else if is_ws(s[from]) {
        Some(from)
    } else {
        first_ws(s, from + 1)
    }
}

pub proof fn lemma_trim_start_len(s: Seq<char>)
    ensures
        trim_start(s).len() <= s.len(),
        trim_start(s) == s.skip(s.len() - trim_start(s).len()),
        trim_start(s).len() > 0 ==> !is_ws(trim_start(s)[0]),
    decreases s.len(),
{
    if s.len() > 0 && is_ws(s[0]) {
        lemma_trim_start_len(s.drop_first());
        assert(s.drop_first().skip(s.drop_first().len() - trim_start(s).len()) =~= s.skip(
            s.len() - trim_start(s).len(),
        ));
    } else {
        assert(s.skip(0) =~= s);
    }
}

pub proof fn lemma_trim_end_len(s: Seq<char>)
    ensures
        trim_end(s).len() <= s.len(),
        trim_end(s) == s.take(trim_end(s).len() as int),
        trim_end(s).len() > 0 ==> !is_ws(trim_end(s).last()),
    decreases s.len(),
{
    if s.len() > 0 && is_ws(s.last()) {
        lemma_trim_end_len(s.drop_last());
        assert(s.drop_last().take(trim_end(s).len() as int) =~= s.take(trim_end(s).len() as int));
    } else {
        assert(s.take(s.len() as int) =~= s);
    }
}

/// `trim_end` keeps every character up to the last one that is not white
/// space.
pub proof fn lemma_trim_end_keeps(s: Seq<char>, i: int)
    requires
        0 <= i < s.len(),
        !is_ws(s[i]),
    ensures
        i < trim_end(s).len(),
    decreases s.len(),
{
    if s.len() > 0 && is_ws(s.last()) {
        assert(i < s.len() - 1);
        assert(s.drop_last()[i] == s[i]);
        lemma_trim_end_keeps(s.drop_last(), i);
    }
}

/// A text that is its own trim ends with no white space.
pub proof fn lemma_trimmed_last(s: Seq<char>)
    requires
        trim(s) == s,
    ensures
        s.len() > 0 ==> !is_ws(s.last()),
{
    lemma_trim_start_len(s);
    lemma_trim_end_len(trim_start(s));
}

/// The lines of a text that ends a line (or is empty), followed by more
/// text, are the lines of the first part and then those of the second.
pub proof fn lemma_lines_concat(a: Seq<char>, b: Seq<char>)
    requires
        a.len() == 0 || a.last() == '\n',
    ensures
        lines_of(a + b) == lines_of(a) + lines_of(b),
    decreases a.len(),
{
    if a.len() == 0 {
        assert(a + b =~= b);
        assert(lines_of(a) + lines_of(b) =~= lines_of(b));
    } else {
        lemma_find_char_bounds(a, '\n', 0);
        let i = match find_char(a, '\n', 0) {
            Some(i) => i,
            None => {
                assert(a[a.len() - 1] != '\n');
                0
            },
        };
        assert(find_char(a, '\n', 0) == Some(i));
        lemma_find_char_is(a + b, '\n', 0, i);
        let rest = a.skip(i + 1);
        assert(rest.len() > 0 ==> rest.last() == a.last());
        lemma_lines_concat(rest, b);
        assert((a + b).take(i) =~= a.take(i));
        assert((a + b).skip(i + 1) =~= rest + b);
        assert(lines_of(a + b) == seq![strip_cr(a.take(i))] + lines_of(rest + b));
        assert(lines_of(a) == seq![strip_cr(a.take(i))] + lines_of(rest));
        assert(seq![strip_cr(a.take(i))] + (lines_of(rest) + lines_of(b)) =~= seq![
            strip_cr(a.take(i)),
        ] + lines_of(rest) + lines_of(b));
    }
}

/// No line of a text holds a `\n`.
pub proof fn lemma_lines_no_newline(s: Seq<char>)
    ensures
        forall|k: int| 0 <= k < lines_of(s).len() ==> !(#[trigger] lines_of(s)[k]).contains('\n'),
    decreases s.len(),
{
    if s.len() > 0 {
        lemma_find_char_bounds(s, '\n', 0);
        match find_char(s, '\n', 0) {
            None => {
                assert(lines_of(s) == seq![s]);
                assert forall|k: int| 0 <= k < lines_of(s).len() implies !(
                #[trigger] lines_of(s)[k]).contains('\n') by {
                    assert(lines_of(s)[k] == s);
                }
            },
            Some(i) => {
                let rest = s.skip(i + 1);
                lemma_lines_no_newline(rest);
                let first = strip_cr(s.take(i));
                assert(!first.contains('\n')) by {
                    if first.contains('\n') {
                        let j = choose|j: int| 0 <= j < first.len() && first[j] == '\n';
                        assert(s[j] == '\n');
                    }
                }
                assert(lines_of(s) == seq![first] + lines_of(rest));
                assert forall|k: int| 0 <= k < lines_of(s).len() implies !(
                #[trigger] lines_of(s)[k]).contains('\n') by {
                    if k > 0 {
                        assert(lines_of(s)[k] == lines_of(rest)[k - 1]);
                    }
                }
            },
        }
    }
}

/// One line with its `\n` is that one line, when it holds no other `\n`
/// and does not end with `\r`.
pub proof fn lemma_lines_one(l: Seq<char>)
    requires
        !l.contains('\n'),
        l.len() == 0 || l.last() != '\r',
    ensures
        lines_of(l + seq!['\n']) == seq![l],
{
    let s = l + seq!['\n'];
    assert forall|j: int| 0 <= j < l.len() implies s[j] != '\n' by {
        if s[j] == '\n' {
            assert(l[j] == '\n');
            assert(l.contains('\n'));
        }
    }
    lemma_find_char_is(s, '\n', 0, l.len() as int);
    assert(s.take(l.len() as int) =~= l);
    assert(s.skip(l.len() as int + 1) =~= Seq::<char>::empty());
    assert(lines_of(Seq::<char>::empty()) =~= Seq::<Seq<char>>::empty());
    assert(lines_of(s) == seq![strip_cr(l)] + lines_of(Seq::<char>::empty()));
    assert(seq![strip_cr(l)] + Seq::<Seq<char>>::empty() =~= seq![l]);
}

pub proof fn lemma_first_ws(s: Seq<char>, from: int)
    requires
        0 <= from,
    ensures
        match first_ws(s, from) {
            Some(i) => 0 <= from <= i < s.len() && is_ws(s[i]) && forall|j: int|
                from <= j < i ==> !is_ws(s[j]),
            None => forall|j: int| from <= j < s.len() ==> !is_ws(s[j]),
        },
    decreases s.len() - from,
{
    if from < 0 || from >= s.len() {
    } else if is_ws(s[from]) {
    } else {
        lemma_first_ws(s, from + 1);
    }
}

pub proof fn lemma_first_ws_is(s: Seq<char>, from: int, i: int)
    requires
        0 <= from <= i <= s.len(),
        i < s.len() ==> is_ws(s[i]),
        forall|j: int| from <= j < i ==> !is_ws(s[j]),
    ensures
        first_ws(s, from) == (if i < s.len() {
            Some(i)
        } else {
            None::<int>
        }),
    decreases i - from,
{
    if from < i {
        lemma_first_ws_is(s, from + 1, i);
    }
}

/// The first word of `v[lo..hi]`, as a range, if there is one.
pub fn first_word(v: &[char], lo: usize, hi: usize) -> (r: Option<(usize, usize)>)
    requires
        lo <= hi <= v@.len(),
    ensures
        match r {
            None => words_of(v@.subrange(lo as int, hi as int)).len() == 0,
            Some((a, b)) => lo <= a < b <= hi && words_of(v@.subrange(lo as int, hi as int))
                == seq![v@.subrange(a as int, b as int)] + words_of(v@.subrange(b as int, hi as int)),
        },
{
    let mut a = lo;
    while a < hi && is_whitespace(v[a])
        invariant
            lo <= a <= hi <= v@.len(),
            words_of(v@.subrange(lo as int, hi as int)) == words_of(v@.subrange(a as int, hi as int)),
        decreases hi - a,
    {
        assert(v@.subrange(a as int, hi as int).drop_first() =~= v@.subrange(a + 1, hi as int));
        a += 1;
    }
    if a == hi {
        assert(v@.subrange(a as int, hi as int) =~= Seq::<char>::empty());
        return None;
    }
    let ghost t = v@.subrange(a as int, hi as int);
    let mut b = a + 1;
    while b < hi && !is_whitespace(v[b])
        invariant
            a < b <= hi <= v@.len(),
            !is_ws(v@[a as int]),
            forall|j: int| a <= j < b ==> !is_ws(v@[j]),
        decreases hi - b,
    {
        b += 1;
    }
    proof {
        lemma_first_ws_is(t, 0, b - a);
        assert(t.take(b - a) =~= v@.subrange(a as int, b as int));
        if b < hi {
            assert(t.skip(b - a) =~= v@.subrange(b as int, hi as int));
        } else {
            assert(v@.subrange(b as int, hi as int) =~= Seq::<char>::empty());
            assert(t.take(b - a) =~= t);
            assert(seq![t] + Seq::<Seq<char>>::empty() =~= seq![t]);
        }
    }
    Some((a, b))
}

// ---------------------------------------------------------------------
// Numbers
// ---------------------------------------------------------------------
pub open spec fn is_digit(c: char) -> bool {
    '0' <= c <= '9'
}

pub open spec fn all_digits(s: Seq<char>) -> bool {
    forall|i: int| 0 <= i < s.len() ==> is_digit(#[trigger] s[i])
}

pub open spec fn digit_value(c: char) -> nat {
    (c as u32 - '0' as u32) as nat
}

/// The number that a run of decimal digits writes.
pub open spec fn digits_value(s: Seq<char>) -> nat
    decreases s.len(),
{
    if s.len() == 0 {
        0
    } else {
        digits_value(s.drop_last()) * 10 + digit_value(s.last())
    }
}

/// The parse of an unsigned integer no larger than `max` (`str::parse`):
/// an optional `+`, then one or more digits.
pub open spec fn parse_uint(s: Seq<char>, max: nat) -> Option<nat> {
    let t = if s.len() > 0 && s[0] == '+' {
        s.drop_first()
    } else {
        s
    };
    if t.len() > 0 && all_digits(t) && digits_value(t) <= max {
        Some(digits_value(t))
    } else {
        None
    }
}

pub proof fn lemma_digits_value_prefix(s: Seq<char>, k: int)
    requires
        0 <= k <= s.len(),
        all_digits(s),
    ensures
        digits_value(s.take(k)) <= digits_value(s),
    decreases s.len() - k,
{
    if k < s.len() {
        lemma_digits_value_prefix(s, k + 1);
        assert(s.take(k + 1).drop_last() =~= s.take(k));
    } else {
        assert(s.take(k) =~= s);
    }
}

/// Parse `v[lo..hi]` as an unsigned number that fits in a `u64`.
pub fn parse_u64(v: &[char], lo: usize, hi: usize) -> (r: Option<u64>)
    requires
        lo <= hi <= v@.len(),
    ensures
        r == (match parse_uint(v@.subrange(lo as int, hi as int), u64::MAX as nat) {
            Some(n) => Some(n as u64),
            None => None::<u64>,
        }),
{
    let ghost s = v@.subrange(lo as int, hi as int);
    let mut i = lo;
    if i < hi && v[i] == '+' {
        i += 1;
    }
    let ghost t = v@.subrange(i as int, hi as int);
    assert(t =~= (if s.len() > 0 && s[0] == '+' {
        s.drop_first()
    } else {
        s
    }));
    if i == hi {
        return None;
    }
    let start = i;
    let mut acc: u64 = 0;
    while i < hi
        invariant
            lo <= start <= i <= hi <= v@.len(),
            t == v@.subrange(start as int, hi as int),
            s == v@.subrange(lo as int, hi as int),
            t == (if s.len() > 0 && s[0] == '+' {
                s.drop_first()
            } else {
                s
            }),
            all_digits(v@.subrange(start as int, i as int)),
            acc as nat == digits_value(v@.subrange(start as int, i as int)),
        decreases hi - i,
    {
        let c = v[i];
        if !('0' <= c && c <= '9') {
            assert(t[i - start] == c);
            assert(!all_digits(t));
            return None;
        }
        let d = (c as u32 - '0' as u32) as u64;
        let ghost pre = v@.subrange(start as int, i as int);
        let ghost next = v@.subrange(start as int, i + 1);
        assert(next.drop_last() =~= pre);
        if acc > (u64::MAX - d) / 10 {
            proof {
                assert(digit_value(c) == d);
                assert(digits_value(next) == digits_value(pre) * 10 + digit_value(c));
                let dv = digits_value(next);
                assert(dv > u64::MAX) by (nonlinear_arith)
                    requires
                        dv == acc * 10 + d,
                        acc > (u64::MAX - d) / 10,
                        d <= 9,
                ;
                // Every later prefix is at least as large.
                if all_digits(t) {
                    assert(t.take(i + 1 - start) =~= next);
                    lemma_digits_value_prefix(t, i + 1 - start);
                }
                assert(!(all_digits(t) && digits_value(t) <= u64::MAX));
            }
            return None;
        }
        acc = acc * 10 + d;
        i += 1;
    }
    Some(acc)
}

/// Parse `v[lo..hi]` as a `u32`.
pub fn parse_u32(v: &[char], lo: usize, hi: usize) -> (r: Option<u32>)
    requires
        lo <= hi <= v@.len(),
    ensures
        r == (match parse_uint(v@.subrange(lo as int, hi as int), u32::MAX as nat) {
            Some(n) => Some(n as u32),
            None => None::<u32>,
        }),
{
    match parse_u64(v, lo, hi) {
        Some(n) => if n <= u32::MAX as u64 {
            Some(n as u32)
        } else {
            None
        },
        None => None,
    }
}

/// The decimal digits of a number, as `to_string` writes them.
pub open spec fn decimal(n: nat) -> Seq<char>
    decreases n,
{
    if n < 10 {
        seq![digit_char(n)]
    } else {
        decimal(n / 10).push(digit_char(n % 10))
    }
}

pub open spec fn digit_char(d: nat) -> char {
    (('0' as u32) + d) as char
}

proof fn lemma_digit_char(d: nat)
    requires
        d < 10,
    ensures
        is_digit(digit_char(d)),
        digit_value(digit_char(d)) == d,
{
    if d == 0 {
        assert(digit_char(d) == '0');
    } else if d == 1 {
        assert(digit_char(d) == '1');
    } else if d == 2 {
        assert(digit_char(d) == '2');
    } else if d == 3 {
        assert(digit_char(d) == '3');
    } else if d == 4 {
        assert(digit_char(d) == '4');
    } else if d == 5 {
        assert(digit_char(d) == '5');
    } else if d == 6 {
        assert(digit_char(d) == '6');
    } else if d == 7 {
        assert(digit_char(d) == '7');
    } else if d == 8 {
        assert(digit_char(d) == '8');
    } else {
        assert(digit_char(d) == '9');
    }
}

/// The digits of a number read back as that number.
pub proof fn lemma_decimal(n: nat)
    ensures
        decimal(n).len() > 0,
        all_digits(decimal(n)),
        digits_value(decimal(n)) == n,
    decreases n,
{
    if n < 10 {
        lemma_digit_char(n);
        assert(seq![digit_char(n)].drop_last() =~= Seq::<char>::empty());
        assert(digits_value(Seq::<char>::empty()) * 10 == 0);
    } else {
        lemma_decimal(n / 10);
        lemma_digit_char(n % 10);
        let d = decimal(n / 10).push(digit_char(n % 10));
        assert(d.drop_last() =~= decimal(n / 10));
        assert forall|i: int| 0 <= i < d.len() implies is_digit(#[trigger] d[i]) by {
            if i < d.len() - 1 {
                assert(d[i] == decimal(n / 10)[i]);
            }
        }
        assert(digits_value(d) == digits_value(decimal(n / 10)) * 10 + digit_value(d.last()));
        assert((n / 10) * 10 + n % 10 == n) by (nonlinear_arith);
    }
}

/// Append the decimal digits of `n`.
pub fn push_decimal(s: &mut String, n: u64)
    ensures
        final(s)@ == old(s)@ + decimal(n as nat),
    decreases n,
{
    if n >= 10 {
        push_decimal(s, n / 10);
    }
    let d = (n % 10) as u32;
    let c = char_of_digit(d);
    push_char(s, c);
    proof {
        if n >= 10 {
            assert(old(s)@ + decimal(n as nat) =~= old(s)@ + decimal((n / 10) as nat) + seq![c]);
        } else {
            assert(old(s)@ + decimal(n as nat) =~= old(s)@.push(c));
        }
    }
}

/// The character of one decimal digit.
pub fn char_of_digit(d: u32) -> (c: char)
    requires
        d < 10,
    ensures
        c == digit_char(d as nat),
{
    match d {
        0 => '0',
        1 => '1',
        2 => '2',
        3 => '3',
        4 => '4',
        5 => '5',
        6 => '6',
        7 => '7',
        8 => '8',
        _ => '9',
    }
}

/// `n` as a decimal string.
pub fn decimal_string(n: u64) -> (s: String)
    ensures
        s@ == decimal(n as nat),
{
    let mut s = String::new();
    push_decimal(&mut s, n);
    assert(s@ =~= decimal(n as nat));
    s
}

/// The texts joined with `sep` between them.
pub open spec fn join(parts: Seq<Seq<char>>, sep: Seq<char>) -> Seq<char>
    decreases parts.len(),
{
    if parts.len() == 0 {
        seq![]
    } else if parts.len() == 1 {
        parts[0]
    } else {
        join(parts.drop_last(), sep) + sep + parts.last()
    }
}

/// Append the texts joined with `sep`.
pub fn push_joined(out: &mut String, v: &Vec<String>, sep: &str)
    ensures
        final(out)@ == old(out)@ + join(v@.map_values(|s: String| s@), sep@),
{
    let ghost parts = v@.map_values(|s: String| s@);
    let ghost start = out@;
    let mut k: usize = 0;
    while k < v.len()
        invariant
            parts == v@.map_values(|s: String| s@),
            0 <= k <= v@.len(),
            out@ == start + join(parts.take(k as int), sep@),
        decreases v@.len() - k,
    {
        proof {
            assert(parts.take(k + 1).drop_last() =~= parts.take(k as int));
            assert(parts.take(k + 1).last() == v@[k as int]@);
        }
        if k > 0 {
            push_str(out, sep);
        }
        push_str(out, v[k].as_str());
        proof {
            if k == 0 {
                assert(parts.take(1)[0] == v@[0]@);
                assert(out@ =~= start + join(parts.take(1), sep@));
            } else {
                assert(out@ =~= start + join(parts.take(k + 1), sep@));
            }
        }
        k += 1;
    }
    proof {
        assert(parts.take(k as int) =~= parts);
    }
}

pub proof fn lemma_encode_concat(a: Seq<char>, b: Seq<char>)
    ensures
        vstd::utf8::encode_utf8(a + b) == vstd::utf8::encode_utf8(a) + vstd::utf8::encode_utf8(b),
    decreases a.len(),
{
    if a.len() == 0 {
        assert(a + b =~= b);
        assert(vstd::utf8::encode_utf8(a) + vstd::utf8::encode_utf8(b) =~= vstd::utf8::encode_utf8(b));
    } else {
        lemma_encode_concat(a.drop_first(), b);
        assert((a + b).drop_first() =~= a.drop_first() + b);
        assert((a + b)[0] == a[0]);
        assert(vstd::utf8::encode_scalar(a[0] as u32) + (vstd::utf8::encode_utf8(a.drop_first()) + vstd::utf8::encode_utf8(b))
            =~= vstd::utf8::encode_scalar(a[0] as u32) + vstd::utf8::encode_utf8(a.drop_first()) + vstd::utf8::encode_utf8(b));
    }
}

pub proof fn lemma_encode_one(c: char)
    ensures
        vstd::utf8::encode_utf8(seq![c]) == vstd::utf8::encode_scalar(c as u32),
{
    assert(seq![c].drop_first() =~= Seq::<char>::empty());
    assert(seq![c][0] == c);
    assert(vstd::utf8::encode_utf8(Seq::<char>::empty()) =~= Seq::<u8>::empty());
    assert(vstd::utf8::encode_scalar(c as u32) + Seq::<u8>::empty() =~= vstd::utf8::encode_scalar(c as u32));
}

/// `char::len_utf8`: the number of bytes of a character.
pub fn char_width(c: char) -> (n: usize)
    ensures
        n == vstd::utf8::encode_scalar(c as u32).len(),
{
    let u = c as u32;
    if u < 0x80 {
        1
    } else if u < 0x800 {
        2
    } else if u < 0x10000 {
        3
    } else {
        4
    }
}

/// The length in bytes of UTF-8 of `v[lo..hi]`, or `cap` when it is more.
pub fn utf8_len_capped(v: &[char], lo: usize, hi: usize, cap: usize) -> (r: usize)
    requires
        lo <= hi <= v@.len(),
    ensures
        r == if vstd::utf8::encode_utf8(v@.subrange(lo as int, hi as int)).len() <= cap {
            vstd::utf8::encode_utf8(v@.subrange(lo as int, hi as int)).len()
        } else {
            cap as nat
        },
{
    let ghost s = v@.subrange(lo as int, hi as int);
    let mut n: u128 = 0;
    let mut i = lo;
    proof {
        assert(v@.subrange(lo as int, lo as int) =~= Seq::<char>::empty());
    }
    while i < hi && n <= cap as u128
        invariant
            lo <= i <= hi <= v@.len(),
            s == v@.subrange(lo as int, hi as int),
            n as nat == vstd::utf8::encode_utf8(v@.subrange(lo as int, i as int)).len(),
            n <= cap + 4,
        decreases hi - i,
    {
        let w = char_width(v[i]);
        proof {
            assert(v@.subrange(lo as int, i + 1) =~= v@.subrange(lo as int, i as int) + seq![v@[i as int]]);
            lemma_encode_concat(v@.subrange(lo as int, i as int), seq![v@[i as int]]);
            lemma_encode_one(v@[i as int]);
        }
        n = n + w as u128;
        i += 1;
    }
    proof {
        assert(s =~= v@.subrange(lo as int, i as int) + v@.subrange(i as int, hi as int));
        lemma_encode_concat(v@.subrange(lo as int, i as int), v@.subrange(i as int, hi as int));
    }
    if n > cap as u128 {
        cap
    } else {
        n as usize
    }
}

} // verus!
