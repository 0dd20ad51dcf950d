//! The text that git prints, read into rows: branches, blame, submodules,
//! the reflog, worktrees, and the sync state. The program around the
//! library runs the commands and hands their output here.
use vstd::prelude::*;

use crate::git::patch::views;
use crate::git::{
    distinct, distinct_texts, lemma_distinct, text_eq, BlameLine, BranchEntry, ReflogEntry,
    SubmoduleEntry, WorktreeEntry,
};
use crate::text::{
    chars_of, contains_at, contains_seq, decimal, digit_char, first_word, find_within, is_digit,
    line_ranges, lines_of, matches_at, parse_u32, parse_uint, push_char, push_decimal, push_str,
    split_on, split_ranges, starts_with, string_from, string_of, trim_start, trim_start_pos,
    words_of, find_seq,
};

verus! {

// ---------------------------------------------------------------------
// Dates
// ---------------------------------------------------------------------
/// The civil date of a day, counted from 1970-01-01 (the days-to-civil
/// algorithm of the proleptic Gregorian calendar): year, month, day.
pub open spec fn civil(days: int) -> (int, int, int) {
    let z = days + 719468;
    let era = z / 146097;
    let doe = z % 146097;
    let yoe = (doe - doe / 1460 + doe / 36524 - doe / 146096) / 365;
    let doy = doe - (365 * yoe + yoe / 4 - yoe / 100);
    let mp = (5 * doy + 2) / 153;
    let d = doy - (153 * mp + 2) / 5 + 1;
    let m = if mp < 10 {
        mp + 3
    } else {
        mp - 9
    };
    let y = yoe + era * 400 + if m <= 2 {
        1int
    } else {
        0int
    };
    (y, m, d)
}

/// The decimal digits of `n`, with zeros in front up to `w` digits.
pub open spec fn padded(n: nat, w: nat) -> Seq<char> {
    let s = decimal(n);
    if s.len() < w {
        Seq::new((w - s.len()) as nat, |i: int| '0') + s
    } else {
        s
    }
}

/// `YYYY-MM-DD` of a time in seconds since 1970.
pub open spec fn ymd_text(secs: u32) -> Seq<char> {
    let (y, m, d) = civil((secs / 86400) as int);
    padded(y as nat, 4) + seq!['-'] + padded(m as nat, 2) + seq!['-'] + padded(d as nat, 2)
}

/// Append `n` with zeros in front up to `w` digits.
fn push_padded(s: &mut String, n: u64, w: usize)
    requires
        w <= 20,
    ensures
        final(s)@ == old(s)@ + padded(n as nat, w as nat),
{
    let digits = crate::text::decimal_string(n);
    let len = chars_of(digits.as_str()).len();
    let ghost start = s@;
    if len < w {
        let mut k: usize = 0;
        while k < w - len
            invariant
                len < w,
                0 <= k <= w - len,
                s@ == start + Seq::new(k as nat, |i: int| '0'),
            decreases w - len - k,
        {
            push_char(s, '0');
            proof {
                assert(s@ =~= start + Seq::new((k + 1) as nat, |i: int| '0'));
            }
            k += 1;
        }
    }
    push_str(s, digits.as_str());
    proof {
        if len >= w {
            assert(s@ =~= start + decimal(n as nat));
        } else {
            assert(s@ =~= start + (Seq::new((w - len) as nat, |i: int| '0') + decimal(n as nat)));
        }
    }
}

/// The month of a civil date lies in 1..=12 and its day in 1..=31.
pub proof fn lemma_civil_ranges(days: int)
    requires
        0 <= days,
    ensures
        1 <= civil(days).1 <= 12,
        1 <= civil(days).2 <= 31,
        civil(days).0 >= 1970,
{
    let z = days + 719468;
    let era = z / 146097;
    let doe = z % 146097;
    assert(0 <= doe < 146097);
    let yoe = (doe - doe / 1460 + doe / 36524 - doe / 146096) / 365;
    assert(0 <= yoe <= 399) by (nonlinear_arith)
        requires
            0 <= doe < 146097,
            yoe == (doe - doe / 1460 + doe / 36524 - doe / 146096) / 365,
    ;
    let doy = doe - (365 * yoe + yoe / 4 - yoe / 100);
    assert(0 <= doy <= 365) by (nonlinear_arith)
        requires
            0 <= doe < 146097,
            yoe == (doe - doe / 1460 + doe / 36524 - doe / 146096) / 365,
            doy == doe - (365 * yoe + yoe / 4 - yoe / 100),
    ;
    let mp = (5 * doy + 2) / 153;
    assert(0 <= mp <= 11);
    let d = doy - (153 * mp + 2) / 5 + 1;
    assert(1 <= d <= 31) by (nonlinear_arith)
        requires
            0 <= doy <= 365,
            mp == (5 * doy + 2) / 153,
            d == doy - (153 * mp + 2) / 5 + 1,
    ;
    assert(era >= 4) by (nonlinear_arith)
        requires
            z >= 719468,
            era == z / 146097,
    ;
    if era == 4 {
        assert(z - 4 * 146097 == doe);
        assert(doe >= 135080);
        assert(yoe >= 369) by (nonlinear_arith)
            requires
                135080 <= doe < 146097,
                yoe == (doe - doe / 1460 + doe / 36524 - doe / 146096) / 365,
        ;
    }
}

/// Convert epoch seconds to a calendar date, with no date library.
pub fn ymd(secs: u32) -> (r: String)
    ensures
        r@ == ymd_text(secs),
{
    let z: u64 = (secs / 86400) as u64 + 719468;
    let era = z / 146097;
    let doe = z % 146097;
    let yoe = (doe - doe / 1460 + doe / 36524 - doe / 146096) / 365;
    assert(yoe <= 399) by (nonlinear_arith)
        requires
            doe < 146097,
            yoe == (doe - doe / 1460 + doe / 36524 - doe / 146096) / 365,
    ;
    assert(365 * yoe + yoe / 4 - yoe / 100 <= doe) by (nonlinear_arith)
        requires
            doe < 146097,
            yoe == (doe - doe / 1460 + doe / 36524 - doe / 146096) / 365,
    ;
    let doy = doe - (365 * yoe + yoe / 4 - yoe / 100);
    assert(doy <= 365) by (nonlinear_arith)
        requires
            doe < 146097,
            yoe == (doe - doe / 1460 + doe / 36524 - doe / 146096) / 365,
            doy == doe - (365 * yoe + yoe / 4 - yoe / 100),
    ;
    let mp = (5 * doy + 2) / 153;
    assert((153 * mp + 2) / 5 <= doy) by (nonlinear_arith)
        requires
            doy <= 365,
            mp == (5 * doy + 2) / 153,
    ;
    let d = doy - (153 * mp + 2) / 5 + 1;
    let m = if mp < 10 {
        mp + 3
    } else {
        mp - 9
    };
    let y = yoe + era * 400 + if m <= 2 {
        1
    } else {
        0
    };
    proof {
        lemma_civil_ranges((secs / 86400) as int);
    }
    let mut s = String::new();
    push_padded(&mut s, y, 4);
    push_char(&mut s, '-');
    push_padded(&mut s, m, 2);
    push_char(&mut s, '-');
    push_padded(&mut s, d, 2);
    proof {
        let c = civil((secs / 86400) as int);
        assert(c.0 == y && c.1 == m && c.2 == d);
        assert(s@ =~= ymd_text(secs));
    }
    s
}

// ---------------------------------------------------------------------
// Branches
// ---------------------------------------------------------------------
/// `s` without the `c`s at its end.
pub open spec fn trim_end_char(s: Seq<char>, c: char) -> Seq<char>
    decreases s.len(),
{
    if s.len() > 0 && s.last() == c {
        trim_end_char(s.drop_last(), c)
    } else {
        s
    }
}

/// The short age of the words that git gives: the number and the first
/// letter of the unit, "3 days ago" giving "3d"; "now" when the first word
/// is no number; nothing when there are not two words.
pub open spec fn age_text(text: Seq<char>) -> Seq<char> {
    let ws = words_of(text);
    if ws.len() < 2 {
        seq![]
    } else {
        let unit = trim_end_char(ws[1], ',');
        let letter = if unit.len() > 0 {
            unit[0]
        } else {
            ' '
        };
        match parse_uint(ws[0], u32::MAX as nat) {
            Some(n) => decimal(n) + seq![letter],
            None => "now"@,
        }
    }
}

/// Make a short age from the words that git gives. "3 days ago" gives "3d".
pub fn short_age(text: &str) -> (r: String)
    ensures
        r@ == age_text(text@),
{
    let v = chars_of(text);
    let n = v.len();
    proof {
        assert(v@.subrange(0, n as int) =~= text@);
    }
    let (a0, a1) = match first_word(v.as_slice(), 0, n) {
        Some(w) => w,
        None => {
            return String::new();
        },
    };
    let (b0, b1) = match first_word(v.as_slice(), a1, n) {
        Some(w) => w,
        None => {
            return String::new();
        },
    };
    let ghost ws = words_of(text@);
    let ghost unit0 = v@.subrange(b0 as int, b1 as int);
    assert(ws[0] == v@.subrange(a0 as int, a1 as int));
    assert(ws[1] == unit0);
    // "2 years, 3 months ago" keeps only the first part.
    let mut e = b1;
    while e > b0 && v[e - 1] == ','
        invariant
            b0 <= e <= b1 <= v@.len(),
            trim_end_char(unit0, ',') == trim_end_char(v@.subrange(b0 as int, e as int), ','),
        decreases e - b0,
    {
        proof {
            assert(v@.subrange(b0 as int, e as int).drop_last() =~= v@.subrange(b0 as int, e - 1));
        }
        e -= 1;
    }
    proof {
        let u = v@.subrange(b0 as int, e as int);
        if e > b0 {
            assert(u.last() != ',');
        }
        assert(trim_end_char(u, ',') == u);
    }
    let letter = if e > b0 {
        v[b0]
    } else {
        ' '
    };
    match parse_u32(v.as_slice(), a0, a1) {
        Some(num) => {
            let mut out = String::new();
            push_decimal(&mut out, num as u64);
            push_char(&mut out, letter);
            out
        },
        None => string_from("now"),
    }
}

/// The leading decimal digits of `s`.
pub open spec fn digit_prefix(s: Seq<char>) -> Seq<char>
    decreases s.len(),
{
    if s.len() > 0 && is_digit(s[0]) {
        seq![s[0]] + digit_prefix(s.drop_first())
    } else {
        seq![]
    }
}

/// The number after `word` in a track field such as "[ahead 2, behind 1]",
/// or zero.
pub open spec fn count_after(track: Seq<char>, word: Seq<char>) -> u32 {
    match find_seq(track, word, 0) {
        None => 0,
        Some(i) => match parse_uint(
            digit_prefix(trim_start(track.skip(i + word.len()))),
            u32::MAX as nat,
        ) {
            Some(n) => n as u32,
            None => 0,
        },
    }
}

/// The number after `word` in a track field.
pub fn track_count(track: &str, word: &str) -> (r: u32)
    ensures
        r == count_after(track@, word@),
{
    let v = chars_of(track);
    let w = chars_of(word);
    let n = v.len();
    proof {
        assert(v@.subrange(0, n as int) =~= track@);
    }
    let i = match find_within(v.as_slice(), 0, n, w.as_slice()) {
        None => {
            return 0;
        },
        Some(i) => i,
    };
    let a = trim_start_pos(v.as_slice(), i + w.len(), n);
    proof {
        assert(track@.skip(i + w@.len()) =~= v@.subrange(i + w@.len(), n as int));
    }
    let mut b = a;
    while b < n && '0' <= v[b] && v[b] <= '9'
        invariant
            a <= b <= n == v@.len(),
            digit_prefix(v@.subrange(a as int, n as int)) == v@.subrange(a as int, b as int)
                + digit_prefix(v@.subrange(b as int, n as int)),
        decreases n - b,
    {
        proof {
            let t = v@.subrange(b as int, n as int);
            assert(t.drop_first() =~= v@.subrange(b + 1, n as int));
            assert(v@.subrange(a as int, b + 1) =~= v@.subrange(a as int, b as int) + seq![t[0]]);
        }
        b += 1;
    }
    proof {
        let t = v@.subrange(b as int, n as int);
        assert(digit_prefix(t) =~= Seq::<char>::empty());
        assert(v@.subrange(a as int, b as int) + Seq::<char>::empty() =~= v@.subrange(
            a as int,
            b as int,
        ));
    }
    match parse_u32(v.as_slice(), a, b) {
        Some(k) => k,
        None => 0,
    }
}

/// A branch as plain values: name, current, ahead, behind, gone, age,
/// remote.
pub open spec fn branch_view(b: BranchEntry) -> (Seq<char>, bool, u32, u32, bool, Seq<char>, bool) {
    (b.name@, b.current, b.ahead, b.behind, b.gone, b.age@, b.remote)
}

/// The field at `k` of a line cut at tabs, or nothing.
pub open spec fn field(parts: Seq<Seq<char>>, k: int) -> Seq<char> {
    if k < parts.len() {
        parts[k]
    } else {
        seq![]
    }
}

/// The branch of one line of `for-each-ref`: the short name, a star for
/// the branch at HEAD, the track field, the relative date and the full
/// name, cut at tabs.
pub open spec fn branch_of(line: Seq<char>) -> (Seq<char>, bool, u32, u32, bool, Seq<char>, bool) {
    let p = split_on(line, '\t');
    let track = field(p, 2);
    (
        p[0],
        p.len() > 1 && p[1] == seq!['*'],
        count_after(track, "ahead "@),
        count_after(track, "behind "@),
        contains_seq(track, "gone"@),
        age_text(field(p, 3)),
        starts_with(field(p, 4), "refs/remotes/"@),
    )
}

/// The field at `k` of the line `v[..]` cut at the ranges `parts`.
fn field_exec(v: &[char], parts: &Vec<(usize, usize)>, k: usize, Ghost(ps): Ghost<Seq<Seq<char>>>) -> (r: String)
    requires
        parts@.len() == ps.len(),
        forall|j: int|
            #![trigger parts@[j]]
            0 <= j < parts@.len() ==> parts@[j].0 <= parts@[j].1 <= v@.len() && v@.subrange(
                parts@[j].0 as int,
                parts@[j].1 as int,
            ) == ps[j],
    ensures
        r@ == field(ps, k as int),
{
    if k < parts.len() {
        let (a, b) = parts[k];
        string_of(v, a, b)
    } else {
        String::new()
    }
}

/// Read one line of `for-each-ref`.
fn parse_branch(v: &[char], lo: usize, hi: usize) -> (r: BranchEntry)
    requires
        lo <= hi <= v@.len(),
    ensures
        branch_view(r) == branch_of(v@.subrange(lo as int, hi as int)),
{
    let parts = split_ranges(v, lo, hi, '\t');
    let ghost ps = split_on(v@.subrange(lo as int, hi as int), '\t');
    proof {
        crate::text::lemma_split_on_len(v@.subrange(lo as int, hi as int), '\t');
    }
    let name = field_exec(v, &parts, 0, Ghost(ps));
    let mark = field_exec(v, &parts, 1, Ghost(ps));
    let current = parts.len() > 1 && text_eq(mark.as_str(), "*");
    proof {
        reveal_strlit("*");
        assert("*"@ =~= seq!['*']);
    }
    let track = field_exec(v, &parts, 2, Ghost(ps));
    let date = field_exec(v, &parts, 3, Ghost(ps));
    let full = field_exec(v, &parts, 4, Ghost(ps));
    let fv = chars_of(full.as_str());
    let tv = chars_of(track.as_str());
    let remote_mark = chars_of("refs/remotes/");
    let gone_word = chars_of("gone");
    BranchEntry {
        name,
        current,
        ahead: track_count(track.as_str(), "ahead "),
        behind: track_count(track.as_str(), "behind "),
        gone: contains_at(tv.as_slice(), gone_word.as_slice()),
        age: short_age(date.as_str()),
        remote: crate::text::starts_with_at(fv.as_slice(), remote_mark.as_slice()),
    }
}

/// The branches with the first branch at HEAD moved to the front; the
/// others keep their order.
pub open spec fn current_first<T>(bs: Seq<T>, is_current: spec_fn(T) -> bool) -> Seq<T> {
    if exists|i: int| 0 <= i < bs.len() && is_current(#[trigger] bs[i]) {
        let i = choose|i: int|
            0 <= i < bs.len() && is_current(#[trigger] bs[i]) && forall|j: int|
                0 <= j < i ==> !is_current(#[trigger] bs[j]);
        seq![bs[i]] + bs.remove(i)
    } else {
        bs
    }
}

/// The branches of the output of `for-each-ref`, one for each line, in the
/// order of the output but the branch at HEAD first.
pub open spec fn branches_of(out: Seq<char>) -> Seq<(Seq<char>, bool, u32, u32, bool, Seq<char>, bool)> {
    current_first(
        lines_of(out).map_values(|l: Seq<char>| branch_of(l)),
        |b: (Seq<char>, bool, u32, u32, bool, Seq<char>, bool)| b.1,
    )
}

/// List the local branches, the newest commit first, from the output of
/// `for-each-ref`. The branch you are on goes first. The others keep the
/// recency order.
pub fn parse_branches(out: &str) -> (r: Vec<BranchEntry>)
    ensures
        r@.map_values(|b: BranchEntry| branch_view(b)) == branches_of(out@),
{
    let v = chars_of(out);
    let lines = line_ranges(v.as_slice());
    let ghost ls = lines_of(out@);
    let ghost all = ls.map_values(|l: Seq<char>| branch_of(l));
    let mut list: Vec<BranchEntry> = Vec::new();
    let mut first: Option<usize> = None;
    let mut k: usize = 0;
    while k < lines.len()
        invariant
            v@ == out@,
            ls == lines_of(out@),
            all == ls.map_values(|l: Seq<char>| branch_of(l)),
            lines@.len() == ls.len(),
            forall|j: int|
                #![trigger lines@[j]]
                0 <= j < lines@.len() ==> lines@[j].0 <= lines@[j].1 && lines@[j].1 <= v@.len()
                    && v@.subrange(lines@[j].0 as int, lines@[j].1 as int) == ls[j],
            0 <= k <= lines@.len(),
            list@.len() == k,
            forall|j: int| 0 <= j < k ==> branch_view(#[trigger] list@[j]) == all[j],
            match first {
                Some(i) => i < k && all[i as int].1 && forall|j: int| 0 <= j < i ==> !(#[trigger] all[j]).1,
                None => forall|j: int| 0 <= j < k ==> !(#[trigger] all[j]).1,
            },
        decreases lines@.len() - k,
    {
        let (a, b) = lines[k];
        assert(v@.subrange(a as int, b as int) == ls[k as int]);
        let entry = parse_branch(v.as_slice(), a, b);
        if first.is_none() && entry.current {
            first = Some(k);
        }
        list.push(entry);
        k += 1;
    }
    let ghost pred = |b: (Seq<char>, bool, u32, u32, bool, Seq<char>, bool)| b.1;
    proof {
        assert(list@.map_values(|b: BranchEntry| branch_view(b)) =~= all);
    }
    match first {
        None => {
            proof {
                assert(!exists|i: int| 0 <= i < all.len() && pred(#[trigger] all[i]));
            }
            list
        },
        Some(i) => {
            let current = list.remove(i);
            list.insert(0, current);
            proof {
                let c = choose|j: int|
                    0 <= j < all.len() && pred(#[trigger] all[j]) && forall|x: int|
                        0 <= x < j ==> !pred(#[trigger] all[x]);
                assert(pred(all[i as int]));
                if c < i {
                    assert(!pred(all[c]));
                } else if i < c {
                    assert(!pred(all[i as int]));
                }
                assert(c == i);
                assert(list@.map_values(|b: BranchEntry| branch_view(b)) =~= seq![all[i as int]]
                    + all.remove(i as int));
            }
            list
        },
    }
}

// ---------------------------------------------------------------------
// Blame
// ---------------------------------------------------------------------
/// The first seven characters of a text.
pub open spec fn first7(s: Seq<char>) -> Seq<char> {
    if s.len() <= 7 {
        s
    } else {
        s.take(7)
    }
}

/// The length of a text in bytes of UTF-8.
pub open spec fn utf8_len(s: Seq<char>) -> nat {
    vstd::utf8::encode_utf8(s).len()
}

/// A blame line as plain values: the short id, the author, the date and
/// the text.
pub open spec fn blame_view(b: BlameLine) -> (Seq<char>, Seq<char>, Seq<char>, Seq<char>) {
    (b.id@, b.author@, b.date@, b.text@)
}

/// One line of `blame --line-porcelain` read into the state: the rows so
/// far, and the commit, the author and the date that the headers named
/// last. A header starts with a forty-byte commit id; a line of the file
/// starts with a tab and makes a row.
pub open spec fn blame_step(
    st: (Seq<(Seq<char>, Seq<char>, Seq<char>, Seq<char>)>, Seq<char>, Seq<char>, Seq<char>),
    l: Seq<char>,
) -> (Seq<(Seq<char>, Seq<char>, Seq<char>, Seq<char>)>, Seq<char>, Seq<char>, Seq<char>) {
    let (out, id, author, date) = st;
    if starts_with(l, "author "@) {
        (out, id, l.skip(7), date)
    } else if starts_with(l, "author-time "@) {
        (out, id, author, match parse_uint(l.skip(12), u32::MAX as nat) {
            Some(n) => ymd_text(n as u32),
            None => seq![],
        })
    } else if starts_with(l, seq!['\t']) {
        (out.push((first7(id), author, date, l.skip(1))), id, author, date)
    } else if utf8_len(l) >= 40 && utf8_len(split_on(l, ' ')[0]) == 40 {
        (out, split_on(l, ' ')[0], author, date)
    } else {
        (out, id, author, date)
    }
}

/// The walk over the lines of `blame --line-porcelain`.
pub open spec fn blame_walk(ls: Seq<Seq<char>>) -> (
    Seq<(Seq<char>, Seq<char>, Seq<char>, Seq<char>)>,
    Seq<char>,
    Seq<char>,
    Seq<char>,
)
    decreases ls.len(),
{
    if ls.len() == 0 {
        (seq![], seq![], seq![], seq![])
    } else {
        blame_step(blame_walk(ls.drop_last()), ls.last())
    }
}

/// Who last changed each line of a file, from the output of
/// `blame --line-porcelain`.
pub open spec fn blame_of(text: Seq<char>) -> Seq<(Seq<char>, Seq<char>, Seq<char>, Seq<char>)> {
    blame_walk(lines_of(text)).0
}

/// The first seven characters of `v[lo..hi]`.
fn first7_of(v: &[char], lo: usize, hi: usize) -> (r: String)
    requires
        lo <= hi <= v@.len(),
    ensures
        r@ == first7(v@.subrange(lo as int, hi as int)),
{
    let end = if hi - lo <= 7 {
        hi
    } else {
        lo + 7
    };
    let r = string_of(v, lo, end);
    proof {
        assert(r@ =~= first7(v@.subrange(lo as int, hi as int)));
    }
    r
}

/// Read one line of blame output, `v[a..b]`, into the state.
fn read_blame_line(
    v: &[char],
    a: usize,
    b: usize,
    author_mark: &Vec<char>,
    time_mark: &Vec<char>,
    out: &mut Vec<BlameLine>,
    id: &mut String,
    author: &mut String,
    date: &mut String,
)
    requires
        a <= b <= v@.len(),
        author_mark@ == "author "@,
        time_mark@ == "author-time "@,
    ensures
        (final(out)@.map_values(|x: BlameLine| blame_view(x)), final(id)@, final(author)@, final(date)@)
            == blame_step(
            (old(out)@.map_values(|x: BlameLine| blame_view(x)), old(id)@, old(author)@, old(date)@),
            v@.subrange(a as int, b as int),
        ),
{
    let ghost l = v@.subrange(a as int, b as int);
    proof {
        reveal_strlit("author ");
        reveal_strlit("author-time ");
    }
    let ghost before = out@.map_values(|x: BlameLine| blame_view(x));
    let ghost st = (before, id@, author@, date@);
    if b - a >= 7 && matches_at(v, a, author_mark.as_slice()) {
        proof {
            assert(l.take(7) =~= v@.subrange(a as int, a + 7));
            assert(l.skip(7) =~= v@.subrange(a + 7, b as int));
        }
        *author = string_of(v, a + 7, b);
        assert((out@.map_values(|x: BlameLine| blame_view(x)), id@, author@, date@) == blame_step(st, l));
    } else if b - a >= 12 && matches_at(v, a, time_mark.as_slice()) {
        proof {
            if starts_with(l, "author "@) {
                assert(l.take(7) =~= v@.subrange(a as int, a + 7));
            }
            assert(l.take(12) =~= v@.subrange(a as int, a + 12));
            assert(l.skip(12) =~= v@.subrange(a + 12, b as int));
        }
        *date = match parse_u32(v, a + 12, b) {
            Some(n) => ymd(n),
            None => String::new(),
        };
        assert((out@.map_values(|x: BlameLine| blame_view(x)), id@, author@, date@) == blame_step(st, l));
    } else if b > a && v[a] == '\t' {
        proof {
            if starts_with(l, "author "@) {
                assert(l.take(7) =~= v@.subrange(a as int, a + 7));
            }
            if starts_with(l, "author-time "@) {
                assert(l.take(12) =~= v@.subrange(a as int, a + 12));
            }
            assert(l.take(1) =~= seq!['\t']);
            assert(l.skip(1) =~= v@.subrange(a + 1, b as int));
        }
        let iv = chars_of(id.as_str());
        let row = BlameLine {
            id: first7_of(iv.as_slice(), 0, iv.len()),
            author: author.clone(),
            date: date.clone(),
            text: string_of(v, a + 1, b),
        };
        proof {
            assert(iv@.subrange(0, iv@.len() as int) =~= id@);
        }
        out.push(row);
        proof {
            assert(out@.map_values(|x: BlameLine| blame_view(x)) =~= before.push(blame_view(row)));
        }
        assert((out@.map_values(|x: BlameLine| blame_view(x)), id@, author@, date@) == blame_step(st, l));
    } else {
        proof {
            if starts_with(l, "author "@) {
                assert(l.take(7) =~= v@.subrange(a as int, a + 7));
            }
            if starts_with(l, "author-time "@) {
                assert(l.take(12) =~= v@.subrange(a as int, a + 12));
            }
            if starts_with(l, seq!['\t']) {
                assert(l.take(1)[0] == v@[a as int]);
            }
        }
        if crate::text::utf8_len_capped(v, a, b, 40) >= 40 {
            let parts = split_ranges(v, a, b, ' ');
            proof {
                crate::text::lemma_split_on_len(l, ' ');
            }
            let (p0, p1) = parts[0];
            assert(v@.subrange(p0 as int, p1 as int) == split_on(l, ' ')[0]);
            if crate::text::utf8_len_capped(v, p0, p1, 41) == 40 {
                *id = string_of(v, p0, p1);
            }
        }
        assert((out@.map_values(|x: BlameLine| blame_view(x)), id@, author@, date@) == blame_step(st, l));
    }
}

/// Who last changed each line of a file. The porcelain form is stable,
/// thus it is safer to read than the plain one.
pub fn parse_blame(text: &str) -> (r: Vec<BlameLine>)
    ensures
        r@.map_values(|b: BlameLine| blame_view(b)) == blame_of(text@),
{
    let v = chars_of(text);
    let lines = line_ranges(v.as_slice());
    let ghost ls = lines_of(text@);
    let author_mark = chars_of("author ");
    let time_mark = chars_of("author-time ");
    let mut out: Vec<BlameLine> = Vec::new();
    let mut id = String::new();
    let mut author = String::new();
    let mut date = String::new();
    let mut k: usize = 0;
    while k < lines.len()
        invariant
            v@ == text@,
            ls == lines_of(text@),
            author_mark@ == "author "@,
            time_mark@ == "author-time "@,
            lines@.len() == ls.len(),
            forall|j: int|
                #![trigger lines@[j]]
                0 <= j < lines@.len() ==> lines@[j].0 <= lines@[j].1 && lines@[j].1 <= v@.len()
                    && v@.subrange(lines@[j].0 as int, lines@[j].1 as int) == ls[j],
            0 <= k <= lines@.len(),
            out@.map_values(|b: BlameLine| blame_view(b)) == blame_walk(ls.take(k as int)).0,
            id@ == blame_walk(ls.take(k as int)).1,
            author@ == blame_walk(ls.take(k as int)).2,
            date@ == blame_walk(ls.take(k as int)).3,
        decreases lines@.len() - k,
    {
        let (a, b) = lines[k];
        let ghost l = ls[k as int];
        proof {
            assert(v@.subrange(a as int, b as int) == l);
            assert(ls.take(k + 1).drop_last() =~= ls.take(k as int));
            assert(ls.take(k + 1).last() == l);
        }
        read_blame_line(v.as_slice(), a, b, &author_mark, &time_mark, &mut out, &mut id, &mut author, &mut date);
        k += 1;
    }
    proof {
        assert(ls.take(k as int) =~= ls);
    }
    out
}

// ---------------------------------------------------------------------
// Submodules and the reflog
// ---------------------------------------------------------------------
/// A letter or a digit of ASCII.
pub open spec fn is_ascii_alnum(c: char) -> bool {
    ('0' <= c && c <= '9') || ('a' <= c && c <= 'z') || ('A' <= c && c <= 'Z')
}

/// The mark of a submodule line: its first character, unless that is a
/// letter or a digit.
pub open spec fn submodule_state(line: Seq<char>) -> char {
    if line.len() > 0 && !is_ascii_alnum(line[0]) {
        line[0]
    } else {
        ' '
    }
}

/// A line of `submodule status` whose mark, when there is one, takes one
/// byte: the rest of the line starts after it.
pub open spec fn submodule_line_ok(line: Seq<char>) -> bool {
    submodule_state(line) != ' ' ==> (line[0] as u32) < 128
}

/// The submodule of one line of `submodule status`: the mark, then the
/// commit and the path as the first two words.
pub open spec fn submodule_of(line: Seq<char>) -> Option<(Seq<char>, Seq<char>, char)> {
    let state = submodule_state(line);
    let rest = if state == ' ' {
        line
    } else {
        line.drop_first()
    };
    let ws = words_of(rest);
    if ws.len() < 2 {
        None
    } else {
        Some((ws[1], first7(ws[0]), state))
    }
}

/// A submodule as plain values: path, short id, mark.
pub open spec fn submodule_view(e: SubmoduleEntry) -> (Seq<char>, Seq<char>, char) {
    (e.path@, e.id@, e.state)
}

/// The rows that the lines give, in order, leaving out the lines that
/// give none.
pub open spec fn rows_of<T>(ls: Seq<Seq<char>>, f: spec_fn(Seq<char>) -> Option<T>) -> Seq<T>
    decreases ls.len(),
{
    if ls.len() == 0 {
        seq![]
    } else {
        let rest = rows_of(ls.drop_last(), f);
        match f(ls.last()) {
            Some(x) => rest.push(x),
            None => rest,
        }
    }
}

/// Whether `c` is a letter or a digit of ASCII.
fn ascii_alnum(c: char) -> (r: bool)
    ensures
        r == is_ascii_alnum(c),
{
    ('0' <= c && c <= '9') || ('a' <= c && c <= 'z') || ('A' <= c && c <= 'Z')
}

/// Whether the mark of every line takes one byte.
pub fn submodule_lines_ok(out: &str) -> (r: bool)
    ensures
        r == forall|k: int| 0 <= k < lines_of(out@).len() ==> submodule_line_ok(#[trigger] lines_of(out@)[k]),
{
    let v = chars_of(out);
    let lines = line_ranges(v.as_slice());
    let ghost ls = lines_of(out@);
    let mut k: usize = 0;
    while k < lines.len()
        invariant
            v@ == out@,
            ls == lines_of(out@),
            lines@.len() == ls.len(),
            forall|j: int|
                #![trigger lines@[j]]
                0 <= j < lines@.len() ==> lines@[j].0 <= lines@[j].1 && lines@[j].1 <= v@.len()
                    && v@.subrange(lines@[j].0 as int, lines@[j].1 as int) == ls[j],
            0 <= k <= lines@.len(),
            forall|j: int| 0 <= j < k ==> submodule_line_ok(#[trigger] ls[j]),
        decreases lines@.len() - k,
    {
        let (a, b) = lines[k];
        assert(v@.subrange(a as int, b as int) == ls[k as int]);
        if b > a && !ascii_alnum(v[a]) && v[a] != ' ' && (v[a] as u32) >= 128 {
            assert(!submodule_line_ok(ls[k as int]));
            return false;
        }
        k += 1;
    }
    true
}

/// The submodules and their state, from the output of `submodule status`.
pub fn parse_submodules(out: &str) -> (r: Vec<SubmoduleEntry>)
    requires
        forall|k: int| 0 <= k < lines_of(out@).len() ==> submodule_line_ok(#[trigger] lines_of(out@)[k]),
    ensures
        r@.map_values(|e: SubmoduleEntry| submodule_view(e)) == rows_of(
            lines_of(out@),
            |l: Seq<char>| submodule_of(l),
        ),
{
    let v = chars_of(out);
    let lines = line_ranges(v.as_slice());
    let ghost ls = lines_of(out@);
    let ghost f = |l: Seq<char>| submodule_of(l);
    let mut list: Vec<SubmoduleEntry> = Vec::new();
    let mut k: usize = 0;
    while k < lines.len()
        invariant
            v@ == out@,
            ls == lines_of(out@),
            f == (|l: Seq<char>| submodule_of(l)),
            lines@.len() == ls.len(),
            forall|j: int|
                #![trigger lines@[j]]
                0 <= j < lines@.len() ==> lines@[j].0 <= lines@[j].1 && lines@[j].1 <= v@.len()
                    && v@.subrange(lines@[j].0 as int, lines@[j].1 as int) == ls[j],
            0 <= k <= lines@.len(),
            list@.map_values(|e: SubmoduleEntry| submodule_view(e)) == rows_of(ls.take(k as int), f),
        decreases lines@.len() - k,
    {
        let (a, b) = lines[k];
        let ghost l = ls[k as int];
        proof {
            assert(v@.subrange(a as int, b as int) == l);
            assert(ls.take(k + 1).drop_last() =~= ls.take(k as int));
            assert(ls.take(k + 1).last() == l);
        }
        let state = if b > a && !ascii_alnum(v[a]) {
            v[a]
        } else {
            ' '
        };
        let start = if state == ' ' {
            a
        } else {
            a + 1
        };
        proof {
            if state != ' ' {
                assert(l.drop_first() =~= v@.subrange(a + 1, b as int));
            }
        }
        let ghost before = list@.map_values(|e: SubmoduleEntry| submodule_view(e));
        match first_word(v.as_slice(), start, b) {
            Some((i0, i1)) => match first_word(v.as_slice(), i1, b) {
                Some((p0, p1)) => {
                    let entry = SubmoduleEntry {
                        id: first7_of(v.as_slice(), i0, i1),
                        path: string_of(v.as_slice(), p0, p1),
                        state,
                    };
                    list.push(entry);
                    proof {
                        assert(list@.map_values(|e: SubmoduleEntry| submodule_view(e)) =~= before.push(
                            submodule_view(entry),
                        ));
                    }
                },
                None => {},
            },
            None => {},
        }
        k += 1;
    }
    proof {
        assert(ls.take(k as int) =~= ls);
    }
    list
}

/// The entry of one line of the reflog: id, position and what happened,
/// cut at tabs. A line with no position gives none.
pub open spec fn reflog_of(line: Seq<char>) -> Option<(Seq<char>, Seq<char>, Seq<char>)> {
    let p = split_on(line, '\t');
    if p.len() < 2 {
        None
    } else {
        Some((p[0], p[1], field(p, 2)))
    }
}

/// A reflog entry as plain values.
pub open spec fn reflog_view(e: ReflogEntry) -> (Seq<char>, Seq<char>, Seq<char>) {
    (e.id@, e.at@, e.what@)
}

/// The recent positions of HEAD, from the output of
/// `reflog --format=%h%x09%gd%x09%gs`. It is the way back from a mistake.
pub fn parse_reflog(out: &str) -> (r: Vec<ReflogEntry>)
    ensures
        r@.map_values(|e: ReflogEntry| reflog_view(e)) == rows_of(
            lines_of(out@),
            |l: Seq<char>| reflog_of(l),
        ),
{
    let v = chars_of(out);
    let lines = line_ranges(v.as_slice());
    let ghost ls = lines_of(out@);
    let ghost f = |l: Seq<char>| reflog_of(l);
    let mut list: Vec<ReflogEntry> = Vec::new();
    let mut k: usize = 0;
    while k < lines.len()
        invariant
            v@ == out@,
            ls == lines_of(out@),
            f == (|l: Seq<char>| reflog_of(l)),
            lines@.len() == ls.len(),
            forall|j: int|
                #![trigger lines@[j]]
                0 <= j < lines@.len() ==> lines@[j].0 <= lines@[j].1 && lines@[j].1 <= v@.len()
                    && v@.subrange(lines@[j].0 as int, lines@[j].1 as int) == ls[j],
            0 <= k <= lines@.len(),
            list@.map_values(|e: ReflogEntry| reflog_view(e)) == rows_of(ls.take(k as int), f),
        decreases lines@.len() - k,
    {
        let (a, b) = lines[k];
        let ghost l = ls[k as int];
        proof {
            assert(v@.subrange(a as int, b as int) == l);
            assert(ls.take(k + 1).drop_last() =~= ls.take(k as int));
            assert(ls.take(k + 1).last() == l);
        }
        let parts = split_ranges(v.as_slice(), a, b, '\t');
        let ghost ps = split_on(l, '\t');
        let ghost before = list@.map_values(|e: ReflogEntry| reflog_view(e));
        if parts.len() >= 2 {
            let entry = ReflogEntry {
                id: field_exec(v.as_slice(), &parts, 0, Ghost(ps)),
                at: field_exec(v.as_slice(), &parts, 1, Ghost(ps)),
                what: field_exec(v.as_slice(), &parts, 2, Ghost(ps)),
            };
            list.push(entry);
            proof {
                assert(list@.map_values(|e: ReflogEntry| reflog_view(e)) =~= before.push(
                    reflog_view(entry),
                ));
            }
        }
        k += 1;
    }
    proof {
        assert(ls.take(k as int) =~= ls);
    }
    list
}

// ---------------------------------------------------------------------
// Worktrees
// ---------------------------------------------------------------------
/// The blocks of a text cut at each empty line (`str::split("\n\n")`).
pub open spec fn blocks_of(s: Seq<char>) -> Seq<Seq<char>>
    decreases s.len(),
{
    match find_seq(s, seq!['\n', '\n'], 0) {
        Some(i) => if 0 <= i && i + 2 <= s.len() {
            seq![s.take(i)] + blocks_of(s.skip(i + 2))
        } else {
            seq![s]
        },
        None => seq![s],
    }
}

/// `s` without each copy of `p` at its start.
pub open spec fn strip_all(s: Seq<char>, p: Seq<char>) -> Seq<char>
    decreases s.len(),
{
    if p.len() > 0 && starts_with(s, p) {
        strip_all(s.skip(p.len() as int), p)
    } else {
        s
    }
}

/// One line of a worktree block read into its path, branch, and the two
/// marks.
pub open spec fn worktree_step(st: (Seq<char>, Seq<char>, bool, bool), l: Seq<char>) -> (Seq<char>, Seq<char>, bool, bool) {
    let (path, branch, locked, prunable) = st;
    if starts_with(l, "worktree "@) {
        (l.skip(9), branch, locked, prunable)
    } else if starts_with(l, "branch "@) {
        (path, strip_all(l.skip(7), "refs/heads/"@), locked, prunable)
    } else if starts_with(l, "locked"@) {
        (path, branch, true, prunable)
    } else if starts_with(l, "prunable"@) {
        (path, branch, locked, true)
    } else if starts_with(l, "bare"@) {
        (path, "(bare)"@, locked, prunable)
    } else {
        st
    }
}

/// The lines of a worktree block read one after the other.
pub open spec fn worktree_walk(ls: Seq<Seq<char>>) -> (Seq<char>, Seq<char>, bool, bool)
    decreases ls.len(),
{
    if ls.len() == 0 {
        (seq![], "(detached)"@, false, false)
    } else {
        worktree_step(worktree_walk(ls.drop_last()), ls.last())
    }
}

/// The worktrees of the blocks: path, branch, main, locked, prunable. A
/// block with no path gives none. Git prints the main worktree first.
pub open spec fn worktree_rows(blocks: Seq<Seq<char>>) -> Seq<(Seq<char>, Seq<char>, bool, bool, bool)>
    decreases blocks.len(),
{
    if blocks.len() == 0 {
        seq![]
    } else {
        let rest = worktree_rows(blocks.drop_last());
        let w = worktree_walk(lines_of(blocks.last()));
        if w.0.len() > 0 {
            rest.push((w.0, w.1, rest.len() == 0, w.2, w.3))
        } else {
            rest
        }
    }
}

/// A worktree as plain values, all but whether it is the current one.
pub open spec fn worktree_view(e: WorktreeEntry) -> (Seq<char>, Seq<char>, bool, bool, bool) {
    (e.path@, e.branch@, e.main, e.locked, e.prunable)
}

/// `v[lo..hi]` without each copy of `p` at its start.
fn strip_all_exec(v: &[char], lo: usize, hi: usize, p: &[char]) -> (r: String)
    requires
        lo <= hi <= v@.len(),
        p@.len() > 0,
    ensures
        r@ == strip_all(v@.subrange(lo as int, hi as int), p@),
{
    let mut i = lo;
    while hi - i >= p.len() && matches_at(v, i, p)
        invariant
            lo <= i <= hi <= v@.len(),
            p@.len() > 0,
            strip_all(v@.subrange(lo as int, hi as int), p@) == strip_all(
                v@.subrange(i as int, hi as int),
                p@,
            ),
        decreases hi - i,
    {
        proof {
            assert(v@.subrange(i as int, hi as int).take(p@.len() as int) =~= v@.subrange(
                i as int,
                i + p@.len(),
            ));
            assert(v@.subrange(i as int, hi as int).skip(p@.len() as int) =~= v@.subrange(
                i + p@.len(),
                hi as int,
            ));
        }
        i += p.len();
    }
    proof {
        let t = v@.subrange(i as int, hi as int);
        if starts_with(t, p@) {
            assert(t.take(p@.len() as int) =~= v@.subrange(i as int, i + p@.len()));
        }
    }
    string_of(v, i, hi)
}

/// Read the lines of one worktree block.
fn read_worktree_block(block: &str) -> (r: (String, String, bool, bool))
    ensures
        (r.0@, r.1@, r.2, r.3) == worktree_walk(lines_of(block@)),
{
    let v = chars_of(block);
    let lines = line_ranges(v.as_slice());
    let ghost ls = lines_of(block@);
    let wt = chars_of("worktree ");
    let br = chars_of("branch ");
    let lk = chars_of("locked");
    let pr = chars_of("prunable");
    let ba = chars_of("bare");
    let heads = chars_of("refs/heads/");
    let mut path = String::new();
    let mut branch = string_from("(detached)");
    let mut locked = false;
    let mut prunable = false;
    proof {
        reveal_strlit("refs/heads/");
        reveal_strlit("worktree ");
        reveal_strlit("branch ");
        reveal_strlit("locked");
        reveal_strlit("prunable");
        reveal_strlit("bare");
    }
    let mut k: usize = 0;
    while k < lines.len()
        invariant
            v@ == block@,
            ls == lines_of(block@),
            wt@ == "worktree "@,
            br@ == "branch "@,
            lk@ == "locked"@,
            pr@ == "prunable"@,
            ba@ == "bare"@,
            heads@ == "refs/heads/"@,
            wt@.len() == 9,
            br@.len() == 7,
            heads@.len() == 11,
            lines@.len() == ls.len(),
            forall|j: int|
                #![trigger lines@[j]]
                0 <= j < lines@.len() ==> lines@[j].0 <= lines@[j].1 && lines@[j].1 <= v@.len()
                    && v@.subrange(lines@[j].0 as int, lines@[j].1 as int) == ls[j],
            0 <= k <= lines@.len(),
            (path@, branch@, locked, prunable) == worktree_walk(ls.take(k as int)),
        decreases lines@.len() - k,
    {
        let (a, b) = lines[k];
        let ghost l = ls[k as int];
        proof {
            assert(v@.subrange(a as int, b as int) == l);
            assert(ls.take(k + 1).drop_last() =~= ls.take(k as int));
            assert(ls.take(k + 1).last() == l);
        }
        let line = string_of(v.as_slice(), a, b);
        let lv = chars_of(line.as_str());
        if crate::text::starts_with_at(lv.as_slice(), wt.as_slice()) {
            path = string_of(lv.as_slice(), 9, lv.len());
            proof {
                assert(lv@.subrange(9, lv@.len() as int) =~= l.skip(9));
            }
        } else if crate::text::starts_with_at(lv.as_slice(), br.as_slice()) {
            branch = strip_all_exec(lv.as_slice(), 7, lv.len(), heads.as_slice());
            proof {
                assert(lv@.subrange(7, lv@.len() as int) =~= l.skip(7));
            }
        } else if crate::text::starts_with_at(lv.as_slice(), lk.as_slice()) {
            locked = true;
        } else if crate::text::starts_with_at(lv.as_slice(), pr.as_slice()) {
            prunable = true;
        } else if crate::text::starts_with_at(lv.as_slice(), ba.as_slice()) {
            branch = string_from("(bare)");
        }
        k += 1;
    }
    proof {
        assert(ls.take(k as int) =~= ls);
    }
    (path, branch, locked, prunable)
}

/// List the worktrees, from the output of `worktree list --porcelain`. The
/// output has one block for each worktree. A block has a "worktree" line
/// and often a "branch" line. Which worktree is the current one takes a
/// look at the disk, thus every row here says it is not.
pub fn parse_worktrees(text: &str) -> (r: Vec<WorktreeEntry>)
    ensures
        r@.map_values(|e: WorktreeEntry| worktree_view(e)) == worktree_rows(blocks_of(text@)),
        forall|k: int| 0 <= k < r@.len() ==> !(#[trigger] r@[k]).current,
{
    let v = chars_of(text);
    let m = vec!['\n', '\n'];
    let mut list: Vec<WorktreeEntry> = Vec::new();
    let mut start: usize = 0;
    let ghost mut done: Seq<Seq<char>> = seq![];
    proof {
        assert(m@ =~= seq!['\n', '\n']);
        assert(v@.skip(0) =~= v@);
    }
    loop
        invariant
            v@ == text@,
            m@ == seq!['\n', '\n'],
            start <= v@.len(),
            blocks_of(text@) == done + blocks_of(v@.skip(start as int)),
            list@.map_values(|e: WorktreeEntry| worktree_view(e)) == worktree_rows(done),
            forall|k: int| 0 <= k < list@.len() ==> !(#[trigger] list@[k]).current,
        decreases v@.len() - start,
    {
        let ghost rest = v@.skip(start as int);
        let found = find_within(v.as_slice(), start, v.len(), m.as_slice());
        let end = match found {
            Some(i) => i,
            None => v.len(),
        };
        proof {
            assert(rest =~= v@.subrange(start as int, v@.len() as int));
            crate::text::lemma_find_seq_bounds(rest, seq!['\n', '\n'], 0);
        }
        let block = string_of(v.as_slice(), start, end);
        let ghost b = block@;
        let (path, branch, locked, prunable) = read_worktree_block(block.as_str());
        let ghost before = list@.map_values(|e: WorktreeEntry| worktree_view(e));
        if !path.as_str().is_empty() {
            let main = list.len() == 0;
            let entry = WorktreeEntry { path, branch, current: false, main, locked, prunable };
            list.push(entry);
            proof {
                assert(list@.map_values(|e: WorktreeEntry| worktree_view(e)) =~= before.push(
                    worktree_view(entry),
                ));
            }
        }
        proof {
            assert(worktree_rows(done.push(b)).len() >= 0);
            assert(done.push(b).drop_last() =~= done);
            assert(done.push(b).last() == b);
        }
        match found {
            None => {
                proof {
                    assert(b =~= rest);
                    assert(blocks_of(rest) =~= seq![rest]);
                    done = done.push(b);
                    assert(blocks_of(text@) =~= done);
                }
                return list;
            },
            Some(i) => {
                proof {
                    assert(b =~= rest.take(i - start));
                    assert(rest.skip(i - start + 2) =~= v@.skip(i + 2));
                    assert(blocks_of(rest) =~= seq![b] + blocks_of(v@.skip(i + 2)));
                    assert(done + (seq![b] + blocks_of(v@.skip(i + 2))) =~= done.push(b) + blocks_of(
                        v@.skip(i + 2),
                    ));
                    done = done.push(b);
                }
                start = i + 2;
            },
        }
    }
}

// ---------------------------------------------------------------------
// Sync state
// ---------------------------------------------------------------------
/// A number, or zero when the text is none.
pub open spec fn num_or_zero(s: Seq<char>) -> u32 {
    match parse_uint(s, u32::MAX as nat) {
        Some(n) => n as u32,
        None => 0,
    }
}

/// The counts of `rev-list --left-right --count`: behind, then ahead,
/// cut at the first tab of the trimmed output. No output or no tab gives
/// zero counts.
pub open spec fn counts_of(out: Option<Seq<char>>) -> (u32, u32) {
    match out {
        None => (0, 0),
        Some(o) => {
            let t = crate::text::trim(o);
            match crate::text::find_char(t, '\t', 0) {
                None => (0, 0),
                Some(i) => (num_or_zero(t.take(i)), num_or_zero(t.skip(i + 1))),
            }
        },
    }
}

/// The range of the trimmed text.
fn trimmed(v: &[char]) -> (r: (usize, usize))
    ensures
        r.0 <= r.1 <= v@.len(),
        v@.subrange(r.0 as int, r.1 as int) == crate::text::trim(v@),
{
    let a = trim_start_pos(v, 0, v.len());
    let b = crate::text::trim_end_pos(v, a, v.len());
    proof {
        assert(v@.subrange(0, v@.len() as int) =~= v@);
    }
    (a, b)
}

/// Behind and ahead, from the output of
/// `rev-list --left-right --count @{upstream}...HEAD`.
pub fn sync_counts(out: Option<&str>) -> (r: (u32, u32))
    ensures
        r == counts_of(
            match out {
                Some(t) => Some(t@),
                None => None,
            },
        ),
{
    match out {
        None => (0, 0),
        Some(o) => {
            let v = chars_of(o);
            let (a, b) = trimmed(v.as_slice());
            let ghost t = v@.subrange(a as int, b as int);
            let mut i = a;
            while i < b && v[i] != '\t'
                invariant
                    a <= i <= b <= v@.len(),
                    forall|j: int| a <= j < i ==> v@[j] != '\t',
                decreases b - i,
            {
                i += 1;
            }
            if i == b {
                proof {
                    crate::text::lemma_find_char_none(t, '\t', 0);
                }
                return (0, 0);
            }
            proof {
                crate::text::lemma_find_char_is(t, '\t', 0, i - a);
                assert(t.take(i - a) =~= v@.subrange(a as int, i as int));
                assert(t.skip(i - a + 1) =~= v@.subrange(i + 1, b as int));
            }
            let behind = match parse_u32(v.as_slice(), a, i) {
                Some(n) => n,
                None => 0,
            };
            let ahead = match parse_u32(v.as_slice(), i + 1, b) {
                Some(n) => n,
                None => 0,
            };
            (behind, ahead)
        },
    }
}

/// The short ids of the commits that the upstream branch lacks: the first
/// seven characters of each line of `rev-list --abbrev-commit`, each id
/// once.
pub fn short_ids(out: Option<&str>) -> (r: Vec<String>)
    ensures
        views(r@) == distinct(
            match out {
                Some(t) => lines_of(t@).map_values(|l: Seq<char>| first7(l)),
                None => seq![],
            },
        ),
        views(r@).no_duplicates(),
{
    let list = all_short_ids(out);
    proof {
        lemma_distinct(views(list@));
    }
    distinct_texts(&list)
}

/// The short id of each line, in their order.
fn all_short_ids(out: Option<&str>) -> (r: Vec<String>)
    ensures
        views(r@) == match out {
            Some(t) => lines_of(t@).map_values(|l: Seq<char>| first7(l)),
            None => seq![],
        },
{
    let mut list: Vec<String> = Vec::new();
    match out {
        None => {
            proof {
                assert(views(list@) =~= Seq::<Seq<char>>::empty());
            }
            list
        },
        Some(o) => {
            let v = chars_of(o);
            let lines = line_ranges(v.as_slice());
            let ghost ls = lines_of(o@);
            let mut k: usize = 0;
            while k < lines.len()
                invariant
                    v@ == o@,
                    ls == lines_of(o@),
                    lines@.len() == ls.len(),
                    forall|j: int|
                        #![trigger lines@[j]]
                        0 <= j < lines@.len() ==> lines@[j].0 <= lines@[j].1 && lines@[j].1
                            <= v@.len() && v@.subrange(lines@[j].0 as int, lines@[j].1 as int)
                            == ls[j],
                    0 <= k <= lines@.len(),
                    views(list@) == ls.take(k as int).map_values(|l: Seq<char>| first7(l)),
                decreases lines@.len() - k,
            {
                let (a, b) = lines[k];
                assert(v@.subrange(a as int, b as int) == ls[k as int]);
                let id = first7_of(v.as_slice(), a, b);
                proof {
                    assert(views(list@.push(id)) =~= views(list@).push(id@));
                    assert(ls.take(k + 1).map_values(|l: Seq<char>| first7(l)) =~= ls.take(
                        k as int,
                    ).map_values(|l: Seq<char>| first7(l)).push(first7(ls[k as int])));
                }
                list.push(id);
                k += 1;
            }
            proof {
                assert(ls.take(k as int) =~= ls);
            }
            list
        },
    }
}

/// The upstream branch, such as "origin/main": the trimmed output of
/// `rev-parse --abbrev-ref @{upstream}`, when there is one.
pub fn upstream_of(out: Option<&str>) -> (r: Option<String>)
    ensures
        match out {
            Some(t) => if crate::text::trim(t@).len() > 0 {
                r matches Some(u) && u@ == crate::text::trim(t@)
            } else {
                r is None
            },
            None => r is None,
        },
{
    match out {
        None => None,
        Some(o) => {
            let v = chars_of(o);
            let (a, b) = trimmed(v.as_slice());
            if a == b {
                None
            } else {
                Some(string_of(v.as_slice(), a, b))
            }
        },
    }
}

} // verus!
