//! What the screen shows, worked out before it is drawn: where a window
//! sits, which rows of a list are in view, which key hints fit on the bar,
//! the color of each mark and lane, and the kind of each diff line. The
//! program around the library draws it.
pub mod words;

use vstd::prelude::*;

use crate::text::{chars_of, utf8_len_capped};

verus! {

/// A rectangle of terminal cells.
#[derive(Clone, Copy, PartialEq, Eq, Structural)]
pub struct Rect {
    pub x: u16,
    pub y: u16,
    pub width: u16,
    pub height: u16,
}

/// Put a box of the given size in the middle of an area; the box is never
/// larger than the area.
pub fn centered(area: Rect, w: u16, h: u16) -> (r: Rect)
    requires
        area.x + area.width <= u16::MAX,
        area.y + area.height <= u16::MAX,
    ensures
        r.width == if w < area.width { w } else { area.width },
        r.height == if h < area.height { h } else { area.height },
        r.x == area.x + (area.width - r.width) / 2,
        r.y == area.y + (area.height - r.height) / 2,
{
    let w = if w < area.width { w } else { area.width };
    let h = if h < area.height { h } else { area.height };
    let dx = (area.width - w) / 2;
    let dy = (area.height - h) / 2;
    Rect { x: area.x + dx, y: area.y + dy, width: w, height: h }
}

/// The box that `centered` gives lies inside the area, whatever size was
/// asked for.
pub proof fn lemma_centered_inside(area: Rect, r: Rect, w: u16, h: u16)
    requires
        area.x + area.width <= u16::MAX,
        area.y + area.height <= u16::MAX,
        r.width == if w < area.width { w } else { area.width },
        r.height == if h < area.height { h } else { area.height },
        r.x == area.x + (area.width - r.width) / 2,
        r.y == area.y + (area.height - r.height) / 2,
    ensures
        area.x <= r.x,
        r.x + r.width <= area.x + area.width,
        area.y <= r.y,
        r.y + r.height <= area.y + area.height,
{
}

/// The first row in view of a list of `len` rows that shows `visible`
/// rows at once. The selected row stays in view; after a scroll it stays
/// at the bottom edge.
pub open spec fn offset_of(selected: int, visible: int, len: int) -> int {
    let a = if selected >= visible - 1 {
        selected - (visible - 1)
    } else {
        0
    };
    let b = if len >= visible {
        len - visible
    } else {
        0
    };
    if a < b {
        a
    } else {
        b
    }
}

/// The first row in view of a list.
pub fn list_offset(selected: usize, visible: usize, len: usize) -> (r: usize)
    requires
        visible > 0,
    ensures
        r == offset_of(selected as int, visible as int, len as int),
{
    let a = if selected >= visible - 1 {
        selected - (visible - 1)
    } else {
        0
    };
    let b = if len >= visible {
        len - visible
    } else {
        0
    };
    if a < b {
        a
    } else {
        b
    }
}

/// The selected row is in view when it is a row of the list.
pub proof fn lemma_selection_in_view(selected: int, visible: int, len: int)
    requires
        visible > 0,
        0 <= selected < len,
    ensures
        offset_of(selected, visible, len) <= selected < offset_of(selected, visible, len) + visible,
{
}

/// The color of each graph lane: two columns make a lane, and the palette
/// of six colors repeats.
pub open spec fn lane_of(column: int) -> int {
    (column / 2) % 6
}

/// The palette entry of each character of a graph row.
pub fn graph_colors(graph: &str) -> (r: Vec<(char, usize)>)
    ensures
        r@.len() == graph@.len(),
        forall|i: int|
            0 <= i < r@.len() ==> (#[trigger] r@[i]).0 == graph@[i] && r@[i].1 == lane_of(i),
{
    let v = chars_of(graph);
    let mut out: Vec<(char, usize)> = Vec::new();
    let mut i: usize = 0;
    while i < v.len()
        invariant
            v@ == graph@,
            0 <= i <= v@.len(),
            out@.len() == i,
            forall|j: int| 0 <= j < i ==> (#[trigger] out@[j]).0 == v@[j] && out@[j].1 == lane_of(j),
        decreases v@.len() - i,
    {
        out.push((v[i], (i / 2) % 6));
        i += 1;
    }
    out
}

/// The tones of the marks of the status.
#[derive(Clone, Copy, PartialEq, Eq, Structural)]
pub enum Tone {
    Green,
    Yellow,
    Red,
    Magenta,
    Cyan,
    LightRed,
    DarkGray,
}

/// The tone of a mark: added green, changed yellow, removed red, renamed
/// or copied magenta, a type change cyan, a conflict light red.
pub fn mark_tone(mark: char) -> (r: Tone)
    ensures
        r == match mark {
            'A' => Tone::Green,
            'M' => Tone::Yellow,
            'D' => Tone::Red,
            'R' | 'C' => Tone::Magenta,
            'T' => Tone::Cyan,
            'U' => Tone::LightRed,
            _ => Tone::DarkGray,
        },
{
    match mark {
        'A' => Tone::Green,
        'M' => Tone::Yellow,
        'D' => Tone::Red,
        'R' | 'C' => Tone::Magenta,
        'T' => Tone::Cyan,
        'U' => Tone::LightRed,
        _ => Tone::DarkGray,
    }
}

/// The kinds of lines in the diff pane.
#[derive(Clone, Copy, PartialEq, Eq, Structural)]
pub enum LineKind {
    /// A file header: `diff`, `index`, `---`, `+++`.
    Header,
    /// A line about a commit: `commit`, `Author`, `Date`, `Merge`.
    Meta,
    Added,
    Removed,
    Hunk,
    Plain,
}

/// The kind of a diff line. File header lines come before the +/- check:
/// a `---` line is a header, not a removal.
pub open spec fn kind_of(l: Seq<char>) -> LineKind {
    if crate::text::starts_with(l, "diff "@) || crate::text::starts_with(l, "index "@)
        || crate::text::starts_with(l, "--- "@) || crate::text::starts_with(l, "+++ "@) {
        LineKind::Header
    } else if crate::text::starts_with(l, "commit "@) || crate::text::starts_with(l, "Author"@)
        || crate::text::starts_with(l, "Date"@) || crate::text::starts_with(l, "Merge"@) {
        LineKind::Meta
    } else if l.len() > 0 && l[0] == '+' {
        LineKind::Added
    } else if l.len() > 0 && l[0] == '-' {
        LineKind::Removed
    } else if l.len() > 0 && l[0] == '@' {
        LineKind::Hunk
    } else {
        LineKind::Plain
    }
}

/// Whether the line starts with the text.
fn begins(v: &Vec<char>, p: &str) -> (r: bool)
    ensures
        r == crate::text::starts_with(v@, p@),
{
    let pv = chars_of(p);
    crate::text::starts_with_at(v.as_slice(), pv.as_slice())
}

/// The kind of a diff line.
pub fn line_kind(line: &str) -> (r: LineKind)
    ensures
        r == kind_of(line@),
{
    let v = chars_of(line);
    if begins(&v, "diff ") || begins(&v, "index ") || begins(&v, "--- ") || begins(&v, "+++ ") {
        LineKind::Header
    } else if begins(&v, "commit ") || begins(&v, "Author") || begins(&v, "Date") || begins(
        &v,
        "Merge",
    ) {
        LineKind::Meta
    } else if v.len() > 0 && v[0] == '+' {
        LineKind::Added
    } else if v.len() > 0 && v[0] == '-' {
        LineKind::Removed
    } else if v.len() > 0 && v[0] == '@' {
        LineKind::Hunk
    } else {
        LineKind::Plain
    }
}

/// The rows that a text of `n` characters takes when it wraps at `width`
/// columns: at least one.
pub open spec fn rows_for(n: nat, width: nat) -> nat {
    let r = (n + width - 1) / width as int;
    if r < 1 {
        1
    } else {
        r as nat
    }
}

/// The rows that a line takes when it wraps at `width` columns.
pub fn wrapped_rows(text: &str, width: usize) -> (r: usize)
    requires
        width > 0,
    ensures
        r == rows_for(text@.len(), width as nat),
{
    let n = chars_of(text).len();
    let q = n / width;
    let more = n % width > 0;
    if more {
        assert(q < usize::MAX) by (nonlinear_arith)
            requires
                width > 0,
                q == n / width,
                n % width > 0,
                n <= usize::MAX,
        ;
    }
    let r = if more {
        q + 1
    } else {
        q
    };
    assert(r == (n + width - 1) / width as int) by (nonlinear_arith)
        requires
            width > 0,
            q == n / width,
            more == (n % width > 0),
            r == if more {
                q + 1
            } else {
                q as int
            },
    ;
    if r < 1 {
        1
    } else {
        r
    }
}

/// The length of a text in bytes, or `cap` when it is more.
fn byte_len(s: &str, cap: usize) -> (r: usize)
    ensures
        r == if vstd::utf8::encode_utf8(s@).len() <= cap {
            vstd::utf8::encode_utf8(s@).len()
        } else {
            cap as nat
        },
{
    let v = chars_of(s);
    proof {
        assert(v@.subrange(0, v@.len() as int) =~= s@);
    }
    utf8_len_capped(v.as_slice(), 0, v.len(), cap)
}

/// The width that a hint takes: `desc: key`, with ` | ` before it when it
/// is not the first.
pub open spec fn hint_need(first: bool, key: Seq<char>, desc: Seq<char>) -> int {
    (if first {
        0int
    } else {
        3int
    }) + vstd::utf8::encode_utf8(desc).len() + 2 + vstd::utf8::encode_utf8(key).len()
}

/// The walk over the hints of one group: the hints shown so far, the
/// width they use, and whether one stayed out. A hint that does not fit
/// ends the group; the next group still tries its own hints.
pub open spec fn hint_walk(
    hs: Seq<(Seq<char>, Seq<char>)>,
    limit: int,
    shown: Seq<(Seq<char>, Seq<char>)>,
    used: int,
    dropped: bool,
) -> (Seq<(Seq<char>, Seq<char>)>, int, bool)
    decreases hs.len(),
{
    if hs.len() == 0 {
        (shown, used, dropped)
    } else {
        let (key, desc) = hs[0];
        let need = hint_need(shown.len() == 0, key, desc);
        if used + need > limit {
            (shown, used, true)
        } else {
            hint_walk(hs.drop_first(), limit, shown.push((key, desc)), used + need, dropped)
        }
    }
}

/// The walk over all groups.
pub open spec fn groups_walk(
    gs: Seq<Seq<(Seq<char>, Seq<char>)>>,
    limit: int,
    shown: Seq<(Seq<char>, Seq<char>)>,
    used: int,
    dropped: bool,
) -> (Seq<(Seq<char>, Seq<char>)>, int, bool)
    decreases gs.len(),
{
    if gs.len() == 0 {
        (shown, used, dropped)
    } else {
        let (s, u, d) = hint_walk(gs[0], limit, shown, used, dropped);
        groups_walk(gs.drop_first(), limit, s, u, d)
    }
}

/// The hints that fit on a bar of `width` columns, one column kept free
/// for the mark that says "there is more", and whether one stayed out.
pub open spec fn hints_fit(gs: Seq<Seq<(Seq<char>, Seq<char>)>>, width: int) -> (Seq<(Seq<char>, Seq<char>)>, bool) {
    let limit = if width >= 2 {
        width - 2
    } else {
        0
    };
    let (s, u, d) = groups_walk(gs, limit, seq![], 0, false);
    (s, d)
}

/// The width that a line of hints takes.
pub open spec fn line_width(shown: Seq<(Seq<char>, Seq<char>)>) -> int
    decreases shown.len(),
{
    if shown.len() == 0 {
        0
    } else {
        line_width(shown.drop_last()) + hint_need(
            shown.len() == 1,
            shown.last().0,
            shown.last().1,
        )
    }
}

proof fn lemma_hint_walk_width(
    hs: Seq<(Seq<char>, Seq<char>)>,
    limit: int,
    shown: Seq<(Seq<char>, Seq<char>)>,
    used: int,
    dropped: bool,
)
    requires
        used == line_width(shown),
        used <= limit,
    ensures
        hint_walk(hs, limit, shown, used, dropped).1 == line_width(
            hint_walk(hs, limit, shown, used, dropped).0,
        ),
        hint_walk(hs, limit, shown, used, dropped).1 <= limit,
    decreases hs.len(),
{
    if hs.len() > 0 {
        let (key, desc) = hs[0];
        let need = hint_need(shown.len() == 0, key, desc);
        if used + need <= limit {
            let s2 = shown.push((key, desc));
            assert(s2.drop_last() =~= shown);
            lemma_hint_walk_width(hs.drop_first(), limit, s2, used + need, dropped);
        }
    }
}

proof fn lemma_groups_walk_width(
    gs: Seq<Seq<(Seq<char>, Seq<char>)>>,
    limit: int,
    shown: Seq<(Seq<char>, Seq<char>)>,
    used: int,
    dropped: bool,
)
    requires
        used == line_width(shown),
        used <= limit,
    ensures
        groups_walk(gs, limit, shown, used, dropped).1 == line_width(
            groups_walk(gs, limit, shown, used, dropped).0,
        ),
        groups_walk(gs, limit, shown, used, dropped).1 <= limit,
    decreases gs.len(),
{
    if gs.len() > 0 {
        lemma_hint_walk_width(gs[0], limit, shown, used, dropped);
        let (s, u, d) = hint_walk(gs[0], limit, shown, used, dropped);
        lemma_groups_walk_width(gs.drop_first(), limit, s, u, d);
    }
}

/// The bar never runs off the screen: the hints that stay take at most
/// the width less two columns, which the mark that says there is more
/// needs.
pub proof fn lemma_hints_fit_width(gs: Seq<Seq<(Seq<char>, Seq<char>)>>, width: int)
    requires
        width >= 2,
    ensures
        line_width(hints_fit(gs, width).0) <= width - 2,
{
    lemma_groups_walk_width(gs, width - 2, seq![], 0, false);
}

/// The views of groups of hints.
pub open spec fn hint_views(gs: Seq<Vec<(String, String)>>) -> Seq<Seq<(Seq<char>, Seq<char>)>> {
    gs.map_values(|g: Vec<(String, String)>| g@.map_values(|h: (String, String)| (h.0@, h.1@)))
}

/// The key hints, each a key and what it does, that fit on a bar of
/// `width` columns, and whether one stayed out. A hint that does not fit
/// stays out, thus the bar never runs off the screen.
pub fn hint_line_width(groups: &Vec<Vec<(String, String)>>, width: usize) -> (r: (Vec<(String, String)>, bool))
    ensures
        (r.0@.map_values(|h: (String, String)| (h.0@, h.1@)), r.1) == hints_fit(
            hint_views(groups@),
            width as int,
        ),
{
    let limit = if width >= 2 {
        width - 2
    } else {
        0
    };
    let ghost gv = hint_views(groups@);
    let mut shown: Vec<(String, String)> = Vec::new();
    let mut used: usize = 0;
    let mut dropped = false;
    let mut g: usize = 0;
    proof {
        assert(shown@.map_values(|h: (String, String)| (h.0@, h.1@)) =~= Seq::<(Seq<char>, Seq<char>)>::empty());
        assert(gv.skip(0) =~= gv);
    }
    while g < groups.len()
        invariant
            gv == hint_views(groups@),
            0 <= g <= groups@.len(),
            used <= limit,
            limit == (if width >= 2 { width - 2 } else { 0 }),
            groups_walk(gv, limit as int, seq![], 0, false) == groups_walk(
                gv.skip(g as int),
                limit as int,
                shown@.map_values(|h: (String, String)| (h.0@, h.1@)),
                used as int,
                dropped,
            ),
        decreases groups@.len() - g,
    {
        let group = &groups[g];
        let ghost hs = group@.map_values(|h: (String, String)| (h.0@, h.1@));
        proof {
            assert(gv.skip(g as int)[0] == hs);
            assert(gv.skip(g as int).drop_first() =~= gv.skip(g + 1));
        }
        let mut i: usize = 0;
        proof {
            assert(hs.skip(0) =~= hs);
        }
        loop
            invariant
                gv == hint_views(groups@),
                hs == group@.map_values(|h: (String, String)| (h.0@, h.1@)),
                0 <= i <= group@.len(),
                used <= limit,
                limit == (if width >= 2 { width - 2 } else { 0 }),
                groups_walk(gv, limit as int, seq![], 0, false) == groups_walk(
                    gv.skip(g + 1),
                    limit as int,
                    hint_walk(
                        hs.skip(i as int),
                        limit as int,
                        shown@.map_values(|h: (String, String)| (h.0@, h.1@)),
                        used as int,
                        dropped,
                    ).0,
                    hint_walk(
                        hs.skip(i as int),
                        limit as int,
                        shown@.map_values(|h: (String, String)| (h.0@, h.1@)),
                        used as int,
                        dropped,
                    ).1,
                    hint_walk(
                        hs.skip(i as int),
                        limit as int,
                        shown@.map_values(|h: (String, String)| (h.0@, h.1@)),
                        used as int,
                        dropped,
                    ).2,
                ),
            ensures
                hint_walk(
                    hs.skip(i as int),
                    limit as int,
                    shown@.map_values(|h: (String, String)| (h.0@, h.1@)),
                    used as int,
                    dropped,
                ) == (shown@.map_values(|h: (String, String)| (h.0@, h.1@)), used as int, dropped),
            decreases group@.len() - i,
        {
            if i == group.len() {
                proof {
                    assert(hs.skip(i as int) =~= Seq::<(Seq<char>, Seq<char>)>::empty());
                    let sv = shown@.map_values(|h: (String, String)| (h.0@, h.1@));
                    assert(hint_walk(hs.skip(i as int), limit as int, sv, used as int, dropped) == (
                        sv,
                        used as int,
                        dropped,
                    ));
                }
                break;
            }
            let (key, desc) = (&group[i].0, &group[i].1);
            let ghost sv = shown@.map_values(|h: (String, String)| (h.0@, h.1@));
            proof {
                assert(hs.skip(i as int)[0] == (key@, desc@));
                assert(hs.skip(i as int).drop_first() =~= hs.skip(i + 1));
            }
            let sep: usize = if shown.len() == 0 {
                0
            } else {
                3
            };
            let room = limit - used;
            // Each part is counted up to one more than the room, thus a
            // hint that does not fit shows itself without an overflow.
            let dl = byte_len(desc.as_str(), room + 1);
            let kl = byte_len(key.as_str(), room + 1);
            let fits = sep <= room && dl <= room - sep && 2 <= room - sep - dl && kl <= room - sep - dl
                - 2;
            if !fits {
                proof {
                    assert(used + hint_need(sv.len() == 0, key@, desc@) > limit);
                    assert(hint_walk(hs.skip(i as int), limit as int, sv, used as int, dropped) == (
                        sv,
                        used as int,
                        true,
                    ));
                }
                dropped = true;
                proof {
                    assert(hs.skip(i as int).len() > 0);
                    assert(hint_walk(hs.skip(i as int), limit as int, sv, used as int, dropped) == (
                        sv,
                        used as int,
                        true,
                    ));
                }
                break;
            }
            let need = sep + dl + 2 + kl;
            shown.push((key.clone(), desc.clone()));
            proof {
                assert(shown@.map_values(|h: (String, String)| (h.0@, h.1@)) =~= sv.push(
                    (key@, desc@),
                ));
            }
            used = used + need;
            i += 1;
        }
        g += 1;
    }
    proof {
        assert(gv.skip(g as int) =~= Seq::<Seq<(Seq<char>, Seq<char>)>>::empty());
    }
    (shown, dropped)
}

} // verus!
