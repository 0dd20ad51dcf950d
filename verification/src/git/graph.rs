//! Lane engine for the commit graph. Each commit gets one text row of
//! box-drawing glyphs. The engine holds one lane for each open branch line.
//! The caller feeds commits in walk order and stores the returned row.
use vstd::prelude::*;

use crate::text::{
    is_ws, lemma_trim_end_keeps, lemma_trim_end_len, push_range, trim_end, trim_end_pos,
};
use vstd::laws_eq::obeys_concrete_eq;

verus! {

/// The first lane at or after `from` that holds `x`.
pub open spec fn find_lane<T>(lanes: Seq<Option<T>>, x: Option<T>, from: int) -> Option<int>
    decreases lanes.len() - from,
{
    if from < 0 || from >= lanes.len() {
        None
    } else if lanes[from] == x {
        Some(from)
    } else {
        find_lane(lanes, x, from + 1)
    }
}

pub proof fn lemma_find_lane<T>(lanes: Seq<Option<T>>, x: Option<T>, from: int)
    requires
        0 <= from,
    ensures
        match find_lane(lanes, x, from) {
            Some(i) => from <= i < lanes.len() && lanes[i] == x && forall|j: int|
                from <= j < i ==> lanes[j] != x,
            None => forall|j: int| from <= j < lanes.len() ==> lanes[j] != x,
        },
    decreases lanes.len() - from,
{
    if from < lanes.len() && lanes[from] != x {
        lemma_find_lane(lanes, x, from + 1);
    }
}

pub proof fn lemma_find_lane_is<T>(lanes: Seq<Option<T>>, x: Option<T>, from: int, i: int)
    requires
        0 <= from <= i <= lanes.len(),
        i < lanes.len() ==> lanes[i] == x,
        forall|j: int| from <= j < i ==> lanes[j] != x,
    ensures
        find_lane(lanes, x, from) == (if i < lanes.len() {
            Some(i)
        } else {
            None::<int>
        }),
    decreases i - from,
{
    if from < i {
        lemma_find_lane_is(lanes, x, from + 1, i);
    }
}

/// The lane of the commit: the first lane that waits for it, else a new
/// lane at the end.
pub open spec fn take_col<T>(lanes: Seq<Option<T>>, id: T) -> (Seq<Option<T>>, int) {
    match find_lane(lanes, Some(id), 0) {
        Some(c) => (lanes, c),
        None => (lanes.push(Some(id)), lanes.len() as int),
    }
}

/// Each parent after the first is a merge source. It points to the lane
/// that waits for it, else it opens a lane in the first free slot, else at
/// the end. The result: the lanes, the merge lanes, the opened lanes.
pub open spec fn place_parents<T>(lanes: Seq<Option<T>>, ps: Seq<T>) -> (
    Seq<Option<T>>,
    Seq<int>,
    Seq<int>,
)
    decreases ps.len(),
{
    if ps.len() == 0 {
        (lanes, seq![], seq![])
    } else {
        let (l, m, o) = place_parents(lanes, ps.drop_last());
        let p = ps.last();
        match find_lane(l, Some(p), 0) {
            Some(i) => (l, m.push(i), o),
            None => match find_lane(l, None, 0) {
                Some(i) => (l.update(i, Some(p)), m, o.push(i)),
                None => (l.push(Some(p)), m, o.push(l.len() as int)),
            },
        }
    }
}

/// The lanes of a row once the commit took its lane and its first parent
/// went into it.
pub open spec fn lanes_with_first<T>(lanes: Seq<Option<T>>, id: T, parents: Seq<T>) -> Seq<
    Option<T>,
> {
    let (l1, col) = take_col(lanes, id);
    l1.update(col, if parents.len() > 0 {
        Some(parents[0])
    } else {
        None
    })
}

/// A lane other than the commit's own that waits for the same commit: it
/// joins on this row.
pub open spec fn is_join<T>(lanes: Seq<Option<T>>, id: T, k: int) -> bool {
    let (l1, col) = take_col(lanes, id);
    0 <= k < l1.len() && k != col && l1[k] == Some(id)
}

/// The parents after the first.
pub open spec fn other_parents<T>(parents: Seq<T>) -> Seq<T> {
    if parents.len() > 0 {
        parents.skip(1)
    } else {
        seq![]
    }
}

pub open spec fn parts<T>(lanes: Seq<Option<T>>, id: T, parents: Seq<T>) -> (
    Seq<Option<T>>,
    Seq<int>,
    Seq<int>,
) {
    place_parents(lanes_with_first(lanes, id, parents), other_parents(parents))
}

pub proof fn lemma_place_parents_len<T>(lanes: Seq<Option<T>>, ps: Seq<T>)
    ensures
        lanes.len() <= place_parents(lanes, ps).0.len() <= lanes.len() + ps.len(),
        forall|k: int|
            0 <= k < place_parents(lanes, ps).1.len() ==> 0 <= #[trigger] place_parents(
                lanes,
                ps,
            ).1[k] < place_parents(lanes, ps).0.len(),
        forall|k: int|
            0 <= k < place_parents(lanes, ps).2.len() ==> 0 <= #[trigger] place_parents(
                lanes,
                ps,
            ).2[k] < place_parents(lanes, ps).0.len(),
        forall|k: int|
            0 <= k < lanes.len() && lanes[k] is Some ==> place_parents(lanes, ps).0[k] == lanes[k],
    decreases ps.len(),
{
    if ps.len() > 0 {
        lemma_place_parents_len(lanes, ps.drop_last());
        let (l, m, o) = place_parents(lanes, ps.drop_last());
        lemma_find_lane(l, Some(ps.last()), 0);
        lemma_find_lane(l, None, 0);
    }
}

/// A lane that the row draws an edge to.
pub open spec fn is_target<T>(lanes: Seq<Option<T>>, id: T, parents: Seq<T>, k: int) -> bool {
    let (_, m, o) = parts(lanes, id, parents);
    is_join(lanes, id, k) || m.contains(k) || o.contains(k)
}

/// Position `p` lies inside the horizontal edge from the commit to some
/// target lane.
pub open spec fn covered<T>(lanes: Seq<Option<T>>, id: T, parents: Seq<T>, p: int) -> bool {
    let col = take_col(lanes, id).1;
    exists|t: int|
        #![trigger is_target(lanes, id, parents, t)]
        is_target(lanes, id, parents, t) && 2 * (if col < t {
            col
        } else {
            t
        }) + 1 <= p < 2 * (if col < t {
            t
        } else {
            col
        })
}

/// The number of lanes the row spans.
pub open spec fn row_width<T>(lanes: Seq<Option<T>>, id: T, parents: Seq<T>) -> int {
    let l1 = take_col(lanes, id).0;
    let l3 = parts(lanes, id, parents).0;
    if l3.len() < l1.len() {
        l1.len() as int
    } else {
        l3.len() as int
    }
}

/// The glyph at position `p` of the row: a vertical bar for each lane that
/// was open, horizontal edges to the targets, the end glyphs of the joined,
/// merged and opened lanes, and the commit's own dot.
pub open spec fn cell<T>(lanes: Seq<Option<T>>, id: T, parents: Seq<T>, p: int) -> char {
    let (l1, col) = take_col(lanes, id);
    let (_, m, o) = parts(lanes, id, parents);
    let active = p % 2 == 0 && p / 2 < l1.len() && l1[p / 2] is Some;
    let base = if active {
        '│'
    } else {
        ' '
    };
    let h = if covered(lanes, id, parents, p) {
        if p % 2 == 1 {
            '─'
        } else if active {
            '┼'
        } else {
            base
        }
    } else {
        base
    };
    if p % 2 == 0 {
        let k = p / 2;
        if k == col {
            if parents.len() > 1 {
                '◉'
            } else {
                '●'
            }
        } else if o.contains(k) {
            if k > col {
                '╮'
            } else {
                '╭'
            }
        } else if m.contains(k) {
            if k > col {
                '┤'
            } else {
                '├'
            }
        } else if is_join(lanes, id, k) {
            if k > col {
                '╯'
            } else {
                '╰'
            }
        } else {
            h
        }
    } else {
        h
    }
}

/// The text of the row that a commit gets, trailing blanks cut.
pub open spec fn row_text<T>(lanes: Seq<Option<T>>, id: T, parents: Seq<T>) -> Seq<char> {
    trim_end(
        Seq::new(
            (2 * row_width(lanes, id, parents) - 1) as nat,
            |p: int| cell(lanes, id, parents, p),
        ),
    )
}

/// The lanes with their free lanes at the end taken away.
pub open spec fn drop_free_tail<T>(lanes: Seq<Option<T>>) -> Seq<Option<T>>
    decreases lanes.len(),
{
    if lanes.len() > 0 && lanes.last() is None {
        drop_free_tail(lanes.drop_last())
    } else {
        lanes
    }
}

/// The lanes after the row: the joined lanes close, and free lanes at the
/// end go away.
pub open spec fn lanes_after<T>(lanes: Seq<Option<T>>, id: T, parents: Seq<T>) -> Seq<Option<T>> {
    let l3 = parts(lanes, id, parents).0;
    drop_free_tail(
        Seq::new(
            l3.len(),
            |k: int|
                if is_join(lanes, id, k) {
                    None
                } else {
                    l3[k]
                },
        ),
    )
}

/// The edge from the commit's lane `col` to lane `t` covers position `p`.
pub open spec fn spans(col: int, t: int, p: int) -> bool {
    2 * (if col < t {
        col
    } else {
        t
    }) + 1 <= p < 2 * (if col < t {
        t
    } else {
        col
    })
}

fn spans_exec(col: usize, t: usize, p: usize) -> (r: bool)
    requires
        col <= usize::MAX / 4,
        t <= usize::MAX / 4,
    ensures
        r == spans(col as int, t as int, p as int),
{
    let (lo, hi) = if col < t {
        (col, t)
    } else {
        (t, col)
    };
    2 * lo + 1 <= p && p < 2 * hi
}

proof fn lemma_map_contains(s: Seq<usize>, k: usize)
    ensures
        s.map_values(|x: usize| x as int).contains(k as int) <==> s.contains(k),
{
    let m = s.map_values(|x: usize| x as int);
    if m.contains(k as int) {
        let w = choose|w: int| 0 <= w < m.len() && m[w] == k as int;
        assert(s[w] == k);
    }
    if s.contains(k) {
        let w = choose|w: int| 0 <= w < s.len() && s[w] == k;
        assert(m[w] == k as int);
    }
}

/// The glyphs of a row, from the parts that `Graph::row` worked out.
fn draw<T: PartialEq + Copy>(
    Ghost(lanes0): Ghost<Seq<Option<T>>>,
    id: &T,
    parents: &[T],
    col: usize,
    joins: &Vec<usize>,
    merges: &Vec<usize>,
    opened: &Vec<usize>,
    old_active: &Vec<bool>,
    width: usize,
) -> (cells: Vec<char>)
    requires
        width == row_width(lanes0, *id, parents@),
        width + 2 <= usize::MAX / 4,
        col == take_col(lanes0, *id).1,
        old_active@.len() == take_col(lanes0, *id).0.len(),
        forall|k: int|
            0 <= k < old_active@.len() ==> old_active@[k] == (take_col(lanes0, *id).0[k] is Some),
        forall|y: usize| joins@.contains(y) <==> is_join(lanes0, *id, y as int),
        merges@.map_values(|x: usize| x as int) == parts(lanes0, *id, parents@).1,
        opened@.map_values(|x: usize| x as int) == parts(lanes0, *id, parents@).2,
        forall|k: int| 0 <= k < joins@.len() ==> #[trigger] joins@[k] < width,
        forall|k: int| 0 <= k < merges@.len() ==> #[trigger] merges@[k] < width,
        forall|k: int| 0 <= k < opened@.len() ==> #[trigger] opened@[k] < width,
        col < width,
    ensures
        cells@ == Seq::new((2 * width - 1) as nat, |p: int| cell(lanes0, *id, parents@, p)),
{
    let ghost (l1, _) = take_col(lanes0, *id);
    let ghost (_, m, o) = parts(lanes0, *id, parents@);
    // Every lane that the row draws an edge to.
    let mut targets: Vec<usize> = Vec::new();
    let mut i: usize = 0;
    while i < joins.len()
        invariant
            0 <= i <= joins@.len(),
            targets@ == joins@.take(i as int),
        decreases joins@.len() - i,
    {
        targets.push(joins[i]);
        i += 1;
        assert(targets@ =~= joins@.take(i as int));
    }
    let mut i: usize = 0;
    while i < merges.len()
        invariant
            0 <= i <= merges@.len(),
            targets@ == joins@ + merges@.take(i as int),
        decreases merges@.len() - i,
    {
        targets.push(merges[i]);
        i += 1;
        assert(targets@ =~= joins@ + merges@.take(i as int));
    }
    let mut i: usize = 0;
    while i < opened.len()
        invariant
            0 <= i <= opened@.len(),
            targets@ == joins@ + merges@ + opened@.take(i as int),
        decreases opened@.len() - i,
    {
        targets.push(opened[i]);
        i += 1;
        assert(targets@ =~= joins@ + merges@ + opened@.take(i as int));
    }
    proof {
        assert(joins@.take(joins@.len() as int) =~= joins@);
        assert(merges@.take(merges@.len() as int) =~= merges@);
        assert(opened@.take(opened@.len() as int) =~= opened@);
        assert forall|t: usize| targets@.contains(t) <==> is_target(
            lanes0,
            *id,
            parents@,
            t as int,
        ) by {
            lemma_map_contains(merges@, t);
            lemma_map_contains(opened@, t);
            if targets@.contains(t) {
                let w = choose|w: int| 0 <= w < targets@.len() && targets@[w] == t;
                if w < joins@.len() {
                    assert(joins@[w] == t);
                } else if w < joins@.len() + merges@.len() {
                    assert(merges@[w - joins@.len()] == t);
                } else {
                    assert(opened@[w - joins@.len() - merges@.len()] == t);
                }
            }
            if joins@.contains(t) {
                let w = choose|w: int| 0 <= w < joins@.len() && joins@[w] == t;
                assert(targets@[w] == t);
            }
            if merges@.contains(t) {
                let w = choose|w: int| 0 <= w < merges@.len() && merges@[w] == t;
                assert(targets@[joins@.len() + w] == t);
            }
            if opened@.contains(t) {
                let w = choose|w: int| 0 <= w < opened@.len() && opened@[w] == t;
                assert(targets@[joins@.len() + merges@.len() + w] == t);
            }
        }
        assert forall|k: int| 0 <= k < targets@.len() implies #[trigger] targets@[k] < width by {
            if k < joins@.len() {
                assert(targets@[k] == joins@[k]);
            } else if k < joins@.len() + merges@.len() {
                assert(targets@[k] == merges@[k - joins@.len()]);
            } else {
                assert(targets@[k] == opened@[k - joins@.len() - merges@.len()]);
            }
        }
        lemma_place_parents_len(lanes_with_first(lanes0, *id, parents@), other_parents(parents@));
    }
    let n = 2 * width - 1;
    let mut cells: Vec<char> = Vec::new();
    let mut p: usize = 0;
    while p < n
        invariant
            n == 2 * width - 1,
            0 <= p <= n,
            width + 2 <= usize::MAX / 4,
            col < width,
            col == take_col(lanes0, *id).1,
            l1 == take_col(lanes0, *id).0,
            m == parts(lanes0, *id, parents@).1,
            o == parts(lanes0, *id, parents@).2,
            old_active@.len() == l1.len(),
            forall|k: int| 0 <= k < old_active@.len() ==> old_active@[k] == (l1[k] is Some),
            forall|y: usize| joins@.contains(y) <==> is_join(lanes0, *id, y as int),
            merges@.map_values(|x: usize| x as int) == m,
            opened@.map_values(|x: usize| x as int) == o,
            forall|t: usize| targets@.contains(t) <==> is_target(lanes0, *id, parents@, t as int),
            forall|k: int| 0 <= k < targets@.len() ==> #[trigger] targets@[k] < width,
            forall|k: int| 0 <= k < merges@.len() ==> #[trigger] merges@[k] < width,
            forall|k: int| 0 <= k < opened@.len() ==> #[trigger] opened@[k] < width,
            l1.len() <= width,
            forall|k: int| 0 <= k < m.len() ==> 0 <= #[trigger] m[k],
            forall|k: int| 0 <= k < o.len() ==> 0 <= #[trigger] o[k],
            cells@ == Seq::new(p as nat, |q: int| cell(lanes0, *id, parents@, q)),
        decreases n - p,
    {
        let even = p % 2 == 0;
        let active = even && p / 2 < old_active.len() && old_active[p / 2];
        // Whether an edge passes here.
        let mut cov = false;
        let mut w: usize = 0;
        while w < targets.len()
            invariant
                0 <= w <= targets@.len(),
                col < width,
                width + 2 <= usize::MAX / 4,
                forall|k: int| 0 <= k < targets@.len() ==> #[trigger] targets@[k] < width,
                cov == exists|k: int|
                    0 <= k < w && #[trigger] spans(col as int, targets@[k] as int, p as int),
            decreases targets@.len() - w,
        {
            if spans_exec(col, targets[w], p) {
                cov = true;
            }
            w += 1;
        }
        proof {
            let c = covered(lanes0, *id, parents@, p as int);
            if cov {
                let k = choose|k: int|
                    0 <= k < targets@.len() && #[trigger] spans(
                        col as int,
                        targets@[k] as int,
                        p as int,
                    );
                assert(targets@.contains(targets@[k]));
                assert(is_target(lanes0, *id, parents@, targets@[k] as int));
                assert(c);
            }
            if c {
                let t = choose|t: int|
                    #![trigger is_target(lanes0, *id, parents@, t)]
                    is_target(lanes0, *id, parents@, t) && spans(col as int, t, p as int);
                assert(t >= 0) by {
                    if is_join(lanes0, *id, t) {
                    } else if m.contains(t) {
                        let z = choose|z: int| 0 <= z < m.len() && m[z] == t;
                        assert(0 <= m[z]);
                    } else {
                        let z = choose|z: int| 0 <= z < o.len() && o[z] == t;
                        assert(0 <= o[z]);
                    }
                }
                assert(t < width) by {
                    if t >= width {
                        if is_join(lanes0, *id, t) {
                        } else if m.contains(t) {
                            let z = choose|z: int| 0 <= z < m.len() && m[z] == t;
                            assert(m[z] == merges@[z] as int);
                            assert(merges@[z] < width);
                        } else {
                            let z = choose|z: int| 0 <= z < o.len() && o[z] == t;
                            assert(o[z] == opened@[z] as int);
                            assert(opened@[z] < width);
                        }
                    }
                }
                assert(targets@.contains(t as usize));
                let z = choose|z: int| 0 <= z < targets@.len() && targets@[z] == t as usize;
                assert(spans(col as int, targets@[z] as int, p as int));
                assert(cov);
            }
        }
        let base = if active {
            '│'
        } else {
            ' '
        };
        let h = if cov {
            if !even {
                '─'
            } else if active {
                '┼'
            } else {
                base
            }
        } else {
            base
        };
        let g = if even {
            let k = p / 2;
            if k == col {
                if parents.len() > 1 {
                    '◉'
                } else {
                    '●'
                }
            } else if contains_usize(opened, k) {
                if k > col {
                    '╮'
                } else {
                    '╭'
                }
            } else if contains_usize(merges, k) {
                if k > col {
                    '┤'
                } else {
                    '├'
                }
            } else if contains_usize(joins, k) {
                if k > col {
                    '╯'
                } else {
                    '╰'
                }
            } else {
                h
            }
        } else {
            h
        };
        proof {
            if even {
                lemma_map_contains(opened@, (p / 2) as usize);
                lemma_map_contains(merges@, (p / 2) as usize);
            }
            assert(g == cell(lanes0, *id, parents@, p as int));
        }
        cells.push(g);
        p += 1;
        assert(cells@ =~= Seq::new(p as nat, |q: int| cell(lanes0, *id, parents@, q)));
    }
    cells
}

/// Whether `x` is in the list.
fn contains_usize(s: &Vec<usize>, x: usize) -> (r: bool)
    ensures
        r == s@.contains(x),
{
    let mut i: usize = 0;
    while i < s.len()
        invariant
            0 <= i <= s@.len(),
            forall|j: int| 0 <= j < i ==> s@[j] != x,
        decreases s@.len() - i,
    {
        if s[i] == x {
            return true;
        }
        i += 1;
    }
    false
}

pub struct Graph<T: PartialEq + Copy> {
    lanes: Vec<Option<T>>,
}

/// Whether a lane holds `x`.
fn lane_is<T: PartialEq + Copy>(l: &Option<T>, x: &T) -> (r: bool)
    requires
        obeys_concrete_eq::<T>(),
    ensures
        r == (*l == Some(*x)),
{
    proof {
        reveal(obeys_concrete_eq);
    }
    match l {
        Some(y) => y == x,
        None => false,
    }
}

/// The first lane at or after `from` that holds `x`.
fn find_lane_exec<T: PartialEq + Copy>(lanes: &Vec<Option<T>>, x: &T, from: usize) -> (r: Option<
    usize,
>)
    requires
        obeys_concrete_eq::<T>(),
        from <= lanes@.len(),
    ensures
        match r {
            Some(i) => find_lane(lanes@, Some(*x), from as int) == Some(i as int),
            None => find_lane(lanes@, Some(*x), from as int) is None,
        },
{
    let mut i = from;
    while i < lanes.len()
        invariant
            obeys_concrete_eq::<T>(),
            from <= i <= lanes@.len(),
            forall|j: int| from <= j < i ==> lanes@[j] != Some(*x),
        decreases lanes@.len() - i,
    {
        if lane_is(&lanes[i], x) {
            proof {
                lemma_find_lane_is(lanes@, Some(*x), from as int, i as int);
            }
            return Some(i);
        }
        i += 1;
    }
    proof {
        lemma_find_lane_is(lanes@, Some(*x), from as int, i as int);
    }
    None
}

/// The first free lane.
fn find_free(lanes: &Vec<Option<impl Copy>>) -> (r: Option<usize>)
    ensures
        match r {
            Some(i) => find_lane(lanes@, None, 0) == Some(i as int),
            None => find_lane(lanes@, None, 0) is None,
        },
{
    let mut i: usize = 0;
    while i < lanes.len()
        invariant
            0 <= i <= lanes@.len(),
            forall|j: int| 0 <= j < i ==> lanes@[j] is Some,
        decreases lanes@.len() - i,
    {
        if lanes[i].is_none() {
            proof {
                lemma_find_lane_is(lanes@, None, 0, i as int);
            }
            return Some(i);
        }
        i += 1;
    }
    proof {
        lemma_find_lane_is(lanes@, None, 0, i as int);
    }
    None
}

impl<T: PartialEq + Copy> Graph<T> {
    /// The lanes, the first one left.
    pub closed spec fn lanes(&self) -> Seq<Option<T>> {
        self.lanes@
    }

    pub fn new() -> (g: Self)
        ensures
            g.lanes() == Seq::<Option<T>>::empty(),
    {
        Graph { lanes: Vec::new() }
    }

    /// Add one commit. Return its graph row.
    pub fn row(&mut self, id: &T, parents: &[T]) -> (r: String)
        requires
            obeys_concrete_eq::<T>(),
            old(self).lanes().len() + parents@.len() + 4 <= usize::MAX / 4,
        ensures
            r@ == row_text(old(self).lanes(), *id, parents@),
            final(self).lanes() == lanes_after(old(self).lanes(), *id, parents@),
    {
        let ghost lanes0 = self.lanes@;
        proof {
            lemma_find_lane(lanes0, Some(*id), 0);
            broadcast use vstd::seq_lib::group_seq_properties;

        }
        // The commit takes the first lane that waits for it. A new head
        // opens a new lane.
        let col = match find_lane_exec(&self.lanes, id, 0) {
            Some(c) => c,
            None => {
                self.lanes.push(Some(*id));
                self.lanes.len() - 1
            },
        };
        let ghost l1 = self.lanes@;
        assert(take_col(lanes0, *id) == (l1, col as int));
        // Other lanes that wait for the same commit join it on this row.
        let mut joins: Vec<usize> = Vec::new();
        let mut old_active: Vec<bool> = Vec::new();
        let mut i: usize = 0;
        while i < self.lanes.len()
            invariant
                obeys_concrete_eq::<T>(),
                self.lanes@ == l1,
                take_col(lanes0, *id) == (l1, col as int),
                0 <= i <= l1.len(),
                old_active@.len() == i,
                forall|k: int| 0 <= k < i ==> old_active@[k] == (l1[k] is Some),
                forall|k: int| 0 <= k < joins@.len() ==> is_join(lanes0, *id, #[trigger] joins@[k] as int),
                forall|k: int| 0 <= k < i && is_join(lanes0, *id, k) ==> joins@.contains(k as usize),
                forall|k: int| 0 <= k < joins@.len() ==> #[trigger] joins@[k] < i,
            decreases l1.len() - i,
        {
            let is = lane_is(&self.lanes[i], id);
            if i != col && is {
                joins.push(i);
            }
            old_active.push(self.lanes[i].is_some());
            proof {
                broadcast use vstd::seq_lib::group_seq_properties;

                if i != col && is {
                    assert(joins@[joins@.len() - 1] == i);
                }
            }
            i += 1;
        }
        // The first parent continues in this lane. No parent closes it.
        let first = if parents.len() > 0 {
            Some(parents[0])
        } else {
            None
        };
        self.lanes.set(col, first);
        let ghost l2 = self.lanes@;
        assert(l2 == lanes_with_first(lanes0, *id, parents@));
        // Each other parent is a merge source.
        let mut merges: Vec<usize> = Vec::new();
        let mut opened: Vec<usize> = Vec::new();
        let mut q: usize = 1;
        proof {
            if parents@.len() > 0 {
                assert(parents@.subrange(1, 1) =~= Seq::<T>::empty());
            }
            assert(l2.len() <= lanes0.len() + 1);
        }
        while q < parents.len()
            invariant
                obeys_concrete_eq::<T>(),
                1 <= q,
                parents@.len() > 0 ==> q <= parents@.len(),
                parents@.len() > 0 ==> place_parents(l2, parents@.subrange(1, q as int)) == (
                    self.lanes@,
                    merges@.map_values(|x: usize| x as int),
                    opened@.map_values(|x: usize| x as int),
                ),
                self.lanes@.len() <= l2.len() + q - 1,
                parents@.len() == 0 ==> merges@.len() == 0 && opened@.len() == 0 && self.lanes@
                    == l2,
                l2.len() + parents@.len() + 3 <= usize::MAX / 4,
            decreases parents@.len() - q,
        {
            let p = &parents[q];
            let ghost before = (self.lanes@, merges@, opened@);
            proof {
                assert(parents@.subrange(1, q + 1).drop_last() =~= parents@.subrange(1, q as int));
                assert(parents@.subrange(1, q + 1).last() == *p);
            }
            match find_lane_exec(&self.lanes, p, 0) {
                Some(i) => {
                    merges.push(i);
                    proof {
                        assert(merges@.map_values(|x: usize| x as int) =~= before.1.map_values(
                            |x: usize| x as int,
                        ).push(i as int));
                    }
                },
                None => match find_free(&self.lanes) {
                    Some(i) => {
                        proof {
                            lemma_find_lane(self.lanes@, None, 0);
                        }
                        self.lanes.set(i, Some(*p));
                        opened.push(i);
                        proof {
                            assert(opened@.map_values(|x: usize| x as int) =~= before.2.map_values(
                                |x: usize| x as int,
                            ).push(i as int));
                        }
                    },
                    None => {
                        let n = self.lanes.len();
                        self.lanes.push(Some(*p));
                        opened.push(n);
                        proof {
                            assert(opened@.map_values(|x: usize| x as int) =~= before.2.map_values(
                                |x: usize| x as int,
                            ).push(n as int));
                        }
                    },
                },
            }
            q += 1;
        }
        proof {
            if parents@.len() > 0 {
                assert(parents@.subrange(1, parents@.len() as int) =~= parents@.skip(1));
            } else {
                assert(merges@.map_values(|x: usize| x as int) =~= Seq::<int>::empty());
                assert(opened@.map_values(|x: usize| x as int) =~= Seq::<int>::empty());
            }
            assert(parts(lanes0, *id, parents@) == (
                self.lanes@,
                merges@.map_values(|x: usize| x as int),
                opened@.map_values(|x: usize| x as int),
            ));
        }
        let ghost l3 = self.lanes@;
        proof {
            lemma_place_parents_len(l2, other_parents(parents@));
        }
        let width = if self.lanes.len() < old_active.len() {
            old_active.len()
        } else {
            self.lanes.len()
        };
        assert(width == row_width(lanes0, *id, parents@));
        proof {
            assert forall|y: usize| joins@.contains(y) <==> is_join(lanes0, *id, y as int) by {
                if joins@.contains(y) {
                    let w = choose|w: int| 0 <= w < joins@.len() && joins@[w] == y;
                    assert(is_join(lanes0, *id, joins@[w] as int));
                }
            }
        }
        proof {
            let (_, mm, oo) = parts(lanes0, *id, parents@);
            assert forall|k: int| 0 <= k < merges@.len() implies #[trigger] merges@[k] < width by {
                assert(mm[k] == merges@[k] as int);
            }
            assert forall|k: int| 0 <= k < opened@.len() implies #[trigger] opened@[k] < width by {
                assert(oo[k] == opened@[k] as int);
            }
        }
        let cells = draw(Ghost(lanes0), id, parents, col, &joins, &merges, &opened, &old_active, width);
        // The joined lanes close after this row.
        let mut k: usize = 0;
        while k < joins.len()
            invariant
                0 <= k <= joins@.len(),
                self.lanes@.len() == l3.len(),
                l1.len() <= l3.len(),
                forall|j: int| 0 <= j < joins@.len() ==> #[trigger] joins@[j] < l1.len(),
                forall|y: usize|
                    y < l3.len() ==> #[trigger] self.lanes@[y as int] == (if joins@.take(
                        k as int,
                    ).contains(y) {
                        None
                    } else {
                        l3[y as int]
                    }),
            decreases joins@.len() - k,
        {
            let j = joins[k];
            self.lanes.set(j, None);
            proof {
                let t0 = joins@.take(k as int);
                let t1 = joins@.take(k + 1);
                assert(t1 =~= t0.push(j));
                assert forall|x: usize| t1.contains(x) <==> (t0.contains(x) || x == j) by {
                    if t1.contains(x) {
                        let w = choose|w: int| 0 <= w < t1.len() && t1[w] == x;
                        if w < t0.len() {
                            assert(t0[w] == x);
                        }
                    }
                    if t0.contains(x) {
                        let w = choose|w: int| 0 <= w < t0.len() && t0[w] == x;
                        assert(t1[w] == x);
                    }
                    if x == j {
                        assert(t1[k as int] == x);
                    }
                }
            }
            k += 1;
        }
        let ghost l4 = self.lanes@;
        proof {
            assert(joins@.take(k as int) =~= joins@);
            assert forall|y: int| 0 <= y < l3.len() implies #[trigger] l4[y] == (if is_join(
                lanes0,
                *id,
                y,
            ) {
                None
            } else {
                l3[y]
            }) by {
                assert(l4[y] == l4[(y as usize) as int]);
            }
            assert(l4 =~= Seq::new(
                l3.len(),
                |j: int|
                    if is_join(lanes0, *id, j) {
                        None
                    } else {
                        l3[j]
                    },
            ));
        }
        while self.lanes.len() > 0 && self.lanes[self.lanes.len() - 1].is_none()
            invariant
                drop_free_tail(l4) == drop_free_tail(self.lanes@),
            decreases self.lanes@.len(),
        {
            self.lanes.pop();
        }
        let end = trim_end_pos(cells.as_slice(), 0, cells.len());
        let mut out = String::new();
        push_range(&mut out, cells.as_slice(), 0, end);
        proof {
            assert(cells@.subrange(0, cells@.len() as int) =~= cells@);
        }
        out
    }

}

// ---------------------------------------------------------------------
// No line of the graph is lost
// ---------------------------------------------------------------------
proof fn lemma_drop_free_tail<T>(l: Seq<Option<T>>)
    ensures
        drop_free_tail(l).len() <= l.len(),
        forall|k: int| 0 <= k < drop_free_tail(l).len() ==> #[trigger] drop_free_tail(l)[k] == l[k],
        forall|k: int| 0 <= k < l.len() && (#[trigger] l[k]) is Some ==> k < drop_free_tail(l).len(),
    decreases l.len(),
{
    if l.len() > 0 && l.last() is None {
        lemma_drop_free_tail(l.drop_last());
        assert forall|k: int| 0 <= k < l.len() && (#[trigger] l[k]) is Some implies k
            < drop_free_tail(l).len() by {
            assert(k != l.len() - 1);
            assert(l.drop_last()[k] == l[k]);
        }
    }
}

/// What the merge parents do to the lanes: each of them has a lane that
/// waits for it, and every other lane that waits holds what it held.
proof fn lemma_place_parents_has<T>(lanes: Seq<Option<T>>, ps: Seq<T>)
    ensures
        forall|q: T| ps.contains(q) ==> #[trigger] place_parents(lanes, ps).0.contains(Some(q)),
        forall|k: int|
            0 <= k < place_parents(lanes, ps).0.len() && (#[trigger] place_parents(lanes, ps).0[k])
                is Some ==> (k < lanes.len() && lanes[k] == place_parents(lanes, ps).0[k])
                || ps.contains(place_parents(lanes, ps).0[k]->0),
    decreases ps.len(),
{
    if ps.len() > 0 {
        let front = ps.drop_last();
        lemma_place_parents_has(lanes, front);
        lemma_place_parents_len(lanes, front);
        let l = place_parents(lanes, front).0;
        let out = place_parents(lanes, ps).0;
        let p = ps.last();
        lemma_find_lane(l, Some(p), 0);
        lemma_find_lane(l, None, 0);
        assert forall|q: T| front.contains(q) implies ps.contains(q) by {
            let j = choose|j: int| 0 <= j < front.len() && front[j] == q;
            assert(ps[j] == q);
        }
        assert(ps[ps.len() - 1] == p);
        // Each earlier lane that waits keeps waiting.
        assert forall|j: int| 0 <= j < l.len() && l[j] is Some implies #[trigger] out[j] == l[j] by {
        }
        assert forall|q: T| ps.contains(q) implies #[trigger] out.contains(Some(q)) by {
            if q == p {
                match find_lane(l, Some(p), 0) {
                    Some(i) => {
                        assert(out[i] == Some(p));
                    },
                    None => match find_lane(l, None, 0) {
                        Some(i) => {
                            assert(out[i] == Some(p));
                        },
                        None => {
                            assert(out[l.len() as int] == Some(p));
                        },
                    },
                }
            } else {
                let j = choose|j: int| 0 <= j < ps.len() && ps[j] == q;
                assert(j != ps.len() - 1);
                assert(front[j] == q);
                assert(l.contains(Some(q)));
                let w = choose|w: int| 0 <= w < l.len() && l[w] == Some(q);
                assert(out[w] == Some(q));
            }
        }
        assert forall|k: int|
            0 <= k < out.len() && (#[trigger] out[k]) is Some implies (k < lanes.len()
            && lanes[k] == out[k]) || ps.contains(out[k]->0) by {
            if k < l.len() && out[k] == l[k] {
                assert(l[k] is Some);
                if !(k < lanes.len() && lanes[k] == l[k]) {
                    assert(front.contains(l[k]->0));
                }
            } else {
                assert(out[k] == Some(p));
                assert(ps.contains(p));
            }
        }
    }
}

/// No line of the graph is lost: after a commit's row, each parent of the
/// commit has a lane that waits for it, each other commit that had a lane
/// still has one, and no lane waits for the commit any more. (A commit is
/// never its own parent.)
pub proof fn lemma_lanes_kept<T>(lanes: Seq<Option<T>>, id: T, parents: Seq<T>)
    requires
        !parents.contains(id),
    ensures
        forall|p: T|
            parents.contains(p) ==> #[trigger] lanes_after(lanes, id, parents).contains(Some(p)),
        forall|x: T|
            x != id && lanes.contains(Some(x)) ==> #[trigger] lanes_after(lanes, id, parents).contains(
                Some(x),
            ),
        !lanes_after(lanes, id, parents).contains(Some(id)),
{
    let (l1, col) = take_col(lanes, id);
    lemma_find_lane(lanes, Some(id), 0);
    let l2 = lanes_with_first(lanes, id, parents);
    let ps = other_parents(parents);
    let l3 = parts(lanes, id, parents).0;
    lemma_place_parents_len(l2, ps);
    lemma_place_parents_has(l2, ps);
    let l4 = Seq::new(l3.len(), |k: int| if is_join(lanes, id, k) { None } else { l3[k] });
    lemma_drop_free_tail(l4);
    let fin = lanes_after(lanes, id, parents);
    assert(fin == drop_free_tail(l4));
    assert(0 <= col < l1.len() && l1[col] == Some(id));
    // A lane of the final lanes that holds something held it before the
    // joins closed lanes.
    assert forall|k: int| 0 <= k < l3.len() && (#[trigger] l3[k]) is Some && !is_join(lanes, id, k)
        implies fin.contains(l3[k]) by {
        assert(l4[k] == l3[k]);
        assert(k < fin.len());
        assert(fin[k] == l4[k]);
    }
    assert forall|p: T| parents.contains(p) implies #[trigger] fin.contains(Some(p)) by {
        let j = choose|j: int| 0 <= j < parents.len() && parents[j] == p;
        if j == 0 {
            assert(l2[col] == Some(p));
            assert(l3[col] == Some(p));
            assert(!is_join(lanes, id, col));
            assert(l3[col] is Some);
        } else {
            assert(ps[j - 1] == p);
            assert(ps.contains(p));
            assert(l3.contains(Some(p)));
            let w = choose|w: int| 0 <= w < l3.len() && l3[w] == Some(p);
            if is_join(lanes, id, w) {
                assert(l2[w] == Some(id));
            }
            assert(l3[w] is Some);
        }
    }
    assert forall|x: T| x != id && lanes.contains(Some(x)) implies #[trigger] fin.contains(Some(x)) by {
        let k = choose|k: int| 0 <= k < lanes.len() && lanes[k] == Some(x);
        assert(l1[k] == Some(x));
        assert(k != col);
        assert(l2[k] == Some(x));
        assert(l3[k] == Some(x));
        assert(!is_join(lanes, id, k));
        assert(l3[k] is Some);
    }
    if fin.contains(Some(id)) {
        let k = choose|k: int| 0 <= k < fin.len() && fin[k] == Some(id);
        assert(l4[k] == Some(id));
        assert(!is_join(lanes, id, k));
        assert(l3[k] == Some(id));
        assert(l3[k] is Some);
        if k < l2.len() && l2[k] == l3[k] {
            if k == col {
                if parents.len() > 0 {
                    assert(parents.contains(parents[0]));
                }
            } else {
                assert(l1[k] == Some(id));
                assert(is_join(lanes, id, k));
            }
        } else {
            assert(ps.contains(id));
            let j = choose|j: int| 0 <= j < ps.len() && ps[j] == id;
            assert(parents[j + 1] == id);
        }
    }
}

// ---------------------------------------------------------------------
// The shape of a row
// ---------------------------------------------------------------------
/// The glyphs that a graph row is made of.
pub open spec fn row_glyph(c: char) -> bool {
    ||| c == ' '
    ||| c == '│'
    ||| c == '─'
    ||| c == '┼'
    ||| c == '╯'
    ||| c == '╰'
    ||| c == '┤'
    ||| c == '├'
    ||| c == '╮'
    ||| c == '╭'
    ||| c == '●'
    ||| c == '◉'
}

/// The glyph of the commit itself: a merge has its own.
pub open spec fn node_glyph<T>(parents: Seq<T>) -> char {
    if parents.len() > 1 {
        '◉'
    } else {
        '●'
    }
}

proof fn lemma_cell_shape<T>(lanes: Seq<Option<T>>, id: T, parents: Seq<T>, p: int)
    ensures
        row_glyph(cell(lanes, id, parents, p)),
        p == 2 * take_col(lanes, id).1 ==> cell(lanes, id, parents, p) == node_glyph(parents),
        p != 2 * take_col(lanes, id).1 ==> cell(lanes, id, parents, p) != '●' && cell(
            lanes,
            id,
            parents,
            p,
        ) != '◉',
{
    let col = take_col(lanes, id).1;
    if p == 2 * col {
        assert(p % 2 == 0 && p / 2 == col);
    } else if p % 2 == 0 {
        assert(p / 2 != col);
    }
}

/// The shape of every row: it is made of the box-drawing glyphs and
/// blanks, it ends with no blank, and it holds the commit's own glyph
/// (`◉` for a merge, else `●`) once, at the even position of its lane.
pub proof fn lemma_row_shape<T>(lanes: Seq<Option<T>>, id: T, parents: Seq<T>)
    ensures
        forall|i: int|
            0 <= i < row_text(lanes, id, parents).len() ==> row_glyph(
                #[trigger] row_text(lanes, id, parents)[i],
            ),
        row_text(lanes, id, parents).len() > 0,
        !is_ws(row_text(lanes, id, parents).last()),
        2 * take_col(lanes, id).1 < row_text(lanes, id, parents).len(),
        row_text(lanes, id, parents)[2 * take_col(lanes, id).1] == node_glyph(parents),
        forall|i: int|
            0 <= i < row_text(lanes, id, parents).len() && i != 2 * take_col(lanes, id).1 ==> (
            #[trigger] row_text(lanes, id, parents)[i]) != '●' && row_text(lanes, id, parents)[i]
                != '◉',
{
    let (l1, col) = take_col(lanes, id);
    lemma_find_lane(lanes, Some(id), 0);
    let l2 = lanes_with_first(lanes, id, parents);
    lemma_place_parents_len(l2, other_parents(parents));
    let w = row_width(lanes, id, parents);
    assert(0 <= col < l1.len() <= w);
    let cells = Seq::new((2 * w - 1) as nat, |p: int| cell(lanes, id, parents, p));
    let r = row_text(lanes, id, parents);
    assert(r == trim_end(cells));
    lemma_trim_end_len(cells);
    lemma_cell_shape(lanes, id, parents, 2 * col);
    assert(cells[2 * col] == node_glyph(parents));
    assert(!is_ws(node_glyph(parents)));
    lemma_trim_end_keeps(cells, 2 * col);
    assert forall|i: int| 0 <= i < r.len() implies row_glyph(#[trigger] r[i]) && (i != 2 * col
        ==> r[i] != '●' && r[i] != '◉') by {
        assert(r[i] == cells[i]);
        lemma_cell_shape(lanes, id, parents, i);
    }
    assert(r[2 * col] == cells[2 * col]);
}

/// The rows that a chain of commits gets, each commit the only parent of
/// the one before it, from the lanes `lanes` on.
pub open spec fn chain_rows<T>(lanes: Seq<Option<T>>, ids: Seq<T>) -> Seq<Seq<char>>
    decreases ids.len(),
{
    if ids.len() == 0 {
        seq![]
    } else {
        let parents = if ids.len() > 1 {
            seq![ids[1]]
        } else {
            seq![]
        };
        seq![row_text(lanes, ids[0], parents)] + chain_rows(
            lanes_after(lanes, ids[0], parents),
            ids.drop_first(),
        )
    }
}

/// One commit of a chain, when its lane is the only one.
proof fn lemma_chain_step<T>(lanes: Seq<Option<T>>, id: T, parents: Seq<T>)
    requires
        lanes.len() == 0 || lanes == seq![Some(id)],
        parents.len() <= 1,
    ensures
        row_text(lanes, id, parents) == seq!['●'],
        lanes_after(lanes, id, parents) == (if parents.len() == 1 {
            seq![Some(parents[0])]
        } else {
            Seq::<Option<T>>::empty()
        }),
{
    let (l1, col) = take_col(lanes, id);
    lemma_find_lane(lanes, Some(id), 0);
    if lanes.len() == 0 {
        assert(l1 =~= seq![Some(id)]);
    } else {
        assert(lanes[0] == Some(id));
    }
    assert(l1 =~= seq![Some(id)] && col == 0);
    let l2 = lanes_with_first(lanes, id, parents);
    let first = if parents.len() > 0 {
        Some(parents[0])
    } else {
        None
    };
    assert(l2 =~= seq![first]);
    assert(other_parents(parents) =~= Seq::<T>::empty());
    let l3 = parts(lanes, id, parents).0;
    assert(l3 == l2);
    assert(row_width(lanes, id, parents) == 1);
    assert(!is_join(lanes, id, 0));
    let cells = Seq::new(1, |p: int| cell(lanes, id, parents, p));
    assert(cells[0] == '●');
    assert(cells =~= seq!['●']);
    assert(!is_ws('●'));
    assert(trim_end(cells) == cells);
    let l4 = Seq::new(l3.len(), |k: int| if is_join(lanes, id, k) { None } else { l3[k] });
    assert(l4 =~= seq![first]);
    if parents.len() == 1 {
        assert(drop_free_tail(l4) == l4);
    } else {
        assert(l4.drop_last() =~= Seq::<Option<T>>::empty());
        assert(l4.len() > 0 && l4.last() is None);
        assert(drop_free_tail(Seq::<Option<T>>::empty()) =~= Seq::<Option<T>>::empty());
        assert(drop_free_tail(l4) == drop_free_tail(l4.drop_last()));
    }
}

proof fn lemma_chain_from<T>(lanes: Seq<Option<T>>, ids: Seq<T>)
    requires
        ids.len() > 0 ==> (lanes.len() == 0 || lanes == seq![Some(ids[0])]),
    ensures
        chain_rows(lanes, ids).len() == ids.len(),
        forall|k: int| 0 <= k < ids.len() ==> #[trigger] chain_rows(lanes, ids)[k] == seq!['●'],
    decreases ids.len(),
{
    if ids.len() > 0 {
        let parents = if ids.len() > 1 {
            seq![ids[1]]
        } else {
            Seq::<T>::empty()
        };
        lemma_chain_step(lanes, ids[0], parents);
        let next = lanes_after(lanes, ids[0], parents);
        let rest = ids.drop_first();
        if rest.len() > 0 {
            assert(rest[0] == ids[1]);
        }
        lemma_chain_from(next, rest);
        let rows = chain_rows(lanes, ids);
        assert(rows == seq![row_text(lanes, ids[0], parents)] + chain_rows(next, rest));
        assert forall|k: int| 0 <= k < ids.len() implies #[trigger] rows[k] == seq!['●'] by {
            if k > 0 {
                assert(rows[k] == chain_rows(next, rest)[k - 1]);
            }
        }
    }
}

/// A linear history stays in one lane: fed to a new graph, a chain of
/// commits (each the only parent of the one before it, the last with no
/// parent) gives `●` on every row.
pub proof fn lemma_linear_history<T>(ids: Seq<T>)
    ensures
        chain_rows(Seq::<Option<T>>::empty(), ids).len() == ids.len(),
        forall|k: int|
            0 <= k < ids.len() ==> #[trigger] chain_rows(Seq::<Option<T>>::empty(), ids)[k]
                == seq!['●'],
{
    lemma_chain_from(Seq::<Option<T>>::empty(), ids);
}

} // verus!
