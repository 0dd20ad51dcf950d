//! Build a file tree from flat status paths. The output is the flat list of
//! visible rows. Collapsed directories hide their children.
use vstd::prelude::*;

use crate::git::FileEntry;
use crate::sort::{sort_perm, sorted_order};
use crate::text::{chars_of, push_char, push_range, split_on, split_ranges, string_of};

verus! {

pub struct TreeRow {
    pub depth: u8,
    pub name: String,
    /// A directory row has its full path here.
    pub dir: Option<String>,
    /// A file row points to its entry in the status list.
    pub file: Option<usize>,
}

/// A row as plain values: depth, name, directory path, file position.
pub type RowView = (u8, Seq<char>, Option<Seq<char>>, Option<usize>);

pub open spec fn row_view(r: TreeRow) -> RowView {
    (r.depth, r.name@, match r.dir {
        Some(d) => Some(d@),
        None => None,
    }, r.file)
}

/// The names of a stack of directories joined by `/`.
pub open spec fn join_slash(s: Seq<Seq<char>>) -> Seq<char>
    decreases s.len(),
{
    if s.len() == 0 {
        seq![]
    } else if s.len() == 1 {
        s[0]
    } else {
        join_slash(s.drop_last()) + seq!['/'] + s.last()
    }
}

/// A row under this stack of directories is hidden: a directory on the
/// way down is collapsed.
pub open spec fn hidden(stack: Seq<Seq<char>>, collapsed: Seq<Seq<char>>) -> bool {
    exists|k: int| 1 <= k <= stack.len() && collapsed.contains(#[trigger] join_slash(stack.take(k)))
}

/// How many directories at the top of the stack the path shares, counted
/// from `c` on.
pub open spec fn common_len(stack: Seq<Seq<char>>, dirs: Seq<Seq<char>>, c: int) -> int
    decreases stack.len() - c,
{
    if 0 <= c < stack.len() && c < dirs.len() && stack[c] == dirs[c] {
        common_len(stack, dirs, c + 1)
    } else {
        c
    }
}

/// Open the directories `dirs[k..]` below the stack. Each one gets a row
/// unless a directory above it is collapsed.
pub open spec fn open_dirs(
    stack: Seq<Seq<char>>,
    rows: Seq<RowView>,
    dirs: Seq<Seq<char>>,
    k: int,
    collapsed: Seq<Seq<char>>,
) -> (Seq<Seq<char>>, Seq<RowView>)
    decreases dirs.len() - k,
{
    if k < 0 || k >= dirs.len() {
        (stack, rows)
    } else {
        let s2 = stack.push(dirs[k]);
        let rows2 = if hidden(stack, collapsed) {
            rows
        } else {
            rows.push(((s2.len() - 1) as u8, dirs[k], Some(join_slash(s2)), None))
        };
        open_dirs(s2, rows2, dirs, k + 1, collapsed)
    }
}

/// Add the file at position `i` with this path to the tree.
pub open spec fn add_file(
    state: (Seq<Seq<char>>, Seq<RowView>),
    path: Seq<char>,
    i: usize,
    collapsed: Seq<Seq<char>>,
) -> (Seq<Seq<char>>, Seq<RowView>) {
    let comps = split_on(path, '/');
    let dirs = comps.drop_last();
    let name = comps.last();
    let c = common_len(state.0, dirs, 0);
    let (st, rows) = open_dirs(state.0.take(c), state.1, dirs, c, collapsed);
    (st, if hidden(st, collapsed) {
        rows
    } else {
        rows.push((st.len() as u8, name, None, Some(i)))
    })
}

/// The open directories and the rows after the files in `order`.
pub open spec fn tree_state(
    paths: Seq<Seq<char>>,
    order: Seq<usize>,
    collapsed: Seq<Seq<char>>,
) -> (Seq<Seq<char>>, Seq<RowView>)
    decreases order.len(),
{
    if order.len() == 0 {
        (seq![], seq![])
    } else {
        add_file(
            tree_state(paths, order.drop_last(), collapsed),
            paths[order.last() as int],
            order.last(),
            collapsed,
        )
    }
}

/// The visible rows of the tree of `paths` taken in `order`.
pub open spec fn tree_rows(
    paths: Seq<Seq<char>>,
    order: Seq<usize>,
    collapsed: Seq<Seq<char>>,
) -> Seq<RowView> {
    tree_state(paths, order, collapsed).1
}

/// The rows of the tree of the files, the paths in their sorted order.
pub open spec fn tree_of(files: Seq<FileEntry>, collapsed: Seq<String>) -> Seq<RowView> {
    tree_rows(file_paths(files), sort_perm(file_paths(files)), string_views(collapsed))
}

pub open spec fn file_paths(files: Seq<FileEntry>) -> Seq<Seq<char>> {
    files.map_values(|f: FileEntry| f.path@)
}

pub open spec fn string_views(v: Seq<String>) -> Seq<Seq<char>> {
    v.map_values(|s: String| s@)
}

/// Whether the list holds this path.
fn holds(list: &Vec<Vec<char>>, p: &Vec<char>) -> (r: bool)
    ensures
        r == list@.map_values(|x: Vec<char>| x@).contains(p@),
{
    let ghost m = list@.map_values(|x: Vec<char>| x@);
    let mut i: usize = 0;
    while i < list.len()
        invariant
            m == list@.map_values(|x: Vec<char>| x@),
            0 <= i <= list@.len(),
            forall|j: int| 0 <= j < i ==> m[j] != p@,
        decreases list@.len() - i,
    {
        if same(&list[i], p) {
            assert(m[i as int] == p@);
            return true;
        }
        i += 1;
    }
    false
}

/// Whether two character lists are equal.
fn same(a: &Vec<char>, b: &Vec<char>) -> (r: bool)
    ensures
        r == (a@ == b@),
{
    if a.len() != b.len() {
        return false;
    }
    let mut i: usize = 0;
    while i < a.len()
        invariant
            a@.len() == b@.len(),
            0 <= i <= a@.len(),
            forall|j: int| 0 <= j < i ==> a@[j] == b@[j],
        decreases a@.len() - i,
    {
        if a[i] != b[i] {
            assert(a@[i as int] != b@[i as int]);
            return false;
        }
        i += 1;
    }
    assert(a@ =~= b@);
    true
}

proof fn lemma_join_take(s: Seq<Seq<char>>, k: int)
    requires
        1 <= k < s.len(),
    ensures
        join_slash(s.take(k + 1)) == join_slash(s.take(k)) + seq!['/'] + s[k],
{
    assert(s.take(k + 1).drop_last() =~= s.take(k));
}

/// A row under this stack is hidden.
fn hidden_exec(stack: &Vec<Vec<char>>, coll: &Vec<Vec<char>>) -> (r: bool)
    ensures
        r == hidden(
            stack@.map_values(|x: Vec<char>| x@),
            coll@.map_values(|x: Vec<char>| x@),
        ),
{
    let ghost st = stack@.map_values(|x: Vec<char>| x@);
    let ghost cv = coll@.map_values(|x: Vec<char>| x@);
    let mut path: Vec<char> = Vec::new();
    let mut k: usize = 0;
    while k < stack.len()
        invariant
            st == stack@.map_values(|x: Vec<char>| x@),
            cv == coll@.map_values(|x: Vec<char>| x@),
            0 <= k <= stack@.len(),
            k > 0 ==> path@ == join_slash(st.take(k as int)),
            k == 0 ==> path@.len() == 0,
            forall|j: int| 1 <= j <= k ==> !cv.contains(#[trigger] join_slash(st.take(j))),
        decreases stack@.len() - k,
    {
        if k > 0 {
            path.push('/');
        }
        let d = &stack[k];
        let mut q: usize = 0;
        let ghost before = path@;
        while q < d.len()
            invariant
                0 <= q <= d@.len(),
                path@ == before + d@.take(q as int),
            decreases d@.len() - q,
        {
            path.push(d[q]);
            q += 1;
            assert(path@ =~= before + d@.take(q as int));
        }
        proof {
            assert(d@.take(d@.len() as int) =~= d@);
            assert(st[k as int] == d@);
            if k > 0 {
                lemma_join_take(st, k as int);
                assert(path@ =~= join_slash(st.take(k + 1)));
            } else {
                assert(st.take(1) =~= seq![st[0]]);
                assert(path@ =~= d@);
            }
        }
        if holds(coll, &path) {
            proof {
                assert(cv.contains(join_slash(st.take(k + 1))));
            }
            return true;
        }
        k += 1;
    }
    proof {
        assert forall|j: int| !(1 <= j <= st.len() && cv.contains(#[trigger] join_slash(st.take(j)))) by {
        }
    }
    false
}

/// The path of a stack of directories, `/` between them.
fn join_exec(stack: &Vec<Vec<char>>) -> (r: Vec<char>)
    ensures
        r@ == join_slash(stack@.map_values(|x: Vec<char>| x@)),
{
    let ghost st = stack@.map_values(|x: Vec<char>| x@);
    let mut path: Vec<char> = Vec::new();
    let mut k: usize = 0;
    assert(st.take(0) =~= Seq::<Seq<char>>::empty());
    while k < stack.len()
        invariant
            st == stack@.map_values(|x: Vec<char>| x@),
            0 <= k <= stack@.len(),
            path@ == join_slash(st.take(k as int)),
        decreases stack@.len() - k,
    {
        if k > 0 {
            path.push('/');
        }
        let d = &stack[k];
        let mut q: usize = 0;
        let ghost before = path@;
        while q < d.len()
            invariant
                0 <= q <= d@.len(),
                path@ == before + d@.take(q as int),
            decreases d@.len() - q,
        {
            path.push(d[q]);
            q += 1;
            assert(path@ =~= before + d@.take(q as int));
        }
        proof {
            assert(d@.take(d@.len() as int) =~= d@);
            assert(st[k as int] == d@);
            if k > 0 {
                lemma_join_take(st, k as int);
            } else {
                assert(st.take(1) =~= seq![st[0]]);
                assert(path@ =~= d@);
            }
        }
        k += 1;
    }
    assert(st.take(k as int) =~= st);
    path
}

/// The characters `v[a..b]` as a list.
fn piece(v: &Vec<char>, a: usize, b: usize) -> (r: Vec<char>)
    requires
        a <= b <= v@.len(),
    ensures
        r@ == v@.subrange(a as int, b as int),
{
    let mut r: Vec<char> = Vec::new();
    let mut i = a;
    while i < b
        invariant
            a <= i <= b <= v@.len(),
            r@ == v@.subrange(a as int, i as int),
        decreases b - i,
    {
        r.push(v[i]);
        i += 1;
        assert(r@ =~= v@.subrange(a as int, i as int));
    }
    r
}

fn string_of_vec(v: &Vec<char>) -> (s: String)
    ensures
        s@ == v@,
{
    let s = string_of(v.as_slice(), 0, v.len());
    assert(v@.subrange(0, v@.len() as int) =~= v@);
    s
}

pub proof fn lemma_split_nonempty(s: Seq<char>, c: char)
    ensures
        split_on(s, c).len() >= 1,
    decreases s.len(),
{
    crate::text::lemma_find_char_bounds(s, c, 0);
    match crate::text::find_char(s, c, 0) {
        None => {},
        Some(i) => {
            lemma_split_nonempty(s.skip(i + 1), c);
        },
    }
}

/// Add one file to the tree under construction.
fn add_file_exec(
    stack: &mut Vec<Vec<char>>,
    rows: &mut Vec<TreeRow>,
    path: &Vec<char>,
    i: usize,
    coll: &Vec<Vec<char>>,
)
    ensures
        (final(stack)@.map_values(|x: Vec<char>| x@), final(rows)@.map_values(
            |r: TreeRow| row_view(r),
        )) == add_file(
            (old(stack)@.map_values(|x: Vec<char>| x@), old(rows)@.map_values(
                |r: TreeRow| row_view(r),
            )),
            path@,
            i,
            coll@.map_values(|x: Vec<char>| x@),
        ),
{
    let ghost cv = coll@.map_values(|x: Vec<char>| x@);
    let ghost st0 = stack@.map_values(|x: Vec<char>| x@);
    let ghost rows0 = rows@.map_values(|r: TreeRow| row_view(r));
    let comps = split_ranges(path.as_slice(), 0, path.len(), '/');
    let ghost cs = split_on(path@.subrange(0, path@.len() as int), '/');
    proof {
        assert(path@.subrange(0, path@.len() as int) =~= path@);
        lemma_split_nonempty(path@, '/');
    }
    let ghost dirs = cs.drop_last();
    let nd = comps.len() - 1;
    // Find the common prefix with the open directory stack.
    let mut common: usize = 0;
    loop
        invariant
            st0 == stack@.map_values(|x: Vec<char>| x@),
            cs == split_on(path@, '/'),
            dirs == cs.drop_last(),
            comps@.len() == cs.len(),
            nd == cs.len() - 1,
            forall|k: int|
                #![trigger comps@[k]]
                0 <= k < comps@.len() ==> comps@[k].0 <= comps@[k].1 <= path@.len()
                    && path@.subrange(comps@[k].0 as int, comps@[k].1 as int) == cs[k],
            0 <= common <= stack@.len(),
            common <= nd,
            common_len(st0, dirs, 0) == common_len(st0, dirs, common as int),
        ensures
            common_len(st0, dirs, 0) == common,
            common <= stack@.len(),
            common <= nd,
        decreases stack@.len() - common,
    {
        if common >= stack.len() || common >= nd {
            break;
        }
        let (a, b) = comps[common];
        let d = piece(path, a, b);
        if !same(&stack[common], &d) {
            proof {
                assert(st0[common as int] == stack@[common as int]@);
                assert(dirs[common as int] == cs[common as int]);
            }
            break;
        }
        proof {
            assert(st0[common as int] == stack@[common as int]@);
            assert(dirs[common as int] == cs[common as int]);
        }
        common += 1;
    }
    stack.truncate(common);
    proof {
        assert(stack@.map_values(|x: Vec<char>| x@) =~= st0.take(common as int));
    }
    let mut k = common;
    proof {
        assert(add_file((st0, rows0), path@, i, cv) == ({
            let (st, rs) = open_dirs(st0.take(common as int), rows0, dirs, common as int, cv);
            (st, if hidden(st, cv) {
                rs
            } else {
                rs.push((st.len() as u8, cs.last(), None, Some(i)))
            })
        }));
    }
    while k < nd
        invariant
            cv == coll@.map_values(|x: Vec<char>| x@),
            cs == split_on(path@, '/'),
            dirs == cs.drop_last(),
            comps@.len() == cs.len(),
            nd == cs.len() - 1,
            forall|j: int|
                #![trigger comps@[j]]
                0 <= j < comps@.len() ==> comps@[j].0 <= comps@[j].1 <= path@.len()
                    && path@.subrange(comps@[j].0 as int, comps@[j].1 as int) == cs[j],
            common <= k <= nd,
            open_dirs(st0.take(common as int), rows0, dirs, common as int, cv) == open_dirs(
                stack@.map_values(|x: Vec<char>| x@),
                rows@.map_values(|r: TreeRow| row_view(r)),
                dirs,
                k as int,
                cv,
            ),
        decreases nd - k,
    {
        let (a, b) = comps[k];
        let d = piece(path, a, b);
        let ghost stv = stack@.map_values(|x: Vec<char>| x@);
        let ghost rv = rows@.map_values(|r: TreeRow| row_view(r));
        let h = hidden_exec(stack, coll);
        stack.push(d);
        proof {
            assert(dirs[k as int] == cs[k as int]);
            assert(stack@.map_values(|x: Vec<char>| x@) =~= stv.push(dirs[k as int]));
        }
        if !h {
            let full = join_exec(stack);
            let name = string_of_vec(&stack[stack.len() - 1]);
            let dir = string_of_vec(&full);
            rows.push(
                TreeRow { depth: (stack.len() - 1) as u8, name: name, dir: Some(dir), file: None },
            );
            proof {
                assert(rows@.map_values(|r: TreeRow| row_view(r)) =~= rv.push(
                    (
                        ((stv.len() + 1) - 1) as u8,
                        dirs[k as int],
                        Some(join_slash(stv.push(dirs[k as int]))),
                        None,
                    ),
                ));
            }
        }
        k += 1;
    }
    let name_range = comps[nd];
    let h = hidden_exec(stack, coll);
    if !h {
        let name = string_of(path.as_slice(), name_range.0, name_range.1);
        let ghost rv = rows@.map_values(|r: TreeRow| row_view(r));
        rows.push(TreeRow { depth: stack.len() as u8, name: name, dir: None, file: Some(i) });
        proof {
            assert(cs.last() == cs[nd as int]);
            assert(rows@.map_values(|r: TreeRow| row_view(r)) =~= rv.push(
                (stack@.len() as u8, cs.last(), None, Some(i)),
            ));
        }
    }
}

/// The file positions that the rows point to, in the order of the rows.
pub open spec fn file_ids(rows: Seq<RowView>) -> Seq<usize>
    decreases rows.len(),
{
    if rows.len() == 0 {
        seq![]
    } else {
        match rows.last().3 {
            Some(i) => file_ids(rows.drop_last()).push(i),
            None => file_ids(rows.drop_last()),
        }
    }
}

proof fn lemma_open_dirs_ids(
    stack: Seq<Seq<char>>,
    rows: Seq<RowView>,
    dirs: Seq<Seq<char>>,
    k: int,
)
    ensures
        file_ids(open_dirs(stack, rows, dirs, k, seq![]).1) == file_ids(rows),
    decreases dirs.len() - k,
{
    if 0 <= k < dirs.len() {
        let s2 = stack.push(dirs[k]);
        assert(!hidden(stack, seq![]));
        let r = ((s2.len() - 1) as u8, dirs[k], Some(join_slash(s2)), None::<usize>);
        assert(rows.push(r).drop_last() =~= rows);
        lemma_open_dirs_ids(s2, rows.push(r), dirs, k + 1);
    }
}

/// With no directory folded, the file rows name the files in the order
/// they were added, each once.
proof fn lemma_tree_ids(paths: Seq<Seq<char>>, order: Seq<usize>)
    ensures
        file_ids(tree_rows(paths, order, seq![])) == order,
    decreases order.len(),
{
    if order.len() > 0 {
        lemma_tree_ids(paths, order.drop_last());
        let state = tree_state(paths, order.drop_last(), seq![]);
        let path = paths[order.last() as int];
        let comps = split_on(path, '/');
        let dirs = comps.drop_last();
        let c = common_len(state.0, dirs, 0);
        let (st, rows) = open_dirs(state.0.take(c), state.1, dirs, c, seq![]);
        lemma_open_dirs_ids(state.0.take(c), state.1, dirs, c);
        assert(!hidden(st, seq![]));
        let r = (st.len() as u8, comps.last(), None::<Seq<char>>, Some(order.last()));
        assert(rows.push(r).drop_last() =~= rows);
        assert(order.drop_last().push(order.last()) =~= order);
    }
}

/// Row `row` is the directory at level `k` of the path whose parts are
/// `comps`: its name is part `k`, its full path is parts `0..=k` joined by
/// `/`, and it points to no file.
pub open spec fn dir_level(row: RowView, comps: Seq<Seq<char>>, k: int) -> bool {
    &&& 0 <= k < comps.len() - 1
    &&& row.0 == k as u8
    &&& row.1 == comps[k]
    &&& row.2 == Some(join_slash(comps.take(k + 1)))
    &&& row.3 is None
}

/// Row `row` is a directory on the way down to the file at `path`.
pub open spec fn dir_of_path(row: RowView, path: Seq<char>) -> bool {
    exists|k: int| #[trigger] dir_level(row, split_on(path, '/'), k)
}

proof fn lemma_common_prefix(stack: Seq<Seq<char>>, dirs: Seq<Seq<char>>, c: int)
    requires
        0 <= c <= stack.len(),
        c <= dirs.len(),
        forall|j: int| 0 <= j < c ==> stack[j] == dirs[j],
    ensures
        0 <= common_len(stack, dirs, c) <= stack.len(),
        common_len(stack, dirs, c) <= dirs.len(),
        stack.take(common_len(stack, dirs, c)) == dirs.take(common_len(stack, dirs, c)),
    decreases stack.len() - c,
{
    if c < stack.len() && c < dirs.len() && stack[c] == dirs[c] {
        lemma_common_prefix(stack, dirs, c + 1);
    } else {
        assert(stack.take(c) =~= dirs.take(c));
    }
}

/// The directory rows that the opening of `dirs[k..]` adds are the
/// directories on the way down to `path`.
proof fn lemma_open_dirs_named(
    stack: Seq<Seq<char>>,
    rows: Seq<RowView>,
    dirs: Seq<Seq<char>>,
    k: int,
    collapsed: Seq<Seq<char>>,
    path: Seq<char>,
)
    requires
        0 <= k <= dirs.len(),
        stack == dirs.take(k),
        dirs == split_on(path, '/').drop_last(),
    ensures
        open_dirs(stack, rows, dirs, k, collapsed).0 == dirs,
        open_dirs(stack, rows, dirs, k, collapsed).1.len() >= rows.len(),
        open_dirs(stack, rows, dirs, k, collapsed).1.take(rows.len() as int) == rows,
        forall|r: int|
            rows.len() <= r < open_dirs(stack, rows, dirs, k, collapsed).1.len() ==> dir_of_path(
                #[trigger] open_dirs(stack, rows, dirs, k, collapsed).1[r],
                path,
            ),
    decreases dirs.len() - k,
{
    if k < dirs.len() {
        let comps = split_on(path, '/');
        let s2 = stack.push(dirs[k]);
        assert(s2 =~= dirs.take(k + 1));
        assert(dirs.take(k + 1) =~= comps.take(k + 1));
        let row = ((s2.len() - 1) as u8, dirs[k], Some(join_slash(s2)), None::<usize>);
        assert(dir_level(row, comps, k));
        let rows2 = if hidden(stack, collapsed) {
            rows
        } else {
            rows.push(row)
        };
        lemma_open_dirs_named(s2, rows2, dirs, k + 1, collapsed, path);
        let res = open_dirs(stack, rows, dirs, k, collapsed).1;
        assert(res == open_dirs(s2, rows2, dirs, k + 1, collapsed).1);
        assert(res.take(rows2.len() as int) == rows2);
        assert(res.take(rows.len() as int) =~= rows2.take(rows.len() as int));
        assert forall|r: int| rows.len() <= r < res.len() implies dir_of_path(
            #[trigger] res[r],
            path,
        ) by {
            if r < rows2.len() {
                assert(res[r] == res.take(rows2.len() as int)[r]);
                assert(res[r] == row);
                assert(dir_level(res[r], comps, k));
            }
        }
    } else {
        assert(rows.take(rows.len() as int) =~= rows);
        assert(stack =~= dirs);
    }
}

/// Row `row` is the row of the file at `path`: its name is the last part
/// of the path, its level is the number of directories above it, and it
/// is no directory.
pub open spec fn file_row_of(row: RowView, path: Seq<char>) -> bool {
    &&& row.1 == split_on(path, '/').last()
    &&& row.0 == (split_on(path, '/').len() - 1) as u8
    &&& row.2 is None
}

/// Every file row of the tree shows the file it points to: the last part
/// of its path, at the level of the directories above it.
pub proof fn lemma_tree_files(paths: Seq<Seq<char>>, order: Seq<usize>, collapsed: Seq<Seq<char>>)
    ensures
        forall|r: int|
            0 <= r < tree_rows(paths, order, collapsed).len() && (#[trigger] tree_rows(
                paths,
                order,
                collapsed,
            )[r]).3 is Some ==> file_row_of(
                tree_rows(paths, order, collapsed)[r],
                paths[tree_rows(paths, order, collapsed)[r].3->0 as int],
            ) && exists|j: int| 0 <= j < order.len() && order[j] == tree_rows(paths, order, collapsed)[r].3->0,
    decreases order.len(),
{
    if order.len() > 0 {
        let front = order.drop_last();
        lemma_tree_files(paths, front, collapsed);
        let state = tree_state(paths, front, collapsed);
        let i = order.last();
        let path = paths[i as int];
        let comps = split_on(path, '/');
        lemma_split_nonempty(path, '/');
        let dirs = comps.drop_last();
        lemma_common_prefix(state.0, dirs, 0);
        let c = common_len(state.0, dirs, 0);
        lemma_open_dirs_named(state.0.take(c), state.1, dirs, c, collapsed, path);
        let (st, rows) = open_dirs(state.0.take(c), state.1, dirs, c, collapsed);
        let all = tree_rows(paths, order, collapsed);
        assert(st == dirs);
        assert forall|r: int| 0 <= r < all.len() && (#[trigger] all[r]).3 is Some implies file_row_of(
            all[r],
            paths[all[r].3->0 as int],
        ) && exists|j: int| 0 <= j < order.len() && order[j] == all[r].3->0 by {
            if r < state.1.len() {
                assert(all[r] == rows[r]);
                assert(rows[r] == rows.take(state.1.len() as int)[r]);
                assert(rows[r] == state.1[r]);
                let j = choose|j: int| 0 <= j < front.len() && front[j] == state.1[r].3->0;
                assert(order[j] == front[j]);
            } else if r < rows.len() {
                assert(all[r] == rows[r]);
                assert(dir_of_path(rows[r], path));
                let k = choose|k: int| #[trigger] dir_level(rows[r], comps, k);
                assert(rows[r].2 is Some);
            } else {
                assert(all[r] == (st.len() as u8, comps.last(), None::<Seq<char>>, Some(i)));
                assert(order[order.len() - 1] == i);
            }
        }
    }
}

/// Every directory row of the tree is a directory on the way down to one
/// of its files: its `dir` is the `/`-join of the directory names from the
/// top of the tree down to it, a beginning of that file's path.
pub proof fn lemma_tree_dirs(paths: Seq<Seq<char>>, order: Seq<usize>, collapsed: Seq<Seq<char>>)
    ensures
        forall|r: int|
            0 <= r < tree_rows(paths, order, collapsed).len() && (#[trigger] tree_rows(
                paths,
                order,
                collapsed,
            )[r]).2 is Some ==> exists|j: int|
                0 <= j < order.len() && dir_of_path(
                    tree_rows(paths, order, collapsed)[r],
                    #[trigger] paths[order[j] as int],
                ),
    decreases order.len(),
{
    if order.len() > 0 {
        let front = order.drop_last();
        lemma_tree_dirs(paths, front, collapsed);
        let state = tree_state(paths, front, collapsed);
        let i = order.last();
        let path = paths[i as int];
        let comps = split_on(path, '/');
        let dirs = comps.drop_last();
        lemma_common_prefix(state.0, dirs, 0);
        let c = common_len(state.0, dirs, 0);
        assert(state.0.take(c) == dirs.take(c));
        lemma_open_dirs_named(state.0.take(c), state.1, dirs, c, collapsed, path);
        let (st, rows) = open_dirs(state.0.take(c), state.1, dirs, c, collapsed);
        let all = tree_rows(paths, order, collapsed);
        assert(all == if hidden(st, collapsed) {
            rows
        } else {
            rows.push((st.len() as u8, comps.last(), None, Some(i)))
        });
        assert forall|r: int| 0 <= r < all.len() && (#[trigger] all[r]).2 is Some implies exists|
            j: int|
            0 <= j < order.len() && dir_of_path(all[r], #[trigger] paths[order[j] as int]) by {
            assert(r < rows.len());
            assert(all[r] == rows[r]);
            if r < state.1.len() {
                assert(rows[r] == rows.take(state.1.len() as int)[r]);
                assert(rows[r] == state.1[r]);
                let j = choose|j: int|
                    0 <= j < front.len() && dir_of_path(
                        state.1[r],
                        #[trigger] paths[front[j] as int],
                    );
                assert(order[j] == front[j]);
                assert(dir_of_path(all[r], paths[order[j] as int]));
            } else {
                assert(dir_of_path(rows[r], path));
                assert(order[order.len() - 1] == i);
                assert(dir_of_path(all[r], paths[order[order.len() - 1] as int]));
            }
        }
    }
}

/// The rows of the file tree: each directory once, above its files, in the
/// order of the paths. A collapsed directory keeps its row and hides what
/// is under it.
pub fn build(files: &[FileEntry], collapsed: &Vec<String>) -> (rows: Vec<TreeRow>)
    ensures
        rows@.map_values(|r: TreeRow| row_view(r)) == tree_of(files@, collapsed@),
        collapsed@.len() == 0 ==> file_ids(rows@.map_values(|r: TreeRow| row_view(r)))
            .to_multiset() == crate::sort::range_seq(0, files@.len() as int).to_multiset(),
        forall|r: int|
            0 <= r < rows@.len() && (#[trigger] rows@[r]).dir is Some ==> exists|i: int|
                0 <= i < files@.len() && dir_of_path(row_view(rows@[r]), #[trigger] files@[i].path@),
        forall|r: int|
            0 <= r < rows@.len() && (#[trigger] rows@[r]).file is Some ==> rows@[r].file->0
                < files@.len() && file_row_of(
                row_view(rows@[r]),
                files@[rows@[r].file->0 as int].path@,
            ),
{
    let mut keys: Vec<Vec<char>> = Vec::new();
    let mut n: usize = 0;
    while n < files.len()
        invariant
            0 <= n <= files@.len(),
            keys@.len() == n,
            forall|j: int| 0 <= j < n ==> (#[trigger] keys@[j])@ == files@[j].path@,
        decreases files@.len() - n,
    {
        keys.push(chars_of(files[n].path.as_str()));
        n += 1;
    }
    let mut coll: Vec<Vec<char>> = Vec::new();
    let mut c: usize = 0;
    while c < collapsed.len()
        invariant
            0 <= c <= collapsed@.len(),
            coll@.len() == c,
            forall|j: int| 0 <= j < c ==> (#[trigger] coll@[j])@ == collapsed@[j]@,
        decreases collapsed@.len() - c,
    {
        coll.push(chars_of(collapsed[c].as_str()));
        c += 1;
    }
    let ghost paths = file_paths(files@);
    let ghost cv = string_views(collapsed@);
    proof {
        assert(keys@.map_values(|k: Vec<char>| k@) =~= paths);
        assert(coll@.map_values(|x: Vec<char>| x@) =~= cv);
    }
    let order = sorted_order(&keys);
    let mut rows: Vec<TreeRow> = Vec::new();
    let mut stack: Vec<Vec<char>> = Vec::new();
    let mut t: usize = 0;
    proof {
        assert(order@.take(0) =~= Seq::<usize>::empty());
        assert(rows@.map_values(|r: TreeRow| row_view(r)) =~= Seq::<RowView>::empty());
        assert(stack@.map_values(|x: Vec<char>| x@) =~= Seq::<Seq<char>>::empty());
    }
    while t < order.len()
        invariant
            paths == file_paths(files@),
            cv == coll@.map_values(|x: Vec<char>| x@),
            keys@.len() == files@.len(),
            forall|j: int| 0 <= j < keys@.len() ==> (#[trigger] keys@[j])@ == paths[j],
            forall|k: int| 0 <= k < order@.len() ==> #[trigger] order@[k] < keys@.len(),
            0 <= t <= order@.len(),
            tree_state(paths, order@.take(t as int), cv) == (
                stack@.map_values(|x: Vec<char>| x@),
                rows@.map_values(|r: TreeRow| row_view(r)),
            ),
        decreases order@.len() - t,
    {
        let i = order[t];
        add_file_exec(&mut stack, &mut rows, &keys[i], i, &coll);
        proof {
            assert(order@.take(t + 1).drop_last() =~= order@.take(t as int));
            assert(order@.take(t + 1).last() == i);
        }
        t += 1;
    }
    proof {
        assert(order@.take(t as int) =~= order@);
        assert(files@.map_values(|f: FileEntry| f.path@) == paths);
        if collapsed@.len() == 0 {
            assert(cv =~= Seq::<Seq<char>>::empty());
            lemma_tree_ids(paths, order@);
        }
        lemma_tree_dirs(paths, order@, cv);
        lemma_tree_files(paths, order@, cv);
        let all = tree_rows(paths, order@, cv);
        assert forall|r: int| 0 <= r < rows@.len() && (#[trigger] rows@[r]).file is Some implies rows@[r].file->0
            < files@.len() && file_row_of(
            row_view(rows@[r]),
            files@[rows@[r].file->0 as int].path@,
        ) by {
            assert(row_view(rows@[r]) == all[r]);
            assert(all[r].3 is Some);
            let i = all[r].3->0;
            let j = choose|j: int| 0 <= j < order@.len() && order@[j] == i;
            assert(order@[j] < keys@.len());
            assert(paths[i as int] == files@[i as int].path@);
        }
        assert forall|r: int| 0 <= r < rows@.len() && (#[trigger] rows@[r]).dir is Some implies exists|
            i: int|
            0 <= i < files@.len() && dir_of_path(row_view(rows@[r]), #[trigger] files@[i].path@) by {
            assert(row_view(rows@[r]) == all[r]);
            assert(all[r].2 is Some);
            let j = choose|j: int|
                0 <= j < order@.len() && dir_of_path(all[r], #[trigger] paths[order@[j] as int]);
            let i = order@[j] as int;
            assert(paths[i] == files@[i].path@);
            assert(dir_of_path(row_view(rows@[r]), files@[i].path@));
        }
    }
    rows
}

} // verus!
