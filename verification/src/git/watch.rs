//! What the watchers of the file system decide: which change in `.git`
//! asks for a refresh, and which changed files of the work tree to look
//! at. The program around the library runs the watchers; a path comes in
//! as its parts, each part the bytes of one name.
use vstd::prelude::*;

use crate::git::text_eq;

verus! {

/// Whether the bytes are the name.
fn bytes_are(part: &Vec<u8>, name: &[u8]) -> (r: bool)
    ensures
        r == (part@ == name@),
{
    if part.len() != name.len() {
        return false;
    }
    let mut i: usize = 0;
    while i < part.len()
        invariant
            part@.len() == name@.len(),
            0 <= i <= part@.len(),
            forall|j: int| 0 <= j < i ==> part@[j] == name@[j],
        decreases part@.len() - i,
    {
        if part[i] != name[i] {
            return false;
        }
        i += 1;
    }
    assert(part@ =~= name@);
    true
}

/// The bytes of `HEAD`.
pub open spec fn head_bytes() -> Seq<u8> {
    seq![72u8, 69u8, 65u8, 68u8]
}

/// The bytes of `index`.
pub open spec fn index_bytes() -> Seq<u8> {
    seq![105u8, 110u8, 100u8, 101u8, 120u8]
}

/// The bytes of `refs`.
pub open spec fn refs_bytes() -> Seq<u8> {
    seq![114u8, 101u8, 102u8, 115u8]
}

/// The bytes of `.git`.
pub open spec fn git_dir_bytes() -> Seq<u8> {
    seq![46u8, 103u8, 105u8, 116u8]
}

/// A change in `.git` that asks for a refresh: HEAD, the index, or a
/// reference moved.
pub open spec fn interesting_path(parts: Seq<Seq<u8>>) -> bool {
    ||| (parts.len() > 0 && (parts.last() == head_bytes() || parts.last() == index_bytes()))
    ||| parts.contains(refs_bytes())
}

/// Whether a path holds a part with this name.
fn has_part(parts: &Vec<Vec<u8>>, name: &[u8]) -> (r: bool)
    ensures
        r == parts@.map_values(|p: Vec<u8>| p@).contains(name@),
{
    let ghost pv = parts@.map_values(|p: Vec<u8>| p@);
    let mut k: usize = 0;
    while k < parts.len()
        invariant
            pv == parts@.map_values(|p: Vec<u8>| p@),
            0 <= k <= parts@.len(),
            forall|j: int| 0 <= j < k ==> pv[j] != name@,
        decreases parts@.len() - k,
    {
        if bytes_are(&parts[k], name) {
            assert(pv[k as int] == name@);
            return true;
        }
        k += 1;
    }
    false
}

/// Whether a change of this path in `.git` asks for a refresh.
pub fn interesting(parts: &Vec<Vec<u8>>) -> (r: bool)
    ensures
        r == interesting_path(parts@.map_values(|p: Vec<u8>| p@)),
{
    let head: [u8; 4] = [72, 69, 65, 68];
    let index: [u8; 5] = [105, 110, 100, 101, 120];
    let refs: [u8; 4] = [114, 101, 102, 115];
    proof {
        assert(head@ =~= head_bytes());
        assert(index@ =~= index_bytes());
        assert(refs@ =~= refs_bytes());
    }
    let n = parts.len();
    let named = n > 0 && (bytes_are(&parts[n - 1], head.as_slice()) || bytes_are(
        &parts[n - 1],
        index.as_slice(),
    ));
    named || has_part(parts, refs.as_slice())
}

/// The most paths to carry in one message. Past this it is cheaper to look
/// at the whole work tree than to name every path.
pub const MAX_PATHS: usize = 300;

/// The rest of a path under a root, when the path starts with its parts.
pub open spec fn under(p: Seq<Seq<u8>>, root: Seq<Seq<u8>>) -> Option<Seq<Seq<u8>>> {
    if root.len() <= p.len() && p.take(root.len() as int) == root {
        Some(p.skip(root.len() as int))
    } else {
        None
    }
}

/// The parts of a name joined by `/`.
pub open spec fn joined(parts: Seq<Seq<u8>>) -> Seq<u8>
    decreases parts.len(),
{
    if parts.len() == 0 {
        seq![]
    } else if parts.len() == 1 {
        parts[0]
    } else {
        joined(parts.drop_last()) + seq![47u8] + parts.last()
    }
}

/// The names of the changed files under the root, walked from the first
/// path on with the names so far. A path in `.git` is no work-tree
/// content. A path under neither the root nor its real place, or a name
/// that is not UTF-8, makes the set unusable; so do more than `MAX_PATHS`
/// names, and no name at all.
pub open spec fn names_walk(
    paths: Seq<Seq<Seq<u8>>>,
    root: Seq<Seq<u8>>,
    real_root: Option<Seq<Seq<u8>>>,
    acc: Seq<Seq<u8>>,
) -> Option<Seq<Seq<u8>>>
    decreases paths.len(),
{
    if paths.len() == 0 {
        if acc.len() > 0 {
            Some(acc)
        } else {
            None
        }
    } else {
        let p = paths[0];
        if p.contains(git_dir_bytes()) {
            names_walk(paths.drop_first(), root, real_root, acc)
        } else {
            let rel = match under(p, root) {
                Some(r) => Some(r),
                None => match real_root {
                    Some(rr) => under(p, rr),
                    None => None,
                },
            };
            match rel {
                None => None,
                Some(r) => {
                    let name = joined(r);
                    if !vstd::utf8::valid_utf8(name) {
                        None
                    } else if name.len() == 0 {
                        names_walk(paths.drop_first(), root, real_root, acc)
                    } else if acc.len() + 1 > MAX_PATHS {
                        None
                    } else {
                        names_walk(paths.drop_first(), root, real_root, acc.push(name))
                    }
                },
            }
        }
    }
}

/// The parts of paths as plain values.
pub open spec fn part_views(p: Seq<Vec<u8>>) -> Seq<Seq<u8>> {
    p.map_values(|x: Vec<u8>| x@)
}

/// The bytes as an owned text when they are valid UTF-8.
fn string_from_utf8(v: &[u8]) -> (r: Option<String>)
    ensures
        r is Some <==> vstd::utf8::valid_utf8(v@),
        r matches Some(s) ==> vstd::utf8::encode_utf8(s@) == v@,
{
    match crate::git::str_from_utf8(v) {
        Some(t) => Some(crate::text::string_from(t)),
        None => None,
    }
}

/// The rest of the path under the root, when it is there.
fn strip_root(p: &Vec<Vec<u8>>, root: &Vec<Vec<u8>>) -> (r: Option<usize>)
    ensures
        match r {
            Some(k) => k == root@.len() && under(part_views(p@), part_views(root@)) == Some(
                part_views(p@).skip(k as int),
            ),
            None => under(part_views(p@), part_views(root@)) is None,
        },
{
    if root.len() > p.len() {
        return None;
    }
    let mut i: usize = 0;
    while i < root.len()
        invariant
            root@.len() <= p@.len(),
            0 <= i <= root@.len(),
            forall|j: int| 0 <= j < i ==> p@[j]@ == root@[j]@,
        decreases root@.len() - i,
    {
        if !bytes_are(&p[i], root[i].as_slice()) {
            proof {
                assert(part_views(p@).take(root@.len() as int)[i as int] != part_views(root@)[i as int]);
            }
            return None;
        }
        i += 1;
    }
    proof {
        assert(part_views(p@).take(root@.len() as int) =~= part_views(root@));
    }
    Some(root.len())
}

/// The name of the parts from `k` on, joined by `/`.
fn join_from(p: &Vec<Vec<u8>>, k: usize) -> (r: Vec<u8>)
    requires
        k <= p@.len(),
    ensures
        r@ == joined(part_views(p@).skip(k as int)),
{
    let ghost ps = part_views(p@).skip(k as int);
    let mut out: Vec<u8> = Vec::new();
    let mut i = k;
    proof {
        assert(ps.take(0) =~= Seq::<Seq<u8>>::empty());
    }
    while i < p.len()
        invariant
            k <= i <= p@.len(),
            ps == part_views(p@).skip(k as int),
            out@ == joined(ps.take(i - k)),
        decreases p@.len() - i,
    {
        let ghost before = out@;
        if i > k {
            out.push(47u8);
        }
        let part = &p[i];
        let mut j: usize = 0;
        let ghost mid = out@;
        while j < part.len()
            invariant
                0 <= j <= part@.len(),
                out@ == mid + part@.take(j as int),
            decreases part@.len() - j,
        {
            out.push(part[j]);
            proof {
                assert(part@.take(j + 1) =~= part@.take(j as int).push(part@[j as int]));
            }
            j += 1;
        }
        proof {
            assert(part@.take(j as int) =~= part@);
            assert(ps.take(i + 1 - k).drop_last() =~= ps.take(i - k));
            assert(ps.take(i + 1 - k).last() == part@);
            if i == k {
                assert(ps.take(1)[0] == part@);
                assert(out@ =~= joined(ps.take(1)));
            } else {
                assert(out@ =~= joined(ps.take(i + 1 - k)));
            }
        }
        i += 1;
    }
    proof {
        assert(ps.take(i - k) =~= ps);
    }
    out
}

/// The views of paths.
pub open spec fn path_views(ps: Seq<Vec<Vec<u8>>>) -> Seq<Seq<Seq<u8>>> {
    ps.map_values(|p: Vec<Vec<u8>>| part_views(p@))
}

/// Turn the paths into names under the root. None means the set is not
/// usable, thus the caller must look at every file.
pub fn relative_names(root: &Vec<Vec<u8>>, real_root: Option<&Vec<Vec<u8>>>, paths: &Vec<Vec<Vec<u8>>>) -> (r: Option<Vec<String>>)
    ensures
        match names_walk(
            path_views(paths@),
            part_views(root@),
            match real_root {
                Some(rr) => Some(part_views(rr@)),
                None => None,
            },
            seq![],
        ) {
            None => r is None,
            Some(names) => r matches Some(v) && v@.len() == names.len() && forall|i: int|
                0 <= i < v@.len() ==> vstd::utf8::encode_utf8((#[trigger] v@[i])@) == names[i],
        },
{
    let ghost rv = part_views(root@);
    let ghost rr = match real_root {
        Some(x) => Some(part_views(x@)),
        None => None,
    };
    let ghost pv = path_views(paths@);
    let git: [u8; 4] = [46, 103, 105, 116];
    proof {
        assert(git@ =~= git_dir_bytes());
        assert(pv.skip(0) =~= pv);
    }
    let mut out: Vec<String> = Vec::new();
    let ghost mut acc: Seq<Seq<u8>> = seq![];
    let mut k: usize = 0;
    while k < paths.len()
        invariant
            rv == part_views(root@),
            rr == match real_root {
                Some(x) => Some(part_views(x@)),
                None => None::<Seq<Seq<u8>>>,
            },
            pv == path_views(paths@),
            git@ == git_dir_bytes(),
            0 <= k <= paths@.len(),
            out@.len() == acc.len(),
            acc.len() <= MAX_PATHS,
            forall|i: int| 0 <= i < out@.len() ==> vstd::utf8::encode_utf8((#[trigger] out@[i])@) == acc[i],
            names_walk(pv, rv, rr, seq![]) == names_walk(pv.skip(k as int), rv, rr, acc),
        decreases paths@.len() - k,
    {
        let p = &paths[k];
        proof {
            assert(pv.skip(k as int)[0] == part_views(p@));
            assert(pv.skip(k as int).drop_first() =~= pv.skip(k + 1));
        }
        // Work inside .git is not work-tree content.
        if has_part(p, git.as_slice()) {
            k += 1;
            continue;
        }
        let start = match strip_root(p, root) {
            Some(s) => s,
            None => match real_root {
                Some(other) => match strip_root(p, other) {
                    Some(s) => s,
                    None => {
                        return None;
                    },
                },
                None => {
                    return None;
                },
            },
        };
        let bytes = join_from(p, start);
        let name = match string_from_utf8(bytes.as_slice()) {
            Some(n) => n,
            None => {
                return None;
            },
        };
        if bytes.len() == 0 {
            k += 1;
            continue;
        }
        if out.len() + 1 > MAX_PATHS {
            return None;
        }
        out.push(name);
        proof {
            acc = acc.push(bytes@);
        }
        k += 1;
    }
    proof {
        assert(pv.skip(k as int) =~= Seq::<Seq<Seq<u8>>>::empty());
    }
    if out.len() == 0 {
        None
    } else {
        Some(out)
    }
}

} // verus!
