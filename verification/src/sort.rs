//! Order paths the way `String`'s `Ord` does: character by character.
use vstd::prelude::*;

verus! {

broadcast use vstd::multiset::group_multiset_axioms, vstd::seq_lib::group_to_multiset_ensures;

/// `a` comes before `b`: at the first place where they differ, the
/// character of `a` is smaller, or `a` ends first.
pub open spec fn lex_lt(a: Seq<char>, b: Seq<char>) -> bool
    decreases a.len(),
{
    if a.len() == 0 {
        b.len() > 0
    } else if b.len() == 0 {
        false
    } else if a[0] < b[0] {
        true
    } else if a[0] > b[0] {
        false
    } else {
        lex_lt(a.drop_first(), b.drop_first())
    }
}

pub proof fn lemma_lex_trans(a: Seq<char>, b: Seq<char>, c: Seq<char>)
    requires
        lex_lt(a, b),
        lex_lt(b, c),
    ensures
        lex_lt(a, c),
    decreases a.len(),
{
    if a.len() > 0 && b.len() > 0 && c.len() > 0 && a[0] == b[0] && b[0] == c[0] {
        lemma_lex_trans(a.drop_first(), b.drop_first(), c.drop_first());
    }
}

pub proof fn lemma_lex_irrefl(a: Seq<char>)
    ensures
        !lex_lt(a, a),
    decreases a.len(),
{
    if a.len() > 0 {
        lemma_lex_irrefl(a.drop_first());
    }
}

pub proof fn lemma_lex_total(a: Seq<char>, b: Seq<char>)
    ensures
        lex_lt(a, b) || lex_lt(b, a) || a == b,
    decreases a.len(),
{
    if a.len() > 0 && b.len() > 0 {
        if a[0] == b[0] {
            lemma_lex_total(a.drop_first(), b.drop_first());
            if a.drop_first() == b.drop_first() {
                assert(a =~= seq![a[0]] + a.drop_first());
                assert(b =~= seq![b[0]] + b.drop_first());
            }
        } else {
        }
    } else if a.len() == 0 && b.len() == 0 {
        assert(a =~= b);
    }
}

/// Whether `a` comes before `b`.
pub fn lex_less(a: &Vec<char>, b: &Vec<char>) -> (r: bool)
    ensures
        r == lex_lt(a@, b@),
{
    let mut i: usize = 0;
    assert(a@.skip(0) =~= a@);
    assert(b@.skip(0) =~= b@);
    while i < a.len() && i < b.len() && a[i] == b[i]
        invariant
            0 <= i <= a@.len(),
            i <= b@.len(),
            lex_lt(a@, b@) == lex_lt(a@.skip(i as int), b@.skip(i as int)),
        decreases a@.len() - i,
    {
        proof {
            let sa = a@.skip(i as int);
            let sb = b@.skip(i as int);
            assert(sa.drop_first() =~= a@.skip(i + 1));
            assert(sb.drop_first() =~= b@.skip(i + 1));
        }
        i += 1;
    }
    if i == a.len() {
        return i < b.len();
    }
    if i == b.len() {
        return false;
    }
    assert(a@.skip(i as int)[0] == a@[i as int]);
    assert(b@.skip(i as int)[0] == b@[i as int]);
    a[i] < b[i]
}

/// Index `i` comes before index `j`: by key, then by position, as a
/// stable sort leaves them.
pub open spec fn key_lt(keys: Seq<Seq<char>>, i: int, j: int) -> bool {
    lex_lt(keys[i], keys[j]) || (keys[i] == keys[j] && i < j)
}

proof fn lemma_key_trans(keys: Seq<Seq<char>>, i: int, j: int, k: int)
    requires
        key_lt(keys, i, j),
        key_lt(keys, j, k),
    ensures
        key_lt(keys, i, k),
{
    if lex_lt(keys[i], keys[j]) && lex_lt(keys[j], keys[k]) {
        lemma_lex_trans(keys[i], keys[j], keys[k]);
    }
}

/// The order is sorted by key, strictly.
pub open spec fn sorted_by_key(keys: Seq<Seq<char>>, s: Seq<usize>) -> bool {
    forall|a: int, b: int| 0 <= a < b < s.len() ==> key_lt(keys, #[trigger] s[a] as int, #[trigger] s[b] as int)
}

/// The indices `lo..hi`.
pub open spec fn range_seq(lo: int, hi: int) -> Seq<usize> {
    Seq::new((hi - lo) as nat, |k: int| (lo + k) as usize)
}

proof fn lemma_key_asym(keys: Seq<Seq<char>>, i: int, j: int)
    requires
        key_lt(keys, i, j),
    ensures
        !key_lt(keys, j, i),
{
    if lex_lt(keys[i], keys[j]) && lex_lt(keys[j], keys[i]) {
        lemma_lex_trans(keys[i], keys[j], keys[i]);
        lemma_lex_irrefl(keys[i]);
    }
    if keys[i] == keys[j] {
        lemma_lex_irrefl(keys[i]);
    }
}

/// Two sorted orders of the same indices are the same order.
pub proof fn lemma_sorted_unique(keys: Seq<Seq<char>>, s1: Seq<usize>, s2: Seq<usize>)
    requires
        s1.to_multiset() == s2.to_multiset(),
        sorted_by_key(keys, s1),
        sorted_by_key(keys, s2),
    ensures
        s1 == s2,
    decreases s1.len(),
{
    s1.to_multiset_ensures();
    s2.to_multiset_ensures();
    if s1.len() == 0 {
        assert(s2.len() == 0);
        assert(s1 =~= s2);
    } else {
        assert(s2.len() == s1.len());
        let a = s1[0];
        let b = s2[0];
        assert(s1.to_multiset().count(b) > 0) by {
            assert(s2.contains(b));
        }
        assert(s2.to_multiset().count(a) > 0) by {
            assert(s1.contains(a));
        }
        if a != b {
            assert(s1.contains(b));
            let i = choose|i: int| 0 <= i < s1.len() && s1[i] == b;
            assert(i > 0);
            assert(key_lt(keys, s1[0] as int, s1[i] as int));
            assert(s2.contains(a));
            let j = choose|j: int| 0 <= j < s2.len() && s2[j] == a;
            assert(j > 0);
            assert(key_lt(keys, s2[0] as int, s2[j] as int));
            lemma_key_asym(keys, a as int, b as int);
            assert(false);
        }
        let t1 = s1.drop_first();
        let t2 = s2.drop_first();
        assert(s1 =~= seq![a] + t1);
        assert(s2 =~= seq![a] + t2);
        vstd::seq_lib::lemma_multiset_commutative(seq![a], t1);
        vstd::seq_lib::lemma_multiset_commutative(seq![a], t2);
        assert(t1.to_multiset() =~= t2.to_multiset()) by {
            assert(seq![a].to_multiset().add(t1.to_multiset()) == seq![a].to_multiset().add(
                t2.to_multiset(),
            ));
            assert forall|x: usize| t1.to_multiset().count(x) == t2.to_multiset().count(x) by {
                assert(seq![a].to_multiset().add(t1.to_multiset()).count(x) == seq![a].to_multiset().add(
                    t2.to_multiset(),
                ).count(x));
            }
        }
        assert(sorted_by_key(keys, t1)) by {
            assert forall|p: int, q: int| 0 <= p < q < t1.len() implies key_lt(keys, #[trigger] t1[p] as int, #[trigger] t1[q] as int) by {
                assert(t1[p] == s1[p + 1] && t1[q] == s1[q + 1]);
            }
        }
        assert(sorted_by_key(keys, t2)) by {
            assert forall|p: int, q: int| 0 <= p < q < t2.len() implies key_lt(keys, #[trigger] t2[p] as int, #[trigger] t2[q] as int) by {
                assert(t2[p] == s2[p + 1] && t2[q] == s2[q + 1]);
            }
        }
        lemma_sorted_unique(keys, t1, t2);
    }
}

/// The sorted order of the positions `0..n` of the keys: the one order of
/// them that `sorted_by_key` accepts.
pub open spec fn sort_perm(keys: Seq<Seq<char>>) -> Seq<usize> {
    choose|o: Seq<usize>|
        o.to_multiset() == range_seq(0, keys.len() as int).to_multiset() && sorted_by_key(keys, o)
}

/// The indices `lo..hi` in the order of their keys.
fn sort_range(keys: &Vec<Vec<char>>, lo: usize, hi: usize) -> (r: Vec<usize>)
    requires
        lo <= hi <= keys@.len(),
    ensures
        r@.to_multiset() == range_seq(lo as int, hi as int).to_multiset(),
        sorted_by_key(keys@.map_values(|k: Vec<char>| k@), r@),
        forall|k: int| 0 <= k < r@.len() ==> lo <= #[trigger] r@[k] < hi,
    decreases hi - lo,
{
    let ghost ks = keys@.map_values(|k: Vec<char>| k@);
    if hi - lo <= 1 {
        let mut r = Vec::new();
        if hi - lo == 1 {
            r.push(lo);
        }
        proof {
            assert(r@ =~= range_seq(lo as int, hi as int));
        }
        return r;
    }
    let mid = lo + (hi - lo) / 2;
    let left = sort_range(keys, lo, mid);
    let right = sort_range(keys, mid, hi);
    proof {
        assert(range_seq(lo as int, hi as int) =~= range_seq(lo as int, mid as int) + range_seq(
            mid as int,
            hi as int,
        ));
        vstd::seq_lib::lemma_multiset_commutative(
            range_seq(lo as int, mid as int),
            range_seq(mid as int, hi as int),
        );
    }
    let mut out: Vec<usize> = Vec::new();
    let mut i: usize = 0;
    let mut j: usize = 0;
    while i < left.len() || j < right.len()
        invariant
            ks == keys@.map_values(|k: Vec<char>| k@),
            lo <= mid <= hi <= keys@.len(),
            0 <= i <= left@.len(),
            0 <= j <= right@.len(),
            sorted_by_key(ks, left@),
            sorted_by_key(ks, right@),
            forall|k: int| 0 <= k < left@.len() ==> lo <= #[trigger] left@[k] < mid,
            forall|k: int| 0 <= k < right@.len() ==> mid <= #[trigger] right@[k] < hi,
            out@.to_multiset() == left@.take(i as int).to_multiset().add(
                right@.take(j as int).to_multiset(),
            ),
            out@.len() == i + j,
            sorted_by_key(ks, out@),
            forall|k: int| 0 <= k < out@.len() ==> lo <= #[trigger] out@[k] < hi,
            out@.len() > 0 && i < left@.len() ==> key_lt(ks, out@.last() as int, left@[i as int] as int),
            out@.len() > 0 && j < right@.len() ==> key_lt(ks, out@.last() as int, right@[j as int] as int),
        decreases left@.len() + right@.len() - i - j,
    {
        let take_left = if i < left.len() && j < right.len() {
            let a = left[i];
            let b = right[j];
            let lt = lex_less(&keys[b], &keys[a]);
            proof {
                assert(ks[b as int] == keys@[b as int]@);
                assert(ks[a as int] == keys@[a as int]@);
            }
            !lt
        } else {
            i < left.len()
        };
        let x = if take_left {
            left[i]
        } else {
            right[j]
        };
        proof {
            if i < left.len() && j < right.len() {
                let a = left@[i as int] as int;
                let b = right@[j as int] as int;
                lemma_lex_total(ks[a], ks[b]);
                assert(a < b);
                if take_left {
                    assert(key_lt(ks, a, b));
                } else {
                    assert(key_lt(ks, b, a));
                }
            }
            // The element taken comes after everything taken before.
            assert forall|p: int, q: int|
                0 <= p < q < out@.len() + 1 implies key_lt(
                ks,
                #[trigger] out@.push(x)[p] as int,
                #[trigger] out@.push(x)[q] as int,
            ) by {
                if q == out@.len() {
                    if p < out@.len() - 1 {
                        assert(key_lt(ks, out@[p] as int, out@.last() as int));
                        lemma_key_trans(ks, out@[p] as int, out@.last() as int, x as int);
                    }
                } else {
                    assert(out@.push(x)[p] == out@[p]);
                    assert(out@.push(x)[q] == out@[q]);
                }
            }
        }
        let ghost old_out = out@;
        out.push(x);
        if take_left {
            proof {
                assert(left@.take(i + 1) =~= left@.take(i as int).push(x));
                if i + 1 < left@.len() {
                    assert(key_lt(ks, left@[i as int] as int, left@[i + 1] as int));
                }
                if j < right@.len() && i < left@.len() && j < right@.len() {
                }
            }
            i += 1;
        } else {
            proof {
                assert(right@.take(j + 1) =~= right@.take(j as int).push(x));
                if j + 1 < right@.len() {
                    assert(key_lt(ks, right@[j as int] as int, right@[j + 1] as int));
                }
            }
            j += 1;
        }
        proof {
            assert(out@.last() == x);
        }
    }
    proof {
        assert(left@.take(left@.len() as int) =~= left@);
        assert(right@.take(right@.len() as int) =~= right@);
    }
    out
}

/// The positions of the keys, in the order of the keys; equal keys keep
/// their order (a stable sort).
pub fn sorted_order(keys: &Vec<Vec<char>>) -> (r: Vec<usize>)
    ensures
        r@ == sort_perm(keys@.map_values(|k: Vec<char>| k@)),
        r@.to_multiset() == range_seq(0, keys@.len() as int).to_multiset(),
        sorted_by_key(keys@.map_values(|k: Vec<char>| k@), r@),
        forall|k: int| 0 <= k < r@.len() ==> #[trigger] r@[k] < keys@.len(),
{
    let r = sort_range(keys, 0, keys.len());
    proof {
        let ks = keys@.map_values(|k: Vec<char>| k@);
        assert(ks.len() == keys@.len());
        let o = sort_perm(ks);
        assert(r@.to_multiset() == range_seq(0, ks.len() as int).to_multiset() && sorted_by_key(ks, r@));
        lemma_sorted_unique(ks, r@, o);
    }
    r
}

} // verus!
