//! Joining two chains at one end of each.

use crate::arena::{Data, Node};
use crate::model::lemma_reverse_concat;
use crate::shape::{
    chains_of, closed, covered, lemma_chains_follow, lemma_disjoint, lemma_distinct, lemma_mirrored,
    lemma_rest_kept, lemma_reverse_ok, located, node_ok, on_path, path_ok, placed, same_off,
    separate, shape_ok, values_along,
};
use crate::xor::lemma_xor_replaces;
use vstd::prelude::*;

verus! {

/// The path of two chains joined end to end: the first path without its last
/// node, then the second without its first.
pub open spec fn joined(q: Seq<usize>, p: Seq<usize>) -> Seq<usize> {
    q.drop_last() + p.drop_first()
}

/// What the join does to the nodes: `q` runs from a far end to the end `a`
/// that goes, `p` from the end `b` that goes to the other far end.
pub open spec fn spliced<T>(
    s: Seq<Node<T>>,
    s2: Seq<Node<T>>,
    q: Seq<usize>,
    p: Seq<usize>,
) -> bool {
    let a = q.last();
    let b = p[0];
    let far_a = q[0];
    let far_b = p.last();
    let next_a = q[q.len() - 2];
    let next_b = p[1];
    &&& s2.len() == s.len()
    &&& same_off(
        s,
        s2,
        set![a as int, b as int, far_a as int, far_b as int, next_a as int, next_b as int],
    )
    &&& s2[a as int].data is Vacant
    &&& s2[b as int].data is Vacant
    &&& s2[far_a as int].data == Data::<T>::End(far_b)
    &&& s2[far_b as int].data == Data::<T>::End(far_a)
    &&& s2[next_a as int].link == s[next_a as int].link ^ (a ^ next_b)
    &&& s2[next_b as int].link == s[next_b as int].link ^ (b ^ next_a)
    &&& next_a != far_a ==> s2[far_a as int].link == s[far_a as int].link && s2[next_a as int].data
        == s[next_a as int].data
    &&& next_b != far_b ==> s2[far_b as int].link == s[far_b as int].link && s2[next_b as int].data
        == s[next_b as int].data
}

/// The paths after a join: those that were passed by, and the joined path
/// with its reverse.
pub open spec fn splice_paths(
    paths: Map<usize, Seq<usize>>,
    paths2: Map<usize, Seq<usize>>,
    a: usize,
    b: usize,
) -> bool {
    let fa = paths[a].last();
    let fb = paths[b].last();
    let whole = joined(paths[fa], paths[b]);
    &&& paths.dom().contains(a) && paths.dom().contains(b)
    &&& paths.dom().contains(fa) && paths.dom().contains(fb)
    &&& paths[a].len() >= 2 && paths[b].len() >= 2
    &&& paths[fa].len() == paths[a].len()
    &&& paths[fb].len() == paths[b].len()
    &&& forall|i: int|
        0 <= i < paths[a].len() ==> #[trigger] paths[fa][i] == paths[a][paths[a].len() - 1 - i]
    &&& forall|i: int|
        0 <= i < paths[b].len() ==> #[trigger] paths[fb][i] == paths[b][paths[b].len() - 1 - i]
    &&& paths[a][0] == a
    &&& paths[b][0] == b
    &&& fa != fb && fa != a && fa != b && fb != a && fb != b && a != b
    &&& paths2 == paths.remove(a).remove(b).insert(fa, whole).insert(fb, whole.reverse())
    &&& whole.len() == paths[a].len() + paths[b].len() - 2
    &&& forall|i: int| 0 <= i < paths[a].len() - 1 ==> #[trigger] whole[i] == paths[fa][i]
    &&& forall|i: int|
        paths[a].len() - 1 <= i < whole.len() ==> #[trigger] whole[i] == paths[b][i
            - paths[a].len() + 2]
    &&& forall|i: int, j: int|
        0 <= i < j < whole.len() ==> #[trigger] whole[i] != #[trigger] whole[j]
}

/// Where two chains stand that are to be joined: their four ends differ, the
/// paths from the far ends are the reversed paths, and no node is met twice.
pub proof fn lemma_splice_layout<T>(
    s: Seq<Node<T>>,
    paths: Map<usize, Seq<usize>>,
    a: usize,
    b: usize,
)
    requires
        shape_ok(s, paths),
        paths.dom().contains(a),
        paths.dom().contains(b),
        closed(s, paths[a]),
        closed(s, paths[b]),
        a != b,
        paths[a].last() != b,
    ensures
        ({
            let fa = paths[a].last();
            let fb = paths[b].last();
            let q = paths[fa];
            let pb = paths[b];
            &&& paths.dom().contains(fa)
            &&& paths.dom().contains(fb)
            &&& q == paths[a].reverse()
            &&& paths[fb] == pb.reverse()
            &&& q.len() == paths[a].len()
            &&& paths[fb].len() == pb.len()
            &&& forall|i: int|
                0 <= i < q.len() ==> #[trigger] q[i] == paths[a][paths[a].len() - 1 - i]
            &&& forall|i: int|
                0 <= i < pb.len() ==> #[trigger] paths[fb][i] == pb[pb.len() - 1 - i]
            &&& paths[a][0] == a
            &&& pb[0] == b
            &&& q[0] == fa
            &&& q.last() == a
            &&& q[q.len() - 2] == paths[a][1]
            &&& closed(s, q)
            &&& closed(s, paths[fb])
            &&& fa != fb && fa != a && fa != b && fb != a && fb != b
            &&& forall|i: int| 0 <= i < q.len() ==> #[trigger] node_ok(s, q, i)
            &&& forall|i: int| 0 <= i < pb.len() ==> #[trigger] node_ok(s, pb, i)
            &&& forall|i: int, j: int| 0 <= i < j < q.len() ==> #[trigger] q[i] != #[trigger] q[j]
            &&& forall|i: int, j: int|
                0 <= i < j < pb.len() ==> #[trigger] pb[i] != #[trigger] pb[j]
            &&& forall|i: int, j: int|
                0 <= i < q.len() && 0 <= j < pb.len() ==> #[trigger] q[i] != #[trigger] pb[j]
            &&& values_along(s, paths[a]) == values_along(s, q).reverse()
            &&& values_along(s, paths[fb]) == values_along(s, pb).reverse()
        }),
{
    let pa = paths[a];
    let pb = paths[b];
    let la = pa.len() as int;
    let lb = pb.len() as int;
    let fa = pa[la - 1];
    let fb = pb[lb - 1];
    let q = paths[fa];
    assert(path_ok(s, paths, a));
    lemma_reverse_ok(s, pa);
    lemma_reverse_ok(s, pb);
    assert forall|i: int, j: int| 0 <= i < q.len() && 0 <= j < pb.len() implies #[trigger] q[i]
        != #[trigger] pb[j] by {
        lemma_disjoint(paths, fa, i, b, j);
    }
    assert forall|i: int, j: int| 0 <= i < j < q.len() implies #[trigger] q[i]
        != #[trigger] q[j] by {
        lemma_distinct(paths, fa, i, j);
    }
    assert forall|i: int, j: int| 0 <= i < j < pb.len() implies #[trigger] pb[i]
        != #[trigger] pb[j] by {
        lemma_distinct(paths, b, i, j);
    }
    assert(values_along(s, pa.reverse().reverse()) == values_along(s, pa.reverse()).reverse()) by {
        lemma_reverse_ok(s, pa.reverse());
    }
}

/// After the join the joined path is in order, and its values are those of
/// the first chain followed by those of the second.
pub proof fn lemma_joined_ok<T>(s: Seq<Node<T>>, s2: Seq<Node<T>>, q: Seq<usize>, p: Seq<usize>)
    requires
        q.len() >= 2,
        p.len() >= 2,
        forall|i: int| 0 <= i < q.len() ==> #[trigger] node_ok(s, q, i),
        forall|i: int| 0 <= i < p.len() ==> #[trigger] node_ok(s, p, i),
        forall|i: int, j: int| 0 <= i < j < q.len() ==> #[trigger] q[i] != #[trigger] q[j],
        forall|i: int, j: int| 0 <= i < j < p.len() ==> #[trigger] p[i] != #[trigger] p[j],
        forall|i: int, j: int|
            0 <= i < q.len() && 0 <= j < p.len() ==> #[trigger] q[i] != #[trigger] p[j],
        spliced(s, s2, q, p),
    ensures
        joined(q, p).len() == q.len() + p.len() - 2,
        joined(q, p)[0] == q[0],
        joined(q, p).last() == p.last(),
        forall|i: int| 0 <= i < q.len() - 1 ==> #[trigger] joined(q, p)[i] == q[i],
        forall|i: int|
            q.len() - 1 <= i < joined(q, p).len() ==> #[trigger] joined(q, p)[i] == p[i - q.len()
                + 2],
        forall|i: int| 0 <= i < joined(q, p).len() ==> #[trigger] node_ok(s2, joined(q, p), i),
        forall|i: int, j: int|
            0 <= i < j < joined(q, p).len() ==> #[trigger] joined(q, p)[i] != #[trigger] joined(
                q,
                p,
            )[j],
        values_along(s2, joined(q, p)) == values_along(s, q) + values_along(s, p),
{
    let la = q.len() as int;
    let lb = p.len() as int;
    let len = la + lb - 2;
    let whole = joined(q, p);
    let a = q[la - 1];
    let b = p[0];
    let na = q[la - 2];
    let nb = p[1];
    let touched = set![a as int, b as int, q[0] as int, p[lb - 1] as int, na as int, nb as int];
    assert(whole.len() == len);
    assert(forall|i: int| 0 <= i < la - 1 ==> #[trigger] whole[i] == q[i]);
    assert forall|i: int| 0 < i < la - 2 implies s2[#[trigger] q[i] as int] == s[q[i] as int] by {
        assert(node_ok(s, q, i));
        assert(!touched.contains(q[i] as int));
    }
    assert forall|j: int| 1 < j < lb - 1 implies s2[#[trigger] p[j] as int] == s[p[j] as int] by {
        assert(node_ok(s, p, j));
    }
    assert(p[0] != p[lb - 1]);
    assert forall|i: int| 0 <= i < len implies #[trigger] node_ok(s2, whole, i) by {
        if i < la - 1 {
            assert(node_ok(s, q, i));
            if i == la - 2 {
                if i == 0 {
                    lemma_xor_replaces(0, a, nb);
                } else {
                    assert(q[0] != q[i]);
                    lemma_xor_replaces(q[la - 3], a, nb);
                }
            } else if i == 0 {
                assert(q[0] != q[la - 2]);
            } else {
                assert(s2[q[i] as int] == s[q[i] as int]);
            }
        } else {
            let j = i - la + 2;
            assert(node_ok(s, p, j));
            assert(node_ok(s, p, 0));
            if j == 1 {
                if lb == 2 {
                    lemma_xor_replaces(0, b, na);
                } else {
                    assert(p[1] != p[lb - 1]);
                    lemma_xor_replaces(p[2], b, na);
                }
            } else if j == lb - 1 {
                assert(p[1] != p[lb - 1]);
            } else {
                assert(s2[p[j] as int] == s[p[j] as int]);
            }
        }
    }
}

/// After a join no node lies on two paths.
pub proof fn lemma_splice_separate(
    paths: Map<usize, Seq<usize>>,
    paths2: Map<usize, Seq<usize>>,
    a: usize,
    b: usize,
)
    requires
        separate(paths),
        splice_paths(paths, paths2, a, b),
    ensures
        separate(paths2),
{
    let la = paths[a].len() as int;
    let lb = paths[b].len() as int;
    let fa = paths[a].last();
    let fb = paths[b].last();
    let whole = joined(paths[fa], paths[b]);
    let len = la + lb - 2;
    let changed = set![a, b, fa, fb];
    assert forall|k1: usize, i: int, k2: usize, j: int|
        on_path(paths2, k1, i) && on_path(paths2, k2, j) && paths2[k1][i]
            == paths2[k2][j] implies (k1 == k2 && i == j) || (k1 != k2 && k2 == paths2[k1].last()
        && i + j == paths2[k1].len() - 1) by {
        let i1 = if k1 == fb { len - 1 - i } else { i };
        let j1 = if k2 == fb { len - 1 - j } else { j };
        if changed.contains(k1) && changed.contains(k2) {
            assert(paths2[k1][i] == whole[i1]);
            assert(paths2[k2][j] == whole[j1]);
            if i1 < j1 {
                assert(whole[i1] != whole[j1]);
            } else if j1 < i1 {
                assert(whole[j1] != whole[i1]);
            }
        } else if changed.contains(k1) {
            assert(paths2[k1][i] == whole[i1]);
            assert(paths2[k2][j] == paths[k2][j]);
            assert(paths.dom().contains(k2));
            if i1 < la - 1 {
                lemma_disjoint(paths, k2, j, fa, i1);
            } else {
                lemma_disjoint(paths, k2, j, b, i1 - la + 2);
            }
        } else if changed.contains(k2) {
            assert(paths2[k2][j] == whole[j1]);
            assert(paths2[k1][i] == paths[k1][i]);
            assert(paths.dom().contains(k1));
            if j1 < la - 1 {
                lemma_disjoint(paths, k1, i, fa, j1);
            } else {
                lemma_disjoint(paths, k1, i, b, j1 - la + 2);
            }
        } else {
            assert(paths2[k1][i] == paths[k1][i]);
            assert(paths2[k2][j] == paths[k2][j]);
            assert(paths.dom().contains(k1) && paths.dom().contains(k2));
            if k1 == k2 {
                if i != j {
                    lemma_distinct(paths, k1, i, j);
                }
            } else if k2 != paths[k1].last() {
                lemma_disjoint(paths, k2, j, k1, i);
            } else {
                lemma_mirrored(paths, k1, i, k2, j);
            }
        }
    }
    reveal(separate);
}

/// After a join every node that is left lies on a path.
pub proof fn lemma_splice_covered<T>(
    s: Seq<Node<T>>,
    paths: Map<usize, Seq<usize>>,
    s2: Seq<Node<T>>,
    paths2: Map<usize, Seq<usize>>,
    a: usize,
    b: usize,
)
    requires
        covered(s, paths),
        splice_paths(paths, paths2, a, b),
        spliced(s, s2, paths[paths[a].last()], paths[b]),
    ensures
        covered(s2, paths2),
{
    let la = paths[a].len() as int;
    let lb = paths[b].len() as int;
    let fa = paths[a].last();
    let fb = paths[b].last();
    let na = paths[a][1];
    let nb = paths[b][1];
    let len = la + lb - 2;
    assert forall|z: int|
        0 <= z < s2.len() && !((#[trigger] s2[z]).data is Vacant) implies placed(
        paths2,
        z,
    ) by {
        if z == fa {
            assert(located(paths2, z, fa, 0));
        } else if z == fb {
            assert(located(paths2, z, fa, len - 1));
        } else if z == na {
            assert(located(paths2, z, fa, la - 2));
        } else if z == nb {
            assert(located(paths2, z, fa, la - 1));
        } else {
            let (k, i) = choose|k: usize, i: int| #[trigger] located(paths, z, k, i);
            if k == fa {
                assert(located(paths2, z, fa, i));
            } else if k == a {
                assert(located(paths2, z, fa, la - 1 - i));
            } else if k == b {
                assert(located(paths2, z, fa, i + la - 2));
            } else if k == fb {
                assert(located(paths2, z, fa, lb - 1 - i + la - 2));
            } else {
                assert(located(paths2, z, k, i));
            }
        }
    }
}

/// Two chains joined at the ends `a` and `b`, which leave the store. The
/// neighbour of each takes the other's neighbour in its place, and the far
/// ends name each other.
pub proof fn lemma_splice<T>(
    s: Seq<Node<T>>,
    paths: Map<usize, Seq<usize>>,
    s2: Seq<Node<T>>,
    a: usize,
    b: usize,
)
    requires
        shape_ok(s, paths),
        paths.dom().contains(a),
        paths.dom().contains(b),
        closed(s, paths[a]),
        closed(s, paths[b]),
        a != b,
        paths[a].last() != b,
        spliced(s, s2, paths[paths[a].last()], paths[b]),
    ensures
        ({
            let far_a = paths[a].last();
            let far_b = paths[b].last();
            let whole = joined(paths[far_a], paths[b]);
            let paths2 = paths.remove(a).remove(b).insert(far_a, whole).insert(
                far_b,
                whole.reverse(),
            );
            let m = chains_of(s, paths);
            &&& shape_ok(s2, paths2)
            &&& m.apart(a, b)
            &&& chains_of(s2, paths2) == m.splice(a, b)
        }),
{
    let pa = paths[a];
    let pb = paths[b];
    let la = pa.len() as int;
    let lb = pb.len() as int;
    let fa = pa[la - 1];
    let fb = pb[lb - 1];
    let na = pa[1];
    let nb = pb[1];
    let q = paths[fa];
    let whole = joined(q, pb);
    let r2 = whole.reverse();
    let len = la + lb - 2;
    let paths2 = paths.remove(a).remove(b).insert(fa, whole).insert(fb, r2);
    let m = chains_of(s, paths);
    let touched = set![a as int, b as int, fa as int, fb as int, na as int, nb as int];
    let changed = set![a, b, fa, fb];
    lemma_splice_layout(s, paths, a, b);
    lemma_joined_ok(s, s2, q, pb);
    lemma_reverse_ok(s2, whole);
    // the paths that are passed by
    assert forall|k: usize|
        #![trigger paths.dom().contains(k)]
        paths.dom().contains(k) && !changed.contains(k) implies paths2.dom().contains(k)
        && paths2[k] == paths[k] && !changed.contains(paths[k].last()) by {
        // a path that ended at one of the four ends would be the reverse
        // of that end's path, and so the path of another of the four
    }
    assert forall|k: usize, i: int|
        #![trigger paths[k][i]]
        on_path(paths, k, i) && !changed.contains(k) implies !touched.contains(
        paths[k][i] as int,
    ) by {
        lemma_disjoint(paths, k, i, a, 0);
        lemma_disjoint(paths, k, i, a, 1);
        lemma_disjoint(paths, k, i, a, la - 1);
        lemma_disjoint(paths, k, i, b, 0);
        lemma_disjoint(paths, k, i, b, 1);
        lemma_disjoint(paths, k, i, b, lb - 1);
    }
    lemma_rest_kept(s, paths, s2, paths2, touched, changed);
    lemma_splice_separate(paths, paths2, a, b);
    lemma_splice_covered(s, paths, s2, paths2, a, b);
    lemma_reverse_concat(values_along(s, q), values_along(s, pb));
    lemma_chains_follow(s, paths, s2, paths2, changed, m.splice(a, b));
}

} // verus!
