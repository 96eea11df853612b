//! Taking a path apart from its far side: the way a chain is closed and a
//! loop is drained.

use crate::arena::{Data, Node};
use crate::shape::{
    chains_of, closed, covered, lemma_chains_follow, lemma_disjoint, lemma_distinct,
    lemma_rest_kept, located, node_ok, on_path, placed, same_off, separate, shape_ok, values_along,
    values_pending,
};
use crate::xor::{lemma_xor_cancels, lemma_xor_zero};
use vstd::prelude::*;

verus! {

/// The last node of a path taken away, folded out of its neighbour's link and
/// its slot vacated. Taken from a chain, it is the far end, and what is left
/// is a loop that yields the chain's values as read from there. Taken from a
/// loop, it is the node whose value was next.
pub proof fn lemma_drop_last<T>(
    s: Seq<Node<T>>,
    paths: Map<usize, Seq<usize>>,
    s2: Seq<Node<T>>,
    t: usize,
)
    requires
        shape_ok(s, paths),
        paths.dom().contains(t),
        paths[t].len() >= 2,
        s2.len() == s.len(),
        ({
            let p = paths[t];
            let x = p[p.len() - 1];
            let c = p[p.len() - 2];
            &&& same_off(s, s2, set![x as int, c as int])
            &&& s2[x as int].data is Vacant
            &&& s2[c as int] == (Node { link: s[c as int].link ^ x, data: s[c as int].data })
        }),
    ensures
        ({
            let p = paths[t];
            let x = p[p.len() - 1];
            let paths2 = paths.remove(x).insert(t, p.drop_last());
            let m = chains_of(s, paths);
            &&& shape_ok(s2, paths2)
            &&& !closed(s2, paths2[t])
            &&& closed(s, p) ==> m.paired(t, x) && chains_of(s2, paths2) == m.close(t, x)
            &&& !closed(s, p) ==> {
                &&& m.drains.dom().contains(t)
                &&& m.drains[t].len() > 0
                &&& s[x as int].data == Data::Interior(m.drains[t][0])
                &&& chains_of(s2, paths2) == m.step(t)
            }
        }),
{
    let p = paths[t];
    let n = p.len() as int;
    let x = p[n - 1];
    let c = p[n - 2];
    let q = p.drop_last();
    let paths2 = paths.remove(x).insert(t, q);
    let m = chains_of(s, paths);
    let touched = set![x as int, c as int];
    let changed = set![t, x];
    assert(node_ok(s, p, 0));
    assert(node_ok(s, p, n - 1));
    assert(node_ok(s, p, n - 2));
    if !closed(s, p) && paths.dom().contains(x) {
        // an interior node is no key
        assert(node_ok(s, paths[x], 0));
    }
    // the paths that are passed by
    assert forall|k: usize, i: int|
        #![trigger paths[k][i]]
        on_path(paths, k, i) && !changed.contains(k) implies !touched.contains(
        paths[k][i] as int,
    ) by {
        lemma_disjoint(paths, k, i, t, n - 1);
        lemma_disjoint(paths, k, i, t, n - 2);
    }
    lemma_rest_kept(s, paths, s2, paths2, touched, changed);
    assert forall|i: int| 0 <= i < n - 2 implies s2[#[trigger] p[i] as int] == s[p[i] as int] by {
        assert(node_ok(s, p, i));
        lemma_distinct(paths, t, i, n - 1);
        lemma_distinct(paths, t, i, n - 2);
        assert(!touched.contains(p[i] as int));
    }
    assert forall|i: int| 0 <= i < q.len() implies #[trigger] node_ok(s2, q, i) by {
        assert(node_ok(s, p, i));
        if i < n - 2 {
            assert(s2[p[i] as int] == s[p[i] as int]);
        } else {
            lemma_xor_zero(x);
            if n > 2 {
                lemma_xor_cancels(p[n - 3], x);
            }
        }
    }
    assert(!closed(s2, q));
    assert(separate(paths2)) by {
        reveal(separate);
    }
    assert(covered(s2, paths2)) by {
        assert forall|z: int|
            0 <= z < s2.len() && !((#[trigger] s2[z]).data is Vacant) implies placed(
            paths2,
            z,
        ) by {
            if z == c {
                assert(located(paths2, z, t, n - 2));
            } else {
                let (k, i) = choose|k: usize, i: int| #[trigger] located(paths, z, k, i);
                if k == t {
                    assert(located(paths2, z, t, i));
                } else if k == x {
                    assert(located(paths2, z, t, n - 1 - i));
                } else {
                    assert(located(paths2, z, k, i));
                }
            }
        }
    }
    if closed(s, p) {
        let r = p.reverse();
        assert(values_pending(s2, q) =~= values_along(s, r));
        lemma_chains_follow(s, paths, s2, paths2, changed, m.close(t, x));
    } else {
        assert(values_pending(s2, q) =~= values_pending(s, p).skip(1));
        lemma_chains_follow(s, paths, s2, paths2, changed, m.step(t));
    }
}

/// An end node that stands alone, given up: its path goes, and nothing else
/// changes.
pub proof fn lemma_vanish<T>(
    s: Seq<Node<T>>,
    paths: Map<usize, Seq<usize>>,
    s2: Seq<Node<T>>,
    t: usize,
)
    requires
        shape_ok(s, paths),
        paths.dom().contains(t),
        paths[t].len() == 1,
        s2.len() == s.len(),
        same_off(s, s2, set![t as int]),
        s2[t as int].data is Vacant,
    ensures
        shape_ok(s2, paths.remove(t)),
        chains_of(s, paths).drains.dom().contains(t),
        chains_of(s, paths).drains[t].len() == 0,
        chains_of(s2, paths.remove(t)) == chains_of(s, paths).release(t),
{
    let paths2 = paths.remove(t);
    let m = chains_of(s, paths);
    let touched = set![t as int];
    let changed = set![t];
    // the paths that are passed by
    assert forall|k: usize|
        #![trigger paths.dom().contains(k)]
        paths.dom().contains(k) && !changed.contains(k) implies paths2.dom().contains(k)
        && paths2[k] == paths[k] && !changed.contains(paths[k].last()) by {
        lemma_disjoint(paths, k, paths[k].len() - 1, t, 0);
    }
    assert forall|k: usize, i: int|
        #![trigger paths[k][i]]
        on_path(paths, k, i) && !changed.contains(k) implies !touched.contains(
        paths[k][i] as int,
    ) by {
        lemma_disjoint(paths, k, i, t, 0);
    }
    lemma_rest_kept(s, paths, s2, paths2, touched, changed);
    assert(separate(paths2)) by {
        reveal(separate);
    }
    assert(covered(s2, paths2)) by {
        assert forall|z: int|
            0 <= z < s2.len() && !((#[trigger] s2[z]).data is Vacant) implies placed(
            paths2,
            z,
        ) by {
            let (k, i) = choose|k: usize, i: int| #[trigger] located(paths, z, k, i);
            assert(located(paths2, z, k, i));
        }
    }
    lemma_chains_follow(s, paths, s2, paths2, changed, m.release(t));
}

} // verus!
