//! How chains lie in the node memory.
//!
//! A path is the sequence of addresses met when walking from an end node. A
//! chain has two paths, one from each end, each the reverse of the other. A
//! loop that is being drained, like a chain that is being built, has one: from
//! its end node to the node that was reached last.

use crate::arena::{Data, Node};
use crate::model::{Chains, EndView};
use crate::xor::lemma_xor_commutes;
use vstd::prelude::*;

pub mod grow;
pub mod shrink;
pub mod splice;

verus! {

/// The link word that the node at position `i` of the path `p` holds: the
/// neighbours it has in `p`, folded together.
pub open spec fn expected_link(p: Seq<usize>, i: int) -> usize {
    if p.len() <= 1 {
        0
    } else if i == 0 {
        p[1]
    } else if i == p.len() - 1 {
        p[i - 1]
    } else {
        p[i - 1] ^ p[i + 1]
    }
}

/// The path `p` runs from one end node to another.
pub open spec fn closed<T>(s: Seq<Node<T>>, p: Seq<usize>) -> bool {
    p.len() >= 2 && s[p.last() as int].data is End
}

/// The node at position `i` of `p` is of the right kind and holds the right
/// link: an end node first, interior nodes after it, and at the last place
/// either an interior node or the end node that the first one names.
pub open spec fn node_ok<T>(s: Seq<Node<T>>, p: Seq<usize>, i: int) -> bool {
    &&& p[i] < s.len()
    &&& s[p[i] as int].link == expected_link(p, i)
    &&& if i == 0 {
        s[p[i] as int].data is End
    } else if i < p.len() - 1 {
        s[p[i] as int].data is Interior
    } else {
        ||| s[p[i] as int].data is Interior
        ||| (s[p[i] as int].data == Data::<T>::End(p[0]) && s[p[0] as int].data == Data::<T>::End(
            p[i],
        ))
    }
}

/// The path recorded for `k` starts at `k`, every node on it is in order, and
/// where it ends in an end node, that one's path is this one reversed.
pub open spec fn path_ok<T>(s: Seq<Node<T>>, paths: Map<usize, Seq<usize>>, k: usize) -> bool {
    let p = paths[k];
    &&& p.len() >= 1
    &&& p[0] == k
    &&& forall|i: int| 0 <= i < p.len() ==> #[trigger] node_ok(s, p, i)
    &&& closed(s, p) ==> paths.dom().contains(p.last()) && paths[p.last()] == p.reverse()
}

/// `i` is a position of the path recorded for `k`.
pub open spec fn on_path(paths: Map<usize, Seq<usize>>, k: usize, i: int) -> bool {
    paths.dom().contains(k) && 0 <= i < paths[k].len()
}

/// No node lies on two paths, or twice on one, but for a chain's nodes, which
/// lie on its two paths at mirrored positions.
#[verifier::opaque]
pub open spec fn separate(paths: Map<usize, Seq<usize>>) -> bool {
    forall|k1: usize, i: int, k2: usize, j: int|
        #![trigger paths[k1][i], paths[k2][j]]
        on_path(paths, k1, i) && on_path(paths, k2, j) && paths[k1][i] == paths[k2][j] ==> (k1
            == k2 && i == j) || (k1 != k2 && k2 == paths[k1].last() && i + j == paths[k1].len()
            - 1)
}

/// The node `x` lies at position `i` of the path recorded for `k`.
pub open spec fn located(paths: Map<usize, Seq<usize>>, x: int, k: usize, i: int) -> bool {
    on_path(paths, k, i) && paths[k][i] == x
}

/// The node `x` lies on some path.
pub open spec fn placed(paths: Map<usize, Seq<usize>>, x: int) -> bool {
    exists|k: usize, i: int| #[trigger] located(paths, x, k, i)
}

/// Every occupied slot lies on some path.
pub open spec fn covered<T>(s: Seq<Node<T>>, paths: Map<usize, Seq<usize>>) -> bool {
    forall|x: int| 0 <= x < s.len() && !((#[trigger] s[x]).data is Vacant) ==> placed(paths, x)
}

/// The paths describe the node memory, wholly and without overlap.
pub open spec fn shape_ok<T>(s: Seq<Node<T>>, paths: Map<usize, Seq<usize>>) -> bool {
    &&& forall|k: usize| #[trigger] paths.dom().contains(k) ==> path_ok(s, paths, k)
    &&& separate(paths)
    &&& covered(s, paths)
}

/// The value of the interior node at `x`.
pub open spec fn value_at<T>(s: Seq<Node<T>>, x: usize) -> T {
    s[x as int].data->Interior_0
}

/// The values of a chain, in the order of its path `p`.
pub open spec fn values_along<T>(s: Seq<Node<T>>, p: Seq<usize>) -> Seq<T> {
    if p.len() >= 2 {
        Seq::new((p.len() - 2) as nat, |i: int| value_at(s, p[i + 1]))
    } else {
        Seq::empty()
    }
}

/// The values on the path `p` of a loop, from the node reached last back to
/// the one next to the end node: the order in which they are yielded.
pub open spec fn values_pending<T>(s: Seq<Node<T>>, p: Seq<usize>) -> Seq<T> {
    if p.len() >= 1 {
        Seq::new((p.len() - 1) as nat, |i: int| value_at(s, p[p.len() - 1 - i]))
    } else {
        Seq::empty()
    }
}

/// What the node memory and its paths stand for.
pub open spec fn chains_of<T>(s: Seq<Node<T>>, paths: Map<usize, Seq<usize>>) -> Chains<T> {
    Chains {
        ends: Map::new(
            |e: usize| paths.dom().contains(e) && closed(s, paths[e]),
            |e: usize| EndView { other: paths[e].last(), values: values_along(s, paths[e]) },
        ),
        drains: Map::new(
            |t: usize| paths.dom().contains(t) && !closed(s, paths[t]),
            |t: usize| values_pending(s, paths[t]),
        ),
    }
}

/// The slot at `x` holds no node yet.
pub open spec fn fresh<T>(s: Seq<Node<T>>, x: usize) -> bool {
    x >= s.len() || s[x as int].data is Vacant
}

/// `s2` has the nodes of `s`, and no others, but at the addresses `touched`.
pub open spec fn same_off<T>(s: Seq<Node<T>>, s2: Seq<Node<T>>, touched: Set<int>) -> bool {
    &&& s2.len() >= s.len()
    &&& forall|z: int|
        0 <= z < s2.len() && !touched.contains(z) ==> z < s.len() && #[trigger] s2[z] == s[z]
}

/// The nodes on the path `p` are in `s2` what they are in `s`.
pub open spec fn kept<T>(s: Seq<Node<T>>, s2: Seq<Node<T>>, p: Seq<usize>) -> bool {
    forall|i: int|
        #![trigger p[i]]
        0 <= i < p.len() ==> p[i] < s2.len() && s2[p[i] as int] == s[p[i] as int]
}

/// A memory without nodes and without paths is well shaped, and stands for
/// no chain.
pub proof fn lemma_empty_ok<T>()
    ensures
        shape_ok(Seq::<Node<T>>::empty(), Map::<usize, Seq<usize>>::empty()),
        chains_of(Seq::<Node<T>>::empty(), Map::<usize, Seq<usize>>::empty()) == Chains::<
            T,
        >::empty(),
{
    reveal(separate);
}

/// A node that lies on a path is in the memory and occupied.
pub proof fn lemma_on_path_occupied<T>(
    s: Seq<Node<T>>,
    paths: Map<usize, Seq<usize>>,
    k: usize,
    i: int,
)
    requires
        path_ok(s, paths, k),
        on_path(paths, k, i),
    ensures
        paths[k][i] < s.len(),
        !(s[paths[k][i] as int].data is Vacant),
{
    assert(node_ok(s, paths[k], i));
}

/// A fresh slot lies on no path.
pub proof fn lemma_fresh_off_paths<T>(s: Seq<Node<T>>, paths: Map<usize, Seq<usize>>, x: usize)
    requires
        shape_ok(s, paths),
        fresh(s, x),
    ensures
        !paths.dom().contains(x),
        forall|k: usize, i: int| on_path(paths, k, i) ==> #[trigger] paths[k][i] != x,
{
    assert forall|k: usize, i: int| on_path(paths, k, i) implies #[trigger] paths[k][i] != x by {
        lemma_on_path_occupied(s, paths, k, i);
    }
}

/// Two paths that are neither the same nor each other's reverse share no node.
pub proof fn lemma_disjoint(paths: Map<usize, Seq<usize>>, k: usize, i: int, c: usize, j: int)
    requires
        separate(paths),
        on_path(paths, k, i),
        on_path(paths, c, j),
        k != c,
        k != paths[c].last(),
    ensures
        paths[k][i] != paths[c][j],
{
    reveal(separate);
}

/// A node occurs once on a path.
pub proof fn lemma_distinct(paths: Map<usize, Seq<usize>>, k: usize, i: int, j: int)
    requires
        separate(paths),
        on_path(paths, k, i),
        on_path(paths, k, j),
        i != j,
    ensures
        paths[k][i] != paths[k][j],
{
    reveal(separate);
}

/// A node that lies on a path and on its reverse lies at mirrored positions.
pub proof fn lemma_mirrored(paths: Map<usize, Seq<usize>>, k1: usize, i: int, k2: usize, j: int)
    requires
        separate(paths),
        on_path(paths, k1, i),
        on_path(paths, k2, j),
        paths[k1][i] == paths[k2][j],
        k1 != k2,
    ensures
        k2 == paths[k1].last(),
        i + j == paths[k1].len() - 1,
{
    reveal(separate);
}

/// A path none of whose nodes was touched has kept its nodes.
pub proof fn lemma_bystander<T>(
    s: Seq<Node<T>>,
    paths: Map<usize, Seq<usize>>,
    s2: Seq<Node<T>>,
    touched: Set<int>,
    k: usize,
)
    requires
        paths.dom().contains(k),
        path_ok(s, paths, k),
        same_off(s, s2, touched),
        forall|i: int|
            #![trigger paths[k][i]]
            0 <= i < paths[k].len() ==> !touched.contains(paths[k][i] as int),
    ensures
        kept(s, s2, paths[k]),
{
    assert forall|i: int| #![trigger paths[k][i]] 0 <= i < paths[k].len() implies paths[k][i]
        < s2.len() && s2[paths[k][i] as int] == s[paths[k][i] as int] by {
        lemma_on_path_occupied(s, paths, k, i);
    }
}

/// A path whose nodes are as they were is still in order, and stands for the
/// same values.
pub proof fn lemma_path_kept<T>(
    s: Seq<Node<T>>,
    paths: Map<usize, Seq<usize>>,
    s2: Seq<Node<T>>,
    paths2: Map<usize, Seq<usize>>,
    k: usize,
)
    requires
        paths.dom().contains(k),
        path_ok(s, paths, k),
        paths2.dom().contains(k),
        paths2[k] == paths[k],
        s2.len() >= s.len(),
        kept(s, s2, paths[k]),
        closed(s, paths[k]) ==> paths2.dom().contains(paths[k].last()) && paths2[paths[k].last()]
            == paths[paths[k].last()],
    ensures
        path_ok(s2, paths2, k),
        closed(s2, paths[k]) == closed(s, paths[k]),
        values_along(s2, paths[k]) == values_along(s, paths[k]),
        values_pending(s2, paths[k]) == values_pending(s, paths[k]),
{
    let p = paths[k];
    assert forall|i: int| 0 <= i < p.len() implies #[trigger] node_ok(s2, p, i) by {
        assert(node_ok(s, p, i));
    }
}

/// The paths that a change passes by: they are in order as before, and stand
/// for what they stood for.
pub proof fn lemma_rest_kept<T>(
    s: Seq<Node<T>>,
    paths: Map<usize, Seq<usize>>,
    s2: Seq<Node<T>>,
    paths2: Map<usize, Seq<usize>>,
    touched: Set<int>,
    changed: Set<usize>,
)
    requires
        shape_ok(s, paths),
        same_off(s, s2, touched),
        forall|k: usize|
            #![trigger paths.dom().contains(k)]
            paths.dom().contains(k) && !changed.contains(k) ==> paths2.dom().contains(k)
                && paths2[k] == paths[k] && !changed.contains(paths[k].last()),
        forall|k: usize, i: int|
            #![trigger paths[k][i]]
            on_path(paths, k, i) && !changed.contains(k) ==> !touched.contains(paths[k][i] as int),
    ensures
        forall|k: usize|
            #![trigger paths.dom().contains(k)]
            paths.dom().contains(k) && !changed.contains(k) ==> {
                &&& path_ok(s2, paths2, k)
                &&& closed(s2, paths2[k]) == closed(s, paths[k])
                &&& values_along(s2, paths2[k]) == values_along(s, paths[k])
                &&& values_pending(s2, paths2[k]) == values_pending(s, paths[k])
            },
{
    assert forall|k: usize|
        #![trigger paths.dom().contains(k)]
        paths.dom().contains(k) && !changed.contains(k) implies {
        &&& path_ok(s2, paths2, k)
        &&& closed(s2, paths2[k]) == closed(s, paths[k])
        &&& values_along(s2, paths2[k]) == values_along(s, paths[k])
        &&& values_pending(s2, paths2[k]) == values_pending(s, paths[k])
    } by {
        lemma_bystander(s, paths, s2, touched, k);
        lemma_path_kept(s, paths, s2, paths2, k);
    }
}

/// The paths stand for `want` where `want` differs from what the paths stood
/// for before only at the keys that changed, and is right at those.
pub proof fn lemma_chains_follow<T>(
    s: Seq<Node<T>>,
    paths: Map<usize, Seq<usize>>,
    s2: Seq<Node<T>>,
    paths2: Map<usize, Seq<usize>>,
    changed: Set<usize>,
    want: Chains<T>,
)
    requires
        forall|k: usize|
            #![trigger paths.dom().contains(k)]
            paths.dom().contains(k) && !changed.contains(k) ==> {
                &&& paths2.dom().contains(k)
                &&& paths2[k] == paths[k]
                &&& closed(s2, paths2[k]) == closed(s, paths[k])
                &&& values_along(s2, paths2[k]) == values_along(s, paths[k])
                &&& values_pending(s2, paths2[k]) == values_pending(s, paths[k])
            },
        forall|k: usize|
            #![trigger paths2.dom().contains(k)]
            paths2.dom().contains(k) && !changed.contains(k) ==> paths.dom().contains(k),
        forall|e: usize|
            #![trigger want.ends.dom().contains(e)]
            #![trigger want.drains.dom().contains(e)]
            {
                let m = if changed.contains(e) {
                    chains_of(s2, paths2)
                } else {
                    chains_of(s, paths)
                };
                &&& want.ends.dom().contains(e) == m.ends.dom().contains(e)
                &&& want.ends.dom().contains(e) ==> want.ends[e] == m.ends[e]
                &&& want.drains.dom().contains(e) == m.drains.dom().contains(e)
                &&& want.drains.dom().contains(e) ==> want.drains[e] == m.drains[e]
            },
    ensures
        chains_of(s2, paths2) == want,
{
    let m2 = chains_of(s2, paths2);
    assert(m2.ends =~= want.ends);
    assert(m2.drains =~= want.drains);
}

/// A path between two end nodes that is in order is in order read backwards.
pub proof fn lemma_reverse_ok<T>(s: Seq<Node<T>>, p: Seq<usize>)
    requires
        p.len() >= 2,
        forall|i: int| 0 <= i < p.len() ==> #[trigger] node_ok(s, p, i),
        s[p.last() as int].data is End,
    ensures
        forall|i: int| 0 <= i < p.len() ==> #[trigger] node_ok(s, p.reverse(), i),
        p.reverse().len() == p.len(),
        p.reverse()[0] == p.last(),
        p.reverse().last() == p[0],
        p.reverse().reverse() == p,
        closed(s, p.reverse()),
        values_along(s, p.reverse()) == values_along(s, p).reverse(),
{
    let r = p.reverse();
    let n = p.len() as int;
    assert(node_ok(s, p, n - 1));
    assert forall|i: int| 0 <= i < n implies #[trigger] node_ok(s, r, i) by {
        assert(node_ok(s, p, n - 1 - i));
        if 0 < i < n - 1 {
            lemma_xor_commutes(p[n - 2 - i], p[n - i]);
        }
    }
}

/// The paths of a well-shaped memory stand for a well-formed set of chains.
pub proof fn lemma_chains_wf<T>(s: Seq<Node<T>>, paths: Map<usize, Seq<usize>>)
    requires
        shape_ok(s, paths),
    ensures
        chains_of(s, paths).wf(),
{
    let m = chains_of(s, paths);
    assert forall|e: usize| #[trigger] m.ends.dom().contains(e) implies {
        let o = m.ends[e].other;
        &&& o != e
        &&& m.ends.dom().contains(o)
        &&& m.ends[o].other == e
        &&& m.ends[o].values == m.ends[e].values.reverse()
        &&& !m.drains.dom().contains(e)
    } by {
        let p = paths[e];
        assert(node_ok(s, p, 0));
        lemma_distinct(paths, e, 0, p.len() - 1);
    }
}

} // verus!
