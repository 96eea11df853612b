//! Building a chain: two end nodes, then one interior node after the other,
//! then the second end node behind the last.

use crate::arena::{Data, Node};
use crate::model::{Chains, EndView};
use crate::shape::{
    chains_of, closed, covered, fresh, lemma_chains_follow, lemma_disjoint, lemma_distinct,
    lemma_fresh_off_paths, lemma_rest_kept, lemma_reverse_ok, located, node_ok, on_path, path_ok,
    placed, same_off, separate, shape_ok, value_at, values_along, values_pending,
};
use crate::xor::lemma_xor_zero;
use vstd::prelude::*;

verus! {

/// Two end nodes that name each other and have no neighbour yet are two
/// paths of one node each.
pub proof fn lemma_plant_pair<T>(
    s: Seq<Node<T>>,
    paths: Map<usize, Seq<usize>>,
    s2: Seq<Node<T>>,
    e1: usize,
    e2: usize,
)
    requires
        shape_ok(s, paths),
        e1 != e2,
        fresh(s, e1),
        fresh(s, e2),
        e1 < s2.len(),
        e2 < s2.len(),
        same_off(s, s2, set![e1 as int, e2 as int]),
        s2[e1 as int] == (Node { link: 0, data: Data::<T>::End(e2) }),
        s2[e2 as int] == (Node { link: 0, data: Data::<T>::End(e1) }),
    ensures
        !paths.dom().contains(e1),
        !paths.dom().contains(e2),
        ({
            let paths2 = paths.insert(e1, seq![e1]).insert(e2, seq![e2]);
            let m = chains_of(s, paths);
            &&& shape_ok(s2, paths2)
            &&& chains_of(s2, paths2) == (Chains {
                ends: m.ends,
                drains: m.drains.insert(e1, Seq::empty()).insert(e2, Seq::empty()),
            })
        }),
{
    let paths2 = paths.insert(e1, seq![e1]).insert(e2, seq![e2]);
    let m = chains_of(s, paths);
    let touched = set![e1 as int, e2 as int];
    let changed = set![e1, e2];
    lemma_fresh_off_paths(s, paths, e1);
    lemma_fresh_off_paths(s, paths, e2);
    // the paths that are passed by
    assert forall|k: usize|
        #![trigger paths.dom().contains(k)]
        paths.dom().contains(k) && !changed.contains(k) implies paths2.dom().contains(k)
        && paths2[k] == paths[k] && !changed.contains(paths[k].last()) by {
    }
    lemma_rest_kept(s, paths, s2, paths2, touched, changed);
    assert(separate(paths2)) by {
        reveal(separate);
    }
    assert(covered(s2, paths2)) by {
        assert forall|x: int|
            0 <= x < s2.len() && !((#[trigger] s2[x]).data is Vacant) implies placed(
            paths2,
            x,
        ) by {
            if x == e1 {
                assert(located(paths2, x, e1, 0));
            } else if x == e2 {
                assert(located(paths2, x, e2, 0));
            } else {
                let (k, i) = choose|k: usize, i: int| #[trigger] located(paths, x, k, i);
                assert(located(paths2, x, k, i));
            }
        }
    }
    assert(values_pending(s2, paths2[e1]) =~= Seq::<T>::empty());
    assert(values_pending(s2, paths2[e2]) =~= Seq::<T>::empty());
    lemma_chains_follow(
        s,
        paths,
        s2,
        paths2,
        changed,
        Chains { ends: m.ends, drains: m.drains.insert(e1, Seq::empty()).insert(e2, Seq::empty()) },
    );
}

/// A new interior node behind the last node of an open path lengthens the
/// path by one, and its value is the next to be yielded.
pub proof fn lemma_grow<T>(
    s: Seq<Node<T>>,
    paths: Map<usize, Seq<usize>>,
    s2: Seq<Node<T>>,
    t: usize,
    x: usize,
    v: T,
)
    requires
        shape_ok(s, paths),
        paths.dom().contains(t),
        !closed(s, paths[t]),
        fresh(s, x),
        x < s2.len(),
        same_off(s, s2, set![x as int, paths[t].last() as int]),
        s2[x as int] == (Node { link: paths[t].last(), data: Data::Interior(v) }),
        s2[paths[t].last() as int] == (Node {
            link: s[paths[t].last() as int].link ^ x,
            data: s[paths[t].last() as int].data,
        }),
    ensures
        ({
            let paths2 = paths.insert(t, paths[t].push(x));
            let m = chains_of(s, paths);
            &&& shape_ok(s2, paths2)
            &&& chains_of(s2, paths2) == (Chains {
                ends: m.ends,
                drains: m.drains.insert(t, seq![v] + m.drains[t]),
            })
        }),
{
    let p = paths[t];
    let n = p.len() as int;
    let c = p[n - 1];
    let longer = p.push(x);
    let paths2 = paths.insert(t, longer);
    let m = chains_of(s, paths);
    let touched = set![x as int, c as int];
    let changed = set![t];
    lemma_fresh_off_paths(s, paths, x);
    // the paths that are passed by
    assert forall|k: usize, i: int|
        #![trigger paths[k][i]]
        on_path(paths, k, i) && !changed.contains(k) implies !touched.contains(
        paths[k][i] as int,
    ) by {
        // `k` is an end node, and the last node of an open path is `t` or
        // an interior node
        assert(node_ok(s, paths[k], 0));
        lemma_disjoint(paths, k, i, t, n - 1);
    }
    assert forall|k: usize|
        #![trigger paths.dom().contains(k)]
        paths.dom().contains(k) && !changed.contains(k) implies paths2.dom().contains(k)
        && paths2[k] == paths[k] && !changed.contains(paths[k].last()) by {
        lemma_disjoint(paths, k, paths[k].len() - 1, t, 0);
    }
    lemma_rest_kept(s, paths, s2, paths2, touched, changed);
    // the lengthened path
    assert forall|i: int| 0 <= i < longer.len() implies #[trigger] node_ok(s2, longer, i) by {
        if i < n - 1 {
            assert(node_ok(s, p, i));
            lemma_distinct(paths, t, i, n - 1);
        } else if i == n - 1 {
            assert(node_ok(s, p, i));
            lemma_xor_zero(x);
        }
    }
    assert(separate(paths2)) by {
        reveal(separate);
        assert forall|k1: usize, i: int, k2: usize, j: int|
            #![trigger paths2[k1][i], paths2[k2][j]]
            on_path(paths2, k1, i) && on_path(paths2, k2, j) && paths2[k1][i]
                == paths2[k2][j] implies (k1 == k2 && i == j) || (k1 != k2 && k2
                == paths2[k1].last() && i + j == paths2[k1].len() - 1) by {
            if k1 == t && i < n {
                assert(paths2[k1][i] == paths[t][i]);
            }
            if k2 == t && j < n {
                assert(paths2[k2][j] == paths[t][j]);
            }
            if k1 != t {
                assert(paths2[k1][i] == paths[k1][i]);
                assert(paths.dom().contains(k1) && !changed.contains(k1));
            }
            if k2 != t {
                assert(paths2[k2][j] == paths[k2][j]);
            }
        }
    }
    assert(covered(s2, paths2)) by {
        assert forall|z: int|
            0 <= z < s2.len() && !((#[trigger] s2[z]).data is Vacant) implies placed(
            paths2,
            z,
        ) by {
            if z == x {
                assert(located(paths2, z, t, n));
            } else if z == c {
                assert(located(paths2, z, t, n - 1));
            } else {
                let (k, i) = choose|k: usize, i: int| #[trigger] located(paths, z, k, i);
                assert(located(paths2, z, k, i));
            }
        }
    }
    assert forall|j: int| 0 <= j < n - 1 implies value_at(s2, #[trigger] p[j]) == value_at(
        s,
        p[j],
    ) by {
        assert(node_ok(s, p, j));
    }
    assert(values_pending(s2, longer) =~= seq![v] + values_pending(s, p));
    lemma_chains_follow(
        s,
        paths,
        s2,
        paths2,
        changed,
        Chains { ends: m.ends, drains: m.drains.insert(t, seq![v] + m.drains[t]) },
    );
}

/// An open path closed with an end node that stood alone: the two end nodes
/// name each other, and the path becomes a chain with the values that were
/// pending, first in last out.
pub proof fn lemma_seal<T>(
    s: Seq<Node<T>>,
    paths: Map<usize, Seq<usize>>,
    s2: Seq<Node<T>>,
    a: usize,
    b: usize,
)
    requires
        shape_ok(s, paths),
        paths.dom().contains(a),
        paths.dom().contains(b),
        a != b,
        !closed(s, paths[a]),
        paths[b].len() == 1,
        s[a as int].data == Data::<T>::End(b),
        s[b as int].data == Data::<T>::End(a),
        s2.len() == s.len(),
        ({
            let c = paths[a].last();
            &&& same_off(s, s2, set![b as int, c as int])
            &&& s2[b as int] == (Node { link: c, data: s[b as int].data })
            &&& s2[c as int] == (Node { link: s[c as int].link ^ b, data: s[c as int].data })
        }),
    ensures
        ({
            let longer = paths[a].push(b);
            let paths2 = paths.insert(a, longer).insert(b, longer.reverse());
            let m = chains_of(s, paths);
            &&& shape_ok(s2, paths2)
            &&& m.drains.dom().contains(a)
            &&& m.drains.dom().contains(b)
            &&& chains_of(s2, paths2) == (Chains {
                ends: m.ends.insert(a, EndView { other: b, values: m.drains[a].reverse() }).insert(
                    b,
                    EndView { other: a, values: m.drains[a] },
                ),
                drains: m.drains.remove(a).remove(b),
            })
        }),
{
    let p = paths[a];
    let n = p.len() as int;
    let c = p[n - 1];
    let longer = p.push(b);
    let r2 = longer.reverse();
    let paths2 = paths.insert(a, longer).insert(b, r2);
    let m = chains_of(s, paths);
    let touched = set![b as int, c as int];
    let changed = set![a, b];
    assert(node_ok(s, p, n - 1));
    assert(node_ok(s, paths[b], 0));
    assert(c != b);
    // the paths that are passed by
    assert forall|k: usize|
        #![trigger paths.dom().contains(k)]
        paths.dom().contains(k) && !changed.contains(k) implies k != c && paths2.dom().contains(k)
        && paths2[k] == paths[k] && !changed.contains(paths[k].last()) by {
        assert(node_ok(s, paths[k], 0));
    }
    assert forall|k: usize, i: int|
        #![trigger paths[k][i]]
        on_path(paths, k, i) && !changed.contains(k) implies !touched.contains(
        paths[k][i] as int,
    ) by {
        lemma_disjoint(paths, k, i, a, n - 1);
        lemma_disjoint(paths, k, i, b, 0);
    }
    lemma_rest_kept(s, paths, s2, paths2, touched, changed);
    assert forall|i: int| 0 <= i < n - 1 implies s2[#[trigger] p[i] as int] == s[p[i] as int] by {
        assert(node_ok(s, p, i));
        lemma_distinct(paths, a, i, n - 1);
    }
    assert forall|i: int| 0 <= i < longer.len() implies #[trigger] node_ok(s2, longer, i) by {
        if i < n - 1 {
            assert(node_ok(s, p, i));
            assert(s2[p[i] as int] == s[p[i] as int]);
        } else if i == n - 1 {
            lemma_xor_zero(b);
        } else {
            if n > 1 {
                assert(s2[p[0] as int] == s[p[0] as int]);
            }
        }
    }
    lemma_reverse_ok(s2, longer);
    assert forall|k: usize| #[trigger] paths2.dom().contains(k) implies path_ok(s2, paths2, k) by {
        if k != a && k != b {
            assert(paths.dom().contains(k));
        }
    }
    assert forall|i: int, j: int| 0 <= i < j < longer.len() implies longer[i] != longer[j] by {
        if j < n {
            lemma_distinct(paths, a, i, j);
        } else {
            lemma_disjoint(paths, a, i, b, 0);
        }
    }
    assert(separate(paths2)) by {
        reveal(separate);
        assert forall|k1: usize, i: int, k2: usize, j: int|
            #![trigger paths2[k1][i], paths2[k2][j]]
            on_path(paths2, k1, i) && on_path(paths2, k2, j) && paths2[k1][i]
                == paths2[k2][j] implies (k1 == k2 && i == j) || (k1 != k2 && k2
                == paths2[k1].last() && i + j == paths2[k1].len() - 1) by {
            let i1 = if k1 == b { n - i } else { i };
            let j1 = if k2 == b { n - j } else { j };
            if changed.contains(k1) && changed.contains(k2) {
                assert(paths2[k1][i] == longer[i1]);
                assert(paths2[k2][j] == longer[j1]);
                if i1 < j1 {
                    assert(longer[i1] != longer[j1]);
                } else if j1 < i1 {
                    assert(longer[j1] != longer[i1]);
                }
            } else if changed.contains(k1) {
                assert(paths2[k1][i] == longer[i1]);
                assert(paths2[k2][j] == paths[k2][j]);
                if i1 < n {
                    lemma_disjoint(paths, k2, j, a, i1);
                } else {
                    lemma_disjoint(paths, k2, j, b, 0);
                }
            } else if changed.contains(k2) {
                assert(paths2[k2][j] == longer[j1]);
                assert(paths2[k1][i] == paths[k1][i]);
                if j1 < n {
                    lemma_disjoint(paths, k1, i, a, j1);
                } else {
                    lemma_disjoint(paths, k1, i, b, 0);
                }
            } else {
                assert(paths2[k1][i] == paths[k1][i]);
                assert(paths2[k2][j] == paths[k2][j]);
                assert(paths.dom().contains(k1) && !changed.contains(k1));
            }
        }
    }
    assert(covered(s2, paths2)) by {
        assert forall|z: int|
            0 <= z < s2.len() && !((#[trigger] s2[z]).data is Vacant) implies placed(
            paths2,
            z,
        ) by {
            if z == b {
                assert(located(paths2, z, a, n));
            } else if z == c {
                assert(located(paths2, z, a, n - 1));
            } else {
                let (k, i) = choose|k: usize, i: int| #[trigger] located(paths, z, k, i);
                if k == a {
                    assert(located(paths2, z, a, i));
                } else {
                    assert(located(paths2, z, k, i));
                }
            }
        }
    }
    let want = Chains {
        ends: m.ends.insert(a, EndView { other: b, values: m.drains[a].reverse() }).insert(
            b,
            EndView { other: a, values: m.drains[a] },
        ),
        drains: m.drains.remove(a).remove(b),
    };
    assert(values_along(s2, longer) =~= values_pending(s, p).reverse());
    assert(values_pending(s, p).reverse().reverse() =~= values_pending(s, p));
    lemma_chains_follow(s, paths, s2, paths2, changed, want);
}

} // verus!
