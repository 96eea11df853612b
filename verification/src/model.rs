//! What a store of chains means: which ends are open, what is read from each,
//! and what each draining iterator has still to yield.

use vstd::prelude::*;

verus! {

/// A chain as seen from one of its ends.
pub struct EndView<T> {
    /// The end at the other extremity.
    pub other: usize,
    /// The values, read from this end to the other.
    pub values: Seq<T>,
}

/// The chains of a store and the loops that are being drained.
#[verifier::ext_equal]
pub struct Chains<T> {
    /// The open ends, each with its chain.
    pub ends: Map<usize, EndView<T>>,
    /// The values that each loop has still to yield, by the loop's terminal end.
    pub drains: Map<usize, Seq<T>>,
}

impl<T> Chains<T> {
    /// No chain and no loop.
    pub open spec fn empty() -> Self {
        Chains { ends: Map::empty(), drains: Map::empty() }
    }

    /// `x` names an open end or the terminal end of a loop.
    pub open spec fn in_use(self, x: usize) -> bool {
        self.ends.dom().contains(x) || self.drains.dom().contains(x)
    }

    /// Every chain has two distinct ends that name each other and read the
    /// same values in opposite orders, and no end is also a loop's terminal.
    pub open spec fn wf(self) -> bool {
        forall|e: usize| #[trigger]
            self.ends.dom().contains(e) ==> {
                let o = self.ends[e].other;
                &&& o != e
                &&& self.ends.dom().contains(o)
                &&& self.ends[o].other == e
                &&& self.ends[o].values == self.ends[e].values.reverse()
                &&& !self.drains.dom().contains(e)
            }
    }

    /// `a` and `b` are open ends of two different chains.
    pub open spec fn apart(self, a: usize, b: usize) -> bool {
        &&& self.ends.dom().contains(a)
        &&& self.ends.dom().contains(b)
        &&& a != b
        &&& self.ends[a].other != b
    }

    /// `a` and `b` are the two ends of one chain.
    pub open spec fn paired(self, a: usize, b: usize) -> bool {
        &&& self.ends.dom().contains(a)
        &&& self.ends.dom().contains(b)
        &&& a != b
        &&& self.ends[a].other == b
    }

    /// A new chain of `values` with the ends `a` and `b`; `a` reads them in
    /// the order given.
    pub open spec fn create(self, a: usize, b: usize, values: Seq<T>) -> Self {
        Chains {
            ends: self.ends.insert(a, EndView { other: b, values }).insert(
                b,
                EndView { other: a, values: values.reverse() },
            ),
            drains: self.drains,
        }
    }

    /// The chains of `a` and `b` joined at these two ends, which are used up.
    /// The far ends stay, and name each other.
    pub open spec fn splice(self, a: usize, b: usize) -> Self {
        let far_a = self.ends[a].other;
        let far_b = self.ends[b].other;
        Chains {
            ends: self.ends.remove(a).remove(b).insert(
                far_a,
                EndView { other: far_b, values: self.ends[far_a].values + self.ends[b].values },
            ).insert(
                far_b,
                EndView { other: far_a, values: self.ends[far_b].values + self.ends[a].values },
            ),
            drains: self.drains,
        }
    }

    /// The chain of `a` and `b` closed into a loop. Both ends are used up; the
    /// loop yields the values as read from `b`, and `a` is its terminal.
    pub open spec fn close(self, a: usize, b: usize) -> Self {
        Chains {
            ends: self.ends.remove(a).remove(b),
            drains: self.drains.insert(a, self.ends[b].values),
        }
    }

    /// `a` connected to `b`: closed where they are the ends of one chain,
    /// spliced where they are not.
    pub open spec fn connect(self, a: usize, b: usize) -> Self {
        if self.ends[a].other == b {
            self.close(a, b)
        } else {
            self.splice(a, b)
        }
    }

    /// The loop with terminal `t` after one step: without its first value, or
    /// as it was where nothing is left.
    pub open spec fn step(self, t: usize) -> Self {
        if self.drains[t].len() == 0 {
            self
        } else {
            Chains { ends: self.ends, drains: self.drains.insert(t, self.drains[t].skip(1)) }
        }
    }

    /// The loop with terminal `t` given up, with whatever it had left.
    pub open spec fn release(self, t: usize) -> Self {
        Chains { ends: self.ends, drains: self.drains.remove(t) }
    }
}

/// Reversal turns a concatenation round, part by part.
pub proof fn lemma_reverse_concat<T>(x: Seq<T>, y: Seq<T>)
    ensures
        (x + y).reverse() == y.reverse() + x.reverse(),
        x.reverse().reverse() == x,
        x.reverse().len() == x.len(),
{
    assert((x + y).reverse() =~= y.reverse() + x.reverse());
}

/// Creating a chain with two unused, distinct ends keeps the model well formed.
pub proof fn lemma_create_wf<T>(m: Chains<T>, a: usize, b: usize, values: Seq<T>)
    requires
        m.wf(),
        a != b,
        !m.in_use(a),
        !m.in_use(b),
    ensures
        m.create(a, b, values).wf(),
        m.create(a, b, values).paired(a, b),
        m.create(a, b, values).paired(b, a),
{
    lemma_reverse_concat(values, values);
}

/// Splicing two different chains keeps the model well formed.
pub proof fn lemma_splice_wf<T>(m: Chains<T>, a: usize, b: usize)
    requires
        m.wf(),
        m.apart(a, b),
    ensures
        m.splice(a, b).wf(),
        m.splice(a, b).paired(m.ends[a].other, m.ends[b].other),
{
    let far_a = m.ends[a].other;
    let far_b = m.ends[b].other;
    lemma_reverse_concat(m.ends[far_a].values, m.ends[b].values);
    lemma_reverse_concat(m.ends[far_b].values, m.ends[a].values);
}

/// Closing a chain keeps the model well formed.
pub proof fn lemma_close_wf<T>(m: Chains<T>, a: usize, b: usize)
    requires
        m.wf(),
        m.paired(a, b),
    ensures
        m.close(a, b).wf(),
        !m.close(a, b).ends.dom().contains(a),
        !m.close(a, b).ends.dom().contains(b),
        m.close(a, b).drains.dom().contains(a),
{
}

/// Connecting is well defined on any two distinct open ends. It uses up
/// exactly these two, and leaves every chain but theirs, and every loop, as it
/// was.
pub proof fn lemma_connect_wf<T>(m: Chains<T>, a: usize, b: usize)
    requires
        m.wf(),
        m.ends.dom().contains(a),
        m.ends.dom().contains(b),
        a != b,
    ensures
        m.connect(a, b).wf(),
        !m.connect(a, b).ends.dom().contains(a),
        !m.connect(a, b).ends.dom().contains(b),
        forall|e: usize|
            e != a && e != b ==> (#[trigger] m.connect(a, b).ends.dom().contains(e)
                <==> m.ends.dom().contains(e)),
        forall|e: usize|
            m.ends.dom().contains(e) && e != a && e != b && e != m.ends[a].other && e
                != m.ends[b].other ==> #[trigger] m.connect(a, b).ends[e] == m.ends[e],
        forall|t: usize|
            m.drains.dom().contains(t) ==> #[trigger] m.connect(a, b).drains.dom().contains(t)
                && m.connect(a, b).drains[t] == m.drains[t],
{
    if m.ends[a].other == b {
        lemma_close_wf(m, a, b);
    } else {
        lemma_splice_wf(m, a, b);
    }
}

/// Stepping and releasing a loop keep the model well formed.
pub proof fn lemma_drain_wf<T>(m: Chains<T>, t: usize)
    requires
        m.wf(),
        m.drains.dom().contains(t),
    ensures
        m.step(t).wf(),
        m.step(t).drains.dom().contains(t),
        m.release(t).wf(),
        !m.release(t).in_use(t),
{
}

/// Splicing has the same effect whichever of the two ends is named first.
pub proof fn lemma_splice_symmetric<T>(m: Chains<T>, a: usize, b: usize)
    requires
        m.wf(),
        m.apart(a, b),
    ensures
        m.splice(a, b) == m.splice(b, a),
        m.connect(a, b) == m.connect(b, a),
{
}

/// A chain that is created and closed at once yields its values: in the
/// order given where the second end is connected to the first, in the
/// opposite order where the first is connected to the second.
pub proof fn lemma_round_trip<T>(m: Chains<T>, a: usize, b: usize, values: Seq<T>)
    requires
        a != b,
    ensures
        m.create(a, b, values).connect(b, a).drains[b] == values,
        m.create(a, b, values).connect(a, b).drains[a] == values.reverse(),
        m.create(a, b, values).connect(b, a).ends == m.ends.remove(a).remove(b),
        m.create(a, b, values).connect(a, b).ends == m.ends.remove(a).remove(b),
{
}

/// Two chains joined at one end each, then closed at the two ends that are
/// left, yield one chain's values followed by the other's: read from the end
/// that the closing names second, through the joint, to the end it names
/// first.
pub proof fn lemma_join_then_close<T>(m: Chains<T>, x: usize, y: usize)
    requires
        m.wf(),
        m.apart(x, y),
    ensures
        ({
            let far_x = m.ends[x].other;
            let far_y = m.ends[y].other;
            let joined = m.connect(x, y);
            &&& joined.paired(far_x, far_y)
            &&& joined.connect(far_y, far_x).drains[far_y] == m.ends[far_x].values
                + m.ends[y].values
            &&& joined.connect(far_x, far_y).drains[far_x] == m.ends[far_y].values
                + m.ends[x].values
        }),
{
    lemma_splice_wf(m, x, y);
}

/// For two fresh chains of `s1` (ends `a1`, `b1`) and `s2` (ends `a2`, `b2`):
/// what comes out after joining one end of each and closing the rest, for
/// each of the four joints and both ways of closing.
pub proof fn lemma_join_orders<T>(
    m: Chains<T>,
    a1: usize,
    b1: usize,
    s1: Seq<T>,
    a2: usize,
    b2: usize,
    s2: Seq<T>,
)
    requires
        m.wf(),
        a1 != b1,
        a2 != b2,
        a1 != a2,
        a1 != b2,
        b1 != a2,
        b1 != b2,
        !m.in_use(a1),
        !m.in_use(b1),
        !m.in_use(a2),
        !m.in_use(b2),
    ensures
        ({
            let n = m.create(a1, b1, s1).create(a2, b2, s2);
            let r1 = s1.reverse();
            let r2 = s2.reverse();
            // tail to tail
            &&& n.connect(b1, b2).connect(a2, a1).drains[a2] == s1 + r2
            &&& n.connect(b1, b2).connect(a1, a2).drains[a1] == s2 + r1
            // tail to head
            &&& n.connect(b1, a2).connect(b2, a1).drains[b2] == s1 + s2
            &&& n.connect(b1, a2).connect(a1, b2).drains[a1] == r2 + r1
            // head to tail
            &&& n.connect(a1, b2).connect(a2, b1).drains[a2] == r1 + r2
            &&& n.connect(a1, b2).connect(b1, a2).drains[b1] == s2 + s1
            // head to head
            &&& n.connect(a1, a2).connect(b2, b1).drains[b2] == r1 + s2
            &&& n.connect(a1, a2).connect(b1, b2).drains[b1] == r2 + s1
        }),
{
    let n1 = m.create(a1, b1, s1);
    lemma_create_wf(m, a1, b1, s1);
    let n = n1.create(a2, b2, s2);
    lemma_create_wf(n1, a2, b2, s2);
    lemma_join_then_close(n, b1, b2);
    lemma_join_then_close(n, b1, a2);
    lemma_join_then_close(n, a1, b2);
    lemma_join_then_close(n, a1, a2);
}

/// A loop that has nothing left stays as it is when stepped again.
pub proof fn lemma_step_exhausted<T>(m: Chains<T>, t: usize)
    requires
        m.drains.dom().contains(t),
        m.drains[t].len() == 0,
    ensures
        m.step(t) == m,
        m.step(t).step(t) == m.step(t),
{
}

/// A loop yields its values one by one from the front: after a step it has
/// what it had, less the first.
pub proof fn lemma_step_yields<T>(m: Chains<T>, t: usize)
    requires
        m.drains.dom().contains(t),
        m.drains[t].len() > 0,
    ensures
        seq![m.drains[t].first()] + m.step(t).drains[t] == m.drains[t],
        m.step(t).drains[t].len() + 1 == m.drains[t].len(),
{
}

} // verus!
