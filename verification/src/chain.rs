//! The end handles of a chain, and the two things that can be done with them.

use crate::arena::Data;
use crate::drain::ChainIterator;
use crate::shape::grow::{lemma_grow, lemma_seal};
use crate::shape::shrink::lemma_drop_last;
use crate::shape::splice::{joined, lemma_splice, lemma_splice_layout};
use crate::shape::{chains_of, closed, node_ok};
use crate::store::NodeStore;
use std::marker::PhantomData;
use vstd::prelude::*;

verus! {

/// One end of a chain of values.
///
/// A chain is reached through its two ends only, and an end is used up by
/// connecting it, in the store that it was made in. An end that is let go
/// unconnected leaves its chain in the store.
#[must_use]
pub struct ChainEnd<T>(usize, PhantomData<T>);

impl<T> View for ChainEnd<T> {
    type V = usize;

    /// The address of the end node.
    closed spec fn view(&self) -> usize {
        self.0
    }
}

impl<T> ChainEnd<T> {
    /// Create a new chain, returning the two ends. The first end reads the
    /// values in the order given, the second in the opposite order.
    pub fn new(store: &mut NodeStore<T>, values: Vec<T>) -> (ends: (Self, Self))
        requires
            old(store).wf(),
        ensures
            final(store).wf(),
            ends.0@ != ends.1@,
            !old(store)@.in_use(ends.0@),
            !old(store)@.in_use(ends.1@),
            final(store)@ == old(store)@.create(ends.0@, ends.1@, values@),
            final(store).live() == old(store).live() + values@.len() + 2,
            forall|it: ChainIterator<T>| it.wf(old(store)) ==> #[trigger] it.wf(final(store)),
    {
        proof {
            store.lemma_open();
        }
        let ghost before = store@;
        let ghost paths0 = store.paths@;
        let ghost live = store.arena.live();
        let (e1, e2) = store.end_pair();
        let mut last_node = e1;

        for value in it: values
            invariant
                store.inv(),
                e1 != e2,
                !paths0.dom().contains(e1),
                !paths0.dom().contains(e2),
                store.paths@.dom().contains(e1),
                store.paths@.dom().contains(e2),
                !closed(store.arena@, store.paths@[e1]),
                store.paths@[e1].last() == last_node,
                store.paths@[e2].len() == 1,
                store.arena@[e1 as int].data == Data::<T>::End(e2),
                store.arena@[e2 as int].data == Data::<T>::End(e1),
                forall|k: usize|
                    paths0.dom().contains(k) ==> #[trigger] store.paths@.dom().contains(k)
                        && store.paths@[k] == paths0[k],
                chains_of(store.arena@, store.paths@).ends == before.ends,
                chains_of(store.arena@, store.paths@).drains == before.drains.insert(
                    e1,
                    it.seq().take(it.index() as int).reverse(),
                ).insert(e2, Seq::empty()),
                store.arena.live() == live + 2 + it.index(),
                it.seq() == values@,
        {
            let ghost s = store.arena@;
            let ghost paths = store.paths@;
            let ghost p = paths[e1];
            let ghost done = it.seq().take(it.index() as int);
            proof {
                assert(node_ok(s, p, p.len() - 1));
                assert(node_ok(s, p, 0));
            }
            let this_node = store.arena.acquire(last_node, Data::Interior(value));
            store.arena.xor_link(last_node, this_node);
            proof {
                lemma_grow(s, paths, store.arena@, e1, this_node, value);
                store.paths@ = paths.insert(e1, p.push(this_node));
                assert(node_ok(s, paths[e2], 0));
                let more = it.seq().take(it.index() + 1);
                assert(more.reverse() =~= seq![value] + done.reverse());
                assert(chains_of(store.arena@, store.paths@).drains =~= before.drains.insert(
                    e1,
                    more.reverse(),
                ).insert(e2, Seq::empty()));
            }
            last_node = this_node;
        }

        let ghost s = store.arena@;
        let ghost paths = store.paths@;
        let ghost p = paths[e1];
        proof {
            assert(node_ok(s, p, p.len() - 1));
            assert(node_ok(s, paths[e2], 0));
        }
        store.arena.set_link(e2, last_node);
        store.arena.xor_link(last_node, e2);
        proof {
            lemma_seal(s, paths, store.arena@, e1, e2);
            store.paths@ = paths.insert(e1, p.push(e2)).insert(e2, p.push(e2).reverse());
            store.lemma_open();
            old(store).lemma_open();
            assert(values@.take(values@.len() as int) =~= values@);
            assert(values@.reverse().reverse() =~= values@);
        }
        (ChainEnd(e1, PhantomData), ChainEnd(e2, PhantomData))
    }

    /// Join two chain ends.
    /// If they were two ends of the same chain, return the contents of the loop this creates:
    /// an iterator that yields the values as read from `other`.
    /// If they were ends of different chains, return None.
    pub fn connect(self, other: Self, store: &mut NodeStore<T>) -> (contents: Option<
        ChainIterator<T>,
    >)
        requires
            old(store).wf(),
            old(store)@.ends.dom().contains(self@),
            old(store)@.ends.dom().contains(other@),
            self@ != other@,
        ensures
            final(store).wf(),
            final(store)@ == old(store)@.connect(self@, other@),
            contents is Some <==> old(store)@.ends[self@].other == other@,
            contents matches Some(it) ==> it@ == self@ && it.wf(final(store)) && it.pending(
                final(store),
            ) == old(store)@.ends[other@].values,
            final(store).live() + (if contents is Some { 1nat } else { 2nat }) == old(store).live(),
            forall|it: ChainIterator<T>| it.wf(old(store)) ==> #[trigger] it.wf(final(store)),
    {
        let ghost s = store.arena@;
        let ghost paths = store.paths@;
        proof {
            store.lemma_open();
            // both ends, their far ends and their neighbours hold nodes
            assert(node_ok(s, paths[self.0], 0));
            assert(node_ok(s, paths[other.0], 0));
            assert(node_ok(s, paths[self.0], paths[self.0].len() - 1));
            assert(node_ok(s, paths[other.0], paths[other.0].len() - 1));
            assert(node_ok(s, paths[self.0], 1));
            assert(node_ok(s, paths[other.0], 1));
        }
        if store.arena.other_end(self.0) == other.0 {
            let this_end = other.0;

            let other_end = store.arena.other_end(this_end);
            let first_node = store.arena.link(this_end);

            store.arena.xor_link(first_node, this_end);

            let _ = store.arena.release(this_end);

            proof {
                let p = paths[other_end];
                lemma_drop_last(s, paths, store.arena@, other_end);
                store.paths@ = paths.remove(this_end).insert(other_end, p.drop_last());
                store.lemma_open();
            }
            Some(ChainIterator::start(other_end, first_node))
        } else {
            let a = self.0;
            let b = other.0;

            proof {
                lemma_splice_layout(s, paths, a, b);
            }
            let a_end = store.arena.other_end(a);
            let b_end = store.arena.other_end(b);

            store.arena.set_other_end(a_end, b_end);
            store.arena.set_other_end(b_end, a_end);

            let a_node = store.arena.link(a);
            let b_node = store.arena.link(b);

            proof {
                let q = paths[a_end];
                assert(q[q.len() - 2] != q[q.len() - 1]);
            }
            store.arena.xor_link(a_node, a ^ b_node);
            store.arena.xor_link(b_node, b ^ a_node);

            let _ = store.arena.release(a);
            let _ = store.arena.release(b);

            proof {
                lemma_splice(s, paths, store.arena@, a, b);
                let whole = joined(paths[a_end], paths[b]);
                store.paths@ = paths.remove(a).remove(b).insert(a_end, whole).insert(
                    b_end,
                    whole.reverse(),
                );
                store.lemma_open();
                assert forall|it: ChainIterator<T>| it.wf(old(store)) implies #[trigger] it.wf(
                    store,
                ) by {
                }
            }
            None
        }
    }
}

} // verus!
