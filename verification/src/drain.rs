//! The iterator that a closed chain resolves into.

use crate::arena::Data;
use crate::shape::shrink::{lemma_drop_last, lemma_vanish};
use crate::shape::{lemma_distinct, node_ok, on_path};
use crate::store::NodeStore;
use std::marker::PhantomData;
use vstd::pervasive::unreached;
use vstd::prelude::*;

verus! {

/// Walks a loop from the point where it was closed to the end node that is
/// left, and takes each node out of the store as it passes.
///
/// An iterator that is let go without [`ChainIterator::drop`] or
/// [`ChainIterator::collect`] leaves its nodes in the store.
#[must_use]
pub struct ChainIterator<T> {
    end: usize,
    current_node: usize,
    values: PhantomData<T>,
}

impl<T> View for ChainIterator<T> {
    type V = usize;

    /// The terminal end of the loop.
    closed spec fn view(&self) -> usize {
        self.end
    }
}

impl<T> ChainIterator<T> {
    /// The node at which the iterator stands.
    pub closed spec fn position(&self) -> usize {
        self.current_node
    }

    /// The iterator walks a loop of `store`, and stands where the loop has
    /// got to.
    pub open spec fn wf(&self, store: &NodeStore<T>) -> bool {
        &&& store@.drains.dom().contains(self@)
        &&& store.cursor(self@) == self.position()
    }

    /// The values that are still to come, in the order in which they come.
    pub open spec fn pending(&self, store: &NodeStore<T>) -> Seq<T> {
        store@.drains[self@]
    }

    /// An iterator over the loop with the terminal node `end`, at `first`.
    pub(crate) fn start(end: usize, first: usize) -> (it: Self)
        ensures
            it@ == end,
            it.position() == first,
    {
        ChainIterator { end, current_node: first, values: PhantomData }
    }

    /// The next value of the loop, or `None` when the walk has arrived at the
    /// end node. The node that held the value leaves the store; at the end
    /// node nothing changes, however often it is asked.
    pub fn next(&mut self, store: &mut NodeStore<T>) -> (value: Option<T>)
        requires
            old(store).wf(),
            old(self).wf(old(store)),
        ensures
            final(store).wf(),
            final(self).wf(final(store)),
            final(self)@ == old(self)@,
            final(store)@ == old(store)@.step(old(self)@),
            value == (if old(self).pending(old(store)).len() == 0 {
                None
            } else {
                Some(old(self).pending(old(store))[0])
            }),
            value is None ==> *final(store) == *old(store) && *final(self) == *old(self),
            final(store).live() + (if value is Some { 1nat } else { 0nat }) == old(store).live(),
            forall|it: ChainIterator<T>|
                it.wf(old(store)) && it@ != old(self)@ ==> #[trigger] it.wf(final(store)),
    {
        let ghost s = store.arena@;
        let ghost paths = store.paths@;
        let ghost p = paths[self.end];
        proof {
            store.lemma_open();
            assert(node_ok(s, p, p.len() - 1));
            if p.len() >= 2 {
                lemma_distinct(paths, self.end, 0, p.len() - 1);
                assert(node_ok(s, p, p.len() - 2));
            }
        }
        if self.current_node == self.end {
            return None;
        }
        let this_node = self.current_node;
        let next_node = store.arena.link(this_node);
        store.arena.xor_link(next_node, this_node);
        let data = store.arena.release(this_node);
        proof {
            lemma_distinct(paths, self.end, p.len() - 2, p.len() - 1);
            lemma_drop_last(s, paths, store.arena@, self.end);
            store.paths@ = paths.remove(this_node).insert(self.end, p.drop_last());
            store.lemma_open();
            assert(on_path(paths, self.end, 0));
            assert forall|it: ChainIterator<T>|
                it.wf(old(store)) && it@ != old(self)@ implies #[trigger] it.wf(store) by {
                // another loop's end node is not the interior node that went
                assert(node_ok(s, paths[it@], 0));
            }
        }
        self.current_node = next_node;
        match data {
            Data::Interior(value) => Some(value),
            _ => unreached(),
        }
    }

    /// Gives the loop up: takes what is left of it out of the store, and
    /// last its end node.
    pub fn drop(self, store: &mut NodeStore<T>)
        requires
            old(store).wf(),
            self.wf(old(store)),
        ensures
            final(store).wf(),
            final(store)@ == old(store)@.release(self@),
            final(store).live() + self.pending(old(store)).len() + 1 == old(store).live(),
            forall|it: ChainIterator<T>|
                it.wf(old(store)) && it@ != self@ ==> #[trigger] it.wf(final(store)),
    {
        let mut walk = self;
        let ghost before = old(store)@;
        let ghost live = old(store).live();
        let ghost total = self.pending(old(store)).len();
        loop
            invariant_except_break
                store.wf(),
                walk.wf(store),
            invariant
                walk@ == self@,
                store@.ends == before.ends,
                store@.drains.remove(self@) == before.drains.remove(self@),
                store.live() + total == live + walk.pending(store).len(),
                walk.pending(store).len() <= total,
                forall|it: ChainIterator<T>|
                    it.wf(old(store)) && it@ != self@ ==> #[trigger] it.wf(store),
            ensures
                store.wf(),
                walk.wf(store),
                walk.pending(store).len() == 0,
            decreases walk.pending(store).len(),
        {
            if walk.next(store).is_none() {
                break ;
            }
        }
        let ghost s = store.arena@;
        let ghost paths = store.paths@;
        let ghost emptied = *store;
        proof {
            store.lemma_open();
            assert(node_ok(s, paths[walk.end], 0));
        }
        let _ = store.arena.release(walk.end);
        proof {
            lemma_vanish(s, paths, store.arena@, walk.end);
            store.paths@ = paths.remove(walk.end);
            store.lemma_open();
            assert forall|it: ChainIterator<T>|
                it.wf(old(store)) && it@ != self@ implies #[trigger] it.wf(store) by {
                assert(it.wf(&emptied));
            }
        }
    }

    /// The values that are left, in the order in which they come. The loop
    /// is used up and its nodes leave the store.
    pub fn collect(self, store: &mut NodeStore<T>) -> (values: Vec<T>)
        requires
            old(store).wf(),
            self.wf(old(store)),
        ensures
            final(store).wf(),
            values@ == self.pending(old(store)),
            final(store)@ == old(store)@.release(self@),
            final(store).live() + values@.len() + 1 == old(store).live(),
            forall|it: ChainIterator<T>|
                it.wf(old(store)) && it@ != self@ ==> #[trigger] it.wf(final(store)),
    {
        let mut walk = self;
        let mut values: Vec<T> = Vec::new();
        let ghost before = old(store)@;
        let ghost live = old(store).live();
        let ghost all = self.pending(old(store));
        loop
            invariant_except_break
                store.wf(),
                walk.wf(store),
            invariant
                walk@ == self@,
                store@.ends == before.ends,
                store@.drains.remove(self@) == before.drains.remove(self@),
                values@ + walk.pending(store) == all,
                store.live() + values@.len() == live,
                forall|it: ChainIterator<T>|
                    it.wf(old(store)) && it@ != self@ ==> #[trigger] it.wf(store),
            ensures
                store.wf(),
                walk.wf(store),
                walk.pending(store).len() == 0,
            decreases walk.pending(store).len(),
        {
            match walk.next(store) {
                Some(value) => {
                    values.push(value);
                },
                None => {
                    break ;
                },
            }
        }
        walk.drop(store);
        values
    }
}

} // verus!
