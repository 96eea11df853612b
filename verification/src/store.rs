//! The store that the nodes of all chains live in.

use crate::arena::{lemma_occupied_counts, lemma_occupied_some, Arena, Data};
use crate::model::Chains;
use crate::shape::grow::lemma_plant_pair;
use crate::shape::{chains_of, lemma_chains_wf, lemma_empty_ok, located, node_ok, shape_ok};
use vstd::prelude::*;

verus! {

/// The nodes of any number of chains, and of the loops that are being
/// drained. End handles and iterators name nodes of one store, and every
/// operation on them takes that store.
pub struct NodeStore<T> {
    pub(crate) arena: Arena<T>,
    /// For each end node, the addresses met on the walk that starts there.
    pub(crate) paths: Ghost<Map<usize, Seq<usize>>>,
}

impl<T> View for NodeStore<T> {
    type V = Chains<T>;

    closed spec fn view(&self) -> Chains<T> {
        chains_of(self.arena@, self.paths@)
    }
}

impl<T> NodeStore<T> {
    /// The links of every node fold its neighbours' addresses, the two ends
    /// of every chain name each other, no node belongs to two chains, and no
    /// node belongs to none.
    pub closed spec fn wf(&self) -> bool {
        self.inv()
    }

    /// What `wf` says, in terms of the fields.
    pub(crate) open spec fn inv(&self) -> bool {
        &&& self.arena.wf()
        &&& shape_ok(self.arena@, self.paths@)
    }

    /// The number of nodes that the store holds.
    pub closed spec fn live(&self) -> nat {
        self.arena.live()
    }

    /// The node at which the loop with terminal end `t` stands.
    pub closed spec fn cursor(&self, t: usize) -> usize {
        self.paths@[t].last()
    }

    /// What the store's closed predicates say of its fields.
    pub(crate) proof fn lemma_open(&self)
        ensures
            self.wf() == self.inv(),
            self@ == chains_of(self.arena@, self.paths@),
            self.live() == self.arena.live(),
            forall|t: usize| #[trigger] self.cursor(t) == self.paths@[t].last(),
    {
    }

    /// The chains of a well-formed store are well formed: each has two
    /// distinct ends that name each other and read the same values in
    /// opposite orders.
    pub proof fn lemma_view_wf(&self)
        requires
            self.wf(),
        ensures
            self@.wf(),
    {
        lemma_chains_wf(self.arena@, self.paths@);
    }

    /// A store holds no node exactly when no end is open and no loop is
    /// left: what was allocated for chains that are used up has been given
    /// back, all of it.
    pub proof fn lemma_no_leak(&self)
        requires
            self.wf(),
        ensures
            self.live() == 0 <==> forall|x: usize| !self@.in_use(x),
    {
        let s = self.arena@;
        let paths = self.paths@;
        self.arena.lemma_live();
        if self.arena.live() > 0 {
            let x = lemma_occupied_some(s);
            let (k, i) = choose|k: usize, i: int| #[trigger] located(paths, x, k, i);
            assert(self@.in_use(k));
        }
        if exists|x: usize| self@.in_use(x) {
            let x = choose|x: usize| self@.in_use(x);
            assert(paths.dom().contains(x));
            assert(node_ok(s, paths[x], 0));
            lemma_occupied_counts(s, x as int);
        }
    }

    /// A store without nodes.
    pub fn new() -> (store: Self)
        ensures
            store.wf(),
            store@ == Chains::<T>::empty(),
            store.live() == 0,
    {
        let store = NodeStore { arena: Arena::new(), paths: Ghost(Map::empty()) };
        proof {
            lemma_empty_ok::<T>();
        }
        store
    }

    /// The number of nodes that the store holds.
    pub fn live_nodes(&self) -> (n: usize)
        ensures
            n == self.live(),
    {
        self.arena.live_nodes()
    }

    /// Allocates two end nodes that name each other and have no neighbour
    /// yet.
    pub(crate) fn end_pair(&mut self) -> (ends: (usize, usize))
        requires
            old(self).inv(),
        ensures
            final(self).inv(),
            ends.0 != ends.1,
            !old(self).paths@.dom().contains(ends.0),
            !old(self).paths@.dom().contains(ends.1),
            final(self).paths@ == old(self).paths@.insert(ends.0, seq![ends.0]).insert(
                ends.1,
                seq![ends.1],
            ),
            final(self).arena@[ends.0 as int].data == Data::<T>::End(ends.1),
            final(self).arena@[ends.1 as int].data == Data::<T>::End(ends.0),
            final(self).arena.live() == old(self).arena.live() + 2,
            chains_of(final(self).arena@, final(self).paths@) == (Chains {
                ends: chains_of(old(self).arena@, old(self).paths@).ends,
                drains: chains_of(old(self).arena@, old(self).paths@).drains.insert(
                    ends.0,
                    Seq::empty(),
                ).insert(ends.1, Seq::empty()),
            }),
    {
        let ghost s = self.arena@;
        let e1 = self.arena.acquire(0, Data::End(0));
        let e2 = self.arena.acquire(0, Data::End(e1));
        self.arena.set_other_end(e1, e2);
        proof {
            lemma_plant_pair(s, self.paths@, self.arena@, e1, e2);
            self.paths@ = self.paths@.insert(e1, seq![e1]).insert(e2, seq![e2]);
        }
        (e1, e2)
    }
}

} // verus!
