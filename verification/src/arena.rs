//! The node memory: numbered slots, handed out and taken back one at a time.

use vstd::pervasive::unreached;
use vstd::prelude::*;

verus! {

/// What a slot holds besides its link word.
pub enum Data<T> {
    /// An end node: the address of the end node at the other extremity.
    End(usize),
    /// An interior node: its value.
    Interior(T),
    /// A slot that holds no node.
    Vacant,
}

/// One slot of the store.
pub struct Node<T> {
    pub link: usize,
    pub data: Data<T>,
}

/// The number of slots of `s` that hold a node.
pub open spec fn occupied<T>(s: Seq<Node<T>>) -> nat
    decreases s.len(),
{
    if s.len() == 0 {
        0
    } else {
        occupied(s.drop_last()) + if s.last().data is Vacant {
            0nat
        } else {
            1nat
        }
    }
}

/// `s` with the node `n` at address `x`: in place, or appended where `x` is
/// the first address past the end.
pub open spec fn with_node<T>(s: Seq<Node<T>>, x: int, n: Node<T>) -> Seq<Node<T>> {
    if x < s.len() {
        s.update(x, n)
    } else {
        s.push(n)
    }
}

/// Replacing one slot moves the count by what the slot gained or lost.
pub proof fn lemma_occupied_update<T>(s: Seq<Node<T>>, x: int, n: Node<T>)
    requires
        0 <= x < s.len(),
    ensures
        occupied(s.update(x, n)) + (if s[x].data is Vacant { 0nat } else { 1nat })
            == occupied(s) + (if n.data is Vacant { 0nat } else { 1nat }),
    decreases s.len(),
{
    let t = s.update(x, n);
    if x == s.len() - 1 {
        assert(t.drop_last() =~= s.drop_last());
    } else {
        lemma_occupied_update(s.drop_last(), x, n);
        assert(t.drop_last() =~= s.drop_last().update(x, n));
    }
}

/// Where some slot is occupied, the count is positive.
pub proof fn lemma_occupied_counts<T>(s: Seq<Node<T>>, x: int)
    requires
        0 <= x < s.len(),
        !(s[x].data is Vacant),
    ensures
        occupied(s) > 0,
    decreases s.len(),
{
    if x < s.len() - 1 {
        lemma_occupied_counts(s.drop_last(), x);
    }
}

/// Where the count is positive, some slot is occupied.
pub proof fn lemma_occupied_some<T>(s: Seq<Node<T>>) -> (x: int)
    requires
        occupied(s) > 0,
    ensures
        0 <= x < s.len(),
        !(s[x].data is Vacant),
    decreases s.len(),
{
    if s.last().data is Vacant {
        lemma_occupied_some(s.drop_last())
    } else {
        s.len() - 1
    }
}

/// Slots with a list of the vacant ones that may be handed out again.
pub struct Arena<T> {
    nodes: Vec<Node<T>>,
    free: Vec<usize>,
    live: usize,
}

impl<T> View for Arena<T> {
    type V = Seq<Node<T>>;

    closed spec fn view(&self) -> Seq<Node<T>> {
        self.nodes@
    }
}

impl<T> Arena<T> {
    /// The free list names the vacant slots, each of them once, and the
    /// count of occupied slots is kept.
    pub closed spec fn wf(&self) -> bool {
        &&& forall|k: int|
            0 <= k < self.free@.len() ==> (#[trigger] self.free@[k]) < self.nodes@.len()
                && self.nodes@[self.free@[k] as int].data is Vacant
        &&& forall|k1: int, k2: int|
            0 <= k1 < k2 < self.free@.len() ==> #[trigger] self.free@[k1]
                != #[trigger] self.free@[k2]
        &&& self.live == occupied(self.nodes@)
        &&& self.free@.len() + self.live == self.nodes@.len()
    }

    /// The number of occupied slots.
    pub closed spec fn live(&self) -> nat {
        self.live as nat
    }

    /// In a well-formed arena the count is the number of occupied slots.
    pub proof fn lemma_live(&self)
        requires
            self.wf(),
        ensures
            self.live() == occupied(self@),
    {
    }

    /// An arena without slots.
    pub fn new() -> (arena: Self)
        ensures
            arena.wf(),
            arena@ == Seq::<Node<T>>::empty(),
            arena.live() == 0,
    {
        Arena { nodes: Vec::new(), free: Vec::new(), live: 0 }
    }

    /// The number of occupied slots.
    pub fn live_nodes(&self) -> (n: usize)
        ensures
            n == self.live(),
    {
        self.live
    }

    /// Puts a node into a vacant slot, or into a new one where none is
    /// vacant, and returns its address.
    pub fn acquire(&mut self, link: usize, data: Data<T>) -> (x: usize)
        requires
            old(self).wf(),
            !(data is Vacant),
        ensures
            final(self).wf(),
            x <= old(self)@.len(),
            x < old(self)@.len() ==> old(self)@[x as int].data is Vacant,
            x == old(self)@.len() <==> old(self).live() == old(self)@.len(),
            final(self)@ == with_node(old(self)@, x as int, Node { link, data }),
            final(self).live() == old(self).live() + 1,
    {
        let node = Node { link, data };
        let ghost before = self.nodes@;
        match self.free.pop() {
            Some(x) => {
                proof {
                    lemma_occupied_update(before, x as int, node);
                    assert(self.live < self.nodes.len());
                }
                self.nodes[x] = node;
                self.live = self.live + 1;
                x
            },
            None => {
                let x = self.nodes.len();
                self.nodes.push(node);
                proof {
                    assert(self.nodes@.drop_last() =~= before);
                    assert(self.live < self.nodes.len());
                }
                self.live = self.live + 1;
                x
            },
        }
    }

    /// Takes the node at `x` out of its slot, which becomes vacant, and
    /// returns what it held.
    pub fn release(&mut self, x: usize) -> (data: Data<T>)
        requires
            old(self).wf(),
            x < old(self)@.len(),
            !(old(self)@[x as int].data is Vacant),
        ensures
            final(self).wf(),
            data == old(self)@[x as int].data,
            final(self)@ == old(self)@.update(
                x as int,
                Node { link: old(self)@[x as int].link, data: Data::Vacant },
            ),
            final(self).live() + 1 == old(self).live(),
    {
        let ghost before = self.nodes@;
        let mut data = Data::Vacant;
        std::mem::swap(&mut self.nodes[x].data, &mut data);
        proof {
            let vacated = Node { link: before[x as int].link, data: Data::<T>::Vacant };
            lemma_occupied_update(before, x as int, vacated);
            assert(self.nodes@ =~= before.update(x as int, vacated));
        }
        self.free.push(x);
        self.live = self.live - 1;
        data
    }

    /// The link word of the node at `x`. Only a slot that holds a node is
    /// read or written.
    pub fn link(&self, x: usize) -> (link: usize)
        requires
            x < self@.len(),
            !(self@[x as int].data is Vacant),
        ensures
            link == self@[x as int].link,
    {
        self.nodes[x].link
    }

    /// Overwrites the link word of the node at `x`.
    pub fn set_link(&mut self, x: usize, link: usize)
        requires
            old(self).wf(),
            x < old(self)@.len(),
            !(old(self)@[x as int].data is Vacant),
        ensures
            final(self).wf(),
            final(self)@ == old(self)@.update(
                x as int,
                Node { link, data: old(self)@[x as int].data },
            ),
            final(self).live() == old(self).live(),
    {
        let ghost before = self.nodes@;
        self.nodes[x].link = link;
        proof {
            lemma_occupied_update(before, x as int, Node { link, data: before[x as int].data });
            assert(self.nodes@ =~= before.update(
                x as int,
                Node { link, data: before[x as int].data },
            ));
        }
    }

    /// Folds `mask` into the link word of the node at `x`.
    pub fn xor_link(&mut self, x: usize, mask: usize)
        requires
            old(self).wf(),
            x < old(self)@.len(),
            !(old(self)@[x as int].data is Vacant),
        ensures
            final(self).wf(),
            final(self)@ == old(self)@.update(
                x as int,
                Node { link: old(self)@[x as int].link ^ mask, data: old(self)@[x as int].data },
            ),
            final(self).live() == old(self).live(),
    {
        let link = self.nodes[x].link ^ mask;
        self.set_link(x, link);
    }

    /// The far end that the end node at `x` records.
    pub fn other_end(&self, x: usize) -> (end: usize)
        requires
            x < self@.len(),
            self@[x as int].data is End,
        ensures
            self@[x as int].data == Data::<T>::End(end),
    {
        match &self.nodes[x].data {
            Data::End(end) => *end,
            _ => unreached(),
        }
    }

    /// Records `end` as the far end of the end node at `x`.
    pub fn set_other_end(&mut self, x: usize, end: usize)
        requires
            old(self).wf(),
            x < old(self)@.len(),
            old(self)@[x as int].data is End,
        ensures
            final(self).wf(),
            final(self)@ == old(self)@.update(
                x as int,
                Node { link: old(self)@[x as int].link, data: Data::End(end) },
            ),
            final(self).live() == old(self).live(),
    {
        let ghost before = self.nodes@;
        self.nodes[x].data = Data::End(end);
        proof {
            lemma_occupied_update(
                before,
                x as int,
                Node { link: before[x as int].link, data: Data::End(end) },
            );
            assert(self.nodes@ =~= before.update(
                x as int,
                Node { link: before[x as int].link, data: Data::End(end) },
            ));
        }
    }
}

} // verus!
