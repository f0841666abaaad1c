//! A pool of nodes of the same size.

use crate::free_set::bit_set::{find_bit, is_first, none_in, BitKind, BitSet};
use crate::k_way_merge::is_power_of_two;
use vstd::prelude::*;

verus! {

/// Nodes of `NODE_SIZE` bytes.
pub struct NodePool<const NODE_SIZE: usize> {
    buffer: Vec<[u8; NODE_SIZE]>,
    free: BitSet,
}

impl<const NODE_SIZE: usize> View for NodePool<NODE_SIZE> {
    type V = Seq<Seq<u8>>;

    /// The bytes of the nodes.
    closed spec fn view(&self) -> Seq<Seq<u8>> {
        Seq::new(self.buffer@.len(), |i: int| self.buffer@[i]@)
    }
}

impl<const NODE_SIZE: usize> NodePool<NODE_SIZE> {
    pub closed spec fn wf(&self) -> bool {
        &&& self.free.wf()
        &&& self.free@.len() == self.buffer@.len()
        &&& self.buffer@.len() + 63 <= usize::MAX
    }

    /// Whether a node is free.
    pub closed spec fn is_free(&self) -> Seq<bool> {
        self.free@
    }

    /// A pool of `node_count` nodes, all of them free and zero.
    #[must_use]
    pub fn new(node_count: usize) -> (result: Self)
        requires
            node_count > 0,
            NODE_SIZE > 0,
            is_power_of_two(NODE_SIZE as int),
            NODE_SIZE * node_count <= usize::MAX,
            node_count + 63 <= usize::MAX,
        ensures
            result.wf(),
            result@.len() == node_count,
            result.is_free().len() == node_count,
            forall|i: int| 0 <= i < node_count ==> #[trigger] result.is_free()[i],
            forall|i: int|
                0 <= i < node_count ==> #[trigger] result@[i] == Seq::new(
                    NODE_SIZE as nat,
                    |k: int| 0u8,
                ),
    {
        let node: [u8; NODE_SIZE] = vstd::array::array_fill_for_copy_types(0);
        let ghost zeroes = Seq::new(NODE_SIZE as nat, |k: int| 0u8);
        assert(node@ =~= zeroes);
        let mut buffer: Vec<[u8; NODE_SIZE]> = Vec::new();
        while buffer.len() < node_count
            invariant
                buffer@.len() <= node_count,
                node@ == zeroes,
                forall|i: int| 0 <= i < buffer@.len() ==> (#[trigger] buffer@[i])@ == zeroes,
            decreases node_count - buffer@.len(),
        {
            buffer.push(node);
        }
        let mut free = BitSet::new_empty(node_count);
        let mut i: usize = 0;
        while i < node_count
            invariant
                free.wf(),
                free@.len() == node_count,
                i <= node_count,
                forall|k: int| 0 <= k < i ==> #[trigger] free@[k],
            decreases node_count - i,
        {
            free.set(i);
            i = i + 1;
        }
        NodePool { buffer, free }
    }

    /// How many nodes there are.
    #[must_use]
    pub fn capacity(&self) -> (result: usize)
        requires
            self.wf(),
        ensures
            result == self@.len(),
            result == self.is_free().len(),
    {
        self.buffer.len()
    }

    /// Takes the first free node, and returns its index.
    pub fn acquire(&mut self) -> (result: usize)
        requires
            old(self).wf(),
            exists|i: int| 0 <= i < old(self).is_free().len() && #[trigger] old(self).is_free()[i],
        ensures
            final(self).wf(),
            final(self)@ == old(self)@,
            is_first(
                old(self).is_free(),
                0,
                old(self).is_free().len() as int,
                true,
                result as int,
            ),
            final(self).is_free() == old(self).is_free().update(result as int, false),
    {
        let node_index: usize = match find_bit(&self.free, 0, self.buffer.len(), BitKind::One) {
            Some(node_index) => node_index,
            None => {
                assert(none_in(self.free@, 0, self.free@.len() as int, true));
                0
            },
        };
        self.free.unset(node_index);
        node_index
    }

    /// The bytes of a node.
    #[must_use]
    pub fn node(&self, node_index: usize) -> (result: &[u8])
        requires
            self.wf(),
            node_index < self@.len(),
        ensures
            result@ == self@[node_index as int],
    {
        self.buffer[node_index].as_slice()
    }

    /// The bytes of a node, to be written.
    pub fn node_mut(&mut self, node_index: usize) -> (result: &mut [u8; NODE_SIZE])
        requires
            old(self).wf(),
            node_index < old(self)@.len(),
        ensures
            result@ == old(self)@[node_index as int],
            final(self).wf(),
            final(self)@ == old(self)@.update(node_index as int, final(result)@),
            final(self).is_free() == old(self).is_free(),
    {
        &mut self.buffer[node_index]
    }

    /// Gives a node back.
    pub fn release(&mut self, node_index: usize)
        requires
            old(self).wf(),
            node_index < old(self)@.len(),
            !old(self).is_free()[node_index as int],
        ensures
            final(self).wf(),
            final(self)@ == old(self)@,
            final(self).is_free() == old(self).is_free().update(node_index as int, true),
    {
        self.free.set(node_index);
    }

    /// Whether all nodes are free.
    #[must_use]
    pub fn all_free(&self) -> (result: bool)
        requires
            self.wf(),
        ensures
            result == forall|i: int| 0 <= i < self.is_free().len() ==> #[trigger] self.is_free()[i],
    {
        match find_bit(&self.free, 0, self.buffer.len(), BitKind::Zero) {
            Some(node_index) => {
                assert(!self.is_free()[node_index as int]);
                false
            },
            None => true,
        }
    }
}

} // verus!
