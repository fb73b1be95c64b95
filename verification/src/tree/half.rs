use vstd::prelude::*;

use crate::ataxx::state::GameState;
use crate::tree::node::{Node, NodeModel, NodePtr};

verus! {

/// One half of the arena: a fixed number of node slots, handed out in order.
pub struct TreeHalf {
    nodes: Vec<Node>,
    used: usize,
    half: bool,
}

impl TreeHalf {
    /// The nodes in all slots of the half.
    pub closed spec fn slots(&self) -> Seq<NodeModel> {
        self.nodes@.map_values(|n: Node| n@)
    }

    /// The number of slots.
    pub open spec fn capacity(&self) -> nat {
        self.slots().len()
    }

    /// The number of slots asked for since the half was last cleared. It
    /// passes the capacity once a reservation has failed.
    pub closed spec fn spec_used(&self) -> nat {
        self.used as nat
    }

    /// Which of the two halves this is.
    pub closed spec fn spec_half(&self) -> bool {
        self.half
    }

    /// A half of `size` slots, every node fresh and ongoing, none handed out.
    pub fn new(size: usize, half: bool) -> (h: TreeHalf)
        ensures
            h.capacity() == size,
            h.spec_used() == 0,
            h.spec_half() == half,
            forall|i: int|
                0 <= i < size ==> #[trigger] h.slots()[i] == NodeModel::fresh(GameState::Ongoing),
    {
        let mut nodes: Vec<Node> = Vec::new();
        let mut i: usize = 0;
        while i < size
            invariant
                i <= size,
                nodes@.len() == i,
                forall|j: int|
                    0 <= j < i ==> (#[trigger] nodes@[j])@ == NodeModel::fresh(GameState::Ongoing),
            decreases size - i,
        {
            nodes.push(Node::new(GameState::Ongoing));
            i = i + 1;
        }
        TreeHalf { nodes, used: 0, half }
    }

    /// Hands out the next `num` slots, if that many are left. The count of
    /// slots asked for grows either way.
    pub fn reserve_nodes(&mut self, num: usize) -> (r: Option<NodePtr>)
        requires
            old(self).capacity() <= 0x7fff_ffff,
        ensures
            final(self).slots() == old(self).slots(),
            final(self).spec_half() == old(self).spec_half(),
            final(self).spec_used() == (if old(self).spec_used() + num > usize::MAX {
                usize::MAX as int
            } else {
                old(self).spec_used() + num
            }),
            r == (if old(self).spec_used() + num <= old(self).capacity() {
                Some(NodePtr::at(old(self).spec_half(), old(self).spec_used() as int))
            } else {
                None
            }),
    {
        let idx = self.used;
        self.used = self.used.saturating_add(num);
        if num > self.nodes.len() || idx > self.nodes.len() - num {
            return None;
        }
        Some(NodePtr::new(self.half, idx as u32))
    }

    /// Takes every slot back. The nodes stay as they are until reused.
    pub fn clear(&mut self)
        ensures
            final(self).slots() == old(self).slots(),
            final(self).spec_half() == old(self).spec_half(),
            final(self).spec_used() == 0,
    {
        self.used = 0;
    }

    pub fn is_empty(&self) -> (b: bool)
        ensures
            b == (self.spec_used() == 0),
    {
        self.used == 0
    }

    pub fn used(&self) -> (n: usize)
        ensures
            n == self.spec_used(),
    {
        self.used
    }

    pub fn is_full(&self) -> (b: bool)
        ensures
            b == (self.spec_used() >= self.capacity()),
    {
        self.used >= self.nodes.len()
    }

    /// The number of slots.
    pub fn len(&self) -> (n: usize)
        ensures
            n == self.capacity(),
    {
        self.nodes.len()
    }

    /// The node in the slot that a handle names.
    pub fn node(&self, ptr: NodePtr) -> (node: &Node)
        requires
            ptr.spec_idx() < self.capacity(),
        ensures
            node@ == self.slots()[ptr.spec_idx()],
    {
        &self.nodes[ptr.idx()]
    }

    /// The node in a slot.
    pub fn get(&self, idx: usize) -> (node: &Node)
        requires
            idx < self.capacity(),
        ensures
            node@ == self.slots()[idx as int],
    {
        &self.nodes[idx]
    }

    /// The node in a slot, for changing it.
    pub fn node_mut(&mut self, idx: usize) -> (node: &mut Node)
        requires
            idx < old(self).capacity(),
        ensures
            node@ == old(self).slots()[idx as int],
            final(self).slots() == old(self).slots().update(idx as int, final(node)@),
            final(self).spec_used() == old(self).spec_used(),
            final(self).spec_half() == old(self).spec_half(),
    {
        &mut self.nodes[idx]
    }
}

} // verus!
