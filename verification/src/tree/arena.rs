use vstd::prelude::*;

use crate::ataxx::board::{Board, BoardModel};
use crate::tree::half::TreeHalf;
use crate::tree::hash::{pow2, HashEntry, HashTable};
use crate::tree::node::{Node, NodeModel, NodePtr};
use crate::tree::shape::tree_shape;

verus! {

/// The search tree: two halves of node slots, of which one is active and
/// holds the tree, the cache of leaf values, the position at the root, and
/// the descent that is under way, if one is.
pub struct Tree {
    pub(crate) lower: TreeHalf,
    pub(crate) upper: TreeHalf,
    pub(crate) active: bool,
    pub(crate) live: usize,
    pub(crate) path: Vec<usize>,
    pub(crate) hash: HashTable,
    pub(crate) root_position: Board,
}

impl Tree {
    /// Which half is active.
    pub closed spec fn spec_active(&self) -> bool {
        self.active
    }

    /// The active half.
    pub closed spec fn active_half(&self) -> TreeHalf {
        if self.active {
            self.upper
        } else {
            self.lower
        }
    }

    /// The other half.
    pub closed spec fn stale_half(&self) -> TreeHalf {
        if self.active {
            self.lower
        } else {
            self.upper
        }
    }

    /// The nodes in the slots of the active half.
    pub open spec fn nodes(&self) -> Seq<NodeModel> {
        self.active_half().slots()
    }

    /// The number of slots of a half.
    pub open spec fn capacity(&self) -> int {
        self.nodes().len() as int
    }

    /// The number of slots of the active half that were asked for.
    pub open spec fn spec_used(&self) -> int {
        self.active_half().spec_used() as int
    }

    /// The number of slots of the active half that hold nodes of the tree:
    /// those handed out by the reservations that succeeded.
    pub closed spec fn allocated(&self) -> int {
        self.live as int
    }

    /// The slots of the descent under way, from the root down; empty when
    /// none is.
    pub closed spec fn spec_path(&self) -> Seq<int> {
        self.path@.map_values(|i: usize| i as int)
    }

    /// The cache of leaf values.
    pub closed spec fn cache(&self) -> HashTable {
        self.hash
    }

    /// The position at the root.
    pub closed spec fn spec_root_position(&self) -> BoardModel {
        self.root_position@
    }

    /// The two halves are a lower and an upper one of the same size, small
    /// enough for the handles.
    pub closed spec fn halves_ok(&self) -> bool {
        &&& !self.lower.spec_half()
        &&& self.upper.spec_half()
        &&& self.lower.capacity() == self.upper.capacity()
        &&& self.lower.capacity() <= 0x7fff_ffff
        &&& self.live <= self.active_half().capacity()
        &&& self.live <= self.active_half().spec_used()
        &&& (self.active_half().spec_used() <= self.active_half().capacity() ==> self.live
            == self.active_half().spec_used())
    }

    /// The nodes of the active half form a tree, with the statistics and the
    /// thread counts that searching leaves behind.
    pub open spec fn shape_ok(&self) -> bool {
        tree_shape(self.nodes(), self.spec_active(), self.allocated(), self.spec_path())
    }

    /// What every tree satisfies between calls.
    pub open spec fn wf(&self) -> bool {
        self.halves_ok() && self.shape_ok()
    }

    /// Whether a descent is under way.
    pub open spec fn descending(&self) -> bool {
        self.spec_path().len() > 0
    }

    /// The capacity of a tree fits the handles.
    pub proof fn lemma_capacity(&self)
        requires
            self.halves_ok(),
        ensures
            0 <= self.allocated() <= self.capacity() <= 0x7fff_ffff,
            self.allocated() <= self.spec_used(),
            self.spec_used() <= self.capacity() ==> self.allocated() == self.spec_used(),
            self.stale_half().capacity() == self.capacity(),
    {
    }

    /// An empty tree of `cap` slots in each half, with a cache of
    /// 2^`hash_bits` entries, at the opening position.
    pub fn new(cap: usize, hash_bits: u8) -> (t: Tree)
        requires
            cap <= 0x7fff_ffff,
            hash_bits < 32,
        ensures
            t.wf(),
            t.capacity() == cap,
            t.cache().slots().len() == pow2(hash_bits as nat),
            forall|i: int|
                0 <= i < t.cache().slots().len() ==> #[trigger] t.cache().slots()[i] is None,
            t.spec_used() == 0,
            t.allocated() == 0,
            !t.spec_active(),
            !t.descending(),
            t.spec_root_position() == BoardModel::startpos(),
    {
        let t = Tree {
            lower: TreeHalf::new(cap, false),
            upper: TreeHalf::new(cap, true),
            active: false,
            live: 0,
            path: Vec::new(),
            hash: HashTable::new(hash_bits),
            root_position: Board::default(),
        };
        assert(t.spec_path() =~= Seq::<int>::empty());
        t
    }

    /// Whether two trees differ in the nodes of the active half at most.
    pub open spec fn same_frame(&self, other: &Tree) -> bool {
        &&& self.spec_active() == other.spec_active()
        &&& self.spec_used() == other.spec_used()
        &&& self.allocated() == other.allocated()
        &&& self.capacity() == other.capacity()
        &&& self.spec_path() == other.spec_path()
        &&& self.cache() == other.cache()
        &&& self.spec_root_position() == other.spec_root_position()
        &&& self.stale_half() == other.stale_half()
        &&& self.halves_ok() == other.halves_ok()
    }

    pub(crate) fn active_ref(&self) -> (h: &TreeHalf)
        ensures
            *h == self.active_half(),
    {
        if self.active {
            &self.upper
        } else {
            &self.lower
        }
    }

    /// The node in a slot of the active half.
    pub(crate) fn slot(&self, idx: usize) -> (node: &Node)
        requires
            idx < self.capacity(),
        ensures
            node@ == self.nodes()[idx as int],
    {
        self.active_ref().get(idx)
    }

    /// The node in a slot of the active half, for changing it.
    pub(crate) fn slot_mut(&mut self, idx: usize) -> (node: &mut Node)
        requires
            idx < old(self).capacity(),
        ensures
            node@ == old(self).nodes()[idx as int],
            final(self).nodes() == old(self).nodes().update(idx as int, final(node)@),
            final(self).same_frame(old(self)),
    {
        if self.active {
            self.upper.node_mut(idx)
        } else {
            self.lower.node_mut(idx)
        }
    }

    /// Hands out the next `num` slots of the active half, if that many are
    /// left.
    pub(crate) fn reserve(&mut self, num: usize) -> (r: Option<NodePtr>)
        requires
            old(self).halves_ok(),
        ensures
            final(self).halves_ok(),
            final(self).nodes() == old(self).nodes(),
            final(self).spec_active() == old(self).spec_active(),
            final(self).spec_path() == old(self).spec_path(),
            final(self).cache() == old(self).cache(),
            final(self).spec_root_position() == old(self).spec_root_position(),
            final(self).stale_half() == old(self).stale_half(),
            final(self).spec_used() == (if old(self).spec_used() + num > usize::MAX {
                usize::MAX as int
            } else {
                old(self).spec_used() + num
            }),
            r == (if old(self).spec_used() + num <= old(self).capacity() {
                Some(NodePtr::at(old(self).spec_active(), old(self).allocated()))
            } else {
                None
            }),
            final(self).allocated() == (if r is Some {
                old(self).allocated() + num
            } else {
                old(self).allocated()
            }),
    {
        let r = if self.active {
            self.upper.reserve_nodes(num)
        } else {
            self.lower.reserve_nodes(num)
        };
        if r.is_some() {
            self.live = self.live + num;
        }
        r
    }

    /// Makes the stale half the active one, with none of its slots in use.
    pub(crate) fn swap_halves(&mut self)
        requires
            old(self).halves_ok(),
        ensures
            final(self).halves_ok(),
            final(self).spec_active() == !old(self).spec_active(),
            final(self).nodes() == old(self).stale_half().slots(),
            final(self).stale_half().slots() == old(self).nodes(),
            final(self).spec_used() == 0,
            final(self).allocated() == 0,
            final(self).spec_path() == old(self).spec_path(),
            final(self).cache() == old(self).cache(),
            final(self).spec_root_position() == old(self).spec_root_position(),
    {
        self.active = !self.active;
        if self.active {
            self.upper.clear();
        } else {
            self.lower.clear();
        }
        self.live = 0;
    }

    /// Copies a node of the stale half into a slot of the active half, as it
    /// is.
    pub(crate) fn copy_in(&mut self, from: usize, to: usize)
        requires
            from < old(self).stale_half().capacity(),
            to < old(self).capacity(),
        ensures
            final(self).nodes() == old(self).nodes().update(
                to as int,
                old(self).stale_half().slots()[from as int],
            ),
            final(self).same_frame(old(self)),
    {
        if self.active {
            let node = *self.lower.get(from);
            let slot = self.upper.node_mut(to);
            *slot = node;
        } else {
            let node = *self.upper.get(from);
            let slot = self.lower.node_mut(to);
            *slot = node;
        }
    }

    /// The number of slots of the descent under way.
    pub(crate) fn path_len(&self) -> (n: usize)
        ensures
            n == self.spec_path().len(),
    {
        self.path.len()
    }

    /// A slot of the descent under way.
    pub(crate) fn path_at(&self, d: usize) -> (i: usize)
        requires
            d < self.spec_path().len(),
        ensures
            i == self.spec_path()[d as int],
    {
        self.path[d]
    }

    pub(crate) fn path_push(&mut self, idx: usize)
        ensures
            final(self).nodes() == old(self).nodes(),
            final(self).spec_path() == old(self).spec_path().push(idx as int),
            final(self).spec_active() == old(self).spec_active(),
            final(self).spec_used() == old(self).spec_used(),
            final(self).allocated() == old(self).allocated(),
            final(self).cache() == old(self).cache(),
            final(self).spec_root_position() == old(self).spec_root_position(),
            final(self).stale_half() == old(self).stale_half(),
            final(self).halves_ok() == old(self).halves_ok(),
    {
        self.path.push(idx);
        assert(self.spec_path() =~= old(self).spec_path().push(idx as int));
    }

    pub(crate) fn path_clear(&mut self)
        ensures
            final(self).nodes() == old(self).nodes(),
            final(self).spec_path() == Seq::<int>::empty(),
            final(self).spec_active() == old(self).spec_active(),
            final(self).spec_used() == old(self).spec_used(),
            final(self).allocated() == old(self).allocated(),
            final(self).cache() == old(self).cache(),
            final(self).spec_root_position() == old(self).spec_root_position(),
            final(self).stale_half() == old(self).stale_half(),
            final(self).halves_ok() == old(self).halves_ok(),
    {
        self.path.clear();
        assert(self.spec_path() =~= Seq::<int>::empty());
    }

    /// The handle of the root.
    pub fn root_node(&self) -> (p: NodePtr)
        ensures
            p == NodePtr::at(self.spec_active(), 0),
    {
        NodePtr::new(self.active, 0)
    }

    /// Whether the upper half is the active one.
    pub fn upper_active(&self) -> (b: bool)
        ensures
            b == self.spec_active(),
    {
        self.active
    }

    /// The number of the active half, 0 or 1.
    pub fn half(&self) -> (h: usize)
        ensures
            h == (if self.spec_active() {
                1int
            } else {
                0int
            }),
    {
        if self.active {
            1
        } else {
            0
        }
    }

    pub fn is_empty(&self) -> (b: bool)
        ensures
            b == (self.spec_used() == 0),
    {
        self.active_ref().is_empty()
    }

    pub fn is_full(&self) -> (b: bool)
        ensures
            b == (self.spec_used() >= self.capacity()),
    {
        self.active_ref().is_full()
    }

    pub fn used(&self) -> (n: usize)
        ensures
            n == self.spec_used(),
    {
        self.active_ref().used()
    }

    /// The number of nodes that the tree holds.
    pub fn len(&self) -> (n: usize)
        ensures
            n == self.allocated(),
    {
        self.live
    }

    /// The number of slots of a half.
    pub fn slots(&self) -> (n: usize)
        ensures
            n == self.capacity(),
    {
        self.active_ref().len()
    }

    /// The position at the root.
    pub fn root_position(&self) -> (b: &Board)
        ensures
            b@ == self.spec_root_position(),
    {
        &self.root_position
    }

    /// The node that a handle names, in the half that it names.
    pub fn node(&self, ptr: NodePtr) -> (node: &Node)
        requires
            self.wf(),
            ptr.spec_idx() < self.capacity(),
        ensures
            node@ == (if ptr.spec_half() == self.spec_active() {
                self.nodes()[ptr.spec_idx()]
            } else {
                self.stale_half().slots()[ptr.spec_idx()]
            }),
    {
        if ptr.half() {
            self.upper.node(ptr)
        } else {
            self.lower.node(ptr)
        }
    }

    /// Takes a position as the one at the root. The tree is not touched:
    /// it is for the caller to see that it fits the position.
    pub fn set_root_position(&mut self, pos: &Board)
        ensures
            final(self).spec_root_position() == pos@,
            final(self).nodes() == old(self).nodes(),
            final(self).spec_active() == old(self).spec_active(),
            final(self).spec_used() == old(self).spec_used(),
            final(self).allocated() == old(self).allocated(),
            final(self).spec_path() == old(self).spec_path(),
            final(self).cache() == old(self).cache(),
            final(self).stale_half() == old(self).stale_half(),
            final(self).halves_ok() == old(self).halves_ok(),
    {
        self.root_position = *pos;
    }

    /// The value that the cache holds for a hash.
    pub fn probe_hash(&self, hash: u64) -> (r: Option<u32>)
        ensures
            r == self.cache().lookup(hash),
    {
        self.hash.probe(hash)
    }

    /// Stores a value for a hash in the cache.
    pub fn push_hash(&mut self, hash: u64, value: u32)
        ensures
            final(self).cache().slots() == old(self).cache().slots().update(
                old(self).cache().slot_of(hash),
                Some(HashEntry { key: hash, value }),
            ),
            final(self).cache().lookup(hash) == Some(value),
            final(self).nodes() == old(self).nodes(),
            final(self).spec_active() == old(self).spec_active(),
            final(self).spec_used() == old(self).spec_used(),
            final(self).allocated() == old(self).allocated(),
            final(self).spec_path() == old(self).spec_path(),
            final(self).spec_root_position() == old(self).spec_root_position(),
            final(self).stale_half() == old(self).stale_half(),
            final(self).halves_ok() == old(self).halves_ok(),
    {
        self.hash.store(hash, value);
    }

    /// Empties the tree: no slot of either half is in use, the lower half is
    /// active, and a descent under way is dropped. The cache and the root
    /// position stay.
    pub fn clear(&mut self)
        requires
            old(self).wf(),
        ensures
            final(self).wf(),
            final(self).spec_used() == 0,
            final(self).allocated() == 0,
            !final(self).spec_active(),
            !final(self).descending(),
            final(self).capacity() == old(self).capacity(),
            final(self).cache() == old(self).cache(),
            final(self).spec_root_position() == old(self).spec_root_position(),
    {
        self.lower.clear();
        self.upper.clear();
        self.active = false;
        self.live = 0;
        self.path.clear();
        assert(self.spec_path() =~= Seq::<int>::empty());
    }
}

} // verus!
