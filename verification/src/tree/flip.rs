use vstd::prelude::*;

use crate::tree::arena::Tree;
use crate::tree::copy::{
    block_copied, compact, copy_inv, lemma_copy_compact, lemma_copy_block, lemma_copy_leaf, lemma_copy_room, lemma_copy_shape,
    lemma_copy_start, lemma_copy_subtree, parent_extended, pending, src_extended,
};
use crate::tree::node::NodeModel;
use crate::tree::shape::{first_child, tree_shape};
use crate::tree::view::{data_of, subtree, subtrees, TreeView};

verus! {

/// Whether two nodes hold the same and have the same children.
pub open spec fn same_node(a: NodeModel, b: NodeModel) -> bool {
    &&& data_of(a) == data_of(b)
    &&& a.actions == b.actions
    &&& a.num_actions == b.num_actions
}

/// The tree below a node depends on the nodes from its slot on alone, and of
/// these on what they hold and on their children, not on their threads.
pub proof fn lemma_subtree_frame(a: Seq<NodeModel>, b: Seq<NodeModel>, n: int, lo: int, i: int)
    requires
        forall|j: int| lo <= j < n ==> #[trigger] same_node(a[j], b[j]),
        0 <= lo <= i < n,
    ensures
        subtree(a, n, i) == subtree(b, n, i),
    decreases n - i, 0int,
{
    assert(same_node(a[i], b[i]));
    let first = first_child(a, i);
    let k = a[i].num_actions as int;
    if 0 <= i < first && k > 0 && first + k <= n {
        lemma_subtrees_frame(a, b, n, lo, first, k);
    }
}

/// The trees below nodes in a row depend on the nodes from the first of
/// their slots on alone.
pub proof fn lemma_subtrees_frame(
    a: Seq<NodeModel>,
    b: Seq<NodeModel>,
    n: int,
    lo: int,
    first: int,
    count: int,
)
    requires
        forall|j: int| lo <= j < n ==> #[trigger] same_node(a[j], b[j]),
        0 <= lo <= first,
    ensures
        subtrees(a, n, first, count) == subtrees(b, n, first, count),
    decreases n - first, count + 1,
{
    if !(count <= 0 || first < 0 || first + count > n) {
        lemma_subtrees_frame(a, b, n, lo, first, count - 1);
        lemma_subtree_frame(a, b, n, lo, first + count - 1);
    }
}

impl Tree {
    /// The tree that the arena holds, as such: `None` for an empty arena.
    pub open spec fn tree_view(&self) -> Option<TreeView> {
        if self.allocated() > 0 {
            Some(subtree(self.nodes(), self.allocated(), 0))
        } else {
            None
        }
    }

    /// Makes the other half the active one. A descent under way is dropped.
    /// With `preserve_root` the tree is copied over, the root to the first
    /// slot and the children of each node to the next free slots, in the
    /// order in which the nodes were copied; else the tree is empty
    /// afterwards.
    pub fn flip(&mut self, preserve_root: bool)
        requires
            old(self).wf(),
        ensures
            final(self).wf(),
            !final(self).descending(),
            final(self).spec_active() == !old(self).spec_active(),
            final(self).capacity() == old(self).capacity(),
            final(self).cache() == old(self).cache(),
            final(self).spec_root_position() == old(self).spec_root_position(),
            final(self).tree_view() == (if preserve_root {
                old(self).tree_view()
            } else {
                None
            }),
            final(self).spec_used() == final(self).allocated(),
            final(self).allocated() <= old(self).allocated(),
            compact(final(self).nodes(), final(self).allocated()),
    {
        self.abandon();
        proof {
            self.lemma_capacity();
        }
        let old_n = self.len();
        let ghost old_nodes = self.nodes();
        let ghost old_half = self.spec_active();
        let ghost half = !old_half;
        proof {
            if old_n > 0 {
                assert forall|j: int| 0 <= j < old_n implies #[trigger] same_node(
                    old(self).nodes()[j],
                    old_nodes[j],
                ) by {}
                lemma_subtree_frame(old(self).nodes(), old_nodes, old_n as int, 0, 0);
            }
        }
        self.swap_halves();
        if !preserve_root || old_n == 0 {
            return;
        }
        let root = self.reserve(1);
        self.copy_in(0, 0);
        let ghost mut src = seq![0int];
        let ghost mut parent = seq![-1int];
        proof {
            lemma_copy_start(old_nodes, old_n as int, self.nodes(), half);
        }
        let mut scan: usize = 0;
        while scan < self.len()
            invariant
                self.halves_ok(),
                self.spec_active() == half,
                self.spec_path() == Seq::<int>::empty(),
                self.cache() == old(self).cache(),
                self.spec_root_position() == old(self).spec_root_position(),
                self.capacity() == old(self).capacity(),
                self.stale_half().slots() == old_nodes,
                self.spec_used() == self.allocated(),
                old_nodes.len() == self.capacity(),
                0 < old_n <= self.capacity() <= 0x7fff_ffff,
                tree_shape(old_nodes, old_half, old_n as int, Seq::<int>::empty()),
                copy_inv(
                    old_nodes,
                    old_n as int,
                    self.nodes(),
                    half,
                    src,
                    parent,
                    scan as int,
                    self.allocated(),
                ),
                self.allocated() <= old_n,
            decreases old_n - scan,
        {
            let m = self.len();
            let node = self.slot(scan);
            let k = node.num_actions();
            let ghost before = self.nodes();
            if k == 0 {
                proof {
                    lemma_copy_leaf(
                        old_nodes,
                        old_n as int,
                        before,
                        half,
                        src,
                        parent,
                        scan as int,
                        m as int,
                    );
                }
            } else {
                let a = node.actions().idx();
                proof {
                    assert(pending(old_nodes, before, src, scan as int));
                    lemma_copy_room(
                        old_nodes,
                        old_half,
                        old_n as int,
                        before,
                        half,
                        src,
                        parent,
                        scan as int,
                        m as int,
                    );
                }
                match self.reserve(k) {
                    None => {
                        proof {
                            assert(false);
                        }
                    },
                    Some(first) => {
                        let mut j: usize = 0;
                        while j < k
                            invariant
                                j <= k,
                                scan < m,
                                a + k <= old_n <= self.capacity() <= 0x7fff_ffff,
                                m + k <= old_n,
                                self.halves_ok(),
                                self.spec_active() == half,
                                self.spec_path() == Seq::<int>::empty(),
                                self.cache() == old(self).cache(),
                                self.spec_root_position() == old(self).spec_root_position(),
                                self.capacity() == old(self).capacity(),
                                self.stale_half().slots() == old_nodes,
                                self.spec_used() == self.allocated() == m + k,
                                old_nodes.len() == self.capacity(),
                                self.nodes().len() == before.len(),
                                forall|i: int|
                                    0 <= i < before.len() ==> #[trigger] self.nodes()[i] == (if m
                                        <= i < m + j {
                                        old_nodes[a + i - m]
                                    } else {
                                        before[i]
                                    }),
                            decreases k - j,
                        {
                            self.copy_in(a + j, m + j);
                            j = j + 1;
                        }
                        let slot = self.slot_mut(scan);
                        slot.actions_mut(first);
                        proof {
                            assert(self.nodes() =~= block_copied(
                                old_nodes,
                                before,
                                half,
                                scan as int,
                                m as int,
                                a as int,
                                k as int,
                            ));
                            lemma_copy_block(
                                old_nodes,
                                old_half,
                                old_n as int,
                                before,
                                half,
                                src,
                                parent,
                                scan as int,
                                m as int,
                            );
                            src = src_extended(src, a as int, k as int);
                            parent = parent_extended(parent, scan as int, k as int);
                        }
                    },
                }
            }
            scan = scan + 1;
        }
        proof {
            let m = self.allocated();
            lemma_copy_shape(old_nodes, old_half, old_n as int, self.nodes(), half, src, parent, m);
            lemma_copy_compact(old_nodes, old_n as int, self.nodes(), half, src, parent, m);
            lemma_copy_subtree(
                old_nodes,
                old_half,
                old_n as int,
                self.nodes(),
                half,
                src,
                parent,
                m,
                0,
            );
        }
    }

    /// Flipping twice with the root preserved gives the tree back as it was,
    /// in the half where it was; only its slots may be others.
    pub proof fn lemma_flip_twice(before: Tree, between: Tree, after: Tree)
        requires
            between.spec_active() == !before.spec_active(),
            between.tree_view() == before.tree_view(),
            after.spec_active() == !between.spec_active(),
            after.tree_view() == between.tree_view(),
        ensures
            after.spec_active() == before.spec_active(),
            after.tree_view() == before.tree_view(),
    {
    }
}

} // verus!
