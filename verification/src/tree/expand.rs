use vstd::prelude::*;

use crate::ataxx::moves::Move;
use crate::ataxx::state::GameState;
use crate::tree::arena::Tree;
use crate::tree::node::{NodeModel, NodePtr, QUANT};
use crate::tree::shape::{
    expanded, first_child, lemma_expanded_shape, lemma_pushed_shape, lemma_root_updated_shape,
    lemma_touched_shape, relabelled,
};

verus! {

/// How an attempt to give a node its children ended.
#[derive(Clone, Copy, PartialEq, Eq, Debug, Structural)]
pub enum Expansion {
    /// The node has its children now, or had them already.
    Done,
    /// The active half has too few free slots. Nothing was changed but the
    /// count of slots asked for.
    TreeFull,
    /// The handle names no node of the tree, the node is decided or was never
    /// visited, or the moves are none, more than 255, or not as many as the
    /// priors. Nothing was changed.
    Refused,
}

impl Tree {
    /// Whether a handle names a node of the tree.
    pub open spec fn holds(&self, ptr: NodePtr) -> bool {
        ptr.spec_half() == self.spec_active() && ptr.spec_idx() < self.allocated()
    }

    /// Whether a handle names a node of the tree.
    pub fn contains(&self, ptr: NodePtr) -> (b: bool)
        requires
            self.wf(),
        ensures
            b == self.holds(ptr),
    {
        ptr.half() == self.upper_active() && ptr.idx() < self.len()
    }

    /// Puts a fresh node into the next free slot of the active half.
    pub fn push_new_node(&mut self) -> (r: Option<NodePtr>)
        requires
            old(self).wf(),
        ensures
            final(self).wf(),
            final(self).spec_active() == old(self).spec_active(),
            final(self).capacity() == old(self).capacity(),
            final(self).spec_path() == old(self).spec_path(),
            final(self).cache() == old(self).cache(),
            final(self).spec_root_position() == old(self).spec_root_position(),
            r is Some <==> old(self).spec_used() < old(self).capacity(),
            final(self).spec_used() == (if old(self).spec_used() + 1 > usize::MAX {
                usize::MAX as int
            } else {
                old(self).spec_used() + 1
            }),
            r is Some ==> r == Some(NodePtr::at(old(self).spec_active(), old(self).allocated()))
                && final(self).allocated() == old(self).allocated() + 1 && final(self).nodes()
                == old(self).nodes().update(
                old(self).allocated(),
                NodeModel::fresh(GameState::Ongoing),
            ),
            r is None ==> final(self).allocated() == old(self).allocated() && final(self).nodes()
                == old(self).nodes(),
    {
        proof {
            self.lemma_capacity();
        }
        let n = self.len();
        match self.reserve(1) {
            None => None,
            Some(ptr) => {
                let node = self.slot_mut(n);
                node.set_new(Move::new_null(), 0);
                proof {
                    Move::lemma_ext(final(node)@.mov, NodeModel::fresh(GameState::Ongoing).mov);
                    lemma_pushed_shape(
                        old(self).nodes(),
                        old(self).spec_active(),
                        n as int,
                        old(self).spec_path(),
                    );
                }
                Some(ptr)
            },
        }
    }

    /// Whether `expand_node` refuses to work on a node with these moves.
    pub open spec fn refuses(&self, ptr: NodePtr, moves: Seq<Move>, policies: Seq<u16>) -> bool {
        ||| !self.holds(ptr)
        ||| self.nodes()[ptr.spec_idx()].state.is_terminal()
        ||| self.nodes()[ptr.spec_idx()].visits == 0
        ||| moves.len() == 0
        ||| moves.len() > 255
        ||| moves.len() != policies.len()
    }

    /// Gives a visited, ongoing node its children: one fresh node for each
    /// move, in the next free slots, with the move and its prior. The node
    /// keeps `gini` as the diversity measure of the priors. A node that has
    /// children already is left as it is.
    pub fn expand_node(
        &mut self,
        ptr: NodePtr,
        moves: &Vec<Move>,
        policies: &Vec<u16>,
        gini: u32,
    ) -> (r: Expansion)
        requires
            old(self).wf(),
        ensures
            final(self).wf(),
            final(self).spec_active() == old(self).spec_active(),
            final(self).capacity() == old(self).capacity(),
            final(self).spec_path() == old(self).spec_path(),
            final(self).cache() == old(self).cache(),
            final(self).spec_root_position() == old(self).spec_root_position(),
            r == Expansion::Refused <==> old(self).refuses(ptr, moves@, policies@),
            r == Expansion::TreeFull <==> !old(self).refuses(ptr, moves@, policies@) && old(
                self,
            ).nodes()[ptr.spec_idx()].num_actions == 0 && old(self).spec_used() + moves@.len()
                > old(self).capacity(),
            r == Expansion::Done && old(self).nodes()[ptr.spec_idx()].num_actions == 0 ==> {
                &&& final(self).nodes() == expanded(
                    old(self).nodes(),
                    old(self).spec_active(),
                    old(self).allocated(),
                    ptr.spec_idx(),
                    moves@,
                    policies@,
                    gini,
                )
                &&& final(self).allocated() == old(self).allocated() + moves@.len()
            },
            r != Expansion::Done || old(self).nodes()[ptr.spec_idx()].num_actions > 0 ==> {
                &&& final(self).nodes() == old(self).nodes()
                &&& final(self).allocated() == old(self).allocated()
            },
    {
        proof {
            self.lemma_capacity();
        }
        if !self.contains(ptr) {
            return Expansion::Refused;
        }
        let idx = ptr.idx();
        let k = moves.len();
        let node = self.node(ptr);
        if node.is_terminal() || node.visits() == 0 || k == 0 || k > 255 || k != policies.len() {
            return Expansion::Refused;
        }
        if node.has_children() {
            return Expansion::Done;
        }
        let n = self.len();
        match self.reserve(k) {
            None => Expansion::TreeFull,
            Some(first) => {
                let ghost reserved = *self;
                let mut j: usize = 0;
                while j < k
                    invariant
                        j <= k == moves@.len() == policies@.len(),
                        n + k <= self.capacity() <= 0x7fff_ffff,
                        self.same_frame(&reserved),
                        self.nodes().len() == reserved.nodes().len(),
                        forall|i: int|
                            0 <= i < self.nodes().len() ==> #[trigger] self.nodes()[i] == (if n
                                <= i < n + j {
                                NodeModel {
                                    mov: moves@[i - n],
                                    policy: policies@[i - n],
                                    ..NodeModel::fresh(GameState::Ongoing)
                                }
                            } else {
                                reserved.nodes()[i]
                            }),
                    decreases k - j,
                {
                    let child = self.slot_mut(n + j);
                    child.set_new(moves[j], policies[j]);
                    j = j + 1;
                }
                let node = self.slot_mut(idx);
                node.actions_mut(first);
                node.set_num_actions(k);
                node.set_gini_impurity(gini);
                proof {
                    assert(self.nodes() =~= expanded(
                        old(self).nodes(),
                        old(self).spec_active(),
                        n as int,
                        idx as int,
                        moves@,
                        policies@,
                        gini,
                    ));
                    lemma_expanded_shape(
                        old(self).nodes(),
                        old(self).spec_active(),
                        n as int,
                        old(self).spec_path(),
                        idx as int,
                        moves@,
                        policies@,
                        gini,
                    );
                }
                Expansion::Done
            },
        }
    }

    /// Gives the children of a node new priors, one for each child in their
    /// order. Returns whether it did: not for a handle that names no node of
    /// the tree, nor when the priors are not as many as the children.
    pub fn relabel_policy(&mut self, ptr: NodePtr, policies: &Vec<u16>) -> (done: bool)
        requires
            old(self).wf(),
        ensures
            final(self).wf(),
            final(self).same_frame(old(self)),
            done == (old(self).holds(ptr) && old(self).nodes()[ptr.spec_idx()].num_actions
                == policies@.len()),
            final(self).nodes() == (if done {
                relabelled(
                    old(self).nodes(),
                    first_child(old(self).nodes(), ptr.spec_idx()),
                    policies@,
                )
            } else {
                old(self).nodes()
            }),
    {
        proof {
            self.lemma_capacity();
        }
        if !self.contains(ptr) {
            return false;
        }
        let node = self.node(ptr);
        let k = node.num_actions();
        if k != policies.len() {
            return false;
        }
        let first = node.actions().idx();
        assert(k > 0 ==> first + k <= self.allocated()) by {
            assert(self.nodes()[ptr.spec_idx()].num_actions == k);
        }
        let mut j: usize = 0;
        while j < k
            invariant
                j <= k == policies@.len(),
                k > 0 ==> first + k <= self.allocated(),
                self.wf(),
                self.same_frame(old(self)),
                self.nodes() == relabelled(
                    old(self).nodes(),
                    first as int,
                    policies@.take(j as int),
                ),
            decreases k - j,
        {
            proof {
                self.lemma_capacity();
            }
            let ghost before = self.nodes();
            let child = self.slot_mut(first + j);
            child.set_policy(policies[j]);
            proof {
                assert(before[first + j].in_range());
                lemma_touched_shape(
                    before,
                    self.nodes(),
                    self.spec_active(),
                    self.allocated(),
                    self.spec_path(),
                    first + j,
                );
                assert(self.nodes() =~= relabelled(
                    old(self).nodes(),
                    first as int,
                    policies@.take(j + 1),
                ));
            }
            j = j + 1;
        }
        proof {
            assert(policies@.take(k as int) =~= policies@);
            assert(self.nodes() =~= relabelled(old(self).nodes(), first as int, policies@));
        }
        true
    }

    /// Makes the root of an empty tree: a node that has been visited once
    /// with the value `value` of its position for the side to move, turned to
    /// the view of the side that moved there, and has its children. Refuses a
    /// tree that is not empty and moves that `expand_node` refuses.
    pub fn seed_root(&mut self, moves: &Vec<Move>, policies: &Vec<u16>, gini: u32, value: i64) -> (r:
        Expansion)
        requires
            old(self).wf(),
            0 <= value <= QUANT,
        ensures
            final(self).wf(),
            final(self).spec_active() == old(self).spec_active(),
            final(self).capacity() == old(self).capacity(),
            final(self).cache() == old(self).cache(),
            final(self).spec_root_position() == old(self).spec_root_position(),
            r == Expansion::Refused <==> old(self).spec_used() != 0 || moves@.len() == 0
                || moves@.len() > 255 || moves@.len() != policies@.len(),
            r == Expansion::Refused ==> final(self).nodes() == old(self).nodes()
                && final(self).allocated() == old(self).allocated() && final(self).spec_path()
                == old(self).spec_path(),
            r == Expansion::TreeFull <==> r != Expansion::Refused && old(self).capacity() < 1
                + moves@.len(),
            r != Expansion::Refused ==> !final(self).descending(),
            r == Expansion::TreeFull ==> final(self).allocated() <= 1 && (final(self).allocated()
                == 1 ==> final(self).nodes()[0].num_actions == 0),
            r == Expansion::Done ==> {
                &&& final(self).allocated() == 1 + moves@.len()
                &&& final(self).nodes() == expanded(
                    old(self).nodes().update(
                        0,
                        NodeModel::fresh(GameState::Ongoing).updated(QUANT - value),
                    ),
                    old(self).spec_active(),
                    1,
                    0,
                    moves@,
                    policies@,
                    gini,
                )
            },
    {
        proof {
            self.lemma_capacity();
        }
        let k = moves.len();
        if !self.is_empty() || k == 0 || k > 255 || k != policies.len() {
            return Expansion::Refused;
        }
        assert(self.spec_path() =~= Seq::<int>::empty()) by {
            if self.spec_path().len() > 0 {
                assert(0 <= self.spec_path()[0] < self.allocated());
            }
        }
        match self.push_new_node() {
            None => Expansion::TreeFull,
            Some(root) => {
                proof {
                    NodePtr::lemma_at(self.spec_active(), 0);
                }
                let ghost before = self.nodes();
                let node = self.slot_mut(0);
                node.update(QUANT - value);
                proof {
                    lemma_root_updated_shape(
                        before,
                        self.spec_active(),
                        self.allocated(),
                        (QUANT - value) as int,
                    );
                }
                self.expand_node(root, moves, policies, gini)
            },
        }
    }
}

} // verus!
