use vstd::prelude::*;

use crate::tree::arena::Tree;
use crate::tree::node::QUANT;
use crate::tree::shape::{child_visits, first_child, in_flight};

verus! {

impl Tree {
    /// A node with children has one visit more, at least, than its children
    /// together: the visit before they were made, and one for each of theirs.
    pub proof fn lemma_visits_cover(&self, i: int)
        requires
            self.wf(),
            0 <= i < self.allocated(),
            self.nodes()[i].num_actions > 0,
        ensures
            self.nodes()[i].visits >= child_visits(
                self.nodes(),
                first_child(self.nodes(), i),
                self.nodes()[i].num_actions as int,
            ) + 1,
            self.nodes()[i].visits > 0,
    {
        let nodes = self.nodes();
        let a = first_child(nodes, i);
        let k = nodes[i].num_actions as int;
        assert forall|j: int| a <= j < a + k implies (#[trigger] nodes[j]).visits >= 0 by {
            assert(nodes[j].in_range());
        }
        crate::tree::shape::lemma_child_visits_nonneg(nodes, a, k);
    }

    /// The mean of every node of the tree lies between 0 and `QUANT`.
    pub proof fn lemma_mean_in_range(&self, i: int)
        requires
            self.wf(),
            0 <= i < self.allocated(),
        ensures
            0 <= self.nodes()[i].q() <= QUANT,
    {
        assert(self.nodes()[i].in_range());
        self.nodes()[i].lemma_q_bounds();
    }

    /// The children of every node of the tree lie in the active half, behind
    /// their parent and among the nodes of the tree.
    pub proof fn lemma_children_in_active_half(&self, i: int)
        requires
            self.wf(),
            0 <= i < self.allocated(),
            self.nodes()[i].num_actions > 0,
        ensures
            self.nodes()[i].actions.spec_half() == self.spec_active(),
            i < first_child(self.nodes(), i),
            first_child(self.nodes(), i) + self.nodes()[i].num_actions <= self.allocated(),
    {
        assert(self.nodes()[i].num_actions > 0);
    }

    /// While no descent is under way, no node of the tree counts a thread.
    pub proof fn lemma_threads_returned(&self, i: int)
        requires
            self.wf(),
            !self.descending(),
            0 <= i < self.allocated(),
        ensures
            self.nodes()[i].threads == 0,
    {
        assert(!in_flight(self.spec_path(), self.spec_path().len() as int, i));
    }

    /// A node of the tree that was never visited is ongoing and has no
    /// children.
    pub proof fn lemma_unvisited(&self, i: int)
        requires
            self.wf(),
            0 <= i < self.allocated(),
            self.nodes()[i].visits == 0,
        ensures
            !self.nodes()[i].state.is_terminal(),
            self.nodes()[i].num_actions == 0,
    {
        assert(self.nodes()[i].in_range());
        if self.nodes()[i].num_actions > 0 {
            self.lemma_visits_cover(i);
        }
    }
}

} // verus!
