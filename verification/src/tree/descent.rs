use vstd::prelude::*;

use crate::ataxx::moves::Move;
use crate::ataxx::state::GameState;
use crate::tree::arena::Tree;
use crate::tree::node::{NodeModel, NodePtr};
use crate::tree::shape::{
    child_visits, first_child, in_flight, is_child_of, lemma_child_visits_frame,
    lemma_child_visits_member, path_linked, shape_at, steps_down, tree_shape, well_linked,
};

verus! {

/// What a descent has to do next at the node it has come to.
#[derive(Clone, Copy, PartialEq, Eq, Debug, Structural)]
pub enum Phase {
    /// No descent is under way.
    Idle,
    /// The node is decided or was never visited: its value is backed up.
    Leaf,
    /// The node was visited and is ongoing, but has no children yet.
    Expand,
    /// The node has children: one of them is chosen.
    Select,
}

/// The phase of a descent that has come to `node`.
pub open spec fn phase_of(node: NodeModel) -> Phase {
    if node.state.is_terminal() || node.visits == 0 {
        Phase::Leaf
    } else if node.num_actions == 0 {
        Phase::Expand
    } else {
        Phase::Select
    }
}

/// A descent visits slots in ascending order.
pub proof fn lemma_path_ascends(
    nodes: Seq<NodeModel>,
    half: bool,
    n: int,
    path: Seq<int>,
    d: int,
    e: int,
)
    requires
        well_linked(nodes, half, n),
        path_linked(nodes, n, path),
        0 <= d < e < path.len(),
    ensures
        path[d] < path[e],
    decreases e - d,
{
    assert(steps_down(nodes, path, e - 1));
    assert(0 <= path[e - 1] < n);
    assert(nodes[path[e - 1]].num_actions > 0);
    if d < e - 1 {
        lemma_path_ascends(nodes, half, n, path, d, e - 1);
    }
}

/// Down a descent every node has fewer visits than the one before.
pub proof fn lemma_path_visits(
    nodes: Seq<NodeModel>,
    half: bool,
    n: int,
    path: Seq<int>,
    upto: int,
    d: int,
)
    requires
        shape_at(nodes, half, n, path, -1, upto),
        0 <= d < path.len(),
    ensures
        nodes[path[d]].visits + d <= nodes[path[0]].visits,
    decreases d,
{
    if d > 0 {
        lemma_path_visits(nodes, half, n, path, upto, d - 1);
        let p = path[d - 1];
        assert(steps_down(nodes, path, d - 1));
        assert(0 <= p < n);
        assert(nodes[p].num_actions > 0);
        let a = first_child(nodes, p);
        let k = nodes[p].num_actions as int;
        assert forall|j: int| a <= j < a + k implies (#[trigger] nodes[j]).visits >= 0 by {
            assert(nodes[j].in_range());
        }
        lemma_child_visits_member(nodes, a, k, path[d]);
    }
}

/// A descent may start at the root of a tree whose root has room for one
/// more visit.
pub proof fn lemma_begin_shape(nodes: Seq<NodeModel>, half: bool, n: int)
    requires
        tree_shape(nodes, half, n, Seq::<int>::empty()),
        0 < n,
        nodes[0].visits < i32::MAX,
    ensures
        tree_shape(nodes, half, n, seq![0int]),
{
    let path = seq![0int];
    assert forall|i: int| 0 <= i < n implies (#[trigger] nodes[i]).threads == (if in_flight(
        path,
        1,
        i,
    ) {
        1nat
    } else {
        0nat
    }) by {
        assert(!in_flight(Seq::<int>::empty(), 0, i));
        assert(!in_flight(path, 1, i));
    }
}

/// Stepping to a child and counting a thread there keeps the shape of the
/// tree.
pub proof fn lemma_descend_shape(
    nodes: Seq<NodeModel>,
    half: bool,
    n: int,
    path: Seq<int>,
    c: int,
)
    requires
        tree_shape(nodes, half, n, path),
        path.len() > 0,
        nodes[path.last()].num_actions > 0,
        is_child_of(nodes, path.last(), c),
    ensures
        nodes[c].threads == 0,
        0 <= c < n,
        tree_shape(nodes.update(c, NodeModel { threads: 1, ..nodes[c] }), half, n, path.push(c)),
{
    let len = path.len() as int;
    let cur = path.last();
    let after = nodes.update(c, NodeModel { threads: 1, ..nodes[c] });
    let longer = path.push(c);
    assert(0 <= cur < n);
    assert(cur < c < n);
    assert forall|d: int| 0 <= d < len implies path[d] < c by {
        if d < len - 1 {
            lemma_path_ascends(nodes, half, n, path, d, len - 1);
        }
    }
    assert(!in_flight(path, len, c));
    assert(nodes[c].threads == 0);
    assert(nodes[c].in_range());
    assert forall|i: int| 0 <= i < n && (#[trigger] after[i]).num_actions > 0 implies {
        &&& after[i].actions.spec_half() == half
        &&& i < first_child(after, i)
        &&& first_child(after, i) + after[i].num_actions <= n
    } by {
        assert(nodes[i].num_actions > 0);
    }
    assert forall|p: int, q: int, x: int|
        0 <= p < n && 0 <= q < n && #[trigger] is_child_of(after, p, x) && #[trigger] is_child_of(
            after,
            q,
            x,
        ) implies p == q by {
        assert(is_child_of(nodes, p, x) && is_child_of(nodes, q, x));
    }
    assert forall|i: int| 0 <= i < n && (#[trigger] after[i]).num_actions > 0 implies after[i].visits
        + (if i == -1 {
        1int
    } else {
        0int
    }) >= 1 + child_visits(after, first_child(after, i), after[i].num_actions as int) by {
        assert(nodes[i].num_actions > 0);
        let a = first_child(nodes, i);
        let k = nodes[i].num_actions as int;
        assert forall|j: int| a <= j < a + k implies (#[trigger] nodes[j]).visits
            == after[j].visits by {}
        lemma_child_visits_frame(nodes, after, a, k);
    }
    assert forall|i: int| 0 <= i < n implies (#[trigger] after[i]).in_range() && (after[i].visits
        == 0 ==> after[i].state == GameState::Ongoing) by {
        assert(nodes[i].in_range());
    }
    assert forall|i: int| 0 <= i < n implies (#[trigger] after[i]).threads == (if in_flight(
        longer,
        len + 1,
        i,
    ) {
        1nat
    } else {
        0nat
    }) by {
        if i == c {
            assert(longer[len] == c);
            assert(in_flight(longer, len + 1, i));
        } else {
            assert(after[i].threads == nodes[i].threads);
            if in_flight(path, len, i) {
                let d = choose|d: int| 1 <= d <= len && d < path.len() && #[trigger] path[d] == i;
                assert(longer[d] == i);
                assert(in_flight(longer, len + 1, i));
            }
            if in_flight(longer, len + 1, i) {
                let d = choose|d: int|
                    1 <= d <= len + 1 && d < longer.len() && #[trigger] longer[d] == i;
                assert(d < len);
                assert(path[d] == i);
                assert(in_flight(path, len, i));
            }
        }
    }
    assert forall|d: int| 0 <= d < longer.len() implies 0 <= #[trigger] longer[d] < n by {
        if d < len {
            assert(longer[d] == path[d]);
        }
    }
    assert forall|d: int| 0 <= d < longer.len() - 1 implies #[trigger] steps_down(
        after,
        longer,
        d,
    ) by {
        if d < len - 1 {
            assert(steps_down(nodes, path, d));
            assert(longer[d] == path[d] && longer[d + 1] == path[d + 1]);
        } else {
            assert(longer[d] == cur && longer[d + 1] == c);
        }
    }
    assert(longer[0] == path[0]);
    assert(after[0].visits == nodes[0].visits);
}

impl Tree {
    /// The slot of the node that the descent has come to.
    pub open spec fn cursor_slot(&self) -> int {
        self.spec_path().last()
    }

    /// What the descent has to do next.
    pub open spec fn spec_phase(&self) -> Phase {
        if self.descending() {
            phase_of(self.nodes()[self.cursor_slot()])
        } else {
            Phase::Idle
        }
    }

    /// The number of nodes on the descent under way.
    pub fn depth(&self) -> (d: usize)
        ensures
            d == self.spec_path().len(),
    {
        self.path_len()
    }

    /// The node that the descent has come to, if one is under way.
    pub fn cursor(&self) -> (r: Option<NodePtr>)
        requires
            self.wf(),
        ensures
            r == (if self.descending() {
                Some(NodePtr::at(self.spec_active(), self.cursor_slot()))
            } else {
                None
            }),
            r is Some ==> self.holds(r->0),
    {
        let len = self.path_len();
        if len == 0 {
            None
        } else {
            let idx = self.path_at(len - 1);
            proof {
                self.lemma_capacity();
                assert(0 <= self.spec_path()[len - 1] < self.allocated());
                NodePtr::lemma_at(self.spec_active(), idx as int);
            }
            Some(NodePtr::new(self.upper_active(), idx as u32))
        }
    }

    /// What the descent has to do next.
    pub fn phase(&self) -> (p: Phase)
        requires
            self.wf(),
        ensures
            p == self.spec_phase(),
    {
        let len = self.path_len();
        if len == 0 {
            return Phase::Idle;
        }
        let idx = self.path_at(len - 1);
        proof {
            self.lemma_capacity();
            assert(0 <= self.spec_path()[len - 1] < self.allocated());
        }
        let node = self.slot(idx);
        if node.is_terminal() || node.visits() == 0 {
            Phase::Leaf
        } else if node.is_not_expanded() {
            Phase::Expand
        } else {
            Phase::Select
        }
    }

    /// Starts a descent at the root. Returns whether it did: not while
    /// another is under way, in an empty tree, or when the root cannot count
    /// another visit.
    pub fn begin_iteration(&mut self) -> (started: bool)
        requires
            old(self).wf(),
        ensures
            final(self).wf(),
            final(self).nodes() == old(self).nodes(),
            final(self).spec_active() == old(self).spec_active(),
            final(self).allocated() == old(self).allocated(),
            final(self).spec_used() == old(self).spec_used(),
            final(self).cache() == old(self).cache(),
            final(self).spec_root_position() == old(self).spec_root_position(),
            started == (!old(self).descending() && old(self).allocated() > 0 && old(
                self,
            ).nodes()[0].visits < i32::MAX),
            final(self).spec_path() == (if started {
                seq![0int]
            } else {
                old(self).spec_path()
            }),
    {
        proof {
            self.lemma_capacity();
        }
        if self.path_len() != 0 || self.len() == 0 {
            return false;
        }
        if self.slot(0).visits() == i32::MAX {
            return false;
        }
        assert(self.spec_path() =~= Seq::<int>::empty());
        self.path_push(0);
        proof {
            assert(self.spec_path() =~= seq![0int]);
            lemma_begin_shape(self.nodes(), self.spec_active(), self.allocated());
        }
        true
    }

    /// Steps from the node that the descent has come to down to its child
    /// number `action`, counts a thread there, and returns the move that
    /// leads there. Does nothing and returns `None` unless the descent is at
    /// a node whose children are to be chosen from and `action` is one of
    /// them.
    pub fn descend(&mut self, action: usize) -> (r: Option<Move>)
        requires
            old(self).wf(),
        ensures
            final(self).wf(),
            final(self).spec_active() == old(self).spec_active(),
            final(self).allocated() == old(self).allocated(),
            final(self).spec_used() == old(self).spec_used(),
            final(self).cache() == old(self).cache(),
            final(self).spec_root_position() == old(self).spec_root_position(),
            r is Some <==> old(self).spec_phase() == Phase::Select && action < old(
                self,
            ).nodes()[old(self).cursor_slot()].num_actions,
            r is None ==> final(self).nodes() == old(self).nodes() && final(self).spec_path()
                == old(self).spec_path(),
            r is Some ==> {
                let c = first_child(old(self).nodes(), old(self).cursor_slot()) + action;
                &&& r == Some(old(self).nodes()[c].mov)
                &&& final(self).spec_path() == old(self).spec_path().push(c)
                &&& final(self).nodes() == old(self).nodes().update(
                    c,
                    NodeModel { threads: 1, ..old(self).nodes()[c] },
                )
            },
    {
        proof {
            self.lemma_capacity();
        }
        if self.phase() != Phase::Select {
            return None;
        }
        let len = self.path_len();
        let cur = self.path_at(len - 1);
        assert(0 <= self.spec_path()[len - 1] < self.allocated());
        let node = self.slot(cur);
        if action >= node.num_actions() {
            return None;
        }
        let c = node.actions().idx() + action;
        proof {
            assert(self.nodes()[cur as int].num_actions > 0);
            lemma_descend_shape(
                self.nodes(),
                self.spec_active(),
                self.allocated(),
                self.spec_path(),
                c as int,
            );
        }
        let child = self.slot_mut(c);
        let mov = child.parent_move();
        child.inc_threads();
        self.path_push(c);
        Some(mov)
    }
}

} // verus!
