use vstd::prelude::*;

use crate::ataxx::state::GameState;
use crate::tree::arena::Tree;
use crate::tree::descent::{lemma_path_ascends, lemma_path_visits};
use crate::tree::node::{NodeModel, QUANT};
use crate::tree::proven::{child_states, lemma_child_states_frame, proven, settled};
use crate::tree::shape::{
    child_visits, first_child, in_flight, is_child_of, lemma_child_visits_bump,
    lemma_child_visits_frame, lemma_touched_shape_at, nodes_sound, path_linked, shape_at,
    steps_down, tree_shape, well_linked,
};

verus! {

/// The node that may be one visit short when the levels of a descent from
/// the `d`-th on have been counted.
pub open spec fn hole_at(path: Seq<int>, d: int) -> int {
    if 0 < d < path.len() {
        path[d - 1]
    } else {
        -1
    }
}

/// The last level of a descent that still counts a thread when the levels
/// from the `d`-th on have been counted.
pub open spec fn upto_at(path: Seq<int>, d: int) -> int {
    if d < path.len() {
        d
    } else {
        path.len() - 1
    }
}

/// The node at level `e` of a descent can count one more visit.
pub open spec fn has_room(nodes: Seq<NodeModel>, path: Seq<int>, e: int) -> bool {
    nodes[path[e]].visits < i32::MAX
}

/// The shape of the tree when the levels of a descent from the `d`-th on
/// have been counted.
pub open spec fn mid_shape(nodes: Seq<NodeModel>, half: bool, n: int, path: Seq<int>, d: int) -> bool {
    &&& path.len() > 0
    &&& 0 <= d <= path.len()
    &&& shape_at(nodes, half, n, path, hole_at(path, d), upto_at(path, d))
    &&& forall|e: int| 0 <= e < d ==> #[trigger] has_room(nodes, path, e)
}

/// The utility of a decided position for the side to move, times `QUANT`.
pub open spec fn utility(state: GameState) -> int {
    match state {
        GameState::Ongoing => 0,
        GameState::Draw => QUANT / 2,
        GameState::Lost(_) => 0,
        GameState::Won(_) => QUANT as int,
    }
}

/// The value that level `e` of a descent of `len` levels counts when the
/// position at its end has the value `leaf` for the side to move there: the
/// value as seen by the side that moved into the node.
pub open spec fn level_value(len: int, e: int, leaf: int) -> int {
    if (len - 1 - e) % 2 == 0 {
        QUANT - leaf
    } else {
        leaf
    }
}

/// A node after a visit with the value `u` that left it in the state `state`
/// was counted on it.
pub open spec fn counted(before: NodeModel, u: int, state: GameState) -> NodeModel {
    NodeModel {
        visits: before.visits + 1,
        summed_q: before.summed_q + u,
        summed_sq_q: before.summed_sq_q + u * u,
        state,
        threads: 0,
        ..before
    }
}

/// The state of the node at level `e` of a descent once the descent was
/// counted: at its end the state `leaf_state`, above it what the children
/// prove, unless the node was decided before.
pub open spec fn level_state(
    before: Seq<NodeModel>,
    after: Seq<NodeModel>,
    path: Seq<int>,
    e: int,
    leaf_state: GameState,
) -> GameState {
    let idx = path[e];
    if e == path.len() - 1 {
        leaf_state
    } else {
        settled(
            before[idx].state,
            proven(
                child_states(after, first_child(before, idx), before[idx].num_actions as int),
            ),
        )
    }
}

/// The node at level `e` is counted, but for its threads.
pub open spec fn level_counted(
    before: Seq<NodeModel>,
    after: Seq<NodeModel>,
    path: Seq<int>,
    e: int,
    leaf_state: GameState,
    leaf: int,
) -> bool {
    after[path[e]] == (NodeModel {
        threads: after[path[e]].threads,
        ..counted(
            before[path[e]],
            level_value(path.len() as int, e, leaf),
            level_state(before, after, path, e, leaf_state),
        )
    })
}

/// What counting a descent does to the nodes: every node on it counts one
/// more visit with the value seen from its side and no thread, and takes the
/// state that its children prove; no other node changes.
pub open spec fn backed_up(
    before: Seq<NodeModel>,
    after: Seq<NodeModel>,
    path: Seq<int>,
    leaf_state: GameState,
    leaf: int,
) -> bool {
    &&& after.len() == before.len()
    &&& forall|i: int|
        0 <= i < before.len() && !path.contains(i) ==> #[trigger] after[i] == before[i]
    &&& forall|e: int|
        0 <= e < path.len() ==> #[trigger] after[path[e]] == counted(
            before[path[e]],
            level_value(path.len() as int, e, leaf),
            level_state(before, after, path, e, leaf_state),
        )
}

/// At the start of the count the tree has the shape of a count in which no
/// level was counted yet.
pub proof fn lemma_mid_start(nodes: Seq<NodeModel>, half: bool, n: int, path: Seq<int>)
    requires
        tree_shape(nodes, half, n, path),
        path.len() > 0,
    ensures
        mid_shape(nodes, half, n, path, path.len() as int),
{
    let len = path.len() as int;
    assert forall|i: int| 0 <= i < n implies (#[trigger] nodes[i]).threads == (if in_flight(
        path,
        len - 1,
        i,
    ) {
        1nat
    } else {
        0nat
    }) by {
        if in_flight(path, len, i) {
            let d = choose|d: int| 1 <= d <= len && d < path.len() && #[trigger] path[d] == i;
            assert(in_flight(path, len - 1, i));
        }
    }
    assert forall|e: int| 0 <= e < len implies #[trigger] has_room(nodes, path, e) by {
        lemma_path_visits(nodes, half, n, path, len, e);
    }
}

/// Taking the thread off the last level that still counts one.
pub proof fn lemma_unthread(
    nodes: Seq<NodeModel>,
    half: bool,
    n: int,
    path: Seq<int>,
    hole: int,
    t: int,
)
    requires
        shape_at(nodes, half, n, path, hole, t),
        1 <= t < path.len(),
    ensures
        nodes[path[t]].threads == 1,
        shape_at(
            nodes.update(path[t], NodeModel { threads: 0, ..nodes[path[t]] }),
            half,
            n,
            path,
            hole,
            t - 1,
        ),
{
    let c = path[t];
    let after = nodes.update(c, NodeModel { threads: 0, ..nodes[c] });
    assert(0 <= c < n);
    assert(in_flight(path, t, c));
    assert(nodes[c].in_range());
    assert forall|i: int| 0 <= i < n && (#[trigger] after[i]).num_actions > 0 implies {
        &&& after[i].actions.spec_half() == half
        &&& i < first_child(after, i)
        &&& first_child(after, i) + after[i].num_actions <= n
    } by {
        assert(nodes[i].num_actions > 0);
    }
    assert forall|p: int, q: int, x: int|
        0 <= p < n && 0 <= q < n && #[trigger] is_child_of(after, p, x) && #[trigger] is_child_of(
            after,
            q,
            x,
        ) implies p == q by {
        assert(is_child_of(nodes, p, x) && is_child_of(nodes, q, x));
    }
    assert forall|i: int| 0 <= i < n && (#[trigger] after[i]).num_actions > 0 implies after[i].visits
        + (if i == hole {
        1int
    } else {
        0int
    }) >= 1 + child_visits(after, first_child(after, i), after[i].num_actions as int) by {
        assert(nodes[i].num_actions > 0);
        let a = first_child(nodes, i);
        let k = nodes[i].num_actions as int;
        assert forall|j: int| a <= j < a + k implies (#[trigger] nodes[j]).visits
            == after[j].visits by {}
        lemma_child_visits_frame(nodes, after, a, k);
    }
    assert forall|i: int| 0 <= i < n implies (#[trigger] after[i]).in_range() && (after[i].visits
        == 0 ==> after[i].state == GameState::Ongoing) by {
        assert(nodes[i].in_range());
    }
    assert forall|i: int| 0 <= i < n implies (#[trigger] after[i]).threads == (if in_flight(
        path,
        t - 1,
        i,
    ) {
        1nat
    } else {
        0nat
    }) by {
        if i == c {
            if in_flight(path, t - 1, i) {
                let d = choose|d: int|
                    1 <= d <= t - 1 && d < path.len() && #[trigger] path[d] == i;
                lemma_path_ascends(nodes, half, n, path, d, t);
            }
        } else {
            assert(after[i].threads == nodes[i].threads);
            if in_flight(path, t, i) {
                let d = choose|d: int| 1 <= d <= t && d < path.len() && #[trigger] path[d] == i;
                assert(d != t);
                assert(in_flight(path, t - 1, i));
            }
        }
    }
    assert forall|d: int| 0 <= d < path.len() - 1 implies #[trigger] steps_down(
        after,
        path,
        d,
    ) by {
        assert(steps_down(nodes, path, d));
    }
}

/// Counting a visit on level `d - 1` once the levels from `d` on are counted.
pub proof fn lemma_count(
    nodes: Seq<NodeModel>,
    half: bool,
    n: int,
    path: Seq<int>,
    upto: int,
    d: int,
    u: int,
)
    requires
        1 <= d <= path.len(),
        shape_at(nodes, half, n, path, hole_at(path, d), upto),
        nodes[path[d - 1]].visits < i32::MAX,
        0 <= u <= QUANT,
    ensures
        shape_at(
            nodes.update(path[d - 1], nodes[path[d - 1]].updated(u)),
            half,
            n,
            path,
            hole_at(path, d - 1),
            upto,
        ),
{
    let idx = path[d - 1];
    let after = nodes.update(idx, nodes[idx].updated(u));
    let hb = hole_at(path, d);
    let ha = hole_at(path, d - 1);
    assert(0 <= idx < n);
    assert(nodes[idx].in_range());
    nodes[idx].lemma_updated_in_range(u);
    assert forall|i: int| 0 <= i < n && (#[trigger] after[i]).num_actions > 0 implies {
        &&& after[i].actions.spec_half() == half
        &&& i < first_child(after, i)
        &&& first_child(after, i) + after[i].num_actions <= n
    } by {
        assert(nodes[i].num_actions > 0);
    }
    assert forall|p: int, q: int, x: int|
        0 <= p < n && 0 <= q < n && #[trigger] is_child_of(after, p, x) && #[trigger] is_child_of(
            after,
            q,
            x,
        ) implies p == q by {
        assert(is_child_of(nodes, p, x) && is_child_of(nodes, q, x));
    }
    if d >= 2 {
        assert(steps_down(nodes, path, d - 2));
        lemma_path_ascends(nodes, half, n, path, d - 2, d - 1);
    }
    assert forall|i: int| 0 <= i < n && (#[trigger] after[i]).num_actions > 0 implies after[i].visits
        + (if i == ha {
        1int
    } else {
        0int
    }) >= 1 + child_visits(after, first_child(after, i), after[i].num_actions as int) by {
        assert(nodes[i].num_actions > 0);
        let a = first_child(nodes, i);
        let k = nodes[i].num_actions as int;
        if a <= idx < a + k {
            assert(is_child_of(nodes, i, idx));
            if d >= 2 {
                assert(is_child_of(nodes, path[d - 2], idx));
                assert(0 <= path[d - 2] < n);
                assert(i == path[d - 2]);
                assert(i == ha);
                assert(i != hb);
                assert forall|j: int| a <= j < a + k && j != idx implies (#[trigger] nodes[j]).visits
                    == after[j].visits by {}
                lemma_child_visits_bump(nodes, after, a, k, idx);
            } else {
                assert(idx == 0);
                assert(false);
            }
        } else {
            assert forall|j: int| a <= j < a + k implies (#[trigger] nodes[j]).visits
                == after[j].visits by {}
            lemma_child_visits_frame(nodes, after, a, k);
            if i == idx {
            } else {
                assert(i != hb);
            }
        }
    }
    assert forall|i: int| 0 <= i < n implies (#[trigger] after[i]).in_range() && (after[i].visits
        == 0 ==> after[i].state == GameState::Ongoing) by {
        assert(nodes[i].in_range());
    }
    assert forall|i: int| 0 <= i < n implies (#[trigger] after[i]).threads == (if in_flight(
        path,
        upto,
        i,
    ) {
        1nat
    } else {
        0nat
    }) by {
        assert(after[i].threads == nodes[i].threads);
    }
    assert forall|e: int| 0 <= e < path.len() - 1 implies #[trigger] steps_down(
        after,
        path,
        e,
    ) by {
        assert(steps_down(nodes, path, e));
    }
}

/// Once every level is counted and no thread is left, the tree has its shape
/// between calls, without a descent.
pub proof fn lemma_mid_end(nodes: Seq<NodeModel>, half: bool, n: int, path: Seq<int>, hole: int)
    requires
        shape_at(nodes, half, n, path, -1, 0),
    ensures
        tree_shape(nodes, half, n, Seq::<int>::empty()),
        forall|i: int| 0 <= i < n ==> (#[trigger] nodes[i]).threads == 0,
{
    let empty = Seq::<int>::empty();
    assert forall|i: int| 0 <= i < n implies (#[trigger] nodes[i]).threads == 0 by {
        assert(!in_flight(path, 0, i));
    }
    assert forall|i: int| 0 <= i < n implies (#[trigger] nodes[i]).threads == (if in_flight(
        empty,
        0,
        i,
    ) {
        1nat
    } else {
        0nat
    }) by {
        assert(!in_flight(empty, 0, i));
    }
}

/// The node at level `e` is as it was before the count, but for its threads.
pub open spec fn uncounted(before: Seq<NodeModel>, after: Seq<NodeModel>, path: Seq<int>, e: int) -> bool {
    after[path[e]] == (NodeModel { threads: after[path[e]].threads, ..before[path[e]] })
}

/// What counting level `d - 1` of a descent does to the nodes.
pub open spec fn level_done(
    before: Seq<NodeModel>,
    after: Seq<NodeModel>,
    path: Seq<int>,
    d: int,
    u: int,
    leaf_state: GameState,
) -> bool {
    let idx = path[d - 1];
    &&& after.len() == before.len()
    &&& forall|i: int|
        0 <= i < before.len() && i != idx && (d < path.len() ==> i != path[d])
            ==> #[trigger] after[i] == before[i]
    &&& d < path.len() ==> after[path[d]] == (NodeModel { threads: 0, ..before[path[d]] })
    &&& after[idx] == (NodeModel {
        state: if d == path.len() {
            settled(before[idx].state, leaf_state)
        } else {
            settled(
                before[idx].state,
                proven(
                    child_states(before, first_child(before, idx), before[idx].num_actions as int),
                ),
            )
        },
        ..before[idx].updated(u)
    })
}

/// The value that the next level counts when the levels from the `d`-th on
/// are counted.
pub open spec fn carried(len: int, d: int, leaf: int) -> int {
    if (len - d) % 2 == 0 {
        leaf
    } else {
        QUANT - leaf
    }
}

/// What holds of the nodes when the levels from the `d`-th on are counted.
pub open spec fn count_inv(
    start: Seq<NodeModel>,
    now: Seq<NodeModel>,
    path: Seq<int>,
    d: int,
    leaf_state: GameState,
    leaf: int,
) -> bool {
    &&& now.len() == start.len()
    &&& forall|i: int| 0 <= i < start.len() && !path.contains(i) ==> #[trigger] now[i] == start[i]
    &&& forall|e: int| 0 <= e < d ==> #[trigger] uncounted(start, now, path, e)
    &&& forall|e: int|
        d <= e < path.len() ==> #[trigger] level_counted(start, now, path, e, leaf_state, leaf)
}

/// Counting one more level carries what holds of the nodes one level up.
pub proof fn lemma_level_step(
    start: Seq<NodeModel>,
    now: Seq<NodeModel>,
    next: Seq<NodeModel>,
    half: bool,
    n: int,
    path: Seq<int>,
    d: int,
    leaf_state: GameState,
    leaf: int,
)
    requires
        1 <= d <= path.len(),
        well_linked(start, half, n),
        path_linked(start, n, path),
        nodes_sound(start, n),
        n <= start.len(),
        count_inv(start, now, path, d, leaf_state, leaf),
        level_done(now, next, path, d, QUANT - carried(path.len() as int, d, leaf), leaf_state),
        start[path.last()].visits != 0 ==> leaf_state == start[path.last()].state,
    ensures
        count_inv(start, next, path, d - 1, leaf_state, leaf),
{
    let len = path.len() as int;
    let idx = path[d - 1];
    assert(0 <= idx < n);
    assert(uncounted(start, now, path, d - 1));
    assert forall|i: int| 0 <= i < start.len() && !path.contains(i) implies #[trigger] next[i]
        == start[i] by {
        assert(path.contains(path[d - 1]));
        if d < len {
            assert(path.contains(path[d]));
        }
        assert(next[i] == now[i]);
    }
    assert forall|e: int| 0 <= e < d - 1 implies #[trigger] uncounted(start, next, path, e) by {
        assert(uncounted(start, now, path, e));
        lemma_path_ascends(start, half, n, path, e, d - 1);
        if d < len {
            lemma_path_ascends(start, half, n, path, e, d);
        }
        assert(0 <= path[e] < n);
        assert(next[path[e]] == now[path[e]]);
    }
    assert forall|e: int| d - 1 <= e < len implies #[trigger] level_counted(
        start,
        next,
        path,
        e,
        leaf_state,
        leaf,
    ) by {
        let pe = path[e];
        assert(0 <= pe < n);
        if e < len - 1 {
            assert(steps_down(start, path, e));
            let a = first_child(start, pe);
            let k = start[pe].num_actions as int;
            assert(pe < a && a + k <= n);
            if e >= d {
                lemma_path_ascends(start, half, n, path, d - 1, e);
                if e > d {
                    lemma_path_ascends(start, half, n, path, d, e);
                }
            }
            assert forall|j: int| a <= j < a + k implies (#[trigger] now[j]).state
                == next[j].state by {
                if j == idx {
                    assert(e == d - 1 ==> idx < a);
                } else if d < len && j == path[d] {
                } else {
                    assert(next[j] == now[j]);
                }
            }
            lemma_child_states_frame(now, next, a, k);
        }
        if e == d - 1 {
            assert(now[idx].state == start[idx].state);
            assert(first_child(now, idx) == first_child(start, idx));
            if d == len {
                assert(start[idx].in_range());
                if start[idx].visits == 0 {
                    assert(start[idx].state == GameState::Ongoing);
                }
            }
        } else {
            assert(level_counted(start, now, path, e, leaf_state, leaf));
            if e == d {
            } else {
                lemma_path_ascends(start, half, n, path, d, e);
                assert(next[pe] == now[pe]);
            }
        }
    }
}

/// Once every level is counted and no thread is left, the nodes are those
/// that counting the descent leaves.
pub proof fn lemma_count_done(
    start: Seq<NodeModel>,
    now: Seq<NodeModel>,
    n: int,
    path: Seq<int>,
    leaf_state: GameState,
    leaf: int,
)
    requires
        count_inv(start, now, path, 0, leaf_state, leaf),
        path_linked(start, n, path),
        forall|i: int| 0 <= i < n ==> (#[trigger] now[i]).threads == 0,
    ensures
        backed_up(start, now, path, leaf_state, leaf),
{
    assert forall|e: int| 0 <= e < path.len() implies #[trigger] now[path[e]] == counted(
        start[path[e]],
        level_value(path.len() as int, e, leaf),
        level_state(start, now, path, e, leaf_state),
    ) by {
        assert(level_counted(start, now, path, e, leaf_state, leaf));
        assert(0 <= path[e] < n);
        assert(now[path[e]].threads == 0);
    }
}

/// Counting a descent changes the state of no node that was decided.
pub proof fn lemma_decided_stay(
    start: Seq<NodeModel>,
    now: Seq<NodeModel>,
    n: int,
    path: Seq<int>,
    leaf_state: GameState,
    leaf: int,
)
    requires
        backed_up(start, now, path, leaf_state, leaf),
        n <= start.len(),
        path.len() > 0,
        start[path.last()].visits != 0 ==> leaf_state == start[path.last()].state,
        nodes_sound(start, n),
        path_linked(start, n, path),
    ensures
        forall|i: int|
            0 <= i < n && start[i].state.is_terminal() ==> #[trigger] now[i].state
                == start[i].state,
{
    assert forall|i: int| 0 <= i < n && start[i].state.is_terminal() implies #[trigger] now[i].state
        == start[i].state by {
        if path.contains(i) {
            let e = choose|e: int| 0 <= e < path.len() && path[e] == i;
            assert(now[path[e]] == counted(
                start[path[e]],
                level_value(path.len() as int, e, leaf),
                level_state(start, now, path, e, leaf_state),
            ));
            if e == path.len() - 1 {
                assert(start[i].in_range());
            }
        } else {
            assert(now[i] == start[i]);
        }
    }
}

impl Tree {
    /// The state of the node that the descent has come to once it is counted:
    /// the outcome `state` of its position if this is its first visit, else
    /// the state it has.
    pub open spec fn leaf_state(&self, state: GameState) -> GameState {
        let node = self.nodes()[self.cursor_slot()];
        if node.visits == 0 {
            state
        } else {
            node.state
        }
    }

    /// The value, for the side to move, of the position that the descent has
    /// come to, as far as it is known without an evaluation: the utility of a
    /// decided position, and what the cache holds for an ongoing one.
    pub open spec fn known_value(&self, state: GameState, hash: u64) -> Option<i64> {
        if !self.descending() {
            None
        } else if self.leaf_state(state).is_terminal() {
            Some(utility(self.leaf_state(state)) as i64)
        } else {
            match self.cache().lookup(hash) {
                Some(v) => if v <= QUANT {
                    Some(v as i64)
                } else {
                    None
                },
                None => None,
            }
        }
    }

    /// The value of the position at the end of the descent, if it is known
    /// without an evaluation. `state` is the outcome of that position and
    /// `hash` its hash.
    pub fn leaf_value(&self, state: GameState, hash: u64) -> (r: Option<i64>)
        requires
            self.wf(),
        ensures
            r == self.known_value(state, hash),
            r is Some ==> 0 <= r->0 <= QUANT,
    {
        let len = self.path_len();
        if len == 0 {
            return None;
        }
        let idx = self.path_at(len - 1);
        proof {
            self.lemma_capacity();
            assert(0 <= self.spec_path()[len - 1] < self.allocated());
        }
        let node = self.slot(idx);
        let ls = if node.visits() == 0 {
            state
        } else {
            node.state()
        };
        match ls {
            GameState::Ongoing => match self.probe_hash(hash) {
                Some(v) => if v <= QUANT as u32 {
                    Some(v as i64)
                } else {
                    None
                },
                None => None,
            },
            GameState::Draw => Some(QUANT / 2),
            GameState::Lost(_) => Some(0),
            GameState::Won(_) => Some(QUANT),
        }
    }

    /// Counts a visit with the value `u` on level `d - 1` of the descent, as
    /// the last step of the visit to that level: the thread of the level
    /// below is taken off, and the node takes the state that its children
    /// prove, or `leaf_state` at the end of the descent.
    pub(crate) fn backup_level(&mut self, d: usize, u: i64, leaf_state: GameState)
        requires
            old(self).halves_ok(),
            1 <= d <= old(self).spec_path().len(),
            mid_shape(
                old(self).nodes(),
                old(self).spec_active(),
                old(self).allocated(),
                old(self).spec_path(),
                d as int,
            ),
            0 <= u <= QUANT,
            d < old(self).spec_path().len() ==> old(self).nodes()[old(self).spec_path()[d as int]].visits
                >= 1,
            d == old(self).spec_path().len() ==> (old(self).nodes()[old(
                self,
            ).cursor_slot()].visits != 0 ==> leaf_state == old(self).nodes()[old(
                self,
            ).cursor_slot()].state),
        ensures
            final(self).same_frame(old(self)),
            final(self).halves_ok(),
            mid_shape(
                final(self).nodes(),
                old(self).spec_active(),
                old(self).allocated(),
                old(self).spec_path(),
                d - 1,
            ),
            level_done(
                old(self).nodes(),
                final(self).nodes(),
                old(self).spec_path(),
                d as int,
                u as int,
                leaf_state,
            ),
            final(self).nodes()[old(self).spec_path()[d - 1]].visits >= 1,
    {
        proof {
            self.lemma_capacity();
        }
        let ghost path = self.spec_path();
        let ghost half = self.spec_active();
        let ghost n = self.allocated();
        let ghost start = self.nodes();
        let len = self.path_len();
        let idx = self.path_at(d - 1);
        assert(0 <= path[d - 1] < n);
        assert(has_room(start, path, d - 1));
        if d < len {
            let c = self.path_at(d);
            assert(0 <= path[d as int] < n);
            proof {
                lemma_unthread(start, half, n, path, hole_at(path, d as int), d as int);
                lemma_path_ascends(start, half, n, path, d - 1, d as int);
            }
            let child = self.slot_mut(c);
            child.dec_threads();
        }
        let ghost unthreaded = self.nodes();
        assert(shape_at(unthreaded, half, n, path, hole_at(path, d as int), d - 1));
        proof {
            lemma_count(unthreaded, half, n, path, d - 1, d as int, u as int);
        }
        let node = self.slot_mut(idx);
        node.update(u);
        let ghost updated = self.nodes();
        assert(updated =~= unthreaded.update(idx as int, unthreaded[idx as int].updated(u as int)));
        let found = if d == len {
            leaf_state
        } else {
            self.proven_at(idx)
        };
        let node = self.slot_mut(idx);
        node.set_state(found);
        proof {
            let after = self.nodes();
            assert(updated[idx as int].in_range());
            lemma_touched_shape_at(
                updated,
                after,
                half,
                n,
                path,
                hole_at(path, d - 1),
                d - 1,
                idx as int,
            );
            assert forall|e: int| 0 <= e < d - 1 implies #[trigger] has_room(after, path, e) by {
                assert(has_room(start, path, e));
                lemma_path_ascends(start, half, n, path, e, d - 1);
                if d < len {
                    lemma_path_ascends(start, half, n, path, e, d as int);
                }
            }
            if d < len {
                assert(steps_down(start, path, d - 1));
                let a = first_child(start, idx as int);
                let k = start[idx as int].num_actions as int;
                assert forall|j: int| a <= j < a + k implies (#[trigger] start[j]).state
                    == updated[j].state by {}
                lemma_child_states_frame(start, updated, a, k);
            }
        }
    }

    /// Ends the descent by counting it. The position at its end has the
    /// outcome `state` and the hash `hash`; `value` is its evaluation for the
    /// side to move, which counts only where the value is not known without
    /// it, and is then stored in the cache. Every node on the descent counts
    /// one more visit, with the value as the side that moved into it sees it,
    /// and gives back its thread; a node whose children prove an outcome takes
    /// it. Returns whether a descent was under way.
    pub fn backup(&mut self, state: GameState, hash: u64, value: i64) -> (done: bool)
        requires
            old(self).wf(),
            0 <= value <= QUANT,
        ensures
            final(self).wf(),
            !final(self).descending(),
            final(self).spec_active() == old(self).spec_active(),
            final(self).allocated() == old(self).allocated(),
            final(self).spec_used() == old(self).spec_used(),
            final(self).spec_root_position() == old(self).spec_root_position(),
            done == old(self).descending(),
            !done ==> final(self).nodes() == old(self).nodes() && final(self).cache() == old(
                self,
            ).cache(),
            done ==> backed_up(
                old(self).nodes(),
                final(self).nodes(),
                old(self).spec_path(),
                old(self).leaf_state(state),
                match old(self).known_value(state, hash) {
                    Some(v) => v as int,
                    None => value as int,
                },
            ),
            done && old(self).known_value(state, hash) is Some ==> final(self).cache() == old(
                self,
            ).cache(),
            done && old(self).known_value(state, hash) is None ==> final(self).cache().slots()
                == old(self).cache().slots().update(
                old(self).cache().slot_of(hash),
                Some(crate::tree::hash::HashEntry { key: hash, value: value as u32 }),
            ),
            forall|i: int|
                0 <= i < old(self).allocated() && old(self).nodes()[i].state.is_terminal()
                    ==> #[trigger] final(self).nodes()[i].state == old(self).nodes()[i].state,
    {
        let len = self.path_len();
        if len == 0 {
            assert(self.spec_path() =~= Seq::<int>::empty());
            return false;
        }
        let known = self.leaf_value(state, hash);
        let leaf_idx = self.path_at(len - 1);
        proof {
            self.lemma_capacity();
            assert(0 <= self.spec_path()[len - 1] < self.allocated());
        }
        let node = self.slot(leaf_idx);
        let leaf_state = if node.visits() == 0 {
            state
        } else {
            node.state()
        };
        let leaf = match known {
            Some(v) => v,
            None => {
                self.push_hash(hash, value as u32);
                value
            },
        };
        let ghost path = self.spec_path();
        let ghost half = self.spec_active();
        let ghost n = self.allocated();
        let ghost start = self.nodes();
        let ghost cache0 = self.cache();
        proof {
            lemma_mid_start(start, half, n, path);
            assert forall|e: int| 0 <= e < len implies #[trigger] uncounted(
                start,
                start,
                path,
                e,
            ) by {}
        }
        let mut d: usize = len;
        let mut u: i64 = leaf;
        while d > 0
            invariant
                0 <= d <= len == path.len(),
                self.halves_ok(),
                self.spec_path() == path,
                self.spec_active() == half,
                self.allocated() == n,
                self.spec_used() == old(self).spec_used(),
                self.spec_root_position() == old(self).spec_root_position(),
                self.stale_half() == old(self).stale_half(),
                mid_shape(self.nodes(), half, n, path, d as int),
                0 <= leaf <= QUANT,
                u == carried(len as int, d as int, leaf as int),
                d < len ==> self.nodes()[path[d as int]].visits >= 1,
                well_linked(start, half, n),
                path_linked(start, n, path),
                nodes_sound(start, n),
                n <= start.len(),
                start[path.last()].visits != 0 ==> leaf_state == start[path.last()].state,
                count_inv(start, self.nodes(), path, d as int, leaf_state, leaf as int),
                self.cache() == cache0,
            decreases d,
        {
            let ghost now = self.nodes();
            assert(uncounted(start, now, path, d - 1));
            u = QUANT - u;
            self.backup_level(d, u, leaf_state);
            proof {
                lemma_level_step(
                    start,
                    now,
                    self.nodes(),
                    half,
                    n,
                    path,
                    d as int,
                    leaf_state,
                    leaf as int,
                );
            }
            d = d - 1;
        }
        self.path_clear();
        proof {
            lemma_mid_end(self.nodes(), half, n, path, -1);
            lemma_count_done(start, self.nodes(), n, path, leaf_state, leaf as int);
            lemma_decided_stay(start, self.nodes(), n, path, leaf_state, leaf as int);
        }
        true
    }

    /// Ends the descent without counting it: every node on it gives back its
    /// thread and nothing else changes. Returns whether a descent was under
    /// way.
    pub fn abandon(&mut self) -> (done: bool)
        requires
            old(self).wf(),
        ensures
            final(self).wf(),
            !final(self).descending(),
            final(self).spec_active() == old(self).spec_active(),
            final(self).allocated() == old(self).allocated(),
            final(self).spec_used() == old(self).spec_used(),
            final(self).cache() == old(self).cache(),
            final(self).spec_root_position() == old(self).spec_root_position(),
            done == old(self).descending(),
            final(self).nodes().len() == old(self).nodes().len(),
            forall|i: int|
                0 <= i < old(self).nodes().len() ==> #[trigger] final(self).nodes()[i] == (if old(
                    self,
                ).spec_path().contains(i) {
                    NodeModel { threads: 0, ..old(self).nodes()[i] }
                } else {
                    old(self).nodes()[i]
                }),
    {
        let len = self.path_len();
        if len == 0 {
            assert(self.spec_path() =~= Seq::<int>::empty());
            return false;
        }
        let ghost path = self.spec_path();
        let ghost half = self.spec_active();
        let ghost n = self.allocated();
        let ghost start = self.nodes();
        proof {
            self.lemma_capacity();
            lemma_mid_start(start, half, n, path);
            assert(0 <= path[0] < n);
            assert(!in_flight(path, len as int, path[0])) by {
                if in_flight(path, len as int, path[0]) {
                    let d = choose|d: int|
                        1 <= d <= len && d < path.len() && #[trigger] path[d] == path[0];
                    lemma_path_ascends(start, half, n, path, 0, d);
                }
            }
        }
        let mut t: usize = len - 1;
        while t > 0
            invariant
                0 <= t < len == path.len(),
                self.halves_ok(),
                self.spec_path() == path,
                self.spec_active() == half,
                self.allocated() == n,
                self.spec_used() == old(self).spec_used(),
                self.spec_root_position() == old(self).spec_root_position(),
                self.cache() == old(self).cache(),
                shape_at(self.nodes(), half, n, path, -1, t as int),
                well_linked(start, half, n),
                path_linked(start, n, path),
                n <= start.len(),
                start[0].threads == 0,
                path[0] == 0,
                self.nodes().len() == start.len(),
                forall|i: int|
                    0 <= i < start.len() && !path.contains(i) ==> #[trigger] self.nodes()[i]
                        == start[i],
                forall|e: int|
                    0 <= e <= t ==> #[trigger] self.nodes()[path[e]] == start[path[e]],
                forall|e: int|
                    t < e < len ==> #[trigger] self.nodes()[path[e]] == (NodeModel {
                        threads: 0,
                        ..start[path[e]]
                    }),
            decreases t,
        {
            proof {
                self.lemma_capacity();
                lemma_unthread(self.nodes(), half, n, path, -1, t as int);
                assert(0 <= path[t as int] < n);
            }
            let ghost now = self.nodes();
            let c = self.path_at(t);
            let child = self.slot_mut(c);
            child.dec_threads();
            proof {
                let next = self.nodes();
                assert forall|i: int| 0 <= i < start.len() && !path.contains(i) implies #[trigger] next[i]
                    == start[i] by {
                    assert(path.contains(path[t as int]));
                    assert(next[i] == now[i]);
                }
                assert forall|e: int| 0 <= e <= t - 1 implies #[trigger] next[path[e]]
                    == start[path[e]] by {
                    lemma_path_ascends(start, half, n, path, e, t as int);
                    assert(now[path[e]] == start[path[e]]);
                }
                assert forall|e: int| t - 1 < e < len implies #[trigger] next[path[e]] == (
                NodeModel { threads: 0, ..start[path[e]] }) by {
                    if e == t {
                        assert(now[path[e]] == start[path[e]]);
                    } else {
                        lemma_path_ascends(start, half, n, path, t as int, e);
                        assert(now[path[e]] == (NodeModel { threads: 0, ..start[path[e]] }));
                    }
                }
            }
            t = t - 1;
        }
        self.path_clear();
        proof {
            lemma_mid_end(self.nodes(), half, n, path, -1);
            assert forall|i: int| 0 <= i < start.len() implies #[trigger] self.nodes()[i] == (
            if path.contains(i) {
                NodeModel { threads: 0, ..start[i] }
            } else {
                start[i]
            }) by {
                if path.contains(i) {
                    let e = choose|e: int| 0 <= e < path.len() && path[e] == i;
                    if e == 0 {
                        assert(self.nodes()[path[0]] == start[path[0]]);
                    } else {
                        assert(self.nodes()[path[e]] == (NodeModel {
                            threads: 0,
                            ..start[path[e]]
                        }));
                    }
                }
            }
        }
        true
    }
}

} // verus!
