use vstd::prelude::*;

use crate::ataxx::board::BoardModel;
use crate::ataxx::moves::Move;
use crate::ataxx::state::GameState;
use crate::mcts::search::offered_moves;
use crate::tree::backup::{backed_up, counted, level_state, level_value, utility};
use crate::tree::descent::{lemma_path_ascends, phase_of, Phase};
use crate::tree::node::{NodeModel, QUANT};
use crate::tree::shape::{first_child, is_child_of, path_linked, well_linked};

verus! {

/// Whether node `b` has the visits, the sums, the state, the move and the
/// prior of node `a`.
pub open spec fn same_count(a: NodeModel, b: NodeModel) -> bool {
    &&& a.visits == b.visits
    &&& a.summed_q == b.summed_q
    &&& a.summed_sq_q == b.summed_sq_q
    &&& a.state == b.state
    &&& a.mov == b.mov
    &&& a.policy == b.policy
}

/// Whether the first `n` nodes have the visits, the sums, the states, the
/// moves and the priors that they had.
pub open spec fn same_counts(before: Seq<NodeModel>, after: Seq<NodeModel>, n: int) -> bool {
    forall|i: int| 0 <= i < n ==> same_count(before[i], #[trigger] after[i])
}

/// Whether every one of the first `n` nodes that was decided has the state
/// that it had.
pub open spec fn decided_stay(before: Seq<NodeModel>, after: Seq<NodeModel>, n: int) -> bool {
    forall|i: int|
        0 <= i < n && before[i].state.is_terminal() ==> #[trigger] after[i].state
            == before[i].state
}

/// Whether node `b` has the children of node `a`.
pub open spec fn same_children(a: NodeModel, b: NodeModel) -> bool {
    &&& a.actions == b.actions
    &&& a.num_actions == b.num_actions
    &&& a.gini_impurity == b.gini_impurity
}

/// Whether every one of the first `n` nodes has the children that it had,
/// but for those that were visited, ongoing and without children: only such
/// a node is given children.
pub open spec fn children_kept(before: Seq<NodeModel>, after: Seq<NodeModel>, n: int) -> bool {
    forall|i: int|
        0 <= i < n && phase_of(before[i]) != Phase::Expand ==> same_children(
            before[i],
            #[trigger] after[i],
        )
}

/// Whether every one of the first `n` nodes counts the visits that it did or
/// one more.
pub open spec fn one_more_at_most(before: Seq<NodeModel>, after: Seq<NodeModel>, n: int) -> bool {
    forall|i: int|
        0 <= i < n ==> before[i].visits <= (#[trigger] after[i]).visits <= before[i].visits + 1
}

/// Whether the first `n` nodes have the moves and the priors that they had.
pub open spec fn same_moves(before: Seq<NodeModel>, after: Seq<NodeModel>, n: int) -> bool {
    forall|i: int|
        0 <= i < n ==> (#[trigger] after[i]).mov == before[i].mov && after[i].policy
            == before[i].policy
}

/// Whether the nodes in the slots from `lo` up to `hi` were never visited
/// and have no children.
pub open spec fn unvisited_from(nodes: Seq<NodeModel>, lo: int, hi: int) -> bool {
    forall|i: int|
        lo <= i < hi ==> {
            &&& (#[trigger] nodes[i]).visits == 0
            &&& nodes[i].summed_q == 0
            &&& nodes[i].summed_sq_q == 0
            &&& nodes[i].state == GameState::Ongoing
            &&& nodes[i].num_actions == 0
        }
}

/// What giving the node in slot `at` a child for each of `moves` does to the
/// nodes, if it does anything: that node keeps all but its children, which
/// are the nodes in the slots from `nb` up to `na`, never visited, with the
/// moves in their order; no other node changes.
pub open spec fn unfolded(
    before: Seq<NodeModel>,
    after: Seq<NodeModel>,
    nb: int,
    na: int,
    at: int,
    moves: Seq<Move>,
) -> bool {
    &&& nb <= na <= after.len()
    &&& after.len() == before.len()
    &&& forall|i: int| 0 <= i < nb && i != at ==> #[trigger] after[i] == before[i]
    &&& same_count(before[at], after[at])
    &&& unvisited_from(after, nb, na)
    &&& na == nb ==> after[at] == before[at]
    &&& na > nb ==> holds_children(after, nb, na, at, moves)
}

/// Whether the node in slot `p` has the nodes in the slots from `lo` up to
/// `hi` as its children, one for each of `moves`, in their order.
pub open spec fn holds_children(
    nodes: Seq<NodeModel>,
    lo: int,
    hi: int,
    p: int,
    moves: Seq<Move>,
) -> bool {
    &&& first_child(nodes, p) == lo
    &&& nodes[p].num_actions == hi - lo
    &&& moves.len() == hi - lo
    &&& forall|j: int| 0 <= j < moves.len() ==> (#[trigger] nodes[lo + j]).mov == moves[j]
}

/// Whether the node at level `e` of the descent `path` is the one node that
/// was given children: it was visited, ongoing and had none, its children are
/// the new nodes, one for each move of the position that the descent had come
/// to there, and every other node has the children that it had. The descent
/// has gone on from there by one node at most, to one of the new nodes.
pub open spec fn expanded_at(
    start: Seq<NodeModel>,
    n0: int,
    root: BoardModel,
    mid: Seq<NodeModel>,
    n: int,
    path: Seq<int>,
    e: int,
) -> bool {
    &&& 0 <= e < path.len()
    &&& path.len() - 2 <= e
    &&& e == path.len() - 2 ==> n0 <= path.last()
    &&& 0 <= path[e] < n0
    &&& phase_of(start[path[e]]) == Phase::Expand
    &&& holds_children(mid, n0, n, path[e], offered_moves(reached(root, mid, path.take(e + 1))))
    &&& forall|i: int| 0 <= i < n0 && i != path[e] ==> same_children(start[i], #[trigger] mid[i])
}

/// Whether at most one node was given children, and that one as
/// `expanded_at` says: without new nodes every node has the children that it
/// had.
pub open spec fn expanded_once(
    start: Seq<NodeModel>,
    n0: int,
    root: BoardModel,
    mid: Seq<NodeModel>,
    n: int,
    path: Seq<int>,
) -> bool {
    if n == n0 {
        forall|i: int| 0 <= i < n0 ==> same_children(start[i], #[trigger] mid[i])
    } else {
        exists|e: int| #[trigger] expanded_at(start, n0, root, mid, n, path, e)
    }
}

/// What dropping the descent `path` does to the nodes: every node on it
/// gives back its thread, and nothing else changes.
pub open spec fn dropped(mid: Seq<NodeModel>, path: Seq<int>, after: Seq<NodeModel>) -> bool {
    &&& after.len() == mid.len()
    &&& forall|i: int|
        0 <= i < mid.len() ==> #[trigger] after[i] == (if path.contains(i) {
            NodeModel { threads: 0, ..mid[i] }
        } else {
            mid[i]
        })
}

/// The position that a descent has come to: the position `root` with the
/// moves played that lead to the nodes of `path` below the first.
pub open spec fn reached(root: BoardModel, nodes: Seq<NodeModel>, path: Seq<int>) -> BoardModel
    decreases path.len(),
{
    if path.len() <= 1 {
        root
    } else {
        reached(root, nodes, path.drop_last()).made(nodes[path.last()].mov)
    }
}

/// Whether the node at level `e` of a descent is one to choose a child at.
pub open spec fn selects_at(nodes: Seq<NodeModel>, path: Seq<int>, e: int) -> bool {
    phase_of(nodes[path[e]]) == Phase::Select
}

/// What a descent from the root has made of the nodes `start`, of which the
/// first `n0` were in use, when it has come down `path` to the position
/// `pos`: the nodes `mid`, of which the first `n` are in use. The nodes that
/// were in use have the visits, sums, states, moves and priors that they had;
/// one node at most was given children, as `expanded_once` says; the new
/// nodes were never visited; at every node of the descent but the last a
/// child was chosen; and `pos` is the position at the root with the moves of
/// the descent played.
#[verifier::opaque]
pub open spec fn descended(
    start: Seq<NodeModel>,
    n0: int,
    root: BoardModel,
    mid: Seq<NodeModel>,
    n: int,
    path: Seq<int>,
    pos: BoardModel,
) -> bool {
    &&& 0 <= n0 <= n <= mid.len()
    &&& mid.len() == start.len()
    &&& path.len() > 0
    &&& same_counts(start, mid, n0)
    &&& children_kept(start, mid, n0)
    &&& unvisited_from(mid, n0, n)
    &&& forall|e: int| 0 <= e < path.len() - 1 ==> #[trigger] selects_at(mid, path, e)
    &&& pos == reached(root, mid, path)
    &&& expanded_once(start, n0, root, mid, n, path)
}

/// What one counted iteration makes of the nodes `before`, of which the first
/// `n0` were in use, in a tree whose root stands for the position `root`: a
/// descent down `path` that made the nodes `mid` of them, ended at the first
/// node that was decided or never visited, and was counted there with the
/// value `leaf` for the side to move. A node that was never visited takes the
/// outcome of the position that the descent came to; where the node is then
/// decided, the value is the utility of its state.
#[verifier::opaque]
pub open spec fn counted_descent(
    before: Seq<NodeModel>,
    n0: int,
    root: BoardModel,
    after: Seq<NodeModel>,
    n: int,
    mid: Seq<NodeModel>,
    path: Seq<int>,
    leaf_state: GameState,
    leaf: int,
) -> bool {
    &&& descended(before, n0, root, mid, n, path, reached(root, mid, path))
    &&& path_linked(mid, n, path)
    &&& phase_of(mid[path.last()]) == Phase::Leaf
    &&& leaf_state == (if mid[path.last()].visits == 0 {
        reached(root, mid, path).game_state()
    } else {
        mid[path.last()].state
    })
    &&& 0 <= leaf <= QUANT
    &&& leaf_state.is_terminal() ==> leaf == utility(leaf_state)
    &&& backed_up(mid, after, path, leaf_state, leaf)
}

/// The position that a descent has come to depends on the nodes only for
/// the moves that lead to the nodes of the descent.
pub proof fn lemma_reached_frame(
    root: BoardModel,
    a: Seq<NodeModel>,
    b: Seq<NodeModel>,
    path: Seq<int>,
)
    requires
        forall|e: int| 0 <= e < path.len() ==> (#[trigger] a[path[e]]).mov == b[path[e]].mov,
    ensures
        reached(root, a, path) == reached(root, b, path),
    decreases path.len(),
{
    if path.len() > 1 {
        let q = path.drop_last();
        assert forall|e: int| 0 <= e < q.len() implies (#[trigger] a[q[e]]).mov
            == b[q[e]].mov by {
            assert(q[e] == path[e]);
            assert(a[path[e]].mov == b[path[e]].mov);
        }
        lemma_reached_frame(root, a, b, q);
        assert(a[path[path.len() - 1]].mov == b[path[path.len() - 1]].mov);
    }
}

/// A descent that stands at the root has changed nothing.
pub proof fn lemma_descent_start(start: Seq<NodeModel>, n0: int, root: BoardModel)
    requires
        0 <= n0 <= start.len(),
    ensures
        descended(start, n0, root, start, n0, seq![0int], root),
{
    reveal(descended);
    assert forall|i: int| 0 <= i < n0 implies same_children(start[i], #[trigger] start[i]) by {}
}

/// During a descent the nodes that were in use keep their visits, sums,
/// states, moves and priors.
pub proof fn lemma_descent_counts(
    start: Seq<NodeModel>,
    n0: int,
    root: BoardModel,
    mid: Seq<NodeModel>,
    n: int,
    path: Seq<int>,
    pos: BoardModel,
)
    requires
        descended(start, n0, root, mid, n, path, pos),
    ensures
        same_counts(start, mid, n0),
        children_kept(start, mid, n0),
        n0 <= n,
{
    reveal(descended);
}

/// Giving the node that a descent has come to its children keeps the descent
/// what it was, and makes that node the one that was given children.
pub proof fn lemma_descent_grown(
    start: Seq<NodeModel>,
    n0: int,
    root: BoardModel,
    before: Seq<NodeModel>,
    nb: int,
    after: Seq<NodeModel>,
    na: int,
    path: Seq<int>,
    pos: BoardModel,
    half: bool,
)
    requires
        descended(start, n0, root, before, nb, path, pos),
        well_linked(before, half, nb),
        path_linked(before, nb, path),
        phase_of(before[path.last()]) == Phase::Expand,
        unfolded(before, after, nb, na, path.last(), offered_moves(pos)),
    ensures
        descended(start, n0, root, after, na, path, pos),
        nb == n0,
        0 <= path.last() < n0,
{
    reveal(descended);
    let at = path.last();
    let last = path.len() - 1;
    assert(0 <= path[last] < nb);
    assert(at < n0) by {
        if at >= n0 {
            assert(before[at].visits == 0);
        }
    }
    assert(nb == n0) by {
        if nb != n0 {
            let e = choose|e: int| #[trigger] expanded_at(start, n0, root, before, nb, path, e);
            if e == last {
                assert(before[at].num_actions > 0);
            }
        }
    }
    assert(same_count(start[at], before[at]));
    assert(same_children(start[at], before[at]));
    assert forall|i: int| 0 <= i < n0 implies same_count(start[i], #[trigger] after[i]) by {
        assert(same_count(start[i], before[i]));
        if i != at {
            assert(after[i] == before[i]);
        }
    }
    assert forall|i: int| 0 <= i < n0 && phase_of(start[i]) != Phase::Expand implies same_children(
        start[i],
        #[trigger] after[i],
    ) by {
        assert(same_count(start[i], before[i]));
        assert(same_children(start[i], before[i]));
        assert(i != at);
        assert(after[i] == before[i]);
    }
    assert forall|i: int| n0 <= i < na implies {
        &&& (#[trigger] after[i]).visits == 0
        &&& after[i].summed_q == 0
        &&& after[i].summed_sq_q == 0
        &&& after[i].state == GameState::Ongoing
        &&& after[i].num_actions == 0
    } by {}
    assert forall|e: int| 0 <= e < path.len() - 1 implies #[trigger] selects_at(
        after,
        path,
        e,
    ) by {
        assert(selects_at(before, path, e));
        lemma_path_ascends(before, half, nb, path, e, path.len() - 1);
        assert(0 <= path[e] < nb);
        assert(after[path[e]] == before[path[e]]);
    }
    assert forall|e: int| 0 <= e < path.len() implies (#[trigger] before[path[e]]).mov
        == after[path[e]].mov by {
        assert(0 <= path[e] < nb);
        if path[e] != at {
            assert(after[path[e]] == before[path[e]]);
        }
    }
    lemma_reached_frame(root, before, after, path);
    if na == n0 {
        assert forall|i: int| 0 <= i < n0 implies same_children(start[i], #[trigger] after[i]) by {
            assert(same_children(start[i], before[i]));
            if i != at {
                assert(after[i] == before[i]);
            }
        }
    } else {
        assert(path.take(last + 1) =~= path);
        assert forall|i: int| 0 <= i < n0 && i != path[last] implies same_children(
            start[i],
            #[trigger] after[i],
        ) by {
            assert(same_children(start[i], before[i]));
            assert(after[i] == before[i]);
        }
        assert(expanded_at(start, n0, root, after, na, path, last));
    }
}

/// A step down to the child in slot `c` makes the descent one node longer
/// and plays the move to that child.
pub proof fn lemma_descent_stepped(
    start: Seq<NodeModel>,
    n0: int,
    root: BoardModel,
    before: Seq<NodeModel>,
    n: int,
    after: Seq<NodeModel>,
    path: Seq<int>,
    pos: BoardModel,
    c: int,
)
    requires
        descended(start, n0, root, before, n, path, pos),
        phase_of(before[path.last()]) == Phase::Select,
        path.last() < c < n,
        is_child_of(before, path.last(), c),
        forall|e: int| 0 <= e < path.len() ==> 0 <= #[trigger] path[e] <= path.last(),
        after == before.update(c, NodeModel { threads: 1, ..before[c] }),
    ensures
        descended(start, n0, root, after, n, path.push(c), pos.made(before[c].mov)),
{
    reveal(descended);
    let longer = path.push(c);
    let last = path.len() - 1;
    assert forall|i: int| 0 <= i < n0 implies same_count(start[i], #[trigger] after[i]) by {
        assert(same_count(start[i], before[i]));
    }
    assert forall|i: int| 0 <= i < n0 && phase_of(start[i]) != Phase::Expand implies same_children(
        start[i],
        #[trigger] after[i],
    ) by {
        assert(same_children(start[i], before[i]));
    }
    assert forall|i: int| n0 <= i < n implies {
        &&& (#[trigger] after[i]).visits == 0
        &&& after[i].summed_q == 0
        &&& after[i].summed_sq_q == 0
        &&& after[i].state == GameState::Ongoing
        &&& after[i].num_actions == 0
    } by {
        assert(before[i].visits == 0);
    }
    assert forall|e: int| 0 <= e < longer.len() - 1 implies #[trigger] selects_at(
        after,
        longer,
        e,
    ) by {
        assert(longer[e] == path[e]);
        assert(0 <= path[e] <= path.last());
        assert(after[path[e]] == before[path[e]]);
        if e < path.len() - 1 {
            assert(selects_at(before, path, e));
        }
    }
    assert(longer.drop_last() =~= path);
    assert forall|e: int| 0 <= e < path.len() implies (#[trigger] before[path[e]]).mov
        == after[path[e]].mov by {
        assert(0 <= path[e] <= path.last());
    }
    lemma_reached_frame(root, before, after, path);
    assert(reached(root, after, longer) == reached(root, after, path).made(after[c].mov));
    if n == n0 {
        assert forall|i: int| 0 <= i < n0 implies same_children(start[i], #[trigger] after[i]) by {
            assert(same_children(start[i], before[i]));
        }
    } else {
        let e = choose|e: int| #[trigger] expanded_at(start, n0, root, before, n, path, e);
        assert(0 <= path[last] <= path.last());
        if e != last {
            assert(before[path.last()].visits == 0);
        }
        assert(e == last);
        let p = path[e];
        assert(longer[e] == p);
        assert(longer.take(e + 1) =~= path.take(e + 1));
        assert(path.take(e + 1) =~= path);
        assert(after[p] == before[p]);
        assert forall|j: int|
            0 <= j < n - n0 implies (#[trigger] after[n0 + j]).mov == before[n0 + j].mov by {}
        assert forall|i: int| 0 <= i < n0 && i != longer[e] implies same_children(
            start[i],
            #[trigger] after[i],
        ) by {
            assert(same_children(start[i], before[i]));
        }
        assert(expanded_at(start, n0, root, after, n, longer, e));
    }
}

/// Counting a descent that has come to a node that is decided or was never
/// visited makes a counted iteration of it. The nodes that were in use keep
/// their children unless they were to be given some, count one visit more at
/// most, and keep their state if they were decided.
pub proof fn lemma_descent_counted(
    start: Seq<NodeModel>,
    n0: int,
    root: BoardModel,
    mid: Seq<NodeModel>,
    n: int,
    path: Seq<int>,
    pos: BoardModel,
    after: Seq<NodeModel>,
    leaf_state: GameState,
    leaf: int,
)
    requires
        descended(start, n0, root, mid, n, path, pos),
        path_linked(mid, n, path),
        phase_of(mid[path.last()]) == Phase::Leaf,
        leaf_state == (if mid[path.last()].visits == 0 {
            pos.game_state()
        } else {
            mid[path.last()].state
        }),
        0 <= leaf <= QUANT,
        leaf_state.is_terminal() ==> leaf == utility(leaf_state),
        backed_up(mid, after, path, leaf_state, leaf),
    ensures
        counted_descent(start, n0, root, after, n, mid, path, leaf_state, leaf),
        children_kept(start, after, n0),
        one_more_at_most(start, after, n0),
        same_moves(start, after, n0),
{
    reveal(descended);
    reveal(counted_descent);
    assert forall|i: int| 0 <= i < n0 implies same_children(mid[i], #[trigger] after[i])
        && mid[i].visits <= after[i].visits <= mid[i].visits + 1 && after[i].mov == mid[i].mov
        && after[i].policy == mid[i].policy by {
        if path.contains(i) {
            let e = choose|e: int| 0 <= e < path.len() && path[e] == i;
            assert(after[path[e]] == counted(
                mid[path[e]],
                level_value(path.len() as int, e, leaf),
                level_state(mid, after, path, e, leaf_state),
            ));
        } else {
            assert(after[i] == mid[i]);
        }
    }
    assert forall|i: int| 0 <= i < n0 && phase_of(start[i]) != Phase::Expand implies same_children(
        start[i],
        #[trigger] after[i],
    ) by {
        assert(same_children(start[i], mid[i]));
        assert(same_children(mid[i], after[i]));
    }
    assert forall|i: int| 0 <= i < n0 implies start[i].visits <= (#[trigger] after[i]).visits
        <= start[i].visits + 1 by {
        assert(same_count(start[i], mid[i]));
        assert(same_children(mid[i], after[i]));
    }
    assert forall|i: int| 0 <= i < n0 implies (#[trigger] after[i]).mov == start[i].mov
        && after[i].policy == start[i].policy by {
        assert(same_count(start[i], mid[i]));
        assert(same_children(mid[i], after[i]));
    }
}

/// Dropping a descent, which takes the threads off its nodes and changes
/// nothing else, leaves the nodes that were in use with their visits, sums
/// and states, and with their children unless they were to be given some.
pub proof fn lemma_descent_dropped(
    start: Seq<NodeModel>,
    n0: int,
    root: BoardModel,
    mid: Seq<NodeModel>,
    n: int,
    path: Seq<int>,
    pos: BoardModel,
    after: Seq<NodeModel>,
)
    requires
        descended(start, n0, root, mid, n, path, pos),
        after.len() == mid.len(),
        forall|i: int|
            0 <= i < mid.len() ==> #[trigger] after[i] == mid[i] || after[i] == (NodeModel {
                threads: 0,
                ..mid[i]
            }),
    ensures
        same_counts(start, after, n0),
        children_kept(start, after, n0),
        decided_stay(start, after, n0),
        one_more_at_most(start, after, n0),
        same_moves(start, after, n0),
{
    reveal(descended);
    assert forall|i: int| 0 <= i < n0 implies same_count(start[i], #[trigger] after[i]) by {
        assert(same_count(start[i], mid[i]));
    }
    assert forall|i: int| 0 <= i < n0 implies (#[trigger] after[i]).mov == start[i].mov
        && after[i].policy == start[i].policy by {
        assert(same_count(start[i], after[i]));
    }
    assert forall|i: int| 0 <= i < n0 && phase_of(start[i]) != Phase::Expand implies same_children(
        start[i],
        #[trigger] after[i],
    ) by {
        assert(same_children(start[i], mid[i]));
    }
    assert forall|i: int| 0 <= i < n0 && start[i].state.is_terminal() implies #[trigger] after[i].state
        == start[i].state by {
        assert(same_count(start[i], after[i]));
    }
    assert forall|i: int| 0 <= i < n0 implies start[i].visits <= (#[trigger] after[i]).visits
        <= start[i].visits + 1 by {
        assert(same_count(start[i], after[i]));
    }
}

/// In a counted iteration every node on the way down counts one visit more
/// than it did, and no other node has other visits, sums or states than it
/// had: a node that was in use before has what it had, and a new one has
/// never been visited.
pub proof fn lemma_counted_visits(
    before: Seq<NodeModel>,
    n0: int,
    root: BoardModel,
    after: Seq<NodeModel>,
    n: int,
    mid: Seq<NodeModel>,
    path: Seq<int>,
    leaf_state: GameState,
    leaf: int,
)
    requires
        counted_descent(before, n0, root, after, n, mid, path, leaf_state, leaf),
    ensures
        path.len() > 0,
        path[0] == 0,
        forall|i: int|
            0 <= i < n0 && path.contains(i) ==> (#[trigger] after[i]).visits == before[i].visits
                + 1,
        forall|i: int| 0 <= i < n0 && !path.contains(i) ==> same_count(before[i], #[trigger] after[i]),
        forall|i: int|
            n0 <= i < n ==> (#[trigger] after[i]).visits == (if path.contains(i) {
                1int
            } else {
                0int
            }),
{
    reveal(descended);
    reveal(counted_descent);
    assert forall|i: int| 0 <= i < n implies (#[trigger] after[i]).visits == mid[i].visits + (
    if path.contains(i) {
        1int
    } else {
        0int
    }) && (!path.contains(i) ==> after[i] == mid[i]) by {
        if path.contains(i) {
            let e = choose|e: int| 0 <= e < path.len() && path[e] == i;
            assert(after[path[e]] == counted(
                mid[path[e]],
                level_value(path.len() as int, e, leaf),
                level_state(mid, after, path, e, leaf_state),
            ));
        }
    }
    assert forall|i: int| 0 <= i < n0 && path.contains(i) implies (#[trigger] after[i]).visits
        == before[i].visits + 1 by {
        assert(same_count(before[i], mid[i]));
    }
    assert forall|i: int| 0 <= i < n0 && !path.contains(i) implies same_count(
        before[i],
        #[trigger] after[i],
    ) by {
        assert(same_count(before[i], mid[i]));
    }
    assert forall|i: int| n0 <= i < n implies (#[trigger] after[i]).visits == (if path.contains(
        i,
    ) {
        1int
    } else {
        0int
    }) by {
        assert(mid[i].visits == 0);
    }
}

/// The descent of a counted iteration ends at the first node that was
/// decided or never visited: every node on it before the last was in use,
/// visited and ongoing, and the last is a new node or one that was decided or
/// never visited.
pub proof fn lemma_counted_ends_at_leaf(
    before: Seq<NodeModel>,
    n0: int,
    root: BoardModel,
    after: Seq<NodeModel>,
    n: int,
    mid: Seq<NodeModel>,
    path: Seq<int>,
    leaf_state: GameState,
    leaf: int,
)
    requires
        counted_descent(before, n0, root, after, n, mid, path, leaf_state, leaf),
    ensures
        forall|e: int|
            0 <= e < path.len() - 1 ==> 0 <= #[trigger] path[e] < n0 && phase_of(before[path[e]])
                != Phase::Leaf,
        0 <= path.last() < n,
        path.last() < n0 ==> phase_of(before[path.last()]) == Phase::Leaf,
{
    reveal(descended);
    reveal(counted_descent);
    assert forall|e: int| 0 <= e < path.len() - 1 implies 0 <= #[trigger] path[e] < n0
        && phase_of(before[path[e]]) != Phase::Leaf by {
        assert(selects_at(mid, path, e));
        assert(0 <= path[e] < n);
        if path[e] >= n0 {
            assert(mid[path[e]].visits == 0);
        }
        assert(same_count(before[path[e]], mid[path[e]]));
    }
    assert(0 <= path[path.len() - 1] < n);
    if path.last() < n0 {
        assert(same_count(before[path.last()], mid[path.last()]));
    }
}

/// A counted iteration gives one node at most its children. Without new
/// nodes every node has the children that it had. With new nodes the descent
/// has ended at one of them, and the node before it on the descent, which
/// was visited, ongoing and had no children, has the new nodes as its
/// children: one for each move of the position that the descent had come to
/// there, 255 at most, in their order. Every other node has the children that
/// it had.
pub proof fn lemma_counted_expansion(
    before: Seq<NodeModel>,
    n0: int,
    root: BoardModel,
    after: Seq<NodeModel>,
    n: int,
    mid: Seq<NodeModel>,
    path: Seq<int>,
    leaf_state: GameState,
    leaf: int,
)
    requires
        counted_descent(before, n0, root, after, n, mid, path, leaf_state, leaf),
    ensures
        n0 <= n,
        n == n0 ==> forall|i: int| 0 <= i < n0 ==> same_children(before[i], #[trigger] after[i]),
        n > n0 ==> {
            let p = path[path.len() - 2];
            &&& path.len() >= 2
            &&& n0 <= path.last() < n
            &&& 0 <= p < n0
            &&& phase_of(before[p]) == Phase::Expand
            &&& holds_children(after, n0, n, p, offered_moves(reached(root, mid, path.drop_last())))
            &&& forall|i: int| 0 <= i < n0 && i != p ==> same_children(before[i], #[trigger] after[i])
        },
{
    reveal(descended);
    reveal(counted_descent);
    assert forall|i: int| 0 <= i < n implies same_children(mid[i], #[trigger] after[i])
        && after[i].mov == mid[i].mov by {
        if path.contains(i) {
            let e = choose|e: int| 0 <= e < path.len() && path[e] == i;
            assert(after[path[e]] == counted(
                mid[path[e]],
                level_value(path.len() as int, e, leaf),
                level_state(mid, after, path, e, leaf_state),
            ));
        } else {
            assert(after[i] == mid[i]);
        }
    }
    assert(0 <= path[path.len() - 1] < n);
    if n == n0 {
        assert forall|i: int| 0 <= i < n0 implies same_children(before[i], #[trigger] after[i]) by {
            assert(same_children(before[i], mid[i]));
            assert(same_children(mid[i], after[i]));
        }
    } else {
        let e = choose|e: int| #[trigger] expanded_at(before, n0, root, mid, n, path, e);
        if e == path.len() - 1 {
            assert(same_count(before[path[e]], mid[path[e]]));
            assert(mid[path[e]].num_actions > 0);
        }
        assert(e == path.len() - 2);
        let p = path[e];
        assert(path.take(e + 1) =~= path.drop_last());
        assert(same_children(mid[p], after[p]));
        assert forall|j: int| 0 <= j < n - n0 implies (#[trigger] after[n0 + j]).mov == mid[n0
            + j].mov by {
            assert(same_children(mid[n0 + j], after[n0 + j]));
        }
        assert forall|i: int| 0 <= i < n0 && i != p implies same_children(
            before[i],
            #[trigger] after[i],
        ) by {
            assert(same_children(before[i], mid[i]));
            assert(same_children(mid[i], after[i]));
        }
    }
}

} // verus!
