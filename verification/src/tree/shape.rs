use vstd::prelude::*;

use crate::ataxx::moves::Move;
use crate::ataxx::state::GameState;
use crate::tree::node::{NodeModel, NodePtr};

verus! {

/// The visits of the `count` nodes from slot `first` on, added up.
pub open spec fn child_visits(nodes: Seq<NodeModel>, first: int, count: int) -> int
    decreases count,
{
    if count <= 0 {
        0
    } else {
        child_visits(nodes, first, count - 1) + nodes[first + count - 1].visits
    }
}

/// The slot of the first child of the node in slot `i`.
pub open spec fn first_child(nodes: Seq<NodeModel>, i: int) -> int {
    nodes[i].actions.spec_idx()
}

/// Whether slot `c` lies in the block of children of the node in slot `p`.
pub open spec fn is_child_of(nodes: Seq<NodeModel>, p: int, c: int) -> bool {
    first_child(nodes, p) <= c < first_child(nodes, p) + nodes[p].num_actions
}

/// Every block of children among the first `n` slots lies in the half
/// `half`, behind its parent and within the first `n` slots.
pub open spec fn well_linked(nodes: Seq<NodeModel>, half: bool, n: int) -> bool {
    forall|i: int|
        0 <= i < n && (#[trigger] nodes[i]).num_actions > 0 ==> {
            &&& nodes[i].actions.spec_half() == half
            &&& i < first_child(nodes, i)
            &&& first_child(nodes, i) + nodes[i].num_actions <= n
        }
}

/// No slot lies in the blocks of two nodes.
pub open spec fn single_parent(nodes: Seq<NodeModel>, n: int) -> bool {
    forall|p: int, q: int, c: int|
        0 <= p < n && 0 <= q < n && #[trigger] is_child_of(nodes, p, c) && #[trigger] is_child_of(
            nodes,
            q,
            c,
        ) ==> p == q
}

/// A node with children was visited once before they were made and once for
/// every visit of a child; the node in slot `hole`, if there is one, may be
/// one visit short.
pub open spec fn visits_cover(nodes: Seq<NodeModel>, n: int, hole: int) -> bool {
    forall|i: int|
        0 <= i < n && (#[trigger] nodes[i]).num_actions > 0 ==> nodes[i].visits + (if i == hole {
            1int
        } else {
            0int
        }) >= 1 + child_visits(nodes, first_child(nodes, i), nodes[i].num_actions as int)
}

/// A node that was never visited is ongoing and every node is in range.
pub open spec fn nodes_sound(nodes: Seq<NodeModel>, n: int) -> bool {
    forall|i: int|
        0 <= i < n ==> (#[trigger] nodes[i]).in_range() && (nodes[i].visits == 0
            ==> nodes[i].state == GameState::Ongoing)
}

/// The slots from the second on of a descent that has come down to its
/// `upto`-th slot.
pub open spec fn in_flight(path: Seq<int>, upto: int, i: int) -> bool {
    exists|d: int| 1 <= d <= upto && d < path.len() && #[trigger] path[d] == i
}

/// Every node on a descent below the root counts one thread, every other none.
pub open spec fn threads_match(nodes: Seq<NodeModel>, n: int, path: Seq<int>, upto: int) -> bool {
    forall|i: int|
        0 <= i < n ==> (#[trigger] nodes[i]).threads == (if in_flight(path, upto, i) {
            1nat
        } else {
            0nat
        })
}

/// The descent steps from its `d`-th slot to a child of the node there.
pub open spec fn steps_down(nodes: Seq<NodeModel>, path: Seq<int>, d: int) -> bool {
    nodes[path[d]].num_actions > 0 && is_child_of(nodes, path[d], path[d + 1])
}

/// A descent starts at the root and steps from a node to one of its children.
pub open spec fn path_linked(nodes: Seq<NodeModel>, n: int, path: Seq<int>) -> bool {
    &&& path.len() > 0 ==> path[0] == 0
    &&& forall|d: int| 0 <= d < path.len() ==> 0 <= #[trigger] path[d] < n
    &&& forall|d: int| 0 <= d < path.len() - 1 ==> #[trigger] steps_down(nodes, path, d)
}

/// The shape of the tree while the visits of a descent are counted: as
/// between calls, but the node in slot `hole` may be one visit short, and only
/// the slots of the descent up to its `upto`-th count a thread.
pub open spec fn shape_at(
    nodes: Seq<NodeModel>,
    half: bool,
    n: int,
    path: Seq<int>,
    hole: int,
    upto: int,
) -> bool {
    &&& 0 <= n <= nodes.len()
    &&& well_linked(nodes, half, n)
    &&& single_parent(nodes, n)
    &&& visits_cover(nodes, n, hole)
    &&& nodes_sound(nodes, n)
    &&& threads_match(nodes, n, path, upto)
    &&& path_linked(nodes, n, path)
}

/// What the nodes in the first `n` slots of the active half satisfy between
/// calls: they form a tree, their statistics are sound, and their thread
/// counts are those of the descent `path`.
pub open spec fn tree_shape(nodes: Seq<NodeModel>, half: bool, n: int, path: Seq<int>) -> bool {
    &&& shape_at(nodes, half, n, path, -1, path.len() as int)
    &&& (path.len() > 0 ==> nodes[0].visits < i32::MAX)
}

/// The nodes after the node in slot `idx` was given the `moves.len()` slots
/// from `n` on as its children.
pub open spec fn expanded(
    nodes: Seq<NodeModel>,
    half: bool,
    n: int,
    idx: int,
    moves: Seq<Move>,
    policies: Seq<u16>,
    gini: u32,
) -> Seq<NodeModel> {
    Seq::new(
        nodes.len(),
        |i: int|
            if i == idx {
                NodeModel {
                    actions: NodePtr::at(half, n),
                    num_actions: moves.len(),
                    gini_impurity: gini,
                    ..nodes[idx]
                }
            } else if n <= i < n + moves.len() {
                NodeModel {
                    mov: moves[i - n],
                    policy: policies[i - n],
                    ..NodeModel::fresh(GameState::Ongoing)
                }
            } else {
                nodes[i]
            },
    )
}

proof fn lemma_expanded_links(
    nodes: Seq<NodeModel>,
    half: bool,
    n: int,
    idx: int,
    moves: Seq<Move>,
    policies: Seq<u16>,
    gini: u32,
)
    requires
        well_linked(nodes, half, n),
        single_parent(nodes, n),
        0 <= idx < n,
        nodes[idx].num_actions == 0,
        1 <= moves.len() <= 255,
        n + moves.len() <= nodes.len() <= 0x7fff_ffff,
    ensures
        well_linked(expanded(nodes, half, n, idx, moves, policies, gini), half, n + moves.len()),
        single_parent(expanded(nodes, half, n, idx, moves, policies, gini), n + moves.len()),
{
    let after = expanded(nodes, half, n, idx, moves, policies, gini);
    let k = moves.len() as int;
    let m = n + k;
    NodePtr::lemma_at(half, n);
    assert(first_child(after, idx) == n);
    assert forall|i: int| 0 <= i < m && (#[trigger] after[i]).num_actions > 0 implies {
        &&& after[i].actions.spec_half() == half
        &&& i < first_child(after, i)
        &&& first_child(after, i) + after[i].num_actions <= m
    } by {
        if i != idx {
            assert(i < n);
            assert(after[i] == nodes[i]);
        }
    }
    assert forall|p: int, q: int, c: int|
        0 <= p < m && 0 <= q < m && #[trigger] is_child_of(after, p, c) && #[trigger] is_child_of(
            after,
            q,
            c,
        ) implies p == q by {
        if p != idx && q != idx {
            assert(p < n && q < n);
            assert(after[p] == nodes[p] && after[q] == nodes[q]);
            assert(is_child_of(nodes, p, c) && is_child_of(nodes, q, c));
        } else if p == idx && q != idx {
            if q < n {
                assert(after[q] == nodes[q]);
                assert(nodes[q].num_actions > 0);
            }
        } else if q == idx && p != idx {
            if p < n {
                assert(after[p] == nodes[p]);
                assert(nodes[p].num_actions > 0);
            }
        }
    }
}

proof fn lemma_expanded_visits(
    nodes: Seq<NodeModel>,
    half: bool,
    n: int,
    idx: int,
    moves: Seq<Move>,
    policies: Seq<u16>,
    gini: u32,
)
    requires
        well_linked(nodes, half, n),
        visits_cover(nodes, n, -1),
        0 <= idx < n,
        nodes[idx].num_actions == 0,
        nodes[idx].visits > 0,
        1 <= moves.len() <= 255,
        n + moves.len() <= nodes.len() <= 0x7fff_ffff,
    ensures
        visits_cover(expanded(nodes, half, n, idx, moves, policies, gini), n + moves.len(), -1),
{
    let after = expanded(nodes, half, n, idx, moves, policies, gini);
    let k = moves.len() as int;
    let m = n + k;
    NodePtr::lemma_at(half, n);
    assert(first_child(after, idx) == n);
    assert forall|i: int| 0 <= i < m && (#[trigger] after[i]).num_actions > 0 implies after[i].visits
        + (if i == -1 {
        1int
    } else {
        0int
    }) >= 1 + child_visits(after, first_child(after, i), after[i].num_actions as int) by {
        if i == idx {
            assert forall|j: int| n <= j < n + k implies (#[trigger] after[j]).visits == 0 by {}
            lemma_child_visits_none(after, n, k);
        } else {
            assert(i < n);
            assert(after[i] == nodes[i]);
            let a = first_child(nodes, i);
            let c = nodes[i].num_actions as int;
            assert(a + c <= n);
            assert forall|j: int| a <= j < a + c implies (#[trigger] nodes[j]).visits
                == after[j].visits by {}
            lemma_child_visits_frame(nodes, after, a, c);
        }
    }
}

proof fn lemma_expanded_rest(
    nodes: Seq<NodeModel>,
    half: bool,
    n: int,
    path: Seq<int>,
    idx: int,
    moves: Seq<Move>,
    policies: Seq<u16>,
    gini: u32,
)
    requires
        nodes_sound(nodes, n),
        threads_match(nodes, n, path, path.len() as int),
        path_linked(nodes, n, path),
        0 <= idx < n,
        nodes[idx].num_actions == 0,
        1 <= moves.len() <= 255,
        n + moves.len() <= nodes.len() <= 0x7fff_ffff,
    ensures
        nodes_sound(expanded(nodes, half, n, idx, moves, policies, gini), n + moves.len()),
        threads_match(
            expanded(nodes, half, n, idx, moves, policies, gini),
            n + moves.len(),
            path,
            path.len() as int,
        ),
        path_linked(expanded(nodes, half, n, idx, moves, policies, gini), n + moves.len(), path),
{
    let after = expanded(nodes, half, n, idx, moves, policies, gini);
    let k = moves.len() as int;
    let m = n + k;
    assert forall|i: int| 0 <= i < m implies (#[trigger] after[i]).in_range() && (after[i].visits
        == 0 ==> after[i].state == GameState::Ongoing) by {
        if i < n {
            assert(nodes[i].in_range());
        }
    }
    assert forall|i: int| 0 <= i < m implies (#[trigger] after[i]).threads == (if in_flight(
        path,
        path.len() as int,
        i,
    ) {
        1nat
    } else {
        0nat
    }) by {
        if i < n {
            assert(after[i].threads == nodes[i].threads);
        }
    }
    assert forall|d: int| 0 <= d < path.len() - 1 implies #[trigger] steps_down(
        after,
        path,
        d,
    ) by {
        assert(steps_down(nodes, path, d));
        assert(0 <= path[d] < n);
        assert(path[d] != idx);
        assert(after[path[d]] == nodes[path[d]]);
    }
}

/// Giving children to a visited, ongoing node without children keeps the
/// shape of the tree.
pub proof fn lemma_expanded_shape(
    nodes: Seq<NodeModel>,
    half: bool,
    n: int,
    path: Seq<int>,
    idx: int,
    moves: Seq<Move>,
    policies: Seq<u16>,
    gini: u32,
)
    requires
        tree_shape(nodes, half, n, path),
        0 <= idx < n,
        nodes[idx].num_actions == 0,
        nodes[idx].visits > 0,
        1 <= moves.len() <= 255,
        moves.len() == policies.len(),
        n + moves.len() <= nodes.len() <= 0x7fff_ffff,
    ensures
        tree_shape(expanded(nodes, half, n, idx, moves, policies, gini), half, n + moves.len(), path),
{
    lemma_expanded_links(nodes, half, n, idx, moves, policies, gini);
    lemma_expanded_visits(nodes, half, n, idx, moves, policies, gini);
    lemma_expanded_rest(nodes, half, n, path, idx, moves, policies, gini);
    let after = expanded(nodes, half, n, idx, moves, policies, gini);
    assert(after[0].visits == nodes[0].visits);
}

/// The nodes after the `policies.len()` nodes from slot `first` on were given
/// new priors.
pub open spec fn relabelled(nodes: Seq<NodeModel>, first: int, policies: Seq<u16>) -> Seq<
    NodeModel,
> {
    Seq::new(
        nodes.len(),
        |i: int|
            if first <= i < first + policies.len() {
                NodeModel { policy: policies[i - first], ..nodes[i] }
            } else {
                nodes[i]
            },
    )
}

/// Whether two nodes agree in all that the shape of the tree depends on.
pub open spec fn same_links(a: NodeModel, b: NodeModel) -> bool {
    &&& a.actions == b.actions
    &&& a.num_actions == b.num_actions
    &&& a.visits == b.visits
    &&& a.threads == b.threads
}

/// A change to one node that keeps its children, visits and threads, leaves
/// it in range and leaves it ongoing if it was never visited, keeps the shape
/// of the tree.
pub proof fn lemma_touched_shape_at(
    nodes: Seq<NodeModel>,
    after: Seq<NodeModel>,
    half: bool,
    n: int,
    path: Seq<int>,
    hole: int,
    upto: int,
    idx: int,
)
    requires
        shape_at(nodes, half, n, path, hole, upto),
        0 <= idx < nodes.len(),
        after == nodes.update(idx, after[idx]),
        same_links(nodes[idx], after[idx]),
        after[idx].in_range(),
        after[idx].visits == 0 ==> after[idx].state == GameState::Ongoing,
    ensures
        shape_at(after, half, n, path, hole, upto),
{
    assert forall|i: int| 0 <= i < n && (#[trigger] after[i]).num_actions > 0 implies {
        &&& after[i].actions.spec_half() == half
        &&& i < first_child(after, i)
        &&& first_child(after, i) + after[i].num_actions <= n
    } by {
        assert(nodes[i].num_actions > 0);
    }
    assert forall|p: int, q: int, c: int|
        0 <= p < n && 0 <= q < n && #[trigger] is_child_of(after, p, c) && #[trigger] is_child_of(
            after,
            q,
            c,
        ) implies p == q by {
        assert(is_child_of(nodes, p, c) && is_child_of(nodes, q, c));
    }
    assert forall|i: int| 0 <= i < n && (#[trigger] after[i]).num_actions > 0 implies after[i].visits
        + (if i == hole {
        1int
    } else {
        0int
    }) >= 1 + child_visits(after, first_child(after, i), after[i].num_actions as int) by {
        assert(nodes[i].num_actions > 0);
        let a = first_child(nodes, i);
        let c = nodes[i].num_actions as int;
        assert forall|j: int| a <= j < a + c implies (#[trigger] nodes[j]).visits
            == after[j].visits by {}
        lemma_child_visits_frame(nodes, after, a, c);
    }
    assert forall|i: int| 0 <= i < n implies (#[trigger] after[i]).in_range() && (after[i].visits
        == 0 ==> after[i].state == GameState::Ongoing) by {
        assert(nodes[i].in_range());
    }
    assert forall|i: int| 0 <= i < n implies (#[trigger] after[i]).threads == (if in_flight(
        path,
        upto,
        i,
    ) {
        1nat
    } else {
        0nat
    }) by {
        assert(after[i].threads == nodes[i].threads);
    }
    assert forall|d: int| 0 <= d < path.len() - 1 implies #[trigger] steps_down(
        after,
        path,
        d,
    ) by {
        assert(steps_down(nodes, path, d));
    }
}

/// A change to one node that keeps its children, visits and threads, leaves
/// it in range and leaves it ongoing if it was never visited, keeps the shape
/// of the tree.
pub proof fn lemma_touched_shape(
    nodes: Seq<NodeModel>,
    after: Seq<NodeModel>,
    half: bool,
    n: int,
    path: Seq<int>,
    idx: int,
)
    requires
        tree_shape(nodes, half, n, path),
        0 <= idx < nodes.len(),
        after == nodes.update(idx, after[idx]),
        same_links(nodes[idx], after[idx]),
        after[idx].in_range(),
        after[idx].visits == 0 ==> after[idx].state == GameState::Ongoing,
    ensures
        tree_shape(after, half, n, path),
{
    lemma_touched_shape_at(nodes, after, half, n, path, -1, path.len() as int, idx);
    assert(after[0].visits == nodes[0].visits);
}

/// One more slot with a fresh node keeps the shape of the tree.
pub proof fn lemma_pushed_shape(nodes: Seq<NodeModel>, half: bool, n: int, path: Seq<int>)
    requires
        tree_shape(nodes, half, n, path),
        n < nodes.len(),
    ensures
        tree_shape(nodes.update(n, NodeModel::fresh(GameState::Ongoing)), half, n + 1, path),
{
    let after = nodes.update(n, NodeModel::fresh(GameState::Ongoing));
    assert forall|i: int| 0 <= i < n + 1 && (#[trigger] after[i]).num_actions > 0 implies {
        &&& after[i].actions.spec_half() == half
        &&& i < first_child(after, i)
        &&& first_child(after, i) + after[i].num_actions <= n + 1
    } by {
        assert(nodes[i].num_actions > 0);
    }
    assert forall|p: int, q: int, c: int|
        0 <= p < n + 1 && 0 <= q < n + 1 && #[trigger] is_child_of(after, p, c)
            && #[trigger] is_child_of(after, q, c) implies p == q by {
        assert(is_child_of(nodes, p, c) && is_child_of(nodes, q, c));
    }
    assert forall|i: int|
        0 <= i < n + 1 && (#[trigger] after[i]).num_actions > 0 implies after[i].visits + (if i
        == -1 {
        1int
    } else {
        0int
    }) >= 1 + child_visits(after, first_child(after, i), after[i].num_actions as int) by {
        assert(nodes[i].num_actions > 0);
        let a = first_child(nodes, i);
        let c = nodes[i].num_actions as int;
        assert forall|j: int| a <= j < a + c implies (#[trigger] nodes[j]).visits
            == after[j].visits by {}
        lemma_child_visits_frame(nodes, after, a, c);
    }
    assert forall|i: int| 0 <= i < n + 1 implies (#[trigger] after[i]).in_range() && (
    after[i].visits == 0 ==> after[i].state == GameState::Ongoing) by {
        if i < n {
            assert(nodes[i].in_range());
        }
    }
    assert forall|i: int| 0 <= i < n + 1 implies (#[trigger] after[i]).threads == (if in_flight(
        path,
        path.len() as int,
        i,
    ) {
        1nat
    } else {
        0nat
    }) by {
        if i < n {
            assert(after[i].threads == nodes[i].threads);
        }
    }
    assert forall|d: int| 0 <= d < path.len() - 1 implies #[trigger] steps_down(
        after,
        path,
        d,
    ) by {
        assert(steps_down(nodes, path, d));
    }
    if path.len() > 0 {
        assert(0 <= path[0] < n);
    }
}

/// One more visit of the root while no descent is under way keeps the shape
/// of the tree.
pub proof fn lemma_root_updated_shape(nodes: Seq<NodeModel>, half: bool, n: int, q: int)
    requires
        tree_shape(nodes, half, n, Seq::<int>::empty()),
        0 < n,
        0 <= q <= 4096,
        nodes[0].visits < i32::MAX,
    ensures
        tree_shape(nodes.update(0, nodes[0].updated(q)), half, n, Seq::<int>::empty()),
{
    let after = nodes.update(0, nodes[0].updated(q));
    let path = Seq::<int>::empty();
    assert(nodes[0].in_range());
    nodes[0].lemma_updated_in_range(q);
    assert forall|i: int| 0 <= i < n && (#[trigger] after[i]).num_actions > 0 implies {
        &&& after[i].actions.spec_half() == half
        &&& i < first_child(after, i)
        &&& first_child(after, i) + after[i].num_actions <= n
    } by {
        assert(nodes[i].num_actions > 0);
    }
    assert forall|p: int, q: int, c: int|
        0 <= p < n && 0 <= q < n && #[trigger] is_child_of(after, p, c) && #[trigger] is_child_of(
            after,
            q,
            c,
        ) implies p == q by {
        assert(is_child_of(nodes, p, c) && is_child_of(nodes, q, c));
    }
    assert forall|i: int| 0 <= i < n && (#[trigger] after[i]).num_actions > 0 implies after[i].visits
        + (if i == -1 {
        1int
    } else {
        0int
    }) >= 1 + child_visits(after, first_child(after, i), after[i].num_actions as int) by {
        assert(nodes[i].num_actions > 0);
        let a = first_child(nodes, i);
        let c = nodes[i].num_actions as int;
        assert forall|j: int| a <= j < a + c implies (#[trigger] nodes[j]).visits
            == after[j].visits by {}
        lemma_child_visits_frame(nodes, after, a, c);
    }
    assert forall|i: int| 0 <= i < n implies (#[trigger] after[i]).in_range() && (after[i].visits
        == 0 ==> after[i].state == GameState::Ongoing) by {
        assert(nodes[i].in_range());
    }
    assert forall|i: int| 0 <= i < n implies (#[trigger] after[i]).threads == (if in_flight(
        path,
        path.len() as int,
        i,
    ) {
        1nat
    } else {
        0nat
    }) by {
        assert(after[i].threads == nodes[i].threads);
    }
}

/// The visits of a block depend on the nodes of the block alone.
pub proof fn lemma_child_visits_frame(a: Seq<NodeModel>, b: Seq<NodeModel>, first: int, count: int)
    requires
        forall|j: int| first <= j < first + count ==> (#[trigger] a[j]).visits == b[j].visits,
    ensures
        child_visits(a, first, count) == child_visits(b, first, count),
    decreases count,
{
    if count > 0 {
        lemma_child_visits_frame(a, b, first, count - 1);
        assert(a[first + count - 1].visits == b[first + count - 1].visits);
    }
}

/// One more visit of one node of a block is one more visit of the block.
pub proof fn lemma_child_visits_bump(
    a: Seq<NodeModel>,
    b: Seq<NodeModel>,
    first: int,
    count: int,
    c: int,
)
    requires
        first <= c < first + count,
        b[c].visits == a[c].visits + 1,
        forall|j: int|
            first <= j < first + count && j != c ==> (#[trigger] a[j]).visits == b[j].visits,
    ensures
        child_visits(b, first, count) == child_visits(a, first, count) + 1,
    decreases count,
{
    if c == first + count - 1 {
        lemma_child_visits_frame(a, b, first, count - 1);
    } else {
        lemma_child_visits_bump(a, b, first, count - 1, c);
        assert(a[first + count - 1].visits == b[first + count - 1].visits);
    }
}

/// A block of nodes that were never visited has no visits.
pub proof fn lemma_child_visits_none(a: Seq<NodeModel>, first: int, count: int)
    requires
        forall|j: int| first <= j < first + count ==> (#[trigger] a[j]).visits == 0,
    ensures
        child_visits(a, first, count) == 0,
    decreases count,
{
    if count > 0 {
        lemma_child_visits_none(a, first, count - 1);
        assert(a[first + count - 1].visits == 0);
    }
}

/// The visits of a block of nodes in range are not negative.
pub proof fn lemma_child_visits_nonneg(a: Seq<NodeModel>, first: int, count: int)
    requires
        forall|j: int| first <= j < first + count ==> (#[trigger] a[j]).visits >= 0,
    ensures
        child_visits(a, first, count) >= 0,
    decreases count,
{
    if count > 0 {
        lemma_child_visits_nonneg(a, first, count - 1);
        assert(a[first + count - 1].visits >= 0);
    }
}

/// In a block whose visits are not negative, no node has more visits than
/// the block.
pub proof fn lemma_child_visits_member(a: Seq<NodeModel>, first: int, count: int, c: int)
    requires
        first <= c < first + count,
        forall|j: int| first <= j < first + count ==> (#[trigger] a[j]).visits >= 0,
    ensures
        a[c].visits <= child_visits(a, first, count),
    decreases count,
{
    lemma_child_visits_nonneg(a, first, count - 1);
    if c < first + count - 1 {
        lemma_child_visits_member(a, first, count - 1, c);
        assert(a[first + count - 1].visits >= 0);
    }
}

} // verus!
