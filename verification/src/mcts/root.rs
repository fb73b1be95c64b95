use vstd::prelude::*;

use crate::ataxx::board::BoardModel;
use crate::ataxx::moves::Move;
use crate::ataxx::state::GameState;
use crate::mcts::playout::{children_kept, same_children, same_moves};
use crate::mcts::search::offered_moves;
use crate::tree::arena::Tree;
use crate::tree::node::NodeModel;
use crate::tree::shape::{first_child, is_child_of, relabelled, single_parent, well_linked};
use crate::tree::view::{lemma_subtrees_at, subtree};

verus! {

/// Whether the tree has a root with children.
pub open spec fn has_children(tree: &Tree) -> bool {
    tree.allocated() > 0 && tree.nodes()[0].num_actions > 0
}

/// The moves that lead to the children of the node in slot `i`, in the order
/// of the children.
pub open spec fn child_moves_of(nodes: Seq<NodeModel>, i: int) -> Seq<Move> {
    Seq::new(nodes[i].num_actions, |j: int| nodes[first_child(nodes, i) + j].mov)
}

/// The priors of the children of the node in slot `i`, in the order of the
/// children.
pub open spec fn child_priors_of(nodes: Seq<NodeModel>, i: int) -> Seq<u16> {
    Seq::new(nodes[i].num_actions, |j: int| nodes[first_child(nodes, i) + j].policy)
}

/// The nodes after the children of the node in slot `i` were given the
/// priors `priors`: each child has the prior of its number, if there are as
/// many priors as children, and else nothing is changed.
pub open spec fn relabelled_at(nodes: Seq<NodeModel>, i: int, priors: Seq<u16>) -> Seq<NodeModel> {
    if priors.len() == nodes[i].num_actions {
        relabelled(nodes, first_child(nodes, i), priors)
    } else {
        nodes
    }
}

/// Whether the children of the root have the priors `priors`, if these are
/// as many as the children, and else the priors that they had.
pub open spec fn root_relabelled(
    before: Seq<NodeModel>,
    after: Seq<NodeModel>,
    priors: Seq<u16>,
) -> bool {
    child_priors_of(after, 0) == (if priors.len() == before[0].num_actions {
        priors
    } else {
        child_priors_of(before, 0)
    })
}

/// Whether the nodes are what they were but for their priors and for the
/// threads of a descent that was dropped.
pub open spec fn repriored(before: Seq<NodeModel>, after: Seq<NodeModel>) -> bool {
    &&& after.len() == before.len()
    &&& forall|i: int|
        0 <= i < before.len() ==> #[trigger] after[i] == (NodeModel {
            policy: after[i].policy,
            threads: after[i].threads,
            ..before[i]
        })
}

/// Whether the nodes are those of a root that has just been made for the
/// position `root`: it was visited once, is ongoing, and has in the slots
/// behind it a child for each of the moves handed to `policy`, none of them
/// visited.
pub open spec fn fresh_root(nodes: Seq<NodeModel>, root: BoardModel) -> bool {
    let moves = offered_moves(root);
    &&& nodes[0].visits == 1
    &&& nodes[0].state == GameState::Ongoing
    &&& nodes[0].num_actions == moves.len() > 0
    &&& first_child(nodes, 0) == 1
    &&& forall|j: int|
        0 <= j < moves.len() ==> {
            &&& (#[trigger] nodes[1 + j]).mov == moves[j]
            &&& nodes[1 + j].visits == 0
            &&& nodes[1 + j].summed_q == 0
            &&& nodes[1 + j].state == GameState::Ongoing
            &&& nodes[1 + j].num_actions == 0
        }
}

/// New priors for the children of the root leave the root and the moves to
/// its children as they were, and are the priors of its children then.
pub proof fn lemma_relabelled_root(before: Seq<NodeModel>, n: int, half: bool, priors: Seq<u16>)
    requires
        well_linked(before, half, n),
        0 < n <= before.len(),
        before[0].num_actions > 0,
    ensures
        root_relabelled(before, relabelled_at(before, 0, priors), priors),
        child_moves_of(relabelled_at(before, 0, priors), 0) == child_moves_of(before, 0),
        relabelled_at(before, 0, priors)[0] == before[0],
{
    let after = relabelled_at(before, 0, priors);
    let f = first_child(before, 0);
    assert(0 < f && f + before[0].num_actions <= n);
    assert(after[0] == before[0]);
    assert(child_moves_of(after, 0) =~= child_moves_of(before, 0));
    if priors.len() == before[0].num_actions {
        assert(child_priors_of(after, 0) =~= priors);
    } else {
        assert(child_priors_of(after, 0) =~= child_priors_of(before, 0));
    }
}

/// A change to the children of another node leaves the root and its
/// children as they were.
pub proof fn lemma_root_apart(
    before: Seq<NodeModel>,
    n: int,
    half: bool,
    after: Seq<NodeModel>,
    c: int,
)
    requires
        well_linked(before, half, n),
        single_parent(before, n),
        0 < c < n <= before.len(),
        after.len() == before.len(),
        forall|i: int|
            0 <= i < before.len() && !is_child_of(before, c, i) ==> #[trigger] after[i]
                == before[i],
    ensures
        after[0] == before[0],
        child_moves_of(after, 0) == child_moves_of(before, 0),
        child_priors_of(after, 0) == child_priors_of(before, 0),
{
    assert(!is_child_of(before, c, 0)) by {
        if before[c].num_actions > 0 {
            assert(c < first_child(before, c));
        }
    }
    assert(after[0] == before[0]);
    let f = first_child(before, 0);
    let k = before[0].num_actions as int;
    if k > 0 {
        assert(0 < f && f + k <= n);
        assert forall|j: int| 0 <= j < k implies #[trigger] after[f + j] == before[f + j] by {
            let x = f + j;
            if is_child_of(before, c, x) {
                assert(is_child_of(before, 0, x));
            }
            assert(after[x] == before[x]);
        }
        assert forall|j: int| 0 <= j < k implies #[trigger] child_moves_of(after, 0)[j]
            == child_moves_of(before, 0)[j] by {
            assert(after[f + j] == before[f + j]);
        }
        assert forall|j: int| 0 <= j < k implies #[trigger] child_priors_of(after, 0)[j]
            == child_priors_of(before, 0)[j] by {
            assert(after[f + j] == before[f + j]);
        }
    }
    assert(child_moves_of(after, 0) =~= child_moves_of(before, 0));
    assert(child_priors_of(after, 0) =~= child_priors_of(before, 0));
}

/// Dropping a descent leaves the root and its children what they were but
/// for their threads.
pub proof fn lemma_root_dropped(before: Seq<NodeModel>, after: Seq<NodeModel>, n: int, half: bool)
    requires
        well_linked(before, half, n),
        0 < n <= before.len(),
        after.len() == before.len(),
        forall|i: int|
            0 <= i < before.len() ==> #[trigger] after[i] == before[i] || after[i] == (NodeModel {
                threads: 0,
                ..before[i]
            }),
    ensures
        after[0].num_actions == before[0].num_actions,
        child_moves_of(after, 0) == child_moves_of(before, 0),
        child_priors_of(after, 0) == child_priors_of(before, 0),
{
    assert(after[0] == before[0] || after[0] == NodeModel { threads: 0, ..before[0] });
    let f = first_child(before, 0);
    let k = before[0].num_actions as int;
    if k > 0 {
        assert(0 < f && f + k <= n);
        assert forall|j: int| 0 <= j < k implies #[trigger] child_moves_of(after, 0)[j]
            == child_moves_of(before, 0)[j] by {
            let x = f + j;
            assert(after[x] == before[x] || after[x] == NodeModel { threads: 0, ..before[x] });
        }
        assert forall|j: int| 0 <= j < k implies #[trigger] child_priors_of(after, 0)[j]
            == child_priors_of(before, 0)[j] by {
            let x = f + j;
            assert(after[x] == before[x] || after[x] == NodeModel { threads: 0, ..before[x] });
        }
    }
    assert(child_moves_of(after, 0) =~= child_moves_of(before, 0));
    assert(child_priors_of(after, 0) =~= child_priors_of(before, 0));
}

/// A root with children has the same children, with the same moves, when
/// the nodes have the moves and the children that they had.
pub proof fn lemma_root_moves_kept(before: Seq<NodeModel>, n0: int, half: bool, after: Seq<NodeModel>)
    requires
        well_linked(before, half, n0),
        0 < n0,
        before[0].num_actions > 0,
        same_moves(before, after, n0),
        children_kept(before, after, n0),
    ensures
        after[0].num_actions == before[0].num_actions,
        child_moves_of(after, 0) == child_moves_of(before, 0),
        child_priors_of(after, 0) == child_priors_of(before, 0),
{
    assert(same_children(before[0], after[0]));
    assert(child_priors_of(after, 0) =~= child_priors_of(before, 0)) by {
        assert forall|j: int| 0 <= j < before[0].num_actions implies #[trigger] child_priors_of(
            after,
            0,
        )[j] == child_priors_of(before, 0)[j] by {
            let c = first_child(before, 0) + j;
            assert(after[c].policy == before[c].policy);
        }
    }
    assert(child_moves_of(after, 0) =~= child_moves_of(before, 0)) by {
        assert forall|j: int| 0 <= j < before[0].num_actions implies #[trigger] child_moves_of(
            after,
            0,
        )[j] == child_moves_of(before, 0)[j] by {
            let c = first_child(before, 0) + j;
            assert(after[c].mov == before[c].mov);
        }
    }
}

/// A root with children has the same children, with the same moves, when
/// only priors and threads were changed.
pub proof fn lemma_root_moves_repriored(before: Seq<NodeModel>, n0: int, half: bool, after: Seq<NodeModel>)
    requires
        well_linked(before, half, n0),
        0 < n0 <= before.len(),
        before[0].num_actions > 0,
        repriored(before, after),
    ensures
        after[0].num_actions == before[0].num_actions,
        child_moves_of(after, 0) == child_moves_of(before, 0),
{
    assert(after[0] == NodeModel {
        policy: after[0].policy,
        threads: after[0].threads,
        ..before[0]
    });
    assert(child_moves_of(after, 0) =~= child_moves_of(before, 0)) by {
        assert forall|j: int| 0 <= j < before[0].num_actions implies #[trigger] child_moves_of(
            after,
            0,
        )[j] == child_moves_of(before, 0)[j] by {
            let c = first_child(before, 0) + j;
            assert(after[c] == NodeModel {
                policy: after[c].policy,
                threads: after[c].threads,
                ..before[c]
            });
        }
    }
}

/// A root with children has the same children, with the same moves, when
/// the tree is the same, whatever the slots that hold it.
pub proof fn lemma_root_moves_flipped(before: Tree, after: Tree)
    requires
        before.wf(),
        after.wf(),
        before.allocated() > 0,
        before.nodes()[0].num_actions > 0,
        after.tree_view() == before.tree_view(),
    ensures
        after.allocated() > 0,
        after.nodes()[0].num_actions == before.nodes()[0].num_actions,
        child_moves_of(after.nodes(), 0) == child_moves_of(before.nodes(), 0),
        child_priors_of(after.nodes(), 0) == child_priors_of(before.nodes(), 0),
{
    let a = before.nodes();
    let b = after.nodes();
    let na = before.allocated();
    let nb = after.allocated();
    let fa = first_child(a, 0);
    let fb = first_child(b, 0);
    let k = a[0].num_actions as int;
    assert(well_linked(a, before.spec_active(), na));
    assert(well_linked(b, after.spec_active(), nb));
    assert(0 < fa && fa + k <= na);
    lemma_subtrees_at(a, na, fa, k, 0);
    assert(subtree(a, na, 0).children.len() == k);
    assert(subtree(b, nb, 0) == subtree(a, na, 0));
    let kb = b[0].num_actions as int;
    if kb > 0 {
        assert(0 < fb && fb + kb <= nb);
        lemma_subtrees_at(b, nb, fb, kb, 0);
    }
    assert(kb == k);
    assert(child_priors_of(b, 0) =~= child_priors_of(a, 0)) by {
        assert forall|j: int| 0 <= j < k implies #[trigger] child_priors_of(b, 0)[j]
            == child_priors_of(a, 0)[j] by {
            lemma_subtrees_at(a, na, fa, k, j);
            lemma_subtrees_at(b, nb, fb, k, j);
            assert(subtree(a, na, fa + j).data.policy == a[fa + j].policy);
            assert(subtree(b, nb, fb + j).data.policy == b[fb + j].policy);
        }
    }
    assert(child_moves_of(b, 0) =~= child_moves_of(a, 0)) by {
        assert forall|j: int| 0 <= j < k implies #[trigger] child_moves_of(b, 0)[j]
            == child_moves_of(a, 0)[j] by {
            lemma_subtrees_at(a, na, fa, k, j);
            lemma_subtrees_at(b, nb, fb, k, j);
            assert(subtree(a, na, fa + j).data.mov == a[fa + j].mov);
            assert(subtree(b, nb, fb + j).data.mov == b[fb + j].mov);
        }
    }
}

/// Dropping a descent changes only threads.
pub proof fn lemma_dropped_repriored(before: Seq<NodeModel>, after: Seq<NodeModel>, path: Seq<int>)
    requires
        after.len() == before.len(),
        forall|i: int|
            0 <= i < before.len() ==> #[trigger] after[i] == (if path.contains(i) {
                NodeModel { threads: 0, ..before[i] }
            } else {
                before[i]
            }),
    ensures
        repriored(before, after),
{
    assert forall|i: int| 0 <= i < before.len() implies #[trigger] after[i] == (NodeModel {
        policy: after[i].policy,
        threads: after[i].threads,
        ..before[i]
    }) by {
        if path.contains(i) {
            assert(after[i] == NodeModel { threads: 0, ..before[i] });
        }
    }
}

/// Nodes whose priors and threads were changed twice are what they were but
/// for their priors and threads.
pub proof fn lemma_repriored_twice(a: Seq<NodeModel>, b: Seq<NodeModel>, c: Seq<NodeModel>)
    requires
        repriored(a, b),
        repriored(b, c),
    ensures
        repriored(a, c),
{
    assert forall|i: int| 0 <= i < a.len() implies #[trigger] c[i] == (NodeModel {
        policy: c[i].policy,
        threads: c[i].threads,
        ..a[i]
    }) by {
        assert(b[i] == NodeModel { policy: b[i].policy, threads: b[i].threads, ..a[i] });
        assert(c[i] == NodeModel { policy: c[i].policy, threads: c[i].threads, ..b[i] });
    }
}

/// Nodes of which only the priors were changed are what they were but for
/// their priors and threads.
pub proof fn lemma_priors_repriored(before: Seq<NodeModel>, after: Seq<NodeModel>)
    requires
        after.len() == before.len(),
        forall|i: int|
            0 <= i < before.len() ==> #[trigger] after[i] == (NodeModel {
                policy: after[i].policy,
                ..before[i]
            }),
    ensures
        repriored(before, after),
{
    assert forall|i: int| 0 <= i < before.len() implies #[trigger] after[i] == (NodeModel {
        policy: after[i].policy,
        threads: after[i].threads,
        ..before[i]
    }) by {
        assert(after[i] == NodeModel { policy: after[i].policy, ..before[i] });
    }
}

} // verus!
