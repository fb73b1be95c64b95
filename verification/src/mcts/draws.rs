use vstd::prelude::*;

use crate::ataxx::board::BoardModel;
use crate::ataxx::state::GameState;
use crate::mcts::playout::{
    children_kept, counted_descent, descended, reached, same_children, same_count, same_counts,
    selects_at,
};
use crate::mcts::driver::{best_mean_of, best_move_of};
use crate::mcts::root::{fresh_root, repriored};
use crate::mcts::search::{offered_moves, Playout};
use crate::tree::arena::Tree;
use crate::tree::backup::{counted, level_state, level_value};
use crate::tree::best::{best_among, lemma_best_among};
use crate::tree::node::{NodeModel, QUANT};
use crate::tree::proven::{any_draw, any_ongoing, child_states, min_lost, proven};
use crate::tree::shape::{first_child, is_child_of, steps_down, well_linked};
use crate::tree::view::{data_of, lemma_subtrees_at, subtree, subtrees, TreeView};

verus! {

/// Whether every move that the rules allow in the position leads to a drawn
/// position.
pub open spec fn all_moves_draw(root: BoardModel) -> bool {
    forall|k: int|
        0 <= k < root.legal_moves().len() ==> root.made(
            #[trigger] root.legal_moves()[k],
        ).game_state() == GameState::Draw
}

/// Whether a child of the root stands for a drawn position and holds
/// nothing else: it has no children, it is drawn once it was visited, and
/// every value counted on it was a half.
pub open spec fn drawn_child(node: NodeModel, root: BoardModel) -> bool {
    &&& node.num_actions == 0
    &&& root.made(node.mov).game_state() == GameState::Draw
    &&& node.visits >= 0
    &&& 2 * node.summed_q == QUANT * node.visits
    &&& node.state == (if node.visits == 0 {
        GameState::Ongoing
    } else {
        GameState::Draw
    })
}

/// Whether the tree is that of a position from which every move draws: the
/// root was visited, has children and is ongoing or drawn, and every child
/// is a `drawn_child`.
#[verifier::opaque]
pub open spec fn drawn_root(nodes: Seq<NodeModel>, root: BoardModel) -> bool {
    &&& nodes[0].visits >= 1
    &&& nodes[0].num_actions > 0
    &&& nodes[0].state == GameState::Ongoing || nodes[0].state == GameState::Draw
    &&& forall|c: int| #[trigger] is_child_of(nodes, 0, c) ==> drawn_child(nodes[c], root)
}

/// `drawn_child`, of the tree below the child.
pub open spec fn drawn_leaf(v: TreeView, root: BoardModel) -> bool {
    &&& v.children.len() == 0
    &&& root.made(v.data.mov).game_state() == GameState::Draw
    &&& v.data.visits >= 0
    &&& 2 * v.data.summed_q == QUANT * v.data.visits
    &&& v.data.state == (if v.data.visits == 0 {
        GameState::Ongoing
    } else {
        GameState::Draw
    })
}

/// `drawn_root`, of the tree as such.
pub open spec fn drawn_view(v: TreeView, root: BoardModel) -> bool {
    &&& v.data.visits >= 1
    &&& v.children.len() > 0
    &&& v.data.state == GameState::Ongoing || v.data.state == GameState::Draw
    &&& forall|j: int| 0 <= j < v.children.len() ==> drawn_leaf(#[trigger] v.children[j], root)
}

/// The nodes are those of a position from which every move draws exactly
/// when the tree that they hold is.
pub proof fn lemma_drawn_view(nodes: Seq<NodeModel>, half: bool, n: int, root: BoardModel)
    requires
        well_linked(nodes, half, n),
        0 < n,
    ensures
        drawn_root(nodes, root) == drawn_view(subtree(nodes, n, 0), root),
{
    reveal(drawn_root);
    let v = subtree(nodes, n, 0);
    let f = first_child(nodes, 0);
    let k = nodes[0].num_actions as int;
    assert(v.data == data_of(nodes[0]));
    if k > 0 {
        assert(0 < f && f + k <= n);
        assert(v.children == subtrees(nodes, n, f, k));
        lemma_subtrees_at(nodes, n, f, k, 0);
        assert forall|j: int| 0 <= j < k implies drawn_leaf(#[trigger] v.children[j], root)
            == drawn_child(nodes[f + j], root) by {
            lemma_subtrees_at(nodes, n, f, k, j);
            let c = f + j;
            assert(v.children[j] == subtree(nodes, n, c));
            if nodes[c].num_actions > 0 {
                let fc = first_child(nodes, c);
                let kc = nodes[c].num_actions as int;
                assert(c < fc && fc + kc <= n);
                lemma_subtrees_at(nodes, n, fc, kc, 0);
            }
        }
        if drawn_root(nodes, root) {
            assert forall|j: int| 0 <= j < v.children.len() implies drawn_leaf(
                #[trigger] v.children[j],
                root,
            ) by {
                assert(is_child_of(nodes, 0, f + j));
            }
        }
        if drawn_view(v, root) {
            assert forall|c: int| #[trigger] is_child_of(nodes, 0, c) implies drawn_child(
                nodes[c],
                root,
            ) by {
                assert(drawn_leaf(v.children[c - f], root));
            }
        }
    } else {
        assert(v.children.len() == 0);
    }
}

/// Flipping a tree with the root preserved leaves it that of a position
/// from which every move draws.
pub proof fn lemma_draws_flipped(before: Tree, after: Tree, root: BoardModel)
    requires
        before.wf(),
        after.wf(),
        before.allocated() > 0,
        after.tree_view() == before.tree_view(),
        drawn_root(before.nodes(), root),
    ensures
        after.allocated() > 0,
        drawn_root(after.nodes(), root),
{
    lemma_drawn_view(before.nodes(), before.spec_active(), before.allocated(), root);
    lemma_drawn_view(after.nodes(), after.spec_active(), after.allocated(), root);
}

/// Where no outcome is lost or won, none is proven but a draw.
proof fn lemma_no_decisive(states: Seq<GameState>, k: int)
    requires
        0 <= k <= states.len(),
        forall|j: int|
            0 <= j < k ==> #[trigger] states[j] == GameState::Ongoing || states[j]
                == GameState::Draw,
    ensures
        min_lost(states, k) == 256,
        k > 0 ==> any_ongoing(states, k) || any_draw(states, k),
    decreases k,
{
    if k > 0 {
        lemma_no_decisive(states, k - 1);
        assert(states[k - 1] == GameState::Ongoing || states[k - 1] == GameState::Draw);
    }
}

/// A tree of a position from which every move draws is one still when its
/// nodes have the counts and the children that they had.
pub proof fn lemma_draws_same(
    before: Seq<NodeModel>,
    n0: int,
    half: bool,
    after: Seq<NodeModel>,
    root: BoardModel,
)
    requires
        drawn_root(before, root),
        well_linked(before, half, n0),
        0 < n0,
        same_counts(before, after, n0),
        children_kept(before, after, n0),
    ensures
        drawn_root(after, root),
{
    reveal(drawn_root);
    assert(same_count(before[0], after[0]));
    assert(same_children(before[0], after[0]));
    assert forall|c: int| #[trigger] is_child_of(after, 0, c) implies drawn_child(
        after[c],
        root,
    ) by {
        assert(is_child_of(before, 0, c));
        assert(drawn_child(before[c], root));
        assert(same_count(before[c], after[c]));
        assert(same_children(before[c], after[c]));
    }
}

/// A tree of a position from which every move draws is one still when its
/// children have other priors.
pub proof fn lemma_draws_repriored(
    before: Seq<NodeModel>,
    n0: int,
    half: bool,
    after: Seq<NodeModel>,
    root: BoardModel,
)
    requires
        drawn_root(before, root),
        well_linked(before, half, n0),
        0 < n0 <= before.len(),
        repriored(before, after),
    ensures
        drawn_root(after, root),
{
    reveal(drawn_root);
    assert(after[0] == NodeModel {
        policy: after[0].policy,
        threads: after[0].threads,
        ..before[0]
    });
    assert forall|c: int| #[trigger] is_child_of(after, 0, c) implies drawn_child(
        after[c],
        root,
    ) by {
        assert(is_child_of(before, 0, c));
        assert(after[c] == NodeModel {
            policy: after[c].policy,
            threads: after[c].threads,
            ..before[c]
        });
    }
}

/// A root that has just been made, with a child for each move, is that of a
/// position from which every move draws if every move does.
pub proof fn lemma_draws_seeded(nodes: Seq<NodeModel>, root: BoardModel)
    requires
        fresh_root(nodes, root),
        all_moves_draw(root),
    ensures
        drawn_root(nodes, root),
{
    reveal(drawn_root);
    let moves = offered_moves(root);
    assert forall|c: int| #[trigger] is_child_of(nodes, 0, c) implies drawn_child(
        nodes[c],
        root,
    ) by {
        let j = c - 1;
        assert(nodes[1 + j].mov == moves[j]);
        assert(moves[j] == root.legal_moves()[j]);
    }
}

/// A counted iteration leaves the tree of a position from which every move
/// draws one: it ends at the root or at a child of the root, counts a half
/// there, and proves nothing but a draw.
pub proof fn lemma_draws_counted(
    before: Seq<NodeModel>,
    n0: int,
    half: bool,
    root: BoardModel,
    after: Seq<NodeModel>,
    n: int,
    mid: Seq<NodeModel>,
    path: Seq<int>,
    leaf_state: GameState,
    leaf: int,
)
    requires
        counted_descent(before, n0, root, after, n, mid, path, leaf_state, leaf),
        drawn_root(before, root),
        well_linked(before, half, n0),
        0 < n0,
    ensures
        drawn_root(after, root),
{
    reveal(descended);
    reveal(counted_descent);
    reveal(drawn_root);
    let f = first_child(before, 0);
    let k = before[0].num_actions as int;
    assert(0 < f && f + k <= n0);
    assert(same_count(before[0], mid[0]));
    assert(same_children(before[0], mid[0]));
    assert forall|c: int| #[trigger] is_child_of(mid, 0, c) implies drawn_child(mid[c], root) by {
        assert(is_child_of(before, 0, c));
        assert(drawn_child(before[c], root));
        assert(same_count(before[c], mid[c]));
        assert(same_children(before[c], mid[c]));
    }
    assert(path[0] == 0);
    if path.len() == 1 {
        assert(path.last() == 0);
        assert(after[path[0]] == counted(
            mid[path[0]],
            level_value(path.len() as int, 0, leaf),
            level_state(mid, after, path, 0, leaf_state),
        ));
        assert forall|c: int| #[trigger] is_child_of(after, 0, c) implies drawn_child(
            after[c],
            root,
        ) by {
            assert(is_child_of(mid, 0, c));
            if path.contains(c) {
                let e = choose|e: int| 0 <= e < path.len() && path[e] == c;
            }
            assert(after[c] == mid[c]);
        }
    } else {
        assert(steps_down(mid, path, 0));
        let c1 = path[1];
        assert(is_child_of(mid, 0, c1));
        assert(drawn_child(mid[c1], root));
        if path.len() > 2 {
            assert(selects_at(mid, path, 1));
        }
        assert(path.len() == 2);
        assert(path.last() == c1);
        assert(path.drop_last().len() == 1);
        assert(reached(root, mid, path) == reached(root, mid, path.drop_last()).made(
            mid[c1].mov,
        ));
        assert(reached(root, mid, path.drop_last()) == root);
        assert(leaf_state == GameState::Draw);
        assert(leaf == QUANT / 2);
        assert(after[path[1]] == counted(
            mid[path[1]],
            level_value(path.len() as int, 1, leaf),
            level_state(mid, after, path, 1, leaf_state),
        ));
        assert(after[path[0]] == counted(
            mid[path[0]],
            level_value(path.len() as int, 0, leaf),
            level_state(mid, after, path, 0, leaf_state),
        ));
        assert(drawn_child(after[c1], root));
        assert forall|c: int| #[trigger] is_child_of(mid, 0, c) implies drawn_child(
            after[c],
            root,
        ) by {
            if c != c1 {
                if path.contains(c) {
                    let e = choose|e: int| 0 <= e < path.len() && path[e] == c;
                }
                assert(after[c] == mid[c]);
            }
        }
        let states = child_states(after, first_child(mid, 0), mid[0].num_actions as int);
        assert forall|j: int| 0 <= j < states.len() implies #[trigger] states[j]
            == GameState::Ongoing || states[j] == GameState::Draw by {
            assert(is_child_of(mid, 0, f + j));
            assert(drawn_child(after[f + j], root));
        }
        lemma_no_decisive(states, states.len() as int);
        assert(proven(states) == GameState::Ongoing || proven(states) == GameState::Draw);
        assert forall|c: int| #[trigger] is_child_of(after, 0, c) implies drawn_child(
            after[c],
            root,
        ) by {
            assert(is_child_of(mid, 0, c));
        }
    }
}

/// An iteration, whatever its outcome, leaves the tree of a position from
/// which every move draws one.
pub proof fn lemma_draws_iterated(
    before: Seq<NodeModel>,
    n0: int,
    half: bool,
    root: BoardModel,
    after: Seq<NodeModel>,
    n: int,
    r: Playout,
)
    requires
        drawn_root(before, root),
        well_linked(before, half, n0),
        0 < n0,
        children_kept(before, after, n0),
        !(r matches Playout::Done(_)) ==> same_counts(before, after, n0),
        r matches Playout::Done(depth) ==> exists|
            mid: Seq<NodeModel>,
            path: Seq<int>,
            leaf_state: GameState,
            leaf: int,
        |
            {
                &&& path.len() == depth
                &&& #[trigger] counted_descent(
                    before,
                    n0,
                    root,
                    after,
                    n,
                    mid,
                    path,
                    leaf_state,
                    leaf,
                )
            },
    ensures
        drawn_root(after, root),
{
    match r {
        Playout::Done(depth) => {
            let (mid, path, leaf_state, leaf) = choose|
                mid: Seq<NodeModel>,
                path: Seq<int>,
                leaf_state: GameState,
                leaf: int,
            |
                {
                    &&& path.len() == depth
                    &&& #[trigger] counted_descent(
                        before,
                        n0,
                        root,
                        after,
                        n,
                        mid,
                        path,
                        leaf_state,
                        leaf,
                    )
                };
            lemma_draws_counted(before, n0, half, root, after, n, mid, path, leaf_state, leaf);
        },
        _ => {
            lemma_draws_same(before, n0, half, after, root);
        },
    }
}

/// In the tree of a position from which every move draws, the mean of the
/// best child of the root is a half.
pub proof fn lemma_draws_mean(tree: Tree, root: BoardModel)
    requires
        drawn_root(tree.nodes(), root),
        tree.allocated() > 0,
    ensures
        best_move_of(&tree) is Some ==> best_mean_of(&tree) == QUANT / 2,
{
    reveal(drawn_root);
    let nodes = tree.nodes();
    let f = first_child(nodes, 0);
    let k = nodes[0].num_actions as int;
    lemma_best_among(nodes, f, k);
    match best_among(nodes, f, k) {
        Some(b) => {
            let c = f + b;
            assert(is_child_of(nodes, 0, c));
            assert(drawn_child(nodes[c], root));
            let v = nodes[c].visits;
            assert(nodes[c].summed_q == 2048 * v);
            assert((2048 * v) / v == 2048) by (nonlinear_arith)
                requires
                    v > 0,
            ;
        },
        None => {},
    }
}

} // verus!
