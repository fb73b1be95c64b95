use vstd::prelude::*;

use crate::ataxx::moves::Move;
use crate::ataxx::state::GameState;
use crate::tree::node::NodeModel;
use crate::tree::shape::first_child;

verus! {

/// What a node holds apart from its children and its threads.
pub struct NodeData {
    pub state: GameState,
    pub mov: Move,
    pub policy: u16,
    pub visits: int,
    pub summed_q: int,
    pub summed_sq_q: int,
    pub gini_impurity: u32,
}

/// A tree of nodes as such, without the slots that hold it.
pub struct TreeView {
    pub data: NodeData,
    pub children: Seq<TreeView>,
}

/// What a node holds apart from its children and its threads.
pub open spec fn data_of(node: NodeModel) -> NodeData {
    NodeData {
        state: node.state,
        mov: node.mov,
        policy: node.policy,
        visits: node.visits,
        summed_q: node.summed_q,
        summed_sq_q: node.summed_sq_q,
        gini_impurity: node.gini_impurity,
    }
}

/// The tree below the node in slot `i`, among the first `n` slots.
pub open spec fn subtree(nodes: Seq<NodeModel>, n: int, i: int) -> TreeView
    decreases n - i, 0int,
{
    let first = first_child(nodes, i);
    if 0 <= i < first && nodes[i].num_actions > 0 && first + nodes[i].num_actions <= n {
        TreeView {
            data: data_of(nodes[i]),
            children: subtrees(nodes, n, first, nodes[i].num_actions as int),
        }
    } else {
        TreeView { data: data_of(nodes[i]), children: Seq::<TreeView>::empty() }
    }
}

/// The trees below the `count` nodes from slot `first` on.
pub open spec fn subtrees(nodes: Seq<NodeModel>, n: int, first: int, count: int) -> Seq<TreeView>
    decreases n - first, count + 1,
{
    if count <= 0 || first < 0 || first + count > n {
        Seq::<TreeView>::empty()
    } else {
        subtrees(nodes, n, first, count - 1).push(subtree(nodes, n, first + count - 1))
    }
}

/// The trees below nodes in a row are as many as the nodes, and each is the
/// tree below its node.
pub proof fn lemma_subtrees_at(nodes: Seq<NodeModel>, n: int, first: int, count: int, j: int)
    requires
        0 <= first,
        first + count <= n,
        0 <= j < count,
    ensures
        subtrees(nodes, n, first, count).len() == count,
        subtrees(nodes, n, first, count)[j] == subtree(nodes, n, first + j),
    decreases count,
{
    if count > 1 {
        lemma_subtrees_at(nodes, n, first, count - 1, if j < count - 1 {
            j
        } else {
            0
        });
    } else {
        assert(subtrees(nodes, n, first, 0).len() == 0);
    }
}

} // verus!
