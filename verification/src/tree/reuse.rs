use vstd::prelude::*;

use crate::ataxx::board::{Board, BoardModel};
use crate::ataxx::state::GameState;
use crate::tree::arena::Tree;
use crate::tree::flip::{lemma_subtree_frame, lemma_subtrees_frame, same_node};
use crate::tree::node::{NodeModel, NodePtr};
use crate::tree::shape::{
    child_visits, first_child, in_flight, is_child_of, lemma_child_visits_frame, tree_shape,
};
use crate::tree::view::subtree;

verus! {

/// The slot of the node at which the position `target` stands, if it is
/// reached from the node in slot `i`, where `board` stands, by `depth` moves
/// at most: the node itself, or else what is found below the first child
/// below which something is found.
pub open spec fn find_position(
    nodes: Seq<NodeModel>,
    n: int,
    i: int,
    board: BoardModel,
    target: BoardModel,
    depth: nat,
) -> Option<int>
    decreases depth, 0int,
{
    if board == target {
        Some(i)
    } else if depth == 0 || !(0 <= i < n) {
        None
    } else {
        find_below(
            nodes,
            n,
            first_child(nodes, i),
            nodes[i].num_actions as int,
            0,
            board,
            target,
            (depth - 1) as nat,
        )
    }
}

/// What is found below the children from number `j` on of a node at which
/// `board` stands.
pub open spec fn find_below(
    nodes: Seq<NodeModel>,
    n: int,
    first: int,
    count: int,
    j: int,
    board: BoardModel,
    target: BoardModel,
    depth: nat,
) -> Option<int>
    decreases depth, 1 + count - j,
{
    if j < 0 || j >= count || first < 0 || first + count > n {
        None
    } else {
        let mov = nodes[first + j].mov;
        let found = if board.can_make(mov) {
            find_position(nodes, n, first + j, board.made(mov), target, depth)
        } else {
            None
        };
        if found is Some {
            found
        } else {
            find_below(nodes, n, first, count, j + 1, board, target, depth)
        }
    }
}

/// The nodes after the node in slot `f` was made the root: the root holds
/// what that node held and has its children, and that node has none.
pub open spec fn rerooted(nodes: Seq<NodeModel>, f: int) -> Seq<NodeModel> {
    if f == 0 {
        nodes
    } else {
        nodes.update(0, nodes[f]).update(
            f,
            NodeModel { actions: NodePtr::null(), num_actions: 0, ..nodes[f] },
        )
    }
}

/// A node found below the root lies in the tree.
pub proof fn lemma_find_in_tree(
    nodes: Seq<NodeModel>,
    n: int,
    i: int,
    board: BoardModel,
    target: BoardModel,
    depth: nat,
)
    requires
        0 <= i < n,
    ensures
        find_position(nodes, n, i, board, target, depth) matches Some(f) ==> 0 <= f < n,
    decreases depth, 0int,
{
    if board != target && depth > 0 {
        lemma_find_below_in_tree(
            nodes,
            n,
            first_child(nodes, i),
            nodes[i].num_actions as int,
            0,
            board,
            target,
            (depth - 1) as nat,
        );
    }
}

/// A node found below children lies in the tree.
pub proof fn lemma_find_below_in_tree(
    nodes: Seq<NodeModel>,
    n: int,
    first: int,
    count: int,
    j: int,
    board: BoardModel,
    target: BoardModel,
    depth: nat,
)
    ensures
        find_below(nodes, n, first, count, j, board, target, depth) matches Some(f) ==> 0 <= f
            < n,
    decreases depth, 1 + count - j,
{
    if !(j < 0 || j >= count || first < 0 || first + count > n) {
        let mov = nodes[first + j].mov;
        if board.can_make(mov) {
            lemma_find_in_tree(nodes, n, first + j, board.made(mov), target, depth);
        }
        lemma_find_below_in_tree(nodes, n, first, count, j + 1, board, target, depth);
    }
}

/// Making a node of the tree the root keeps the shape of the tree, and
/// leaves the tree below that node as the whole tree.
pub proof fn lemma_rerooted(nodes: Seq<NodeModel>, half: bool, n: int, f: int)
    requires
        tree_shape(nodes, half, n, Seq::<int>::empty()),
        0 <= f < n,
    ensures
        tree_shape(rerooted(nodes, f), half, n, Seq::<int>::empty()),
        subtree(rerooted(nodes, f), n, 0) == subtree(nodes, n, f),
{
    if f > 0 {
        let after = rerooted(nodes, f);
        let empty = Seq::<int>::empty();
        assert(nodes[f].in_range());
        assert forall|i: int| 0 <= i < n && (#[trigger] after[i]).num_actions > 0 implies {
            &&& after[i].actions.spec_half() == half
            &&& i < first_child(after, i)
            &&& first_child(after, i) + after[i].num_actions <= n
        } by {
            if i == 0 {
                assert(nodes[f].num_actions > 0);
            } else {
                assert(nodes[i].num_actions > 0);
            }
        }
        assert forall|p: int, q: int, c: int|
            0 <= p < n && 0 <= q < n && #[trigger] is_child_of(after, p, c)
                && #[trigger] is_child_of(after, q, c) implies p == q by {
            let op = if p == 0 {
                f
            } else {
                p
            };
            let oq = if q == 0 {
                f
            } else {
                q
            };
            assert(is_child_of(nodes, op, c) && is_child_of(nodes, oq, c));
        }
        assert forall|i: int| 0 <= i < n && (#[trigger] after[i]).num_actions > 0 implies after[i].visits
            + (if i == -1 {
            1int
        } else {
            0int
        }) >= 1 + child_visits(after, first_child(after, i), after[i].num_actions as int) by {
            let oi = if i == 0 {
                f
            } else {
                i
            };
            assert(nodes[oi].num_actions > 0);
            let a = first_child(nodes, oi);
            let k = nodes[oi].num_actions as int;
            assert forall|j: int| a <= j < a + k implies (#[trigger] nodes[j]).visits
                == after[j].visits by {}
            lemma_child_visits_frame(nodes, after, a, k);
        }
        assert forall|i: int| 0 <= i < n implies (#[trigger] after[i]).in_range() && (
        after[i].visits == 0 ==> after[i].state == GameState::Ongoing) by {
            assert(nodes[i].in_range());
        }
        assert forall|i: int| 0 <= i < n implies (#[trigger] after[i]).threads == (if in_flight(
            empty,
            0,
            i,
        ) {
            1nat
        } else {
            0nat
        }) by {
            assert(nodes[i].threads == 0);
            assert(nodes[f].threads == 0);
        }
        let first = first_child(nodes, f);
        let k = nodes[f].num_actions as int;
        if k > 0 {
            assert forall|j: int| f + 1 <= j < n implies #[trigger] same_node(after[j], nodes[j]) by {}
            lemma_subtrees_frame(after, nodes, n, f + 1, first, k);
        }
    }
}

impl Tree {
    /// Looks for the position `target` below the node in slot `idx`, at
    /// which `board` stands.
    fn find(&self, idx: usize, board: &Board, target: &Board, depth: u8) -> (r: Option<usize>)
        requires
            self.wf(),
            idx < self.allocated(),
        ensures
            match r {
                Some(f) => find_position(
                    self.nodes(),
                    self.allocated(),
                    idx as int,
                    board@,
                    target@,
                    depth as nat,
                ) == Some(f as int),
                None => find_position(
                    self.nodes(),
                    self.allocated(),
                    idx as int,
                    board@,
                    target@,
                    depth as nat,
                ) is None,
            },
        decreases depth,
    {
        proof {
            self.lemma_capacity();
            if board@ == target@ {
                Board::lemma_ext(*board, *target);
            }
        }
        if *board == *target {
            return Some(idx);
        }
        if depth == 0 {
            return None;
        }
        let node = self.slot(idx);
        let k = node.num_actions();
        let first = node.actions().idx();
        assert(k > 0 ==> first + k <= self.allocated()) by {
            assert(self.nodes()[idx as int].num_actions == k);
        }
        let ghost nodes = self.nodes();
        let ghost n = self.allocated();
        let ghost goal = find_position(nodes, n, idx as int, board@, target@, depth as nat);
        assert(goal == find_below(
            nodes,
            n,
            first as int,
            k as int,
            0,
            board@,
            target@,
            (depth - 1) as nat,
        ));
        let mut j: usize = 0;
        while j < k
            invariant
                j <= k <= 255,
                self.wf(),
                goal == find_position(nodes, n, idx as int, board@, target@, depth as nat),
                goal == find_below(
                    nodes,
                    n,
                    first as int,
                    k as int,
                    0,
                    board@,
                    target@,
                    (depth - 1) as nat,
                ),
                nodes == self.nodes(),
                n == self.allocated(),
                depth > 0,
                k > 0 ==> first + k <= n <= self.capacity() <= 0x7fff_ffff,
                find_below(nodes, n, first as int, k as int, 0, board@, target@, (depth - 1) as nat)
                    == find_below(
                    nodes,
                    n,
                    first as int,
                    k as int,
                    j as int,
                    board@,
                    target@,
                    (depth - 1) as nat,
                ),
            decreases k - j,
        {
            let mov = self.slot(first + j).parent_move();
            if board.can_make(mov) {
                let mut next = *board;
                next.make(mov);
                let found = self.find(first + j, &next, target, depth - 1);
                if found.is_some() {
                    assert(find_below(
                        nodes,
                        n,
                        first as int,
                        k as int,
                        j as int,
                        board@,
                        target@,
                        (depth - 1) as nat,
                    ) == Some(found->0 as int));
                    return found;
                }
            }
            assert(find_below(
                nodes,
                n,
                first as int,
                k as int,
                j as int,
                board@,
                target@,
                (depth - 1) as nat,
            ) == find_below(
                nodes,
                n,
                first as int,
                k as int,
                j + 1,
                board@,
                target@,
                (depth - 1) as nat,
            ));
            j = j + 1;
        }
        None
    }

    /// Takes `pos` as the position at the root and keeps what the tree holds
    /// for it. With a descent dropped, the tree is searched for the node at
    /// which `pos` stands: the root, if `pos` is the position `prev` that
    /// stood there, or a node one or two moves below it. The tree below that
    /// node stays, as the whole tree; if there is no such node, or no `prev`,
    /// the tree is emptied. Returns whether the tree was kept.
    pub fn try_use_subtree(&mut self, pos: &Board, prev: &Option<Board>) -> (kept: bool)
        requires
            old(self).wf(),
        ensures
            final(self).wf(),
            !final(self).descending(),
            final(self).capacity() == old(self).capacity(),
            final(self).cache() == old(self).cache(),
            final(self).spec_root_position() == pos@,
            kept == (old(self).allocated() > 0 && prev is Some && find_position(
                old(self).nodes(),
                old(self).allocated(),
                0,
                prev->0@,
                pos@,
                2,
            ) is Some),
            kept ==> {
                let f = find_position(
                    old(self).nodes(),
                    old(self).allocated(),
                    0,
                    prev->0@,
                    pos@,
                    2,
                )->0;
                &&& final(self).spec_active() == old(self).spec_active()
                &&& final(self).allocated() == old(self).allocated()
                &&& final(self).tree_view() == Some(
                    subtree(old(self).nodes(), old(self).allocated(), f),
                )
            },
            !kept ==> final(self).allocated() == 0 && final(self).spec_used() == 0
                && !final(self).spec_active(),
    {
        self.abandon();
        self.set_root_position(pos);
        proof {
            self.lemma_capacity();
        }
        let ghost rested = self.nodes();
        let ghost n = self.allocated();
        proof {
            assert forall|j: int| 0 <= j < n implies #[trigger] same_node(
                old(self).nodes()[j],
                rested[j],
            ) by {}
            if n > 0 {
                lemma_find_frame(old(self).nodes(), rested, n, 0, prev, pos@);
            }
        }
        let found = match prev {
            Some(board) => if self.len() > 0 {
                self.find(0, board, pos, 2)
            } else {
                None
            },
            None => None,
        };
        match found {
            None => {
                self.clear();
                false
            },
            Some(f) => {
                proof {
                    lemma_find_in_tree(rested, n, 0, prev->0@, pos@, 2);
                    lemma_rerooted(rested, self.spec_active(), n, f as int);
                    lemma_subtree_frame(old(self).nodes(), rested, n, 0, f as int);
                }
                if f != 0 {
                    let node = *self.slot(f);
                    let root = self.slot_mut(0);
                    *root = node;
                    let moved = self.slot_mut(f);
                    moved.clear_actions();
                    assert(self.nodes() =~= rerooted(rested, f as int));
                }
                true
            },
        }
    }
}

/// What is found in a tree does not depend on the threads of its nodes.
pub proof fn lemma_find_frame(
    a: Seq<NodeModel>,
    b: Seq<NodeModel>,
    n: int,
    i: int,
    prev: &Option<Board>,
    target: BoardModel,
)
    requires
        forall|j: int| 0 <= j < n ==> #[trigger] same_node(a[j], b[j]),
        0 <= i < n,
    ensures
        prev matches Some(board) ==> find_position(a, n, i, board@, target, 2) == find_position(
            b,
            n,
            i,
            board@,
            target,
            2,
        ),
{
    match prev {
        Some(board) => {
            lemma_find_same(a, b, n, i, board@, target, 2);
        },
        None => {},
    }
}

proof fn lemma_find_same(
    a: Seq<NodeModel>,
    b: Seq<NodeModel>,
    n: int,
    i: int,
    board: BoardModel,
    target: BoardModel,
    depth: nat,
)
    requires
        forall|j: int| 0 <= j < n ==> #[trigger] same_node(a[j], b[j]),
    ensures
        find_position(a, n, i, board, target, depth) == find_position(b, n, i, board, target, depth),
    decreases depth, 0int,
{
    if board != target && depth > 0 && 0 <= i < n {
        assert(same_node(a[i], b[i]));
        lemma_find_below_same(
            a,
            b,
            n,
            first_child(a, i),
            a[i].num_actions as int,
            0,
            board,
            target,
            (depth - 1) as nat,
        );
    }
}

proof fn lemma_find_below_same(
    a: Seq<NodeModel>,
    b: Seq<NodeModel>,
    n: int,
    first: int,
    count: int,
    j: int,
    board: BoardModel,
    target: BoardModel,
    depth: nat,
)
    requires
        forall|j: int| 0 <= j < n ==> #[trigger] same_node(a[j], b[j]),
    ensures
        find_below(a, n, first, count, j, board, target, depth) == find_below(
            b,
            n,
            first,
            count,
            j,
            board,
            target,
            depth,
        ),
    decreases depth, 1 + count - j,
{
    if !(j < 0 || j >= count || first < 0 || first + count > n) {
        assert(same_node(a[first + j], b[first + j]));
        let mov = a[first + j].mov;
        if board.can_make(mov) {
            lemma_find_same(a, b, n, first + j, board.made(mov), target, depth);
        }
        lemma_find_below_same(a, b, n, first, count, j + 1, board, target, depth);
    }
}

} // verus!
