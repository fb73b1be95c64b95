use vstd::prelude::*;

use crate::ataxx::moves::Move;
use crate::ataxx::state::GameState;
use crate::tree::arena::Tree;
use crate::tree::node::{Node, NodeModel, NodePtr, QUANT};
use crate::tree::shape::first_child;

verus! {

/// How good a visited child is for the side that chooses among the children,
/// times `QUANT`: a child that is lost for its own side above every mean, the
/// sooner lost the better; a child that is won for its own side below every
/// mean, the later won the better; a drawn child a half; any other its mean.
pub open spec fn child_key(node: NodeModel) -> int {
    match node.state {
        GameState::Lost(n) => (257 - n) * QUANT,
        GameState::Won(n) => (n - 256) * QUANT,
        GameState::Draw => QUANT / 2,
        GameState::Ongoing => node.q(),
    }
}

/// Whether the child `a` is to be preferred to the child `b`: for its key, or
/// with equal keys for its visits.
pub open spec fn better(a: NodeModel, b: NodeModel) -> bool {
    child_key(a) > child_key(b) || (child_key(a) == child_key(b) && a.visits > b.visits)
}

/// The number of the best among the first `k` of the children from slot
/// `first` on: a visited child to which no other visited one is preferred,
/// and the first such; `None` if none was visited.
pub open spec fn best_among(nodes: Seq<NodeModel>, first: int, k: int) -> Option<int>
    decreases k,
{
    if k <= 0 {
        None
    } else {
        let prev = best_among(nodes, first, k - 1);
        if nodes[first + k - 1].visits == 0 {
            prev
        } else {
            match prev {
                None => Some(k - 1),
                Some(b) => if better(nodes[first + k - 1], nodes[first + b]) {
                    Some(k - 1)
                } else {
                    Some(b)
                },
            }
        }
    }
}

/// The number of the best child of the node in slot `i`.
pub open spec fn best_child(nodes: Seq<NodeModel>, i: int) -> Option<int> {
    best_among(nodes, first_child(nodes, i), nodes[i].num_actions as int)
}

/// The principal line below the node in slot `i`: the move to its best
/// child, then the line below that child, as long as `depth` allows or, if
/// `mate` is set, as far as it goes.
pub open spec fn pv_from(nodes: Seq<NodeModel>, n: int, i: int, depth: nat, mate: bool) -> Seq<
    Move,
>
    decreases n - i,
{
    if 0 <= i < n && (mate || depth > 0) {
        match best_child(nodes, i) {
            Some(b) => {
                let c = first_child(nodes, i) + b;
                if i < c < n {
                    seq![nodes[c].mov] + pv_from(
                        nodes,
                        n,
                        c,
                        if depth > 0 {
                            (depth - 1) as nat
                        } else {
                            0
                        },
                        mate,
                    )
                } else {
                    Seq::<Move>::empty()
                }
            },
            None => Seq::<Move>::empty(),
        }
    } else {
        Seq::<Move>::empty()
    }
}

/// What a search reports as its result.
#[derive(Clone, Copy, PartialEq, Eq, Debug, Structural)]
pub enum Score {
    /// The side to move wins in this many moves of its own.
    Mate(usize),
    /// The side to move loses in this many moves of its own.
    Mated(usize),
    /// The expected result for the side to move, times `QUANT`.
    Value(i64),
}

/// The score that goes with a principal line of `len` moves whose first move
/// leads to the node `best`: a win if that node is lost for the side to move
/// there, a loss if it is won, a half if it is drawn, and its mean otherwise.
/// Without a first move the score is the value of the root, seen from the
/// side to move.
pub open spec fn score_of(root: NodeModel, best: Option<NodeModel>, len: nat) -> Score {
    match best {
        Some(node) => match node.state {
            GameState::Lost(_) => Score::Mate(((len + 1) / 2) as usize),
            GameState::Won(_) => Score::Mated((len / 2) as usize),
            GameState::Draw => Score::Value(2048),
            GameState::Ongoing => Score::Value(node.q() as i64),
        },
        None => Score::Value((QUANT - root.q()) as i64),
    }
}

/// What the best among the children is: it was visited, it is preferred to
/// every visited child before it, and no child after it is preferred to it.
pub proof fn lemma_best_among(nodes: Seq<NodeModel>, first: int, k: int)
    ensures
        match best_among(nodes, first, k) {
            None => forall|j: int| 0 <= j < k ==> (#[trigger] nodes[first + j]).visits == 0,
            Some(b) => {
                &&& 0 <= b < k
                &&& nodes[first + b].visits != 0
                &&& forall|j: int|
                    0 <= j < k && (#[trigger] nodes[first + j]).visits != 0 ==> !better(
                        nodes[first + j],
                        nodes[first + b],
                    )
                &&& forall|j: int|
                    0 <= j < b && (#[trigger] nodes[first + j]).visits != 0 ==> better(
                        nodes[first + b],
                        nodes[first + j],
                    )
            },
        },
    decreases k,
{
    if k > 0 {
        lemma_best_among(nodes, first, k - 1);
        let prev = best_among(nodes, first, k - 1);
        let last = nodes[first + k - 1];
        match best_among(nodes, first, k) {
            None => {
                assert forall|j: int| 0 <= j < k implies (#[trigger] nodes[first + j]).visits
                    == 0 by {
                    if j < k - 1 {
                    }
                }
            },
            Some(b) => {
                assert forall|j: int|
                    0 <= j < k && (#[trigger] nodes[first + j]).visits != 0 implies !better(
                    nodes[first + j],
                    nodes[first + b],
                ) by {
                    if j < k - 1 {
                        match prev {
                            Some(pb) => {
                                assert(!better(nodes[first + j], nodes[first + pb]));
                            },
                            None => {},
                        }
                    }
                }
                assert forall|j: int|
                    0 <= j < b && (#[trigger] nodes[first + j]).visits != 0 implies better(
                    nodes[first + b],
                    nodes[first + j],
                ) by {
                    match prev {
                        Some(pb) => {
                            if b == k - 1 {
                                assert(!better(nodes[first + j], nodes[first + pb]));
                                if j < pb {
                                    assert(better(nodes[first + pb], nodes[first + j]));
                                }
                            }
                        },
                        None => {},
                    }
                }
            },
        }
    }
}

/// The key of a child, for comparing children with one another.
pub fn key_of(node: &Node) -> (key: i64)
    ensures
        key == child_key(node@),
{
    match node.state() {
        GameState::Lost(n) => (257 - n as i64) * QUANT,
        GameState::Won(n) => (n as i64 - 256) * QUANT,
        GameState::Draw => QUANT / 2,
        GameState::Ongoing => node.q(),
    }
}

impl Tree {
    /// The number of the best child of a node, if one of its children was
    /// visited.
    pub fn get_best_child(&self, ptr: NodePtr) -> (r: Option<usize>)
        requires
            self.wf(),
        ensures
            match r {
                Some(b) => self.holds(ptr) && best_child(self.nodes(), ptr.spec_idx()) == Some(
                    b as int,
                ) && b < self.nodes()[ptr.spec_idx()].num_actions,
                None => !self.holds(ptr) || best_child(self.nodes(), ptr.spec_idx()) is None,
            },
    {
        proof {
            self.lemma_capacity();
        }
        if !self.contains(ptr) {
            return None;
        }
        let node = self.slot(ptr.idx());
        let k = node.num_actions();
        let first = node.actions().idx();
        assert(k > 0 ==> first + k <= self.allocated()) by {
            assert(self.nodes()[ptr.spec_idx()].num_actions == k);
        }
        let mut best: Option<usize> = None;
        let mut j: usize = 0;
        while j < k
            invariant
                j <= k <= 255,
                k > 0 ==> first + k <= self.allocated() <= self.capacity() <= 0x7fff_ffff,
                match best_among(self.nodes(), first as int, j as int) {
                    Some(b) => best == Some(b as usize) && 0 <= b < j,
                    None => best is None,
                },
            decreases k - j,
        {
            let child = self.slot(first + j);
            if child.visits() != 0 {
                match best {
                    None => {
                        best = Some(j);
                    },
                    Some(b) => {
                        let held = self.slot(first + b);
                        let ck = key_of(child);
                        let hk = key_of(held);
                        if ck > hk || (ck == hk && child.visits() > held.visits()) {
                            best = Some(j);
                        }
                    },
                }
            }
            j = j + 1;
        }
        best
    }

    /// The best child of a node that has a visited child: its handle, the
    /// move that leads to it, and its mean.
    pub fn get_best_action(&self, ptr: NodePtr) -> (r: Option<(NodePtr, Move, i64)>)
        requires
            self.wf(),
        ensures
            r is Some <==> self.holds(ptr) && best_child(self.nodes(), ptr.spec_idx()) is Some,
            r matches Some(found) ==> {
                let c = first_child(self.nodes(), ptr.spec_idx()) + best_child(
                    self.nodes(),
                    ptr.spec_idx(),
                )->0;
                let (child, mov, mean) = found;
                &&& ptr.spec_idx() < c < self.allocated()
                &&& child == NodePtr::at(self.spec_active(), c)
                &&& self.holds(child)
                &&& mov == self.nodes()[c].mov
                &&& mean == self.nodes()[c].q()
            },
    {
        proof {
            self.lemma_capacity();
        }
        match self.get_best_child(ptr) {
            None => None,
            Some(b) => {
                let node = self.slot(ptr.idx());
                assert(self.nodes()[ptr.spec_idx()].num_actions > 0);
                let c = node.actions().idx() + b;
                let child = self.slot(c);
                proof {
                    NodePtr::lemma_at(self.spec_active(), c as int);
                }
                Some((NodePtr::new(self.upper_active(), c as u32), child.parent_move(), child.q()))
            },
        }
    }

    /// The principal line from the root: the moves to the best child and on
    /// to its best child, `depth` moves at most, or as far as the line goes if
    /// the root is decided.
    pub fn get_pv(&self, depth: usize) -> (pv: Vec<Move>)
        requires
            self.wf(),
        ensures
            pv@ == (if self.allocated() > 0 {
                pv_from(
                    self.nodes(),
                    self.allocated(),
                    0,
                    depth as nat,
                    self.nodes()[0].state.is_terminal(),
                )
            } else {
                Seq::<Move>::empty()
            }),
    {
        let mut pv: Vec<Move> = Vec::new();
        proof {
            self.lemma_capacity();
        }
        if self.len() == 0 {
            return pv;
        }
        let mate = self.slot(0).is_terminal();
        let mut left = depth;
        let mut ptr = self.root_node();
        proof {
            NodePtr::lemma_at(self.spec_active(), 0);
        }
        let ghost n = self.allocated();
        let ghost nodes = self.nodes();
        loop
            invariant
                self.wf(),
                n == self.allocated(),
                nodes == self.nodes(),
                self.holds(ptr),
                pv_from(nodes, n, 0, depth as nat, mate) == pv@ + pv_from(
                    nodes,
                    n,
                    ptr.spec_idx(),
                    left as nat,
                    mate,
                ),
            ensures
                pv@ == pv_from(nodes, n, 0, depth as nat, mate),
            decreases n - ptr.spec_idx(),
        {
            if !(mate || left > 0) {
                break;
            }
            match self.get_best_action(ptr) {
                None => {
                    break;
                },
                Some((child, mov, _)) => {
                    let ghost before = pv@;
                    let ghost i = ptr.spec_idx();
                    let ghost c = first_child(nodes, i) + best_child(nodes, i)->0;
                    let ghost rest = if left > 0 {
                        (left - 1) as nat
                    } else {
                        0nat
                    };
                    proof {
                        self.lemma_capacity();
                        NodePtr::lemma_at(self.spec_active(), c);
                        assert(pv_from(nodes, n, i, left as nat, mate) == seq![mov] + pv_from(
                            nodes,
                            n,
                            c,
                            rest,
                            mate,
                        ));
                    }
                    pv.push(mov);
                    ptr = child;
                    left = if left > 0 {
                        left - 1
                    } else {
                        0
                    };
                    assert(pv@ + pv_from(nodes, n, c, rest, mate) =~= before + (seq![mov] + pv_from(
                        nodes,
                        n,
                        c,
                        rest,
                        mate,
                    )));
                },
            }
        }
        pv
    }

    /// The principal line from the root and the score that goes with it.
    pub fn get_score(&self, depth: usize) -> (r: (Vec<Move>, Score))
        requires
            self.wf(),
            self.allocated() > 0,
        ensures
            r.0@ == pv_from(
                self.nodes(),
                self.allocated(),
                0,
                depth as nat,
                self.nodes()[0].state.is_terminal(),
            ),
            r.1 == score_of(
                self.nodes()[0],
                match best_child(self.nodes(), 0) {
                    Some(b) => Some(self.nodes()[first_child(self.nodes(), 0) + b]),
                    None => None,
                },
                r.0@.len(),
            ),
    {
        let pv = self.get_pv(depth);
        proof {
            self.lemma_capacity();
            NodePtr::lemma_at(self.spec_active(), 0);
        }
        let score = match self.get_best_action(self.root_node()) {
            Some((child, _, mean)) => {
                proof {
                    let c = first_child(self.nodes(), 0) + best_child(self.nodes(), 0)->0;
                    NodePtr::lemma_at(self.spec_active(), c);
                }
                match self.node(child).state() {
                    GameState::Lost(_) => Score::Mate(pv.len() / 2 + pv.len() % 2),
                    GameState::Won(_) => Score::Mated(pv.len() / 2),
                    GameState::Draw => Score::Value(QUANT / 2),
                    GameState::Ongoing => Score::Value(mean),
                }
            },
            None => Score::Value(QUANT - self.slot(0).q()),
        };
        (pv, score)
    }
}

} // verus!
