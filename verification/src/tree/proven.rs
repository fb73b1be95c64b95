use vstd::prelude::*;

use crate::ataxx::state::GameState;
use crate::tree::arena::Tree;
use crate::tree::node::NodeModel;
use crate::tree::shape::{first_child, well_linked};

verus! {

/// The outcomes of the `count` nodes from slot `first` on.
pub open spec fn child_states(nodes: Seq<NodeModel>, first: int, count: int) -> Seq<GameState> {
    Seq::new(count as nat, |j: int| nodes[first + j].state)
}

/// The least distance of a lost state among the first `k`; 256 if none is
/// lost.
pub open spec fn min_lost(states: Seq<GameState>, k: int) -> int
    decreases k,
{
    if k <= 0 {
        256
    } else {
        let rest = min_lost(states, k - 1);
        match states[k - 1] {
            GameState::Lost(n) => if n < rest {
                n as int
            } else {
                rest
            },
            _ => rest,
        }
    }
}

/// The greatest distance of a won state among the first `k`; -1 if none is
/// won.
pub open spec fn max_won(states: Seq<GameState>, k: int) -> int
    decreases k,
{
    if k <= 0 {
        -1
    } else {
        let rest = max_won(states, k - 1);
        match states[k - 1] {
            GameState::Won(n) => if n > rest {
                n as int
            } else {
                rest
            },
            _ => rest,
        }
    }
}

/// Whether one of the first `k` states is ongoing.
pub open spec fn any_ongoing(states: Seq<GameState>, k: int) -> bool
    decreases k,
{
    k > 0 && (states[k - 1] == GameState::Ongoing || any_ongoing(states, k - 1))
}

/// Whether one of the first `k` states is a draw.
pub open spec fn any_draw(states: Seq<GameState>, k: int) -> bool
    decreases k,
{
    k > 0 && (states[k - 1] == GameState::Draw || any_draw(states, k - 1))
}

/// A distance one ply longer, held at 255.
pub open spec fn one_more(n: int) -> u8 {
    if n >= 254 {
        255
    } else {
        (n + 1) as u8
    }
}

/// The outcome of a position that the outcomes after each of its moves
/// prove. A move into a lost position wins, the sooner the better. Without
/// one, an ongoing position after some move leaves the outcome open; else a
/// move into a draw draws; else every move loses, the later the better.
pub open spec fn proven(states: Seq<GameState>) -> GameState {
    let k = states.len() as int;
    if min_lost(states, k) < 256 {
        GameState::Won(one_more(min_lost(states, k)))
    } else if k == 0 || any_ongoing(states, k) {
        GameState::Ongoing
    } else if any_draw(states, k) {
        GameState::Draw
    } else {
        GameState::Lost(one_more(max_won(states, k)))
    }
}

/// A decided outcome stays; an open one gives way to what was found.
pub open spec fn settled(before: GameState, found: GameState) -> GameState {
    if before.is_terminal() {
        before
    } else {
        found
    }
}

/// The outcomes of a block depend on the nodes of the block alone.
pub proof fn lemma_child_states_frame(a: Seq<NodeModel>, b: Seq<NodeModel>, first: int, count: int)
    requires
        0 <= count,
        forall|j: int| first <= j < first + count ==> (#[trigger] a[j]).state == b[j].state,
    ensures
        child_states(a, first, count) == child_states(b, first, count),
{
    assert(child_states(a, first, count) =~= child_states(b, first, count));
}

proof fn lemma_bounds(states: Seq<GameState>, k: int)
    ensures
        0 <= min_lost(states, k) <= 256,
        -1 <= max_won(states, k) <= 255,
    decreases k,
{
    if k > 0 {
        lemma_bounds(states, k - 1);
    }
}

impl Tree {
    /// The outcome that the children of a node prove of it.
    pub(crate) fn proven_at(&self, idx: usize) -> (s: GameState)
        requires
            self.halves_ok(),
            well_linked(self.nodes(), self.spec_active(), self.allocated()),
            idx < self.allocated(),
        ensures
            s == proven(
                child_states(
                    self.nodes(),
                    first_child(self.nodes(), idx as int),
                    self.nodes()[idx as int].num_actions as int,
                ),
            ),
    {
        proof {
            self.lemma_capacity();
        }
        let node = self.slot(idx);
        let k = node.num_actions();
        let first = node.actions().idx();
        let ghost states = child_states(self.nodes(), first as int, k as int);
        assert(k > 0 ==> first + k <= self.allocated()) by {
            assert(self.nodes()[idx as int].num_actions == k);
        }
        let mut lost: u16 = 256;
        let mut won: i16 = -1;
        let mut ongoing = false;
        let mut draw = false;
        let mut j: usize = 0;
        while j < k
            invariant
                j <= k <= 255,
                k > 0 ==> first + k <= self.allocated() <= self.capacity() <= 0x7fff_ffff,
                states == child_states(self.nodes(), first as int, k as int),
                lost == min_lost(states, j as int),
                won == max_won(states, j as int),
                ongoing == any_ongoing(states, j as int),
                draw == any_draw(states, j as int),
            decreases k - j,
        {
            proof {
                lemma_bounds(states, j as int);
            }
            let child = self.slot(first + j);
            assert(child@.state == states[j as int]);
            match child.state() {
                GameState::Lost(n) => {
                    if (n as u16) < lost {
                        lost = n as u16;
                    }
                },
                GameState::Won(n) => {
                    if (n as i16) > won {
                        won = n as i16;
                    }
                },
                GameState::Draw => {
                    draw = true;
                },
                GameState::Ongoing => {
                    ongoing = true;
                },
            }
            j = j + 1;
        }
        proof {
            lemma_bounds(states, k as int);
        }
        if lost < 256 {
            GameState::Won(
                if lost >= 254 {
                    255
                } else {
                    (lost + 1) as u8
                },
            )
        } else if k == 0 || ongoing {
            GameState::Ongoing
        } else if draw {
            GameState::Draw
        } else {
            GameState::Lost(
                if won >= 254 {
                    255
                } else {
                    (won + 1) as u8
                },
            )
        }
    }
}

} // verus!
