use vstd::prelude::*;
use vstd::std_specs::ops::AddSpecImpl;

use crate::ataxx::moves::Move;
use crate::ataxx::state::GameState;

verus! {

/// The multiplier by which a value in [0, 1] is stored as an integer.
pub const QUANT: i64 = 4096;

/// A handle to a node: the half of the arena in the top bit, the index within
/// that half in the other 31.
#[derive(Clone, Copy, Debug, Default, PartialEq, Eq, Structural)]
pub struct NodePtr(u32);

impl NodePtr {
    /// The 32 bits of the handle.
    pub closed spec fn raw(self) -> u32 {
        self.0
    }

    /// The handle with the given bits.
    pub closed spec fn of_raw(raw: u32) -> NodePtr {
        NodePtr(raw)
    }

    /// The handle that points nowhere.
    pub open spec fn null() -> NodePtr {
        NodePtr::of_raw(u32::MAX)
    }

    /// The handle of the slot `idx` of a half.
    pub open spec fn at(half: bool, idx: int) -> NodePtr {
        NodePtr::of_raw(
            (if half {
                0x8000_0000 + idx
            } else {
                idx
            }) as u32,
        )
    }

    pub open spec fn spec_half(self) -> bool {
        self.raw() >= 0x8000_0000
    }

    pub open spec fn spec_idx(self) -> int {
        self.raw() as int % 0x8000_0000
    }

    /// A handle is its bits and nothing else.
    pub broadcast proof fn lemma_raw(raw: u32)
        ensures
            #[trigger] NodePtr::of_raw(raw).raw() == raw,
    {
    }

    /// Two handles with the same bits are the same handle.
    pub proof fn lemma_ext(a: NodePtr, b: NodePtr)
        requires
            a.raw() == b.raw(),
        ensures
            a == b,
    {
    }

    /// A handle made of a half and an index below 2^31 gives both back, and is
    /// null only for the last index of the upper half.
    pub proof fn lemma_at(half: bool, idx: int)
        requires
            0 <= idx < 0x8000_0000,
        ensures
            NodePtr::at(half, idx).spec_half() == half,
            NodePtr::at(half, idx).spec_idx() == idx,
            NodePtr::at(half, idx) == NodePtr::null() <==> half && idx == 0x7fff_ffff,
    {
        NodePtr::lemma_raw(NodePtr::at(half, idx).raw());
        NodePtr::lemma_raw(u32::MAX);
        NodePtr::lemma_raw(
            (if half {
                0x8000_0000 + idx
            } else {
                idx
            }) as u32,
        );
    }

    /// The handle that points nowhere.
    pub fn new_null() -> (p: NodePtr)
        ensures
            p == NodePtr::null(),
    {
        NodePtr(u32::MAX)
    }

    pub fn is_null(self) -> (b: bool)
        ensures
            b == (self == NodePtr::null()),
    {
        self.0 == u32::MAX
    }

    pub fn new(half: bool, idx: u32) -> (p: NodePtr)
        ensures
            idx < 0x8000_0000 ==> p == NodePtr::at(half, idx as int),
            p.raw() == (if half {
                0x8000_0000u32
            } else {
                0u32
            }) | idx,
    {
        let top: u32 = if half {
            0x8000_0000
        } else {
            0
        };
        assert(idx < 0x8000_0000u32 ==> (0x8000_0000u32 | idx) == 0x8000_0000u32 + idx && (0u32
            | idx) == idx) by (bit_vector);
        NodePtr(top | idx)
    }

    pub fn half(self) -> (h: bool)
        ensures
            h == self.spec_half(),
    {
        let raw = self.0;
        assert((raw & 0x8000_0000u32 > 0) == (raw >= 0x8000_0000u32)) by (bit_vector);
        self.0 & 0x8000_0000 > 0
    }

    pub fn idx(self) -> (i: usize)
        ensures
            i == self.spec_idx(),
            i < 0x8000_0000,
    {
        let raw = self.0;
        assert(raw & 0x7FFF_FFFFu32 == raw % 0x8000_0000u32) by (bit_vector);
        (self.0 & 0x7FFF_FFFF) as usize
    }

    pub fn inner(self) -> (r: u32)
        ensures
            r == self.raw(),
    {
        self.0
    }

    pub fn from_raw(inner: u32) -> (p: NodePtr)
        ensures
            p == NodePtr::of_raw(inner),
    {
        NodePtr(inner)
    }
}

impl core::ops::Add<usize> for NodePtr {
    type Output = NodePtr;

    /// The handle `rhs` slots further on in the same half.
    fn add(self, rhs: usize) -> (p: NodePtr) {
        NodePtr(self.0 + rhs as u32)
    }
}

impl AddSpecImpl<usize> for NodePtr {
    open spec fn obeys_add_spec() -> bool {
        true
    }

    open spec fn add_req(self, rhs: usize) -> bool {
        self.spec_idx() + rhs < 0x8000_0000
    }

    open spec fn add_spec(self, rhs: usize) -> NodePtr {
        NodePtr::at(self.spec_half(), self.spec_idx() + rhs)
    }
}

/// One position of the search tree with the statistics gathered on it.
#[derive(Clone, Copy, Debug)]
pub struct Node {
    actions: NodePtr,
    num_actions: u8,
    state: GameState,
    threads: u16,
    mov: Move,
    policy: u16,
    visits: i32,
    summed_q: i64,
    summed_sq_q: i64,
    gini_impurity: u32,
}

/// What a node holds, as plain values.
pub struct NodeModel {
    pub actions: NodePtr,
    pub num_actions: nat,
    pub state: GameState,
    pub threads: nat,
    pub mov: Move,
    pub policy: u16,
    pub visits: int,
    pub summed_q: int,
    pub summed_sq_q: int,
    pub gini_impurity: u32,
}

impl NodeModel {
    /// The statistics are those of `visits` values, each between 0 and
    /// `QUANT`.
    pub open spec fn in_range(self) -> bool {
        &&& 0 <= self.visits <= i32::MAX
        &&& 0 <= self.summed_q <= QUANT * self.visits
        &&& 0 <= self.summed_sq_q <= QUANT * QUANT * self.visits
        &&& self.num_actions <= 255
        &&& self.threads <= u16::MAX
    }

    /// The mean of the values backed up into the node, times `QUANT` and
    /// rounded down; 0 where there is none yet.
    pub open spec fn q(self) -> int {
        if self.visits == 0 {
            0
        } else {
            self.summed_q / self.visits
        }
    }

    /// The mean of the squares of the values backed up into the node, times
    /// `QUANT` twice and rounded down; 0 where there is none yet.
    pub open spec fn sq_q(self) -> int {
        if self.visits == 0 {
            0
        } else {
            self.summed_sq_q / self.visits
        }
    }

    /// The mean of the squares of a node in range lies between 0 and the
    /// square of `QUANT`.
    pub proof fn lemma_sq_q_bounds(self)
        requires
            self.in_range(),
        ensures
            0 <= self.sq_q() <= QUANT * QUANT,
    {
        if self.visits > 0 {
            let v = self.visits;
            let s = self.summed_sq_q;
            assert(0 <= s / v <= 16777216) by (nonlinear_arith)
                requires
                    v > 0,
                    0 <= s <= 16777216 * v,
            ;
        }
    }

    /// A node that was never visited, as the arena holds it before use.
    pub open spec fn fresh(state: GameState) -> NodeModel {
        NodeModel {
            actions: NodePtr::null(),
            num_actions: 0,
            state,
            threads: 0,
            mov: Move::make(0, 0),
            policy: 0,
            visits: 0,
            summed_q: 0,
            summed_sq_q: 0,
            gini_impurity: 0,
        }
    }

    /// The node after one more value was backed up into it.
    pub open spec fn updated(self, q: int) -> NodeModel {
        NodeModel {
            visits: self.visits + 1,
            summed_q: self.summed_q + q,
            summed_sq_q: self.summed_sq_q + q * q,
            ..self
        }
    }

    /// The mean of a node in range lies between 0 and `QUANT`.
    pub proof fn lemma_q_bounds(self)
        requires
            self.in_range(),
        ensures
            0 <= self.q() <= QUANT,
    {
        if self.visits > 0 {
            let v = self.visits;
            let s = self.summed_q;
            assert(0 <= s / v <= 4096) by (nonlinear_arith)
                requires
                    v > 0,
                    0 <= s <= 4096 * v,
            ;
        }
    }

    /// Backing up a value between 0 and `QUANT` keeps a node in range.
    pub proof fn lemma_updated_in_range(self, q: int)
        requires
            self.in_range(),
            self.visits < i32::MAX,
            0 <= q <= QUANT,
        ensures
            self.updated(q).in_range(),
    {
        assert(0 <= q * q <= 4096 * 4096) by (nonlinear_arith)
            requires
                0 <= q <= 4096,
        ;
    }
}

impl View for Node {
    type V = NodeModel;

    closed spec fn view(&self) -> NodeModel {
        NodeModel {
            actions: self.actions,
            num_actions: self.num_actions as nat,
            state: self.state,
            threads: self.threads as nat,
            mov: self.mov,
            policy: self.policy,
            visits: self.visits as int,
            summed_q: self.summed_q as int,
            summed_sq_q: self.summed_sq_q as int,
            gini_impurity: self.gini_impurity,
        }
    }
}

impl Node {
    #[verifier::type_invariant]
    closed spec fn inv(&self) -> bool {
        self@.in_range()
    }

    pub fn new(state: GameState) -> (n: Node)
        ensures
            n@ == NodeModel::fresh(state),
    {
        Node {
            actions: NodePtr::new_null(),
            num_actions: 0,
            state,
            threads: 0,
            mov: Move::new_null(),
            policy: 0,
            visits: 0,
            summed_q: 0,
            summed_sq_q: 0,
            gini_impurity: 0,
        }
    }

    /// Makes the node a fresh child reached by `mov` with the prior `policy`.
    pub fn set_new(&mut self, mov: Move, policy: u16)
        ensures
            final(self)@ == (NodeModel { mov, policy, ..NodeModel::fresh(GameState::Ongoing) }),
    {
        self.clear();
        self.mov = mov;
        self.policy = policy;
    }

    pub fn is_terminal(&self) -> (b: bool)
        ensures
            b == self@.state.is_terminal(),
    {
        self.state != GameState::Ongoing
    }

    pub fn num_actions(&self) -> (n: usize)
        ensures
            n == self@.num_actions,
            n <= 255,
    {
        self.num_actions as usize
    }

    pub fn set_num_actions(&mut self, num: usize)
        requires
            num <= 255,
        ensures
            final(self)@ == (NodeModel { num_actions: num as nat, ..old(self)@ }),
    {
        proof {
            use_type_invariant(&*self);
        }
        self.num_actions = num as u8;
    }

    pub fn threads(&self) -> (t: u16)
        ensures
            t == self@.threads,
    {
        self.threads
    }

    pub fn visits(&self) -> (v: i32)
        ensures
            v == self@.visits,
            v >= 0,
    {
        proof {
            use_type_invariant(self);
        }
        self.visits
    }

    /// The mean of the values backed up into the node, times `QUANT`.
    pub fn q(&self) -> (q: i64)
        ensures
            q == self@.q(),
            0 <= q <= QUANT,
    {
        proof {
            use_type_invariant(self);
            self@.lemma_q_bounds();
        }
        if self.visits == 0 {
            return 0;
        }
        self.summed_q / (self.visits as i64)
    }

    /// The mean of the squares of the values backed up into the node, times
    /// `QUANT` twice; 0 where there is none yet.
    pub fn sq_q(&self) -> (q: i64)
        ensures
            q == self@.sq_q(),
            0 <= q <= QUANT * QUANT,
    {
        proof {
            use_type_invariant(self);
            self@.lemma_sq_q_bounds();
        }
        if self.visits == 0 {
            return 0;
        }
        self.summed_sq_q / (self.visits as i64)
    }

    /// Counts one more descent through the node. The counter wraps.
    pub fn inc_threads(&mut self)
        ensures
            final(self)@ == (NodeModel {
                threads: if old(self)@.threads == u16::MAX {
                    0
                } else {
                    old(self)@.threads + 1
                },
                ..old(self)@
            }),
    {
        proof {
            use_type_invariant(&*self);
        }
        self.threads = self.threads.wrapping_add(1);
    }

    /// Counts one descent through the node as over. The counter wraps.
    pub fn dec_threads(&mut self)
        ensures
            final(self)@ == (NodeModel {
                threads: if old(self)@.threads == 0 {
                    u16::MAX as nat
                } else {
                    (old(self)@.threads - 1) as nat
                },
                ..old(self)@
            }),
    {
        proof {
            use_type_invariant(&*self);
        }
        self.threads = self.threads.wrapping_sub(1);
    }

    pub fn actions(&self) -> (p: NodePtr)
        ensures
            p == self@.actions,
    {
        self.actions
    }

    /// The write access to the handle of the first child, taken and used in
    /// one: the handle becomes `actions`, and nothing else changes.
    pub fn actions_mut(&mut self, actions: NodePtr)
        ensures
            final(self)@ == (NodeModel { actions, ..old(self)@ }),
    {
        proof {
            use_type_invariant(&*self);
        }
        self.actions = actions;
    }

    pub fn state(&self) -> (s: GameState)
        ensures
            s == self@.state,
    {
        self.state
    }

    /// Records the outcome of the node. An outcome once decided stays: the
    /// call changes nothing unless the node was still ongoing.
    pub fn set_state(&mut self, state: GameState)
        ensures
            final(self)@ == (NodeModel {
                state: if old(self)@.state.is_terminal() {
                    old(self)@.state
                } else {
                    state
                },
                ..old(self)@
            }),
    {
        proof {
            use_type_invariant(&*self);
        }
        if self.state == GameState::Ongoing {
            self.state = state;
        }
    }

    /// The prior of the node as a fraction of 65535.
    pub fn policy(&self) -> (p: u16)
        ensures
            p == self@.policy,
    {
        self.policy
    }

    pub fn set_policy(&mut self, policy: u16)
        ensures
            final(self)@ == (NodeModel { policy, ..old(self)@ }),
    {
        proof {
            use_type_invariant(&*self);
        }
        self.policy = policy;
    }

    pub fn has_children(&self) -> (b: bool)
        ensures
            b == (self@.num_actions != 0),
    {
        self.num_actions != 0
    }

    pub fn is_not_expanded(&self) -> (b: bool)
        ensures
            b == (!self@.state.is_terminal() && self@.num_actions == 0),
    {
        self.state == GameState::Ongoing && self.num_actions == 0
    }

    /// The diversity measure of the children's priors, as the bits of a
    /// 32-bit floating-point number.
    pub fn gini_impurity(&self) -> (g: u32)
        ensures
            g == self@.gini_impurity,
    {
        self.gini_impurity
    }

    pub fn set_gini_impurity(&mut self, gini_impurity: u32)
        ensures
            final(self)@ == (NodeModel { gini_impurity, ..old(self)@ }),
    {
        proof {
            use_type_invariant(&*self);
        }
        self.gini_impurity = gini_impurity;
    }

    pub fn clear_actions(&mut self)
        ensures
            final(self)@ == (NodeModel { actions: NodePtr::null(), num_actions: 0, ..old(self)@ }),
    {
        proof {
            use_type_invariant(&*self);
        }
        self.actions = NodePtr::new_null();
        self.num_actions = 0;
    }

    pub fn parent_move(&self) -> (m: Move)
        ensures
            m == self@.mov,
    {
        self.mov
    }

    /// Takes over everything from `other` but its children.
    pub fn copy_from(&mut self, other: &Node)
        ensures
            final(self)@ == (NodeModel {
                actions: old(self)@.actions,
                num_actions: old(self)@.num_actions,
                ..other@
            }),
    {
        proof {
            use_type_invariant(&*self);
            use_type_invariant(other);
        }
        *self = Node {
            actions: self.actions,
            num_actions: self.num_actions,
            state: other.state,
            threads: other.threads,
            mov: other.mov,
            policy: other.policy,
            visits: other.visits,
            summed_q: other.summed_q,
            summed_sq_q: other.summed_sq_q,
            gini_impurity: other.gini_impurity,
        };
    }

    /// Forgets the children and all statistics; the move and the prior stay.
    pub fn clear(&mut self)
        ensures
            final(self)@ == (NodeModel {
                mov: old(self)@.mov,
                policy: old(self)@.policy,
                ..NodeModel::fresh(GameState::Ongoing)
            }),
    {
        *self = Node {
            actions: NodePtr::new_null(),
            num_actions: 0,
            state: GameState::Ongoing,
            threads: 0,
            mov: self.mov,
            policy: self.policy,
            visits: 0,
            summed_q: 0,
            summed_sq_q: 0,
            gini_impurity: 0,
        };
    }

    /// Backs a value up into the node and returns the new mean.
    pub fn update(&mut self, q: i64) -> (mean: i64)
        requires
            0 <= q <= QUANT,
            old(self)@.visits < i32::MAX,
        ensures
            final(self)@ == old(self)@.updated(q as int),
            mean == final(self)@.q(),
    {
        proof {
            use_type_invariant(&*self);
            self@.lemma_updated_in_range(q as int);
        }
        *self = Node {
            actions: self.actions,
            num_actions: self.num_actions,
            state: self.state,
            threads: self.threads,
            mov: self.mov,
            policy: self.policy,
            visits: self.visits + 1,
            summed_q: self.summed_q + q,
            summed_sq_q: self.summed_sq_q + q * q,
            gini_impurity: self.gini_impurity,
        };
        self.summed_q / (self.visits as i64)
    }
}

} // verus!
