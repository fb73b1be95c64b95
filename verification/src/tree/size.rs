use vstd::prelude::*;

use crate::ataxx::board::BoardModel;
use crate::tree::arena::Tree;
use crate::tree::hash::pow2;

verus! {

/// The number of bytes that one slot is counted as when memory is given in
/// megabytes.
pub const NODE_BYTES: usize = 48;

/// The number of slots of a half of `mb` megabytes, held at what the handles
/// can name.
pub open spec fn slots_for(mb: int) -> int {
    let slots = mb * 1024 * 1024 / (NODE_BYTES as int);
    if slots > 0x7fff_ffff {
        0x7fff_ffff
    } else {
        slots
    }
}

/// The number of bits of the size of the cache that goes with `cap` slots:
/// such that the cache has at most an eighth as many entries as a half has
/// slots, but one at least.
pub open spec fn cache_bits_for(cap: int) -> nat
    decreases cap,
{
    if cap < 16 {
        0
    } else {
        1 + cache_bits_for(cap / 2)
    }
}

impl Tree {
    /// Whether the tree is a new one with halves of `mb` megabytes each: it
    /// is empty, its lower half is the active one, no descent is under way,
    /// its cache is empty and of the size that goes with the halves, and it
    /// stands at the opening position.
    pub open spec fn is_new_mb(&self, mb: int) -> bool {
        &&& self.wf()
        &&& self.capacity() == slots_for(mb)
        &&& self.cache().slots().len() == pow2(cache_bits_for(self.capacity()))
        &&& forall|i: int|
            0 <= i < self.cache().slots().len() ==> #[trigger] self.cache().slots()[i] is None
        &&& self.spec_used() == 0
        &&& self.allocated() == 0
        &&& !self.spec_active()
        &&& !self.descending()
        &&& self.spec_root_position() == BoardModel::startpos()
    }

    /// An empty tree with halves of `mb` megabytes each, and a cache to go
    /// with them, at the opening position.
    pub fn new_mb(mb: usize) -> (t: Tree)
        ensures
            t.is_new_mb(mb as int),
    {
        let bytes: u128 = (mb as u128) * 1024 * 1024;
        let slots: u128 = bytes / (NODE_BYTES as u128);
        let cap: usize = if slots > 0x7fff_ffff {
            0x7fff_ffff
        } else {
            slots as usize
        };
        let mut bits: u8 = 0;
        let mut rest: usize = cap;
        assert(pow2(0) == 1);
        while rest >= 16
            invariant
                rest <= cap <= 0x7fff_ffff,
                bits <= 31,
                rest * pow2(bits as nat) <= cap,
                cache_bits_for(cap as int) == bits + cache_bits_for(rest as int),
            decreases rest,
        {
            proof {
                let r = rest as int;
                let p = pow2(bits as nat) as int;
                assert((r / 2) * (2 * p) <= r * p) by (nonlinear_arith)
                    requires
                        r >= 0,
                        p >= 0,
                ;
                assert(pow2((bits + 1) as nat) == 2 * pow2(bits as nat));
                if bits >= 31 {
                    lemma_pow2_31(bits as nat);
                    assert(r * p >= 16 * p) by (nonlinear_arith)
                        requires
                            r >= 16,
                            p >= 0,
                    ;
                }
            }
            rest = rest / 2;
            bits = bits + 1;
        }
        Tree::new(cap, bits)
    }
}

proof fn lemma_pow2_31(bits: nat)
    requires
        bits >= 31,
    ensures
        pow2(bits) >= 0x8000_0000,
    decreases bits,
{
    if bits > 31 {
        lemma_pow2_31((bits - 1) as nat);
    } else {
        reveal_with_fuel(pow2, 32);
    }
}

} // verus!
