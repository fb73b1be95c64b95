use vstd::prelude::*;

use crate::ataxx::bitboard::{popcount, Bitboard};
use crate::ataxx::moves::Move;

verus! {

/// The most moves of a position that the training takes.
pub const MAX_MOVES: usize = 96;

/// The number of jumps from the squares below `sq`.
pub open spec fn jumps_below(sq: int) -> nat
    decreases sq,
{
    if sq <= 0 {
        0
    } else {
        jumps_below(sq - 1) + popcount(Bitboard::spec_doubles(sq - 1))
    }
}

/// The number that a move has among all moves: a single move that of its
/// target, a jump 49 and the number of the jumps that come before it, by
/// origin and then by target.
pub open spec fn move_index(mov: Move) -> int {
    if mov.from_sq() == 63 {
        mov.to_sq()
    } else {
        49 + jumps_below(mov.from_sq()) as int + popcount(
            Bitboard::spec_doubles(mov.from_sq()) & (((1u64 << (mov.to_sq() as u64)) - 1) as u64),
        ) as int
    }
}

/// The number of all moves: 49 single moves and every jump.
pub open spec fn num_moves() -> int {
    49 + jumps_below(49) as int
}

/// The number of jumps from the squares below `sq`.
fn offset(sq: usize) -> (n: usize)
    requires
        sq <= 49,
    ensures
        n == jumps_below(sq as int),
        n <= 64 * sq,
{
    let mut n: usize = 0;
    let mut i: usize = 0;
    while i < sq
        invariant
            i <= sq <= 49,
            n == jumps_below(i as int),
            n <= 64 * i,
        decreases sq - i,
    {
        n = n + Bitboard::count(Bitboard::doubles(i)) as usize;
        i = i + 1;
    }
    n
}

/// The number of all moves.
pub fn num_moves_count() -> (n: usize)
    ensures
        n == num_moves(),
{
    49 + offset(49)
}

/// The number that a move has among all moves.
pub fn map_move_to_index(mov: Move) -> (i: usize)
    requires
        mov.to_sq() < 49,
        mov.from_sq() == 63 || mov.from_sq() < 49,
    ensures
        i == move_index(mov),
{
    if mov.is_single() {
        mov.to()
    } else {
        let src = mov.src();
        let dst = mov.to();
        let doubles = Bitboard::doubles(src);
        let shift = dst as u64;
        assert((1u64 << shift) >= 1) by (bit_vector)
            requires
                shift < 49,
        ;
        let below = doubles & ((1u64 << shift) - 1);
        49 + offset(src) + Bitboard::count(below) as usize
    }
}

} // verus!
