use vstd::prelude::*;

use crate::ataxx::bitboard::{
    bit, lemma_popcount_squares, lemma_squares_from, popcount, squares_of, Bitboard,
};
use crate::ataxx::board::{jump_count, jumps_from, jumps_of, BoardModel};
use crate::ataxx::movegen::lemma_on_board_square;
use crate::ataxx::moves::Move;

verus! {

/// Whether a move places a stone on a free square next to a stone of the
/// side to move.
pub open spec fn is_single_of(b: BoardModel, mov: Move) -> bool {
    &&& mov.from_sq() == 63
    &&& 0 <= mov.to_sq() < 49
    &&& !bit(b.occ(), mov.to_sq())
    &&& bit(Bitboard::spec_expand(b.boys()), mov.to_sq())
}

/// Whether a move takes a stone of the side to move to a free square that it
/// can jump to.
pub open spec fn is_jump_of(b: BoardModel, mov: Move) -> bool {
    &&& 0 <= mov.from_sq() < 49
    &&& 0 <= mov.to_sq() < 49
    &&& bit(b.boys(), mov.from_sq())
    &&& !bit(b.occ(), mov.to_sq())
    &&& bit(Bitboard::spec_doubles(mov.from_sq()), mov.to_sq())
}

/// A square is set in two bitboards taken together if it is set in both.
proof fn lemma_and_bit(a: u64, b: u64, i: int)
    requires
        0 <= i < 64,
    ensures
        bit(a & b, i) <==> bit(a, i) && bit(b, i),
{
    let iu = i as u64;
    assert(((a & b) >> iu) & 1 == 1 <==> (a >> iu) & 1 == 1 && (b >> iu) & 1 == 1) by (bit_vector)
        requires
            iu < 64,
    ;
}

/// The squares that are not set are those of the board that are free.
proof fn lemma_not_bit(occ: u64, i: int)
    requires
        0 <= i < 64,
    ensures
        bit(Bitboard::spec_not(occ), i) <==> i < 49 && !bit(occ, i),
{
    let iu = i as u64;
    assert(((!occ & 0x1_ffff_ffff_ffffu64) >> iu) & 1 == 1 <==> iu < 49 && (occ >> iu) & 1 != 1)
        by (bit_vector)
        requires
            iu < 64,
    ;
}

/// The stones of the side to move are stones.
proof fn lemma_boys_on_board(b: BoardModel)
    requires
        b.on_board(),
    ensures
        b.boys() & !Bitboard::ALL == 0,
{
    let red = b.red;
    let blu = b.blu;
    let gaps = b.gaps;
    assert(red & !0x1_ffff_ffff_ffffu64 == 0 && blu & !0x1_ffff_ffff_ffffu64 == 0) by (bit_vector)
        requires
            (red | blu | gaps) & !0x1_ffff_ffff_ffffu64 == 0,
    ;
}

/// Every one of the jumps listed for the first `n` origins is a jump from
/// one of them to a square that is free and can be jumped to.
proof fn lemma_jumps_sound(froms: Seq<u8>, nocc: u64, n: int, k: int)
    requires
        0 <= n <= froms.len(),
        0 <= k < jumps_from(froms, nocc, n).len(),
    ensures
        exists|f: int|
            0 <= f < n && (#[trigger] froms[f]) as int == jumps_from(froms, nocc, n)[k].from_sq()
                && bit(
                Bitboard::spec_doubles(froms[f] as int) & nocc,
                jumps_from(froms, nocc, n)[k].to_sq(),
            ),
    decreases n,
{
    let head = jumps_from(froms, nocc, n - 1);
    if k < head.len() {
        lemma_jumps_sound(froms, nocc, n - 1, k);
        let f = choose|f: int|
            0 <= f < n - 1 && (#[trigger] froms[f]) as int == head[k].from_sq() && bit(
                Bitboard::spec_doubles(froms[f] as int) & nocc,
                head[k].to_sq(),
            );
        assert(froms[f] as int == jumps_from(froms, nocc, n)[k].from_sq());
    } else {
        let from = froms[n - 1];
        let targets = squares_of(Bitboard::spec_doubles(from as int) & nocc);
        let j = k - head.len();
        lemma_squares_from(Bitboard::spec_doubles(from as int) & nocc, 0);
        assert(jumps_of(from, nocc)[j] == Move::make(from as int, targets[j] as int));
        Move::lemma_make(from as int, targets[j] as int);
        assert(froms[n - 1] as int == jumps_from(froms, nocc, n)[k].from_sq());
    }
}

/// Every jump from one of the first `n` origins to a square that is free and
/// can be jumped to is among the jumps listed for them.
proof fn lemma_jumps_complete(froms: Seq<u8>, nocc: u64, n: int, f: int, to: int)
    requires
        0 <= f < n <= froms.len(),
        0 <= to < 64,
        bit(Bitboard::spec_doubles(froms[f] as int) & nocc, to),
    ensures
        jumps_from(froms, nocc, n).contains(Move::make(froms[f] as int, to)),
    decreases n,
{
    let head = jumps_from(froms, nocc, n - 1);
    let all = jumps_from(froms, nocc, n);
    let mov = Move::make(froms[f] as int, to);
    if f < n - 1 {
        lemma_jumps_complete(froms, nocc, n - 1, f, to);
        let k = choose|k: int| 0 <= k < head.len() && head[k] == mov;
        assert(all[k] == mov);
    } else {
        let from = froms[n - 1];
        let bb = Bitboard::spec_doubles(from as int) & nocc;
        lemma_squares_from(bb, 0);
        let j = choose|j: int| 0 <= j < squares_of(bb).len() && squares_of(bb)[j] == to as u8;
        assert(jumps_of(from, nocc)[j] == mov);
        assert(all[head.len() + j] == mov);
    }
}

/// There are as many jumps listed for the first `n` origins as are counted.
proof fn lemma_jump_count(froms: Seq<u8>, nocc: u64, n: int)
    requires
        0 <= n <= froms.len(),
    ensures
        jump_count(froms, nocc, n) == jumps_from(froms, nocc, n).len(),
    decreases n,
{
    if n > 0 {
        lemma_jump_count(froms, nocc, n - 1);
        lemma_popcount_squares(Bitboard::spec_doubles(froms[n - 1] as int) & nocc);
    }
}

impl BoardModel {
    /// Every move that places or moves a stone is a single move or a jump of
    /// the position: it goes to a free square of the board, from next to a
    /// stone of the side to move or with a stone of the side to move that can
    /// jump there.
    pub proof fn lemma_stone_moves_sound(self, k: int)
        requires
            self.on_board(),
            0 <= k < self.stone_moves().len(),
        ensures
            is_single_of(self, self.stone_moves()[k]) || is_jump_of(self, self.stone_moves()[k]),
    {
        let nocc = Bitboard::spec_not(self.occ());
        let targets = squares_of(self.single_targets());
        let froms = squares_of(self.boys());
        let singles = targets.map(|i: int, to: u8| Move::make(63, to as int));
        let mov = self.stone_moves()[k];
        lemma_boys_on_board(self);
        if k < singles.len() {
            lemma_squares_from(self.single_targets(), 0);
            let to = targets[k] as int;
            assert(mov == Move::make(63, to));
            Move::lemma_make(63, to);
            lemma_and_bit(Bitboard::spec_expand(self.boys()), nocc, to);
            lemma_not_bit(self.occ(), to);
        } else {
            let j = k - singles.len();
            lemma_jumps_sound(froms, nocc, froms.len() as int, j);
            let f = choose|f: int|
                0 <= f < froms.len() && (#[trigger] froms[f]) as int == jumps_from(
                    froms,
                    nocc,
                    froms.len() as int,
                )[j].from_sq() && bit(
                    Bitboard::spec_doubles(froms[f] as int) & nocc,
                    jumps_from(froms, nocc, froms.len() as int)[j].to_sq(),
                );
            let from = froms[f] as int;
            let to = mov.to_sq();
            mov.lemma_range();
            lemma_squares_from(self.boys(), 0);
            lemma_on_board_square(self.boys(), from);
            lemma_and_bit(Bitboard::spec_doubles(from), nocc, to);
            lemma_not_bit(self.occ(), to);
        }
    }

    /// Every single move and every jump of the position is among the moves
    /// that place or move a stone.
    pub proof fn lemma_stone_moves_complete(self, mov: Move)
        requires
            is_single_of(self, mov) || is_jump_of(self, mov),
        ensures
            self.stone_moves().contains(mov),
    {
        let nocc = Bitboard::spec_not(self.occ());
        let targets = squares_of(self.single_targets());
        let froms = squares_of(self.boys());
        let singles = targets.map(|i: int, to: u8| Move::make(63, to as int));
        let jumps = jumps_from(froms, nocc, froms.len() as int);
        let to = mov.to_sq();
        lemma_not_bit(self.occ(), to);
        if is_single_of(self, mov) {
            lemma_and_bit(Bitboard::spec_expand(self.boys()), nocc, to);
            lemma_squares_from(self.single_targets(), 0);
            let j = choose|j: int| 0 <= j < targets.len() && targets[j] == to as u8;
            Move::lemma_make(63, to);
            Move::lemma_ext(mov, Move::make(63, to));
            assert(singles[j] == mov);
            assert(self.stone_moves()[j] == mov);
        } else {
            let from = mov.from_sq();
            lemma_and_bit(Bitboard::spec_doubles(from), nocc, to);
            lemma_squares_from(self.boys(), 0);
            let f = choose|f: int| 0 <= f < froms.len() && froms[f] == from as u8;
            lemma_jumps_complete(froms, nocc, froms.len() as int, f, to);
            Move::lemma_make(from, to);
            Move::lemma_ext(mov, Move::make(from, to));
            let j = choose|j: int| 0 <= j < jumps.len() && jumps[j] == mov;
            assert(self.stone_moves()[singles.len() + j] == mov);
        }
    }

    /// The count of the moves that place or move a stone is the number of
    /// those moves.
    pub proof fn lemma_move_count(self)
        ensures
            self.move_count(false) == self.stone_moves().len(),
            self.move_count(true) == self.stone_moves().len() + 1,
    {
        let nocc = Bitboard::spec_not(self.occ());
        let froms = squares_of(self.boys());
        lemma_popcount_squares(self.single_targets());
        lemma_jump_count(froms, nocc, froms.len() as int);
    }

    /// A position that is not over has a legal move, and each of its legal
    /// moves can be played as long as the counters have room.
    pub proof fn lemma_legal_moves_playable(self, k: int)
        requires
            self.on_board(),
            0 <= k < self.legal_moves().len(),
            self.blue_to_move ==> self.fullm < 65535,
        ensures
            !self.game_over(),
            self.can_play(self.legal_moves()[k]),
    {
        if self.stone_moves().len() == 0 {
            Move::lemma_make(63, 63);
        } else {
            self.lemma_stone_moves_sound(k);
        }
    }

    /// A position that is not over has a legal move.
    pub proof fn lemma_has_legal_move(self)
        requires
            !self.game_over(),
        ensures
            self.legal_moves().len() > 0,
    {
    }
}

} // verus!
