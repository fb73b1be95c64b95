use vstd::prelude::*;

use crate::ataxx::bitboard::{bit, lemma_squares_from, squares_of, Bitboard};
use crate::ataxx::board::{jump_count, jumps_from, jumps_of, Board, BoardModel};
use crate::ataxx::moves::Move;

verus! {

/// What one cell of the board adds to a feature: 1 for a stone of the side to
/// move, 2 for a stone of the other side.
pub open spec fn cell_digit(boys: u64, opps: u64, sq: int) -> int {
    (if bit(boys, sq) {
        1int
    } else {
        0int
    }) + (if bit(opps, sq) {
        2int
    } else {
        0int
    })
}

/// The feature of the 2x2 window whose lower left cell is in rank `i` and
/// file `j`: the window's number times 81, plus its four cells read as digits
/// to base 3.
pub open spec fn window_feature(boys: u64, opps: u64, i: int, j: int) -> int {
    let at = 7 * i + j;
    81 * (6 * i + j) + cell_digit(boys, opps, at) + 3 * cell_digit(boys, opps, at + 1) + 9
        * cell_digit(boys, opps, at + 7) + 27 * cell_digit(boys, opps, at + 8)
}

/// A square set in a bitboard that lies on the board is below 49.
pub proof fn lemma_on_board_square(bb: u64, i: int)
    requires
        bb & !Bitboard::ALL == 0,
        bit(bb, i),
    ensures
        0 <= i < 49,
{
    let iu = i as u64;
    assert(iu < 49) by (bit_vector)
        requires
            iu < 64,
            bb & !0x1_ffff_ffff_ffffu64 == 0,
            (bb >> iu) & 1 == 1,
    ;
}

proof fn lemma_parts_on_board(red: u64, blu: u64, gaps: u64)
    requires
        (red | blu | gaps) & !Bitboard::ALL == 0,
    ensures
        red & !Bitboard::ALL == 0,
        blu & !Bitboard::ALL == 0,
        gaps & !Bitboard::ALL == 0,
{
    assert(red & !0x1_ffff_ffff_ffffu64 == 0 && blu & !0x1_ffff_ffff_ffffu64 == 0 && gaps
        & !0x1_ffff_ffff_ffffu64 == 0) by (bit_vector)
        requires
            (red | blu | gaps) & !0x1_ffff_ffff_ffffu64 == 0,
    ;
}

/// The squares listed for a bitboard on the board are all below 49.
pub proof fn lemma_squares_on_board(bb: u64)
    requires
        bb & !Bitboard::ALL == 0,
    ensures
        forall|k: int| 0 <= k < squares_of(bb).len() ==> #[trigger] squares_of(bb)[k] < 49,
        squares_of(bb).len() <= 64,
{
    lemma_squares_from(bb, 0);
    assert forall|k: int| 0 <= k < squares_of(bb).len() implies #[trigger] squares_of(bb)[k]
        < 49 by {
        lemma_on_board_square(bb, squares_of(bb)[k] as int);
    }
}

fn cell(boys: u64, opps: u64, sq: u64) -> (d: usize)
    requires
        sq < 64,
    ensures
        d == cell_digit(boys, opps, sq as int),
{
    let own: usize = if (boys >> sq) & 1 == 1 {
        1
    } else {
        0
    };
    let other: usize = if (opps >> sq) & 1 == 1 {
        2
    } else {
        0
    };
    own + other
}

impl Board {
    /// The legal moves of the position, in the order of
    /// [`BoardModel::legal_moves`].
    pub fn map_legal_moves(&self) -> (moves: Vec<Move>)
        requires
            self@.on_board(),
        ensures
            moves@ == self@.legal_moves(),
    {
        let mut moves: Vec<Move> = Vec::new();
        if self.game_over() {
            return moves;
        }
        let nocc = Bitboard::not(self.occ());
        let boys = self.boys();
        let targets = Bitboard::squares(Bitboard::expand(boys) & nocc);
        let ghost single_moves = targets@.map(|i: int, to: u8| Move::make(63, to as int));
        let mut i: usize = 0;
        while i < targets.len()
            invariant
                i <= targets.len(),
                moves@ == single_moves.take(i as int),
                single_moves == targets@.map(|i: int, to: u8| Move::make(63, to as int)),
            decreases targets.len() - i,
        {
            moves.push(Move::new_single(targets[i]));
            i = i + 1;
            assert(moves@ =~= single_moves.take(i as int));
        }
        assert(moves@ =~= single_moves);
        let froms = Bitboard::squares(boys);
        proof {
            lemma_parts_on_board(self@.red, self@.blu, self@.gaps);
            lemma_squares_on_board(boys);
        }
        let mut k: usize = 0;
        while k < froms.len()
            invariant
                k <= froms.len(),
                froms@ == squares_of(boys),
                forall|n: int| 0 <= n < froms@.len() ==> #[trigger] froms@[n] < 49,
                moves@ == single_moves + jumps_from(froms@, nocc, k as int),
            decreases froms.len() - k,
        {
            let from = froms[k];
            let tos = Bitboard::squares(Bitboard::doubles(from as usize) & nocc);
            let ghost before = moves@;
            let ghost jumps = jumps_of(from, nocc);
            let mut j: usize = 0;
            while j < tos.len()
                invariant
                    j <= tos.len(),
                    jumps == tos@.map(|i: int, to: u8| Move::make(from as int, to as int)),
                    moves@ == before + jumps.take(j as int),
                decreases tos.len() - j,
            {
                moves.push(Move::new_double(from, tos[j]));
                j = j + 1;
                assert(moves@ =~= before + jumps.take(j as int));
            }
            k = k + 1;
            assert(moves@ =~= single_moves + jumps_from(froms@, nocc, k as int)) by {
                assert(jumps.take(tos.len() as int) =~= jumps);
            }
        }
        if moves.len() == 0 {
            moves.push(Move::new_pass());
            assert(moves@ =~= seq![Move::make(63, 63)]);
        }
        moves
    }

    /// The number of moves that place or move a stone, and one more if `pass`
    /// is set.
    pub fn movegen_bulk(&self, pass: bool) -> (n: u64)
        requires
            self@.on_board(),
        ensures
            n == self@.move_count(pass),
    {
        let mut moves: u64 = if pass {
            1
        } else {
            0
        };
        let nocc = Bitboard::not(self.occ());
        let boys = self.boys();
        let singles = Bitboard::expand(boys) & nocc;
        moves = moves + (Bitboard::count(singles) as u64);
        let froms = Bitboard::squares(boys);
        proof {
            lemma_parts_on_board(self@.red, self@.blu, self@.gaps);
            lemma_squares_on_board(boys);
        }
        let ghost base = moves;
        let mut k: usize = 0;
        while k < froms.len()
            invariant
                k <= froms.len() <= 64,
                froms@ == squares_of(boys),
                forall|n: int| 0 <= n < froms@.len() ==> #[trigger] froms@[n] < 49,
                base <= 65,
                moves == base + jump_count(froms@, nocc, k as int),
                jump_count(froms@, nocc, k as int) <= 64 * k,
            decreases froms.len() - k,
        {
            let doubles = Bitboard::doubles(froms[k] as usize) & nocc;
            moves = moves + (Bitboard::count(doubles) as u64);
            k = k + 1;
        }
        moves
    }

    /// The 36 input features of the position, one for each 2x2 window of the
    /// board, by rank and then by file of the window.
    pub fn value_features_map(&self) -> (feats: Vec<usize>)
        ensures
            feats@.len() == 36,
            forall|i: int, j: int|
                0 <= i < 6 && 0 <= j < 6 ==> #[trigger] feats@[6 * i + j] == window_feature(
                    self@.boys(),
                    self@.opps(),
                    i,
                    j,
                ),
    {
        let boys = self.boys();
        let opps = self.opps();
        let mut feats: Vec<usize> = Vec::new();
        let mut i: usize = 0;
        while i < 6
            invariant
                i <= 6,
                feats@.len() == 6 * i,
                forall|a: int, b: int|
                    0 <= a < i && 0 <= b < 6 ==> #[trigger] feats@[6 * a + b] == window_feature(
                        boys,
                        opps,
                        a,
                        b,
                    ),
            decreases 6 - i,
        {
            let mut j: usize = 0;
            while j < 6
                invariant
                    i < 6,
                    j <= 6,
                    feats@.len() == 6 * i + j,
                    forall|a: int, b: int|
                        0 <= a < i && 0 <= b < 6 ==> #[trigger] feats@[6 * a + b]
                            == window_feature(boys, opps, a, b),
                    forall|b: int|
                        0 <= b < j ==> #[trigger] feats@[6 * i + b] == window_feature(
                            boys,
                            opps,
                            i as int,
                            b,
                        ),
                decreases 6 - j,
            {
                let at: u64 = (7 * i + j) as u64;
                let feat: usize = 81 * (6 * i + j) + cell(boys, opps, at) + 3 * cell(
                    boys,
                    opps,
                    at + 1,
                ) + 9 * cell(boys, opps, at + 7) + 27 * cell(boys, opps, at + 8);
                let ghost old_feats = feats@;
                feats.push(feat);
                assert forall|a: int, b: int| 0 <= a < i && 0 <= b < 6 implies #[trigger] feats@[6
                    * a + b] == window_feature(boys, opps, a, b) by {
                    assert(feats@[6 * a + b] == old_feats[6 * a + b]);
                }
                assert forall|b: int| 0 <= b < j + 1 implies #[trigger] feats@[6 * i + b]
                    == window_feature(boys, opps, i as int, b) by {
                    if b < j {
                        assert(feats@[6 * i + b] == old_feats[6 * i + b]);
                    }
                }
                j = j + 1;
            }
            i = i + 1;
        }
        feats
    }
}

} // verus!
