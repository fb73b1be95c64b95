use vstd::prelude::*;

use crate::ataxx::bitboard::{bit, popcount, squares_of, Bitboard};
use crate::ataxx::moves::Move;
use crate::ataxx::state::GameState;

verus! {

pub struct Side;

impl Side {
    pub const RED: usize = 0;

    pub const BLU: usize = 1;
}

/// One step of the xorshift generator that the hash keys come from.
pub open spec fn xorshift(seed: u64) -> u64 {
    let a = seed ^ (seed << 13);
    let b = a ^ (a >> 7);
    b ^ (b << 17)
}

/// The generator's state after `n` steps from its fixed seed.
pub open spec fn seed_at(n: nat) -> u64
    decreases n,
{
    if n == 0 {
        180_620_142
    } else {
        xorshift(seed_at((n - 1) as nat))
    }
}

/// The hash key of a stone on `sq`: side 0 is the side to move, side 1 the
/// other.
pub open spec fn zobrist(side: int, sq: int) -> u64 {
    seed_at((53 + 50 * side + sq) as nat)
}

/// The keys of the stones of one side on the squares below `n`, combined by
/// exclusive or.
pub open spec fn keys_below(bb: u64, side: int, n: int) -> u64
    decreases n,
{
    if n <= 0 {
        0
    } else if bit(bb, n - 1) {
        keys_below(bb, side, n - 1) ^ zobrist(side, n - 1)
    } else {
        keys_below(bb, side, n - 1)
    }
}

/// One step of the xorshift generator.
pub fn rand(seed: u64) -> (r: u64)
    ensures
        r == xorshift(seed),
{
    let a = seed ^ (seed << 13);
    let b = a ^ (a >> 7);
    b ^ (b << 17)
}

/// The jumps from one square to the free squares in `nocc`, lowest target
/// first.
pub open spec fn jumps_of(from: u8, nocc: u64) -> Seq<Move> {
    squares_of(Bitboard::spec_doubles(from as int) & nocc).map(
        |i: int, to: u8| Move::make(from as int, to as int),
    )
}

/// The jumps from the first `n` of the squares in `froms`, in their order.
pub open spec fn jumps_from(froms: Seq<u8>, nocc: u64, n: int) -> Seq<Move>
    decreases n,
{
    if n <= 0 {
        Seq::<Move>::empty()
    } else {
        jumps_from(froms, nocc, n - 1) + jumps_of(froms[n - 1], nocc)
    }
}

/// The number of jumps from the first `n` of the squares in `froms`.
pub open spec fn jump_count(froms: Seq<u8>, nocc: u64, n: int) -> nat
    decreases n,
{
    if n <= 0 {
        0
    } else {
        jump_count(froms, nocc, n - 1) + popcount(
            Bitboard::spec_doubles(froms[n - 1] as int) & nocc,
        )
    }
}

/// What a position holds, as plain values.
pub struct BoardModel {
    pub red: u64,
    pub blu: u64,
    pub gaps: u64,
    pub blue_to_move: bool,
    pub halfm: u8,
    pub fullm: u16,
}

impl BoardModel {
    /// The stones of the side to move.
    pub open spec fn boys(self) -> u64 {
        if self.blue_to_move {
            self.blu
        } else {
            self.red
        }
    }

    /// The stones of the other side.
    pub open spec fn opps(self) -> u64 {
        if self.blue_to_move {
            self.red
        } else {
            self.blu
        }
    }

    pub open spec fn occ(self) -> u64 {
        self.red | self.blu | self.gaps
    }

    /// Stones and gaps all lie on the 49 squares of the board.
    pub open spec fn on_board(self) -> bool {
        self.occ() & !Bitboard::ALL == 0
    }

    pub open spec fn game_over(self) -> bool {
        popcount(self.blu) == 0 || popcount(self.red) == 0 || popcount(self.blu) + popcount(
            self.red,
        ) == 49 || self.halfm >= 100
    }

    /// The outcome for the side to move: decided by the count of stones once
    /// the board is full, lost or won when one side has none, drawn after a
    /// hundred quiet half-moves.
    pub open spec fn game_state(self) -> GameState {
        let socc = popcount(self.boys());
        let nocc = popcount(self.opps());
        if socc + nocc == 49 {
            if socc > nocc {
                GameState::Won(0)
            } else if socc < nocc {
                GameState::Lost(0)
            } else {
                GameState::Draw
            }
        } else if socc == 0 {
            GameState::Lost(0)
        } else if nocc == 0 {
            GameState::Won(0)
        } else if self.halfm >= 100 {
            GameState::Draw
        } else {
            GameState::Ongoing
        }
    }

    pub open spec fn hash(self) -> u64 {
        keys_below(self.boys(), 0, 49) ^ keys_below(self.opps(), 1, 49)
    }

    /// The free squares next to a stone of the side to move.
    pub open spec fn single_targets(self) -> u64 {
        Bitboard::spec_expand(self.boys()) & Bitboard::spec_not(self.occ())
    }

    /// The moves that place or move a stone: the single moves by target, then
    /// the jumps by origin and target.
    pub open spec fn stone_moves(self) -> Seq<Move> {
        let nocc = Bitboard::spec_not(self.occ());
        let froms = squares_of(self.boys());
        squares_of(self.single_targets()).map(|i: int, to: u8| Move::make(63, to as int))
            + jumps_from(froms, nocc, froms.len() as int)
    }

    /// The legal moves: none once the game is over, a pass where no stone can
    /// be placed or moved, else the stone moves.
    pub open spec fn legal_moves(self) -> Seq<Move> {
        if self.game_over() {
            Seq::<Move>::empty()
        } else if self.stone_moves().len() == 0 {
            seq![Move::make(63, 63)]
        } else {
            self.stone_moves()
        }
    }

    /// The number of stone moves, and one more if `pass` is set.
    pub open spec fn move_count(self, pass: bool) -> nat {
        let nocc = Bitboard::spec_not(self.occ());
        let froms = squares_of(self.boys());
        (if pass {
            1nat
        } else {
            0nat
        }) + popcount(self.single_targets()) + jump_count(froms, nocc, froms.len() as int)
    }

    /// Whether `make` can play the move: its squares exist and the counters
    /// have room.
    pub open spec fn can_make(self, mov: Move) -> bool {
        mov.to_sq() == 63 || {
            &&& mov.to_sq() < 49
            &&& mov.from_sq() < 64
            &&& (mov.from_sq() != 63 ==> self.halfm < 255)
            &&& (self.blue_to_move ==> self.fullm < 65535)
        }
    }

    /// The position after a move. A pass only hands the turn over. Any other
    /// move puts a stone on its target, lifts the stone from its origin if it
    /// has one, and turns the opposing stones next to the target.
    pub open spec fn made(self, mov: Move) -> BoardModel {
        if mov.to_sq() == 63 {
            BoardModel { blue_to_move: !self.blue_to_move, ..self }
        } else {
            let lifted = if mov.from_sq() != 63 {
                self.boys() ^ (1u64 << (mov.from_sq() as u64))
            } else {
                self.boys()
            };
            let placed = lifted ^ (1u64 << (mov.to_sq() as u64));
            let captures = Bitboard::spec_singles(mov.to_sq()) & self.opps();
            let boys = placed ^ captures;
            let opps = self.opps() ^ captures;
            BoardModel {
                red: if self.blue_to_move {
                    opps
                } else {
                    boys
                },
                blu: if self.blue_to_move {
                    boys
                } else {
                    opps
                },
                gaps: self.gaps,
                blue_to_move: !self.blue_to_move,
                halfm: if mov.from_sq() != 63 {
                    (self.halfm + 1) as u8
                } else {
                    0
                },
                fullm: if self.blue_to_move {
                    (self.fullm + 1) as u16
                } else {
                    self.fullm
                },
            }
        }
    }

    /// Whether a move can be played and keeps the stones on the board: `make`
    /// can play it, and a stone that it lifts comes from a square of the
    /// board.
    pub open spec fn can_play(self, mov: Move) -> bool {
        self.can_make(mov) && (mov.to_sq() == 63 || mov.from_sq() == 63 || mov.from_sq() < 49)
    }

    /// The opening position: two stones each in opposite corners, red to move.
    pub open spec fn startpos() -> BoardModel {
        BoardModel {
            red: 0x40000000040,
            blu: 0x1000000000001,
            gaps: 0,
            blue_to_move: false,
            halfm: 0,
            fullm: 1,
        }
    }
}

/// An Ataxx position.
#[derive(Clone, Copy, PartialEq, Eq, Debug, Structural)]
pub struct Board {
    red: u64,
    blu: u64,
    gaps: u64,
    stm: bool,
    halfm: u8,
    fullm: u16,
}

impl View for Board {
    type V = BoardModel;

    closed spec fn view(&self) -> BoardModel {
        BoardModel {
            red: self.red,
            blu: self.blu,
            gaps: self.gaps,
            blue_to_move: self.stm,
            halfm: self.halfm,
            fullm: self.fullm,
        }
    }
}

impl Default for Board {
    fn default() -> (b: Board)
        ensures
            b@ == BoardModel::startpos(),
    {
        Board { red: 0x40000000040, blu: 0x1000000000001, gaps: 0, stm: false, halfm: 0, fullm: 1 }
    }
}

impl Board {
    /// Two positions with the same contents are the same position.
    pub proof fn lemma_ext(a: Board, b: Board)
        requires
            a@ == b@,
        ensures
            a == b,
    {
    }

    /// A position with the given contents.
    pub fn from_parts(red: u64, blu: u64, gaps: u64, blue_to_move: bool, halfm: u8, fullm: u16) -> (b:
        Board)
        ensures
            b@ == (BoardModel { red, blu, gaps, blue_to_move, halfm, fullm }),
    {
        Board { red, blu, gaps, stm: blue_to_move, halfm, fullm }
    }

    pub fn stm(&self) -> (s: usize)
        ensures
            s == (if self@.blue_to_move {
                Side::BLU
            } else {
                Side::RED
            }),
    {
        if self.stm {
            Side::BLU
        } else {
            Side::RED
        }
    }

    pub fn occ(&self) -> (r: u64)
        ensures
            r == self@.occ(),
    {
        self.red | self.blu | self.gaps
    }

    pub fn bbs(&self) -> (r: [u64; 3])
        ensures
            r@ == seq![self@.red, self@.blu, self@.gaps],
    {
        let r = [self.red, self.blu, self.gaps];
        assert(r@ =~= seq![self@.red, self@.blu, self@.gaps]);
        r
    }

    pub fn halfm(&self) -> (r: u8)
        ensures
            r == self@.halfm,
    {
        self.halfm
    }

    pub fn fullm(&self) -> (r: u16)
        ensures
            r == self@.fullm,
    {
        self.fullm
    }

    pub fn boys(&self) -> (r: u64)
        ensures
            r == self@.boys(),
    {
        if self.stm {
            self.blu
        } else {
            self.red
        }
    }

    pub fn opps(&self) -> (r: u64)
        ensures
            r == self@.opps(),
    {
        if self.stm {
            self.red
        } else {
            self.blu
        }
    }

    pub fn is_hfm_draw(&self, count: u8) -> (b: bool)
        ensures
            b == (self@.halfm >= count),
    {
        self.halfm >= count
    }

    /// Whether stones and gaps all lie on the 49 squares of the board.
    pub fn is_on_board(&self) -> (b: bool)
        ensures
            b == self@.on_board(),
    {
        (self.red | self.blu | self.gaps) & !Bitboard::ALL == 0
    }

    /// Whether a move can be played and keeps the stones on the board.
    pub fn can_play(&self, mov: Move) -> (b: bool)
        ensures
            b == self@.can_play(mov),
    {
        self.can_make(mov) && (mov.is_pass() || mov.src() == 63 || mov.src() < 49)
    }

    /// A move that can be played on a position on the board leads to a
    /// position on the board.
    pub proof fn lemma_made_on_board(b: BoardModel, mov: Move)
        requires
            b.on_board(),
            b.can_play(mov),
        ensures
            b.made(mov).on_board(),
    {
        mov.lemma_range();
        if mov.to_sq() != 63 {
            let to = mov.to_sq() as u64;
            let from = mov.from_sq() as u64;
            let red = b.red;
            let blu = b.blu;
            let gaps = b.gaps;
            let boys = b.boys();
            let opps = b.opps();
            let singles = Bitboard::spec_singles(mov.to_sq());
            let lifted = if mov.from_sq() != 63 {
                boys ^ (1u64 << from)
            } else {
                boys
            };
            let captures = singles & opps;
            let nb = (lifted ^ (1u64 << to)) ^ captures;
            let no = opps ^ captures;
            assert((boys | opps | gaps) == (red | blu | gaps)) by (bit_vector)
                requires
                    (boys == red && opps == blu) || (boys == blu && opps == red),
            ;
            assert((nb | no | gaps) & !0x1_ffff_ffff_ffffu64 == 0) by (bit_vector)
                requires
                    (boys | opps | gaps) & !0x1_ffff_ffff_ffffu64 == 0,
                    to < 49,
                    from == 63 || from < 49,
                    lifted == (if from != 63 {
                        boys ^ (1u64 << from)
                    } else {
                        boys
                    }),
                    captures == singles & opps,
                    nb == (lifted ^ (1u64 << to)) ^ captures,
                    no == opps ^ captures,
            ;
            assert((nb | no | gaps) == (no | nb | gaps)) by (bit_vector);
        }
    }

    /// Whether `make` can play the move.
    pub fn can_make(&self, mov: Move) -> (b: bool)
        ensures
            b == self@.can_make(mov),
    {
        mov.is_pass() || (mov.to() < 49 && mov.src() < 64 && (mov.src() == 63 || self.halfm < 255)
            && (!self.stm || self.fullm < 65535))
    }

    /// Plays a move.
    pub fn make(&mut self, mov: Move)
        requires
            old(self)@.can_make(mov),
        ensures
            final(self)@ == old(self)@.made(mov),
    {
        if !mov.is_pass() {
            let from = mov.src();
            let to = mov.to();
            let mut boys = self.boys();
            let mut opps = self.opps();
            if self.stm {
                self.fullm = self.fullm + 1;
            }
            if from != 63 {
                boys = boys ^ (1u64 << (from as u64));
                self.halfm = self.halfm + 1;
            } else {
                self.halfm = 0;
            }
            boys = boys ^ (1u64 << (to as u64));
            let captures = Bitboard::singles(to) & opps;
            boys = boys ^ captures;
            opps = opps ^ captures;
            if self.stm {
                self.blu = boys;
                self.red = opps;
            } else {
                self.red = boys;
                self.blu = opps;
            }
        }
        self.stm = !self.stm;
    }

    pub fn game_over(&self) -> (b: bool)
        ensures
            b == self@.game_over(),
    {
        let bocc = Bitboard::count(self.blu);
        let rocc = Bitboard::count(self.red);
        bocc == 0 || rocc == 0 || bocc + rocc == 49 || self.is_hfm_draw(100)
    }

    /// The hash of the position, from the stones of both sides as the side to
    /// move sees them.
    pub fn hash(&self) -> (h: u64)
        ensures
            h == self@.hash(),
    {
        let boys = self.boys();
        let opps = self.opps();
        let mut seed: u64 = 180_620_142;
        let mut n: u64 = 0;
        while n < 52
            invariant
                n <= 52,
                seed == seed_at(n as nat),
            decreases 52 - n,
        {
            seed = rand(seed);
            n = n + 1;
        }
        let mut own: u64 = 0;
        let mut sq: u64 = 0;
        while sq < 49
            invariant
                sq <= 49,
                seed == seed_at((52 + sq) as nat),
                own == keys_below(boys, 0, sq as int),
            decreases 49 - sq,
        {
            seed = rand(seed);
            if (boys >> sq) & 1 == 1 {
                own = own ^ seed;
            }
            sq = sq + 1;
        }
        seed = rand(seed);
        let mut other: u64 = 0;
        sq = 0;
        while sq < 49
            invariant
                sq <= 49,
                seed == seed_at((102 + sq) as nat),
                other == keys_below(opps, 1, sq as int),
            decreases 49 - sq,
        {
            seed = rand(seed);
            if (opps >> sq) & 1 == 1 {
                other = other ^ seed;
            }
            sq = sq + 1;
        }
        own ^ other
    }

    /// The stones of the side to move less those of the other side.
    pub fn material(&self) -> (m: i32)
        ensures
            m == popcount(self@.boys()) - popcount(self@.opps()),
    {
        let socc = Bitboard::count(self.boys());
        let nocc = Bitboard::count(self.opps());
        socc as i32 - nocc as i32
    }

    pub fn game_state(&self) -> (s: GameState)
        ensures
            s == self@.game_state(),
    {
        let socc = Bitboard::count(self.boys());
        let nocc = Bitboard::count(self.opps());
        if socc + nocc == 49 {
            if socc > nocc {
                GameState::Won(0)
            } else if socc < nocc {
                GameState::Lost(0)
            } else {
                GameState::Draw
            }
        } else if socc == 0 {
            GameState::Lost(0)
        } else if nocc == 0 {
            GameState::Won(0)
        } else if self.is_hfm_draw(100) {
            GameState::Draw
        } else {
            GameState::Ongoing
        }
    }
}

} // verus!
