use vstd::prelude::*;
use vstd::string::*;

use crate::ataxx::bitboard::bit;
use crate::ataxx::board::{Board, BoardModel};
use crate::ataxx::moves::{decimal, push_decimal};
use crate::text::{
    is_word, split_words, token_is, unsigned_value, parse_unsigned, views, words_of,
};

verus! {

/// The stones and gaps read so far from the board field of a position text,
/// and the square that is next.
pub struct Placement {
    pub red: u64,
    pub blu: u64,
    pub gaps: u64,
    pub rank: int,
    pub file: int,
}

/// The placement after one more character of the board field, if the
/// character may stand there: a digit from 1 to 7 skips that many squares of
/// the rank, `x` and `o` in either case put a stone on the next square, `-`
/// a gap, and `/` after the seventh square of a rank goes on to the rank
/// below.
pub open spec fn placed(p: Placement, c: u8) -> Option<Placement> {
    let sq = (7 * p.rank + p.file) as u64;
    if 49 <= c <= 55 {
        if p.file + (c - 48) <= 7 {
            Some(Placement { file: p.file + (c - 48), ..p })
        } else {
            None
        }
    } else if c == 47 {
        if p.file == 7 && p.rank > 0 {
            Some(Placement { rank: p.rank - 1, file: 0, ..p })
        } else {
            None
        }
    } else if p.file >= 7 {
        None
    } else if c == 120 || c == 88 {
        Some(Placement { red: p.red | (1u64 << sq), file: p.file + 1, ..p })
    } else if c == 111 || c == 79 {
        Some(Placement { blu: p.blu | (1u64 << sq), file: p.file + 1, ..p })
    } else if c == 45 {
        Some(Placement { gaps: p.gaps | (1u64 << sq), file: p.file + 1, ..p })
    } else {
        None
    }
}

/// The placement after the characters of the board field from the `i`-th on.
pub open spec fn placed_all(p: Placement, field: Seq<u8>, i: int) -> Option<Placement>
    decreases field.len() - i,
{
    if i < 0 || i >= field.len() {
        Some(p)
    } else {
        match placed(p, field[i]) {
            Some(next) => placed_all(next, field, i + 1),
            None => None,
        }
    }
}

/// Where the board field starts: on the first square of the top rank of an
/// empty board.
pub open spec fn empty_board() -> Placement {
    Placement { red: 0, blu: 0, gaps: 0, rank: 6, file: 0 }
}

/// The number in a counter field, or `default` if the field is missing or
/// holds no number that fits.
pub open spec fn counter(words: Seq<Seq<u8>>, i: int, max: nat, default: nat) -> nat {
    if i < words.len() {
        match unsigned_value(words[i], max) {
            Some(v) => v,
            None => default,
        }
    } else {
        default
    }
}

/// The position that a text describes, if it describes one: a board field
/// that fills all seven ranks, then the side to move, which is blue for `o`
/// and red for anything else, then the two counters, which may be missing.
pub open spec fn fen_position(text: Seq<u8>) -> Option<BoardModel> {
    let words = words_of(text);
    if words.len() < 2 {
        None
    } else {
        match placed_all(empty_board(), words[0], 0) {
            Some(p) => if p.rank == 0 && p.file == 7 {
                Some(
                    BoardModel {
                        red: p.red,
                        blu: p.blu,
                        gaps: p.gaps,
                        blue_to_move: is_word(words[1], "o"),
                        halfm: counter(words, 2, 255, 0) as u8,
                        fullm: counter(words, 3, 65535, 1) as u16,
                    },
                )
            } else {
                None
            },
            None => None,
        }
    }
}

/// The character of a square in a position text.
pub open spec fn piece_char(b: BoardModel, sq: int) -> char {
    if bit(b.red, sq) {
        'x'
    } else if bit(b.blu, sq) {
        'o'
    } else {
        '-'
    }
}

/// The count of empty squares as it stands in a position text: nothing for
/// none.
pub open spec fn empty_run(empty: int) -> Seq<char> {
    if empty > 0 {
        decimal(empty as nat)
    } else {
        Seq::<char>::empty()
    }
}

/// The text of a rank from the file `file` on, after `empty` empty squares.
pub open spec fn rank_text(b: BoardModel, rank: int, file: int, empty: int) -> Seq<char>
    decreases 7 - file,
{
    if file >= 7 {
        empty_run(empty)
    } else if bit(b.occ(), 7 * rank + file) {
        empty_run(empty) + seq![piece_char(b, 7 * rank + file)] + rank_text(b, rank, file + 1, 0)
    } else {
        rank_text(b, rank, file + 1, empty + 1)
    }
}

/// The text of the ranks from `rank` down to the first, with `/` between
/// them.
pub open spec fn ranks_text(b: BoardModel, rank: int) -> Seq<char>
    decreases rank,
{
    if rank <= 0 {
        rank_text(b, 0, 0, 0)
    } else {
        rank_text(b, rank, 0, 0) + seq!['/'] + ranks_text(b, rank - 1)
    }
}

/// The text of a position: the ranks from the top, the side to move, and the
/// two counters.
pub open spec fn fen_text(b: BoardModel) -> Seq<char> {
    ranks_text(b, 6) + seq![' ', if b.blue_to_move {
        'o'
    } else {
        'x'
    }] + seq![' '] + decimal(b.halfm as nat) + seq![' '] + decimal(b.fullm as nat)
}

/// Stones and gaps that lie on the board do so with one more on a square of
/// the board.
proof fn lemma_place_on_board(red: u64, blu: u64, gaps: u64, sq: u64)
    requires
        sq < 49,
        (red | blu | gaps) & !0x1_ffff_ffff_ffffu64 == 0,
    ensures
        ((red | (1u64 << sq)) | blu | gaps) & !0x1_ffff_ffff_ffffu64 == 0,
        (red | (blu | (1u64 << sq)) | gaps) & !0x1_ffff_ffff_ffffu64 == 0,
        (red | blu | (gaps | (1u64 << sq))) & !0x1_ffff_ffff_ffffu64 == 0,
{
    assert(((red | (1u64 << sq)) | blu | gaps) & !0x1_ffff_ffff_ffffu64 == 0 && (red | (blu | (1u64
        << sq)) | gaps) & !0x1_ffff_ffff_ffffu64 == 0 && (red | blu | (gaps | (1u64 << sq)))
        & !0x1_ffff_ffff_ffffu64 == 0) by (bit_vector)
        requires
            sq < 49,
            (red | blu | gaps) & !0x1_ffff_ffff_ffffu64 == 0,
    ;
}

fn place(red: &mut u64, blu: &mut u64, gaps: &mut u64, rank: &mut usize, file: &mut usize, c: u8) -> (ok:
    bool)
    requires
        *old(rank) <= 6,
        *old(file) <= 7,
        (*old(red) | *old(blu) | *old(gaps)) & !0x1_ffff_ffff_ffffu64 == 0,
    ensures
        *final(rank) <= 6,
        *final(file) <= 7,
        (*final(red) | *final(blu) | *final(gaps)) & !0x1_ffff_ffff_ffffu64 == 0,
        match placed(
            Placement {
                red: *old(red),
                blu: *old(blu),
                gaps: *old(gaps),
                rank: *old(rank) as int,
                file: *old(file) as int,
            },
            c,
        ) {
            Some(p) => ok && p == (Placement {
                red: *final(red),
                blu: *final(blu),
                gaps: *final(gaps),
                rank: *final(rank) as int,
                file: *final(file) as int,
            }),
            None => !ok,
        },
{
    if 49 <= c && c <= 55 {
        let skip = (c - 48) as usize;
        if *file + skip <= 7 {
            *file = *file + skip;
            true
        } else {
            false
        }
    } else if c == 47 {
        if *file == 7 && *rank > 0 {
            *rank = *rank - 1;
            *file = 0;
            true
        } else {
            false
        }
    } else if *file >= 7 {
        false
    } else {
        let sq: u64 = (7 * *rank + *file) as u64;
        proof {
            lemma_place_on_board(*red, *blu, *gaps, sq);
        }
        if c == 120 || c == 88 {
            *red = *red | (1u64 << sq);
            *file = *file + 1;
            true
        } else if c == 111 || c == 79 {
            *blu = *blu | (1u64 << sq);
            *file = *file + 1;
            true
        } else if c == 45 {
            *gaps = *gaps | (1u64 << sq);
            *file = *file + 1;
            true
        } else {
            false
        }
    }
}

impl Board {
    /// The text of the opening position.
    pub const STARTPOS: &'static str = "x5o/7/7/7/7/7/o5x x 0 1";

    /// Reads a position from its text, if the text describes one.
    pub fn try_from_fen(fen: &str) -> (r: Option<Board>)
        ensures
            match r {
                Some(b) => fen_position(fen.spec_bytes()) == Some(b@) && b@.on_board(),
                None => fen_position(fen.spec_bytes()) is None,
            },
    {
        Board::parse_fen(fen.as_bytes())
    }

    /// Reads a position from the bytes of its text, if they describe one.
    pub fn parse_fen(text: &[u8]) -> (r: Option<Board>)
        ensures
            match r {
                Some(b) => fen_position(text@) == Some(b@) && b@.on_board(),
                None => fen_position(text@) is None,
            },
    {
        let words = split_words(text);
        if words.len() < 2 {
            return None;
        }
        let ghost ws = words_of(text@);
        assert(views(words@)[0] == words@[0]@ && views(words@)[1] == words@[1]@);
        let field = &words[0];
        let mut red: u64 = 0;
        let mut blu: u64 = 0;
        let mut gaps: u64 = 0;
        let mut rank: usize = 6;
        let mut file: usize = 0;
        let mut i: usize = 0;
        assert((0u64 | 0u64 | 0u64) & !0x1_ffff_ffff_ffffu64 == 0) by (bit_vector);
        while i < field.len()
            invariant
                i <= field@.len(),
                rank <= 6,
                file <= 7,
                words_of(text@).len() >= 2,
                words_of(text@)[0] == field@,
                (red | blu | gaps) & !0x1_ffff_ffff_ffffu64 == 0,
                placed_all(empty_board(), field@, 0) == placed_all(
                    Placement { red, blu, gaps, rank: rank as int, file: file as int },
                    field@,
                    i as int,
                ),
            decreases field@.len() - i,
        {
            let ghost at = Placement { red, blu, gaps, rank: rank as int, file: file as int };
            let ok = place(&mut red, &mut blu, &mut gaps, &mut rank, &mut file, field[i]);
            assert(placed_all(at, field@, i as int) == (match placed(at, field@[i as int]) {
                Some(next) => placed_all(next, field@, i + 1),
                None => None,
            }));
            if !ok {
                return None;
            }
            i = i + 1;
        }
        assert(placed_all(empty_board(), field@, 0) == Some(
            Placement { red, blu, gaps, rank: rank as int, file: file as int },
        ));
        if rank != 0 || file != 7 {
            return None;
        }
        let stm = token_is(words[1].as_slice(), "o");
        let halfm: u8 = if words.len() > 2 {
            assert(views(words@)[2] == words@[2]@);
            match parse_unsigned(words[2].as_slice(), 255) {
                Some(v) => v as u8,
                None => 0,
            }
        } else {
            0
        };
        let fullm: u16 = if words.len() > 3 {
            assert(views(words@)[3] == words@[3]@);
            match parse_unsigned(words[3].as_slice(), 65535) {
                Some(v) => v as u16,
                None => 1,
            }
        } else {
            1
        };
        Some(Board::from_parts(red, blu, gaps, stm, halfm, fullm))
    }

    /// Reads a position from a text that describes one.
    pub fn from_fen(fen: &str) -> (b: Board)
        requires
            fen_position(fen.spec_bytes()) is Some,
        ensures
            fen_position(fen.spec_bytes()) == Some(b@),
    {
        match Board::try_from_fen(fen) {
            Some(b) => b,
            None => vstd::pervasive::unreached(),
        }
    }

    /// The text of the position.
    pub fn as_fen(&self) -> (fen: String)
        ensures
            fen@ == fen_text(self@),
    {
        let mut fen = String::new();
        let occ = self.occ();
        let bbs = self.bbs();
        let red = bbs[0];
        let blu = bbs[1];
        let mut rank: usize = 7;
        while rank > 0
            invariant
                rank <= 7,
                occ == self@.occ(),
                red == self@.red,
                blu == self@.blu,
                ranks_text(self@, 6) == fen@ + (if rank > 0 {
                    ranks_text(self@, rank - 1)
                } else {
                    Seq::<char>::empty()
                }),
            decreases rank,
        {
            rank = rank - 1;
            let ghost before = fen@;
            let mut empty: u64 = 0;
            let mut file: usize = 0;
            while file < 7
                invariant
                    file <= 7,
                    rank <= 6,
                    empty <= file,
                    occ == self@.occ(),
                    red == self@.red,
                    blu == self@.blu,
                    before + rank_text(self@, rank as int, 0, 0) == fen@ + rank_text(
                        self@,
                        rank as int,
                        file as int,
                        empty as int,
                    ),
                decreases 7 - file,
            {
                let sq: u64 = (7 * rank + file) as u64;
                let ghost prev = fen@;
                let ghost run = empty as int;
                if (occ >> sq) & 1 == 1 {
                    if empty > 0 {
                        push_decimal(&mut fen, empty);
                        empty = 0;
                    }
                    if (red >> sq) & 1 == 1 {
                        proof {
                            reveal_strlit("x");
                        }
                        fen.append("x");
                    } else if (blu >> sq) & 1 == 1 {
                        proof {
                            reveal_strlit("o");
                        }
                        fen.append("o");
                    } else {
                        proof {
                            reveal_strlit("-");
                        }
                        fen.append("-");
                    }
                    assert(fen@ + rank_text(self@, rank as int, file + 1, 0) =~= prev + rank_text(
                        self@,
                        rank as int,
                        file as int,
                        run,
                    )) by {
                        assert(fen@ =~= prev + empty_run(run) + seq![
                            piece_char(self@, sq as int),
                        ]);
                    }
                } else {
                    empty = empty + 1;
                }
                file = file + 1;
            }
            if empty > 0 {
                push_decimal(&mut fen, empty);
            }
            if rank > 0 {
                proof {
                    reveal_strlit("/");
                }
                fen.append("/");
            }
            assert(ranks_text(self@, 6) =~= fen@ + (if rank > 0 {
                ranks_text(self@, rank - 1)
            } else {
                Seq::<char>::empty()
            }));
        }
        proof {
            reveal_strlit(" x");
            reveal_strlit(" o");
            reveal_strlit(" ");
        }
        if self.stm() == 1 {
            fen.append(" o");
        } else {
            fen.append(" x");
        }
        fen.append(" ");
        push_decimal(&mut fen, self.halfm() as u64);
        fen.append(" ");
        push_decimal(&mut fen, self.fullm() as u64);
        assert(fen@ =~= fen_text(self@));
        fen
    }
}

/// The two characters of a square in a diagram: a blank, then `x` for a red
/// stone, `o` for a blue one, `-` for a gap and `.` for a free square.
pub open spec fn diagram_square(b: BoardModel, sq: int) -> Seq<char> {
    if bit(b.red, sq) {
        seq![' ', 'x']
    } else if bit(b.blu, sq) {
        seq![' ', 'o']
    } else if bit(b.gaps, sq) {
        seq![' ', '-']
    } else {
        seq![' ', '.']
    }
}

/// The first `n` squares of a rank in a diagram.
pub open spec fn diagram_rank(b: BoardModel, rank: int, n: int) -> Seq<char>
    decreases n,
{
    if n <= 0 {
        Seq::<char>::empty()
    } else {
        diagram_rank(b, rank, n - 1) + diagram_square(b, 7 * rank + n - 1)
    }
}

/// The ranks of a diagram from the top down to `rank`, a line each.
pub open spec fn diagram_from_top(b: BoardModel, rank: int) -> Seq<char>
    decreases 7 - rank,
{
    if rank >= 7 {
        Seq::<char>::empty()
    } else {
        diagram_from_top(b, rank + 1) + diagram_rank(b, rank, 7) + seq!['\n']
    }
}

impl Board {
    /// A diagram of the board: a line for each rank, the top one first.
    pub fn diagram(&self) -> (text: String)
        ensures
            text@ == diagram_from_top(self@, 0),
    {
        let mut text = String::new();
        let bbs = self.bbs();
        let red = bbs[0];
        let blu = bbs[1];
        let gaps = bbs[2];
        let mut rank: usize = 7;
        while rank > 0
            invariant
                rank <= 7,
                red == self@.red,
                blu == self@.blu,
                gaps == self@.gaps,
                text@ == diagram_from_top(self@, rank as int),
            decreases rank,
        {
            rank = rank - 1;
            let ghost before = text@;
            let mut file: usize = 0;
            while file < 7
                invariant
                    file <= 7,
                    rank <= 6,
                    red == self@.red,
                    blu == self@.blu,
                    gaps == self@.gaps,
                    text@ == before + diagram_rank(self@, rank as int, file as int),
                decreases 7 - file,
            {
                let sq: u64 = (7 * rank + file) as u64;
                proof {
                    reveal_strlit(" x");
                    reveal_strlit(" o");
                    reveal_strlit(" -");
                    reveal_strlit(" .");
                }
                if (red >> sq) & 1 == 1 {
                    text.append(" x");
                } else if (blu >> sq) & 1 == 1 {
                    text.append(" o");
                } else if (gaps >> sq) & 1 == 1 {
                    text.append(" -");
                } else {
                    text.append(" .");
                }
                file = file + 1;
                assert(text@ =~= before + diagram_rank(self@, rank as int, file as int));
            }
            proof {
                reveal_strlit("\n");
            }
            text.append("\n");
            assert(text@ =~= diagram_from_top(self@, rank as int));
        }
        text
    }
}

} // verus!
