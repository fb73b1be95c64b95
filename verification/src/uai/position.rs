use vstd::prelude::*;
use vstd::string::*;

use crate::ataxx::board::{Board, BoardModel};
use crate::ataxx::fen::fen_position;
use crate::ataxx::moves::Move;
use crate::text::{is_word, same_bytes, token_is};

verus! {

/// The bytes of the text of a move.
pub open spec fn move_bytes(mov: Move) -> Seq<u8> {
    vstd::utf8::encode_utf8(mov.uai_text())
}

/// The first of the moves from the `i`-th on whose text is `word`.
pub open spec fn move_named(moves: Seq<Move>, word: Seq<u8>, i: int) -> Option<Move>
    decreases moves.len() - i,
{
    if i < 0 || i >= moves.len() {
        None
    } else if move_bytes(moves[i]) == word {
        Some(moves[i])
    } else {
        move_named(moves, word, i + 1)
    }
}

/// The text of the position that the words of a `position` line from the
/// `i`-th on describe: the opening position for `startpos`, which takes the
/// place of what stood before it, and any word before the word `moves`, but
/// `position` and `fen`, with a blank behind it.
pub open spec fn position_text(words: Seq<Vec<u8>>, i: int, so_far: Seq<u8>, moves: bool) -> Seq<
    u8,
>
    decreases words.len() - i,
{
    if i < 0 || i >= words.len() {
        so_far
    } else if is_word(words[i]@, "position") || is_word(words[i]@, "fen") {
        position_text(words, i + 1, so_far, moves)
    } else if is_word(words[i]@, "startpos") {
        position_text(words, i + 1, Board::STARTPOS.spec_bytes(), moves)
    } else if is_word(words[i]@, "moves") {
        position_text(words, i + 1, so_far, true)
    } else if moves {
        position_text(words, i + 1, so_far, moves)
    } else {
        position_text(words, i + 1, so_far + words[i]@ + seq![32u8], moves)
    }
}

/// The place of the first word `moves` from the `i`-th word on, or the
/// number of the words if there is none.
pub open spec fn moves_at(words: Seq<Vec<u8>>, i: int) -> int
    decreases words.len() - i,
{
    if i < 0 || i >= words.len() {
        i
    } else if is_word(words[i]@, "position") || is_word(words[i]@, "fen") || is_word(
        words[i]@,
        "startpos",
    ) {
        moves_at(words, i + 1)
    } else if is_word(words[i]@, "moves") {
        i
    } else {
        moves_at(words, i + 1)
    }
}

/// Whether a word of the list of moves is skipped: the words that take no
/// part in the text of the position take none in the moves.
pub open spec fn skipped(word: Seq<u8>) -> bool {
    is_word(word, "position") || is_word(word, "fen") || is_word(word, "startpos") || is_word(
        word,
        "moves",
    )
}

/// The position after the moves named by the words from the `i`-th on were
/// played from `board`, if each of them names a legal move that can be
/// played.
pub open spec fn played(words: Seq<Vec<u8>>, i: int, board: BoardModel) -> Option<BoardModel>
    decreases words.len() - i,
{
    if i < 0 || i >= words.len() {
        Some(board)
    } else if skipped(words[i]@) {
        played(words, i + 1, board)
    } else {
        match move_named(board.legal_moves(), words[i]@, 0) {
            Some(mov) => if board.on_board() && board.can_play(mov) {
                played(words, i + 1, board.made(mov))
            } else {
                None
            },
            None => None,
        }
    }
}

/// The position that a `position` line sets, if its words describe one and
/// name legal moves.
pub open spec fn position_of(words: Seq<Vec<u8>>) -> Option<BoardModel> {
    match fen_position(position_text(words, 0, Seq::<u8>::empty(), false)) {
        Some(board) => played(words, moves_at(words, 0), board),
        None => None,
    }
}

fn find_move(moves: &Vec<Move>, word: &[u8]) -> (r: Option<Move>)
    ensures
        r == move_named(moves@, word@, 0),
{
    let mut i: usize = 0;
    while i < moves.len()
        invariant
            i <= moves@.len(),
            move_named(moves@, word@, 0) == move_named(moves@, word@, i as int),
        decreases moves@.len() - i,
    {
        let text = moves[i].uai();
        if same_bytes(text.as_str().as_bytes(), word) {
            return Some(moves[i]);
        }
        i = i + 1;
    }
    None
}

/// Sets the position that a `position` line describes: the position given
/// as `startpos` or by its text, and the moves played from it. Returns
/// whether it did; a line that describes no position or names a move that
/// is not legal leaves the position as it was.
pub fn position(words: &Vec<Vec<u8>>, pos: &mut Board) -> (set: bool)
    ensures
        match position_of(words@) {
            Some(board) => set && final(pos)@ == board,
            None => !set && *final(pos) == *old(pos),
        },
        set ==> final(pos)@.on_board(),
{
    let mut text: Vec<u8> = Vec::new();
    let mut moves = false;
    let mut first_move: usize = words.len();
    let mut i: usize = 0;
    while i < words.len()
        invariant
            i <= words@.len(),
            position_text(words@, 0, Seq::<u8>::empty(), false) == position_text(
                words@,
                i as int,
                text@,
                moves,
            ),
            !moves ==> first_move == words@.len() && moves_at(words@, 0) == moves_at(
                words@,
                i as int,
            ),
            moves ==> first_move == moves_at(words@, 0) && first_move < i,
        decreases words@.len() - i,
    {
        let word = words[i].as_slice();
        assert(moves_at(words@, i as int) == (if is_word(words@[i as int]@, "position")
            || is_word(words@[i as int]@, "fen") || is_word(words@[i as int]@, "startpos") {
            moves_at(words@, i + 1)
        } else if is_word(words@[i as int]@, "moves") {
            i as int
        } else {
            moves_at(words@, i + 1)
        }));
        if token_is(word, "position") || token_is(word, "fen") {
        } else if token_is(word, "startpos") {
            text = Vec::new();
            let start = Board::STARTPOS.as_bytes();
            let mut j: usize = 0;
            while j < start.len()
                invariant
                    j <= start@.len(),
                    text@ == start@.subrange(0, j as int),
                decreases start@.len() - j,
            {
                text.push(start[j]);
                j = j + 1;
                assert(text@ =~= start@.subrange(0, j as int));
            }
            assert(text@ =~= start@);
        } else if token_is(word, "moves") {
            if !moves {
                moves = true;
                first_move = i;
            }
        } else if !moves {
            let ghost before = text@;
            let mut j: usize = 0;
            while j < word.len()
                invariant
                    j <= word@.len(),
                    text@ == before + word@.subrange(0, j as int),
                decreases word@.len() - j,
            {
                text.push(word[j]);
                j = j + 1;
                assert(text@ =~= before + word@.subrange(0, j as int));
            }
            text.push(32);
            assert(text@ =~= before + word@ + seq![32u8]);
        }
        i = i + 1;
    }
    assert(first_move == moves_at(words@, 0));
    i = first_move;
    let mut board = match Board::parse_fen(text.as_slice()) {
        Some(b) => b,
        None => {
            return false;
        },
    };
    let ghost first = board@;
    while i < words.len()
        invariant
            i <= words@.len(),
            board@.on_board(),
            *pos == *old(pos),
            position_of(words@) == played(words@, i as int, board@),
        decreases words@.len() - i,
    {
        let word = words[i].as_slice();
        if token_is(word, "position") || token_is(word, "fen") || token_is(word, "startpos")
            || token_is(word, "moves") {
        } else {
            let moves = board.map_legal_moves();
            match find_move(&moves, word) {
                Some(mov) => {
                    if !board.can_play(mov) {
                        return false;
                    }
                    proof {
                        Board::lemma_made_on_board(board@, mov);
                    }
                    board.make(mov);
                },
                None => {
                    return false;
                },
            }
        }
        i = i + 1;
    }
    *pos = board;
    true
}

/// The opening position lies on the board.
pub proof fn lemma_startpos_on_board()
    ensures
        BoardModel::startpos().on_board(),
{
    assert((0x40000000040u64 | 0x1000000000001u64 | 0u64) & !0x1_ffff_ffff_ffffu64 == 0)
        by (bit_vector);
}

} // verus!
