use vstd::prelude::*;
use vstd::string::*;
use vstd::utf8::is_ascii_chars;

use crate::ataxx::bitboard::{bit, Bitboard};
use crate::ataxx::board::BoardModel;
use crate::ataxx::fen::{
    counter, empty_board, empty_run, fen_position, fen_text, piece_char, placed, placed_all,
    rank_text, ranks_text, Placement,
};
use crate::ataxx::moves::{decimal, digit_char};
use crate::ataxx::movegen::lemma_on_board_square;
use crate::text::{
    all_digits, digits_value, is_space, is_word, unsigned_value, word_end, words_from, words_of,
};

verus! {

/// The bytes of a text whose characters are all plain ones, below 128: one
/// for each character.
pub open spec fn plain_bytes(chars: Seq<char>) -> Seq<u8> {
    Seq::new(chars.len(), |i: int| chars[i] as u8)
}

/// Whether no square of the board is held twice: by stones of both sides, or
/// by a stone and a gap.
pub open spec fn apart(b: BoardModel) -> bool {
    b.red & b.blu == 0 && b.red & b.gaps == 0 && b.blu & b.gaps == 0
}

/// Whether the square `i` comes before the file `file` of the rank `rank` in
/// a position text, which goes through the ranks from the top and through
/// each from its first file.
pub open spec fn written(i: int, rank: int, file: int) -> bool {
    0 <= i < 49 && (i / 7 > rank || (i / 7 == rank && i % 7 < file))
}

/// Whether a placement holds of the board `b` what is written before the
/// file `file` of the rank `rank`, and nothing else.
pub open spec fn agrees(p: Placement, b: BoardModel, rank: int, file: int) -> bool {
    &&& forall|i: int|
        0 <= i < 64 ==> #[trigger] bit(p.red, i) == (bit(b.red, i) && written(i, rank, file))
    &&& forall|i: int|
        0 <= i < 64 ==> #[trigger] bit(p.blu, i) == (bit(b.blu, i) && written(i, rank, file))
    &&& forall|i: int|
        0 <= i < 64 ==> #[trigger] bit(p.gaps, i) == (bit(b.gaps, i) && written(i, rank, file))
}

/// The bytes of two texts, one after the other.
proof fn lemma_bytes_concat(a: Seq<char>, b: Seq<char>)
    ensures
        plain_bytes(a + b) == plain_bytes(a) + plain_bytes(b),
{
    assert(plain_bytes(a + b) =~= plain_bytes(a) + plain_bytes(b));
}

/// Reading a board field from a place on is reading what is left of it.
proof fn lemma_placed_shift(p: Placement, s: Seq<u8>, i: int)
    requires
        0 <= i <= s.len(),
    ensures
        placed_all(p, s, i) == placed_all(p, s.subrange(i, s.len() as int), 0),
    decreases s.len() - i,
{
    let t = s.subrange(i, s.len() as int);
    if i < s.len() {
        assert(t[0] == s[i]);
        match placed(p, s[i]) {
            Some(n) => {
                lemma_placed_shift(n, s, i + 1);
                lemma_placed_shift(n, t, 1);
                assert(t.subrange(1, t.len() as int) =~= s.subrange(i + 1, s.len() as int));
            },
            None => {},
        }
    }
}

/// Reading two pieces of a board field, one after the other.
proof fn lemma_placed_concat(p: Placement, a: Seq<u8>, b: Seq<u8>)
    ensures
        placed_all(p, a + b, 0) == (match placed_all(p, a, 0) {
            Some(q) => placed_all(q, b, 0),
            None => None,
        }),
    decreases a.len(),
{
    if a.len() == 0 {
        assert(a + b =~= b);
    } else {
        assert((a + b)[0] == a[0]);
        match placed(p, a[0]) {
            Some(n) => {
                lemma_placed_shift(n, a + b, 1);
                lemma_placed_shift(n, a, 1);
                let rest = a.subrange(1, a.len() as int);
                assert((a + b).subrange(1, (a + b).len() as int) =~= rest + b);
                lemma_placed_concat(n, rest, b);
            },
            None => {},
        }
    }
}

/// Reading one character of a board field.
proof fn lemma_placed_one(p: Placement, c: u8)
    ensures
        placed_all(p, seq![c], 0) == placed(p, c),
{
    let s = seq![c];
    assert(s[0] == c);
    match placed(p, c) {
        Some(n) => {
            assert(placed_all(n, s, 1) == Some(n));
        },
        None => {},
    }
}

/// A square is set in a bitboard with one more square set if it was set or
/// is that square.
proof fn lemma_or_bit(a: u64, sq: u64, i: int)
    requires
        sq < 64,
        0 <= i < 64,
    ensures
        bit(a | (1u64 << sq), i) == (bit(a, i) || i == sq),
{
    let iu = i as u64;
    assert((((a | (1u64 << sq)) >> iu) & 1 == 1) == ((a >> iu) & 1 == 1 || iu == sq))
        by (bit_vector)
        requires
            iu < 64,
            sq < 64,
    ;
}

/// A square is set in three bitboards taken together if it is set in one.
proof fn lemma_occ_bit(r: u64, b: u64, g: u64, i: int)
    requires
        0 <= i < 64,
    ensures
        bit(r | b | g, i) == (bit(r, i) || bit(b, i) || bit(g, i)),
{
    let iu = i as u64;
    assert((((r | b | g) >> iu) & 1 == 1) == ((r >> iu) & 1 == 1 || (b >> iu) & 1 == 1 || (g
        >> iu) & 1 == 1)) by (bit_vector)
        requires
            iu < 64,
    ;
}

/// No square is set in two bitboards that have none in common.
proof fn lemma_apart_bit(a: u64, b: u64, i: int)
    requires
        0 <= i < 64,
        a & b == 0,
    ensures
        !(bit(a, i) && bit(b, i)),
{
    let iu = i as u64;
    assert(!((a >> iu) & 1 == 1 && (b >> iu) & 1 == 1)) by (bit_vector)
        requires
            iu < 64,
            a & b == 0,
    ;
}

/// Two bitboards that agree in their lowest `n` squares agree in what these
/// hold.
proof fn lemma_low_equal(a: u64, b: u64, n: nat)
    requires
        n <= 64,
        forall|i: int| 0 <= i < n ==> bit(a, i) == bit(b, i),
    ensures
        n < 64 ==> a & (((1u64 << (n as u64)) - 1) as u64) == b & (((1u64 << (n as u64)) - 1) as u64),
        n == 64 ==> a == b,
    decreases n,
{
    if n == 0 {
        assert(a & (((1u64 << 0u64) - 1) as u64) == b & (((1u64 << 0u64) - 1) as u64))
            by (bit_vector);
    } else {
        let m = (n - 1) as u64;
        lemma_low_equal(a, b, (n - 1) as nat);
        assert(bit(a, n - 1) == bit(b, n - 1));
        assert(((a >> m) & 1 == 1) == ((b >> m) & 1 == 1));
        if n < 64 {
            let k = n as u64;
            assert(a & (((1u64 << k) - 1) as u64) == b & (((1u64 << k) - 1) as u64)) by (bit_vector)
                requires
                    k == m + 1,
                    k < 64,
                    a & (((1u64 << m) - 1) as u64) == b & (((1u64 << m) - 1) as u64),
                    ((a >> m) & 1 == 1) == ((b >> m) & 1 == 1),
            ;
        } else {
            assert(a == b) by (bit_vector)
                requires
                    m == 63,
                    a & (((1u64 << m) - 1) as u64) == b & (((1u64 << m) - 1) as u64),
                    ((a >> m) & 1 == 1) == ((b >> m) & 1 == 1),
            ;
        }
    }
}

/// The text of a rank, read as a board field, puts the stones and gaps of
/// the rank where they are and comes to the end of the rank.
proof fn lemma_rank_read(b: BoardModel, p: Placement, rank: int, file: int, empty: int)
    requires
        apart(b),
        0 <= rank <= 6,
        0 <= empty <= file <= 7,
        p.rank == rank,
        p.file == file - empty,
        agrees(p, b, rank, file),
    ensures
        match placed_all(p, plain_bytes(rank_text(b, rank, file, empty)), 0) {
            Some(q) => q.rank == rank && q.file == 7 && agrees(q, b, rank, 7),
            None => false,
        },
    decreases 7 - file,
{
    let sq = 7 * rank + file;
    let run = plain_bytes(empty_run(empty));
    // the count of the empty squares, if there are any
    let p1 = Placement { file: file, ..p };
    assert(placed_all(p, run, 0) == Some(p1)) by {
        if empty > 0 {
            assert(decimal(empty as nat) == seq![digit_char(empty)]);
            let c = (48 + empty) as u8;
            assert(run =~= seq![c]);
            lemma_placed_one(p, c);
        } else {
            assert(run =~= Seq::<u8>::empty());
        }
    }
    if file >= 7 {
    } else if bit(b.occ(), sq) {
        let pc = piece_char(b, sq);
        let rest = rank_text(b, rank, file + 1, 0);
        lemma_bytes_concat(empty_run(empty) + seq![pc], rest);
        lemma_bytes_concat(empty_run(empty), seq![pc]);
        lemma_placed_concat(p, run + plain_bytes(seq![pc]), plain_bytes(rest));
        lemma_placed_concat(p, run, plain_bytes(seq![pc]));
        assert(plain_bytes(seq![pc]) =~= seq![pc as u8]);
        lemma_placed_one(p1, pc as u8);
        lemma_occ_bit(b.red, b.blu, b.gaps, sq);
        lemma_apart_bit(b.red, b.blu, sq);
        lemma_apart_bit(b.red, b.gaps, sq);
        lemma_apart_bit(b.blu, b.gaps, sq);
        let squ = sq as u64;
        assert((7 * p1.rank + p1.file) as u64 == squ);
        let p2 = placed(p1, pc as u8)->0;
        assert(placed(p1, pc as u8) is Some);
        assert(p2.rank == rank && p2.file == file + 1);
        assert forall|i: int| 0 <= i < 64 implies written(i, rank, file + 1) == (written(
            i,
            rank,
            file,
        ) || i == sq) by {}
        assert(agrees(p2, b, rank, file + 1)) by {
            assert forall|i: int| 0 <= i < 64 implies #[trigger] bit(p2.red, i) == (bit(b.red, i)
                && written(i, rank, file + 1)) by {
                assert(bit(p1.red, i) == (bit(b.red, i) && written(i, rank, file)));
                lemma_or_bit(p1.red, squ, i);
            }
            assert forall|i: int| 0 <= i < 64 implies #[trigger] bit(p2.blu, i) == (bit(b.blu, i)
                && written(i, rank, file + 1)) by {
                assert(bit(p1.blu, i) == (bit(b.blu, i) && written(i, rank, file)));
                lemma_or_bit(p1.blu, squ, i);
            }
            assert forall|i: int| 0 <= i < 64 implies #[trigger] bit(p2.gaps, i) == (bit(
                b.gaps,
                i,
            ) && written(i, rank, file + 1)) by {
                assert(bit(p1.gaps, i) == (bit(b.gaps, i) && written(i, rank, file)));
                lemma_or_bit(p1.gaps, squ, i);
            }
        }
        lemma_rank_read(b, p2, rank, file + 1, 0);
    } else {
        lemma_occ_bit(b.red, b.blu, b.gaps, sq);
        assert forall|i: int| 0 <= i < 64 implies written(i, rank, file + 1) == (written(
            i,
            rank,
            file,
        ) || i == sq) by {}
        assert(agrees(p, b, rank, file + 1)) by {
            assert forall|i: int| 0 <= i < 64 implies #[trigger] bit(p.red, i) == (bit(b.red, i)
                && written(i, rank, file + 1)) by {
                assert(bit(p.red, i) == (bit(b.red, i) && written(i, rank, file)));
            }
            assert forall|i: int| 0 <= i < 64 implies #[trigger] bit(p.blu, i) == (bit(b.blu, i)
                && written(i, rank, file + 1)) by {
                assert(bit(p.blu, i) == (bit(b.blu, i) && written(i, rank, file)));
            }
            assert forall|i: int| 0 <= i < 64 implies #[trigger] bit(p.gaps, i) == (bit(
                b.gaps,
                i,
            ) && written(i, rank, file + 1)) by {
                assert(bit(p.gaps, i) == (bit(b.gaps, i) && written(i, rank, file)));
            }
        }
        lemma_rank_read(b, p, rank, file + 1, empty + 1);
    }
}

/// The text of the ranks from one down to the first, read as a board field,
/// puts the stones and gaps of these ranks where they are and comes to the
/// end of the first rank.
proof fn lemma_ranks_read(b: BoardModel, p: Placement, rank: int)
    requires
        apart(b),
        0 <= rank <= 6,
        p.rank == rank,
        p.file == 0,
        agrees(p, b, rank, 0),
    ensures
        match placed_all(p, plain_bytes(ranks_text(b, rank)), 0) {
            Some(q) => q.rank == 0 && q.file == 7 && agrees(q, b, 0, 7),
            None => false,
        },
    decreases rank,
{
    lemma_rank_read(b, p, rank, 0, 0);
    if rank > 0 {
        let first = rank_text(b, rank, 0, 0);
        let rest = ranks_text(b, rank - 1);
        lemma_bytes_concat(first + seq!['/'], rest);
        lemma_bytes_concat(first, seq!['/']);
        lemma_placed_concat(p, plain_bytes(first) + plain_bytes(seq!['/']), plain_bytes(rest));
        lemma_placed_concat(p, plain_bytes(first), plain_bytes(seq!['/']));
        assert(plain_bytes(seq!['/']) =~= seq![47u8]);
        let q = placed_all(p, plain_bytes(first), 0)->0;
        lemma_placed_one(q, 47u8);
        let q2 = Placement { rank: rank - 1, file: 0, ..q };
        assert(placed(q, 47u8) == Some(q2));
        assert forall|i: int| 0 <= i < 64 implies written(i, rank - 1, 0) == written(i, rank, 7) by {}
        assert(agrees(q2, b, rank - 1, 0)) by {
            assert forall|i: int| 0 <= i < 64 implies #[trigger] bit(q2.red, i) == (bit(b.red, i)
                && written(i, rank - 1, 0)) by {
                assert(bit(q.red, i) == (bit(b.red, i) && written(i, rank, 7)));
            }
            assert forall|i: int| 0 <= i < 64 implies #[trigger] bit(q2.blu, i) == (bit(b.blu, i)
                && written(i, rank - 1, 0)) by {
                assert(bit(q.blu, i) == (bit(b.blu, i) && written(i, rank, 7)));
            }
            assert forall|i: int| 0 <= i < 64 implies #[trigger] bit(q2.gaps, i) == (bit(
                b.gaps,
                i,
            ) && written(i, rank - 1, 0)) by {
                assert(bit(q.gaps, i) == (bit(b.gaps, i) && written(i, rank, 7)));
            }
        }
        lemma_ranks_read(b, q2, rank - 1);
    }
}

/// The board field of the text of a position, read back, gives the stones
/// and gaps of the position.
pub proof fn lemma_board_field(b: BoardModel)
    requires
        b.on_board(),
        apart(b),
    ensures
        placed_all(empty_board(), plain_bytes(ranks_text(b, 6)), 0) == Some(
            Placement { red: b.red, blu: b.blu, gaps: b.gaps, rank: 0, file: 7 },
        ),
{
    let p = empty_board();
    assert forall|i: int| 0 <= i < 64 implies !bit(0u64, i) by {
        let iu = i as u64;
        assert((0u64 >> iu) & 1 != 1) by (bit_vector);
    }
    assert(agrees(p, b, 6, 0));
    lemma_ranks_read(b, p, 6);
    let q = placed_all(p, plain_bytes(ranks_text(b, 6)), 0)->0;
    assert((b.red | b.blu | b.gaps) & !Bitboard::ALL == 0);
    let (r, u, g) = (b.red, b.blu, b.gaps);
    assert(r & !0x1_ffff_ffff_ffffu64 == 0 && u & !0x1_ffff_ffff_ffffu64 == 0 && g
        & !0x1_ffff_ffff_ffffu64 == 0) by (bit_vector)
        requires
            (r | u | g) & !0x1_ffff_ffff_ffffu64 == 0,
    ;
    assert forall|i: int| 0 <= i < 64 implies bit(q.red, i) == bit(b.red, i) by {
        if bit(b.red, i) {
            lemma_on_board_square(b.red, i);
        }
    }
    assert forall|i: int| 0 <= i < 64 implies bit(q.blu, i) == bit(b.blu, i) by {
        if bit(b.blu, i) {
            lemma_on_board_square(b.blu, i);
        }
    }
    assert forall|i: int| 0 <= i < 64 implies bit(q.gaps, i) == bit(b.gaps, i) by {
        if bit(b.gaps, i) {
            lemma_on_board_square(b.gaps, i);
        }
    }
    lemma_low_equal(q.red, b.red, 64);
    lemma_low_equal(q.blu, b.blu, 64);
    lemma_low_equal(q.gaps, b.gaps, 64);
}

/// Whether a piece of text holds no white space.
pub open spec fn solid(s: Seq<u8>) -> bool {
    forall|i: int| 0 <= i < s.len() ==> !is_space(#[trigger] s[i])
}

/// Two pieces without white space make one.
proof fn lemma_solid_concat(a: Seq<u8>, b: Seq<u8>)
    requires
        solid(a),
        solid(b),
    ensures
        solid(a + b),
{
    assert forall|i: int| 0 <= i < (a + b).len() implies !is_space(#[trigger] (a + b)[i]) by {
        if i < a.len() {
            assert((a + b)[i] == a[i]);
        } else {
            assert((a + b)[i] == b[i - a.len()]);
        }
    }
}

/// The text of a rank holds no white space.
proof fn lemma_rank_solid(b: BoardModel, rank: int, file: int, empty: int)
    requires
        0 <= empty <= file <= 7,
    ensures
        solid(plain_bytes(rank_text(b, rank, file, empty))),
    decreases 7 - file,
{
    let run = plain_bytes(empty_run(empty));
    assert(solid(run)) by {
        if empty > 0 {
            assert(decimal(empty as nat) == seq![digit_char(empty)]);
            assert(run =~= seq![(48 + empty) as u8]);
        } else {
            assert(run =~= Seq::<u8>::empty());
        }
    }
    let sq = 7 * rank + file;
    if file >= 7 {
    } else if bit(b.occ(), sq) {
        let pc = piece_char(b, sq);
        let rest = rank_text(b, rank, file + 1, 0);
        lemma_rank_solid(b, rank, file + 1, 0);
        lemma_bytes_concat(empty_run(empty) + seq![pc], rest);
        lemma_bytes_concat(empty_run(empty), seq![pc]);
        assert(plain_bytes(seq![pc]) =~= seq![pc as u8]);
        lemma_solid_concat(run, plain_bytes(seq![pc]));
        lemma_solid_concat(run + plain_bytes(seq![pc]), plain_bytes(rest));
    } else {
        lemma_rank_solid(b, rank, file + 1, empty + 1);
    }
}

/// The text of the ranks holds no white space, and is not empty.
proof fn lemma_ranks_solid(b: BoardModel, rank: int)
    requires
        0 <= rank <= 6,
    ensures
        solid(plain_bytes(ranks_text(b, rank))),
    decreases rank,
{
    lemma_rank_solid(b, rank, 0, 0);
    if rank > 0 {
        let first = rank_text(b, rank, 0, 0);
        let rest = ranks_text(b, rank - 1);
        lemma_ranks_solid(b, rank - 1);
        lemma_bytes_concat(first + seq!['/'], rest);
        lemma_bytes_concat(first, seq!['/']);
        assert(plain_bytes(seq!['/']) =~= seq![47u8]);
        lemma_solid_concat(plain_bytes(first), plain_bytes(seq!['/']));
        lemma_solid_concat(plain_bytes(first) + plain_bytes(seq!['/']), plain_bytes(rest));
    }
}

/// A number in decimal is made of digits that stand for it.
pub proof fn lemma_decimal_read(n: nat)
    ensures
        plain_bytes(decimal(n)).len() > 0,
        all_digits(plain_bytes(decimal(n))),
        digits_value(plain_bytes(decimal(n))) == n,
    decreases n,
{
    let t = plain_bytes(decimal(n));
    if n < 10 {
        let d = (48 + n) as u8;
        assert(t =~= seq![d]);
        assert(t.drop_last() =~= Seq::<u8>::empty());
        assert(digits_value(t.drop_last()) == 0);
    } else {
        lemma_decimal_read(n / 10);
        let front = plain_bytes(decimal(n / 10));
        let d = (48 + n % 10) as u8;
        assert(t =~= front.push(d));
        assert(t.drop_last() =~= front);
        assert(t.last() == d);
        assert forall|i: int| 0 <= i < t.len() implies 48 <= #[trigger] t[i] <= 57 by {
            if i < front.len() {
                assert(t[i] == front[i]);
            }
        }
    }
}

/// A number in decimal, read back within a bound that it keeps, is the
/// number.
pub proof fn lemma_decimal_round_trip(n: nat, max: nat)
    requires
        n <= max,
    ensures
        unsigned_value(plain_bytes(decimal(n)), max) == Some(n),
        solid(plain_bytes(decimal(n))),
{
    lemma_decimal_read(n);
    let t = plain_bytes(decimal(n));
    assert(48 <= t[0] <= 57);
    assert forall|i: int| 0 <= i < t.len() implies !is_space(#[trigger] t[i]) by {
        assert(48 <= t[i] <= 57);
    }
}

/// The word that starts at `from` ends at `end` if no white space stands
/// between the two and the text ends or has white space at `end`.
proof fn lemma_word_ends(text: Seq<u8>, from: int, end: int)
    requires
        0 <= from < end <= text.len(),
        forall|i: int| from <= i < end ==> !is_space(#[trigger] text[i]),
        end == text.len() || is_space(text[end]),
    ensures
        word_end(text, from) == end,
        words_from(text, from) == seq![text.subrange(from, end)] + words_from(text, end),
    decreases end - from,
{
    assert(!is_space(text[from]));
    if from + 1 < end {
        lemma_word_ends(text, from + 1, end);
    } else {
        assert(word_end(text, end) == end);
    }
    assert(word_end(text, from) == word_end(text, from + 1));
}

/// The text of a position, read back, gives the position, if its stones and
/// gaps lie on the board and no square is held twice.
pub proof fn lemma_fen_round_trip(b: BoardModel)
    requires
        b.on_board(),
        apart(b),
    ensures
        fen_position(plain_bytes(fen_text(b))) == Some(b),
{
    let side = if b.blue_to_move {
        'o'
    } else {
        'x'
    };
    let sb = side as u8;
    let r = plain_bytes(ranks_text(b, 6));
    let h = plain_bytes(decimal(b.halfm as nat));
    let f = plain_bytes(decimal(b.fullm as nat));
    let text = plain_bytes(fen_text(b));
    lemma_ranks_solid(b, 6);
    lemma_decimal_round_trip(b.halfm as nat, 255);
    lemma_decimal_round_trip(b.fullm as nat, 65535);
    lemma_decimal_read(b.halfm as nat);
    lemma_decimal_read(b.fullm as nat);
    lemma_board_field(b);
    assert(text =~= r + seq![32u8, sb] + seq![32u8] + h + seq![32u8] + f);
    // the ranks are not empty: they hold a stroke
    assert(r.len() > 0) by {
        let first = rank_text(b, 6, 0, 0);
        let rest = ranks_text(b, 5);
        lemma_bytes_concat(first + seq!['/'], rest);
        lemma_bytes_concat(first, seq!['/']);
    }
    let n = text.len() as int;
    let a0 = r.len() as int;
    let a1 = a0 + 1;
    let a2 = a1 + 1;
    let a3 = a2 + 1;
    let a4 = a3 + h.len();
    let a5 = a4 + 1;
    assert(n == a5 + f.len());
    assert forall|i: int| 0 <= i < a0 implies !is_space(#[trigger] text[i]) by {
        assert(text[i] == r[i]);
    }
    assert(text[a0] == 32u8);
    assert(text[a1] == sb);
    assert(text[a2] == 32u8);
    assert forall|i: int| a3 <= i < a4 implies !is_space(#[trigger] text[i]) by {
        assert(text[i] == h[i - a3]);
    }
    assert(text[a4] == 32u8);
    assert forall|i: int| a5 <= i < n implies !is_space(#[trigger] text[i]) by {
        assert(text[i] == f[i - a5]);
    }
    lemma_word_ends(text, 0, a0);
    assert(words_from(text, a0) == words_from(text, a1));
    lemma_word_ends(text, a1, a2);
    assert(words_from(text, a2) == words_from(text, a3));
    lemma_word_ends(text, a3, a4);
    assert(words_from(text, a4) == words_from(text, a5));
    lemma_word_ends(text, a5, n);
    assert(words_from(text, n) == Seq::<Seq<u8>>::empty());
    assert(text.subrange(0, a0) =~= r);
    assert(text.subrange(a1, a2) =~= seq![sb]);
    assert(text.subrange(a3, a4) =~= h);
    assert(text.subrange(a5, n) =~= f);
    let words = words_of(text);
    assert(words =~= seq![r, seq![sb], h, f]);
    reveal_strlit("o");
    is_ascii_spec_bytes("o");
    assert("o".spec_bytes() =~= seq![111u8]);
    assert(words[1] == seq![sb]);
    if b.blue_to_move {
        assert(words[1] =~= "o".spec_bytes());
    } else {
        assert(words[1][0] == 120u8);
        assert("o".spec_bytes()[0] == 111u8);
    }
    assert(is_word(words[1], "o") == b.blue_to_move);
    assert(counter(words, 2, 255, 0) == b.halfm);
    assert(counter(words, 3, 65535, 1) == b.fullm);
}

/// Two texts of plain characters make one.
proof fn lemma_ascii_concat(a: Seq<char>, b: Seq<char>)
    requires
        is_ascii_chars(a),
        is_ascii_chars(b),
    ensures
        is_ascii_chars(a + b),
{
    assert forall|i: int| 0 <= i < (a + b).len() implies '\0' <= #[trigger] (a + b)[i]
        <= '\u{7f}' by {
        if i < a.len() {
            assert((a + b)[i] == a[i]);
        } else {
            assert((a + b)[i] == b[i - a.len()]);
        }
    }
}

/// A number in decimal is made of plain characters.
proof fn lemma_decimal_ascii(n: nat)
    ensures
        is_ascii_chars(decimal(n)),
    decreases n,
{
    if n >= 10 {
        lemma_decimal_ascii(n / 10);
        let front = decimal(n / 10);
        assert forall|i: int| 0 <= i < decimal(n).len() implies '\0' <= #[trigger] decimal(n)[i]
            <= '\u{7f}' by {
            if i < front.len() {
                assert(decimal(n)[i] == front[i]);
            }
        }
    }
}

/// The text of a rank is made of plain characters.
proof fn lemma_rank_ascii(b: BoardModel, rank: int, file: int, empty: int)
    requires
        0 <= empty,
    ensures
        is_ascii_chars(rank_text(b, rank, file, empty)),
    decreases 7 - file,
{
    assert(is_ascii_chars(empty_run(empty))) by {
        if empty > 0 {
            lemma_decimal_ascii(empty as nat);
        }
    }
    if file >= 7 {
    } else if bit(b.occ(), 7 * rank + file) {
        let pc = piece_char(b, 7 * rank + file);
        lemma_rank_ascii(b, rank, file + 1, 0);
        lemma_ascii_concat(empty_run(empty), seq![pc]);
        lemma_ascii_concat(empty_run(empty) + seq![pc], rank_text(b, rank, file + 1, 0));
    } else {
        lemma_rank_ascii(b, rank, file + 1, empty + 1);
    }
}

/// The text of the ranks is made of plain characters.
proof fn lemma_ranks_ascii(b: BoardModel, rank: int)
    ensures
        is_ascii_chars(ranks_text(b, rank)),
    decreases rank,
{
    lemma_rank_ascii(b, rank, 0, 0);
    lemma_rank_ascii(b, 0, 0, 0);
    if rank > 0 {
        lemma_ranks_ascii(b, rank - 1);
        lemma_ascii_concat(rank_text(b, rank, 0, 0), seq!['/']);
        lemma_ascii_concat(rank_text(b, rank, 0, 0) + seq!['/'], ranks_text(b, rank - 1));
    }
}

/// The text of a position, held in a string and read back from the bytes of
/// the string, gives the position, if its stones and gaps lie on the board
/// and no square is held twice.
pub proof fn lemma_fen_string_round_trip(b: BoardModel, s: &str)
    requires
        b.on_board(),
        apart(b),
        s@ == fen_text(b),
    ensures
        fen_position(s.spec_bytes()) == Some(b),
{
    let side = if b.blue_to_move {
        'o'
    } else {
        'x'
    };
    lemma_ranks_ascii(b, 6);
    lemma_decimal_ascii(b.halfm as nat);
    lemma_decimal_ascii(b.fullm as nat);
    lemma_ascii_concat(ranks_text(b, 6), seq![' ', side]);
    lemma_ascii_concat(ranks_text(b, 6) + seq![' ', side], seq![' ']);
    lemma_ascii_concat(ranks_text(b, 6) + seq![' ', side] + seq![' '], decimal(b.halfm as nat));
    lemma_ascii_concat(
        ranks_text(b, 6) + seq![' ', side] + seq![' '] + decimal(b.halfm as nat),
        seq![' '],
    );
    lemma_ascii_concat(
        ranks_text(b, 6) + seq![' ', side] + seq![' '] + decimal(b.halfm as nat) + seq![' '],
        decimal(b.fullm as nat),
    );
    assert(is_ascii(s));
    is_ascii_spec_bytes(s);
    assert(s.spec_bytes() =~= plain_bytes(s@));
    lemma_fen_round_trip(b);
}

} // verus!
