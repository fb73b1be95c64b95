use vstd::prelude::*;

use crate::datagen::format::le16;

verus! {

/// The record of a game for the training of the value network: the opening
/// position packed into `N` bytes, the result, and for each position the
/// move played and the score found.
pub struct Binpack<const N: usize> {
    startpos: [u8; N],
    result: u8,
    moves: Vec<(u16, i16)>,
}

/// Why bytes are not the record of a game.
#[derive(Clone, Copy, PartialEq, Eq, Debug, Structural)]
pub enum BinpackError {
    /// There are no bytes at all.
    Eof,
    /// The bytes end before the record does.
    UnexpectedEof,
}

/// The 16 bits of a number with a sign, as a number without.
pub open spec fn bits_of(score: i16) -> u16 {
    if score < 0 {
        (score + 0x1_0000) as u16
    } else {
        score as u16
    }
}

/// The number with a sign that 16 bits stand for.
pub open spec fn signed_of(bits: u16) -> i16 {
    if bits >= 0x8000 {
        (bits - 0x1_0000) as i16
    } else {
        bits as i16
    }
}

/// The bytes of the first `n` moves with their scores: four for each, the
/// move and then the score, each with its low byte first.
pub open spec fn scored_bytes(moves: Seq<(u16, i16)>, n: int) -> Seq<u8>
    decreases n,
{
    if n <= 0 {
        Seq::<u8>::empty()
    } else {
        scored_bytes(moves, n - 1) + le16(moves[n - 1].0) + le16(bits_of(moves[n - 1].1))
    }
}

/// The bytes of the record of a game: the opening position, the result, the
/// moves with their scores, and four zero bytes.
pub open spec fn binpack_bytes(startpos: Seq<u8>, result: u8, moves: Seq<(u16, i16)>) -> Seq<u8> {
    startpos + seq![result] + scored_bytes(moves, moves.len() as int) + seq![0u8, 0u8, 0u8, 0u8]
}

/// The moves with their scores that the bytes from `at` on hold, up to the
/// first move that is zero, and the place behind it; `None` if the bytes end
/// first.
pub open spec fn scored_read(bytes: Seq<u8>, at: int) -> Option<(Seq<(u16, i16)>, int)>
    decreases bytes.len() - at,
{
    if at < 0 || at + 4 > bytes.len() {
        None
    } else if bytes[at] == 0 && bytes[at + 1] == 0 {
        Some((Seq::<(u16, i16)>::empty(), at + 4))
    } else {
        match scored_read(bytes, at + 4) {
            Some((rest, end)) => Some(
                (
                    seq![
                        (
                            (bytes[at] + 256 * bytes[at + 1]) as u16,
                            signed_of((bytes[at + 2] + 256 * bytes[at + 3]) as u16),
                        ),
                    ] + rest,
                    end,
                ),
            ),
            None => None,
        }
    }
}

/// The bytes of the `k`-th of the first `n` moves with their scores stand at
/// the places from `4 * k` on.
pub proof fn lemma_scored_bytes(moves: Seq<(u16, i16)>, n: int, k: int)
    requires
        0 <= k < n <= moves.len(),
    ensures
        scored_bytes(moves, n).len() == 4 * n,
        scored_bytes(moves, n).subrange(4 * k, 4 * k + 4) == le16(moves[k].0) + le16(
            bits_of(moves[k].1),
        ),
    decreases n,
{
    lemma_scored_len(moves, n - 1);
    let head = scored_bytes(moves, n - 1);
    let last = le16(moves[n - 1].0) + le16(bits_of(moves[n - 1].1));
    assert(scored_bytes(moves, n) == head + last);
    if k == n - 1 {
        assert((head + last).subrange(4 * k, 4 * k + 4) =~= last);
    } else {
        lemma_scored_bytes(moves, n - 1, k);
        assert((head + last).subrange(4 * k, 4 * k + 4) =~= head.subrange(4 * k, 4 * k + 4));
    }
}

/// The first `n` moves with their scores take four bytes each.
pub proof fn lemma_scored_len(moves: Seq<(u16, i16)>, n: int)
    requires
        0 <= n <= moves.len(),
    ensures
        scored_bytes(moves, n).len() == 4 * n,
    decreases n,
{
    if n > 0 {
        lemma_scored_len(moves, n - 1);
    }
}

/// Reading the bytes of a record from the `k`-th move on gives the moves
/// from there on, if no move of the record is zero.
proof fn lemma_read_back(startpos: Seq<u8>, result: u8, moves: Seq<(u16, i16)>, k: int)
    requires
        0 <= k <= moves.len(),
        forall|i: int| 0 <= i < moves.len() ==> (#[trigger] moves[i]).0 != 0,
    ensures
        scored_read(binpack_bytes(startpos, result, moves), startpos.len() + 1 + 4 * k) == Some(
            (
                moves.subrange(k, moves.len() as int),
                (startpos.len() + 1 + 4 * moves.len() + 4) as int,
            ),
        ),
    decreases moves.len() - k,
{
    let n = moves.len() as int;
    let all = binpack_bytes(startpos, result, moves);
    let body = scored_bytes(moves, n);
    let at = startpos.len() + 1 + 4 * k;
    lemma_scored_len(moves, n);
    assert(all.len() == startpos.len() + 1 + 4 * n + 4);
    if k == n {
        assert(all[at] == 0 && all[at + 1] == 0);
        assert(moves.subrange(k, n) =~= Seq::<(u16, i16)>::empty());
    } else {
        lemma_scored_bytes(moves, n, k);
        let rec = le16(moves[k].0) + le16(bits_of(moves[k].1));
        assert forall|j: int| 0 <= j < 4 implies all[at + j] == rec[j] by {
            assert(all[at + j] == body[4 * k + j]);
            assert(body.subrange(4 * k, 4 * k + 4)[j] == body[4 * k + j]);
        }
        let mov = moves[k].0;
        let bits = bits_of(moves[k].1);
        assert(all[at] == rec[0] && all[at + 1] == rec[1] && all[at + 2] == rec[2] && all[at + 3]
            == rec[3]);
        assert(rec[0] == (mov % 256) as u8 && rec[1] == (mov / 256) as u8);
        assert(rec[2] == (bits % 256) as u8 && rec[3] == (bits / 256) as u8);
        assert((all[at] + 256 * all[at + 1]) as u16 == mov);
        assert((all[at + 2] + 256 * all[at + 3]) as u16 == bits);
        assert(!(all[at] == 0 && all[at + 1] == 0));
        lemma_read_back(startpos, result, moves, k + 1);
        assert(seq![(mov, signed_of(bits))] + moves.subrange(k + 1, n) =~= moves.subrange(k, n));
    }
}

/// What is written is read back: the bytes of a record hold its moves, if
/// none of them is zero, and end where the record ends.
pub proof fn lemma_round_trip(startpos: Seq<u8>, result: u8, moves: Seq<(u16, i16)>)
    requires
        forall|i: int| 0 <= i < moves.len() ==> (#[trigger] moves[i]).0 != 0,
    ensures
        binpack_bytes(startpos, result, moves).subrange(0, startpos.len() as int) == startpos,
        binpack_bytes(startpos, result, moves)[startpos.len() as int] == result,
        scored_read(binpack_bytes(startpos, result, moves), startpos.len() as int + 1) == Some(
            (moves, binpack_bytes(startpos, result, moves).len() as int),
        ),
{
    lemma_read_back(startpos, result, moves, 0);
    lemma_scored_len(moves, moves.len() as int);
    assert(moves.subrange(0, moves.len() as int) =~= moves);
    assert(binpack_bytes(startpos, result, moves).subrange(0, startpos.len() as int) =~= startpos);
}

/// The score that 16 bits stand for is the score whose bits they are.
pub proof fn lemma_bits_round_trip(score: i16)
    ensures
        signed_of(bits_of(score)) == score,
{
}

impl<const N: usize> Binpack<N> {
    /// The moves played and the scores found.
    pub closed spec fn spec_moves(&self) -> Seq<(u16, i16)> {
        self.moves@
    }

    pub closed spec fn spec_result(&self) -> u8 {
        self.result
    }

    /// The bytes of the opening position.
    pub closed spec fn spec_startpos(&self) -> Seq<u8> {
        self.startpos@
    }

    /// The bytes of the opening position.
    pub fn startpos(&self) -> (s: [u8; N])
        ensures
            s@ == self.spec_startpos(),
    {
        self.startpos
    }

    /// The record of a game of which nothing is known but the opening
    /// position: its result is 3, which stands for none.
    pub fn new(startpos: [u8; N]) -> (b: Binpack<N>)
        ensures
            b.spec_startpos() == startpos@,
            b.spec_result() == 3,
            b.spec_moves().len() == 0,
    {
        Binpack { startpos, result: 3, moves: Vec::new() }
    }

    /// Sets the result: 0 for a loss, 1 for a draw, 2 for a win.
    pub fn set_result(&mut self, doubled: u8)
        ensures
            final(self).spec_result() == doubled,
            final(self).spec_moves() == old(self).spec_moves(),
            final(self).spec_startpos() == old(self).spec_startpos(),
    {
        self.result = doubled;
    }

    pub fn result(&self) -> (r: u8)
        ensures
            r == self.spec_result(),
    {
        self.result
    }

    /// Adds a move with its score.
    pub fn push(&mut self, best_move: u16, score: i16)
        ensures
            final(self).spec_moves() == old(self).spec_moves().push((best_move, score)),
            final(self).spec_result() == old(self).spec_result(),
            final(self).spec_startpos() == old(self).spec_startpos(),
    {
        self.moves.push((best_move, score));
    }

    /// The number of moves.
    pub fn len(&self) -> (n: usize)
        ensures
            n == self.spec_moves().len(),
    {
        self.moves.len()
    }

    /// A move with its score.
    pub fn get(&self, i: usize) -> (m: (u16, i16))
        requires
            i < self.spec_moves().len(),
        ensures
            m == self.spec_moves()[i as int],
    {
        self.moves[i]
    }

    /// Adds the bytes of the record to what the writer holds.
    pub fn serialise_into(&self, writer: &mut Vec<u8>)
        ensures
            final(writer)@ == old(writer)@ + binpack_bytes(
                self.spec_startpos(),
                self.spec_result(),
                self.spec_moves(),
            ),
    {
        let ghost base = writer@;
        let mut i: usize = 0;
        while i < N
            invariant
                i <= N,
                writer@ == base + self.startpos@.subrange(0, i as int),
            decreases N - i,
        {
            writer.push(self.startpos[i]);
            i = i + 1;
            assert(writer@ =~= base + self.startpos@.subrange(0, i as int));
        }
        assert(self.startpos@.subrange(0, N as int) =~= self.startpos@);
        writer.push(self.result);
        let ghost head = writer@;
        let mut i: usize = 0;
        assert(writer@ =~= head + scored_bytes(self.moves@, 0));
        while i < self.moves.len()
            invariant
                i <= self.moves@.len(),
                writer@ == head + scored_bytes(self.moves@, i as int),
            decreases self.moves@.len() - i,
        {
            let (mov, score) = self.moves[i];
            let bits: u16 = if score < 0 {
                (score as i32 + 0x1_0000) as u16
            } else {
                score as u16
            };
            writer.push((mov % 256) as u8);
            writer.push((mov / 256) as u8);
            writer.push((bits % 256) as u8);
            writer.push((bits / 256) as u8);
            i = i + 1;
            assert(writer@ =~= head + scored_bytes(self.moves@, i as int));
        }
        writer.push(0);
        writer.push(0);
        writer.push(0);
        writer.push(0);
        assert(writer@ =~= base + binpack_bytes(self.startpos@, self.result, self.moves@));
    }

    /// Reads the record of a game from the start of the bytes. The moves go
    /// into `buffer`, in place of what it held. Gives the record and the
    /// number of bytes that it took.
    pub fn deserialise_from(bytes: &[u8], buffer: Vec<(u16, i16)>) -> (r: Result<
        (Binpack<N>, usize),
        BinpackError,
    >)
        ensures
            match r {
                Ok((b, used)) => bytes@.len() > N && b.spec_startpos() == bytes@.subrange(
                    0,
                    N as int,
                )
                    && b.spec_result() == bytes@[N as int] && scored_read(bytes@, N + 1) == Some(
                    (b.spec_moves(), used as int),
                ),
                Err(BinpackError::Eof) => bytes@.len() == 0,
                Err(BinpackError::UnexpectedEof) => bytes@.len() > 0 && (bytes@.len() <= N
                    || scored_read(bytes@, N + 1) is None),
            },
    {
        let n = bytes.len();
        if n == 0 {
            return Err(BinpackError::Eof);
        }
        if n <= N {
            return Err(BinpackError::UnexpectedEof);
        }
        let mut startpos: [u8; N] = [0u8; N];
        let mut i: usize = 0;
        while i < N
            invariant
                i <= N < n == bytes@.len(),
                forall|k: int| 0 <= k < i ==> #[trigger] startpos@[k] == bytes@[k],
            decreases N - i,
        {
            startpos[i] = bytes[i];
            i = i + 1;
        }
        assert(startpos@ =~= bytes@.subrange(0, N as int));
        let result = bytes[N];
        let mut moves = buffer;
        moves.clear();
        let mut at: usize = N + 1;
        proof {
            match scored_read(bytes@, N + 1) {
                Some((rest, end)) => {
                    assert(moves@ + rest =~= rest);
                },
                None => {},
            }
        }
        loop
            invariant
                N < at <= n == bytes@.len(),
                startpos@ == bytes@.subrange(0, N as int),
                result == bytes@[N as int],
                scored_read(bytes@, N + 1) == (match scored_read(bytes@, at as int) {
                    Some((rest, end)) => Some((moves@ + rest, end)),
                    None => None,
                }),
            decreases n - at,
        {
            if n - at < 4 {
                return Err(BinpackError::UnexpectedEof);
            }
            if bytes[at] == 0 && bytes[at + 1] == 0 {
                assert(moves@ + Seq::<(u16, i16)>::empty() =~= moves@);
                return Ok((Binpack { startpos, result, moves }, at + 4));
            }
            let mov: u16 = bytes[at] as u16 + 256 * (bytes[at + 1] as u16);
            let bits: u16 = bytes[at + 2] as u16 + 256 * (bytes[at + 3] as u16);
            let score: i16 = if bits >= 0x8000 {
                (bits as i32 - 0x1_0000) as i16
            } else {
                bits as i16
            };
            let ghost done = moves@;
            moves.push((mov, score));
            proof {
                match scored_read(bytes@, at + 4) {
                    Some((rest, end)) => {
                        assert(done + (seq![(mov, score)] + rest) =~= moves@ + rest);
                    },
                    None => {},
                }
            }
            at = at + 4;
        }
    }
}

} // verus!
