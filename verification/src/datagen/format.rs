use vstd::prelude::*;

use crate::ataxx::board::{Board, BoardModel};
use crate::ataxx::moves::Move;

verus! {

/// A move with the visits it got at the root.
pub type Visits = (Move, u32);

/// What a search found for one position of a game.
pub struct SearchData {
    pub best_move: Move,
    /// The score for the side to move, as a fraction of 65535.
    pub score: u16,
    /// The visits of the moves at the root, by the code of the move.
    pub visit_distribution: Option<Vec<Visits>>,
}

/// The record of a game: what was found for each of its positions from the
/// opening on, and its result, which is 0 for a loss, 1 for a draw and 2 for
/// a win.
pub struct MontyAtaxxFormat {
    pub moves: Vec<SearchData>,
    pub result: u8,
}

/// Why bytes could not be written or read.
#[derive(Clone, Copy, PartialEq, Eq, Debug, Structural)]
pub enum FormatError {
    /// The buffer to write into holds something already.
    BufferNotEmpty,
    /// The bytes end before the record does.
    UnexpectedEof,
    /// The bytes name a move that cannot be played.
    InvalidData,
}

/// The list with `x` put in behind the entries whose move has a code no
/// greater than that of its move.
pub open spec fn inserted(sorted: Seq<Visits>, x: Visits) -> Seq<Visits>
    decreases sorted.len(),
{
    if sorted.len() == 0 {
        seq![x]
    } else if sorted.last().0.code() <= x.0.code() {
        sorted.push(x)
    } else {
        inserted(sorted.drop_last(), x).push(sorted.last())
    }
}

/// The first `n` entries of a list in the order of the codes of their moves;
/// entries with the same move keep their order.
pub open spec fn sorted_upto(dist: Seq<Visits>, n: int) -> Seq<Visits>
    decreases n,
{
    if n <= 0 {
        Seq::<Visits>::empty()
    } else {
        inserted(sorted_upto(dist, n - 1), dist[n - 1])
    }
}

/// A list in the order of the codes of its moves.
pub open spec fn sorted_by_move(dist: Seq<Visits>) -> Seq<Visits> {
    sorted_upto(dist, dist.len() as int)
}

/// Whether a list is in the order of the codes of its moves.
pub open spec fn in_order(dist: Seq<Visits>) -> bool {
    forall|i: int, j: int| 0 <= i < j < dist.len() ==> dist[i].0.code() <= dist[j].0.code()
}

/// Putting an entry into a list in order gives a list in order, one longer,
/// with the entry and the entries of the list.
pub proof fn lemma_inserted(sorted: Seq<Visits>, x: Visits)
    requires
        in_order(sorted),
    ensures
        in_order(inserted(sorted, x)),
        inserted(sorted, x).len() == sorted.len() + 1,
        inserted(sorted, x).to_multiset() == sorted.to_multiset().insert(x),
    decreases sorted.len(),
{
    broadcast use vstd::seq_lib::group_to_multiset_ensures;

    if sorted.len() == 0 {
        assert(seq![x] =~= Seq::<Visits>::empty().push(x));
    } else if sorted.last().0.code() <= x.0.code() {
    } else {
        let rest = sorted.drop_last();
        assert forall|i: int, j: int| 0 <= i < j < rest.len() implies rest[i].0.code()
            <= rest[j].0.code() by {
            assert(sorted[i].0.code() <= sorted[j].0.code());
        }
        lemma_inserted(rest, x);
        let ins = inserted(rest, x);
        let out = ins.push(sorted.last());
        assert forall|i: int, j: int| 0 <= i < j < out.len() implies out[i].0.code()
            <= out[j].0.code() by {
            if j == out.len() - 1 {
                // every entry of `ins` is `x` or an entry of `rest`
                assert(ins.to_multiset().count(ins[i]) > 0);
                if ins[i] != x {
                    assert(rest.to_multiset().count(ins[i]) > 0);
                    let k = choose|k: int| 0 <= k < rest.len() && rest[k] == ins[i];
                    assert(sorted[k].0.code() <= sorted[sorted.len() - 1].0.code());
                }
            }
        }
        assert(sorted =~= rest.push(sorted.last()));
    }
}

/// A list put in order is in order and has the entries of the list.
pub proof fn lemma_sorted(dist: Seq<Visits>, n: int)
    requires
        0 <= n <= dist.len(),
    ensures
        in_order(sorted_upto(dist, n)),
        sorted_upto(dist, n).len() == n,
        sorted_upto(dist, n).to_multiset() == dist.subrange(0, n).to_multiset(),
    decreases n,
{
    broadcast use vstd::seq_lib::group_to_multiset_ensures;

    if n > 0 {
        lemma_sorted(dist, n - 1);
        lemma_inserted(sorted_upto(dist, n - 1), dist[n - 1]);
        assert(dist.subrange(0, n) =~= dist.subrange(0, n - 1).push(dist[n - 1]));
    } else {
        assert(dist.subrange(0, 0) =~= Seq::<Visits>::empty());
    }
}

/// Puts a list in the order of the codes of its moves.
pub fn sort_by_move(dist: &mut Vec<Visits>)
    ensures
        final(dist)@ == sorted_by_move(old(dist)@),
{
    let n = dist.len();
    let ghost start = dist@;
    let mut i: usize = 0;
    while i < n
        invariant
            i <= n == dist@.len() == start.len(),
            dist@.subrange(0, i as int) == sorted_upto(start, i as int),
            dist@.subrange(i as int, n as int) == start.subrange(i as int, n as int),
        decreases n - i,
    {
        let x = dist[i];
        let ghost prefix = sorted_upto(start, i as int);
        let mut j: usize = i;
        proof {
            assert(dist@.subrange(0, i as int).len() == i);
            assert(dist@.subrange(i as int, n as int)[0] == start.subrange(i as int, n as int)[0]);
            assert(dist@.subrange(i + 1, n as int) =~= start.subrange(i + 1, n as int)) by {
                assert forall|k: int| i + 1 <= k < n implies dist@[k] == start[k] by {
                    assert(dist@.subrange(i as int, n as int)[k - i] == start.subrange(
                        i as int,
                        n as int,
                    )[k - i]);
                }
            }
            assert(dist@.subrange(0, i as int).subrange(0, i as int) =~= dist@.subrange(
                0,
                i as int,
            ));
            assert(dist@.subrange(i + 1, i + 1) =~= prefix.subrange(i as int, i as int));
            assert(prefix.subrange(0, i as int) =~= prefix);
            assert(inserted(prefix, x) =~= inserted(prefix.subrange(0, i as int), x)
                + prefix.subrange(i as int, i as int));
        }
        while j > 0 && dist[j - 1].0.to_u16() > x.0.to_u16()
            invariant
                j <= i < n == dist@.len() == start.len(),
                x == start[i as int],
                prefix == sorted_upto(start, i as int),
                prefix.len() == i,
                dist@.subrange(0, j as int) == prefix.subrange(0, j as int),
                dist@.subrange(j + 1, i + 1) == prefix.subrange(j as int, i as int),
                dist@.subrange(i + 1, n as int) == start.subrange(i + 1, n as int),
                inserted(prefix, x) == inserted(prefix.subrange(0, j as int), x) + prefix.subrange(
                    j as int,
                    i as int,
                ),
            decreases j,
        {
            let prev = dist[j - 1];
            proof {
                let head = prefix.subrange(0, j as int);
                assert(dist@[j - 1] == dist@.subrange(0, j as int)[j - 1]);
                assert(head.last() == prev);
                assert(head.drop_last() =~= prefix.subrange(0, j - 1));
                assert(inserted(head, x) == inserted(head.drop_last(), x).push(prev));
                assert(inserted(prefix, x) =~= inserted(prefix.subrange(0, j - 1), x)
                    + prefix.subrange(j - 1, i as int));
            }
            let ghost before = dist@;
            dist[j] = prev;
            proof {
                assert(dist@.subrange(0, j - 1) =~= prefix.subrange(0, j - 1)) by {
                    assert forall|k: int| 0 <= k < j - 1 implies dist@[k] == prefix[k] by {
                        assert(before.subrange(0, j as int)[k] == prefix.subrange(0, j as int)[k]);
                    }
                }
                assert(dist@.subrange(j as int, i + 1) =~= prefix.subrange(j - 1, i as int)) by {
                    assert forall|k: int| j <= k < i + 1 implies dist@[k] == prefix[k - 1] by {
                        if k > j {
                            assert(before.subrange(j + 1, i + 1)[k - j - 1] == prefix.subrange(
                                j as int,
                                i as int,
                            )[k - j - 1]);
                        }
                    }
                }
                assert(dist@.subrange(i + 1, n as int) =~= start.subrange(i + 1, n as int)) by {
                    assert forall|k: int| i + 1 <= k < n implies dist@[k] == start[k] by {
                        assert(before.subrange(i + 1, n as int)[k - i - 1] == start.subrange(
                            i + 1,
                            n as int,
                        )[k - i - 1]);
                    }
                }
            }
            j = j - 1;
        }
        let ghost before = dist@;
        dist[j] = x;
        proof {
            let head = prefix.subrange(0, j as int);
            assert(inserted(head, x) == head.push(x)) by {
                if j > 0 {
                    assert(before[j - 1] == before.subrange(0, j as int)[j - 1]);
                    assert(head.last() == before[j - 1]);
                }
            }
            assert(dist@.subrange(0, i + 1) =~= inserted(prefix, x)) by {
                assert forall|k: int| 0 <= k < i + 1 implies dist@[k] == (head.push(x)
                    + prefix.subrange(j as int, i as int))[k] by {
                    if k < j {
                        assert(before.subrange(0, j as int)[k] == head[k]);
                    } else if k > j {
                        assert(before.subrange(j + 1, i + 1)[k - j - 1] == prefix.subrange(
                            j as int,
                            i as int,
                        )[k - j - 1]);
                    }
                }
            }
            assert(dist@.subrange(i + 1, n as int) =~= start.subrange(i + 1, n as int)) by {
                assert forall|k: int| i + 1 <= k < n implies dist@[k] == start[k] by {
                    assert(before.subrange(i + 1, n as int)[k - i - 1] == start.subrange(
                        i + 1,
                        n as int,
                    )[k - i - 1]);
                }
            }
        }
        i = i + 1;
    }
    assert(dist@.subrange(0, n as int) =~= dist@);
}

/// What a search found for one position, as plain values.
pub struct DataModel {
    pub best_move: Move,
    pub score: u16,
    pub dist: Option<Seq<Visits>>,
}

impl View for SearchData {
    type V = DataModel;

    open spec fn view(&self) -> DataModel {
        DataModel {
            best_move: self.best_move,
            score: self.score,
            dist: match self.visit_distribution {
                Some(v) => Some(v@),
                None => None,
            },
        }
    }
}

/// The records of the positions of a game as plain values.
pub open spec fn models(moves: Seq<SearchData>) -> Seq<DataModel> {
    moves.map_values(|d: SearchData| d@)
}

/// The two bytes of a 16-bit number, the low one first.
pub open spec fn le16(v: u16) -> Seq<u8> {
    seq![(v % 256) as u8, (v / 256) as u8]
}

/// The most visits among the first `n` entries; 0 if there is none.
pub open spec fn max_visits(dist: Seq<Visits>, n: int) -> u32
    decreases n,
{
    if n <= 0 {
        0
    } else if dist[n - 1].1 > max_visits(dist, n - 1) {
        dist[n - 1].1
    } else {
        max_visits(dist, n - 1)
    }
}

/// The byte that stands for a number of visits: the number itself, taken
/// modulo 256, where no move has more than 256 visits, and else the number
/// as a share of the most visits in 256ths, held at 255.
pub open spec fn scaled(visits: u32, max: u32) -> u8 {
    if max <= 256 {
        (visits % 256) as u8
    } else if visits as int * 256 / (max as int) > 255 {
        255
    } else {
        (visits as int * 256 / (max as int)) as u8
    }
}

/// The bytes that stand for the visits of the first `n` entries.
pub open spec fn visits_bytes(dist: Seq<Visits>, n: int, max: u32) -> Seq<u8>
    decreases n,
{
    if n <= 0 {
        Seq::<u8>::empty()
    } else {
        visits_bytes(dist, n - 1, max).push(scaled(dist[n - 1].1, max))
    }
}

/// The bytes of the record of a position: the move, the score, the number of
/// moves with visits, taken modulo 256, and a byte for the visits of each.
pub open spec fn data_bytes(d: DataModel) -> Seq<u8> {
    le16(d.best_move.code()) + le16(d.score) + (match d.dist {
        Some(dist) => seq![(dist.len() % 256) as u8] + visits_bytes(
            dist,
            dist.len() as int,
            max_visits(dist, dist.len() as int),
        ),
        None => seq![0u8],
    })
}

/// The bytes of the records of the first `n` positions.
pub open spec fn moves_bytes(moves: Seq<DataModel>, n: int) -> Seq<u8>
    decreases n,
{
    if n <= 0 {
        Seq::<u8>::empty()
    } else {
        moves_bytes(moves, n - 1) + data_bytes(moves[n - 1])
    }
}

/// The bytes of the record of a game: its result, the records of its
/// positions, and two zero bytes, which no move has as its code.
pub open spec fn game_bytes(result: u8, moves: Seq<DataModel>) -> Seq<u8> {
    seq![result] + moves_bytes(moves, moves.len() as int) + seq![0u8, 0u8]
}

/// The entries for the first `n` of the moves, without visits.
pub open spec fn unvisited(moves: Seq<Move>, n: int) -> Seq<Visits>
    decreases n,
{
    if n <= 0 {
        Seq::<Visits>::empty()
    } else {
        unvisited(moves, n - 1).push((moves[n - 1], 0u32))
    }
}

/// The entries of a list with the visits that the bytes from `at` on give.
pub open spec fn with_visits(dist: Seq<Visits>, bytes: Seq<u8>, at: int) -> Seq<Visits> {
    Seq::new(dist.len(), |i: int| (dist[i].0, bytes[at + i] as u32))
}

/// What reading the records of the positions of a game gives, with the
/// bytes read so far: the records read before, those read from `at` on, and
/// the place behind the end of the game; or why the bytes are not a game.
/// The moves with visits of a position are its legal moves, by their codes.
pub open spec fn decoded(bytes: Seq<u8>, at: int, board: BoardModel) -> Result<
    (Seq<DataModel>, int),
    FormatError,
>
    decreases bytes.len() - at,
{
    if at < 0 || at + 2 > bytes.len() {
        Err(FormatError::UnexpectedEof)
    } else {
        let code = (bytes[at] + 256 * bytes[at + 1]) as u16;
        let mov = Move::make(code as int % 256, code as int / 256);
        if code == 0 {
            Ok((Seq::<DataModel>::empty(), at + 2))
        } else if at + 5 > bytes.len() {
            Err(FormatError::UnexpectedEof)
        } else {
            let score = (bytes[at + 2] + 256 * bytes[at + 3]) as u16;
            let listed = sorted_by_move(
                unvisited(board.legal_moves(), board.legal_moves().len() as int),
            );
            let count = if bytes[at + 4] == 0 {
                0
            } else {
                listed.len() as int
            };
            if at + 5 + count > bytes.len() {
                Err(FormatError::UnexpectedEof)
            } else if !board.can_play(mov) {
                Err(FormatError::InvalidData)
            } else {
                let data = DataModel {
                    best_move: mov,
                    score,
                    dist: if bytes[at + 4] == 0 {
                        None
                    } else {
                        Some(with_visits(listed, bytes, at + 5))
                    },
                };
                match decoded(bytes, at + 5 + count, board.made(mov)) {
                    Ok((rest, end)) => Ok((seq![data] + rest, end)),
                    Err(e) => Err(e),
                }
            }
        }
    }
}

/// The records read before with what is read after them.
pub open spec fn after(done: Seq<DataModel>, r: Result<(Seq<DataModel>, int), FormatError>) -> Result<
    (Seq<DataModel>, int),
    FormatError,
> {
    match r {
        Ok((rest, end)) => Ok((done + rest, end)),
        Err(e) => Err(e),
    }
}

/// The length of the record of a game at the start of the bytes, as far as
/// its framing goes: the result, the records, each as long as it says, and
/// the two zero bytes.
pub open spec fn framed(bytes: Seq<u8>, at: int) -> Result<int, FormatError>
    decreases bytes.len() - at,
{
    if at < 0 || at + 2 > bytes.len() {
        Err(FormatError::UnexpectedEof)
    } else if bytes[at] == 0 && bytes[at + 1] == 0 {
        Ok(at + 2)
    } else if at + 5 + bytes[at + 4] > bytes.len() {
        Err(FormatError::UnexpectedEof)
    } else {
        framed(bytes, at + 5 + bytes[at + 4])
    }
}

fn push_le16(writer: &mut Vec<u8>, v: u16)
    ensures
        final(writer)@ == old(writer)@ + le16(v),
{
    writer.push((v % 256) as u8);
    writer.push((v / 256) as u8);
    assert(writer@ =~= old(writer)@ + le16(v));
}

fn scale(visits: u32, max: u32) -> (b: u8)
    ensures
        b == scaled(visits, max),
{
    if max <= 256 {
        (visits % 256) as u8
    } else {
        let s = (visits as u64) * 256 / (max as u64);
        if s > 255 {
            255
        } else {
            s as u8
        }
    }
}

impl SearchData {
    /// What a search found for a position, with the visits in the order of
    /// the codes of the moves.
    pub fn new(best_move: Move, score: u16, visit_distribution: Option<Vec<Visits>>) -> (d:
        SearchData)
        ensures
            d@ == (DataModel {
                best_move,
                score,
                dist: match visit_distribution {
                    Some(v) => Some(sorted_by_move(v@)),
                    None => None,
                },
            }),
    {
        match visit_distribution {
            Some(dist) => {
                let mut dist = dist;
                sort_by_move(&mut dist);
                SearchData { best_move, score, visit_distribution: Some(dist) }
            },
            None => SearchData { best_move, score, visit_distribution: None },
        }
    }
}

impl Default for MontyAtaxxFormat {
    fn default() -> (g: MontyAtaxxFormat)
        ensures
            g.moves@.len() == 0,
            g.result == 0,
    {
        MontyAtaxxFormat { moves: Vec::new(), result: 0 }
    }
}

impl MontyAtaxxFormat {
    /// Adds the record of the next position.
    pub fn push(&mut self, position_data: SearchData)
        ensures
            final(self).moves@ == old(self).moves@.push(position_data),
            final(self).result == old(self).result,
    {
        self.moves.push(position_data);
    }

    /// Writes the bytes of the game into an empty buffer.
    pub fn serialise_into_buffer(&self, writer: &mut Vec<u8>) -> (r: Result<(), FormatError>)
        ensures
            old(writer)@.len() != 0 ==> r == Err::<(), FormatError>(FormatError::BufferNotEmpty)
                && final(writer)@ == old(writer)@,
            old(writer)@.len() == 0 ==> r is Ok && final(writer)@ == game_bytes(
                self.result,
                models(self.moves@),
            ),
    {
        if writer.len() != 0 {
            return Err(FormatError::BufferNotEmpty);
        }
        writer.push(self.result);
        let ghost all = models(self.moves@);
        let mut i: usize = 0;
        assert(writer@ =~= seq![self.result] + moves_bytes(all, 0));
        while i < self.moves.len()
            invariant
                i <= self.moves@.len(),
                all == models(self.moves@),
                writer@ == seq![self.result] + moves_bytes(all, i as int),
            decreases self.moves@.len() - i,
        {
            let data = &self.moves[i];
            let ghost before = writer@;
            assert(all[i as int] == data@);
            push_le16(writer, data.best_move.to_u16());
            push_le16(writer, data.score);
            match &data.visit_distribution {
                None => {
                    writer.push(0);
                },
                Some(dist) => {
                    writer.push((dist.len() % 256) as u8);
                    let mut max: u32 = 0;
                    let mut k: usize = 0;
                    while k < dist.len()
                        invariant
                            k <= dist@.len(),
                            max == max_visits(dist@, k as int),
                        decreases dist@.len() - k,
                    {
                        if dist[k].1 > max {
                            max = dist[k].1;
                        }
                        k = k + 1;
                    }
                    let ghost head = writer@;
                    let mut k: usize = 0;
                    while k < dist.len()
                        invariant
                            k <= dist@.len(),
                            writer@ == head + visits_bytes(dist@, k as int, max),
                        decreases dist@.len() - k,
                    {
                        writer.push(scale(dist[k].1, max));
                        k = k + 1;
                        assert(writer@ =~= head + visits_bytes(dist@, k as int, max));
                    }
                },
            }
            assert(writer@ =~= before + data_bytes(data@));
            i = i + 1;
            assert(writer@ =~= seq![self.result] + moves_bytes(all, i as int));
        }
        writer.push(0);
        writer.push(0);
        assert(writer@ =~= game_bytes(self.result, all));
        Ok(())
    }

    /// Reads the record of a game from the start of the bytes. Gives the game
    /// and the number of bytes that it took.
    pub fn deserialise_from(bytes: &[u8]) -> (r: Result<(MontyAtaxxFormat, usize), FormatError>)
        ensures
            match r {
                Ok((game, used)) => bytes@.len() >= 1 && game.result == bytes@[0] && decoded(
                    bytes@,
                    1,
                    BoardModel::startpos(),
                ) == Ok::<(Seq<DataModel>, int), FormatError>((models(game.moves@), used as int)),
                Err(e) => bytes@.len() == 0 && e == FormatError::UnexpectedEof || decoded(
                    bytes@,
                    1,
                    BoardModel::startpos(),
                ) == Err::<(Seq<DataModel>, int), FormatError>(e),
            },
    {
        let n = bytes.len();
        if n == 0 {
            return Err(FormatError::UnexpectedEof);
        }
        let result = bytes[0];
        let mut moves: Vec<SearchData> = Vec::new();
        let mut pos = Board::default();
        let mut at: usize = 1;
        proof {
            crate::uai::position::lemma_startpos_on_board();
            assert(models(moves@) =~= Seq::<DataModel>::empty());
            assert(after(models(moves@), decoded(bytes@, 1, pos@)) == decoded(bytes@, 1, pos@)) by {
                match decoded(bytes@, 1, pos@) {
                    Ok((rest, end)) => {
                        assert(models(moves@) + rest =~= rest);
                    },
                    Err(e) => {},
                }
            }
        }
        loop
            invariant
                1 <= at <= n == bytes@.len(),
                result == bytes@[0],
                pos@.on_board(),
                decoded(bytes@, 1, BoardModel::startpos()) == after(
                    models(moves@),
                    decoded(bytes@, at as int, pos@),
                ),
            decreases n - at,
        {
            if n - at < 2 {
                return Err(FormatError::UnexpectedEof);
            }
            let code: u16 = bytes[at] as u16 + 256 * (bytes[at + 1] as u16);
            let best_move = Move::from_u16(code);
            if code == 0 {
                proof {
                    assert(models(moves@) + Seq::<DataModel>::empty() =~= models(moves@));
                    assert(decoded(bytes@, at as int, pos@) == Ok::<
                        (Seq<DataModel>, int),
                        FormatError,
                    >((Seq::<DataModel>::empty(), at + 2)));
                }
                return Ok((MontyAtaxxFormat { moves, result }, at + 2));
            }
            if n - at < 5 {
                return Err(FormatError::UnexpectedEof);
            }
            let score: u16 = bytes[at + 2] as u16 + 256 * (bytes[at + 3] as u16);
            let num_moves = bytes[at + 4];
            let legal = pos.map_legal_moves();
            let mut dist: Vec<Visits> = Vec::new();
            let mut k: usize = 0;
            while k < legal.len()
                invariant
                    k <= legal@.len(),
                    dist@ == unvisited(legal@, k as int),
                decreases legal@.len() - k,
            {
                dist.push((legal[k], 0));
                k = k + 1;
            }
            sort_by_move(&mut dist);
            proof {
                lemma_unvisited_len(legal@, legal@.len() as int);
                lemma_sorted(unvisited(legal@, legal@.len() as int), legal@.len() as int);
            }
            let count: usize = if num_moves == 0 {
                0
            } else {
                dist.len()
            };
            if n - at - 5 < count {
                return Err(FormatError::UnexpectedEof);
            }
            if !pos.can_play(best_move) {
                return Err(FormatError::InvalidData);
            }
            let visit_distribution = if num_moves == 0 {
                None
            } else {
                let ghost listed = dist@;
                let mut k: usize = 0;
                while k < dist.len()
                    invariant
                        k <= dist@.len() == listed.len(),
                        at + 5 + listed.len() <= n == bytes@.len(),
                        forall|i: int|
                            0 <= i < k ==> #[trigger] dist@[i] == (
                                listed[i].0,
                                bytes@[at + 5 + i] as u32,
                            ),
                        forall|i: int| k <= i < dist@.len() ==> #[trigger] dist@[i] == listed[i],
                    decreases dist@.len() - k,
                {
                    let mov = dist[k].0;
                    dist[k] = (mov, bytes[at + 5 + k] as u32);
                    k = k + 1;
                }
                assert(dist@ =~= with_visits(listed, bytes@, at + 5));
                Some(dist)
            };
            let ghost done = models(moves@);
            let data = SearchData { best_move, score, visit_distribution };
            proof {
                Board::lemma_made_on_board(pos@, best_move);
                Move::lemma_ext(best_move, Move::make(code as int % 256, code as int / 256));
                let next = decoded(bytes@, at + 5 + count, pos@.made(best_move));
                assert(decoded(bytes@, at as int, pos@) == (match next {
                    Ok((rest, end)) => Ok::<(Seq<DataModel>, int), FormatError>(
                        (seq![data@] + rest, end),
                    ),
                    Err(e) => Err(e),
                }));
                assert(after(done, decoded(bytes@, at as int, pos@)) == after(
                    done.push(data@),
                    next,
                )) by {
                    match next {
                        Ok((rest, end)) => {
                            assert(done + (seq![data@] + rest) =~= done.push(data@) + rest);
                        },
                        Err(e) => {},
                    }
                }
            }
            moves.push(data);
            proof {
                assert(models(moves@) =~= done.push(data@));
            }
            pos.make(best_move);
            at = at + 5 + count;
        }
    }

    /// Copies the record of a game from the start of the bytes into the
    /// buffer, in place of what the buffer held, going by its framing alone.
    /// Gives the number of bytes copied.
    pub fn deserialise_fast_into_buffer(bytes: &[u8], buffer: &mut Vec<u8>) -> (r: Result<
        usize,
        FormatError,
    >)
        ensures
            match r {
                Ok(used) => bytes@.len() >= 1 && framed(bytes@, 1) == Ok::<int, FormatError>(
                    used as int,
                ) && final(buffer)@ == bytes@.subrange(0, used as int),
                Err(e) => e == FormatError::UnexpectedEof && (bytes@.len() == 0 || framed(
                    bytes@,
                    1,
                ) == Err::<int, FormatError>(e)),
            },
    {
        buffer.clear();
        let n = bytes.len();
        if n == 0 {
            return Err(FormatError::UnexpectedEof);
        }
        let mut at: usize = 1;
        loop
            invariant
                1 <= at <= n == bytes@.len(),
                buffer@.len() == 0,
                framed(bytes@, 1) == framed(bytes@, at as int),
            decreases n - at,
        {
            if n - at < 2 {
                return Err(FormatError::UnexpectedEof);
            }
            if bytes[at] == 0 && bytes[at + 1] == 0 {
                let used = at + 2;
                let mut k: usize = 0;
                assert(buffer@ =~= bytes@.subrange(0, 0));
                while k < used
                    invariant
                        k <= used <= n == bytes@.len(),
                        buffer@ == bytes@.subrange(0, k as int),
                    decreases used - k,
                {
                    buffer.push(bytes[k]);
                    k = k + 1;
                    assert(buffer@ =~= bytes@.subrange(0, k as int));
                }
                return Ok(used);
            }
            if n - at < 5 || n - at - 5 < bytes[at + 4] as usize {
                return Err(FormatError::UnexpectedEof);
            }
            at = at + 5 + bytes[at + 4] as usize;
        }
    }
}

/// There is an entry without visits for each move.
pub proof fn lemma_unvisited_len(moves: Seq<Move>, n: int)
    requires
        0 <= n <= moves.len(),
    ensures
        unvisited(moves, n).len() == n,
    decreases n,
{
    if n > 0 {
        lemma_unvisited_len(moves, n - 1);
    }
}

} // verus!
