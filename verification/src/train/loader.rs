use vstd::prelude::*;

use crate::ataxx::bitboard::bit;
use crate::ataxx::board::{xorshift, Board, BoardModel};
use crate::ataxx::moves::Move;
use crate::datagen::format::{models, DataModel, MontyAtaxxFormat};

verus! {

/// A symmetry of the board.
#[derive(Clone, Copy, PartialEq, Eq, Debug, Structural)]
pub enum Transform {
    Identity,
    /// Left and right exchanged.
    Horizontal,
    /// Top and bottom exchanged.
    Vertical,
    /// Turned by half a turn.
    Rotational,
    /// Mirrored at the diagonal from a1.
    Diagonal,
    /// Mirrored at the other diagonal.
    AntiDiagonal,
}

/// The square that comes to lie on `sq` under a symmetry.
pub open spec fn source_square(trans: Transform, sq: int) -> int {
    let rank = sq / 7;
    let file = sq % 7;
    match trans {
        Transform::Identity => sq,
        Transform::Horizontal => 7 * rank + (6 - file),
        Transform::Vertical => 7 * (6 - rank) + file,
        Transform::Rotational => 7 * (6 - rank) + (6 - file),
        Transform::Diagonal => 7 * file + rank,
        Transform::AntiDiagonal => 7 * (6 - file) + (6 - rank),
    }
}

/// Whether `out` is the image of `bb` under a symmetry: a square of the board
/// is set in it if the square that comes to lie there is set in `bb`, and no
/// other bit is.
pub open spec fn is_image(bb: u64, out: u64, trans: Transform) -> bool {
    forall|t: int|
        0 <= t < 64 ==> (#[trigger] bit(out, t) <==> t < 49 && bit(bb, source_square(trans, t)))
}

proof fn lemma_or_bit(a: u64, b: u64, i: u64)
    requires
        i < 64,
    ensures
        ((a | b) >> i) & 1 == 1 <==> (a >> i) & 1 == 1 || (b >> i) & 1 == 1,
{
    assert(((a | b) >> i) & 1 == 1 <==> (a >> i) & 1 == 1 || (b >> i) & 1 == 1) by (bit_vector)
        requires
            i < 64,
    ;
}

proof fn lemma_zero_bit(i: u64)
    requires
        i < 64,
    ensures
        (0u64 >> i) & 1 == 0,
{
    assert((0u64 >> i) & 1 == 0) by (bit_vector);
}

/// The bits of seven bits in a row of `bb` from bit `s`, moved to bit `d`.
proof fn lemma_rank_moved(bb: u64, s: u64, d: u64, i: u64)
    requires
        i < 64,
        s <= 42,
        d <= 42,
    ensures
        ((((bb >> s) & 127) << d) >> i) & 1 == 1 <==> d <= i < d + 7 && (bb >> ((i - d + s) as u64))
            & 1 == 1,
{
    assert(((((bb >> s) & 127) << d) >> i) & 1 == 1 <==> d <= i && i < d + 7 && (bb >> ((i - d
        + s) as u64)) & 1 == 1) by (bit_vector)
        requires
            i < 64,
            s <= 42,
            d <= 42,
    ;
}

/// The bits of every seventh bit of `bb` from bit `s`, moved up by `d`.
proof fn lemma_file_moved(bb: u64, s: u64, d: u64, i: u64)
    requires
        i < 64,
        s <= 6,
        d <= 6,
    ensures
        ((((bb >> s) & 0x40810204081) << d) >> i) & 1 == 1 <==> d <= i < 49 && (i - d) % 7 == 0 && (
        bb >> ((i - d + s) as u64)) & 1 == 1,
{
    assert(((((bb >> s) & 0x40810204081) << d) >> i) & 1 == 1 <==> d <= i && i < 49 && (i - d) % 7
        == 0 && (bb >> ((i - d + s) as u64)) & 1 == 1) by (bit_vector)
        requires
            i < 64,
            s <= 6,
            d <= 6,
    ;
}

/// The board with its ranks in reverse order.
pub fn flip_vert(bb: u64) -> (out: u64)
    ensures
        is_image(bb, out, Transform::Vertical),
{
    let mut out: u64 = 0;
    let mut rank: u64 = 0;
    proof {
        assert forall|t: int| 0 <= t < 64 implies !bit(0u64, t) by {
            lemma_zero_bit(t as u64);
        }
    }
    while rank < 7
        invariant
            rank <= 7,
            forall|t: int|
                0 <= t < 64 ==> (#[trigger] bit(out, t) <==> t < 49 && t / 7 > 6 - rank && bit(
                    bb,
                    source_square(Transform::Vertical, t),
                )),
        decreases 7 - rank,
    {
        let iso = (bb >> (7 * rank)) & 127;
        let moved = iso << (7 * (6 - rank));
        let ghost before = out;
        out = out | moved;
        proof {
            assert forall|t: int| 0 <= t < 64 implies (#[trigger] bit(out, t) <==> t < 49 && t / 7
                > 6 - (rank + 1) && bit(bb, source_square(Transform::Vertical, t))) by {
                lemma_or_bit(before, moved, t as u64);
                lemma_rank_moved(bb, (7 * rank) as u64, (7 * (6 - rank)) as u64, t as u64);
                assert(bit(before, t) <==> t < 49 && t / 7 > 6 - rank && bit(
                    bb,
                    source_square(Transform::Vertical, t),
                ));
            }
        }
        rank = rank + 1;
    }
    out
}

/// The board with its files in reverse order.
pub fn flip_hor(bb: u64) -> (out: u64)
    ensures
        is_image(bb, out, Transform::Horizontal),
{
    let mut out: u64 = 0;
    let mut file: u64 = 0;
    proof {
        assert forall|t: int| 0 <= t < 64 implies !bit(0u64, t) by {
            lemma_zero_bit(t as u64);
        }
    }
    while file < 7
        invariant
            file <= 7,
            forall|t: int|
                0 <= t < 64 ==> (#[trigger] bit(out, t) <==> t < 49 && t % 7 > 6 - file && bit(
                    bb,
                    source_square(Transform::Horizontal, t),
                )),
        decreases 7 - file,
    {
        let iso = (bb >> file) & 0x40810204081;
        let moved = iso << (6 - file);
        let ghost before = out;
        out = out | moved;
        proof {
            assert forall|t: int| 0 <= t < 64 implies (#[trigger] bit(out, t) <==> t < 49 && t % 7
                > 6 - (file + 1) && bit(bb, source_square(Transform::Horizontal, t))) by {
                lemma_or_bit(before, moved, t as u64);
                lemma_file_moved(bb, file, (6 - file) as u64, t as u64);
                assert(bit(before, t) <==> t < 49 && t % 7 > 6 - file && bit(
                    bb,
                    source_square(Transform::Horizontal, t),
                ));
            }
        }
        file = file + 1;
    }
    out
}

/// The board with ranks and files exchanged.
pub fn flip_diag(bb: u64) -> (out: u64)
    ensures
        is_image(bb, out, Transform::Diagonal),
{
    let mut out: u64 = 0;
    let mut t: u64 = 0;
    proof {
        assert forall|i: int| 0 <= i < 64 implies !bit(0u64, i) by {
            lemma_zero_bit(i as u64);
        }
    }
    while t < 49
        invariant
            t <= 49,
            forall|i: int|
                0 <= i < 64 ==> (#[trigger] bit(out, i) <==> i < t && bit(
                    bb,
                    source_square(Transform::Diagonal, i),
                )),
        decreases 49 - t,
    {
        let from = 7 * (t % 7) + t / 7;
        let ghost before = out;
        if (bb >> from) & 1 == 1 {
            out = out | (1u64 << t);
        }
        proof {
            assert forall|i: int| 0 <= i < 64 implies (#[trigger] bit(out, i) <==> i < t + 1 && bit(
                bb,
                source_square(Transform::Diagonal, i),
            )) by {
                let iu = i as u64;
                assert(bit(before, i) <==> i < t && bit(
                    bb,
                    source_square(Transform::Diagonal, i),
                ));
                if (bb >> from) & 1 == 1 {
                    assert(((before | (1u64 << t)) >> iu) & 1 == 1 <==> (before >> iu) & 1 == 1
                        || iu == t) by (bit_vector)
                        requires
                            iu < 64,
                            t < 49,
                    ;
                }
            }
        }
        t = t + 1;
    }
    out
}

/// The image of a bitboard under a symmetry. The identity leaves it as it
/// is, bits off the board too; the others drop them.
pub fn transform_bb(bb: u64, trans: Transform) -> (out: u64)
    ensures
        trans == Transform::Identity ==> out == bb,
        trans != Transform::Identity ==> is_image(bb, out, trans),
{
    match trans {
        Transform::Identity => bb,
        Transform::Horizontal => flip_hor(bb),
        Transform::Vertical => flip_vert(bb),
        Transform::Rotational => {
            let v = flip_vert(bb);
            let out = flip_hor(v);
            proof {
                assert forall|t: int| 0 <= t < 64 implies (#[trigger] bit(out, t) <==> t < 49
                    && bit(bb, source_square(trans, t))) by {
                    if t < 49 {
                        let m = source_square(Transform::Horizontal, t);
                        assert(bit(v, m) <==> m < 49 && bit(
                            bb,
                            source_square(Transform::Vertical, m),
                        ));
                    }
                }
            }
            out
        },
        Transform::Diagonal => flip_diag(bb),
        Transform::AntiDiagonal => {
            let d = flip_diag(bb);
            let h = flip_hor(d);
            let out = flip_vert(h);
            proof {
                assert forall|t: int| 0 <= t < 64 implies (#[trigger] bit(out, t) <==> t < 49
                    && bit(bb, source_square(trans, t))) by {
                    if t < 49 {
                        let m = source_square(Transform::Vertical, t);
                        assert(bit(h, m) <==> m < 49 && bit(
                            d,
                            source_square(Transform::Horizontal, m),
                        ));
                        let k = source_square(Transform::Horizontal, m);
                        assert(bit(d, k) <==> k < 49 && bit(
                            bb,
                            source_square(Transform::Diagonal, k),
                        ));
                    }
                }
            }
            out
        },
    }
}

/// Every symmetry is its own inverse but for the two diagonal mirrors, which
/// are so too: the square that comes to lie where a square came from is that
/// square.
pub proof fn lemma_source_involution(trans: Transform, sq: int)
    requires
        0 <= sq < 49,
    ensures
        0 <= source_square(trans, sq) < 49,
        source_square(trans, source_square(trans, sq)) == sq,
{
}

/// The square that a square of the board goes to under a symmetry.
pub fn transform_sq(sq: u8, trans: Transform) -> (r: u8)
    requires
        sq < 49,
    ensures
        r == source_square(trans, sq as int),
{
    let rank = sq / 7;
    let file = sq % 7;
    match trans {
        Transform::Identity => sq,
        Transform::Horizontal => 7 * rank + (6 - file),
        Transform::Vertical => 7 * (6 - rank) + file,
        Transform::Rotational => 7 * (6 - rank) + (6 - file),
        Transform::Diagonal => 7 * file + rank,
        Transform::AntiDiagonal => 7 * (6 - file) + (6 - rank),
    }
}

/// The image of a move under a symmetry: a pass stays, the squares of any
/// other move go where the symmetry takes them.
pub open spec fn moved(mov: Move, trans: Transform) -> Move {
    if mov.to_sq() == 63 {
        mov
    } else if mov.from_sq() == 63 {
        Move::make(63, source_square(trans, mov.to_sq()))
    } else {
        Move::make(source_square(trans, mov.from_sq()), source_square(trans, mov.to_sq()))
    }
}

/// The image of a move between squares of the board under a symmetry.
pub fn transform_move(mov: Move, trans: Transform) -> (r: Move)
    requires
        mov.to_sq() == 63 || (mov.to_sq() < 49 && (mov.from_sq() == 63 || mov.from_sq() < 49)),
    ensures
        r == moved(mov, trans),
{
    if mov.is_pass() {
        mov
    } else if mov.is_single() {
        Move::new_single(transform_sq(mov.to() as u8, trans))
    } else {
        Move::new_double(transform_sq(mov.src() as u8, trans), transform_sq(mov.to() as u8, trans))
    }
}

/// A source of numbers to pick by: the xorshift generator.
pub struct Rand(pub u64);

impl Rand {
    /// A generator that starts from the low 32 bits of `micros`, which is
    /// meant to be the time.
    pub fn with_seed(micros: u128) -> (r: Rand)
        ensures
            r.0 == micros % 0x1_0000_0000,
    {
        Rand((micros % 0x1_0000_0000) as u64)
    }

    /// The next number.
    pub fn rng(&mut self) -> (r: u64)
        ensures
            r == xorshift(old(self).0),
            final(self).0 == r,
    {
        self.0 = crate::ataxx::board::rand(self.0);
        self.0
    }
}

/// Where the training data comes from and how much of it is held at a time.
#[derive(Clone)]
pub struct DataLoader {
    pub file_path: String,
    pub buffer_size: usize,
    pub threads: usize,
}

impl DataLoader {
    /// A loader that holds as many positions as go into `buffer_size_mb`
    /// megabytes, at 1024 bytes each.
    pub fn new(path: &str, buffer_size_mb: usize, threads: usize) -> (l: DataLoader)
        requires
            buffer_size_mb * 1024 * 1024 <= usize::MAX,
        ensures
            l.file_path@ == path@,
            l.buffer_size == buffer_size_mb * 1024 * 1024 / 512 / 2,
            l.threads == threads,
    {
        DataLoader {
            file_path: String::from_str(path),
            buffer_size: buffer_size_mb * 1024 * 1024 / 512 / 2,
            threads,
        }
    }
}

/// One position for the training of the policy: the position, and the first
/// `num` of `moves` are its moves with their visits.
#[derive(Clone, Copy)]
pub struct DecompressedData {
    pub pos: Board,
    pub moves: [(Move, u16); 96],
    pub num: usize,
}

/// The symmetry with the given number, from 0 to 5.
pub open spec fn transform_numbered(n: int) -> Transform {
    if n == 0 {
        Transform::Identity
    } else if n == 1 {
        Transform::Horizontal
    } else if n == 2 {
        Transform::Vertical
    } else if n == 3 {
        Transform::Rotational
    } else if n == 4 {
        Transform::Diagonal
    } else {
        Transform::AntiDiagonal
    }
}

/// Whether a move goes between squares of the board, or is a pass.
pub open spec fn on_board_move(mov: Move) -> bool {
    mov.to_sq() == 63 || (mov.to_sq() < 49 && (mov.from_sq() == 63 || mov.from_sq() < 49))
}

/// Whether the record of a position is taken for the training: it is the
/// eleventh of its game or a later one, and has more than one move with
/// visits, no more than `MAX_MOVES`, all between squares of the board.
pub open spec fn taken(i: int, dist: Option<Seq<(Move, u32)>>) -> bool {
    match dist {
        Some(d) => i >= 10 && 1 < d.len() <= 96 && forall|k: int|
            0 <= k < d.len() ==> on_board_move(#[trigger] d[k].0),
        None => false,
    }
}

/// Whether a position for the training is the image under a symmetry of a
/// position and its moves with visits: its stones and gaps are the images of
/// those, its moves the images of the moves, with the visits cut to 16 bits,
/// and what else it holds is the same.
pub open spec fn is_image_of(
    data: DecompressedData,
    pos: BoardModel,
    dist: Seq<(Move, u32)>,
    trans: Transform,
) -> bool {
    &&& data.num == dist.len()
    &&& data.pos@.blue_to_move == pos.blue_to_move
    &&& data.pos@.halfm == pos.halfm
    &&& data.pos@.fullm == pos.fullm
    &&& if trans == Transform::Identity {
        data.pos@ == pos
    } else {
        is_image(pos.red, data.pos@.red, trans) && is_image(pos.blu, data.pos@.blu, trans)
            && is_image(pos.gaps, data.pos@.gaps, trans)
    }
    &&& forall|k: int|
        0 <= k < dist.len() ==> #[trigger] data.moves@[k] == (
            moved(dist[k].0, trans),
            (dist[k].1 % 0x1_0000) as u16,
        )
    &&& forall|k: int| dist.len() <= k < 96 ==> #[trigger] data.moves@[k] == (Move::make(0, 0), 0u16)
}

/// Whether every move of a list goes between squares of the board.
fn all_on_board(dist: &Vec<(Move, u32)>) -> (r: bool)
    ensures
        r == forall|k: int| 0 <= k < dist@.len() ==> on_board_move(#[trigger] dist@[k].0),
{
    let mut k: usize = 0;
    while k < dist.len()
        invariant
            k <= dist@.len(),
            forall|j: int| 0 <= j < k ==> on_board_move(#[trigger] dist@[j].0),
        decreases dist@.len() - k,
    {
        let mov = dist[k].0;
        if !(mov.is_pass() || (mov.to() < 49 && (mov.src() == 63 || mov.src() < 49))) {
            return false;
        }
        k = k + 1;
    }
    true
}

/// The symmetry with the given number, from 0 to 5.
pub fn numbered(n: u64) -> (t: Transform)
    ensures
        t == transform_numbered(n as int),
{
    if n == 0 {
        Transform::Identity
    } else if n == 1 {
        Transform::Horizontal
    } else if n == 2 {
        Transform::Vertical
    } else if n == 3 {
        Transform::Rotational
    } else if n == 4 {
        Transform::Diagonal
    } else {
        Transform::AntiDiagonal
    }
}

/// The image of a position and its moves with visits under a symmetry.
pub fn augment(pos: &Board, dist: &Vec<(Move, u32)>, trans: Transform) -> (data: DecompressedData)
    requires
        dist@.len() <= 96,
        forall|k: int| 0 <= k < dist@.len() ==> on_board_move(#[trigger] dist@[k].0),
    ensures
        is_image_of(data, pos@, dist@, trans),
{
    let bbs = pos.bbs();
    let new_pos = Board::from_parts(
        transform_bb(bbs[0], trans),
        transform_bb(bbs[1], trans),
        transform_bb(bbs[2], trans),
        pos.stm() == 1,
        pos.halfm(),
        pos.fullm(),
    );
    let mut moves: [(Move, u16); 96] = [(Move::new_null(), 0u16); 96];
    let mut k: usize = 0;
    while k < dist.len()
        invariant
            k <= dist@.len() <= 96,
            forall|j: int| 0 <= j < dist@.len() ==> on_board_move(#[trigger] dist@[j].0),
            forall|j: int|
                0 <= j < k ==> #[trigger] moves@[j] == (
                    moved(dist@[j].0, trans),
                    (dist@[j].1 % 0x1_0000) as u16,
                ),
            forall|j: int| k <= j < 96 ==> #[trigger] moves@[j] == (Move::make(0, 0), 0u16),
        decreases dist@.len() - k,
    {
        let (mov, visits) = dist[k];
        assert(on_board_move(dist@[k as int].0));
        moves[k] = (transform_move(mov, trans), (visits % 0x1_0000) as u16);
        k = k + 1;
    }
    proof {
        if trans == Transform::Identity {
            Board::lemma_ext(new_pos, *pos);
        }
    }
    DecompressedData { pos: new_pos, moves, num: dist.len() }
}

/// A position that is taken for the training, with its moves and their
/// visits, and the symmetry under which it is taken.
pub struct Pick {
    pub pos: BoardModel,
    pub dist: Seq<(Move, u32)>,
    pub trans: Transform,
}

/// What is taken from the records of a game: the positions, the number of
/// records whose best move was played, and the state of the generator.
pub struct Plan {
    pub picks: Seq<Pick>,
    pub followed: int,
    pub seed: u64,
}

/// What is taken from the records of a game from the `i`-th on, where
/// `board` stands. A record that is taken draws a number from the generator,
/// whose remainder by 6 picks the symmetry. The game is followed by the best
/// moves as long as they can be played.
pub open spec fn planned(records: Seq<DataModel>, i: int, board: BoardModel, seed: u64) -> Plan
    decreases records.len() - i,
{
    if i < 0 || i >= records.len() {
        Plan { picks: Seq::<Pick>::empty(), followed: i, seed }
    } else {
        let d = records[i];
        let take = taken(i, d.dist);
        let drawn = if take {
            xorshift(seed)
        } else {
            seed
        };
        let picks = if take {
            seq![Pick { pos: board, dist: d.dist->0, trans: transform_numbered(drawn as int % 6) }]
        } else {
            Seq::<Pick>::empty()
        };
        if !board.can_play(d.best_move) {
            Plan { picks, followed: i, seed: drawn }
        } else {
            let rest = planned(records, i + 1, board.made(d.best_move), drawn);
            Plan { picks: picks + rest.picks, ..rest }
        }
    }
}

/// The picks made before with the plan for what comes after them.
pub open spec fn continued(done: Seq<Pick>, rest: Plan) -> Plan {
    Plan { picks: done + rest.picks, ..rest }
}

/// Takes from the record of a game the positions for the training, each
/// under a symmetry picked by `rng`, and adds them to the buffer. The game
/// is followed from the opening by its best moves; a best move that cannot
/// be played ends it. Returns the number of records whose best move was
/// played.
pub fn parse_into_buffer(
    game: &MontyAtaxxFormat,
    buffer: &mut Vec<DecompressedData>,
    rng: &mut Rand,
) -> (followed: usize)
    ensures
        ({
            let plan = planned(models(game.moves@), 0, BoardModel::startpos(), old(rng).0);
            &&& followed == plan.followed
            &&& final(rng).0 == plan.seed
            &&& final(buffer)@.len() == old(buffer)@.len() + plan.picks.len()
            &&& final(buffer)@.subrange(0, old(buffer)@.len() as int) == old(buffer)@
            &&& forall|k: int|
                0 <= k < plan.picks.len() ==> is_image_of(
                    #[trigger] final(buffer)@[old(buffer)@.len() + k],
                    plan.picks[k].pos,
                    plan.picks[k].dist,
                    plan.picks[k].trans,
                )
        }),
{
    let mut pos = Board::default();
    let ghost records = models(game.moves@);
    let ghost goal = planned(records, 0, BoardModel::startpos(), rng.0);
    let ghost mut done: Seq<Pick> = Seq::<Pick>::empty();
    let ghost base = buffer@;
    let mut i: usize = 0;
    proof {
        assert(done + goal.picks =~= goal.picks);
        assert(buffer@.subrange(0, base.len() as int) =~= base);
    }
    while i < game.moves.len()
        invariant
            i <= game.moves@.len(),
            records == models(game.moves@),
            base == old(buffer)@,
            goal == planned(records, 0, BoardModel::startpos(), old(rng).0),
            goal == continued(done, planned(records, i as int, pos@, rng.0)),
            buffer@.len() == base.len() + done.len(),
            buffer@.subrange(0, base.len() as int) == base,
            forall|k: int|
                0 <= k < done.len() ==> is_image_of(
                    #[trigger] buffer@[base.len() + k],
                    done[k].pos,
                    done[k].dist,
                    done[k].trans,
                ),
        decreases game.moves@.len() - i,
    {
        let data = &game.moves[i];
        assert(records[i as int] == data@);
        let ghost before = buffer@;
        let ghost seed = rng.0;
        let ghost old_done = done;
        match &data.visit_distribution {
            Some(dist) => {
                if i >= 10 && dist.len() > 1 && dist.len() <= 96 && all_on_board(dist) {
                    let trans = numbered(rng.rng() % 6);
                    let picked = augment(&pos, dist, trans);
                    buffer.push(picked);
                    proof {
                        done = done.push(Pick { pos: pos@, dist: dist@, trans });
                        assert(buffer@.subrange(0, base.len() as int) =~= base);
                        assert forall|k: int| 0 <= k < done.len() implies is_image_of(
                            #[trigger] buffer@[base.len() + k],
                            done[k].pos,
                            done[k].dist,
                            done[k].trans,
                        ) by {
                            if k < old_done.len() {
                                assert(buffer@[base.len() + k] == before[base.len() + k]);
                            }
                        }
                    }
                }
            },
            None => {},
        }
        let ghost here = planned(records, i as int, pos@, seed);
        if !pos.can_play(data.best_move) {
            proof {
                assert(old_done + here.picks =~= done);
            }
            return i;
        }
        proof {
            let rest = planned(records, i + 1, pos@.made(data.best_move), rng.0);
            assert(here.picks =~= (done.subrange(old_done.len() as int, done.len() as int))
                + rest.picks);
            assert(old_done + here.picks =~= done + rest.picks);
        }
        pos.make(data.best_move);
        i = i + 1;
    }
    proof {
        assert(done + Seq::<Pick>::empty() =~= done);
    }
    i
}

/// The list after the entries at `a` and `b` changed places.
pub open spec fn swapped<T>(s: Seq<T>, a: int, b: int) -> Seq<T> {
    s.update(a, s[b]).update(b, s[a])
}

/// The list after its first `n` entries were shuffled: from the last of them
/// down, each changes places with one at or before it, picked by the next
/// number of the generator.
pub open spec fn shuffled<T>(s: Seq<T>, n: int, seed: u64) -> Seq<T>
    decreases n,
{
    if n <= 0 || n > s.len() {
        s
    } else {
        shuffled(swapped(s, (xorshift(seed) as int) % n, n - 1), n - 1, xorshift(seed))
    }
}

/// The state of the generator after `n` numbers.
pub open spec fn drawn(seed: u64, n: int) -> u64
    decreases n,
{
    if n <= 0 {
        seed
    } else {
        drawn(xorshift(seed), n - 1)
    }
}

/// Shuffles a list by the numbers of the generator.
pub fn shuffle<T: Copy>(data: &mut Vec<T>, rng: &mut Rand)
    ensures
        final(data)@ == shuffled(old(data)@, old(data)@.len() as int, old(rng).0),
        final(rng).0 == drawn(old(rng).0, old(data)@.len() as int),
{
    let mut i: usize = data.len();
    while i > 0
        invariant
            i <= data@.len() == old(data)@.len(),
            shuffled(old(data)@, old(data)@.len() as int, old(rng).0) == shuffled(
                data@,
                i as int,
                rng.0,
            ),
            drawn(old(rng).0, old(data)@.len() as int) == drawn(rng.0, i as int),
        decreases i,
    {
        let idx = (rng.rng() % (i as u64)) as usize;
        let a = data[idx];
        let b = data[i - 1];
        data[idx] = b;
        data[i - 1] = a;
        i = i - 1;
    }
}

} // verus!
