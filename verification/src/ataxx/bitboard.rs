use vstd::prelude::*;

verus! {

/// Whether the square `i` is set in a bitboard.
pub open spec fn bit(bb: u64, i: int) -> bool {
    0 <= i < 64 && (bb >> (i as u64)) & 1u64 == 1u64
}

/// The number of squares set in a bitboard.
pub open spec fn popcount(bb: u64) -> nat
    decreases bb,
{
    if bb == 0 {
        0
    } else {
        (bb % 2) as nat + popcount(bb / 2)
    }
}

/// The set squares of a bitboard from square `from` upwards, in ascending
/// order.
pub open spec fn squares_from(bb: u64, from: int) -> Seq<u8>
    decreases 64 - from,
{
    if from < 0 || from >= 64 {
        Seq::<u8>::empty()
    } else if bit(bb, from) {
        seq![from as u8] + squares_from(bb, from + 1)
    } else {
        squares_from(bb, from + 1)
    }
}

/// The set squares of a bitboard in ascending order.
pub open spec fn squares_of(bb: u64) -> Seq<u8> {
    squares_from(bb, 0)
}

/// `u64::count_ones` of the standard library returns the number of ones in
/// the binary representation of its argument.
pub assume_specification[ u64::count_ones ](i: u64) -> (r: u32)
    ensures
        r == popcount(i),
;

/// Where no square in `lo..hi` is set, listing from `lo` is listing from `hi`.
pub proof fn lemma_squares_skip(bb: u64, lo: int, hi: int)
    requires
        0 <= lo <= hi <= 64,
        forall|j: int| lo <= j < hi ==> !bit(bb, j),
    ensures
        squares_from(bb, lo) == squares_from(bb, hi),
    decreases hi - lo,
{
    if lo < hi {
        lemma_squares_skip(bb, lo + 1, hi);
    }
}

/// Every listed square is set, lies at or above the start, and the list
/// ascends strictly; every set square at or above the start is listed.
pub proof fn lemma_squares_from(bb: u64, from: int)
    requires
        0 <= from <= 64,
    ensures
        forall|k: int|
            0 <= k < squares_from(bb, from).len() ==> from <= #[trigger] squares_from(bb, from)[k]
                < 64 && bit(bb, squares_from(bb, from)[k] as int),
        forall|k: int, l: int|
            0 <= k < l < squares_from(bb, from).len() ==> squares_from(bb, from)[k]
                < squares_from(bb, from)[l],
        forall|i: int|
            from <= i < 64 && bit(bb, i) ==> squares_from(bb, from).contains(i as u8),
        squares_from(bb, from).len() <= 64 - from,
    decreases 64 - from,
{
    if from < 64 {
        lemma_squares_from(bb, from + 1);
        let rest = squares_from(bb, from + 1);
        let all = squares_from(bb, from);
        if bit(bb, from) {
            assert(all == seq![from as u8] + rest);
            assert forall|i: int| from <= i < 64 && bit(bb, i) implies all.contains(i as u8) by {
                if i == from {
                    assert(all[0] == from as u8);
                } else {
                    let k = choose|k: int| 0 <= k < rest.len() && rest[k] == i as u8;
                    assert(all[k + 1] == i as u8);
                }
            }
        } else {
            assert forall|i: int| from <= i < 64 && bit(bb, i) implies all.contains(i as u8) by {
                let k = choose|k: int| 0 <= k < rest.len() && rest[k] == i as u8;
                assert(all[k] == i as u8);
            }
        }
    }
}

/// The squares of half a bitboard are those of the bitboard, one lower.
proof fn lemma_squares_halved(bb: u64, i: int)
    requires
        0 <= i <= 63,
    ensures
        squares_from(bb / 2, i).len() == squares_from(bb, i + 1).len(),
    decreases 63 - i,
{
    let iu = i as u64;
    assert(((bb / 2) >> iu) & 1 == (if iu < 63 {
        (bb >> ((iu + 1) as u64)) & 1
    } else {
        0
    })) by (bit_vector)
        requires
            iu <= 63,
    ;
    if i < 63 {
        lemma_squares_halved(bb, i + 1);
    } else {
        assert(squares_from(bb / 2, 64).len() == 0);
        assert(squares_from(bb, 64).len() == 0);
        assert(squares_from(bb / 2, 63).len() == 0);
    }
}

/// A bitboard has as many squares listed as it has squares set.
pub proof fn lemma_popcount_squares(bb: u64)
    ensures
        popcount(bb) == squares_of(bb).len(),
    decreases bb,
{
    if bb == 0 {
        assert forall|j: int| 0 <= j < 64 implies !bit(bb, j) by {
            let ju = j as u64;
            assert((0u64 >> ju) & 1u64 == 0u64) by (bit_vector);
        }
        lemma_squares_skip(bb, 0, 64);
    } else {
        lemma_popcount_squares(bb / 2);
        lemma_squares_halved(bb, 0);
        assert((bb >> 0) & 1 == bb % 2) by (bit_vector);
    }
}

/// A bitboard has 64 squares set at most.
pub proof fn lemma_popcount_bound(bb: u64)
    ensures
        popcount(bb) <= 64,
{
    lemma_popcount_squares(bb);
    lemma_squares_from(bb, 0);
}

proof fn lemma_clear_lowest(x: u64, t: u64, i: u64)
    requires
        t < 64,
        i < 64,
        x != 0,
        (x >> t) & 1 == 1,
        x & (((1u64 << t) - 1) as u64) == 0,
    ensures
        ((x & ((x - 1) as u64)) >> i) & 1 == (if i == t {
            0
        } else {
            (x >> i) & 1
        }),
{
    assert(((x & ((x - 1) as u64)) >> i) & 1 == (if i == t {
        0
    } else {
        (x >> i) & 1
    })) by (bit_vector)
        requires
            t < 64,
            i < 64,
            x != 0,
            (x >> t) & 1 == 1,
            x & (((1u64 << t) - 1) as u64) == 0,
    ;
}

proof fn lemma_low_mask(x: u64, t: u64)
    requires
        t <= 64,
        x << ((64 - t) as u64) == 0,
    ensures
        t < 64 ==> x & (((1u64 << t) - 1) as u64) == 0,
{
    assert(t < 64 ==> x & (((1u64 << t) - 1) as u64) == 0) by (bit_vector)
        requires
            t <= 64,
            x << ((64 - t) as u64) == 0,
    ;
}

pub struct Bitboard;

impl Bitboard {
    /// The 49 squares of the board.
    pub const ALL: u64 = 0x1_ffff_ffff_ffff;

    /// The board without its rightmost file.
    pub const NOTR: u64 = 0xfdfb_f7ef_dfbf;

    /// The board without its leftmost file.
    pub const NOTL: u64 = 0x1_fbf7_efdf_bf7e;

    /// The squares next to a set square: one step to the left or right of it,
    /// and one step up or down from it or from those two.
    pub open spec fn spec_expand(bb: u64) -> u64 {
        let right = (bb & Bitboard::NOTR) << 1;
        let left = (bb & Bitboard::NOTL) >> 1;
        let bb2 = bb | right | left;
        let up = (bb2 << 7) & Bitboard::ALL;
        let down = bb2 >> 7;
        right | left | up | down
    }

    /// The squares of the board that are not set.
    pub open spec fn spec_not(bb: u64) -> u64 {
        !bb & Bitboard::ALL
    }

    /// The squares one step away from a square.
    pub open spec fn spec_singles(sq: int) -> u64 {
        Bitboard::spec_expand(1u64 << (sq as u64))
    }

    /// The squares that a stone on `sq` can jump to, and `sq` itself.
    pub open spec fn spec_doubles(sq: int) -> u64 {
        let singles = Bitboard::spec_singles(sq);
        Bitboard::spec_expand(singles) & Bitboard::spec_not(singles)
    }

    pub fn expand(bb: u64) -> (r: u64)
        ensures
            r == Bitboard::spec_expand(bb),
    {
        let right = (bb & Bitboard::NOTR) << 1;
        let left = (bb & Bitboard::NOTL) >> 1;
        let bb2 = bb | right | left;
        let up = (bb2 << 7) & Bitboard::ALL;
        let down = bb2 >> 7;
        right | left | up | down
    }

    pub fn not(bb: u64) -> (r: u64)
        ensures
            r == Bitboard::spec_not(bb),
    {
        !bb & Bitboard::ALL
    }

    pub fn singles(sq: usize) -> (r: u64)
        requires
            sq < 49,
        ensures
            r == Bitboard::spec_singles(sq as int),
    {
        Bitboard::expand(1u64 << (sq as u64))
    }

    pub fn doubles(sq: usize) -> (r: u64)
        requires
            sq < 49,
        ensures
            r == Bitboard::spec_doubles(sq as int),
    {
        let singles = Bitboard::singles(sq);
        Bitboard::expand(singles) & Bitboard::not(singles)
    }

    /// The number of squares set in a bitboard.
    pub fn count(bb: u64) -> (n: u32)
        ensures
            n == popcount(bb),
            n <= 64,
    {
        proof {
            lemma_popcount_bound(bb);
        }
        bb.count_ones()
    }

    /// Lists the set squares of a bitboard, lowest first.
    pub fn squares(bb: u64) -> (v: Vec<u8>)
        ensures
            v@ == squares_of(bb),
    {
        let mut rest: u64 = bb;
        let mut v: Vec<u8> = Vec::new();
        let ghost mut lo: int = 0;
        while rest != 0
            invariant
                0 <= lo <= 64,
                forall|i: int| 0 <= i < 64 ==> (bit(rest, i) <==> bit(bb, i) && i >= lo),
                squares_of(bb) == v@ + squares_from(bb, lo),
            decreases 64 - lo,
        {
            let sq: u32 = rest.trailing_zeros();
            proof {
                vstd::std_specs::bits::axiom_u64_trailing_zeros(rest);
                lemma_low_mask(rest, sq as u64);
                assert(bit(rest, sq as int));
                assert forall|j: int| lo <= j < sq implies !bit(bb, j) by {
                    assert((rest >> (j as u64)) & 1u64 == 0u64);
                    assert(!bit(rest, j));
                }
                lemma_squares_skip(bb, lo, sq as int);
                assert(squares_from(bb, sq as int) == seq![sq as u8] + squares_from(
                    bb,
                    sq as int + 1,
                ));
                assert forall|i: int| 0 <= i < 64 implies (bit((rest & ((rest - 1) as u64)), i)
                    <==> bit(bb, i) && i >= sq + 1) by {
                    lemma_clear_lowest(rest, sq as u64, i as u64);
                    if i < sq {
                        assert((rest >> (i as u64)) & 1u64 == 0u64);
                    }
                }
            }
            rest = rest & (rest - 1);
            v.push(sq as u8);
            proof {
                lo = sq as int + 1;
                assert(squares_of(bb) =~= v@ + squares_from(bb, lo));
            }
        }
        proof {
            assert forall|j: int| lo <= j < 64 implies !bit(bb, j) by {
                assert(!bit(rest, j)) by {
                    let ju = j as u64;
                    assert((0u64 >> ju) & 1u64 == 0u64) by (bit_vector);
                }
            }
            lemma_squares_skip(bb, lo, 64);
            assert(squares_from(bb, 64) =~= Seq::<u8>::empty());
        }
        v
    }
}

} // verus!
