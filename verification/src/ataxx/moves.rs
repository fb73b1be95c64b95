use vstd::prelude::*;
use vstd::string::*;

verus! {

/// The letter of a file, `a` to `g`.
pub open spec fn file_char(file: int) -> char {
    if file == 0 {
        'a'
    } else if file == 1 {
        'b'
    } else if file == 2 {
        'c'
    } else if file == 3 {
        'd'
    } else if file == 4 {
        'e'
    } else if file == 5 {
        'f'
    } else {
        'g'
    }
}

/// The character of a decimal digit.
pub open spec fn digit_char(d: int) -> char {
    if d == 0 {
        '0'
    } else if d == 1 {
        '1'
    } else if d == 2 {
        '2'
    } else if d == 3 {
        '3'
    } else if d == 4 {
        '4'
    } else if d == 5 {
        '5'
    } else if d == 6 {
        '6'
    } else if d == 7 {
        '7'
    } else if d == 8 {
        '8'
    } else {
        '9'
    }
}

/// A natural number in decimal, without leading zeros.
pub open spec fn decimal(n: nat) -> Seq<char>
    decreases n,
{
    if n < 10 {
        seq![digit_char(n as int)]
    } else {
        decimal(n / 10).push(digit_char((n % 10) as int))
    }
}

/// The name of a square: its file letter, then its rank counted from 1.
pub open spec fn square_name(sq: int) -> Seq<char> {
    seq![file_char(sq % 7)] + decimal((1 + sq / 7) as nat)
}

fn file_str(file: usize) -> (s: &'static str)
    requires
        file < 7,
    ensures
        s@ == seq![file_char(file as int)],
{
    proof {
        reveal_strlit("a");
        reveal_strlit("b");
        reveal_strlit("c");
        reveal_strlit("d");
        reveal_strlit("e");
        reveal_strlit("f");
        reveal_strlit("g");
    }
    let s = if file == 0 {
        "a"
    } else if file == 1 {
        "b"
    } else if file == 2 {
        "c"
    } else if file == 3 {
        "d"
    } else if file == 4 {
        "e"
    } else if file == 5 {
        "f"
    } else {
        "g"
    };
    assert(s@ =~= seq![file_char(file as int)]);
    s
}

fn digit_str(d: u64) -> (s: &'static str)
    requires
        d < 10,
    ensures
        s@ == seq![digit_char(d as int)],
{
    proof {
        reveal_strlit("0");
        reveal_strlit("1");
        reveal_strlit("2");
        reveal_strlit("3");
        reveal_strlit("4");
        reveal_strlit("5");
        reveal_strlit("6");
        reveal_strlit("7");
        reveal_strlit("8");
        reveal_strlit("9");
    }
    let s = if d == 0 {
        "0"
    } else if d == 1 {
        "1"
    } else if d == 2 {
        "2"
    } else if d == 3 {
        "3"
    } else if d == 4 {
        "4"
    } else if d == 5 {
        "5"
    } else if d == 6 {
        "6"
    } else if d == 7 {
        "7"
    } else if d == 8 {
        "8"
    } else {
        "9"
    };
    assert(s@ =~= seq![digit_char(d as int)]);
    s
}

/// Appends a number in decimal to a string.
pub fn push_decimal(res: &mut String, n: u64)
    ensures
        final(res)@ == old(res)@ + decimal(n as nat),
    decreases n,
{
    if n < 10 {
        res.append(digit_str(n));
    } else {
        push_decimal(res, n / 10);
        res.append(digit_str(n % 10));
        assert(final(res)@ =~= old(res)@ + decimal(n as nat));
    }
}

/// A move: the square a stone leaves and the square a stone lands on.
///
/// A single move grows a new stone and leaves no square: its `from` is 63.
/// A pass has both fields at 63, the null move both at 0.
#[derive(Clone, Copy, PartialEq, Eq, Debug, Default, Structural)]
pub struct Move {
    from: u8,
    to: u8,
}

impl Move {
    pub closed spec fn from_sq(self) -> int {
        self.from as int
    }

    pub closed spec fn to_sq(self) -> int {
        self.to as int
    }

    /// The move with the given squares.
    pub closed spec fn make(from: int, to: int) -> Move {
        Move { from: from as u8, to: to as u8 }
    }

    /// A move is its two squares and nothing else.
    pub proof fn lemma_make(from: int, to: int)
        requires
            0 <= from < 256,
            0 <= to < 256,
        ensures
            Move::make(from, to).from_sq() == from,
            Move::make(from, to).to_sq() == to,
    {
    }

    /// The squares of a move are numbers below 256.
    pub proof fn lemma_range(self)
        ensures
            0 <= self.from_sq() < 256,
            0 <= self.to_sq() < 256,
    {
    }

    /// Two moves with the same squares are the same move.
    pub proof fn lemma_ext(a: Move, b: Move)
        requires
            a.from_sq() == b.from_sq(),
            a.to_sq() == b.to_sq(),
        ensures
            a == b,
    {
    }

    /// The move as 16 bits: `from` in the low byte, `to` in the high byte.
    pub open spec fn code(self) -> u16 {
        (self.from_sq() + 256 * self.to_sq()) as u16
    }

    /// The text of the move: the names of its squares, the first left out for
    /// a single move, and `0000` where no stone lands.
    pub open spec fn uai_text(self) -> Seq<char> {
        let first = if self.from_sq() != 63 {
            square_name(self.from_sq())
        } else {
            Seq::<char>::empty()
        };
        let second = if self.to_sq() != 63 {
            square_name(self.to_sq())
        } else {
            seq!['0', '0', '0', '0']
        };
        first + second
    }

    pub fn new_single(to: u8) -> (m: Move)
        ensures
            m == Move::make(63, to as int),
    {
        Move { from: 63, to }
    }

    pub fn new_double(from: u8, to: u8) -> (m: Move)
        ensures
            m == Move::make(from as int, to as int),
    {
        Move { from, to }
    }

    pub fn new_pass() -> (m: Move)
        ensures
            m == Move::make(63, 63),
    {
        Move { from: 63, to: 63 }
    }

    pub fn new_null() -> (m: Move)
        ensures
            m == Move::make(0, 0),
    {
        Move { from: 0, to: 0 }
    }

    pub fn is_single(&self) -> (b: bool)
        ensures
            b == (self.from_sq() == 63),
    {
        self.from == 63
    }

    pub fn is_null(&self) -> (b: bool)
        ensures
            b == (*self == Move::make(0, 0)),
    {
        self.from == 0 && self.to == 0
    }

    pub fn is_pass(&self) -> (b: bool)
        ensures
            b == (self.to_sq() == 63),
    {
        self.to == 63
    }

    pub fn src(&self) -> (sq: usize)
        ensures
            sq == self.from_sq(),
            sq < 256,
    {
        self.from as usize
    }

    pub fn to(&self) -> (sq: usize)
        ensures
            sq == self.to_sq(),
            sq < 256,
    {
        self.to as usize
    }

    /// Packs the move into 16 bits.
    pub fn to_u16(self) -> (r: u16)
        ensures
            r == self.code(),
            Move::make(r as int % 256, r as int / 256) == self,
    {
        (self.from as u16) + 256 * (self.to as u16)
    }

    /// Unpacks a move from 16 bits.
    pub fn from_u16(value: u16) -> (m: Move)
        ensures
            m == Move::make(value as int % 256, value as int / 256),
            m.code() == value,
    {
        Move { from: (value % 256) as u8, to: (value / 256) as u8 }
    }

    /// The move in the notation of the text protocol.
    pub fn uai(&self) -> (res: String)
        ensures
            res@ == self.uai_text(),
    {
        let mut res = String::new();
        if self.src() != 63 {
            res.append(file_str(self.src() % 7));
            push_decimal(&mut res, (1 + self.src() / 7) as u64);
        }
        if self.to() != 63 {
            res.append(file_str(self.to() % 7));
            push_decimal(&mut res, (1 + self.to() / 7) as u64);
        } else {
            proof {
                reveal_strlit("0000");
            }
            res.append("0000");
        }
        assert(res@ =~= self.uai_text());
        res
    }
}

impl From<Move> for u16 {
    fn from(value: Move) -> (r: u16) {
        value.to_u16()
    }
}

impl vstd::std_specs::convert::FromSpecImpl<Move> for u16 {
    open spec fn obeys_from_spec() -> bool {
        true
    }

    open spec fn from_spec(value: Move) -> u16 {
        value.code()
    }
}

impl From<u16> for Move {
    fn from(value: u16) -> (m: Move) {
        Move::from_u16(value)
    }
}

impl vstd::std_specs::convert::FromSpecImpl<u16> for Move {
    open spec fn obeys_from_spec() -> bool {
        true
    }

    open spec fn from_spec(value: u16) -> Move {
        Move::make(value as int % 256, value as int / 256)
    }
}

} // verus!
