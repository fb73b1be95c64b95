use vstd::prelude::*;

verus! {

/// The outcome of a position from the point of view of the side to move.
///
/// `Lost` and `Won` carry the number of plies to the end of the game.
#[derive(Clone, Copy, PartialEq, Eq, Debug, Default, Structural)]
pub enum GameState {
    #[default]
    Ongoing,
    Lost(u8),
    Draw,
    Won(u8),
}

impl GameState {
    /// The 16-bit code of a state: the kind in the high byte, the distance in
    /// the low byte.
    pub open spec fn code(self) -> u16 {
        match self {
            GameState::Ongoing => 0u16,
            GameState::Draw => 256u16,
            GameState::Lost(x) => (512 + x) as u16,
            GameState::Won(x) => (768 + x) as u16,
        }
    }

    /// The state that a code stands for. Codes from 1024 on stand for none.
    pub open spec fn decode(value: u16) -> GameState {
        if value < 256 {
            GameState::Ongoing
        } else if value < 512 {
            GameState::Draw
        } else if value < 768 {
            GameState::Lost((value - 512) as u8)
        } else {
            GameState::Won((value - 768) as u8)
        }
    }

    pub open spec fn is_terminal(self) -> bool {
        self != GameState::Ongoing
    }

    /// Packs the state into 16 bits.
    pub fn to_u16(self) -> (r: u16)
        ensures
            r == self.code(),
            r < 1024,
            GameState::decode(r) == self,
    {
        match self {
            GameState::Ongoing => 0,
            GameState::Draw => 256,
            GameState::Lost(x) => {
                let x16: u16 = x as u16;
                assert(512u16 ^ x16 == 512 + x16) by (bit_vector)
                    requires
                        x16 < 256,
                ;
                512u16 ^ x16
            },
            GameState::Won(x) => {
                let x16: u16 = x as u16;
                assert(768u16 ^ x16 == 768 + x16) by (bit_vector)
                    requires
                        x16 < 256,
                ;
                768u16 ^ x16
            },
        }
    }

    /// Unpacks a state. The high byte names the kind and must be below 4.
    pub fn from_u16(value: u16) -> (r: GameState)
        requires
            value < 1024,
        ensures
            r == GameState::decode(value),
    {
        let discr: u16 = value >> 8;
        let x: u8 = (value & 0xff) as u8;
        assert(discr == value / 256 && (value & 0xff) == value % 256) by (bit_vector)
            requires
                discr == value >> 8,
        ;
        if discr == 0 {
            GameState::Ongoing
        } else if discr == 1 {
            GameState::Draw
        } else if discr == 2 {
            GameState::Lost(x)
        } else {
            GameState::Won(x)
        }
    }
}

impl From<GameState> for u16 {
    fn from(value: GameState) -> (r: u16) {
        value.to_u16()
    }
}

impl vstd::std_specs::convert::FromSpecImpl<GameState> for u16 {
    open spec fn obeys_from_spec() -> bool {
        true
    }

    open spec fn from_spec(value: GameState) -> u16 {
        value.code()
    }
}

} // verus!
