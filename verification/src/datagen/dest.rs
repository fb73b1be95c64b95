use vstd::prelude::*;

use crate::ataxx::state::GameState;
use crate::datagen::format::{game_bytes, models, MontyAtaxxFormat};

verus! {

/// The tally of the games written in a run.
pub struct Destination {
    pub games: usize,
    pub positions: usize,
    pub bytes: usize,
    pub limit: usize,
    /// The games lost, drawn and won.
    pub results: [usize; 3],
}

/// What became of a game that was handed over.
#[derive(Clone, Copy, PartialEq, Eq, Debug, Structural)]
pub enum Pushed {
    /// The run is over: the game was dropped.
    Dropped,
    /// The game cannot be written: its result is none of 0, 1 and 2, or a
    /// count is full.
    Refused,
    /// The bytes of the game are in the buffer, to be written. `stop` says
    /// that the run is over with this game, `report` that a report is due.
    Written { stop: bool, report: bool },
}

/// The figures of a report on a run.
#[derive(Clone, Copy, PartialEq, Eq, Debug, Structural)]
pub struct Report {
    pub bytes_per_position: usize,
    pub games_per_hour: usize,
    pub positions_per_hour: usize,
    pub moves_per_game: usize,
}

/// The result of a game that has come to a decided position, for red: 2 for
/// a win, 1 for a draw, 0 for a loss; `None` while the game goes on. `stm` is
/// the side to move in that position, 0 for red.
pub fn game_result(state: GameState, stm: usize) -> (r: Option<u8>)
    ensures
        r == (match state {
            GameState::Ongoing => None,
            GameState::Draw => Some(1u8),
            GameState::Lost(_) => Some(if stm == 1 {
                2u8
            } else {
                0u8
            }),
            GameState::Won(_) => Some(if stm == 1 {
                0u8
            } else {
                2u8
            }),
        }),
{
    match state {
        GameState::Ongoing => None,
        GameState::Draw => Some(1),
        GameState::Lost(_) => Some(
            if stm == 1 {
                2
            } else {
                0
            },
        ),
        GameState::Won(_) => Some(
            if stm == 1 {
                0
            } else {
                2
            },
        ),
    }
}

impl Destination {
    /// An empty tally for a run of `limit` games.
    pub fn new(limit: usize) -> (d: Destination)
        ensures
            d.games == 0,
            d.positions == 0,
            d.bytes == 0,
            d.limit == limit,
            d.results@ == seq![0usize, 0usize, 0usize],
    {
        let d = Destination { games: 0, positions: 0, bytes: 0, limit, results: [0, 0, 0] };
        assert(d.results@ =~= seq![0usize, 0usize, 0usize]);
        d
    }

    /// Whether a game with this result and these sizes can be counted.
    pub open spec fn takes(&self, result: u8, positions: nat, bytes: nat) -> bool {
        &&& result <= 2
        &&& self.games < usize::MAX
        &&& self.results@[result as int] < usize::MAX
        &&& self.positions + positions <= usize::MAX
        &&& self.bytes + bytes <= usize::MAX
    }

    /// Takes a game while the run goes on: counts it and puts its bytes into
    /// the buffer, in place of what the buffer held.
    pub fn push(&mut self, game: &MontyAtaxxFormat, stop: bool, buffer: &mut Vec<u8>) -> (r: Pushed)
        ensures
            final(self).limit == old(self).limit,
            stop ==> r == Pushed::Dropped && *final(self) == *old(self) && final(buffer)@ == old(
                buffer,
            )@,
            !stop && !old(self).takes(
                game.result,
                game.moves@.len(),
                game_bytes(game.result, models(game.moves@)).len(),
            ) ==> r == Pushed::Refused && *final(self) == *old(self),
            !stop && old(self).takes(
                game.result,
                game.moves@.len(),
                game_bytes(game.result, models(game.moves@)).len(),
            ) ==> {
                &&& final(buffer)@ == game_bytes(game.result, models(game.moves@))
                &&& final(self).games == old(self).games + 1
                &&& final(self).positions == old(self).positions + game.moves@.len()
                &&& final(self).bytes == old(self).bytes + final(buffer)@.len()
                &&& final(self).results@ == old(self).results@.update(
                    game.result as int,
                    (old(self).results@[game.result as int] + 1) as usize,
                )
                &&& r == (Pushed::Written {
                    stop: final(self).games >= final(self).limit,
                    report: final(self).games < final(self).limit && final(self).games % 256 == 0,
                })
            },
    {
        if stop {
            return Pushed::Dropped;
        }
        buffer.clear();
        match game.serialise_into_buffer(buffer) {
            Ok(()) => {},
            Err(_) => {
                return Pushed::Refused;
            },
        }
        let result = game.result as usize;
        if result > 2 || self.games == usize::MAX || self.results[result] == usize::MAX
            || game.moves.len() > usize::MAX - self.positions || buffer.len() > usize::MAX
            - self.bytes {
            return Pushed::Refused;
        }
        self.results[result] = self.results[result] + 1;
        self.games = self.games + 1;
        self.positions = self.positions + game.moves.len();
        self.bytes = self.bytes + buffer.len();
        if self.games >= self.limit {
            return Pushed::Written { stop: true, report: false };
        }
        Pushed::Written { stop: false, report: self.games % 256 == 0 }
    }

    /// The figures of a report after `elapsed` seconds, if there are games
    /// and positions to report on and time has passed.
    pub fn report(&self, elapsed: usize) -> (r: Option<Report>)
        ensures
            r == (if self.positions == 0 || self.games == 0 || elapsed == 0 || self.games * 3600
                > usize::MAX || self.positions * 3600 > usize::MAX {
                None
            } else {
                Some(
                    Report {
                        bytes_per_position: self.bytes / self.positions,
                        games_per_hour: (3600 * self.games / (elapsed as int)) as usize,
                        positions_per_hour: (3600 * self.positions / (elapsed as int)) as usize,
                        moves_per_game: self.positions / self.games,
                    },
                )
            }),
    {
        if self.positions == 0 || self.games == 0 || elapsed == 0 || self.games > usize::MAX / 3600
            || self.positions > usize::MAX / 3600 {
            return None;
        }
        Some(
            Report {
                bytes_per_position: self.bytes / self.positions,
                games_per_hour: 3600 * self.games / elapsed,
                positions_per_hour: 3600 * self.positions / elapsed,
                moves_per_game: self.positions / self.games,
            },
        )
    }
}

} // verus!
