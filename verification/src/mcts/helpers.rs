use vstd::prelude::*;

use crate::mcts::params::MctsParams;

verus! {

pub struct SearchHelpers;

/// The time for one move, in milliseconds: the time on the clock shared out
/// over the moves to go, one at least, and three quarters of the increment.
pub open spec fn time_budget(time: int, inc: int, mtg: int) -> int {
    time / (if mtg < 1 {
        1
    } else {
        mtg
    }) + 3 * inc / 4
}

/// The moves to go that the time is shared out over: what the game says, else
/// what the parameters say.
pub open spec fn moves_to_go(movestogo: Option<u64>, params: Seq<i32>) -> int {
    match movestogo {
        Some(m) => m as int,
        None => if params[11] < 0 {
            0
        } else {
            params[11] as int
        },
    }
}

impl SearchHelpers {
    /// The time that a search may take at most, in milliseconds, for the time
    /// left on the clock, the increment for each move, and the number of
    /// moves up to the next time control.
    pub fn get_time(
        time: u64,
        increment: Option<u64>,
        movestogo: Option<u64>,
        params: &MctsParams,
    ) -> (t: u128)
        ensures
            t == time_budget(
                time as int,
                match increment {
                    Some(i) => i as int,
                    None => 0,
                },
                moves_to_go(movestogo, params@),
            ),
    {
        let inc: u64 = match increment {
            Some(i) => i,
            None => 0,
        };
        let mtg: u64 = match movestogo {
            Some(m) => m,
            None => {
                let m = params.tm_mtg();
                if m < 0 {
                    0
                } else {
                    m as u64
                }
            },
        };
        let share: u64 = if mtg < 1 {
            1
        } else {
            mtg
        };
        (time / share) as u128 + 3 * (inc as u128) / 4
    }
}

} // verus!
