use vstd::prelude::*;
use vstd::string::*;

use crate::mcts::helpers::{moves_to_go, time_budget, SearchHelpers};
use crate::mcts::limits::Limits;
use crate::mcts::params::MctsParams;
use crate::text::{
    is_word, parse_signed, parse_unsigned, signed_value, token_is, unsigned_value,
};

verus! {

/// Which of the fields of a `go` line the next word fills.
#[derive(Clone, Copy, PartialEq, Eq, Debug, Structural)]
pub enum Mode {
    /// No field was named yet.
    Start,
    Nodes,
    MoveTime,
    Depth,
    WTime,
    BTime,
    WInc,
    BInc,
    MovesToGo,
    /// A word stood where no field was named.
    Off,
}

/// What a `go` line asks for.
#[derive(Clone, Copy, PartialEq, Eq, Debug, Structural)]
pub struct GoOptions {
    pub mode: Mode,
    pub max_nodes: usize,
    pub move_time: Option<u64>,
    pub max_depth: usize,
    /// The time on the clock of blue.
    pub wtime: Option<u64>,
    /// The time on the clock of red.
    pub btime: Option<u64>,
    pub winc: Option<u64>,
    pub binc: Option<u64>,
    pub movestogo: Option<u64>,
}

/// The field that a word names, if it names one.
pub open spec fn mode_named(word: Seq<u8>) -> Option<Mode> {
    if is_word(word, "nodes") {
        Some(Mode::Nodes)
    } else if is_word(word, "movetime") {
        Some(Mode::MoveTime)
    } else if is_word(word, "depth") {
        Some(Mode::Depth)
    } else if is_word(word, "wtime") {
        Some(Mode::WTime)
    } else if is_word(word, "btime") {
        Some(Mode::BTime)
    } else if is_word(word, "winc") {
        Some(Mode::WInc)
    } else if is_word(word, "binc") {
        Some(Mode::BInc)
    } else if is_word(word, "movestogo") {
        Some(Mode::MovesToGo)
    } else {
        None
    }
}

/// The number in a word that gives a time or a count of moves: a number
/// below zero counts as zero, and a word that is no number as none.
pub open spec fn clock_value(word: Seq<u8>) -> Option<u64> {
    match signed_value(word, i64::MAX as nat) {
        Some(v) => Some(if v < 0 {
            0u64
        } else {
            v as u64
        }),
        None => None,
    }
}

/// What a `go` line asks for before any of its words is read.
pub open spec fn go_start() -> GoOptions {
    GoOptions {
        mode: Mode::Start,
        max_nodes: i32::MAX as usize,
        move_time: None,
        max_depth: 256,
        wtime: None,
        btime: None,
        winc: None,
        binc: None,
        movestogo: None,
    }
}

/// What a `go` line asks for after one more word: a word that names a field
/// makes that field the one to fill; any other word fills the field that was
/// named last. A word that is no number leaves the limits on nodes and on
/// depth as they are and takes back the others.
pub open spec fn go_step(g: GoOptions, word: Seq<u8>) -> GoOptions {
    match mode_named(word) {
        Some(mode) => GoOptions { mode, ..g },
        None => match g.mode {
            Mode::Nodes => GoOptions {
                max_nodes: match unsigned_value(word, usize::MAX as nat) {
                    Some(v) => v as usize,
                    None => g.max_nodes,
                },
                ..g
            },
            Mode::MoveTime => GoOptions {
                move_time: match unsigned_value(word, u64::MAX as nat) {
                    Some(v) => Some(v as u64),
                    None => None,
                },
                ..g
            },
            Mode::Depth => GoOptions {
                max_depth: match unsigned_value(word, usize::MAX as nat) {
                    Some(v) => v as usize,
                    None => g.max_depth,
                },
                ..g
            },
            Mode::WTime => GoOptions { wtime: clock_value(word), ..g },
            Mode::BTime => GoOptions { btime: clock_value(word), ..g },
            Mode::WInc => GoOptions { winc: clock_value(word), ..g },
            Mode::BInc => GoOptions { binc: clock_value(word), ..g },
            Mode::MovesToGo => GoOptions { movestogo: clock_value(word), ..g },
            _ => GoOptions { mode: Mode::Off, ..g },
        },
    }
}

/// What a `go` line asks for after the first `n` of its words.
pub open spec fn go_read(words: Seq<Vec<u8>>, n: int) -> GoOptions
    decreases n,
{
    if n <= 0 {
        go_start()
    } else {
        go_step(go_read(words, n - 1), words[n - 1]@)
    }
}

/// The limits of the search that a `go` line asks for. The side to move has
/// the clock `wtime` if it is blue and `btime` if it is red; with time on its
/// clock the search may take the budget for one move, else the time given for
/// the move, if one is. From either the move overhead is taken off.
pub open spec fn limits_of(g: GoOptions, blue_to_move: bool, params: Seq<i32>, overhead: usize) -> Limits {
    let clock = if blue_to_move {
        g.wtime
    } else {
        g.btime
    };
    let inc = if blue_to_move {
        g.winc
    } else {
        g.binc
    };
    let time: Option<int> = match clock {
        Some(remaining) => Some(
            time_budget(
                remaining as int,
                match inc {
                    Some(i) => i as int,
                    None => 0,
                },
                moves_to_go(g.movestogo, params),
            ),
        ),
        None => match g.move_time {
            Some(t) => Some(t as int),
            None => None,
        },
    };
    Limits {
        max_time: match time {
            Some(t) => Some(
                (if t < overhead {
                    0
                } else {
                    t - overhead
                }) as u128,
            ),
            None => None,
        },
        opt_time: None,
        max_depth: g.max_depth,
        max_nodes: g.max_nodes,
    }
}

fn name_mode(word: &[u8]) -> (r: Option<Mode>)
    ensures
        r == mode_named(word@),
{
    if token_is(word, "nodes") {
        Some(Mode::Nodes)
    } else if token_is(word, "movetime") {
        Some(Mode::MoveTime)
    } else if token_is(word, "depth") {
        Some(Mode::Depth)
    } else if token_is(word, "wtime") {
        Some(Mode::WTime)
    } else if token_is(word, "btime") {
        Some(Mode::BTime)
    } else if token_is(word, "winc") {
        Some(Mode::WInc)
    } else if token_is(word, "binc") {
        Some(Mode::BInc)
    } else if token_is(word, "movestogo") {
        Some(Mode::MovesToGo)
    } else {
        None
    }
}

fn clock(word: &[u8]) -> (r: Option<u64>)
    ensures
        r == clock_value(word@),
{
    match parse_signed(word, i64::MAX as u64) {
        Some(v) => Some(
            if v < 0 {
                0
            } else {
                v as u64
            },
        ),
        None => None,
    }
}

fn count(word: &[u8], default: usize) -> (r: usize)
    ensures
        r == (match unsigned_value(word@, usize::MAX as nat) {
            Some(v) => v as usize,
            None => default,
        }),
{
    match parse_unsigned(word, usize::MAX as u64) {
        Some(v) => v as usize,
        None => default,
    }
}

/// Reads what a `go` line asks for from the words of the line.
pub fn parse_go(words: &Vec<Vec<u8>>) -> (g: GoOptions)
    ensures
        g == go_read(words@, words@.len() as int),
{
    let mut g = GoOptions {
        mode: Mode::Start,
        max_nodes: i32::MAX as usize,
        move_time: None,
        max_depth: 256,
        wtime: None,
        btime: None,
        winc: None,
        binc: None,
        movestogo: None,
    };
    let mut i: usize = 0;
    while i < words.len()
        invariant
            i <= words@.len(),
            g == go_read(words@, i as int),
        decreases words@.len() - i,
    {
        let word = words[i].as_slice();
        match name_mode(word) {
            Some(mode) => {
                g.mode = mode;
            },
            None => match g.mode {
                Mode::Nodes => {
                    g.max_nodes = count(word, g.max_nodes);
                },
                Mode::MoveTime => {
                    g.move_time = parse_unsigned(word, u64::MAX);
                    assert(g.move_time == (match unsigned_value(word@, u64::MAX as nat) {
                        Some(v) => Some(v as u64),
                        None => None,
                    }));
                },
                Mode::Depth => {
                    g.max_depth = count(word, g.max_depth);
                },
                Mode::WTime => {
                    g.wtime = clock(word);
                },
                Mode::BTime => {
                    g.btime = clock(word);
                },
                Mode::WInc => {
                    g.winc = clock(word);
                },
                Mode::BInc => {
                    g.binc = clock(word);
                },
                Mode::MovesToGo => {
                    g.movestogo = clock(word);
                },
                _ => {
                    g.mode = Mode::Off;
                },
            },
        }
        i = i + 1;
    }
    g
}

/// The limits of the search that a `go` line asks for.
pub fn go_limits(g: &GoOptions, blue_to_move: bool, params: &MctsParams, move_overhead: usize) -> (l:
    Limits)
    ensures
        l == limits_of(*g, blue_to_move, params@, move_overhead),
{
    let clock = if blue_to_move {
        g.wtime
    } else {
        g.btime
    };
    let inc = if blue_to_move {
        g.winc
    } else {
        g.binc
    };
    let time: Option<u128> = match clock {
        Some(remaining) => Some(SearchHelpers::get_time(remaining, inc, g.movestogo, params)),
        None => match g.move_time {
            Some(t) => Some(t as u128),
            None => None,
        },
    };
    let max_time = match time {
        Some(t) => Some(
            if t < move_overhead as u128 {
                0
            } else {
                t - move_overhead as u128
            },
        ),
        None => None,
    };
    Limits { max_time, opt_time: None, max_depth: g.max_depth, max_nodes: g.max_nodes }
}

} // verus!
