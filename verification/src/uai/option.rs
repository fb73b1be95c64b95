use vstd::prelude::*;
use vstd::string::*;

use crate::mcts::params::{param_index, MctsParams, NUM_PARAMS};
use crate::tree::arena::Tree;
use crate::text::{is_word, parse_signed, parse_unsigned, signed_value, token_is, unsigned_value};

verus! {

/// What a `setoption` line changes.
#[derive(Clone, Copy, PartialEq, Eq, Debug, Structural)]
pub enum OptionChange {
    /// Nothing: the line is not of the form `setoption name N value V` or
    /// `setoption name report_moves`, names an option that is accepted
    /// without effect, names none that is known, or gives a value that is
    /// no number or out of the range of the option.
    Nothing,
    /// Whether the moves at the root are reported after a search.
    ReportMoves,
    /// The number of workers, from 1 to 512.
    Threads(usize),
    /// The time set aside for each move, from 0 to 5000 milliseconds.
    MoveOverhead(usize),
    /// The size of a half of the tree, from 1 to 8192 megabytes.
    Hash(usize),
    /// The parameter of the search with the given number.
    Param(usize, i32),
}

/// The number in a word if it lies from `min` to `max`.
pub open spec fn ranged(word: Seq<u8>, min: nat, max: nat) -> Option<usize> {
    match unsigned_value(word, max) {
        Some(v) => if v >= min {
            Some(v as usize)
        } else {
            None
        },
        None => None,
    }
}

/// The value that a parameter is set to: the number in the word, or 0 if it
/// holds none that fits.
pub open spec fn param_value(word: Seq<u8>) -> i32 {
    match signed_value(word, i32::MAX as nat) {
        Some(v) => v as i32,
        None => 0,
    }
}

/// What a `setoption` line with the given words changes.
pub open spec fn change_of(words: Seq<Vec<u8>>) -> OptionChange {
    if words.len() == 3 && is_word(words[0]@, "setoption") && is_word(words[1]@, "name")
        && is_word(words[2]@, "report_moves") {
        OptionChange::ReportMoves
    } else if words.len() == 5 && is_word(words[0]@, "setoption") && is_word(words[1]@, "name")
        && is_word(words[3]@, "value") {
        let name = words[2]@;
        let value = words[4]@;
        if is_word(name, "uai_Chess960") {
            OptionChange::Nothing
        } else if is_word(name, "Threads") {
            match ranged(value, 1, 512) {
                Some(v) => OptionChange::Threads(v),
                None => OptionChange::Nothing,
            }
        } else if is_word(name, "MoveOverhead") {
            match ranged(value, 0, 5000) {
                Some(v) => OptionChange::MoveOverhead(v),
                None => OptionChange::Nothing,
            }
        } else if is_word(name, "Hash") {
            match ranged(value, 1, 8192) {
                Some(v) => OptionChange::Hash(v),
                None => OptionChange::Nothing,
            }
        } else {
            match param_index(name, NUM_PARAMS as int) {
                Some(i) => OptionChange::Param(i as usize, param_value(value)),
                None => OptionChange::Nothing,
            }
        }
    } else {
        OptionChange::Nothing
    }
}

fn in_range(word: &[u8], min: u64, max: u64) -> (r: Option<usize>)
    requires
        max <= 0xffff,
    ensures
        r == ranged(word@, min as nat, max as nat),
{
    match parse_unsigned(word, max) {
        Some(v) => if v >= min {
            Some(v as usize)
        } else {
            None
        },
        None => None,
    }
}

/// Reads what a `setoption` line changes and makes the change. The workers,
/// the move overhead and the parameters take the value given; the reporting
/// of moves is switched over; a new size gives a new, empty tree, with an
/// empty cache, at the opening position.
pub fn setoption(
    words: &Vec<Vec<u8>>,
    params: &mut MctsParams,
    report_moves: &mut bool,
    tree: &mut Tree,
    threads: &mut usize,
    move_overhead: &mut usize,
) -> (change: OptionChange)
    ensures
        change == change_of(words@),
        match change {
            OptionChange::Hash(mb) => final(tree).is_new_mb(mb as int),
            _ => *final(tree) == *old(tree),
        },
        *final(report_moves) == (if change == OptionChange::ReportMoves {
            !*old(report_moves)
        } else {
            *old(report_moves)
        }),
        *final(threads) == (match change {
            OptionChange::Threads(v) => v,
            _ => *old(threads),
        }),
        *final(move_overhead) == (match change {
            OptionChange::MoveOverhead(v) => v,
            _ => *old(move_overhead),
        }),
        final(params)@ == (match change {
            OptionChange::Param(i, v) => old(params)@.update(i as int, v),
            _ => old(params)@,
        }),
{
    if words.len() == 3 {
        if token_is(words[0].as_slice(), "setoption") && token_is(words[1].as_slice(), "name")
            && token_is(words[2].as_slice(), "report_moves") {
            *report_moves = !*report_moves;
            return OptionChange::ReportMoves;
        }
        return OptionChange::Nothing;
    }
    if words.len() != 5 {
        return OptionChange::Nothing;
    }
    if !(token_is(words[0].as_slice(), "setoption") && token_is(words[1].as_slice(), "name")
        && token_is(words[3].as_slice(), "value")) {
        return OptionChange::Nothing;
    }
    let name = words[2].as_slice();
    let value = words[4].as_slice();
    if token_is(name, "uai_Chess960") {
        OptionChange::Nothing
    } else if token_is(name, "Threads") {
        match in_range(value, 1, 512) {
            Some(v) => {
                *threads = v;
                OptionChange::Threads(v)
            },
            None => OptionChange::Nothing,
        }
    } else if token_is(name, "MoveOverhead") {
        match in_range(value, 0, 5000) {
            Some(v) => {
                *move_overhead = v;
                OptionChange::MoveOverhead(v)
            },
            None => OptionChange::Nothing,
        }
    } else if token_is(name, "Hash") {
        match in_range(value, 1, 8192) {
            Some(v) => {
                *tree = Tree::new_mb(v);
                OptionChange::Hash(v)
            },
            None => OptionChange::Nothing,
        }
    } else {
        let v: i32 = match parse_signed(value, i32::MAX as u64) {
            Some(v) => v as i32,
            None => 0,
        };
        match MctsParams::find(name) {
            Some(i) => {
                params.set(name, v);
                OptionChange::Param(i, v)
            },
            None => OptionChange::Nothing,
        }
    }
}

} // verus!
