use vstd::prelude::*;
use vstd::string::*;

use crate::text::{is_word, token_is};

verus! {

/// What a line asks for.
#[derive(Clone, Copy, PartialEq, Eq, Debug, Structural)]
pub enum Command {
    IsReady,
    SetOption,
    Position,
    Go,
    Quit,
    Params,
    Eval,
    Policy,
    Uai,
    NewGame,
    Stop,
    /// An empty line, or one that starts with no known word.
    Unknown,
}

/// What a line with the given first word asks for.
pub open spec fn command_of(word: Seq<u8>) -> Command {
    if is_word(word, "isready") {
        Command::IsReady
    } else if is_word(word, "setoption") {
        Command::SetOption
    } else if is_word(word, "position") {
        Command::Position
    } else if is_word(word, "go") {
        Command::Go
    } else if is_word(word, "quit") {
        Command::Quit
    } else if is_word(word, "params") {
        Command::Params
    } else if is_word(word, "eval") {
        Command::Eval
    } else if is_word(word, "policy") {
        Command::Policy
    } else if is_word(word, "uai") {
        Command::Uai
    } else if is_word(word, "uainewgame") {
        Command::NewGame
    } else if is_word(word, "stop") {
        Command::Stop
    } else {
        Command::Unknown
    }
}

/// What a line asks for, by the first of its words.
pub fn classify(words: &Vec<Vec<u8>>) -> (c: Command)
    ensures
        c == (if words@.len() == 0 {
            Command::Unknown
        } else {
            command_of(words@[0]@)
        }),
{
    if words.len() == 0 {
        return Command::Unknown;
    }
    let word = words[0].as_slice();
    if token_is(word, "isready") {
        Command::IsReady
    } else if token_is(word, "setoption") {
        Command::SetOption
    } else if token_is(word, "position") {
        Command::Position
    } else if token_is(word, "go") {
        Command::Go
    } else if token_is(word, "quit") {
        Command::Quit
    } else if token_is(word, "params") {
        Command::Params
    } else if token_is(word, "eval") {
        Command::Eval
    } else if token_is(word, "policy") {
        Command::Policy
    } else if token_is(word, "uai") {
        Command::Uai
    } else if token_is(word, "uainewgame") {
        Command::NewGame
    } else if token_is(word, "stop") {
        Command::Stop
    } else {
        Command::Unknown
    }
}

/// What a line asks of a search that is running: an answer that the engine
/// is ready, its end, or the end of the search, if the line holds that one
/// word and nothing else. Any other line is kept for when the search is over.
pub open spec fn interrupt_of(words: Seq<Vec<u8>>) -> Command {
    if words.len() == 1 && (command_of(words[0]@) == Command::IsReady || command_of(words[0]@)
        == Command::Quit || command_of(words[0]@) == Command::Stop) {
        command_of(words[0]@)
    } else {
        Command::Unknown
    }
}

/// What a line asks of a search that is running; `Unknown` for a line that
/// is to be kept until the search is over.
pub fn classify_interrupt(words: &Vec<Vec<u8>>) -> (c: Command)
    ensures
        c == interrupt_of(words@),
{
    if words.len() != 1 {
        return Command::Unknown;
    }
    match classify(words) {
        Command::IsReady => Command::IsReady,
        Command::Quit => Command::Quit,
        Command::Stop => Command::Stop,
        _ => Command::Unknown,
    }
}

} // verus!
