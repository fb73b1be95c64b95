use vstd::prelude::*;
use vstd::string::*;

use crate::text::{is_word, parse_unsigned, token_is, unsigned_value};

verus! {

/// What a run is to do.
#[derive(Debug, Default)]
pub struct RunOptions {
    pub games: usize,
    pub threads: usize,
    pub nodes: usize,
    pub out_path: String,
}

/// What the arguments of the program ask for.
pub enum Parsed {
    /// A benchmark, not a run.
    Bench,
    /// A run, and the number of arguments that were not understood.
    Run(RunOptions, usize),
    /// Nothing: the argument with this number should be a number and is none.
    Malformed(usize),
}

/// What the arguments read so far ask for.
pub struct ArgState {
    pub games: usize,
    pub threads: usize,
    pub nodes: usize,
    pub out_path: Seq<char>,
    /// Which option the next argument is the value of: 1 for the threads, 2
    /// for the nodes, 3 for the path, 4 for the games, 0 for none.
    pub mode: int,
    pub unknown: int,
}

/// What a run is asked for after all arguments, or what else they ask for.
pub enum ArgResult {
    Bench,
    Run(ArgState),
    Malformed(int),
}

/// The option that an argument names: 1 for `-t` or `--threads`, 2 for `-n`
/// or `--nodes`, 3 for `-o` or `--output`, 4 for `-g` or `--games`, 0 for
/// none.
pub open spec fn option_named(arg: Seq<u8>) -> int {
    if is_word(arg, "-t") || is_word(arg, "--threads") {
        1
    } else if is_word(arg, "-n") || is_word(arg, "--nodes") {
        2
    } else if is_word(arg, "-o") || is_word(arg, "--output") {
        3
    } else if is_word(arg, "-g") || is_word(arg, "--games") {
        4
    } else {
        0
    }
}

/// What the arguments from the `i`-th on ask for, after what those before
/// ask for: `bench` anywhere asks for a benchmark; an argument that names an
/// option makes the next one its value; any other argument is the value of
/// the option named before it, or not understood.
pub open spec fn args_read(args: Seq<String>, i: int, state: ArgState) -> ArgResult
    decreases args.len() - i,
{
    if i < 0 || i >= args.len() {
        ArgResult::Run(state)
    } else {
        let arg = args[i]@;
        let bytes = vstd::utf8::encode_utf8(args[i]@);
        if is_word(bytes, "bench") {
            ArgResult::Bench
        } else if option_named(bytes) != 0 {
            args_read(args, i + 1, ArgState { mode: option_named(bytes), ..state })
        } else if state.mode == 3 {
            args_read(args, i + 1, ArgState { out_path: arg, mode: 0, ..state })
        } else if state.mode == 1 || state.mode == 2 || state.mode == 4 {
            match unsigned_value(bytes, usize::MAX as nat) {
                Some(v) => args_read(
                    args,
                    i + 1,
                    if state.mode == 1 {
                        ArgState { threads: v as usize, mode: 0, ..state }
                    } else if state.mode == 2 {
                        ArgState { nodes: v as usize, mode: 0, ..state }
                    } else {
                        ArgState { games: v as usize, mode: 0, ..state }
                    },
                ),
                None => ArgResult::Malformed(i),
            }
        } else {
            args_read(args, i + 1, ArgState { unknown: state.unknown + 1, ..state })
        }
    }
}

/// Where the reading of the arguments starts.
pub open spec fn args_start() -> ArgState {
    ArgState { games: 0, threads: 0, nodes: 0, out_path: Seq::<char>::empty(), mode: 0, unknown: 0 }
}

fn name_option(arg: &[u8]) -> (r: u8)
    ensures
        r == option_named(arg@),
{
    if token_is(arg, "-t") || token_is(arg, "--threads") {
        1
    } else if token_is(arg, "-n") || token_is(arg, "--nodes") {
        2
    } else if token_is(arg, "-o") || token_is(arg, "--output") {
        3
    } else if token_is(arg, "-g") || token_is(arg, "--games") {
        4
    } else {
        0
    }
}

/// Reads what the arguments of the program ask for.
pub fn parse_args(args: &Vec<String>) -> (r: Parsed)
    ensures
        match (r, args_read(args@, 0, args_start())) {
            (Parsed::Bench, ArgResult::Bench) => true,
            (Parsed::Malformed(i), ArgResult::Malformed(j)) => i == j,
            (Parsed::Run(opts, unknown), ArgResult::Run(state)) => opts.games == state.games
                && opts.threads == state.threads && opts.nodes == state.nodes && opts.out_path@
                == state.out_path && unknown == state.unknown,
            _ => false,
        },
{
    let mut opts = RunOptions { games: 0, threads: 0, nodes: 0, out_path: String::new() };
    let mut mode: u8 = 0;
    let mut unknown: usize = 0;
    let mut i: usize = 0;
    while i < args.len()
        invariant
            i <= args@.len(),
            unknown <= i,
            0 <= mode <= 4,
            args_read(args@, 0, args_start()) == args_read(
                args@,
                i as int,
                ArgState {
                    games: opts.games,
                    threads: opts.threads,
                    nodes: opts.nodes,
                    out_path: opts.out_path@,
                    mode: mode as int,
                    unknown: unknown as int,
                },
            ),
        decreases args@.len() - i,
    {
        let arg = args[i].as_str().as_bytes();
        if token_is(arg, "bench") {
            return Parsed::Bench;
        }
        let named = name_option(arg);
        if named != 0 {
            mode = named;
        } else if mode == 3 {
            opts.out_path = args[i].clone();
            mode = 0;
        } else if mode == 1 || mode == 2 || mode == 4 {
            match parse_unsigned(arg, usize::MAX as u64) {
                Some(v) => {
                    if mode == 1 {
                        opts.threads = v as usize;
                    } else if mode == 2 {
                        opts.nodes = v as usize;
                    } else {
                        opts.games = v as usize;
                    }
                    mode = 0;
                },
                None => {
                    return Parsed::Malformed(i);
                },
            }
        } else {
            unknown = unknown + 1;
        }
        i = i + 1;
    }
    Parsed::Run(opts, unknown)
}

} // verus!
