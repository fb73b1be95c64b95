use vstd::prelude::*;
use vstd::string::*;

use crate::ataxx::moves::{decimal, push_decimal, Move};
use crate::ataxx::state::GameState;
use crate::mcts::params::{spec_param_default, spec_param_name, NUM_PARAMS};
use crate::mcts::params::{param_default, param_name};

verus! {

/// The score that a line of the search report shows.
#[derive(Clone, Copy, PartialEq, Eq, Debug, Structural)]
pub enum ReportScore {
    /// A win in this many moves.
    Mate(usize),
    /// A loss in this many moves.
    Mated(usize),
    /// An advantage in hundredths of a stone.
    Cp(i64),
}

/// A whole number in decimal, with a minus sign if it is below zero.
pub open spec fn signed_decimal(n: int) -> Seq<char> {
    if n < 0 {
        seq!['-'] + decimal((-n) as nat)
    } else {
        decimal(n as nat)
    }
}

/// The text of a score in a report.
pub open spec fn score_text(score: ReportScore) -> Seq<char> {
    match score {
        ReportScore::Mate(n) => "score mate "@ + decimal(n as nat),
        ReportScore::Mated(n) => "score mate -"@ + decimal(n as nat),
        ReportScore::Cp(cp) => "score cp "@ + signed_decimal(cp as int),
    }
}

/// The moves of a line, each after a blank.
pub open spec fn pv_text(pv: Seq<Move>, n: int) -> Seq<char>
    decreases n,
{
    if n <= 0 {
        Seq::<char>::empty()
    } else {
        pv_text(pv, n - 1) + seq![' '] + pv[n - 1].uai_text()
    }
}

/// The number of nodes searched in a second, for a time in milliseconds; a
/// time of nothing counts as one millisecond.
pub open spec fn nodes_per_second(nodes: usize, ms: u128) -> int {
    nodes * 1000 / (if ms == 0 {
        1
    } else {
        ms as int
    })
}

/// A line of the report of a search.
pub open spec fn report_text(
    depth: usize,
    seldepth: usize,
    score: ReportScore,
    ms: u128,
    nodes: usize,
    pv: Seq<Move>,
) -> Seq<char> {
    "info depth "@ + decimal(depth as nat) + " seldepth "@ + decimal(seldepth as nat) + seq![' ']
        + score_text(score) + " time "@ + decimal(ms as nat) + " nodes "@ + decimal(nodes as nat)
        + " nps "@ + decimal(nodes_per_second(nodes, ms) as nat) + " pv"@ + pv_text(
        pv,
        pv.len() as int,
    )
}

/// Appends a number up to 128 bits in decimal.
pub fn push_wide(res: &mut String, n: u128)
    ensures
        final(res)@ == old(res)@ + decimal(n as nat),
    decreases n,
{
    if n < 10 {
        push_decimal(res, n as u64);
    } else {
        push_wide(res, n / 10);
        let ghost before = res@;
        push_decimal(res, (n % 10) as u64);
        assert(decimal((n % 10) as nat) =~= seq![crate::ataxx::moves::digit_char((n % 10) as int)]);
        assert(final(res)@ =~= old(res)@ + decimal(n as nat));
    }
}

/// Appends a whole number in decimal, with its sign.
pub fn push_signed(res: &mut String, n: i64)
    ensures
        final(res)@ == old(res)@ + signed_decimal(n as int),
{
    if n < 0 {
        proof {
            reveal_strlit("-");
        }
        res.append("-");
        push_wide(res, (-(n as i128)) as u128);
        assert(final(res)@ =~= old(res)@ + signed_decimal(n as int));
    } else {
        push_decimal(res, n as u64);
    }
}

/// The line that reports on a search: the depth it has come to, the score,
/// the time and the nodes, and the principal line.
pub fn search_report(
    depth: usize,
    seldepth: usize,
    score: ReportScore,
    ms: u128,
    nodes: usize,
    pv: &Vec<Move>,
) -> (line: String)
    ensures
        line@ == report_text(depth, seldepth, score, ms, nodes, pv@),
{
    let mut line = String::new();
    line.append("info depth ");
    push_decimal(&mut line, depth as u64);
    line.append(" seldepth ");
    push_decimal(&mut line, seldepth as u64);
    proof {
        reveal_strlit(" ");
    }
    line.append(" ");
    match score {
        ReportScore::Mate(n) => {
            line.append("score mate ");
            push_decimal(&mut line, n as u64);
        },
        ReportScore::Mated(n) => {
            line.append("score mate -");
            push_decimal(&mut line, n as u64);
        },
        ReportScore::Cp(cp) => {
            line.append("score cp ");
            push_signed(&mut line, cp);
        },
    }
    line.append(" time ");
    push_wide(&mut line, ms);
    line.append(" nodes ");
    push_decimal(&mut line, nodes as u64);
    line.append(" nps ");
    let per_second: u128 = (nodes as u128) * 1000 / (if ms == 0 {
        1
    } else {
        ms
    });
    push_wide(&mut line, per_second);
    line.append(" pv");
    let ghost head = line@;
    assert(head =~= "info depth "@ + decimal(depth as nat) + " seldepth "@ + decimal(
        seldepth as nat,
    ) + seq![' '] + score_text(score) + " time "@ + decimal(ms as nat) + " nodes "@ + decimal(
        nodes as nat,
    ) + " nps "@ + decimal(nodes_per_second(nodes, ms) as nat) + " pv"@);
    let mut i: usize = 0;
    while i < pv.len()
        invariant
            i <= pv@.len(),
            line@ == head + pv_text(pv@, i as int),
        decreases pv@.len() - i,
    {
        proof {
            reveal_strlit(" ");
        }
        let ghost before = line@;
        line.append(" ");
        let text = pv[i].uai();
        line.append(text.as_str());
        i = i + 1;
        assert(line@ =~= before + seq![' '] + pv@[i - 1].uai_text());
        assert(line@ =~= head + pv_text(pv@, i as int));
    }
    line
}

/// The text of a state: a letter for its kind, and the distance of a lost or
/// won state.
pub open spec fn state_text(state: GameState) -> Seq<char> {
    match state {
        GameState::Ongoing => seq!['O'],
        GameState::Lost(n) => seq!['L'] + decimal(n as nat),
        GameState::Won(n) => seq!['W'] + decimal(n as nat),
        GameState::Draw => seq!['D'],
    }
}

/// The text of a state.
pub fn state_string(state: GameState) -> (s: String)
    ensures
        s@ == state_text(state),
{
    let mut s = String::new();
    proof {
        reveal_strlit("O");
        reveal_strlit("L");
        reveal_strlit("W");
        reveal_strlit("D");
    }
    match state {
        GameState::Ongoing => {
            s.append("O");
        },
        GameState::Lost(n) => {
            s.append("L");
            push_decimal(&mut s, n as u64);
        },
        GameState::Won(n) => {
            s.append("W");
            push_decimal(&mut s, n as u64);
        },
        GameState::Draw => {
            s.append("D");
        },
    }
    assert(s@ =~= state_text(state));
    s
}

/// The line that offers the parameter number `i` as an option.
pub open spec fn option_text(i: int) -> Seq<char> {
    "option name "@ + spec_param_name(i)@ + " type spin default "@ + signed_decimal(
        spec_param_default(i) as int,
    )
}

/// The lines that an engine answers `uai` with: who it is, the options it
/// has, one for each parameter of the search among them, and `uaiok`.
pub fn preamble() -> (lines: Vec<String>)
    ensures
        lines@.len() == 8 + NUM_PARAMS,
        lines@[0]@ == "id name montyxx"@,
        lines@[1]@ == "id author Jamie Whiting, Viren & The Monty Authors"@,
        lines@[2]@ == "option name Hash type spin default 64 min 1 max 8192"@,
        lines@[3]@ == "option name Threads type spin default 1 min 1 max 512"@,
        lines@[4]@ == "option name uai_Chess960 type check default false"@,
        lines@[5]@ == "option name MoveOverhead type spin default 40 min 0 max 5000"@,
        lines@[6]@ == "option name report_moves type button"@,
        forall|i: int| 0 <= i < NUM_PARAMS ==> (#[trigger] lines@[7 + i])@ == option_text(i),
        lines@[7 + NUM_PARAMS as int]@ == "uaiok"@,
{
    let mut lines: Vec<String> = Vec::new();
    lines.push(String::from_str("id name montyxx"));
    lines.push(String::from_str("id author Jamie Whiting, Viren & The Monty Authors"));
    lines.push(String::from_str("option name Hash type spin default 64 min 1 max 8192"));
    lines.push(String::from_str("option name Threads type spin default 1 min 1 max 512"));
    lines.push(String::from_str("option name uai_Chess960 type check default false"));
    lines.push(String::from_str("option name MoveOverhead type spin default 40 min 0 max 5000"));
    lines.push(String::from_str("option name report_moves type button"));
    let mut i: usize = 0;
    while i < NUM_PARAMS
        invariant
            i <= NUM_PARAMS,
            lines@.len() == 7 + i,
            lines@[0]@ == "id name montyxx"@,
            lines@[1]@ == "id author Jamie Whiting, Viren & The Monty Authors"@,
            lines@[2]@ == "option name Hash type spin default 64 min 1 max 8192"@,
            lines@[3]@ == "option name Threads type spin default 1 min 1 max 512"@,
            lines@[4]@ == "option name uai_Chess960 type check default false"@,
            lines@[5]@ == "option name MoveOverhead type spin default 40 min 0 max 5000"@,
            lines@[6]@ == "option name report_moves type button"@,
            forall|j: int| 0 <= j < i ==> (#[trigger] lines@[7 + j])@ == option_text(j),
        decreases NUM_PARAMS - i,
    {
        let mut line = String::new();
        line.append("option name ");
        line.append(param_name(i));
        line.append(" type spin default ");
        push_signed(&mut line, param_default(i) as i64);
        assert(line@ =~= option_text(i as int));
        lines.push(line);
        i = i + 1;
    }
    lines.push(String::from_str("uaiok"));
    lines
}

} // verus!
