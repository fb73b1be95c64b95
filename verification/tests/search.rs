use std::cell::Cell;

use monty::ataxx::{Board, GameState, Move, Side};
use monty::mcts::{
    check_limits, iterate, iteration_done, on_playout, param_default, param_name, prepare_root,
    search_with, stability_due, Limits, MctsParams, Playout, SearchHelpers, SearchStats, Step,
    Stop, Verdict, NUM_PARAMS,
};
use monty::text::{parse_signed, parse_unsigned, split_words};
use monty::tree::{NodePtr, Score, Tree, QUANT};
use monty::uai::{
    classify, classify_interrupt, go_limits, parse_go, position, setoption, Command, Mode,
    OptionChange,
};

fn words(line: &str) -> Vec<Vec<u8>> {
    split_words(line.as_bytes())
}

fn no_limits() -> Limits {
    Limits { max_time: None, opt_time: None, max_depth: 256, max_nodes: usize::MAX }
}

#[test]
fn words_are_split_at_white_space() {
    assert_eq!(words(""), Vec::<Vec<u8>>::new());
    assert_eq!(words("   \t\n"), Vec::<Vec<u8>>::new());
    assert_eq!(words("go"), vec![b"go".to_vec()]);
    assert_eq!(
        words("  go   nodes\t100 \r\n"),
        vec![b"go".to_vec(), b"nodes".to_vec(), b"100".to_vec()]
    );
}

#[test]
fn numbers_are_read_as_the_standard_library_reads_them() {
    for text in ["0", "7", "+7", "007", "255", "256", "", "+", "-", "-1", "1a", " 1", "99999999999999999999"] {
        assert_eq!(parse_unsigned(text.as_bytes(), u64::MAX), text.parse::<u64>().ok(), "{text}");
        assert_eq!(
            parse_unsigned(text.as_bytes(), 255),
            text.parse::<u8>().ok().map(u64::from),
            "{text}"
        );
        assert_eq!(
            parse_signed(text.as_bytes(), i64::MAX as u64),
            text.parse::<i64>().ok().map(i128::from),
            "{text}"
        );
    }
    for text in ["-128", "-129", "127", "128", "-0", "+0", "--1", "+-1"] {
        assert_eq!(
            parse_signed(text.as_bytes(), 127),
            text.parse::<i8>().ok().map(i128::from),
            "{text}"
        );
    }
    assert_eq!(parse_unsigned(b"18446744073709551615", u64::MAX), Some(u64::MAX));
    assert_eq!(parse_unsigned(b"18446744073709551616", u64::MAX), None);
    assert_eq!(parse_signed(b"-9223372036854775808", i64::MAX as u64), Some(i64::MIN as i128));
    assert_eq!(parse_signed(b"-9223372036854775809", i64::MAX as u64), None);
}

#[test]
fn time_for_a_move() {
    let params = MctsParams::default();
    // 60000 / 28 + 3 * 1000 / 4
    assert_eq!(SearchHelpers::get_time(60000, Some(1000), None, &params), 2142 + 750);
    assert_eq!(SearchHelpers::get_time(60000, None, Some(10), &params), 6000);
    assert_eq!(SearchHelpers::get_time(60000, Some(7), Some(0), &params), 60000 + 5);
    assert_eq!(SearchHelpers::get_time(0, None, None, &params), 0);
    assert_eq!(
        SearchHelpers::get_time(u64::MAX, Some(u64::MAX), Some(1), &params),
        u64::MAX as u128 + 3 * (u64::MAX as u128) / 4
    );
}

#[test]
fn parameters_have_names_and_defaults() {
    let mut params = MctsParams::default();
    for i in 0..NUM_PARAMS {
        assert_eq!(params.get(i), param_default(i));
        assert_eq!(MctsParams::find(param_name(i).as_bytes()), Some(i));
    }
    assert_eq!(params.tm_mtg(), 28);
    assert_eq!(param_name(2), "cpuct");
    assert!(params.set(b"cpuct", 555));
    assert_eq!(params.get(2), 555);
    assert!(!params.set(b"no_such_parameter", 1));
    assert!(!params.set(b"", 1));
    assert!(params.set(b"tm_mtg", -3));
    assert_eq!(SearchHelpers::get_time(1000, None, None, &params), 1000);
}

#[test]
fn commands_by_their_first_word() {
    assert_eq!(classify(&words("isready")), Command::IsReady);
    assert_eq!(classify(&words("go nodes 5")), Command::Go);
    assert_eq!(classify(&words("  position startpos")), Command::Position);
    assert_eq!(classify(&words("setoption name Hash value 1")), Command::SetOption);
    assert_eq!(classify(&words("uai")), Command::Uai);
    assert_eq!(classify(&words("uainewgame")), Command::NewGame);
    assert_eq!(classify(&words("quit")), Command::Quit);
    assert_eq!(classify(&words("stop")), Command::Stop);
    assert_eq!(classify(&words("params")), Command::Params);
    assert_eq!(classify(&words("eval")), Command::Eval);
    assert_eq!(classify(&words("policy")), Command::Policy);
    assert_eq!(classify(&words("")), Command::Unknown);
    assert_eq!(classify(&words("Go")), Command::Unknown);
    assert_eq!(classify(&words("gone")), Command::Unknown);
}

#[test]
fn go_without_arguments_has_the_default_limits() {
    let g = parse_go(&words("go"));
    assert_eq!(g.max_nodes, i32::MAX as usize);
    assert_eq!(g.max_depth, 256);
    assert_eq!(g.move_time, None);
    assert_eq!(g.mode, Mode::Off);
    let limits = go_limits(&g, false, &MctsParams::default(), 40);
    assert_eq!(limits.max_time, None);
    assert_eq!(limits.opt_time, None);
    assert_eq!(limits.max_nodes, i32::MAX as usize);
    assert_eq!(limits.max_depth, 256);
}

#[test]
fn go_with_nodes_depth_and_movetime() {
    let g = parse_go(&words("go nodes 1000 depth 7 movetime 100"));
    assert_eq!((g.max_nodes, g.max_depth, g.move_time), (1000, 7, Some(100)));
    let limits = go_limits(&g, true, &MctsParams::default(), 40);
    assert_eq!(limits.max_time, Some(60));
    assert_eq!(limits.max_nodes, 1000);
    assert_eq!(limits.max_depth, 7);
    let limits = go_limits(&g, true, &MctsParams::default(), 500);
    assert_eq!(limits.max_time, Some(0));
}

#[test]
fn go_with_clocks() {
    let g = parse_go(&words("go wtime 60000 btime 30000 winc 1000 binc 2000 movestogo 10"));
    assert_eq!(g.wtime, Some(60000));
    assert_eq!(g.btime, Some(30000));
    assert_eq!(g.winc, Some(1000));
    assert_eq!(g.binc, Some(2000));
    assert_eq!(g.movestogo, Some(10));
    let params = MctsParams::default();
    // blue to move has the clock given as wtime
    assert_eq!(go_limits(&g, true, &params, 40).max_time, Some(6000 + 750 - 40));
    assert_eq!(go_limits(&g, false, &params, 40).max_time, Some(3000 + 1500 - 40));
    assert_eq!(Board::default().stm(), Side::RED);
}

#[test]
fn go_clock_takes_the_place_of_the_move_time() {
    let g = parse_go(&words("go movetime 100 btime 2800"));
    let params = MctsParams::default();
    assert_eq!(go_limits(&g, false, &params, 0).max_time, Some(100));
    assert_eq!(go_limits(&g, true, &params, 0).max_time, Some(100));
    let g = parse_go(&words("go movetime 5000 btime 2800"));
    assert_eq!(go_limits(&g, false, &params, 0).max_time, Some(100));
}

#[test]
fn go_ignores_what_it_cannot_read() {
    let g = parse_go(&words("go nodes many depth -3 movetime soon wtime -5 btime x"));
    assert_eq!(g.max_nodes, i32::MAX as usize);
    assert_eq!(g.max_depth, 256);
    assert_eq!(g.move_time, None);
    assert_eq!(g.wtime, Some(0));
    assert_eq!(g.btime, None);
    let g = parse_go(&words("go nodes 5 6 infinite nodes"));
    assert_eq!(g.max_nodes, 6);
    assert_eq!(g.mode, Mode::Nodes);
    let g = parse_go(&words("go 17 nodes 5"));
    assert_eq!(g.max_nodes, 5);
}

#[test]
fn setoption_changes_what_it_names() {
    let mut params = MctsParams::default();
    let mut report = false;
    let mut tree = Tree::new(10, 2);
    let mut threads = 1;
    let mut overhead = 40;
    let set = |line: &str,
                   params: &mut MctsParams,
                   report: &mut bool,
                   tree: &mut Tree,
                   threads: &mut usize,
                   overhead: &mut usize| {
        setoption(&words(line), params, report, tree, threads, overhead)
    };
    assert_eq!(
        set("setoption name Threads value 8", &mut params, &mut report, &mut tree, &mut threads, &mut overhead),
        OptionChange::Threads(8)
    );
    assert_eq!(threads, 8);
    assert_eq!(
        set("setoption name MoveOverhead value 0", &mut params, &mut report, &mut tree, &mut threads, &mut overhead),
        OptionChange::MoveOverhead(0)
    );
    assert_eq!(overhead, 0);
    assert_eq!(
        set("setoption name report_moves", &mut params, &mut report, &mut tree, &mut threads, &mut overhead),
        OptionChange::ReportMoves
    );
    assert!(report);
    assert_eq!(
        set("setoption name report_moves", &mut params, &mut report, &mut tree, &mut threads, &mut overhead),
        OptionChange::ReportMoves
    );
    assert!(!report);
    assert_eq!(
        set("setoption name cpuct value 777", &mut params, &mut report, &mut tree, &mut threads, &mut overhead),
        OptionChange::Param(2, 777)
    );
    assert_eq!(params.get(2), 777);
    assert_eq!(
        set("setoption name cpuct value seven", &mut params, &mut report, &mut tree, &mut threads, &mut overhead),
        OptionChange::Param(2, 0)
    );
    assert_eq!(params.get(2), 0);
    assert_eq!(
        set("setoption name Hash value 1", &mut params, &mut report, &mut tree, &mut threads, &mut overhead),
        OptionChange::Hash(1)
    );
    assert_eq!(tree.slots(), 1024 * 1024 / 48);
    assert!(tree.is_empty());
}

#[test]
fn setoption_ignores_what_is_malformed_or_out_of_range() {
    let mut params = MctsParams::default();
    let mut report = false;
    let mut tree = Tree::new(10, 2);
    let mut threads = 3;
    let mut overhead = 40;
    for line in [
        "setoption",
        "setoption name Threads",
        "setoption name Threads value",
        "setoption name Threads value 0",
        "setoption name Threads value 513",
        "setoption name Threads value many",
        "setoption name Threads value 4 5",
        "setoption Name Threads value 4",
        "setoption name MoveOverhead value 5001",
        "setoption name MoveOverhead value -1",
        "setoption name Hash value 0",
        "setoption name Hash value 8193",
        "setoption name uai_Chess960 value true",
        "setoption name no_such_option value 4",
        "option name Threads value 4",
    ] {
        assert_eq!(
            setoption(&words(line), &mut params, &mut report, &mut tree, &mut threads, &mut overhead),
            OptionChange::Nothing,
            "{line}"
        );
    }
    assert_eq!((threads, overhead, report), (3, 40, false));
    assert_eq!(tree.slots(), 10);
    for i in 0..NUM_PARAMS {
        assert_eq!(params.get(i), param_default(i));
    }
}

#[test]
fn position_startpos_with_moves() {
    let mut pos = Board::from_parts(1, 2, 0, true, 9, 9);
    assert!(position(&words("position startpos"), &mut pos));
    assert_eq!(pos, Board::default());
    assert!(position(&words("position startpos moves f1 a1a3"), &mut pos));
    let mut expected = Board::default();
    expected.make(Move::new_single(5));
    expected.make(Move::new_double(0, 14));
    assert_eq!(pos, expected);
    assert!(position(&words("position startpos moves 0000"), &mut pos) == false);
    assert_eq!(pos, expected);
}

#[test]
fn position_by_its_text() {
    let mut pos = Board::default();
    assert!(position(&words("position fen x5o/7/2-1-2/7/2-1-2/7/o5x o 3 4"), &mut pos));
    assert_eq!(pos.as_fen(), "x5o/7/2-1-2/7/2-1-2/7/o5x o 3 4");
    assert!(position(&words("position fen x5o/7/7/7/7/7/o5x x 0 1 moves g2"), &mut pos));
    assert_eq!(pos.as_fen(), "x5o/7/7/7/7/6x/o5x o 0 1");
}

#[test]
fn position_that_is_invalid_leaves_the_position() {
    let mut pos = Board::default();
    pos.make(Move::new_single(5));
    let before = pos;
    for line in [
        "position",
        "position fen",
        "position fen x5o/7/7/7/7/7/o5x",
        "position fen x5o/7/7/7/7/7 x 0 1",
        "position startpos moves a1",
        "position startpos moves f1 f1",
        "position startpos moves g1g3 nonsense",
        "position startpos moves f1 a7a5",
    ] {
        assert!(!position(&words(line), &mut pos), "{line}");
        assert_eq!(pos, before, "{line}");
    }
}

#[test]
fn iterations_are_counted() {
    let mut stats = SearchStats::default();
    assert!(!iteration_done(&mut stats, 3, true, false, false));
    assert!(!iteration_done(&mut stats, 5, false, false, false));
    assert_eq!(stats.total_iters, 2);
    assert_eq!(stats.total_nodes, 8);
    assert_eq!(stats.main_iters, 1);
    assert_eq!(stats.seldepth, 4);
    assert!(iteration_done(&mut stats, 1, true, true, false));
    assert!(iteration_done(&mut stats, 1, true, false, true));
    assert_eq!(stats.total_iters, 4);
    assert_eq!(stats.seldepth, 4);
}

#[test]
fn limit_on_nodes_stops_the_search_at_that_many_iterations() {
    for n in [1usize, 2, 100, 1000] {
        let limits = Limits { max_nodes: n, ..no_limits() };
        let mut stats = SearchStats::default();
        let mut best = Move::new_null();
        let mut changes = 0;
        loop {
            iteration_done(&mut stats, 2, true, false, false);
            let v = check_limits(&limits, &mut stats, 0, false, Move::new_null(), &mut best, &mut changes);
            if v != Verdict::Continue {
                assert_eq!(v, Verdict::NodeLimit);
                break;
            }
            assert!(stats.total_iters < n);
        }
        assert_eq!(stats.total_iters, n);
    }
}

#[test]
fn limit_on_time_is_looked_at_every_128_iterations() {
    let limits = Limits { max_time: Some(100), ..no_limits() };
    let mut best = Move::new_null();
    let mut changes = 0;
    let mut stats = SearchStats { total_nodes: 300, total_iters: 127, main_iters: 127, avg_depth: 5, seldepth: 2 };
    assert_eq!(
        check_limits(&limits, &mut stats, 5000, false, Move::new_single(3), &mut best, &mut changes),
        Verdict::Continue
    );
    assert_eq!(best, Move::new_null());
    stats.main_iters = 128;
    assert_eq!(
        check_limits(&limits, &mut stats, 99, false, Move::new_single(3), &mut best, &mut changes),
        Verdict::Continue
    );
    assert_eq!(best, Move::new_single(3));
    assert_eq!(changes, 1);
    assert_eq!(
        check_limits(&limits, &mut stats, 100, false, Move::new_single(4), &mut best, &mut changes),
        Verdict::TimeLimit
    );
    assert_eq!(best, Move::new_single(3));
    assert_eq!(changes, 1);
}

#[test]
fn limit_on_depth_stops_at_a_new_average_depth() {
    let limits = Limits { max_depth: 4, ..no_limits() };
    let mut best = Move::new_null();
    let mut changes = 0;
    // average depth (350 - 100) / 100 = 2
    let mut stats = SearchStats { total_nodes: 350, total_iters: 100, main_iters: 1, avg_depth: 1, seldepth: 9 };
    assert_eq!(
        check_limits(&limits, &mut stats, 0, false, Move::new_null(), &mut best, &mut changes),
        Verdict::Continue
    );
    assert_eq!(stats.avg_depth, 2);
    stats.total_nodes = 500;
    assert_eq!(
        check_limits(&limits, &mut stats, 0, false, Move::new_null(), &mut best, &mut changes),
        Verdict::DepthLimit
    );
    assert_eq!(stats.avg_depth, 4);
}

#[test]
fn stable_result_stops_the_search_early_when_it_is_looked_at() {
    let limits = Limits { opt_time: Some(1000), ..no_limits() };
    let mut best = Move::new_null();
    let mut changes = 7;
    let mut stats = SearchStats { total_nodes: 5000, total_iters: 4096, main_iters: 4096, avg_depth: 9, seldepth: 2 };
    assert_eq!(
        check_limits(&limits, &mut stats, 10, true, Move::new_null(), &mut best, &mut changes),
        Verdict::SoftTimeLimit
    );
    assert_eq!(changes, 7);
    stats.main_iters = 4097;
    assert_eq!(
        check_limits(&limits, &mut stats, 10, true, Move::new_null(), &mut best, &mut changes),
        Verdict::Continue
    );
    stats.main_iters = 16384;
    assert_eq!(
        check_limits(&limits, &mut stats, 10, false, Move::new_single(1), &mut best, &mut changes),
        Verdict::Continue
    );
    assert_eq!(changes, 0);
    let none = no_limits();
    assert_eq!(
        check_limits(&none, &mut stats, 10, true, Move::new_single(2), &mut best, &mut changes),
        Verdict::Continue
    );
    assert_eq!(changes, 1);
}


fn value_of(pos: &Board) -> i64 {
    (2048 + 150 * pos.material() as i64).clamp(0, QUANT)
}

fn priors(_: &Board, moves: &Vec<Move>, _: bool) -> (Vec<u16>, u32) {
    (vec![(65535 / moves.len().max(1)) as u16; moves.len()], 0)
}

fn puct(tree: &Tree, cur: NodePtr) -> usize {
    let node = tree.node(cur);
    let first = node.actions();
    let fpu = 1.0 - node.q() as f64 / QUANT as f64;
    let explore = 1.4 * (node.visits().max(1) as f64).sqrt();
    let mut best = 0;
    let mut best_score = f64::NEG_INFINITY;
    for j in 0..node.num_actions() {
        let child = tree.node(first + j);
        let q = match child.state() {
            GameState::Lost(n) => 1.0 + f64::from(n),
            GameState::Won(n) => f64::from(n) - 256.0,
            GameState::Draw => 0.5,
            GameState::Ongoing => {
                if child.visits() == 0 {
                    fpu
                } else {
                    child.q() as f64 / QUANT as f64
                }
            }
        };
        let prior = f64::from(child.policy()) / 65535.0;
        let score = q + explore * prior / (1.0 + f64::from(child.visits()));
        if score > best_score {
            best_score = score;
            best = j;
        }
    }
    best
}

fn silent(_: &Tree, _: &SearchStats, _: bool) {}

fn run(tree: &mut Tree, limits: &Limits) -> monty::mcts::SearchOutcome {
    search_with(
        tree,
        limits,
        &value_of,
        &priors,
        &puct,
        &|| 0u128,
        &|| false,
        &|_: &Tree, _: i32, _: u128| false,
        &silent,
    )
}

#[test]
fn search_with_a_limit_on_nodes_runs_that_many_iterations() {
    for n in [1usize, 2, 10, 500] {
        let mut tree = Tree::new(50_000, 8);
        let outcome = run(&mut tree, &Limits { max_nodes: n, ..no_limits() });
        assert_eq!(outcome.stop, Stop::Limit(Verdict::NodeLimit));
        assert_eq!(outcome.stats.total_iters, n);
        assert_eq!(outcome.stats.main_iters, n);
        assert_eq!(tree.node(tree.root_node()).visits(), 1 + n as i32);
        assert!(outcome.best_move.is_some());
    }
}

#[test]
fn search_with_no_nodes_allowed_still_runs_one_iteration() {
    let mut tree = Tree::new(1000, 8);
    let outcome = run(&mut tree, &Limits { max_nodes: 0, ..no_limits() });
    assert_eq!(outcome.stop, Stop::Limit(Verdict::NodeLimit));
    assert_eq!(outcome.stats.total_iters, 1);
}

#[test]
fn go_nodes_1_expands_the_root_and_visits_one_child() {
    let mut tree = Tree::new(1000, 8);
    let outcome = run(&mut tree, &Limits { max_nodes: 1, ..no_limits() });
    let root = tree.node(tree.root_node());
    assert_eq!(root.num_actions(), 16);
    assert_eq!(root.visits(), 2);
    let legal = Board::default().map_legal_moves();
    assert!(legal.contains(&outcome.best_move.unwrap()));
    assert_eq!(outcome.stats.total_nodes, 2);
    assert_eq!(outcome.stats.seldepth, 1);
}

#[test]
fn searching_twice_with_one_node_gives_the_same_best_move() {
    let mut tree = Tree::new(1000, 8);
    let limits = Limits { max_nodes: 1, ..no_limits() };
    let first = run(&mut tree, &limits);
    let root = Board::default();
    assert!(tree.try_use_subtree(&root, &Some(root)));
    let second = run(&mut tree, &limits);
    assert_eq!(first.best_move, second.best_move);
    assert_eq!(tree.node(tree.root_node()).visits(), 3);
    assert_eq!(tree.node(tree.root_node()).num_actions(), 16);
}

#[test]
fn search_finds_the_move_that_takes_the_last_stone() {
    // red on a3, blue on b1: a2 takes the stone on b1
    let pos = Board::try_from_fen("7/7/7/7/x6/7/1o5 x 0 1").unwrap();
    let mut tree = Tree::new(50_000, 8);
    assert!(!tree.try_use_subtree(&pos, &None));
    let outcome = run(&mut tree, &Limits { max_nodes: 1000, ..no_limits() });
    assert_eq!(outcome.stop, Stop::RootDecided);
    assert!(outcome.stats.total_iters <= 1000);
    assert_eq!(tree.node(tree.root_node()).state(), GameState::Won(1));
    let best = outcome.best_move.unwrap();
    let mut after = pos;
    after.make(best);
    assert_eq!(after.game_state(), GameState::Lost(0));
    let (pv, score) = tree.get_score(10);
    assert_eq!(pv, vec![best]);
    assert_eq!(score, Score::Mate(1));
    // no thread is left behind
    let first = tree.node(tree.root_node()).actions();
    for j in 0..tree.node(tree.root_node()).num_actions() {
        assert_eq!(tree.node(first + j).threads(), 0);
    }
}

#[test]
fn search_of_a_position_that_is_over_finds_no_move() {
    let pos = Board::from_parts(1, 2, 0, false, 100, 1);
    let mut tree = Tree::new(1000, 8);
    tree.try_use_subtree(&pos, &None);
    let outcome = run(&mut tree, &Limits { max_nodes: 10, ..no_limits() });
    assert_eq!(outcome.best_move, None);
    assert_eq!(outcome.stop, Stop::Stuck);
    assert_eq!(outcome.stats.total_iters, 0);
}

#[test]
fn search_where_every_move_draws_has_the_value_of_a_draw() {
    // one quiet half-move before the draw, and red can only jump
    let pos = Board::try_from_fen("6o/7/7/7/7/--5/x-5 x 99 1").unwrap();
    let moves = pos.map_legal_moves();
    assert!(!moves.is_empty());
    for m in &moves {
        let mut next = pos;
        next.make(*m);
        assert_eq!(next.game_state(), GameState::Draw, "{}", m.uai());
    }
    let mut tree = Tree::new(1000, 8);
    tree.try_use_subtree(&pos, &None);
    let outcome = run(&mut tree, &Limits { max_nodes: 100, ..no_limits() });
    assert_eq!(outcome.stop, Stop::RootDecided);
    assert_eq!(tree.node(tree.root_node()).state(), GameState::Draw);
    assert_eq!(outcome.mean, QUANT / 2);
    assert_eq!(tree.get_score(5).1, Score::Value(QUANT / 2));
}

#[test]
fn search_stops_when_told_to() {
    let mut tree = Tree::new(50_000, 8);
    let calls = Cell::new(0);
    let abort = || {
        calls.set(calls.get() + 1);
        calls.get() > 20
    };
    let outcome = search_with(
        &mut tree,
        &no_limits(),
        &value_of,
        &priors,
        &puct,
        &|| 0u128,
        &abort,
        &|_: &Tree, _: i32, _: u128| false,
        &silent,
    );
    assert_eq!(outcome.stop, Stop::Aborted);
    assert_eq!(outcome.stats.total_iters, 10);
    assert_eq!(tree.phase(), monty::tree::Phase::Idle);
}

#[test]
fn search_stops_at_the_time_limit_when_the_clock_is_looked_at() {
    let mut tree = Tree::new(50_000, 8);
    let limits = Limits { max_time: Some(60), ..no_limits() };
    let outcome = search_with(
        &mut tree,
        &limits,
        &value_of,
        &priors,
        &puct,
        &|| 60u128,
        &|| false,
        &|_: &Tree, _: i32, _: u128| false,
        &silent,
    );
    assert_eq!(outcome.stop, Stop::Limit(Verdict::TimeLimit));
    assert_eq!(outcome.stats.total_iters, 128);
}

#[test]
fn search_in_a_tree_too_small_to_grow_ends() {
    let mut tree = Tree::new(17, 8);
    let outcome = run(&mut tree, &Limits { max_nodes: 1000, ..no_limits() });
    assert_eq!(outcome.stop, Stop::TreeTooSmall);
    // every child of the root was visited once before one had to be expanded
    assert_eq!(outcome.stats.total_iters, 16);
    let mut tree = Tree::new(5, 8);
    let outcome = run(&mut tree, &Limits { max_nodes: 1000, ..no_limits() });
    assert_eq!(outcome.stop, Stop::TreeTooSmall);
    assert_eq!(outcome.stats.total_iters, 0);
}

#[test]
fn search_flips_a_full_tree_and_goes_on() {
    let mut tree = Tree::new(12000, 8);
    let mut pos = Board::default();
    let mut kept = 0;
    let mut halves = vec![tree.half()];
    for _ in 0..8 {
        let outcome = run(&mut tree, &Limits { max_nodes: 400, ..no_limits() });
        assert_eq!(outcome.stop, Stop::Limit(Verdict::NodeLimit));
        assert_eq!(outcome.stats.total_iters, 400);
        assert!(tree.used() <= 12000);
        halves.push(tree.half());
        let best = outcome.best_move.unwrap();
        let prev = pos;
        pos.make(best);
        if tree.try_use_subtree(&pos, &Some(prev)) {
            kept += 1;
        }
    }
    assert_eq!(kept, 8);
    assert!(halves.contains(&1));
}

#[test]
fn iteration_on_an_empty_tree_is_stuck() {
    let mut tree = Tree::new(100, 4);
    assert_eq!(iterate(&mut tree, &value_of, &priors, &puct), Playout::Stuck);
    assert!(tree.is_empty());
}

#[test]
fn iteration_with_a_choice_that_is_no_child_is_given_up() {
    let mut tree = Tree::new(100, 4);
    run(&mut tree, &Limits { max_nodes: 1, ..no_limits() });
    let visits = tree.node(tree.root_node()).visits();
    let r = iterate(&mut tree, &value_of, &priors, &|_: &Tree, _: NodePtr| 99usize);
    assert_eq!(r, Playout::Stuck);
    assert_eq!(tree.node(tree.root_node()).visits(), visits);
    assert_eq!(tree.phase(), monty::tree::Phase::Idle);
}

#[test]
fn evaluation_out_of_range_is_held_in_range() {
    let mut tree = Tree::new(1000, 4);
    let outcome = search_with(
        &mut tree,
        &Limits { max_nodes: 50, ..no_limits() },
        &|_: &Board| 1_000_000i64,
        &priors,
        &puct,
        &|| 0u128,
        &|| false,
        &|_: &Tree, _: i32, _: u128| false,
        &silent,
    );
    assert_eq!(outcome.stats.total_iters, 50);
    assert!((0..=QUANT).contains(&tree.node(tree.root_node()).q()));
    assert!((0..=QUANT).contains(&outcome.mean));
}

#[test]
fn iteration_in_a_full_tree_reports_it_and_counts_nothing() {
    let mut tree = Tree::new(17, 8);
    run(&mut tree, &Limits { max_nodes: 1, ..no_limits() });
    assert_eq!(tree.used(), 17);
    let mut last = Playout::Done(0);
    for _ in 0..17 {
        last = iterate(&mut tree, &value_of, &priors, &puct);
        if last == Playout::TreeFull {
            break;
        }
    }
    assert_eq!(last, Playout::TreeFull);
    assert!(tree.is_full());
    let visits = tree.node(tree.root_node()).visits();
    assert_eq!(iterate(&mut tree, &value_of, &priors, &puct), Playout::TreeFull);
    assert_eq!(tree.node(tree.root_node()).visits(), visits);
    assert_eq!(tree.phase(), monty::tree::Phase::Idle);
}

#[test]
fn search_stops_early_when_the_result_is_found_stable() {
    let mut tree = Tree::new(200_000, 8);
    let asked = Cell::new(0);
    let stable = |_: &Tree, _: i32, _: u128| {
        asked.set(asked.get() + 1);
        asked.get() >= 2
    };
    let limits = Limits { opt_time: Some(50), ..no_limits() };
    let outcome =
        search_with(&mut tree, &limits, &value_of, &priors, &puct, &|| 1u128, &|| false, &stable, &silent);
    assert_eq!(outcome.stop, Stop::Limit(Verdict::SoftTimeLimit));
    assert_eq!(outcome.stats.total_iters, 2 * 4096);
    assert_eq!(asked.get(), 2);
}

#[test]
fn search_stops_at_the_average_depth_asked_for() {
    let mut tree = Tree::new(200_000, 8);
    let limits = Limits { max_depth: 2, ..no_limits() };
    let outcome = run(&mut tree, &limits);
    assert_eq!(outcome.stop, Stop::Limit(Verdict::DepthLimit));
    assert_eq!(outcome.stats.avg_depth, 2);
    let stats = outcome.stats;
    assert_eq!((stats.total_nodes - stats.total_iters) / stats.total_iters, 2);
}

#[test]
fn search_of_a_hundred_thousand_nodes() {
    let mut tree = Tree::new(1_200_000, 12);
    let outcome = run(&mut tree, &Limits { max_nodes: 100_000, ..no_limits() });
    assert_eq!(outcome.stop, Stop::Limit(Verdict::NodeLimit));
    assert_eq!(outcome.stats.total_iters, 100_000);
    assert!(outcome.best_move.is_some());
    assert_eq!(tree.node(tree.root_node()).visits(), 100_001);
    let first = tree.node(tree.root_node()).actions();
    let mut sum = 0;
    for j in 0..tree.node(tree.root_node()).num_actions() {
        let child = tree.node(first + j);
        assert_eq!(child.threads(), 0);
        sum += child.visits();
    }
    assert_eq!(sum, 100_000);
}

#[test]
fn tree_is_kept_from_move_to_move_over_a_game() {
    let mut tree = Tree::new(60_000, 10);
    let mut pos = Board::default();
    let mut prev: Option<Board> = None;
    let mut kept = 0;
    let mut plies = 0;
    while plies < 40 && pos.game_state() == GameState::Ongoing {
        if tree.try_use_subtree(&pos, &prev) {
            kept += 1;
        }
        let outcome = run(&mut tree, &Limits { max_nodes: 300, ..no_limits() });
        let best = outcome.best_move.unwrap();
        assert!(pos.map_legal_moves().contains(&best));
        prev = Some(pos);
        pos.make(best);
        plies += 1;
    }
    assert_eq!(plies, 40);
    assert!(kept >= 30, "{kept}");
}

#[test]
fn moves_and_states_as_numbers() {
    assert_eq!(u16::from(Move::new_double(3, 9)), 3 + 256 * 9);
    assert_eq!(Move::from(63 + 256 * 5), Move::new_single(5));
    assert_eq!(u16::from(GameState::Lost(4)), 512 + 4);
    assert_eq!(u16::from(GameState::Ongoing), 0);
}

/// What each node in use holds: visits, mean, mean of squares, state,
/// number of children, move, prior and threads.
fn snapshot(tree: &Tree) -> Vec<(i32, i64, i64, GameState, usize, Move, u16, u16)> {
    (0..tree.len())
        .map(|i| {
            let n = tree.node(NodePtr::new(tree.upper_active(), i as u32));
            (
                n.visits(),
                n.q(),
                n.sq_q(),
                n.state(),
                n.num_actions(),
                n.parent_move(),
                n.policy(),
                n.threads(),
            )
        })
        .collect()
}

#[test]
fn counted_iteration_counts_one_visit_on_each_node_of_the_descent_and_none_elsewhere() {
    let mut tree = Tree::new(50_000, 8);
    run(&mut tree, &Limits { max_nodes: 200, ..no_limits() });
    for _ in 0..60 {
        let before = snapshot(&tree);
        let depth = match iterate(&mut tree, &value_of, &priors, &puct) {
            Playout::Done(depth) => depth,
            other => panic!("{other:?}"),
        };
        let after = snapshot(&tree);
        let was = |i: usize| if i < before.len() { before[i].0 } else { 0 };
        let counted: Vec<usize> = (0..after.len()).filter(|&i| after[i].0 != was(i)).collect();
        assert_eq!(counted.len(), depth);
        assert_eq!(counted[0], 0);
        for &i in &counted {
            assert_eq!(after[i].0, was(i) + 1);
        }
        for step in counted.windows(2) {
            let parent = tree.node(NodePtr::new(tree.upper_active(), step[0] as u32));
            let first = parent.actions().idx();
            assert!(first <= step[1] && step[1] < first + parent.num_actions());
        }
        for i in 0..before.len() {
            if !counted.contains(&i) {
                assert_eq!(
                    (after[i].0, after[i].1, after[i].2, after[i].3),
                    (before[i].0, before[i].1, before[i].2, before[i].3)
                );
            }
            assert_eq!((after[i].5, after[i].6), (before[i].5, before[i].6));
            if before[i].4 > 0 || before[i].0 == 0 || before[i].3 != GameState::Ongoing {
                assert_eq!(after[i].4, before[i].4);
            }
        }
        // one node at most was given children: the last but one of the descent,
        // a child for each move of the position there
        if after.len() > before.len() {
            let parent = counted[depth - 2];
            assert!(*counted.last().unwrap() >= before.len());
            assert!(before[parent].4 == 0 && before[parent].0 > 0);
            let mut pos = Board::default();
            for &i in &counted[1..depth - 1] {
                pos.make(after[i].5);
            }
            let moves = pos.map_legal_moves();
            assert_eq!(after[parent].4, moves.len());
            assert_eq!(after.len() - before.len(), moves.len());
            let node = tree.node(NodePtr::new(tree.upper_active(), parent as u32));
            assert_eq!(node.actions().idx(), before.len());
            let (given, gini) = priors(&pos, &moves, false);
            for (j, mov) in moves.iter().enumerate() {
                assert_eq!(after[before.len() + j].5, *mov);
                assert_eq!(after[before.len() + j].6, given[j]);
            }
            assert_eq!(node.gini_impurity(), gini);
            for i in 0..before.len() {
                if i != parent {
                    assert_eq!(after[i].4, before[i].4);
                }
            }
        } else {
            for i in 0..before.len() {
                assert_eq!(after[i].4, before[i].4);
            }
        }
        // the descent has ended at the first node that was decided or never visited
        let last = *counted.last().unwrap();
        assert!(last >= before.len() || before[last].0 == 0 || before[last].3 != GameState::Ongoing);
        for &i in &counted[..depth - 1] {
            assert!(before[i].0 > 0 && before[i].3 == GameState::Ongoing);
        }
        assert!(after.iter().all(|n| n.7 == 0));
    }
}

#[test]
fn decided_node_without_children_gets_none() {
    let pos = Board::try_from_fen("7/7/7/7/x6/7/1o5 x 0 1").unwrap();
    let mut tree = Tree::new(50_000, 8);
    tree.try_use_subtree(&pos, &None);
    run(&mut tree, &Limits { max_nodes: 1000, ..no_limits() });
    let decided: Vec<usize> = snapshot(&tree)
        .iter()
        .enumerate()
        .filter(|(_, n)| n.3 != GameState::Ongoing)
        .map(|(i, _)| i)
        .collect();
    assert!(decided.len() >= 2);
    let before = snapshot(&tree);
    for _ in 0..20 {
        assert_eq!(iterate(&mut tree, &value_of, &priors, &puct), Playout::Done(1));
    }
    let after = snapshot(&tree);
    for &i in &decided {
        assert_eq!(after[i].3, before[i].3);
        assert_eq!(after[i].4, before[i].4);
    }
    assert_eq!(after[0].0, before[0].0 + 20);
    assert_eq!(after[1..], before[1..]);
}

#[test]
fn iteration_in_a_full_tree_changes_nothing() {
    let mut tree = Tree::new(17, 8);
    run(&mut tree, &Limits { max_nodes: 1, ..no_limits() });
    loop {
        if iterate(&mut tree, &value_of, &priors, &puct) == Playout::TreeFull {
            break;
        }
    }
    let before = snapshot(&tree);
    assert_eq!(iterate(&mut tree, &value_of, &priors, &puct), Playout::TreeFull);
    assert_eq!(snapshot(&tree), before);
}

#[test]
fn iteration_that_is_given_up_changes_nothing() {
    let mut tree = Tree::new(1000, 8);
    run(&mut tree, &Limits { max_nodes: 30, ..no_limits() });
    let before = snapshot(&tree);
    let r = iterate(&mut tree, &value_of, &priors, &|_: &Tree, _: NodePtr| 200usize);
    assert_eq!(r, Playout::Stuck);
    assert_eq!(snapshot(&tree), before);
    // priors that do not fit the moves: the node at the end of the descent gets no children
    let r = iterate(&mut tree, &value_of, &|_: &Board, _: &Vec<Move>, _: bool| (vec![1u16], 0u32), &puct);
    if r == Playout::Stuck {
        assert_eq!(snapshot(&tree), before);
    }
}

#[test]
fn preparing_an_empty_tree_makes_the_root_with_a_child_for_each_move() {
    let mut tree = Tree::new(1000, 8);
    let eval = |_: &Board| 1000i64;
    let policy = |_: &Board, moves: &Vec<Move>, at_root: bool| {
        assert!(at_root);
        ((0..moves.len() as u16).map(|j| 100 + j).collect::<Vec<u16>>(), 77u32)
    };
    assert_eq!(prepare_root(&mut tree, &eval, &policy), None);
    let legal = Board::default().map_legal_moves();
    assert_eq!(tree.len(), 1 + legal.len());
    let root = tree.node(tree.root_node());
    assert_eq!(root.visits(), 1);
    assert_eq!(root.q(), QUANT - 1000);
    assert_eq!(root.state(), GameState::Ongoing);
    assert_eq!(root.num_actions(), legal.len());
    assert_eq!(root.gini_impurity(), 77);
    assert_eq!(root.actions(), NodePtr::new(tree.upper_active(), 1));
    for (j, mov) in legal.iter().enumerate() {
        let child = tree.node(root.actions() + j);
        assert_eq!(child.parent_move(), *mov);
        assert_eq!(child.policy(), 100 + j as u16);
        assert_eq!(child.visits(), 0);
        assert_eq!(child.num_actions(), 0);
        assert_eq!(child.state(), GameState::Ongoing);
    }
    assert_eq!(tree.phase(), monty::tree::Phase::Idle);
}

#[test]
fn preparing_a_tree_that_has_a_root_changes_priors_and_nothing_else() {
    let mut tree = Tree::new(50_000, 8);
    run(&mut tree, &Limits { max_nodes: 300, ..no_limits() });
    let before = snapshot(&tree);
    let policy = |_: &Board, moves: &Vec<Move>, at_root: bool| {
        (vec![if at_root { 7u16 } else { 9u16 }; moves.len()], 0u32)
    };
    assert_eq!(prepare_root(&mut tree, &value_of, &policy), None);
    let after = snapshot(&tree);
    assert_eq!(after.len(), before.len());
    for i in 0..before.len() {
        assert_eq!(
            (after[i].0, after[i].1, after[i].2, after[i].3, after[i].4, after[i].5, after[i].7),
            (before[i].0, before[i].1, before[i].2, before[i].3, before[i].4, before[i].5, before[i].7)
        );
    }
    let root = tree.node(tree.root_node());
    let mut relabelled = vec![false; after.len()];
    for j in 0..root.num_actions() {
        let c = root.actions().idx() + j;
        assert_eq!(after[c].6, 7);
        relabelled[c] = true;
        let child = tree.node(root.actions() + j);
        for g in 0..child.num_actions() {
            let gc = child.actions().idx() + g;
            assert_eq!(after[gc].6, 9);
            relabelled[gc] = true;
        }
    }
    assert!(relabelled.iter().filter(|r| **r).count() > root.num_actions());
    for i in 0..before.len() {
        if !relabelled[i] {
            assert_eq!(after[i].6, before[i].6);
        }
    }
}

#[test]
fn preparing_fails_where_no_search_can_be_run() {
    // no room for the root and its children
    let mut tree = Tree::new(5, 8);
    assert_eq!(prepare_root(&mut tree, &value_of, &priors), Some(Stop::TreeTooSmall));
    // not a prior for each move
    let mut tree = Tree::new(1000, 8);
    let short = |_: &Board, _: &Vec<Move>, _: bool| (vec![1u16, 2], 0u32);
    assert_eq!(prepare_root(&mut tree, &value_of, &short), Some(Stop::Stuck));
    assert!(tree.is_empty());
    // a position without moves
    let over = Board::from_parts(1, 2, 0, false, 100, 1);
    let mut tree = Tree::new(1000, 8);
    tree.try_use_subtree(&over, &None);
    assert_eq!(prepare_root(&mut tree, &value_of, &priors), Some(Stop::Stuck));
    assert!(tree.is_empty());
}

#[test]
fn search_told_to_stop_at_once_counts_nothing_and_leaves_the_root_made() {
    let mut tree = Tree::new(1000, 8);
    let outcome = search_with(
        &mut tree,
        &no_limits(),
        &value_of,
        &priors,
        &puct,
        &|| 0u128,
        &|| true,
        &|_: &Tree, _: i32, _: u128| false,
        &silent,
    );
    assert_eq!(outcome.stop, Stop::Aborted);
    assert_eq!(outcome.stats.total_iters, 0);
    assert_eq!(outcome.best_move, None);
    assert_eq!(outcome.mean, 0);
    assert_eq!(tree.len(), 17);
    assert_eq!(tree.node(tree.root_node()).visits(), 1);
}

#[test]
fn stop_of_a_search_fits_the_tree_it_leaves() {
    // decided root
    let pos = Board::try_from_fen("7/7/7/7/x6/7/1o5 x 0 1").unwrap();
    let mut tree = Tree::new(50_000, 8);
    tree.try_use_subtree(&pos, &None);
    let outcome = run(&mut tree, &Limits { max_nodes: 1000, ..no_limits() });
    assert_eq!(outcome.stop, Stop::RootDecided);
    assert!(tree.node(tree.root_node()).is_terminal());
    assert!(outcome.stats.total_iters >= 1);
    // a limit
    let mut tree = Tree::new(50_000, 8);
    let outcome = run(&mut tree, &Limits { max_nodes: 3, ..no_limits() });
    assert_eq!(outcome.stop, Stop::Limit(Verdict::NodeLimit));
    assert_eq!(tree.node(tree.root_node()).visits(), 4);
    assert!(!tree.is_empty());
}

#[test]
fn searching_again_keeps_the_children_of_the_root() {
    let mut tree = Tree::new(40, 8);
    run(&mut tree, &Limits { max_nodes: 1, ..no_limits() });
    let moves_of = |tree: &Tree| -> Vec<Move> {
        let root = tree.node(tree.root_node());
        (0..root.num_actions()).map(|j| tree.node(root.actions() + j).parent_move()).collect()
    };
    let before = moves_of(&tree);
    assert_eq!(before, Board::default().map_legal_moves());
    // the tree is small enough to be flipped on the way
    let outcome = run(&mut tree, &Limits { max_nodes: 60, ..no_limits() });
    assert!(outcome.stats.total_iters >= 1);
    assert_eq!(moves_of(&tree), before);
}

#[test]
fn search_where_every_move_draws_keeps_every_child_a_draw() {
    let pos = Board::try_from_fen("6o/7/7/7/7/--5/x-5 x 99 1").unwrap();
    let mut tree = Tree::new(1000, 8);
    tree.try_use_subtree(&pos, &None);
    // told to stop after a few iterations, before the root is found drawn
    let calls = Cell::new(0);
    let abort = || {
        calls.set(calls.get() + 1);
        calls.get() > 2
    };
    let outcome = search_with(
        &mut tree,
        &no_limits(),
        &|_: &Board| 4000i64,
        &priors,
        &puct,
        &|| 0u128,
        &abort,
        &|_: &Tree, _: i32, _: u128| false,
        &silent,
    );
    assert!(outcome.best_move.is_some());
    assert_eq!(outcome.mean, QUANT / 2);
    let root = tree.node(tree.root_node());
    assert!(matches!(root.state(), GameState::Ongoing | GameState::Draw));
    for j in 0..root.num_actions() {
        let child = tree.node(root.actions() + j);
        assert_eq!(child.num_actions(), 0);
        if child.visits() > 0 {
            assert_eq!(child.state(), GameState::Draw);
            assert_eq!(child.q(), QUANT / 2);
        }
    }
}

#[test]
fn what_follows_an_iteration() {
    assert_eq!(on_playout(Playout::Done(3), false), Step::Count(3));
    assert_eq!(on_playout(Playout::Done(1), true), Step::Count(1));
    assert_eq!(on_playout(Playout::TreeFull, false), Step::Flip);
    assert_eq!(on_playout(Playout::TreeFull, true), Step::End(Stop::TreeTooSmall));
    assert_eq!(on_playout(Playout::Stuck, false), Step::End(Stop::Stuck));
    assert_eq!(on_playout(Playout::Stuck, true), Step::End(Stop::Stuck));
}

#[test]
fn stability_is_looked_at_every_4096_iterations_with_a_soft_limit() {
    let soft = Limits { opt_time: Some(10), ..no_limits() };
    let stats = |n: usize| SearchStats { main_iters: n, total_iters: n, ..SearchStats::default() };
    assert!(stability_due(&stats(0), &soft));
    assert!(stability_due(&stats(4096), &soft));
    assert!(stability_due(&stats(3 * 4096), &soft));
    assert!(!stability_due(&stats(4095), &soft));
    assert!(!stability_due(&stats(128), &soft));
    assert!(!stability_due(&stats(4096), &no_limits()));
}

#[test]
fn lines_that_reach_a_running_search() {
    assert_eq!(classify_interrupt(&words("stop")), Command::Stop);
    assert_eq!(classify_interrupt(&words("  stop \n")), Command::Stop);
    assert_eq!(classify_interrupt(&words("isready")), Command::IsReady);
    assert_eq!(classify_interrupt(&words("quit")), Command::Quit);
    // a line that says more is kept for later
    assert_eq!(classify_interrupt(&words("stop x")), Command::Unknown);
    assert_eq!(classify_interrupt(&words("quit now")), Command::Unknown);
    assert_eq!(classify_interrupt(&words("go nodes 1")), Command::Unknown);
    assert_eq!(classify_interrupt(&words("uai")), Command::Unknown);
    assert_eq!(classify_interrupt(&words("")), Command::Unknown);
}

#[test]
fn search_counts_its_iterations_on_the_root() {
    // from an empty tree: the first visit, then one for each iteration
    for n in [1usize, 7, 300] {
        let mut tree = Tree::new(50_000, 8);
        let outcome = run(&mut tree, &Limits { max_nodes: n, ..no_limits() });
        assert_eq!(outcome.stats.total_iters, n);
        assert_eq!(tree.node(tree.root_node()).visits(), 1 + n as i32);
        // and from the tree that is there
        let again = run(&mut tree, &Limits { max_nodes: 2 * n, ..no_limits() });
        assert_eq!(again.stats.total_iters, 2 * n);
        assert_eq!(tree.node(tree.root_node()).visits(), 1 + 3 * n as i32);
    }
    // across flips too
    let mut tree = Tree::new(60, 8);
    let outcome = run(&mut tree, &Limits { max_nodes: 400, ..no_limits() });
    assert_eq!(
        tree.node(tree.root_node()).visits() as usize,
        1 + outcome.stats.total_iters
    );
}

#[test]
fn search_that_is_stuck_says_so_only_for_a_reason() {
    // a choice that names no child
    let mut tree = Tree::new(1000, 8);
    let outcome = search_with(
        &mut tree,
        &Limits { max_nodes: 10, ..no_limits() },
        &value_of,
        &priors,
        &|_: &Tree, _: NodePtr| 200usize,
        &|| 0u128,
        &|| false,
        &|_: &Tree, _: i32, _: u128| false,
        &silent,
    );
    assert_eq!(outcome.stop, Stop::Stuck);
    assert_eq!(outcome.stats.total_iters, 0);
    assert_eq!(tree.node(tree.root_node()).visits(), 1);
    // priors that do not fit the moves of a node below the root
    let mut tree = Tree::new(1000, 8);
    let at_root_only = |_: &Board, moves: &Vec<Move>, at_root: bool| {
        if at_root {
            priors(&Board::default(), moves, true)
        } else {
            (Vec::new(), 0u32)
        }
    };
    let outcome = search_with(
        &mut tree,
        &Limits { max_nodes: 100, ..no_limits() },
        &value_of,
        &at_root_only,
        &puct,
        &|| 0u128,
        &|| false,
        &|_: &Tree, _: i32, _: u128| false,
        &silent,
    );
    assert_eq!(outcome.stop, Stop::Stuck);
    assert!(outcome.stats.total_iters >= 1);
    assert_eq!(
        tree.node(tree.root_node()).visits() as usize,
        1 + outcome.stats.total_iters
    );
    // with closures that answer as they should, a search is never stuck
    let mut tree = Tree::new(50_000, 8);
    let outcome = run(&mut tree, &Limits { max_nodes: 2000, ..no_limits() });
    assert_eq!(outcome.stop, Stop::Limit(Verdict::NodeLimit));
    assert_eq!(outcome.stats.total_iters, 2000);
}

#[test]
fn tree_is_too_small_only_when_a_flipped_tree_is_full_again() {
    // 17 slots hold the root and its children and nothing more
    let mut tree = Tree::new(17, 8);
    let outcome = run(&mut tree, &Limits { max_nodes: 1000, ..no_limits() });
    assert_eq!(outcome.stop, Stop::TreeTooSmall);
    assert!(outcome.stats.total_iters < 1000);
    assert_eq!(
        tree.node(tree.root_node()).visits() as usize,
        1 + outcome.stats.total_iters
    );
}

#[test]
fn search_reports_after_the_checks_that_let_it_go_on() {
    let mut tree = Tree::new(50_000, 8);
    let calls = Cell::new(0usize);
    let deeper = Cell::new(0usize);
    let last_depth = Cell::new(0usize);
    let tell = |_: &Tree, stats: &SearchStats, new_depth: bool| {
        calls.set(calls.get() + 1);
        if new_depth {
            deeper.set(deeper.get() + 1);
            assert!(stats.avg_depth > last_depth.get());
            last_depth.set(stats.avg_depth);
        } else {
            assert_eq!(stats.avg_depth, last_depth.get());
        }
    };
    let outcome = search_with(
        &mut tree,
        &Limits { max_nodes: 3000, ..no_limits() },
        &value_of,
        &priors,
        &puct,
        &|| 0u128,
        &|| false,
        &|_: &Tree, _: i32, _: u128| false,
        &tell,
    );
    assert_eq!(outcome.stats.total_iters, 3000);
    // every check but the last lets the search go on
    assert_eq!(calls.get(), 2999);
    assert!(deeper.get() >= 1);
    assert_eq!(last_depth.get(), outcome.stats.avg_depth);
}
