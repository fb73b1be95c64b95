use monty::ataxx::{Bitboard, Board, GameState, Move};
use monty::datagen::{
    game_result, parse_args, Binpack, BinpackError, Destination, FormatError, MontyAtaxxFormat,
    Parsed, Pushed, Report, SearchData,
};
use monty::networks::{l2, Accumulator, Align64, Layer};
use monty::train::{
    augment, flip_diag, flip_hor, flip_vert, map_move_to_index, num_moves_count, numbered,
    parse_into_buffer, shuffle, transform_bb, transform_move, transform_sq, DataLoader, Rand,
    Transform, MAX_MOVES,
};
use monty::uai::{preamble, search_report, state_string, ReportScore};

const ALL: [Transform; 6] = [
    Transform::Identity,
    Transform::Horizontal,
    Transform::Vertical,
    Transform::Rotational,
    Transform::Diagonal,
    Transform::AntiDiagonal,
];

fn sq(file: u8, rank: u8) -> u8 {
    7 * rank + file
}

#[test]
fn flips_of_single_squares() {
    assert_eq!(flip_vert(1 << sq(2, 0)), 1 << sq(2, 6));
    assert_eq!(flip_hor(1 << sq(2, 0)), 1 << sq(4, 0));
    assert_eq!(flip_diag(1 << sq(2, 0)), 1 << sq(0, 2));
    assert_eq!(flip_diag(1 << sq(6, 1)), 1 << sq(1, 6));
    assert_eq!(flip_vert(0), 0);
    assert_eq!(flip_hor(Bitboard::ALL), Bitboard::ALL);
    assert_eq!(flip_diag(Bitboard::ALL), Bitboard::ALL);
}

#[test]
fn flips_drop_what_is_off_the_board() {
    assert_eq!(flip_vert(1 << 50), 0);
    assert_eq!(flip_hor(u64::MAX), Bitboard::ALL);
    assert_eq!(flip_diag(1 << 63), 0);
    assert_eq!(transform_bb(1 << 50, Transform::Identity), 1 << 50);
    assert_eq!(transform_bb(1 << 50, Transform::Rotational), 0);
}

#[test]
fn transformed_squares_and_boards_agree() {
    for trans in ALL {
        for s in 0..49u8 {
            let image = transform_bb(1 << s, trans);
            assert_eq!(image, 1 << transform_sq(s, trans));
            assert_eq!(transform_sq(transform_sq(s, trans), trans), s);
        }
    }
    assert_eq!(transform_sq(sq(1, 2), Transform::Identity), sq(1, 2));
    assert_eq!(transform_sq(sq(1, 2), Transform::Horizontal), sq(5, 2));
    assert_eq!(transform_sq(sq(1, 2), Transform::Vertical), sq(1, 4));
    assert_eq!(transform_sq(sq(1, 2), Transform::Rotational), sq(5, 4));
    assert_eq!(transform_sq(sq(1, 2), Transform::Diagonal), sq(2, 1));
    assert_eq!(transform_sq(sq(1, 2), Transform::AntiDiagonal), sq(4, 5));
}

#[test]
fn transforms_keep_the_neighbours_of_a_square() {
    for trans in ALL {
        for s in 0..49u8 {
            let t = transform_sq(s, trans);
            assert_eq!(
                transform_bb(Bitboard::singles(s as usize), trans),
                Bitboard::singles(t as usize)
            );
        }
    }
}

#[test]
fn transformed_moves() {
    assert_eq!(transform_move(Move::new_pass(), Transform::Diagonal), Move::new_pass());
    assert_eq!(
        transform_move(Move::new_single(sq(1, 2)), Transform::Horizontal),
        Move::new_single(sq(5, 2))
    );
    assert_eq!(
        transform_move(Move::new_double(sq(0, 0), sq(2, 1)), Transform::Diagonal),
        Move::new_double(sq(0, 0), sq(1, 2))
    );
    for n in 0..6 {
        assert_eq!(numbered(n), ALL[n as usize]);
    }
    assert_eq!(numbered(9), Transform::AntiDiagonal);
}

#[test]
fn transformed_positions_have_the_transformed_moves() {
    let mut pos = Board::default();
    for step in 0..6 {
        let moves = pos.map_legal_moves();
        pos.make(moves[(3 * step) % moves.len()]);
    }
    let moves = pos.map_legal_moves();
    let dist: Vec<(Move, u32)> = moves.iter().map(|m| (*m, 70_000)).collect();
    for trans in ALL {
        let data = augment(&pos, &dist, trans);
        assert_eq!(data.num, moves.len());
        let mut image = data.pos.map_legal_moves();
        let mut expected: Vec<Move> = data.moves[..data.num].iter().map(|(m, _)| *m).collect();
        image.sort_by_key(|m| m.to_u16());
        expected.sort_by_key(|m| m.to_u16());
        assert_eq!(image, expected);
        assert!(data.moves[..data.num].iter().all(|(_, v)| *v == (70_000u32 % 65_536) as u16));
        assert!(data.moves[data.num..].iter().all(|(m, v)| m.is_null() && *v == 0));
        assert_eq!(data.pos.halfm(), pos.halfm());
        assert_eq!(data.pos.stm(), pos.stm());
    }
    assert_eq!(augment(&pos, &dist, Transform::Identity).pos, pos);
}

#[test]
fn generator_is_the_xorshift() {
    let mut rng = Rand::with_seed(0x1_0000_0005);
    assert_eq!(rng.0, 5);
    let mut s = 5u64;
    for _ in 0..10 {
        s ^= s << 13;
        s ^= s >> 7;
        s ^= s << 17;
        assert_eq!(rng.rng(), s);
    }
}

#[test]
fn shuffle_is_a_rearrangement_by_the_generator() {
    let mut data: Vec<u32> = (0..50).collect();
    let mut rng = Rand(12345);
    shuffle(&mut data, &mut rng);
    let mut expected: Vec<u32> = (0..50).collect();
    let mut reference = Rand(12345);
    for i in (0..50).rev() {
        let idx = reference.rng() as usize % (i + 1);
        expected.swap(idx, i);
    }
    assert_eq!(data, expected);
    assert_eq!(rng.0, reference.0);
    let mut sorted = data.clone();
    sorted.sort();
    assert_eq!(sorted, (0..50).collect::<Vec<u32>>());
    let mut empty: Vec<u32> = vec![];
    shuffle(&mut empty, &mut rng);
    assert_eq!(rng.0, reference.0);
}

#[test]
fn loader_holds_positions_by_the_megabyte() {
    let loader = DataLoader::new("data.bin", 4, 3);
    assert_eq!(loader.file_path, "data.bin");
    assert_eq!(loader.buffer_size, 4 * 1024);
    assert_eq!(loader.threads, 3);
}

#[test]
fn moves_are_numbered_singles_first() {
    assert_eq!(MAX_MOVES, 96);
    assert_eq!(map_move_to_index(Move::new_single(0)), 0);
    assert_eq!(map_move_to_index(Move::new_single(48)), 48);
    // the jumps from a1: its targets and a1 itself are counted in order
    let doubles = Bitboard::doubles(0);
    let targets = Bitboard::squares(doubles);
    for (k, to) in targets.iter().enumerate() {
        assert_eq!(map_move_to_index(Move::new_double(0, *to)), 49 + k);
    }
    let total: usize = (0..49).map(|s| Bitboard::doubles(s).count_ones() as usize).sum();
    assert_eq!(num_moves_count(), 49 + total);
    let last = *Bitboard::squares(Bitboard::doubles(48)).last().unwrap();
    assert_eq!(map_move_to_index(Move::new_double(48, last)), 49 + total - 1);
}

#[test]
fn accumulator_adds_element_by_element() {
    let mut a = Accumulator([1i16, -2, 300, 0]);
    a.add(&Accumulator([10, 20, -300, i16::MAX]));
    assert_eq!(a.0, [11, 18, 0, i16::MAX]);
    a.madd(-3, &Accumulator([1, 2, 3, 0]));
    assert_eq!(a.0, [8, 12, -9, i16::MAX]);
}

#[test]
fn add_multi_works_on_whole_blocks_only() {
    let mut weights = vec![Accumulator([0i16; 200]); 3];
    for (w, row) in weights.iter_mut().enumerate() {
        for (i, x) in row.0.iter_mut().enumerate() {
            *x = (w as i16 + 1) * (i as i16 % 7);
        }
    }
    let mut acc = Accumulator([5i16; 200]);
    acc.add_multi(&[2, 0, 2], &weights);
    for i in 0..200 {
        let expected = if i < 128 { 5 + (3 + 1 + 3) * (i as i16 % 7) } else { 5 };
        assert_eq!(acc.0[i], expected, "{i}");
    }
    let mut aligned = Align64([5i16; 256]);
    let rows = vec![Align64([2i16; 256]); 2];
    aligned.add_multi(&[1, 1, 0], &rows);
    assert_eq!(aligned.0, [11i16; 256]);
    let mut small = Accumulator([1i16; 100]);
    small.add_multi(&[0], &[Accumulator([9i16; 100])]);
    assert_eq!(small.0, [1i16; 100]);
}

#[test]
fn layer_sums_the_rows_of_its_inputs() {
    let mut layer = Layer { weights: [Accumulator([0i16; 4]); 5], biases: Accumulator([100, 200, 300, 400]) };
    for (i, row) in layer.weights.iter_mut().enumerate() {
        row.0 = [i as i16, -(i as i16), 10 * i as i16, 1];
    }
    let out = layer.forward_from_slice(&[1, 4, 4]);
    assert_eq!(out.0, [109, 191, 390, 403]);
    assert_eq!(layer.forward_from_slice(&[]).0, [100, 200, 300, 400]);
}

#[test]
fn visits_are_put_in_the_order_of_the_moves() {
    let a = Move::new_double(3, 1);
    let b = Move::new_single(1);
    let c = Move::new_double(0, 2);
    let data = SearchData::new(a, 7, Some(vec![(c, 1), (a, 2), (b, 3), (a, 4)]));
    // codes: a = 3 + 256, b = 63 + 256, c = 0 + 512
    assert_eq!(data.visit_distribution, Some(vec![(a, 2), (a, 4), (b, 3), (c, 1)]));
    assert_eq!(SearchData::new(a, 7, None).visit_distribution, None);
    assert_eq!(SearchData::new(a, 7, Some(vec![])).visit_distribution, Some(vec![]));
}

fn played_game(len: usize, visits: u32) -> MontyAtaxxFormat {
    let mut game = MontyAtaxxFormat::default();
    let mut pos = Board::default();
    for step in 0..len {
        let moves = pos.map_legal_moves();
        if moves.is_empty() {
            break;
        }
        let best = moves[(5 * step + 1) % moves.len()];
        let dist: Vec<(Move, u32)> =
            moves.iter().enumerate().map(|(i, m)| (*m, visits * (i as u32 % 4))).collect();
        let dist = if step % 5 == 4 { None } else { Some(dist) };
        game.push(SearchData::new(best, (1000 * step) as u16, dist));
        pos.make(best);
    }
    game.result = 2;
    game
}

#[test]
fn game_bytes_are_as_specified() {
    let mut game = MontyAtaxxFormat::default();
    let a = Move::new_single(5);
    game.push(SearchData::new(a, 0x1234, Some(vec![(a, 300), (Move::new_single(6), 150)])));
    game.push(SearchData::new(Move::new_double(0, 14), 0xffff, None));
    game.result = 1;
    let mut buffer = Vec::new();
    assert_eq!(game.serialise_into_buffer(&mut buffer), Ok(()));
    assert_eq!(
        buffer,
        vec![
            1, // result
            63, 5, 0x34, 0x12, 2, 255, 128, // visits scaled by 256 / 300, held at 255
            0, 14, 0xff, 0xff, 0, // no visits
            0, 0
        ]
    );
    assert_eq!(game.serialise_into_buffer(&mut buffer), Err(FormatError::BufferNotEmpty));
    assert_eq!(buffer.len(), 15);
}

#[test]
fn few_visits_are_written_as_they_are() {
    let mut game = MontyAtaxxFormat::default();
    let a = Move::new_single(5);
    game.push(SearchData::new(a, 0, Some(vec![(a, 256), (Move::new_single(6), 255)])));
    let mut buffer = Vec::new();
    game.serialise_into_buffer(&mut buffer).unwrap();
    assert_eq!(buffer, vec![0, 63, 5, 0, 0, 2, 0, 255, 0, 0]);
}

#[test]
fn game_round_trip() {
    let game = played_game(30, 60);
    let mut buffer = Vec::new();
    game.serialise_into_buffer(&mut buffer).unwrap();
    buffer.extend_from_slice(&[9, 9, 9]);
    let (read, used) = MontyAtaxxFormat::deserialise_from(&buffer).unwrap();
    assert_eq!(used, buffer.len() - 3);
    assert_eq!(read.result, 2);
    assert_eq!(read.moves.len(), game.moves.len());
    for (a, b) in read.moves.iter().zip(game.moves.iter()) {
        assert_eq!(a.best_move, b.best_move);
        assert_eq!(a.score, b.score);
        assert_eq!(a.visit_distribution, b.visit_distribution);
    }
    let mut fast = vec![1, 2, 3];
    assert_eq!(MontyAtaxxFormat::deserialise_fast_into_buffer(&buffer, &mut fast), Ok(used));
    assert_eq!(fast, buffer[..used]);
}

#[test]
fn truncated_games_are_refused() {
    let game = played_game(12, 60);
    let mut buffer = Vec::new();
    game.serialise_into_buffer(&mut buffer).unwrap();
    for cut in [0, 1, 2, 5, buffer.len() / 2, buffer.len() - 1] {
        assert_eq!(
            MontyAtaxxFormat::deserialise_from(&buffer[..cut]).err(),
            Some(FormatError::UnexpectedEof),
            "{cut}"
        );
        let mut fast = Vec::new();
        assert_eq!(
            MontyAtaxxFormat::deserialise_fast_into_buffer(&buffer[..cut], &mut fast),
            Err(FormatError::UnexpectedEof),
            "{cut}"
        );
    }
    // a move that cannot be played: a jump to a square off the board
    let bad = vec![0, 1, 60, 0, 0, 0, 0, 0];
    assert_eq!(MontyAtaxxFormat::deserialise_from(&bad).err(), Some(FormatError::InvalidData));
}

#[test]
fn training_positions_are_taken_from_the_eleventh_on() {
    let game = played_game(30, 60);
    let mut buffer = Vec::new();
    let mut rng = Rand(77);
    let followed = parse_into_buffer(&game, &mut buffer, &mut rng);
    assert_eq!(followed, game.moves.len());
    let expected = game
        .moves
        .iter()
        .enumerate()
        .filter(|(i, d)| {
            *i >= 10 && d.visit_distribution.as_ref().is_some_and(|v| v.len() > 1 && v.len() <= 96)
        })
        .count();
    assert!(expected > 5);
    assert_eq!(buffer.len(), expected);
    let mut reference = Rand(77);
    for _ in 0..expected {
        reference.rng();
    }
    assert_eq!(rng.0, reference.0);
    for data in &buffer {
        assert!(data.num > 1 && data.num <= 96);
        assert_eq!(data.pos.map_legal_moves().len(), data.num);
    }
}

#[test]
fn results_of_finished_games() {
    assert_eq!(game_result(GameState::Ongoing, 0), None);
    assert_eq!(game_result(GameState::Draw, 1), Some(1));
    assert_eq!(game_result(GameState::Lost(0), 1), Some(2));
    assert_eq!(game_result(GameState::Lost(0), 0), Some(0));
    assert_eq!(game_result(GameState::Won(0), 1), Some(0));
    assert_eq!(game_result(GameState::Won(0), 0), Some(2));
}

#[test]
fn tally_of_a_run() {
    let mut dest = Destination::new(3);
    let game = played_game(20, 60);
    let mut buffer = vec![1, 2, 3];
    assert_eq!(dest.push(&game, true, &mut buffer), Pushed::Dropped);
    assert_eq!(buffer, vec![1, 2, 3]);
    assert_eq!(dest.push(&game, false, &mut buffer), Pushed::Written { stop: false, report: false });
    let len = buffer.len();
    assert_eq!((dest.games, dest.positions, dest.bytes), (1, 20, len));
    assert_eq!(dest.results, [0, 0, 1]);
    assert_eq!(dest.push(&game, false, &mut buffer), Pushed::Written { stop: false, report: false });
    assert_eq!(dest.push(&game, false, &mut buffer), Pushed::Written { stop: true, report: false });
    assert_eq!(dest.results, [0, 0, 3]);
    let mut bad = played_game(3, 1);
    bad.result = 3;
    assert_eq!(dest.push(&bad, false, &mut buffer), Pushed::Refused);
    assert_eq!(dest.games, 3);
    assert_eq!(
        dest.report(7200),
        Some(Report {
            bytes_per_position: 3 * len / 60,
            games_per_hour: 1,
            positions_per_hour: 30,
            moves_per_game: 20,
        })
    );
    assert_eq!(dest.report(0), None);
    assert_eq!(Destination::new(5).report(10), None);
}

#[test]
fn tally_reports_every_256_games() {
    let mut dest = Destination::new(1000);
    let game = played_game(2, 1);
    let mut buffer = Vec::new();
    for n in 1..=512 {
        let expected = Pushed::Written { stop: false, report: n % 256 == 0 };
        assert_eq!(dest.push(&game, false, &mut buffer), expected);
    }
}

fn args(list: &[&str]) -> Vec<String> {
    list.iter().map(|s| s.to_string()).collect()
}

#[test]
fn arguments_of_a_run() {
    match parse_args(&args(&["prog", "-t", "4", "--nodes", "5000", "-o", "out.bin", "-g", "100"])) {
        Parsed::Run(opts, unknown) => {
            assert_eq!((opts.threads, opts.nodes, opts.games), (4, 5000, 100));
            assert_eq!(opts.out_path, "out.bin");
            assert_eq!(unknown, 1);
        }
        _ => panic!("no run"),
    }
    match parse_args(&args(&[])) {
        Parsed::Run(opts, unknown) => {
            assert_eq!((opts.threads, opts.nodes, opts.games, unknown), (0, 0, 0, 0));
            assert_eq!(opts.out_path, "");
        }
        _ => panic!("no run"),
    }
    assert!(matches!(parse_args(&args(&["prog", "-t", "4", "bench"])), Parsed::Bench));
    assert!(matches!(parse_args(&args(&["prog", "-t", "four"])), Parsed::Malformed(2)));
    assert!(matches!(parse_args(&args(&["-g", "-1"])), Parsed::Malformed(1)));
    match parse_args(&args(&["-t", "-n", "7", "8"])) {
        Parsed::Run(opts, unknown) => {
            assert_eq!((opts.threads, opts.nodes, unknown), (0, 7, 1));
        }
        _ => panic!("no run"),
    }
}

#[test]
fn binpack_bytes_and_back() {
    let mut pack: Binpack<6> = Binpack::new([1, 2, 3, 4, 5, 6]);
    assert_eq!(pack.result(), 3);
    pack.set_result(2);
    pack.push(0x0102, -2);
    pack.push(0xffff, 0x7fff);
    pack.push(7, i16::MIN);
    let mut bytes = vec![9];
    pack.serialise_into(&mut bytes);
    assert_eq!(
        bytes,
        vec![9, 1, 2, 3, 4, 5, 6, 2, 2, 1, 0xfe, 0xff, 0xff, 0xff, 0xff, 0x7f, 7, 0, 0, 0x80, 0, 0, 0, 0]
    );
    bytes.push(42);
    let (read, used) = Binpack::<6>::deserialise_from(&bytes[1..], vec![(5, 5)]).unwrap();
    assert_eq!(used, bytes.len() - 2);
    assert_eq!(read.startpos(), [1, 2, 3, 4, 5, 6]);
    assert_eq!(read.result(), 2);
    assert_eq!(read.len(), 3);
    assert_eq!(read.get(0), (0x0102, -2));
    assert_eq!(read.get(1), (0xffff, 0x7fff));
    assert_eq!(read.get(2), (7, i16::MIN));
}

#[test]
fn binpack_that_ends_early_is_refused() {
    assert_eq!(Binpack::<6>::deserialise_from(&[], vec![]).err(), Some(BinpackError::Eof));
    for len in 1..11 {
        let bytes = vec![1u8; len];
        assert_eq!(
            Binpack::<6>::deserialise_from(&bytes, vec![]).err(),
            Some(BinpackError::UnexpectedEof)
        );
    }
    // a move whose code is zero ends the record whatever its score
    let bytes = vec![1, 1, 1, 1, 1, 1, 0, 0, 0, 9, 9];
    let (read, used) = Binpack::<6>::deserialise_from(&bytes, vec![]).unwrap();
    assert_eq!((read.len(), used), (0, 11));
}

#[test]
fn report_lines() {
    let pv = vec![Move::new_single(5), Move::new_double(0, 14)];
    assert_eq!(
        search_report(3, 7, ReportScore::Cp(-25), 1500, 3000, &pv),
        "info depth 3 seldepth 7 score cp -25 time 1500 nodes 3000 nps 2000 pv f1 a1a3"
    );
    assert_eq!(
        search_report(1, 1, ReportScore::Mate(2), 0, 10, &vec![]),
        "info depth 1 seldepth 1 score mate 2 time 0 nodes 10 nps 10000 pv"
    );
    assert_eq!(
        search_report(1, 1, ReportScore::Mated(1), 3, 10, &vec![Move::new_pass()]),
        "info depth 1 seldepth 1 score mate -1 time 3 nodes 10 nps 3333 pv 0000"
    );
    assert_eq!(
        search_report(0, 0, ReportScore::Cp(i64::MIN), u128::MAX, 0, &vec![]),
        format!(
            "info depth 0 seldepth 0 score cp {} time {} nodes 0 nps 0 pv",
            i64::MIN,
            u128::MAX
        )
    );
}

#[test]
fn states_as_text() {
    assert_eq!(state_string(GameState::Ongoing), "O");
    assert_eq!(state_string(GameState::Draw), "D");
    assert_eq!(state_string(GameState::Lost(12)), "L12");
    assert_eq!(state_string(GameState::Won(0)), "W0");
}

#[test]
fn preamble_offers_the_options() {
    let lines = preamble();
    assert_eq!(lines[0], "id name montyxx");
    assert!(lines.contains(&"option name Hash type spin default 64 min 1 max 8192".to_string()));
    assert!(lines.contains(&"option name Threads type spin default 1 min 1 max 512".to_string()));
    assert!(lines.contains(&"option name MoveOverhead type spin default 40 min 0 max 5000".to_string()));
    assert!(lines.contains(&"option name report_moves type button".to_string()));
    assert!(lines.contains(&"option name cpuct type spin default 422".to_string()));
    assert!(lines.contains(&"option name tm_mtg type spin default 28".to_string()));
    assert_eq!(lines.last().unwrap(), "uaiok");
    assert_eq!(lines.len(), 8 + 17);
}

#[test]
fn dense_layer_sums_inputs_times_weights() {
    const OUT: usize = 3;
    let l1: Vec<u8> = (0..16).map(|i| (i * 17 % 256) as u8).collect();
    let w: Vec<i8> = (0..16 * OUT).map(|i| ((i * 37 % 256) as u8) as i8).collect();
    let out: [i32; OUT] = l2(&w, &l1);
    // the sums as they are made four inputs at a time, two groups in turn
    let mut expected = [0i32; OUT];
    for i in (0..l1.len() / 4).step_by(2) {
        for j in 0..OUT {
            for k in 0..4 {
                expected[j] += i32::from(l1[4 * i + k]) * i32::from(w[4 * (OUT * i + j) + k]);
                expected[j] +=
                    i32::from(l1[4 * (i + 1) + k]) * i32::from(w[4 * (OUT * (i + 1) + j) + k]);
            }
        }
    }
    assert_eq!(out, expected);
    let none: [i32; 2] = l2(&[], &[]);
    assert_eq!(none, [0, 0]);
    let extreme: [i32; 1] = l2(&[-128i8; 8], &[255u8; 8]);
    assert_eq!(extreme, [-128 * 255 * 8]);
}

#[test]
fn diagram_of_a_position() {
    let pos = Board::try_from_fen("x5o/7/2-1-2/7/7/7/o5x x 0 1").unwrap();
    assert_eq!(
        pos.diagram(),
        " x . . . . . o\n . . . . . . .\n . . - . - . .\n . . . . . . .\n . . . . . . .\n . . . . . . .\n o . . . . . x\n"
    );
}
