use monty::ataxx::{rand, Bitboard, Board, GameState, Move, Side};

fn reference_zobrist(side: usize, sq: usize) -> u64 {
    let mut seed: u64 = 180_620_142;
    for _ in 0..(53 + 50 * side + sq) {
        seed ^= seed << 13;
        seed ^= seed >> 7;
        seed ^= seed << 17;
    }
    seed
}

#[test]
fn startpos_has_sixteen_moves() {
    let board = Board::default();
    let moves = board.map_legal_moves();
    assert_eq!(moves.len(), 16);
    assert_eq!(board.movegen_bulk(false), 16);
    assert_eq!(board.movegen_bulk(true), 17);
    assert_eq!(board.game_state(), GameState::Ongoing);
    assert!(!board.game_over());
    assert_eq!(board.stm(), Side::RED);
    assert_eq!(board.halfm(), 0);
    assert_eq!(board.fullm(), 1);
}

#[test]
fn startpos_moves_come_singles_first_in_square_order() {
    let board = Board::default();
    let moves = board.map_legal_moves();
    let names: Vec<String> = moves.iter().map(|m| m.uai()).collect();
    assert_eq!(
        names,
        vec![
            "f1", "f2", "g2", "a6", "b6", "b7", "g1e1", "g1e2", "g1e3", "g1f3", "g1g3", "a7a5",
            "a7b5", "a7c5", "a7c6", "a7c7"
        ]
    );
}

#[test]
fn startpos_bitboards() {
    let board = Board::default();
    assert_eq!(board.bbs(), [(1 << 42) | (1 << 6), (1 << 48) | 1, 0]);
    assert_eq!(board.boys(), (1 << 42) | (1 << 6));
    assert_eq!(board.opps(), (1 << 48) | 1);
    assert_eq!(board.occ(), (1 << 42) | (1 << 6) | (1 << 48) | 1);
    assert_eq!(board.material(), 0);
}

#[test]
fn move_text() {
    assert_eq!(Move::new_single(0).uai(), "a1");
    assert_eq!(Move::new_double(0, 16).uai(), "a1c3");
    assert_eq!(Move::new_pass().uai(), "0000");
    assert_eq!(Move::new_double(48, 6).uai(), "g7g1");
    assert_eq!(Move::new_single(24).uai(), "d4");
}

#[test]
fn move_text_of_squares_off_the_board() {
    // file of 200 is 200 % 7 = 4, rank is 1 + 200 / 7 = 29
    assert_eq!(Move::new_single(200).uai(), "e29");
}

#[test]
fn move_kinds() {
    assert!(Move::new_single(5).is_single());
    assert!(!Move::new_double(1, 5).is_single());
    assert!(Move::new_pass().is_pass());
    assert!(Move::new_pass().is_single());
    assert!(Move::new_null().is_null());
    assert!(!Move::new_single(0).is_null());
    assert_eq!(Move::new_double(3, 9).src(), 3);
    assert_eq!(Move::new_double(3, 9).to(), 9);
    assert_eq!(Move::default(), Move::new_null());
}

#[test]
fn move_codes_have_the_target_in_the_high_byte() {
    assert_eq!(Move::new_double(3, 9).to_u16(), 3 + 256 * 9);
    assert_eq!(Move::new_pass().to_u16(), 63 + 256 * 63);
    assert_eq!(Move::from_u16(3 + 256 * 9), Move::new_double(3, 9));
    for code in [0u16, 1, 255, 256, 12345, 65535] {
        assert_eq!(Move::from_u16(code).to_u16(), code);
    }
}

#[test]
fn game_state_codes() {
    assert_eq!(GameState::Ongoing.to_u16(), 0);
    assert_eq!(GameState::Draw.to_u16(), 256);
    assert_eq!(GameState::Lost(7).to_u16(), 512 + 7);
    assert_eq!(GameState::Won(255).to_u16(), 768 + 255);
    for s in [GameState::Ongoing, GameState::Draw, GameState::Lost(0), GameState::Lost(200), GameState::Won(3)] {
        assert_eq!(GameState::from_u16(s.to_u16()), s);
    }
    assert_eq!(GameState::from_u16(5), GameState::Ongoing);
    assert_eq!(GameState::from_u16(256 + 9), GameState::Draw);
    assert_eq!(GameState::default(), GameState::Ongoing);
}

#[test]
fn singles_of_corner() {
    assert_eq!(Bitboard::singles(0), (1 << 1) | (1 << 7) | (1 << 8));
    assert_eq!(Bitboard::singles(48), (1 << 47) | (1 << 41) | (1 << 40));
}

#[test]
fn singles_do_not_wrap_around_the_edges() {
    // g1 is square 6: its neighbours are f1, f2 and g2
    assert_eq!(Bitboard::singles(6), (1 << 5) | (1 << 12) | (1 << 13));
    // a2 is square 7
    assert_eq!(Bitboard::singles(7), 1 | (1 << 1) | (1 << 8) | (1 << 14) | (1 << 15));
}

#[test]
fn singles_of_a_middle_square_are_eight() {
    let s = Bitboard::singles(24);
    assert_eq!(s.count_ones(), 8);
    assert_eq!(s & (1 << 24), 0);
}

#[test]
fn doubles_hold_the_square_itself_and_the_ring_at_distance_two() {
    let d = Bitboard::doubles(24);
    assert_eq!(d.count_ones(), 17);
    assert_ne!(d & (1 << 24), 0);
    assert_eq!(d & Bitboard::singles(24), 0);
    let corner = Bitboard::doubles(0);
    assert_eq!(corner, 1 | (1 << 2) | (1 << 9) | (1 << 16) | (1 << 15) | (1 << 14));
}

#[test]
fn expand_and_not() {
    assert_eq!(Bitboard::expand(0), 0);
    assert_eq!(Bitboard::expand(1 << 24), Bitboard::singles(24));
    assert_eq!(Bitboard::not(0), Bitboard::ALL);
    assert_eq!(Bitboard::not(Bitboard::ALL), 0);
    assert_eq!(Bitboard::not(u64::MAX), 0);
    assert_eq!(Bitboard::ALL, (1u64 << 49) - 1);
}

#[test]
fn squares_are_listed_lowest_first() {
    assert_eq!(Bitboard::squares(0), Vec::<u8>::new());
    assert_eq!(Bitboard::squares(0b1011), vec![0, 1, 3]);
    assert_eq!(Bitboard::squares(1 << 63), vec![63]);
    assert_eq!(Bitboard::squares(u64::MAX).len(), 64);
}

#[test]
fn xorshift_step() {
    let mut seed = 180_620_142u64;
    seed ^= seed << 13;
    seed ^= seed >> 7;
    seed ^= seed << 17;
    assert_eq!(rand(180_620_142), seed);
    assert_eq!(rand(0), 0);
}

#[test]
fn hash_is_the_xor_of_the_keys_of_all_stones() {
    let board = Board::default();
    // red to move: its stones on g1 (6) and a7 (42), blue on a1 (0) and g7 (48)
    let expected = reference_zobrist(0, 6)
        ^ reference_zobrist(0, 42)
        ^ reference_zobrist(1, 0)
        ^ reference_zobrist(1, 48);
    assert_eq!(board.hash(), expected);
}

#[test]
fn hash_keys_are_those_of_tables_filled_once_and_then_entry_by_entry() {
    // the generator runs once at the start, once for the first filling of each
    // table and of the pair of tables, and once for each entry
    let mut seed: u64 = rand(180_620_142);
    let mut next = || {
        seed = rand(seed);
        seed
    };
    let mut table = || {
        let mut res = [next(); 49];
        for entry in res.iter_mut() {
            *entry = next();
        }
        res
    };
    let mut zvals = [table(); 2];
    for side in zvals.iter_mut() {
        *side = table();
    }
    for side in 0..2 {
        for sq in [0usize, 1, 24, 48] {
            assert_eq!(zvals[side][sq], reference_zobrist(side, sq));
        }
    }
    let board = Board::from_parts((1 << 3) | (1 << 30), 1 << 17, 0, true, 0, 1);
    assert_eq!(board.hash(), zvals[0][17] ^ zvals[1][3] ^ zvals[1][30]);
}

#[test]
fn hash_sees_the_stones_from_the_side_to_move() {
    let mut board = Board::default();
    board.make(Move::new_pass());
    let expected = reference_zobrist(1, 6)
        ^ reference_zobrist(1, 42)
        ^ reference_zobrist(0, 0)
        ^ reference_zobrist(0, 48);
    assert_eq!(board.hash(), expected);
}

#[test]
fn single_move_adds_a_stone_and_resets_the_clock() {
    let mut board = Board::from_parts(1 << 6, 1 << 48, 0, false, 5, 3);
    board.make(Move::new_single(5));
    assert_eq!(board.bbs(), [(1 << 6) | (1 << 5), 1 << 48, 0]);
    assert_eq!(board.stm(), Side::BLU);
    assert_eq!(board.halfm(), 0);
    assert_eq!(board.fullm(), 3);
}

#[test]
fn double_move_lifts_the_stone_and_counts_the_half_move() {
    let mut board = Board::from_parts(1 << 6, 1 << 48, 0, true, 5, 3);
    board.make(Move::new_double(48, 34));
    assert_eq!(board.bbs(), [1 << 6, 1 << 34, 0]);
    assert_eq!(board.stm(), Side::RED);
    assert_eq!(board.halfm(), 6);
    assert_eq!(board.fullm(), 4);
}

#[test]
fn move_captures_the_neighbours_of_its_target() {
    // red on a1, blue on c1 and c2; red jumps a1 -> b1? not a jump: plays single b1
    let mut board = Board::from_parts(1, (1 << 2) | (1 << 9) | (1 << 30), 0, false, 0, 1);
    board.make(Move::new_single(1));
    assert_eq!(board.bbs(), [1 | (1 << 1) | (1 << 2) | (1 << 9), 1 << 30, 0]);
    assert_eq!(board.material(), 1 - 4);
}

#[test]
fn pass_only_hands_the_turn_over() {
    let mut board = Board::from_parts(3, 12, 48, false, 7, 9);
    board.make(Move::new_pass());
    assert_eq!(board.bbs(), [3, 12, 48]);
    assert_eq!(board.stm(), Side::BLU);
    assert_eq!(board.halfm(), 7);
    assert_eq!(board.fullm(), 9);
}

#[test]
fn can_make_knows_the_limits_of_make() {
    let board = Board::from_parts(1, 2, 0, true, 255, 65535);
    assert!(board.can_make(Move::new_pass()));
    assert!(!board.can_make(Move::new_single(3)));
    let board = Board::from_parts(1, 2, 0, false, 255, 65535);
    assert!(board.can_make(Move::new_single(3)));
    assert!(!board.can_make(Move::new_double(0, 3)));
    assert!(!board.can_make(Move::new_single(49)));
    assert!(!board.can_make(Move::new_double(64, 3)));
    let board = Board::default();
    assert!(board.can_make(Move::new_double(50, 3)));
    assert!(!board.can_play(Move::new_double(50, 3)));
    assert!(board.can_play(Move::new_double(6, 4)));
}

#[test]
fn game_state_by_stones() {
    // no stones of the side to move
    assert_eq!(Board::from_parts(0, 1, 0, false, 0, 1).game_state(), GameState::Lost(0));
    assert_eq!(Board::from_parts(0, 1, 0, true, 0, 1).game_state(), GameState::Won(0));
    // a hundred quiet half-moves
    assert_eq!(Board::from_parts(1, 2, 0, false, 100, 1).game_state(), GameState::Draw);
    assert_eq!(Board::from_parts(1, 2, 0, false, 99, 1).game_state(), GameState::Ongoing);
    assert!(Board::from_parts(1, 2, 0, false, 100, 1).game_over());
    assert!(Board::from_parts(1, 2, 0, false, 100, 1).is_hfm_draw(100));
    assert!(!Board::from_parts(1, 2, 0, false, 99, 1).is_hfm_draw(100));
}

#[test]
fn game_state_on_a_full_board() {
    let all = Bitboard::ALL;
    let red = (1u64 << 25) - 1;
    let blu = all & !red;
    assert_eq!(Board::from_parts(red, blu, 0, false, 0, 1).game_state(), GameState::Won(0));
    assert_eq!(Board::from_parts(red, blu, 0, true, 0, 1).game_state(), GameState::Lost(0));
    assert!(Board::from_parts(red, blu, 0, true, 0, 1).map_legal_moves().is_empty());
}

#[test]
fn a_side_that_cannot_move_passes() {
    // red on a1 hemmed in by gaps, blue far away
    let gaps = Bitboard::singles(0) | (Bitboard::doubles(0) & !1);
    let board = Board::from_parts(1, 1 << 48, gaps, false, 0, 1);
    let moves = board.map_legal_moves();
    assert_eq!(moves, vec![Move::new_pass()]);
    assert_eq!(board.movegen_bulk(false), 0);
}

#[test]
fn bulk_count_agrees_with_the_move_list() {
    let mut board = Board::default();
    for _ in 0..12 {
        let moves = board.map_legal_moves();
        if moves.is_empty() {
            break;
        }
        let stone_moves = if moves[0].is_pass() { 0 } else { moves.len() as u64 };
        assert_eq!(board.movegen_bulk(false), stone_moves);
        let mov = moves[moves.len() / 2];
        assert!(board.can_play(mov));
        board.make(mov);
    }
}

#[test]
fn value_features_of_the_opening() {
    let feats = Board::default().value_features_map();
    assert_eq!(feats.len(), 36);
    // window (0, 0) holds a1 with a stone of the other side: digit 2 in place 0
    assert_eq!(feats[0], 2);
    // window (0, 5) holds g1 as its second cell, with a stone of the side to move
    assert_eq!(feats[5], 81 * 5 + 3);
    // window (5, 0) holds a7 as its third cell
    assert_eq!(feats[30], 81 * 30 + 9);
    // window (5, 5) holds g7 as its fourth cell, a stone of the other side
    assert_eq!(feats[35], 81 * 35 + 2 * 27);
    assert_eq!(feats[14], 81 * 14);
}

#[test]
fn fen_of_the_opening() {
    assert_eq!(Board::default().as_fen(), "x5o/7/7/7/7/7/o5x x 0 1");
    assert_eq!(Board::default().as_fen(), Board::STARTPOS);
    assert_eq!(Board::from_fen(Board::STARTPOS), Board::default());
}

#[test]
fn fen_with_gaps_and_counters() {
    let board = Board::try_from_fen("x5o/7/2-1-2/7/2-1-2/7/o5x o 12 34").unwrap();
    assert_eq!(board.stm(), Side::BLU);
    assert_eq!(board.halfm(), 12);
    assert_eq!(board.fullm(), 34);
    assert_eq!(board.bbs()[2], (1 << 16) | (1 << 18) | (1 << 30) | (1 << 32));
    assert_eq!(board.as_fen(), "x5o/7/2-1-2/7/2-1-2/7/o5x o 12 34");
}

#[test]
fn fen_counters_may_be_missing_or_wrong() {
    let board = Board::try_from_fen("x5o/7/7/7/7/7/o5x x").unwrap();
    assert_eq!((board.halfm(), board.fullm()), (0, 1));
    let board = Board::try_from_fen("x5o/7/7/7/7/7/o5x x 300 70000").unwrap();
    assert_eq!((board.halfm(), board.fullm()), (0, 1));
    let board = Board::try_from_fen("X5O/7/7/7/7/7/O5X y +7 junk").unwrap();
    assert_eq!((board.halfm(), board.fullm()), (7, 1));
    assert_eq!(board.stm(), Side::RED);
    assert_eq!(board.bbs(), Board::default().bbs());
}

#[test]
fn fen_that_describes_no_position_is_refused() {
    for bad in [
        "",
        "x5o/7/7/7/7/7/o5x",
        "x5o/7/7/7/7/7 x 0 1",
        "x5o/7/7/7/7/7/o5x/7 x 0 1",
        "x6o/7/7/7/7/7/o5x x 0 1",
        "x4o/7/7/7/7/7/o5x x 0 1",
        "x5o/8/7/7/7/7/o5x x 0 1",
        "x5o/7/7/7/7/7/o5q x 0 1",
        "x5o/7/7/7/7/7/o5x/ x 0 1",
    ] {
        assert!(Board::try_from_fen(bad).is_none(), "{bad}");
    }
}

#[test]
fn fen_round_trip_along_a_game() {
    let mut board = Board::default();
    for step in 0..30 {
        let text = board.as_fen();
        assert_eq!(Board::try_from_fen(&text), Some(board));
        let moves = board.map_legal_moves();
        if moves.is_empty() {
            break;
        }
        let mov = moves[(step * 7) % moves.len()];
        board.make(mov);
    }
}
