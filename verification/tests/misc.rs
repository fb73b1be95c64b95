use monty::ataxx::moves::push_decimal;
use monty::ataxx::{Board, GameState, Move};
use monty::datagen::format::sort_by_move;
use monty::text::{same_bytes, token_is};
use monty::tree::best::key_of;
use monty::tree::{Node, NodePtr, Tree, TreeHalf, QUANT};
use monty::uai::report::{push_signed, push_wide};

#[test]
fn numbers_in_decimal() {
    let mut s = String::from("n=");
    push_decimal(&mut s, 0);
    push_decimal(&mut s, 907);
    push_decimal(&mut s, u64::MAX);
    assert_eq!(s, format!("n=0907{}", u64::MAX));
    let mut s = String::new();
    push_wide(&mut s, 10);
    push_wide(&mut s, u128::MAX);
    assert_eq!(s, format!("10{}", u128::MAX));
    let mut s = String::new();
    push_signed(&mut s, -1);
    push_signed(&mut s, 0);
    push_signed(&mut s, i64::MAX);
    push_signed(&mut s, i64::MIN);
    assert_eq!(s, format!("-10{}{}", i64::MAX, i64::MIN));
}

#[test]
fn bytes_are_compared_whole() {
    assert!(same_bytes(b"", b""));
    assert!(same_bytes(b"abc", b"abc"));
    assert!(!same_bytes(b"abc", b"abd"));
    assert!(!same_bytes(b"abc", b"ab"));
    assert!(token_is(b"go", "go"));
    assert!(!token_is(b"go ", "go"));
    assert!(!token_is(b"g", "go"));
    assert!(token_is("é".as_bytes(), "é"));
}

#[test]
fn positions_read_from_bytes() {
    let pos = Board::parse_fen(b"  x5o/7/7/7/7/7/o5x\tx  0 1 and more").unwrap();
    assert_eq!(pos, Board::default());
    assert!(pos.is_on_board());
    assert!(Board::parse_fen(b"x5o/7/7/7/7/7/o5").is_none());
    assert!(!Board::from_parts(1 << 49, 0, 0, false, 0, 1).is_on_board());
    assert!(!Board::from_parts(0, 0, 1 << 63, false, 0, 1).is_on_board());
    assert!(Board::from_parts(1 << 48, 1, 2, false, 0, 1).is_on_board());
}

#[test]
fn entries_with_the_same_move_keep_their_order() {
    let a = Move::new_single(1);
    let b = Move::new_single(0);
    let mut dist = vec![(a, 1), (b, 2), (a, 3), (b, 4), (a, 5)];
    sort_by_move(&mut dist);
    assert_eq!(dist, vec![(b, 2), (b, 4), (a, 1), (a, 3), (a, 5)]);
    let mut one = vec![(a, 9)];
    sort_by_move(&mut one);
    assert_eq!(one, vec![(a, 9)]);
    let mut many: Vec<(Move, u32)> =
        (0..200u32).map(|i| (Move::from_u16(((i * 7919) % 1000) as u16), i)).collect();
    let mut expected = many.clone();
    expected.sort_by_key(|(m, _)| m.to_u16());
    sort_by_move(&mut many);
    assert_eq!(many, expected);
}

#[test]
fn keys_of_children() {
    let mut node = Node::new(GameState::Ongoing);
    assert_eq!(key_of(&node), 0);
    node.update(3000);
    node.update(1000);
    assert_eq!(key_of(&node), 2000);
    assert_eq!(node.sq_q(), (3000 * 3000 + 1000 * 1000) / 2);
    assert_eq!(key_of(&Node::new(GameState::Draw)), QUANT / 2);
    assert_eq!(key_of(&Node::new(GameState::Lost(0))), 257 * QUANT);
    assert_eq!(key_of(&Node::new(GameState::Lost(255))), 2 * QUANT);
    assert_eq!(key_of(&Node::new(GameState::Won(255))), -QUANT);
    assert_eq!(key_of(&Node::new(GameState::Won(0))), -256 * QUANT);
    node.set_policy(77);
    assert_eq!(node.policy(), 77);
    assert_eq!(node.visits(), 2);
}

#[test]
fn slots_of_a_half() {
    let mut half = TreeHalf::new(4, false);
    half.node_mut(2).set_state(GameState::Draw);
    half.node_mut(2).update(5);
    assert_eq!(half.get(2).state(), GameState::Draw);
    assert_eq!(half.get(2).visits(), 1);
    assert_eq!(half.get(1).visits(), 0);
    assert_eq!(half.node(NodePtr::new(true, 2)).visits(), 1);
}

#[test]
fn root_position_of_a_tree() {
    let mut tree = Tree::new(10, 2);
    assert!(!tree.upper_active());
    let pos = Board::from_parts(1, 2, 4, true, 3, 9);
    tree.set_root_position(&pos);
    assert_eq!(*tree.root_position(), pos);
    assert!(tree.is_empty());
    tree.flip(false);
    assert!(tree.upper_active());
    assert_eq!(tree.root_node(), NodePtr::new(true, 0));
    assert_eq!(*tree.root_position(), pos);
}

#[test]
fn child_lost_sooner_has_the_greater_key() {
    for n in 0..255u8 {
        assert!(key_of(&Node::new(GameState::Lost(n))) > key_of(&Node::new(GameState::Lost(n + 1))));
        assert!(key_of(&Node::new(GameState::Won(n))) < key_of(&Node::new(GameState::Won(n + 1))));
    }
    // every lost child above every mean, every won child below
    assert!(key_of(&Node::new(GameState::Lost(255))) > QUANT);
    assert!(key_of(&Node::new(GameState::Won(255))) < 0);
}
