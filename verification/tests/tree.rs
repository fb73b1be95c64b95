use monty::ataxx::{Board, GameState, Move};
use monty::tree::{
    Expansion, HashTable, Node, NodePtr, Phase, Tree, TreeHalf, QUANT,
};

fn uniform(k: usize) -> Vec<u16> {
    vec![(65535 / k.max(1)) as u16; k]
}

fn material_value(pos: &Board) -> i64 {
    (2048 + 100 * pos.material() as i64).clamp(0, QUANT)
}

fn select(tree: &Tree, cur: NodePtr) -> usize {
    let node = tree.node(cur);
    let first = node.actions();
    let fpu = 1.0 - node.q() as f64 / QUANT as f64;
    let explore = 1.4 * (node.visits().max(1) as f64).sqrt();
    let mut best = 0;
    let mut best_score = f64::NEG_INFINITY;
    for j in 0..node.num_actions() {
        let child = tree.node(first + j);
        let q = match child.state() {
            GameState::Lost(n) => 1.0 + f64::from(n),
            GameState::Won(n) => f64::from(n) - 256.0,
            GameState::Draw => 0.5,
            GameState::Ongoing => {
                if child.visits() == 0 {
                    fpu
                } else {
                    child.q() as f64 / QUANT as f64
                }
            }
        };
        let prior = f64::from(child.policy()) / 65535.0;
        let score = q + explore * prior / (1.0 + f64::from(child.visits()));
        if score > best_score {
            best_score = score;
            best = j;
        }
    }
    best
}

fn seed(tree: &mut Tree, root: &Board) -> Expansion {
    let moves = root.map_legal_moves();
    let policies = uniform(moves.len());
    tree.seed_root(&moves, &policies, 0, material_value(root))
}

/// One iteration; the depth it came to, or `None` if the tree was full.
fn iterate(tree: &mut Tree, root: &Board) -> Option<usize> {
    assert!(tree.begin_iteration());
    let mut pos = *root;
    loop {
        match tree.phase() {
            Phase::Leaf => {
                let state = pos.game_state();
                let hash = pos.hash();
                let value = match tree.leaf_value(state, hash) {
                    Some(v) => v,
                    None => material_value(&pos),
                };
                let depth = tree.depth();
                assert!(tree.backup(state, hash, value));
                return Some(depth);
            }
            Phase::Expand => {
                let moves = pos.map_legal_moves();
                let policies = uniform(moves.len());
                let cur = tree.cursor().unwrap();
                match tree.expand_node(cur, &moves, &policies, 0) {
                    Expansion::Done => {}
                    Expansion::TreeFull => {
                        assert!(tree.abandon());
                        return None;
                    }
                    Expansion::Refused => panic!("refused"),
                }
            }
            Phase::Select => {
                let cur = tree.cursor().unwrap();
                let action = select(tree, cur);
                let mov = tree.descend(action).unwrap();
                assert!(pos.can_play(mov));
                pos.make(mov);
            }
            Phase::Idle => panic!("idle"),
        }
    }
}

fn searched(cap: usize, iters: usize) -> (Tree, Board) {
    let root = Board::default();
    let mut tree = Tree::new(cap, 10);
    assert_eq!(seed(&mut tree, &root), Expansion::Done);
    for _ in 0..iters {
        if iterate(&mut tree, &root).is_none() {
            tree.flip(true);
        }
    }
    (tree, root)
}

/// What a tree holds, without the places of its nodes.
#[derive(Debug, PartialEq)]
struct Shape {
    mov: u16,
    policy: u16,
    visits: i32,
    q: i64,
    state: GameState,
    children: Vec<Shape>,
}

fn shape(tree: &Tree, ptr: NodePtr) -> Shape {
    let node = tree.node(ptr);
    let first = node.actions();
    Shape {
        mov: node.parent_move().to_u16(),
        policy: node.policy(),
        visits: node.visits(),
        q: node.q(),
        state: node.state(),
        children: (0..node.num_actions()).map(|j| shape(tree, first + j)).collect(),
    }
}

fn for_each_node(tree: &Tree, ptr: NodePtr, f: &mut dyn FnMut(&Tree, NodePtr)) {
    f(tree, ptr);
    let node = tree.node(ptr);
    let first = node.actions();
    for j in 0..node.num_actions() {
        for_each_node(tree, first + j, f);
    }
}

#[test]
fn node_ptr_packs_half_and_index() {
    let p = NodePtr::new(true, 5);
    assert!(p.half());
    assert_eq!(p.idx(), 5);
    assert_eq!(p.inner(), (1 << 31) | 5);
    let q = NodePtr::new(false, 0x7fff_ffff);
    assert!(!q.half());
    assert_eq!(q.idx(), 0x7fff_ffff);
    assert_eq!(NodePtr::from_raw(p.inner()), p);
    assert!(NodePtr::new_null().is_null());
    assert!(NodePtr::new(true, 0x7fff_ffff).is_null());
    assert!(!p.is_null());
    assert_eq!(NodePtr::default().inner(), 0);
}

#[test]
fn node_ptr_offsets_stay_in_the_half() {
    let p = NodePtr::new(true, 5) + 7;
    assert!(p.half());
    assert_eq!(p.idx(), 12);
    assert_eq!(NodePtr::new(false, 0) + 0, NodePtr::new(false, 0));
}

#[test]
fn fresh_node() {
    let node = Node::new(GameState::Draw);
    assert_eq!(node.state(), GameState::Draw);
    assert!(node.is_terminal());
    assert_eq!(node.visits(), 0);
    assert_eq!(node.threads(), 0);
    assert_eq!(node.num_actions(), 0);
    assert!(node.actions().is_null());
    assert!(!node.has_children());
    assert!(!node.is_not_expanded());
    assert!(Node::new(GameState::Ongoing).is_not_expanded());
    assert_eq!(node.q(), 0);
    assert_eq!(node.parent_move(), Move::new_null());
}

#[test]
fn node_update_keeps_the_mean_of_the_values() {
    let mut node = Node::new(GameState::Ongoing);
    assert_eq!(node.update(4096), 4096);
    assert_eq!(node.update(0), 2048);
    assert_eq!(node.update(1000), (4096 + 1000) / 3);
    assert_eq!(node.visits(), 3);
    assert_eq!(node.q(), 1698);
}

#[test]
fn node_mean_stays_in_range() {
    let mut node = Node::new(GameState::Ongoing);
    for i in 0..1000i64 {
        let mean = node.update((i * 37) % 4097);
        assert!((0..=QUANT).contains(&mean));
        assert_eq!(mean, node.q());
    }
}

#[test]
fn node_state_once_decided_stays() {
    let mut node = Node::new(GameState::Ongoing);
    node.set_state(GameState::Ongoing);
    assert_eq!(node.state(), GameState::Ongoing);
    node.set_state(GameState::Won(3));
    assert_eq!(node.state(), GameState::Won(3));
    node.set_state(GameState::Lost(1));
    assert_eq!(node.state(), GameState::Won(3));
    node.set_state(GameState::Ongoing);
    assert_eq!(node.state(), GameState::Won(3));
}

#[test]
fn node_threads_count_up_and_down() {
    let mut node = Node::new(GameState::Ongoing);
    node.inc_threads();
    node.inc_threads();
    assert_eq!(node.threads(), 2);
    node.dec_threads();
    assert_eq!(node.threads(), 1);
    node.dec_threads();
    node.dec_threads();
    assert_eq!(node.threads(), u16::MAX);
    node.inc_threads();
    assert_eq!(node.threads(), 0);
}

#[test]
fn node_set_new_and_clear() {
    let mut node = Node::new(GameState::Ongoing);
    node.update(100);
    node.set_num_actions(3);
    node.actions_mut(NodePtr::new(false, 9));
    node.set_gini_impurity(77);
    node.set_state(GameState::Draw);
    node.set_new(Move::new_single(4), 1234);
    assert_eq!(node.parent_move(), Move::new_single(4));
    assert_eq!(node.policy(), 1234);
    assert_eq!(node.visits(), 0);
    assert_eq!(node.state(), GameState::Ongoing);
    assert_eq!(node.num_actions(), 0);
    assert!(node.actions().is_null());
    assert_eq!(node.gini_impurity(), 0);
    node.update(5);
    node.clear();
    assert_eq!(node.visits(), 0);
    assert_eq!(node.policy(), 1234);
    assert_eq!(node.parent_move(), Move::new_single(4));
}

#[test]
fn node_copy_from_leaves_the_children() {
    let mut a = Node::new(GameState::Ongoing);
    a.set_new(Move::new_single(4), 9);
    a.update(1000);
    a.set_num_actions(2);
    a.actions_mut(NodePtr::new(true, 3));
    let mut b = Node::new(GameState::Ongoing);
    b.set_num_actions(5);
    b.actions_mut(NodePtr::new(false, 8));
    b.copy_from(&a);
    assert_eq!(b.visits(), 1);
    assert_eq!(b.q(), 1000);
    assert_eq!(b.policy(), 9);
    assert_eq!(b.parent_move(), Move::new_single(4));
    assert_eq!(b.num_actions(), 5);
    assert_eq!(b.actions(), NodePtr::new(false, 8));
    b.clear_actions();
    assert!(b.actions().is_null());
    assert_eq!(b.num_actions(), 0);
    assert_eq!(b.visits(), 1);
}

#[test]
fn half_hands_out_slots_in_order() {
    let mut half = TreeHalf::new(10, true);
    assert!(half.is_empty());
    assert!(!half.is_full());
    assert_eq!(half.reserve_nodes(4), Some(NodePtr::new(true, 0)));
    assert_eq!(half.reserve_nodes(6), Some(NodePtr::new(true, 4)));
    assert!(half.is_full());
    assert_eq!(half.used(), 10);
    assert_eq!(half.reserve_nodes(1), None);
    assert_eq!(half.used(), 11);
    half.clear();
    assert!(half.is_empty());
    assert_eq!(half.reserve_nodes(10), Some(NodePtr::new(true, 0)));
}

#[test]
fn half_counts_a_reservation_that_fails() {
    let mut half = TreeHalf::new(10, false);
    assert_eq!(half.reserve_nodes(8), Some(NodePtr::new(false, 0)));
    assert_eq!(half.reserve_nodes(3), None);
    assert_eq!(half.used(), 11);
    assert!(half.is_full());
    assert_eq!(half.reserve_nodes(1), None);
    assert_eq!(half.reserve_nodes(usize::MAX), None);
    assert_eq!(half.used(), usize::MAX);
    assert_eq!(half.len(), 10);
    assert_eq!(half.node(NodePtr::new(false, 3)).visits(), 0);
}

#[test]
fn cache_finds_what_was_stored() {
    let mut table = HashTable::new(4);
    assert_eq!(table.len(), 16);
    assert_eq!(table.probe(5), None);
    table.store(5, 700);
    assert_eq!(table.probe(5), Some(700));
    table.store(5, 800);
    assert_eq!(table.probe(5), Some(800));
    assert_eq!(table.probe(0), None);
}

#[test]
fn cache_overwrites_on_collision() {
    let mut table = HashTable::new(4);
    table.store(5, 700);
    // 21 has the same low four bits as 5
    assert_eq!(table.probe(21), None);
    table.store(21, 900);
    assert_eq!(table.probe(21), Some(900));
    assert_eq!(table.probe(5), None);
    table.store(6, 1);
    assert_eq!(table.probe(21), Some(900));
    table.clear();
    assert_eq!(table.probe(21), None);
    assert_eq!(table.probe(6), None);
}

#[test]
fn cache_of_one_slot() {
    let mut table = HashTable::new(0);
    assert_eq!(table.len(), 1);
    table.store(u64::MAX, 3);
    assert_eq!(table.probe(u64::MAX), Some(3));
    table.store(0, 4);
    assert_eq!(table.probe(u64::MAX), None);
}

#[test]
fn new_tree_is_empty() {
    let tree = Tree::new(100, 4);
    assert!(tree.is_empty());
    assert!(!tree.is_full());
    assert_eq!(tree.used(), 0);
    assert_eq!(tree.len(), 0);
    assert_eq!(tree.slots(), 100);
    assert_eq!(tree.half(), 0);
    assert_eq!(tree.root_node(), NodePtr::new(false, 0));
    assert_eq!(tree.phase(), Phase::Idle);
    assert_eq!(*tree.root_position(), Board::default());
    assert_eq!(tree.get_pv(5), Vec::<Move>::new());
}

#[test]
fn tree_by_megabytes() {
    let tree = Tree::new_mb(1);
    assert_eq!(tree.slots(), 1024 * 1024 / 48);
    assert!(tree.is_empty());
    assert!(!tree.upper_active());
    assert_eq!(tree.phase(), Phase::Idle);
    assert_eq!(*tree.root_position(), Board::default());
    assert_eq!(tree.probe_hash(12345), None);
}

#[test]
fn seeding_the_root_expands_it_after_one_visit() {
    let root = Board::default();
    let mut tree = Tree::new(100, 4);
    assert_eq!(seed(&mut tree, &root), Expansion::Done);
    let node = tree.node(tree.root_node());
    assert_eq!(node.num_actions(), 16);
    assert_eq!(node.visits(), 1);
    assert_eq!(node.q(), QUANT - 2048);
    assert_eq!(tree.used(), 17);
    let first = node.actions();
    assert_eq!(first, NodePtr::new(false, 1));
    let moves = root.map_legal_moves();
    for (j, mov) in moves.iter().enumerate() {
        let child = tree.node(first + j);
        assert_eq!(child.parent_move(), *mov);
        assert_eq!(child.policy(), 65535 / 16);
        assert_eq!(child.visits(), 0);
        assert_eq!(child.state(), GameState::Ongoing);
    }
    assert_eq!(seed(&mut tree, &root), Expansion::Refused);
}

#[test]
fn seeding_refuses_bad_moves_and_reports_a_full_tree() {
    let mut tree = Tree::new(10, 4);
    assert_eq!(tree.seed_root(&vec![], &vec![], 0, 0), Expansion::Refused);
    assert_eq!(tree.seed_root(&vec![Move::new_pass()], &vec![], 0, 0), Expansion::Refused);
    assert!(tree.is_empty());
    let root = Board::default();
    assert_eq!(seed(&mut tree, &root), Expansion::TreeFull);
    assert_eq!(tree.len(), 1);
    assert_eq!(tree.node(tree.root_node()).visits(), 1);
    assert_eq!(tree.node(tree.root_node()).num_actions(), 0);
}

#[test]
fn expansion_is_refused_where_it_must_not_happen() {
    let root = Board::default();
    let mut tree = Tree::new(100, 4);
    seed(&mut tree, &root);
    let moves = vec![Move::new_pass()];
    let policies = vec![65535u16];
    let child = tree.node(tree.root_node()).actions();
    // never visited
    assert_eq!(tree.expand_node(child, &moves, &policies, 0), Expansion::Refused);
    // not in the tree
    assert_eq!(
        tree.expand_node(NodePtr::new(true, 0), &moves, &policies, 0),
        Expansion::Refused
    );
    assert_eq!(
        tree.expand_node(NodePtr::new(false, 50), &moves, &policies, 0),
        Expansion::Refused
    );
    // has children already: left as it is
    assert_eq!(tree.expand_node(tree.root_node(), &moves, &policies, 0), Expansion::Done);
    assert_eq!(tree.node(tree.root_node()).num_actions(), 16);
    assert_eq!(tree.used(), 17);
}

#[test]
fn first_iteration_visits_one_child() {
    let root = Board::default();
    let mut tree = Tree::new(1000, 4);
    seed(&mut tree, &root);
    assert_eq!(iterate(&mut tree, &root), Some(2));
    let node = tree.node(tree.root_node());
    assert_eq!(node.visits(), 2);
    let first = node.actions();
    let visited: Vec<usize> =
        (0..16).filter(|&j| tree.node(first + j).visits() > 0).collect();
    assert_eq!(visited.len(), 1);
    let child = tree.node(first + visited[0]);
    assert_eq!(child.visits(), 1);
    assert_eq!(child.threads(), 0);
    assert_eq!(tree.phase(), Phase::Idle);
    assert_eq!(tree.get_best_child(tree.root_node()), Some(visited[0]));
}

#[test]
fn backup_turns_the_value_at_each_level() {
    let root = Board::default();
    let mut tree = Tree::new(1000, 4);
    seed(&mut tree, &root);
    assert!(tree.begin_iteration());
    let mov = tree.descend(3).unwrap();
    let mut pos = root;
    pos.make(mov);
    assert_eq!(tree.phase(), Phase::Leaf);
    assert_eq!(tree.depth(), 2);
    let child = tree.cursor().unwrap();
    assert_eq!(tree.node(child).threads(), 1);
    assert_eq!(tree.leaf_value(GameState::Ongoing, pos.hash()), None);
    assert!(tree.backup(GameState::Ongoing, pos.hash(), 1000));
    // the leaf counts the value as the side that moved there sees it
    assert_eq!(tree.node(child).q(), QUANT - 1000);
    assert_eq!(tree.node(child).visits(), 1);
    assert_eq!(tree.node(child).threads(), 0);
    // the root had 2048 from its seeding and now counts 1000
    assert_eq!(tree.node(tree.root_node()).visits(), 2);
    assert_eq!(tree.node(tree.root_node()).q(), (2048 + 1000) / 2);
    // the value went into the cache
    assert_eq!(tree.probe_hash(pos.hash()), Some(1000));
}

#[test]
fn cached_value_is_used_in_place_of_the_evaluation() {
    let root = Board::default();
    let mut tree = Tree::new(1000, 4);
    seed(&mut tree, &root);
    assert!(tree.begin_iteration());
    let mov = tree.descend(0).unwrap();
    let mut pos = root;
    pos.make(mov);
    tree.push_hash(pos.hash(), 3000);
    assert_eq!(tree.leaf_value(GameState::Ongoing, pos.hash()), Some(3000));
    let child = tree.cursor().unwrap();
    assert!(tree.backup(GameState::Ongoing, pos.hash(), 5));
    assert_eq!(tree.node(child).q(), QUANT - 3000);
    assert_eq!(tree.probe_hash(pos.hash()), Some(3000));
}

#[test]
fn decided_leaf_counts_its_utility() {
    let root = Board::default();
    let mut tree = Tree::new(1000, 4);
    seed(&mut tree, &root);
    for (j, state, q) in [
        (0usize, GameState::Won(0), 0i64),
        (2, GameState::Draw, QUANT / 2),
        (1, GameState::Lost(0), QUANT),
    ] {
        assert!(tree.begin_iteration());
        tree.descend(j).unwrap();
        let child = tree.cursor().unwrap();
        assert_eq!(tree.leaf_value(state, 0), Some(QUANT - q));
        assert!(tree.backup(state, 0, 1234));
        assert_eq!(tree.node(child).state(), state);
        assert_eq!(tree.node(child).q(), q);
    }
}

#[test]
fn a_lost_child_proves_the_parent_won() {
    let root = Board::default();
    let mut tree = Tree::new(1000, 4);
    seed(&mut tree, &root);
    assert!(tree.begin_iteration());
    tree.descend(2).unwrap();
    assert!(tree.backup(GameState::Lost(4), 0, 0));
    assert_eq!(tree.node(tree.root_node()).state(), GameState::Won(5));
    // a decided root is a leaf and keeps its state
    assert!(tree.begin_iteration());
    assert_eq!(tree.phase(), Phase::Leaf);
    assert!(tree.backup(GameState::Ongoing, 0, 0));
    assert_eq!(tree.node(tree.root_node()).state(), GameState::Won(5));
    assert_eq!(tree.get_best_child(tree.root_node()), Some(2));
}

#[test]
fn children_that_are_all_won_prove_the_parent_lost() {
    let root = Board::default();
    let mut tree = Tree::new(1000, 4);
    let moves = vec![Move::new_single(1), Move::new_single(2), Move::new_single(3)];
    assert_eq!(tree.seed_root(&moves, &uniform(3), 0, 2048), Expansion::Done);
    for (j, n) in [(0usize, 3u8), (1, 9), (2, 5)] {
        assert_eq!(tree.node(tree.root_node()).state(), GameState::Ongoing);
        assert!(tree.begin_iteration());
        tree.descend(j).unwrap();
        assert!(tree.backup(GameState::Won(n), 0, 0));
    }
    assert_eq!(tree.node(tree.root_node()).state(), GameState::Lost(10));
    let _ = root;
}

#[test]
fn children_that_are_all_drawn_prove_a_draw() {
    let mut tree = Tree::new(1000, 4);
    let moves = vec![Move::new_single(1), Move::new_single(2)];
    assert_eq!(tree.seed_root(&moves, &uniform(2), 0, 2048), Expansion::Done);
    for j in 0..2 {
        assert!(tree.begin_iteration());
        tree.descend(j).unwrap();
        assert!(tree.backup(GameState::Draw, 0, 0));
    }
    let root = tree.node(tree.root_node());
    assert_eq!(root.state(), GameState::Draw);
    // seeded with a half, then two draws
    assert_eq!(root.q(), 2048);
    assert_eq!(root.visits(), 3);
}

#[test]
fn a_draw_among_won_children_proves_a_draw_and_distances_are_held_at_255() {
    let mut tree = Tree::new(1000, 4);
    let moves = vec![Move::new_single(1), Move::new_single(2)];
    tree.seed_root(&moves, &uniform(2), 0, 2048);
    assert!(tree.begin_iteration());
    tree.descend(0).unwrap();
    tree.backup(GameState::Won(1), 0, 0);
    assert!(tree.begin_iteration());
    tree.descend(1).unwrap();
    tree.backup(GameState::Draw, 0, 0);
    assert_eq!(tree.node(tree.root_node()).state(), GameState::Draw);

    let mut tree = Tree::new(1000, 4);
    tree.seed_root(&vec![Move::new_single(1)], &uniform(1), 0, 2048);
    assert!(tree.begin_iteration());
    tree.descend(0).unwrap();
    tree.backup(GameState::Lost(255), 0, 0);
    assert_eq!(tree.node(tree.root_node()).state(), GameState::Won(255));
}

#[test]
fn descent_is_refused_where_nothing_is_to_choose() {
    let root = Board::default();
    let mut tree = Tree::new(1000, 4);
    assert!(!tree.begin_iteration());
    assert_eq!(tree.descend(0), None);
    assert!(!tree.backup(GameState::Ongoing, 0, 0));
    assert!(!tree.abandon());
    seed(&mut tree, &root);
    assert_eq!(tree.descend(0), None);
    assert!(tree.begin_iteration());
    assert!(!tree.begin_iteration());
    assert_eq!(tree.descend(16), None);
    assert_eq!(tree.depth(), 1);
    assert!(tree.descend(15).is_some());
    // at a leaf
    assert_eq!(tree.descend(0), None);
    assert_eq!(tree.depth(), 2);
}

#[test]
fn abandoning_a_descent_gives_the_threads_back_and_counts_nothing() {
    let (mut tree, _) = searched(5000, 200);
    let before = shape(&tree, tree.root_node());
    assert!(tree.begin_iteration());
    let mut steps = 0;
    while tree.phase() == Phase::Select {
        let cur = tree.cursor().unwrap();
        let action = select(&tree, cur);
        tree.descend(action).unwrap();
        steps += 1;
    }
    assert!(steps > 0);
    assert!(tree.abandon());
    assert_eq!(tree.phase(), Phase::Idle);
    assert_eq!(shape(&tree, tree.root_node()), before);
    for_each_node(&tree, tree.root_node(), &mut |t, p| assert_eq!(t.node(p).threads(), 0));
}

#[test]
fn visits_of_a_node_cover_those_of_its_children() {
    let (tree, _) = searched(20000, 2000);
    let mut nodes = 0;
    for_each_node(&tree, tree.root_node(), &mut |t, p| {
        let node = t.node(p);
        nodes += 1;
        if node.num_actions() > 0 {
            let first = node.actions();
            let sum: i32 = (0..node.num_actions()).map(|j| t.node(first + j).visits()).sum();
            assert!(node.visits() >= sum + 1);
        }
    });
    assert!(nodes > 100);
    assert_eq!(tree.node(tree.root_node()).visits(), 2001);
}

#[test]
fn means_stay_in_range_and_threads_are_given_back() {
    let (tree, _) = searched(20000, 2000);
    for_each_node(&tree, tree.root_node(), &mut |t, p| {
        let node = t.node(p);
        assert!((0..=QUANT).contains(&node.q()));
        assert_eq!(node.threads(), 0);
        if node.visits() == 0 {
            assert_eq!(node.state(), GameState::Ongoing);
            assert_eq!(node.num_actions(), 0);
        }
    });
}

#[test]
fn children_lie_in_the_active_half_after_a_flip() {
    let (mut tree, _) = searched(20000, 1500);
    tree.flip(true);
    assert_eq!(tree.half(), 1);
    for_each_node(&tree, tree.root_node(), &mut |t, p| {
        let node = t.node(p);
        assert!(p.half());
        if node.num_actions() > 0 {
            assert!(node.actions().half());
            assert!(node.actions().idx() > p.idx());
            assert!(node.actions().idx() + node.num_actions() <= t.len());
        }
    });
}

#[test]
fn flip_keeps_the_tree() {
    let (mut tree, _) = searched(20000, 1500);
    let before = shape(&tree, tree.root_node());
    let used = tree.used();
    tree.flip(true);
    assert_eq!(shape(&tree, tree.root_node()), before);
    assert_eq!(tree.used(), used);
    assert_eq!(tree.root_node(), NodePtr::new(true, 0));
}

#[test]
fn flip_twice_is_the_identity() {
    let (mut tree, _) = searched(20000, 1500);
    let before = shape(&tree, tree.root_node());
    tree.flip(true);
    tree.flip(true);
    assert_eq!(tree.half(), 0);
    assert_eq!(tree.root_node(), NodePtr::new(false, 0));
    assert_eq!(shape(&tree, tree.root_node()), before);
}

#[test]
fn flip_without_the_root_empties_the_tree() {
    let (mut tree, _) = searched(20000, 100);
    tree.flip(false);
    assert!(tree.is_empty());
    assert_eq!(tree.half(), 1);
    tree.flip(true);
    assert!(tree.is_empty());
    assert_eq!(tree.half(), 0);
}

#[test]
fn flip_drops_what_cannot_be_reached() {
    let (mut tree, root) = searched(20000, 1500);
    let moves = root.map_legal_moves();
    let best = tree.get_best_child(tree.root_node()).unwrap();
    let mut next = root;
    next.make(moves[best]);
    let used = tree.used();
    assert!(tree.try_use_subtree(&next, &Some(root)));
    assert_eq!(tree.used(), used);
    let kept = shape(&tree, tree.root_node());
    tree.flip(true);
    assert!(tree.used() < used);
    assert_eq!(shape(&tree, tree.root_node()), kept);
}

#[test]
fn a_full_tree_is_flipped_and_searched_on() {
    let (tree, _) = searched(400, 3000);
    assert!(tree.used() <= 400);
    for_each_node(&tree, tree.root_node(), &mut |t, p| assert_eq!(t.node(p).threads(), 0));
}

#[test]
fn clear_empties_the_tree() {
    let (mut tree, _) = searched(20000, 100);
    tree.flip(true);
    tree.clear();
    assert!(tree.is_empty());
    assert_eq!(tree.used(), 0);
    assert_eq!(tree.half(), 0);
    assert_eq!(tree.slots(), 20000);
}

#[test]
fn subtree_of_the_move_played_is_kept() {
    let (mut tree, root) = searched(20000, 1500);
    let moves = root.map_legal_moves();
    let best = tree.get_best_child(tree.root_node()).unwrap();
    let child = tree.node(tree.root_node()).actions() + best;
    let expected = shape(&tree, child);
    assert!(expected.visits > 0);
    let mut next = root;
    next.make(moves[best]);
    assert!(tree.try_use_subtree(&next, &Some(root)));
    assert_eq!(shape(&tree, tree.root_node()), expected);
    assert_eq!(*tree.root_position(), next);
}

#[test]
fn subtree_two_moves_on_is_kept() {
    let (mut tree, root) = searched(20000, 3000);
    let moves = root.map_legal_moves();
    let best = tree.get_best_child(tree.root_node()).unwrap();
    let child = tree.node(tree.root_node()).actions() + best;
    let reply = tree.get_best_child(child).unwrap();
    let grandchild = tree.node(child).actions() + reply;
    let expected = shape(&tree, grandchild);
    let mut next = root;
    next.make(moves[best]);
    let replies = next.map_legal_moves();
    next.make(replies[reply]);
    assert!(tree.try_use_subtree(&next, &Some(root)));
    assert_eq!(shape(&tree, tree.root_node()), expected);
}

#[test]
fn tree_is_kept_for_the_same_position() {
    let (mut tree, root) = searched(20000, 300);
    let before = shape(&tree, tree.root_node());
    assert!(tree.try_use_subtree(&root, &Some(root)));
    assert_eq!(shape(&tree, tree.root_node()), before);
}

#[test]
fn tree_is_emptied_for_a_position_it_does_not_hold() {
    let (mut tree, root) = searched(20000, 300);
    let other = Board::try_from_fen("x5o/7/2-1-2/7/2-1-2/7/o5x x 0 1").unwrap();
    assert!(!tree.try_use_subtree(&other, &Some(root)));
    assert!(tree.is_empty());
    assert_eq!(*tree.root_position(), other);

    let (mut tree, root) = searched(20000, 300);
    assert!(!tree.try_use_subtree(&root, &None));
    assert!(tree.is_empty());
}

#[test]
fn best_child_prefers_wins_then_means_then_visits() {
    let mut tree = Tree::new(1000, 4);
    let moves: Vec<Move> = (0..5).map(Move::new_single).collect();
    tree.seed_root(&moves, &uniform(5), 0, 2048);
    // child 0: mean 3000; child 1: mean 3000 twice; child 3: drawn; child 4 not visited
    for (j, state, value) in [
        (0usize, GameState::Ongoing, QUANT - 3000),
        (1, GameState::Ongoing, QUANT - 3000),
        (1, GameState::Ongoing, QUANT - 3000),
        (3, GameState::Draw, 0),
    ] {
        assert!(tree.begin_iteration());
        tree.descend(j).unwrap();
        assert!(tree.backup(state, j as u64 + 100 * tree.used() as u64 + 7, value));
    }
    // equal means: the one with more visits
    assert_eq!(tree.get_best_child(tree.root_node()), Some(1));
    let (ptr, mov, q) = tree.get_best_action(tree.root_node()).unwrap();
    assert_eq!(ptr, tree.node(tree.root_node()).actions() + 1);
    assert_eq!(mov, Move::new_single(1));
    assert_eq!(q, 3000);
    // a child that is won for its own side is worse than any mean
    assert!(tree.begin_iteration());
    tree.descend(2).unwrap();
    assert!(tree.backup(GameState::Won(7), 0, 0));
    assert_eq!(tree.get_best_child(tree.root_node()), Some(1));
    // a child that is lost for its own side is better than any mean
    assert!(tree.begin_iteration());
    tree.descend(4).unwrap();
    assert!(tree.backup(GameState::Lost(7), 0, 0));
    assert_eq!(tree.get_best_child(tree.root_node()), Some(4));
}

#[test]
fn best_child_of_equal_children_is_the_first() {
    let mut tree = Tree::new(1000, 4);
    let moves: Vec<Move> = (0..3).map(Move::new_single).collect();
    tree.seed_root(&moves, &uniform(3), 0, 2048);
    assert_eq!(tree.get_best_child(tree.root_node()), None);
    assert_eq!(tree.get_best_action(tree.root_node()), None);
    for j in [2usize, 1] {
        assert!(tree.begin_iteration());
        tree.descend(j).unwrap();
        assert!(tree.backup(GameState::Draw, 0, 0));
    }
    assert_eq!(tree.get_best_child(tree.root_node()), Some(1));
    assert_eq!(tree.get_best_child(NodePtr::new(true, 0)), None);
}

#[test]
fn principal_line_follows_the_best_children() {
    let (tree, root) = searched(20000, 3000);
    let pv = tree.get_pv(3);
    assert!(!pv.is_empty() && pv.len() <= 3);
    let mut ptr = tree.root_node();
    let mut pos = root;
    for mov in &pv {
        let (child, best, _) = tree.get_best_action(ptr).unwrap();
        assert_eq!(best, *mov);
        assert!(pos.map_legal_moves().contains(mov));
        pos.make(*mov);
        ptr = child;
    }
    assert_eq!(tree.get_pv(0), Vec::<Move>::new());
    assert_eq!(tree.get_pv(1), vec![pv[0]]);
}

#[test]
fn relabelling_gives_the_children_new_priors() {
    let root = Board::default();
    let mut tree = Tree::new(100, 4);
    seed(&mut tree, &root);
    let policies: Vec<u16> = (0..16).map(|i| 1000 + i).collect();
    assert!(tree.relabel_policy(tree.root_node(), &policies));
    let first = tree.node(tree.root_node()).actions();
    for j in 0..16 {
        assert_eq!(tree.node(first + j).policy(), 1000 + j as u16);
    }
    assert!(!tree.relabel_policy(tree.root_node(), &vec![1, 2, 3]));
    assert!(!tree.relabel_policy(NodePtr::new(true, 0), &policies));
    assert_eq!(tree.node(first).policy(), 1000);
    // a node without children takes an empty list
    assert!(tree.relabel_policy(first, &vec![]));
}

#[test]
fn push_new_node_fills_the_next_slot() {
    let mut tree = Tree::new(2, 4);
    assert_eq!(tree.push_new_node(), Some(NodePtr::new(false, 0)));
    assert_eq!(tree.push_new_node(), Some(NodePtr::new(false, 1)));
    assert!(tree.is_full());
    assert_eq!(tree.push_new_node(), None);
    assert_eq!(tree.len(), 2);
    assert!(tree.contains(NodePtr::new(false, 1)));
    assert!(!tree.contains(NodePtr::new(false, 2)));
    assert!(!tree.contains(NodePtr::new(true, 0)));
}

#[test]
fn flip_lays_the_tree_out_level_by_level() {
    let (mut tree, root) = searched(20000, 1500);
    let moves = root.map_legal_moves();
    let best = tree.get_best_child(tree.root_node()).unwrap();
    let mut next = root;
    next.make(moves[best]);
    assert!(tree.try_use_subtree(&next, &Some(root)));
    tree.flip(true);
    // the children of the nodes follow one another in the order of the nodes
    let mut expected_first = 1;
    let mut reached = vec![false; tree.len()];
    reached[0] = true;
    for i in 0..tree.len() {
        let node = tree.node(NodePtr::new(true, i as u32));
        assert!(reached[i]);
        if node.num_actions() > 0 {
            assert_eq!(node.actions(), NodePtr::new(true, expected_first as u32));
            for j in 0..node.num_actions() {
                reached[expected_first + j] = true;
            }
            expected_first += node.num_actions();
        }
    }
    assert_eq!(expected_first, tree.len());
    assert_eq!(tree.used(), tree.len());
}
