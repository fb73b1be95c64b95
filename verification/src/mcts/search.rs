use vstd::prelude::*;

use crate::ataxx::board::{Board, BoardModel};
use crate::ataxx::moves::Move;
use crate::ataxx::state::GameState;
use crate::mcts::playout::{
    children_kept, counted_descent, decided_stay, descended, dropped, lemma_descent_counted,
    lemma_descent_counts, lemma_descent_dropped, lemma_descent_grown, lemma_descent_start,
    lemma_descent_stepped, one_more_at_most, same_children, same_counts, same_moves, unfolded,
};
use crate::mcts::root::{
    child_moves_of, child_priors_of, lemma_priors_repriored, lemma_relabelled_root,
    lemma_repriored_twice, lemma_root_apart, relabelled_at, repriored, root_relabelled,
};
use crate::tree::arena::Tree;
use crate::tree::backup::{backed_up, counted, level_state, level_value};
use crate::tree::descent::{lemma_path_ascends, phase_of, Phase};
use crate::tree::expand::Expansion;
use crate::tree::hash::HashEntry;
use crate::tree::node::{NodeModel, NodePtr, QUANT};
use crate::tree::shape::{expanded, first_child, is_child_of, well_linked};

verus! {

/// How one iteration ended.
#[derive(Clone, Copy, PartialEq, Eq, Debug, Structural)]
pub enum Playout {
    /// It was counted; it came this many nodes deep.
    Done(usize),
    /// A node could not get its children for want of free slots. Nothing was
    /// counted.
    TreeFull,
    /// It could not be run or could not go on: the tree is empty, the root
    /// can count no more visits, or what was handed in for the tree to go by
    /// does not fit it. Nothing was counted.
    Stuck,
}

/// The first 255 of the moves, at most.
pub(crate) fn first_moves(moves: Vec<Move>) -> (r: Vec<Move>)
    ensures
        r@ == (if moves@.len() > 255 {
            moves@.subrange(0, 255)
        } else {
            moves@
        }),
{
    if moves.len() <= 255 {
        return moves;
    }
    let mut r: Vec<Move> = Vec::new();
    let mut i: usize = 0;
    while i < 255
        invariant
            i <= 255 < moves@.len(),
            r@ == moves@.subrange(0, i as int),
        decreases 255 - i,
    {
        r.push(moves[i]);
        i = i + 1;
        assert(r@ =~= moves@.subrange(0, i as int));
    }
    r
}

/// A value held between 0 and `QUANT`.
pub open spec fn held_in_unit(value: int) -> int {
    if value < 0 {
        0
    } else if value > QUANT {
        QUANT as int
    } else {
        value
    }
}

/// A value held between 0 and `QUANT`.
pub(crate) fn in_unit(value: i64) -> (r: i64)
    ensures
        r == held_in_unit(value as int),
        0 <= r <= QUANT,
{
    if value < 0 {
        0
    } else if value > QUANT {
        QUANT
    } else {
        value
    }
}

/// Whether an iteration can be started: the position at the root lies on the
/// board, no descent is under way, and the tree has a root that can count
/// another visit.
pub open spec fn can_start(tree: &Tree) -> bool {
    &&& tree.spec_root_position().on_board()
    &&& !tree.descending()
    &&& tree.allocated() > 0
    &&& tree.nodes()[0].visits < i32::MAX
}

/// The value that is counted at the end of a descent that stands in the tree
/// `at`, at the position `pos`: what is known of the position without an
/// evaluation, which is the utility of a decided position and else what the
/// cache holds for it; and without that the evaluation `value`, held between
/// 0 and `QUANT`.
pub open spec fn leaf_value_of(at: &Tree, pos: BoardModel, value: i64) -> int {
    match at.known_value(pos.game_state(), pos.hash()) {
        Some(v) => v as int,
        None => held_in_unit(value as int),
    }
}

/// What counting the descent that stands in the tree `at`, at the position
/// `pos`, makes of the tree. The descent has come to a node that is decided
/// or was never visited. Where the value of the position is not known
/// without, `eval` was asked for it and gave `value`, which is then stored in
/// the cache. The nodes are counted as `backed_up` says, with the value
/// `leaf_value_of`.
pub open spec fn counted_from<E>(
    at: &Tree,
    pos: &Board,
    value: i64,
    after: &Tree,
    eval: &E,
) -> bool where E: Fn(&Board) -> i64,
{
    let state = pos@.game_state();
    let hash = pos@.hash();
    &&& at.spec_phase() == Phase::Leaf
    &&& at.known_value(state, hash) is None ==> call_ensures(*eval, (pos,), value)
    &&& backed_up(
        at.nodes(),
        after.nodes(),
        at.spec_path(),
        at.leaf_state(state),
        leaf_value_of(at, pos@, value),
    )
    &&& after.cache().slots() == (if at.known_value(state, hash) is Some {
        at.cache().slots()
    } else {
        at.cache().slots().update(
            at.cache().slot_of(hash),
            Some(HashEntry { key: hash, value: held_in_unit(value as int) as u32 }),
        )
    })
}

/// Ends the descent at a node that is decided or was never visited by
/// counting it, with the value of `eval` where none is known without.
fn finish<E>(tree: &mut Tree, pos: &Board, eval: &E) -> (depth: usize) where E: Fn(&Board) -> i64
    requires
        old(tree).wf(),
        old(tree).spec_phase() == Phase::Leaf,
        forall|b: &Board| call_requires(*eval, (b,)),
    ensures
        final(tree).wf(),
        !final(tree).descending(),
        final(tree).spec_active() == old(tree).spec_active(),
        final(tree).capacity() == old(tree).capacity(),
        final(tree).allocated() == old(tree).allocated(),
        final(tree).spec_root_position() == old(tree).spec_root_position(),
        depth == old(tree).spec_path().len(),
        final(tree).nodes()[0].visits == old(tree).nodes()[0].visits + 1,
        decided_stay(old(tree).nodes(), final(tree).nodes(), old(tree).allocated()),
        exists|value: i64| #[trigger] counted_from(&*old(tree), pos, value, &*final(tree), eval),
{
    let state = pos.game_state();
    let hash = pos.hash();
    let ghost mut given: i64 = 0;
    let leaf = match tree.leaf_value(state, hash) {
        Some(v) => v,
        None => {
            let value = eval(pos);
            proof {
                given = value;
            }
            in_unit(value)
        },
    };
    let depth = tree.depth();
    let ghost path = tree.spec_path();
    tree.backup(state, hash, leaf);
    proof {
        assert(path[0] == 0);
        assert(tree.nodes()[path[0]].visits == old(tree).nodes()[path[0]].visits + 1);
        assert(counted_from(&*old(tree), pos, given, &*tree, eval));
    }
    depth
}

/// Whether the descent stands at the root.
pub open spec fn at_root_of(tree: &Tree) -> bool {
    tree.spec_path().len() == 1
}

/// The moves of a position that are handed to `policy`: its legal moves, the
/// first 255 of them at most.
pub open spec fn offered_moves(pos: BoardModel) -> Seq<Move> {
    if pos.legal_moves().len() > 255 {
        pos.legal_moves().subrange(0, 255)
    } else {
        pos.legal_moves()
    }
}

/// What becomes of a tree whose descent has come to a visited, ongoing node
/// without children when that node is to get a child for each of `moves`,
/// with the priors `priors` and the diversity measure `gini`. It is refused
/// when there are no moves or not as many priors as moves; the tree is full
/// when the moves are more than the free slots; else the node has the
/// children, in the next free slots. Unless it is done, the nodes are as they
/// were.
#[verifier::opaque]
pub open spec fn grown(
    before: &Tree,
    after: &Tree,
    r: Expansion,
    moves: Seq<Move>,
    priors: Seq<u16>,
    gini: u32,
) -> bool {
    let refused = moves.len() == 0 || moves.len() > 255 || moves.len() != priors.len();
    &&& r == Expansion::Refused <==> refused
    &&& r == Expansion::TreeFull <==> !refused && before.spec_used() + moves.len()
        > before.capacity()
    &&& r == Expansion::Done ==> after.nodes() == expanded(
        before.nodes(),
        before.spec_active(),
        before.allocated(),
        before.cursor_slot(),
        moves,
        priors,
        gini,
    ) && after.allocated() == before.allocated() + moves.len()
    &&& r != Expansion::Done ==> after.nodes() == before.nodes() && after.allocated()
        == before.allocated()
}

/// Gives the node that the descent has come to its children: one for each
/// legal move of the position, 255 at most, with the priors of `policy`.
/// `policy` is asked once, for the position and those moves, and is told
/// whether the node is the root; what it gives is handed on as it is.
fn grow<P>(tree: &mut Tree, pos: &Board, policy: &P) -> (r: Expansion) where
    P: Fn(&Board, &Vec<Move>, bool) -> (Vec<u16>, u32),

    requires
        old(tree).wf(),
        old(tree).spec_phase() == Phase::Expand,
        pos@.on_board(),
        forall|b: &Board, m: &Vec<Move>, root: bool| call_requires(*policy, (b, m, root)),
    ensures
        final(tree).wf(),
        final(tree).spec_active() == old(tree).spec_active(),
        final(tree).capacity() == old(tree).capacity(),
        final(tree).spec_path() == old(tree).spec_path(),
        final(tree).spec_root_position() == old(tree).spec_root_position(),
        final(tree).allocated() >= old(tree).allocated(),
        final(tree).cache() == old(tree).cache(),
        unfolded(
            old(tree).nodes(),
            final(tree).nodes(),
            old(tree).allocated(),
            final(tree).allocated(),
            old(tree).cursor_slot(),
            offered_moves(pos@),
        ),
        r == Expansion::Done ==> final(tree).spec_phase() == Phase::Select,
        r == Expansion::Done ==> final(tree).allocated() > old(tree).allocated(),
        r == Expansion::Done ==> sprouted(&*old(tree), pos, final(tree).nodes(), policy),
        r != Expansion::Done ==> final(tree).nodes() == old(tree).nodes(),
        exists|moves: Vec<Move>, out: (Vec<u16>, u32)|
            {
                &&& moves@ == offered_moves(pos@)
                &&& #[trigger] call_ensures(
                    *policy,
                    (pos, &moves, at_root_of(&*old(tree))),
                    out,
                )
                &&& grown(&*old(tree), &*final(tree), r, moves@, out.0@, out.1)
            },
{
    let moves = first_moves(pos.map_legal_moves());
    let at_root = tree.depth() == 1;
    let out = policy(pos, &moves, at_root);
    proof {
        tree.lemma_capacity();
        assert(0 <= tree.spec_path()[tree.spec_path().len() - 1] < tree.allocated());
        NodePtr::lemma_at(tree.spec_active(), tree.cursor_slot());
    }
    let r = match tree.cursor() {
        Some(cur) => tree.expand_node(cur, &moves, &out.0, out.1),
        None => Expansion::Refused,
    };
    proof {
        reveal(grown);
        NodePtr::lemma_at(tree.spec_active(), old(tree).allocated());
        assert(at_root == at_root_of(&*old(tree)));
        assert(call_ensures(*policy, (pos, &moves, at_root_of(&*old(tree))), out));
        assert(grown(&*old(tree), &*tree, r, moves@, out.0@, out.1));
        if r == Expansion::Done {
            let at = old(tree).cursor_slot();
            assert(child_moves_of(tree.nodes(), at) =~= moves@);
            assert(child_priors_of(tree.nodes(), at) =~= out.0@);
        }
    }
    r
}

/// What becomes of a tree whose descent has come to a node with children,
/// and of the position that stands there, when the descent is to go on to
/// the child with the number `action`. It goes there if there is such a child
/// and the move to it can be played on the position: the child is the next
/// slot of the descent and counts a thread, and the move is played. Else
/// nothing is changed.
#[verifier::opaque]
pub open spec fn stepped_to(
    before: &Tree,
    after: &Tree,
    pos_before: BoardModel,
    pos_after: BoardModel,
    action: usize,
    stepped: bool,
) -> bool {
    let at = before.cursor_slot();
    let c = first_child(before.nodes(), at) + action;
    let mov = before.nodes()[c].mov;
    if action < before.nodes()[at].num_actions && pos_before.can_play(mov) {
        &&& stepped
        &&& after.spec_path() == before.spec_path().push(c)
        &&& after.nodes() == before.nodes().update(
            c,
            NodeModel { threads: 1, ..before.nodes()[c] },
        )
        &&& pos_after == pos_before.made(mov)
    } else {
        &&& !stepped
        &&& after.spec_path() == before.spec_path()
        &&& after.nodes() == before.nodes()
        &&& pos_after == pos_before
    }
}

/// Steps from the node that the descent has come to down to the child that
/// `select` names, and plays the move to it on the position. `select` is
/// asked once, for the tree as it is and the node. Returns whether the step
/// was made; if not, nothing is changed.
fn step<S>(tree: &mut Tree, pos: &mut Board, select: &S) -> (stepped: bool) where
    S: Fn(&Tree, NodePtr) -> usize,

    requires
        old(tree).wf(),
        old(tree).spec_phase() == Phase::Select,
        old(pos)@.on_board(),
        forall|t: &Tree, p: NodePtr| t.wf() && t.holds(p) ==> call_requires(*select, (t, p)),
    ensures
        final(tree).wf(),
        final(tree).descending(),
        final(pos)@.on_board(),
        final(tree).spec_active() == old(tree).spec_active(),
        final(tree).capacity() == old(tree).capacity(),
        final(tree).allocated() == old(tree).allocated(),
        final(tree).spec_root_position() == old(tree).spec_root_position(),
        final(tree).cache() == old(tree).cache(),
        final(tree).spec_used() == old(tree).spec_used(),
        stepped ==> {
            let c = final(tree).cursor_slot();
            &&& old(tree).cursor_slot() < c < old(tree).allocated()
            &&& is_child_of(old(tree).nodes(), old(tree).cursor_slot(), c)
            &&& final(tree).spec_path() == old(tree).spec_path().push(c)
            &&& final(tree).nodes() == old(tree).nodes().update(
                c,
                NodeModel { threads: 1, ..old(tree).nodes()[c] },
            )
            &&& final(pos)@ == old(pos)@.made(old(tree).nodes()[c].mov)
        },
        !stepped ==> final(tree).spec_path() == old(tree).spec_path() && final(tree).nodes()
            == old(tree).nodes() && *final(pos) == *old(pos),
        exists|action: usize|
            {
                &&& #[trigger] call_ensures(
                    *select,
                    (&*old(tree), NodePtr::at(old(tree).spec_active(), old(tree).cursor_slot())),
                    action,
                )
                &&& stepped_to(
                    &*old(tree),
                    &*final(tree),
                    old(pos)@,
                    final(pos)@,
                    action,
                    stepped,
                )
            },
{
    proof {
        tree.lemma_capacity();
        assert(0 <= tree.spec_path()[tree.spec_path().len() - 1] < tree.allocated());
    }
    let cur = match tree.cursor() {
        Some(cur) => cur,
        None => {
            proof {
                assert(false);
            }
            return false;
        },
    };
    let action = select(&*tree, cur);
    proof {
        reveal(stepped_to);
        assert(call_ensures(
            *select,
            (&*old(tree), NodePtr::at(old(tree).spec_active(), old(tree).cursor_slot())),
            action,
        ));
    }
    let node = tree.node(cur);
    proof {
        NodePtr::lemma_at(tree.spec_active(), tree.cursor_slot());
    }
    if action >= node.num_actions() {
        return false;
    }
    proof {
        assert(tree.nodes()[tree.cursor_slot()].num_actions > 0);
        tree.lemma_children_in_active_half(tree.cursor_slot());
        NodePtr::lemma_at(
            tree.spec_active(),
            first_child(tree.nodes(), tree.cursor_slot()) + action,
        );
    }
    let mov = tree.node(node.actions() + action).parent_move();
    if !pos.can_play(mov) {
        return false;
    }
    match tree.descend(action) {
        Some(_) => {
            proof {
                Board::lemma_made_on_board(pos@, mov);
            }
            pos.make(mov);
            true
        },
        None => false,
    }
}

/// Whether the node that the descent in the tree `at` has come to has,
/// among the nodes `after`, the children that `policy` says: `policy` was
/// asked for the position `pos` and its moves, and whether the node is the
/// root, and gave a prior for each; the node has a child for each move with
/// its prior, in their order, and keeps the diversity measure that came with
/// them.
pub open spec fn sprouted<P>(
    at: &Tree,
    pos: &Board,
    after: Seq<NodeModel>,
    policy: &P,
) -> bool where P: Fn(&Board, &Vec<Move>, bool) -> (Vec<u16>, u32),
{
    exists|moves: Vec<Move>, out: (Vec<u16>, u32)|
        {
            &&& moves@ == offered_moves(pos@)
            &&& #[trigger] call_ensures(*policy, (pos, &moves, at_root_of(at)), out)
            &&& child_moves_of(after, at.cursor_slot()) == moves@
            &&& child_priors_of(after, at.cursor_slot()) == out.0@
            &&& after[at.cursor_slot()].gini_impurity == out.1
        }
}

/// Whether node `b` has the children, the move and the prior of node `a`.
pub open spec fn same_stem(a: NodeModel, b: NodeModel) -> bool {
    &&& same_children(a, b)
    &&& a.mov == b.mov
    &&& a.policy == b.policy
}

/// Whether every node has the children, the move and the prior that it had.
pub open spec fn same_stems(before: Seq<NodeModel>, after: Seq<NodeModel>) -> bool {
    &&& after.len() == before.len()
    &&& forall|i: int| 0 <= i < before.len() ==> same_stem(before[i], #[trigger] after[i])
}

/// A step down changes the children, the move and the prior of no node.
proof fn lemma_stems_stepped(before: Seq<NodeModel>, c: int)
    requires
        0 <= c < before.len(),
    ensures
        same_stems(before, before.update(c, NodeModel { threads: 1, ..before[c] })),
{
    let after = before.update(c, NodeModel { threads: 1, ..before[c] });
    assert forall|i: int| 0 <= i < before.len() implies same_stem(before[i], #[trigger] after[i]) by {
        if i != c {
            assert(after[i] == before[i]);
        }
    }
}

/// Dropping a descent changes the children, the move and the prior of no
/// node.
proof fn lemma_stems_dropped(mid: Seq<NodeModel>, path: Seq<int>, after: Seq<NodeModel>)
    requires
        dropped(mid, path, after),
    ensures
        same_stems(mid, after),
{
    assert forall|i: int| 0 <= i < mid.len() implies same_stem(mid[i], #[trigger] after[i]) by {
        if path.contains(i) {
            assert(after[i] == NodeModel { threads: 0, ..mid[i] });
        }
    }
}

/// Counting a descent changes the children, the move and the prior of no
/// node.
proof fn lemma_stems_counted(
    mid: Seq<NodeModel>,
    after: Seq<NodeModel>,
    path: Seq<int>,
    leaf_state: GameState,
    leaf: int,
)
    requires
        backed_up(mid, after, path, leaf_state, leaf),
    ensures
        same_stems(mid, after),
{
    assert forall|i: int| 0 <= i < mid.len() implies same_stem(mid[i], #[trigger] after[i]) by {
        if path.contains(i) {
            let e = choose|e: int| 0 <= e < path.len() && path[e] == i;
            assert(after[path[e]] == counted(
                mid[path[e]],
                level_value(path.len() as int, e, leaf),
                level_state(mid, after, path, e, leaf_state),
            ));
        } else {
            assert(after[i] == mid[i]);
        }
    }
}

/// A node keeps the children that `policy` says while every node keeps its
/// children, its move and its prior.
proof fn lemma_sprouted_kept<P>(
    at: &Tree,
    pos: &Board,
    before: Seq<NodeModel>,
    n: int,
    half: bool,
    after: Seq<NodeModel>,
    policy: &P,
) where P: Fn(&Board, &Vec<Move>, bool) -> (Vec<u16>, u32)
    requires
        sprouted(at, pos, before, policy),
        well_linked(before, half, n),
        0 <= at.cursor_slot() < n <= before.len(),
        same_stems(before, after),
    ensures
        sprouted(at, pos, after, policy),
{
    let p = at.cursor_slot();
    let (moves, out) = choose|moves: Vec<Move>, out: (Vec<u16>, u32)|
        {
            &&& moves@ == offered_moves(pos@)
            &&& #[trigger] call_ensures(*policy, (pos, &moves, at_root_of(at)), out)
            &&& child_moves_of(before, p) == moves@
            &&& child_priors_of(before, p) == out.0@
            &&& before[p].gini_impurity == out.1
        };
    assert(same_stem(before[p], after[p]));
    assert forall|j: int| 0 <= j < before[p].num_actions implies #[trigger] child_moves_of(
        after,
        p,
    )[j] == child_moves_of(before, p)[j] by {
        assert(same_stem(before[first_child(before, p) + j], after[first_child(before, p) + j]));
    }
    assert forall|j: int| 0 <= j < before[p].num_actions implies #[trigger] child_priors_of(
        after,
        p,
    )[j] == child_priors_of(before, p)[j] by {
        assert(same_stem(before[first_child(before, p) + j], after[first_child(before, p) + j]));
    }
    assert(child_moves_of(after, p) =~= child_moves_of(before, p));
    assert(child_priors_of(after, p) =~= child_priors_of(before, p));
    assert(call_ensures(*policy, (pos, &moves, at_root_of(at)), out));
}

/// Whether the descent that had come down `prefix` went on to the node in
/// slot `next` because `select` named it: in the tree that the descent had
/// made, `select` was asked for the tree and the node at the end of `prefix`,
/// and gave the number of a child of that node, the one in slot `next`, to
/// which the move could be played.
pub open spec fn chose<S>(
    start: Seq<NodeModel>,
    n0: int,
    root: BoardModel,
    prefix: Seq<int>,
    next: int,
    select: &S,
) -> bool where S: Fn(&Tree, NodePtr) -> usize,
{
    exists|t: Tree, pos: Board, action: usize|
        {
            &&& t.wf()
            &&& t.spec_phase() == Phase::Select
            &&& t.spec_path() == prefix
            &&& #[trigger] descended(start, n0, root, t.nodes(), t.allocated(), t.spec_path(), pos@)
            &&& #[trigger] call_ensures(
                *select,
                (&t, NodePtr::at(t.spec_active(), t.cursor_slot())),
                action,
            )
            &&& action < t.nodes()[t.cursor_slot()].num_actions
            &&& next == first_child(t.nodes(), t.cursor_slot()) + action
            &&& pos@.can_play(t.nodes()[next].mov)
        }
}

/// Whether the descent `path` went on from its level `e` to the next because
/// `select` named the node there.
pub open spec fn chose_at<S>(
    start: Seq<NodeModel>,
    n0: int,
    root: BoardModel,
    path: Seq<int>,
    e: int,
    select: &S,
) -> bool where S: Fn(&Tree, NodePtr) -> usize,
{
    chose(start, n0, root, path.take(e + 1), path[e + 1], select)
}

/// Whether every step of the descent `path` went to the child that `select`
/// named.
#[verifier::opaque]
pub open spec fn chose_all<S>(
    start: Seq<NodeModel>,
    n0: int,
    root: BoardModel,
    path: Seq<int>,
    select: &S,
) -> bool where S: Fn(&Tree, NodePtr) -> usize,
{
    forall|e: int| 0 <= e < path.len() - 1 ==> #[trigger] chose_at(start, n0, root, path, e, select)
}

/// A descent that stands at the root has made no step.
proof fn lemma_chose_start<S>(start: Seq<NodeModel>, n0: int, root: BoardModel, select: &S) where
    S: Fn(&Tree, NodePtr) -> usize,

    ensures
        chose_all(start, n0, root, seq![0int], select),
{
    reveal(chose_all);
}

/// A step to the child that `select` named keeps every step of the descent
/// one that `select` named.
proof fn lemma_chose_pushed<S>(
    start: Seq<NodeModel>,
    n0: int,
    root: BoardModel,
    at: &Tree,
    pos: &Board,
    action: usize,
    select: &S,
) where S: Fn(&Tree, NodePtr) -> usize
    requires
        chose_all(start, n0, root, at.spec_path(), select),
        at.wf(),
        at.spec_phase() == Phase::Select,
        descended(start, n0, root, at.nodes(), at.allocated(), at.spec_path(), pos@),
        call_ensures(*select, (at, NodePtr::at(at.spec_active(), at.cursor_slot())), action),
        action < at.nodes()[at.cursor_slot()].num_actions,
        pos@.can_play(at.nodes()[first_child(at.nodes(), at.cursor_slot()) + action].mov),
    ensures
        chose_all(
            start,
            n0,
            root,
            at.spec_path().push(first_child(at.nodes(), at.cursor_slot()) + action),
            select,
        ),
{
    reveal(chose_all);
    let path = at.spec_path();
    let c = first_child(at.nodes(), at.cursor_slot()) + action;
    let longer = path.push(c);
    assert forall|e: int| 0 <= e < longer.len() - 1 implies #[trigger] chose_at(
        start,
        n0,
        root,
        longer,
        e,
        select,
    ) by {
        if e < path.len() - 1 {
            assert(chose_at(start, n0, root, path, e, select));
            assert(longer.take(e + 1) =~= path.take(e + 1));
            assert(longer[e + 1] == path[e + 1]);
        } else {
            assert(longer.take(e + 1) =~= path);
            assert(longer[e + 1] == c);
            assert(descended(start, n0, root, at.nodes(), at.allocated(), at.spec_path(), pos@));
            assert(chose(start, n0, root, path, c, select));
        }
    }
}

/// Why a descent that stands in the tree `at`, at the position `pos`, is
/// given up with the outcome `r`. At a node that is to get its children,
/// `policy` was asked for the position and its moves: without a move, or with
/// other than one prior for each, the descent is stuck, and else the moves
/// found no room in the tree. At a node with children, `select` was asked for
/// the tree and the node, and named no child or one to which the move cannot
/// be played: the descent is stuck.
pub open spec fn halted<P, S>(
    at: &Tree,
    pos: &Board,
    r: Playout,
    policy: &P,
    select: &S,
) -> bool where
    P: Fn(&Board, &Vec<Move>, bool) -> (Vec<u16>, u32),
    S: Fn(&Tree, NodePtr) -> usize,
{
    match at.spec_phase() {
        Phase::Expand => exists|moves: Vec<Move>, out: (Vec<u16>, u32)|
            {
                &&& moves@ == offered_moves(pos@)
                &&& #[trigger] call_ensures(*policy, (pos, &moves, at_root_of(at)), out)
                &&& if moves@.len() == 0 || moves@.len() != out.0@.len() {
                    r == Playout::Stuck
                } else {
                    r == Playout::TreeFull && at.spec_used() + moves@.len() > at.capacity()
                }
            },
        Phase::Select => exists|action: usize|
            {
                &&& #[trigger] call_ensures(
                    *select,
                    (at, NodePtr::at(at.spec_active(), at.cursor_slot())),
                    action,
                )
                &&& r == Playout::Stuck
                &&& !(action < at.nodes()[at.cursor_slot()].num_actions && pos@.can_play(
                    at.nodes()[first_child(at.nodes(), at.cursor_slot()) + action].mov,
                ))
            },
        _ => false,
    }
}

/// Runs one iteration on the tree: a descent from the root by the choices of
/// `select` to a node that is decided or was never visited, on the way giving
/// children to a node that has none with the priors of `policy`, and the
/// count of the value there, which is that of `eval` where it is not known
/// without.
///
/// `eval` gives the value of a position for the side to move, times `QUANT`;
/// what it gives is held between 0 and `QUANT`. `policy` gives a prior for
/// each of the moves of a position, as a fraction of 65535, and the bits of
/// the diversity measure; it is told whether the position is the root.
/// `select` gives the number of the child to go to. A descent that cannot go
/// on, because a node cannot get its children or `select` names none that
/// can be gone to, is given up, for the reason that `halted` states: then
/// every node gives back its thread, and no node has other visits, sums or
/// states than it had.
///
/// Every step of the descent goes to the child that `select` named
/// (`chose_all`). A counted iteration is a `counted_descent`: every node on
/// the way down counts one visit more and no other node any, and the descent
/// has ended at the first node that was decided or never visited, with the
/// value that `counted_from` states. One node at most was given children on
/// the way: a child for each move of the position there, with the priors of
/// `policy`, as `sprouted` states. Whatever the outcome, a node keeps its
/// children unless it was visited, ongoing and had none, so a decided node
/// without children stays without.
pub fn iterate<E, P, S>(tree: &mut Tree, eval: &E, policy: &P, select: &S) -> (r: Playout) where
    E: Fn(&Board) -> i64,
    P: Fn(&Board, &Vec<Move>, bool) -> (Vec<u16>, u32),
    S: Fn(&Tree, NodePtr) -> usize,

    requires
        old(tree).wf(),
        forall|b: &Board| call_requires(*eval, (b,)),
        forall|b: &Board, m: &Vec<Move>, root: bool| call_requires(*policy, (b, m, root)),
        forall|t: &Tree, p: NodePtr| t.wf() && t.holds(p) ==> call_requires(*select, (t, p)),
    ensures
        final(tree).wf(),
        final(tree).descending() == (old(tree).descending()),
        final(tree).spec_active() == old(tree).spec_active(),
        final(tree).capacity() == old(tree).capacity(),
        final(tree).spec_root_position() == old(tree).spec_root_position(),
        final(tree).allocated() >= old(tree).allocated(),
        r matches Playout::Done(depth) ==> depth >= 1 && can_start(old(tree))
            && final(tree).nodes()[0].visits == old(tree).nodes()[0].visits + 1,
        !(r matches Playout::Done(_)) && old(tree).allocated() > 0 ==> final(tree).nodes()[0].visits
            == old(tree).nodes()[0].visits,
        !can_start(old(tree)) ==> r == Playout::Stuck && final(tree).nodes() == old(tree).nodes()
            && final(tree).spec_path() == old(tree).spec_path(),
        can_start(old(tree)) && phase_of(old(tree).nodes()[0]) == Phase::Leaf ==> r
            == Playout::Done(1),
        decided_stay(old(tree).nodes(), final(tree).nodes(), old(tree).allocated()),
        children_kept(old(tree).nodes(), final(tree).nodes(), old(tree).allocated()),
        one_more_at_most(old(tree).nodes(), final(tree).nodes(), old(tree).allocated()),
        same_moves(old(tree).nodes(), final(tree).nodes(), old(tree).allocated()),
        forall|i: int|
            0 <= i < old(tree).allocated() && old(tree).nodes()[i].state.is_terminal()
                ==> (#[trigger] final(tree).nodes()[i]).num_actions
                == old(tree).nodes()[i].num_actions,
        !(r matches Playout::Done(_)) ==> same_counts(
            old(tree).nodes(),
            final(tree).nodes(),
            old(tree).allocated(),
        ),
        !(r matches Playout::Done(_)) && can_start(old(tree)) ==> exists|at: Tree, pos: Board|
            {
                &&& at.wf()
                &&& at.descending()
                &&& #[trigger] descended(
                    old(tree).nodes(),
                    old(tree).allocated(),
                    old(tree).spec_root_position(),
                    at.nodes(),
                    at.allocated(),
                    at.spec_path(),
                    pos@,
                )
                &&& chose_all(
                    old(tree).nodes(),
                    old(tree).allocated(),
                    old(tree).spec_root_position(),
                    at.spec_path(),
                    select,
                )
                &&& halted(&at, &pos, r, policy, select)
                &&& dropped(at.nodes(), at.spec_path(), final(tree).nodes())
                &&& final(tree).allocated() == at.allocated()
                &&& at.spec_active() == old(tree).spec_active()
                &&& at.capacity() == old(tree).capacity()
                &&& at.spec_root_position() == old(tree).spec_root_position()
                &&& r == Playout::TreeFull ==> at.allocated() == old(tree).allocated()
                    && at.spec_used() == old(tree).spec_used()
            },
        final(tree).allocated() > old(tree).allocated() ==> exists|at: Tree, pos: Board|
            {
                &&& at.wf()
                &&& at.spec_phase() == Phase::Expand
                &&& at.allocated() == old(tree).allocated()
                &&& #[trigger] descended(
                    old(tree).nodes(),
                    old(tree).allocated(),
                    old(tree).spec_root_position(),
                    at.nodes(),
                    at.allocated(),
                    at.spec_path(),
                    pos@,
                )
                &&& sprouted(&at, &pos, final(tree).nodes(), policy)
            },
        !(r matches Playout::Done(_)) ==> final(tree).cache() == old(tree).cache(),
        r matches Playout::Done(_) ==> exists|at: Tree, pos: Board, value: i64|
            {
                &&& at.wf()
                &&& at.cache() == old(tree).cache()
                &&& final(tree).allocated() == at.allocated()
                &&& #[trigger] descended(
                    old(tree).nodes(),
                    old(tree).allocated(),
                    old(tree).spec_root_position(),
                    at.nodes(),
                    at.allocated(),
                    at.spec_path(),
                    pos@,
                )
                &&& chose_all(
                    old(tree).nodes(),
                    old(tree).allocated(),
                    old(tree).spec_root_position(),
                    at.spec_path(),
                    select,
                )
                &&& #[trigger] counted_from(&at, &pos, value, &*final(tree), eval)
            },
        r matches Playout::Done(depth) ==> exists|
            mid: Seq<NodeModel>,
            path: Seq<int>,
            leaf_state: GameState,
            leaf: int,
        |
            {
                &&& path.len() == depth
                &&& #[trigger] counted_descent(
                    old(tree).nodes(),
                    old(tree).allocated(),
                    old(tree).spec_root_position(),
                    final(tree).nodes(),
                    final(tree).allocated(),
                    mid,
                    path,
                    leaf_state,
                    leaf,
                )
            },
{
    let mut pos = *tree.root_position();
    let ghost root = tree.spec_root_position();
    proof {
        tree.lemma_capacity();
        lemma_unchanged(tree.nodes(), tree.allocated());
    }
    if !pos.is_on_board() {
        return Playout::Stuck;
    }
    if !tree.begin_iteration() {
        return Playout::Stuck;
    }
    let ghost start = tree.nodes();
    let ghost n0 = tree.allocated();
    proof {
        lemma_descent_start(start, n0, root);
    }
    let ghost mut seed = *tree;
    let ghost mut seed_pos = pos;
    proof {
        lemma_chose_start(start, n0, root, select);
    }
    loop
        invariant
            tree.wf(),
            tree.descending(),
            pos@.on_board(),
            can_start(old(tree)),
            tree.spec_active() == old(tree).spec_active(),
            tree.capacity() == old(tree).capacity(),
            tree.spec_root_position() == old(tree).spec_root_position(),
            root == old(tree).spec_root_position(),
            tree.allocated() >= n0 == old(tree).allocated(),
            start == old(tree).nodes(),
            descended(start, n0, root, tree.nodes(), tree.allocated(), tree.spec_path(), pos@),
            tree.cache() == old(tree).cache(),
            tree.allocated() == n0 ==> tree.spec_used() == old(tree).spec_used(),
            chose_all(start, n0, root, tree.spec_path(), select),
            tree.allocated() > n0 ==> {
                &&& seed.wf()
                &&& seed.spec_phase() == Phase::Expand
                &&& seed.allocated() == n0
                &&& 0 <= seed.cursor_slot() < n0
                &&& descended(
                    start,
                    n0,
                    root,
                    seed.nodes(),
                    seed.allocated(),
                    seed.spec_path(),
                    seed_pos@,
                )
                &&& sprouted(&seed, &seed_pos, tree.nodes(), policy)
            },
            tree.spec_path().len() == 1 || phase_of(start[0]) != Phase::Leaf,
            forall|b: &Board| call_requires(*eval, (b,)),
            forall|b: &Board, m: &Vec<Move>, root: bool| call_requires(*policy, (b, m, root)),
            forall|t: &Tree, p: NodePtr| t.wf() && t.holds(p) ==> call_requires(*select, (t, p)),
        decreases
                tree.capacity() - tree.cursor_slot(),
                (if tree.spec_phase() == Phase::Expand {
                    1int
                } else {
                    0int
                }),
    {
        proof {
            tree.lemma_capacity();
            assert(0 <= tree.spec_path()[tree.spec_path().len() - 1] < tree.allocated());
            lemma_descent_counts(
                start,
                n0,
                root,
                tree.nodes(),
                tree.allocated(),
                tree.spec_path(),
                pos@,
            );
        }
        let ghost before = tree.nodes();
        let ghost nb = tree.allocated();
        let ghost path = tree.spec_path();
        match tree.phase() {
            Phase::Idle => {
                proof {
                    assert(false);
                }
                return Playout::Stuck;
            },
            Phase::Leaf => {
                let ghost at = *tree;
                let depth = finish(tree, &pos, eval);
                proof {
                    let state = if before[path.last()].visits == 0 {
                        pos@.game_state()
                    } else {
                        before[path.last()].state
                    };
                    let value = choose|value: i64| #[trigger]
                        counted_from(&at, &pos, value, &*tree, eval);
                    let leaf = leaf_value_of(&at, pos@, value);
                    assert(counted_from(&at, &pos, value, &*tree, eval));
                    assert(descended(
                        start,
                        n0,
                        root,
                        at.nodes(),
                        at.allocated(),
                        at.spec_path(),
                        pos@,
                    ));
                    lemma_descent_counted(
                        start,
                        n0,
                        root,
                        before,
                        nb,
                        path,
                        pos@,
                        tree.nodes(),
                        state,
                        leaf,
                    );
                    lemma_counts_then_decided(start, before, tree.nodes(), n0);
                    lemma_closed(start, tree.nodes(), n0);
                    if nb > n0 {
                        lemma_stems_counted(
                            before,
                            tree.nodes(),
                            path,
                            at.leaf_state(pos@.game_state()),
                            leaf,
                        );
                        lemma_sprouted_kept(
                            &seed,
                            &seed_pos,
                            before,
                            nb,
                            at.spec_active(),
                            tree.nodes(),
                            policy,
                        );
                        assert(descended(
                            start,
                            n0,
                            root,
                            seed.nodes(),
                            seed.allocated(),
                            seed.spec_path(),
                            seed_pos@,
                        ));
                    }
                    assert(counted_descent(
                        start,
                        n0,
                        root,
                        tree.nodes(),
                        tree.allocated(),
                        before,
                        path,
                        state,
                        leaf,
                    ));
                }
                return Playout::Done(depth);
            },
            Phase::Expand => {
                assert(phase_of(start[0]) != Phase::Leaf) by {
                    if tree.spec_path().len() == 1 {
                        assert(tree.spec_path()[0] == 0);
                        assert(before[0].visits == start[0].visits);
                    }
                }
                let ghost at = *tree;
                let grew = grow(tree, &pos, policy);
                proof {
                    if grew != Expansion::Done {
                        let (moves, out) = choose|moves: Vec<Move>, out: (Vec<u16>, u32)|
                            {
                                &&& moves@ == offered_moves(pos@)
                                &&& #[trigger] call_ensures(
                                    *policy,
                                    (&pos, &moves, at_root_of(&at)),
                                    out,
                                )
                                &&& grown(&at, &*tree, grew, moves@, out.0@, out.1)
                            };
                        reveal(grown);
                        assert(call_ensures(*policy, (&pos, &moves, at_root_of(&at)), out));
                        assert(halted(
                            &at,
                            &pos,
                            if grew == Expansion::TreeFull {
                                Playout::TreeFull
                            } else {
                                Playout::Stuck
                            },
                            policy,
                            select,
                        ));
                    }
                    lemma_descent_grown(
                        start,
                        n0,
                        root,
                        before,
                        nb,
                        tree.nodes(),
                        tree.allocated(),
                        path,
                        pos@,
                        tree.spec_active(),
                    );
                }
                match grew {
                    Expansion::Done => {
                        proof {
                            seed = at;
                            seed_pos = pos;
                        }
                    },
                    Expansion::TreeFull => {
                        let ghost mid = tree.nodes();
                        tree.abandon();
                        proof {
                            assert(descended(
                                start,
                                n0,
                                root,
                                at.nodes(),
                                at.allocated(),
                                at.spec_path(),
                                pos@,
                            ));
                            assert(dropped(at.nodes(), at.spec_path(), tree.nodes()));
                            lemma_descent_dropped(
                                start,
                                n0,
                                root,
                                mid,
                                nb,
                                path,
                                pos@,
                                tree.nodes(),
                            );
                            lemma_closed(start, tree.nodes(), n0);
                        }
                        return Playout::TreeFull;
                    },
                    Expansion::Refused => {
                        let ghost mid = tree.nodes();
                        tree.abandon();
                        proof {
                            assert(descended(
                                start,
                                n0,
                                root,
                                at.nodes(),
                                at.allocated(),
                                at.spec_path(),
                                pos@,
                            ));
                            assert(dropped(at.nodes(), at.spec_path(), tree.nodes()));
                            lemma_descent_dropped(
                                start,
                                n0,
                                root,
                                mid,
                                nb,
                                path,
                                pos@,
                                tree.nodes(),
                            );
                            lemma_closed(start, tree.nodes(), n0);
                        }
                        return Playout::Stuck;
                    },
                }
            },
            Phase::Select => {
                assert(phase_of(start[0]) != Phase::Leaf) by {
                    if tree.spec_path().len() == 1 {
                        assert(tree.spec_path()[0] == 0);
                        assert(before[0].visits == start[0].visits);
                    }
                }
                let ghost was = pos@;
                let ghost at = *tree;
                let ghost stood = pos;
                let stepped = step(tree, &mut pos, select);
                let ghost action = choose|action: usize|
                    {
                        &&& #[trigger] call_ensures(
                            *select,
                            (&at, NodePtr::at(at.spec_active(), at.cursor_slot())),
                            action,
                        )
                        &&& stepped_to(&at, &*tree, was, pos@, action, stepped)
                    };
                proof {
                    reveal(stepped_to);
                    assert(call_ensures(
                        *select,
                        (&at, NodePtr::at(at.spec_active(), at.cursor_slot())),
                        action,
                    ));
                }
                if !stepped {
                    proof {
                        assert(halted(&at, &stood, Playout::Stuck, policy, select));
                    }
                    tree.abandon();
                    proof {
                        assert(descended(
                            start,
                            n0,
                            root,
                            at.nodes(),
                            at.allocated(),
                            at.spec_path(),
                            stood@,
                        ));
                        assert(dropped(at.nodes(), at.spec_path(), tree.nodes()));
                        lemma_descent_dropped(
                            start,
                            n0,
                            root,
                            before,
                            nb,
                            path,
                            was,
                            tree.nodes(),
                        );
                        lemma_closed(start, tree.nodes(), n0);
                        if nb > n0 {
                            lemma_stems_dropped(before, path, tree.nodes());
                            lemma_sprouted_kept(
                                &seed,
                                &seed_pos,
                                before,
                                nb,
                                at.spec_active(),
                                tree.nodes(),
                                policy,
                            );
                            assert(descended(
                                start,
                                n0,
                                root,
                                seed.nodes(),
                                seed.allocated(),
                                seed.spec_path(),
                                seed_pos@,
                            ));
                        }
                    }
                    return Playout::Stuck;
                }
                proof {
                    assert forall|e: int| 0 <= e < path.len() implies 0 <= #[trigger] path[e]
                        <= path.last() by {
                        assert(0 <= path[e] < nb);
                        if e < path.len() - 1 {
                            lemma_path_ascends(
                                before,
                                tree.spec_active(),
                                nb,
                                path,
                                e,
                                path.len() - 1,
                            );
                        }
                    }
                    lemma_descent_stepped(
                        start,
                        n0,
                        root,
                        before,
                        nb,
                        tree.nodes(),
                        path,
                        was,
                        tree.cursor_slot(),
                    );
                    lemma_chose_pushed(start, n0, root, &at, &stood, action, select);
                    if nb > n0 {
                        lemma_stems_stepped(before, tree.cursor_slot());
                        lemma_sprouted_kept(
                            &seed,
                            &seed_pos,
                            before,
                            nb,
                            at.spec_active(),
                            tree.nodes(),
                            policy,
                        );
                    }
                }
            },
        }
    }
}

/// Nodes that are what they were have the counts and the children that they
/// had.
proof fn lemma_unchanged(nodes: Seq<NodeModel>, n: int)
    ensures
        same_counts(nodes, nodes, n),
        children_kept(nodes, nodes, n),
        decided_stay(nodes, nodes, n),
        one_more_at_most(nodes, nodes, n),
        same_moves(nodes, nodes, n),
        forall|i: int|
            0 <= i < n && nodes[i].state.is_terminal() ==> (#[trigger] nodes[i]).num_actions
                == nodes[i].num_actions,
{
}

/// A decided node is one that keeps its children.
proof fn lemma_closed(before: Seq<NodeModel>, after: Seq<NodeModel>, n: int)
    requires
        children_kept(before, after, n),
    ensures
        forall|i: int|
            0 <= i < n && before[i].state.is_terminal() ==> (#[trigger] after[i]).num_actions
                == before[i].num_actions,
{
    assert forall|i: int| 0 <= i < n && before[i].state.is_terminal() implies (#[trigger] after[i]).num_actions
        == before[i].num_actions by {
        assert(phase_of(before[i]) == Phase::Leaf);
    }
}

/// Nodes whose states were kept and are then kept where decided keep those
/// that were decided.
proof fn lemma_counts_then_decided(
    start: Seq<NodeModel>,
    before: Seq<NodeModel>,
    after: Seq<NodeModel>,
    n0: int,
)
    requires
        same_counts(start, before, n0),
        exists|n: int| n0 <= n && decided_stay(before, after, n),
    ensures
        decided_stay(start, after, n0),
{
    let n = choose|n: int| n0 <= n && decided_stay(before, after, n);
    assert forall|i: int| 0 <= i < n0 && start[i].state.is_terminal() implies #[trigger] after[i].state
        == start[i].state by {
        assert(before[i].visits == start[i].visits);
        assert(after[i].state == before[i].state);
    }
}

/// The moves that lead to the children of a node, in the order of the
/// children.
fn child_moves(tree: &Tree, ptr: NodePtr) -> (moves: Vec<Move>)
    requires
        tree.wf(),
        tree.holds(ptr),
    ensures
        moves@ == child_moves_of(tree.nodes(), ptr.spec_idx()),
{
    proof {
        tree.lemma_capacity();
    }
    let node = tree.node(ptr);
    let k = node.num_actions();
    let first = node.actions();
    let mut moves: Vec<Move> = Vec::new();
    proof {
        if k > 0 {
            tree.lemma_children_in_active_half(ptr.spec_idx());
        }
    }
    let mut j: usize = 0;
    while j < k
        invariant
            j <= k == tree.nodes()[ptr.spec_idx()].num_actions,
            tree.wf(),
            first == tree.nodes()[ptr.spec_idx()].actions,
            k > 0 ==> first.spec_idx() + k <= tree.allocated() <= tree.capacity() <= 0x7fff_ffff
                && first.spec_half() == tree.spec_active(),
            moves@.len() == j,
            forall|i: int|
                0 <= i < j ==> #[trigger] moves@[i] == tree.nodes()[first.spec_idx() + i].mov,
        decreases k - j,
    {
        proof {
            NodePtr::lemma_at(first.spec_half(), first.spec_idx() + j);
        }
        let child = first + j;
        moves.push(tree.node(child).parent_move());
        j = j + 1;
    }
    assert(moves@ =~= child_moves_of(tree.nodes(), ptr.spec_idx()));
    moves
}

/// Gives the children of a node the priors that `policy` has for the moves
/// to them, if the node has children and `policy` has as many priors.
/// `policy` is asked once, for the position `pos` and the moves to the
/// children in their order, unless there are no children, and then nothing is
/// changed.
fn relabel<P>(tree: &mut Tree, ptr: NodePtr, pos: &Board, policy: &P, at_root: bool) where
    P: Fn(&Board, &Vec<Move>, bool) -> (Vec<u16>, u32),

    requires
        old(tree).wf(),
        old(tree).holds(ptr),
        forall|b: &Board, m: &Vec<Move>, root: bool| call_requires(*policy, (b, m, root)),
    ensures
        final(tree).wf(),
        final(tree).same_frame(old(tree)),
        final(tree).nodes().len() == old(tree).nodes().len(),
        forall|i: int|
            0 <= i < old(tree).nodes().len() ==> #[trigger] final(tree).nodes()[i] == (
            NodeModel {
                policy: final(tree).nodes()[i].policy,
                ..old(tree).nodes()[i]
            }),
        old(tree).nodes()[ptr.spec_idx()].num_actions == 0 ==> final(tree).nodes() == old(tree).nodes(),
        forall|i: int|
            0 <= i < old(tree).nodes().len() && !is_child_of(old(tree).nodes(), ptr.spec_idx(), i)
                ==> #[trigger] final(tree).nodes()[i] == old(tree).nodes()[i],
        old(tree).nodes()[ptr.spec_idx()].num_actions > 0 ==> exists|
            moves: Vec<Move>,
            out: (Vec<u16>, u32),
        |
            {
                &&& moves@ == child_moves_of(old(tree).nodes(), ptr.spec_idx())
                &&& #[trigger] call_ensures(*policy, (pos, &moves, at_root), out)
                &&& final(tree).nodes() == relabelled_at(
                    old(tree).nodes(),
                    ptr.spec_idx(),
                    out.0@,
                )
            },
{
    let moves = child_moves(tree, ptr);
    if moves.len() == 0 {
        return;
    }
    let out = policy(pos, &moves, at_root);
    tree.relabel_policy(ptr, &out.0);
    assert(call_ensures(*policy, (pos, &moves, at_root), out));
}

/// Gives the children of the root the priors that `policy` has for them at
/// the position `pos`, and the children of each child to which the move can
/// be played those that it has for them at the position behind that move.
pub(crate) fn refresh<P>(tree: &mut Tree, pos: &Board, policy: &P) where
    P: Fn(&Board, &Vec<Move>, bool) -> (Vec<u16>, u32),

    requires
        old(tree).wf(),
        !old(tree).descending(),
        old(tree).allocated() > 0,
        pos@.on_board(),
        forall|b: &Board, m: &Vec<Move>, root: bool| call_requires(*policy, (b, m, root)),
    ensures
        final(tree).wf(),
        final(tree).same_frame(old(tree)),
        repriored(old(tree).nodes(), final(tree).nodes()),
        old(tree).nodes()[0].num_actions > 0 ==> exists|moves: Vec<Move>, out: (Vec<u16>, u32)|
            {
                &&& moves@ == child_moves_of(old(tree).nodes(), 0)
                &&& #[trigger] call_ensures(*policy, (pos, &moves, true), out)
                &&& root_relabelled(old(tree).nodes(), final(tree).nodes(), out.0@)
            },
{
    proof {
        tree.lemma_capacity();
        NodePtr::lemma_at(tree.spec_active(), 0);
    }
    let root = tree.root_node();
    relabel(tree, root, pos, policy, true);
    let ghost asked = choose|w: (Vec<Move>, (Vec<u16>, u32))|
        {
            &&& w.0@ == child_moves_of(old(tree).nodes(), 0)
            &&& #[trigger] call_ensures(*policy, (pos, &w.0, true), w.1)
            &&& tree.nodes() == relabelled_at(old(tree).nodes(), 0, w.1.0@)
        };
    let ghost had = old(tree).nodes()[0].num_actions > 0;
    proof {
        lemma_priors_repriored(old(tree).nodes(), tree.nodes());
        if had {
            let (m, o) = choose|m: Vec<Move>, o: (Vec<u16>, u32)|
                {
                    &&& m@ == child_moves_of(old(tree).nodes(), 0)
                    &&& #[trigger] call_ensures(*policy, (pos, &m, true), o)
                    &&& tree.nodes() == relabelled_at(old(tree).nodes(), 0, o.0@)
                };
            assert(call_ensures(*policy, (pos, &(m, o).0, true), (m, o).1));
            lemma_relabelled_root(
                old(tree).nodes(),
                old(tree).allocated(),
                old(tree).spec_active(),
                asked.1.0@,
            );
        }
    }
    let moves = child_moves(tree, root);
    let first = tree.node(root).actions();
    let ghost k = tree.nodes()[0].num_actions;
    proof {
        if k > 0 {
            tree.lemma_children_in_active_half(0);
        }
    }
    let mut j: usize = 0;
    while j < moves.len()
        invariant
            j <= moves@.len() == k,
            tree.wf(),
            tree.same_frame(old(tree)),
            repriored(old(tree).nodes(), tree.nodes()),
            pos@.on_board(),
            k > 0 ==> first.spec_idx() + k <= tree.allocated() <= tree.capacity() <= 0x7fff_ffff
                && first.spec_half() == tree.spec_active() && first.spec_idx() > 0,
            forall|b: &Board, m: &Vec<Move>, root: bool| call_requires(*policy, (b, m, root)),
            had ==> root_relabelled(old(tree).nodes(), tree.nodes(), asked.1.0@),
        decreases moves@.len() - j,
    {
        if pos.can_play(moves[j]) {
            let mut next = *pos;
            next.make(moves[j]);
            proof {
                NodePtr::lemma_at(first.spec_half(), first.spec_idx() + j);
            }
            let child = first + j;
            let ghost before = tree.nodes();
            relabel(tree, child, &next, policy, false);
            proof {
                lemma_priors_repriored(before, tree.nodes());
                lemma_repriored_twice(old(tree).nodes(), before, tree.nodes());
                lemma_root_apart(
                    before,
                    tree.allocated(),
                    tree.spec_active(),
                    tree.nodes(),
                    first.spec_idx() + j,
                );
            }
        }
        j = j + 1;
    }
    proof {
        if had {
            assert(call_ensures(*policy, (pos, &asked.0, true), asked.1));
        }
    }
}

} // verus!
