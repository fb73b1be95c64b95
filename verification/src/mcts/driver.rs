use vstd::prelude::*;

use crate::ataxx::board::{Board, BoardModel};
use crate::ataxx::moves::Move;
use crate::ataxx::state::GameState;
use crate::mcts::draws::{
    all_moves_draw, drawn_root, lemma_draws_flipped, lemma_draws_iterated, lemma_draws_mean,
    lemma_draws_repriored, lemma_draws_seeded,
};
use crate::mcts::playout::descended;
use crate::mcts::limits::{
    check_limits, iteration_done, soft_check_due, stability_due, stats_checked, verdict_of,
    Limits, SearchStats, Verdict,
};
use crate::mcts::root::{
    child_moves_of, child_priors_of, fresh_root, has_children, lemma_dropped_repriored,
    lemma_repriored_twice, lemma_root_dropped, lemma_root_moves_flipped, lemma_root_moves_kept,
    lemma_root_moves_repriored, repriored, root_relabelled,
};
use crate::mcts::search::{
    can_start, first_moves, halted, held_in_unit, in_unit, iterate, offered_moves, refresh,
    Playout,
};
use crate::tree::arena::Tree;
use crate::tree::best::best_child;
use crate::tree::expand::Expansion;
use crate::tree::node::{NodeModel, NodePtr, QUANT};
use crate::tree::shape::{expanded, first_child, well_linked};

verus! {

/// Why a search ended.
#[derive(Clone, Copy, PartialEq, Eq, Debug, Structural)]
pub enum Stop {
    /// It was told to stop.
    Aborted,
    /// The outcome of the root is proven.
    RootDecided,
    /// A limit was reached.
    Limit(Verdict),
    /// The tree was full again right after it was flipped.
    TreeTooSmall,
    /// An iteration could not be run.
    Stuck,
}

/// What a search found.
pub struct SearchOutcome {
    /// The move to the best child of the root, if a child was visited.
    pub best_move: Option<Move>,
    /// The mean of that child, times `QUANT`.
    pub mean: i64,
    pub stats: SearchStats,
    pub stop: Stop,
}

/// The slot of the best child of the root, if the tree has a root with a
/// visited child.
pub open spec fn best_slot_of(tree: &Tree) -> Option<int> {
    if tree.allocated() > 0 {
        match best_child(tree.nodes(), 0) {
            Some(b) => Some(first_child(tree.nodes(), 0) + b),
            None => None,
        }
    } else {
        None
    }
}

/// The move to the best child of the root.
pub open spec fn best_move_of(tree: &Tree) -> Option<Move> {
    match best_slot_of(tree) {
        Some(c) => Some(tree.nodes()[c].mov),
        None => None,
    }
}

/// The mean of the best child of the root, times `QUANT`; 0 if there is
/// none.
pub open spec fn best_mean_of(tree: &Tree) -> int {
    match best_slot_of(tree) {
        Some(c) => tree.nodes()[c].q(),
        None => 0,
    }
}

/// What a search that ends here has found.
fn conclude(tree: &Tree, stats: SearchStats, stop: Stop) -> (outcome: SearchOutcome)
    requires
        tree.wf(),
    ensures
        outcome.stats == stats,
        outcome.stop == stop,
        outcome.best_move == best_move_of(tree),
        outcome.mean == best_mean_of(tree),
{
    proof {
        tree.lemma_capacity();
        NodePtr::lemma_at(tree.spec_active(), 0);
    }
    if tree.len() == 0 {
        return SearchOutcome { best_move: None, mean: 0, stats, stop };
    }
    match tree.get_best_action(tree.root_node()) {
        Some((_, mov, mean)) => SearchOutcome { best_move: Some(mov), mean, stats, stop },
        None => SearchOutcome { best_move: None, mean: 0, stats, stop },
    }
}

/// What becomes of an empty tree that is to get its root, with a child for
/// each of `moves`, the priors `priors` and the diversity measure `gini`, and
/// with a first visit of the value `value` for the side to move. No search
/// can be run when a slot of the tree was asked for in vain before, when
/// there are no moves or when there are not as many priors as moves, and
/// the tree is too small when it has not a slot for the root and one for
/// each move. Else the root has been visited once, with the value as the
/// side that moved there sees it, and has its children in the slots behind
/// it.
#[verifier::opaque]
pub open spec fn seeded(
    before: &Tree,
    after: &Tree,
    r: Option<Stop>,
    moves: Seq<Move>,
    priors: Seq<u16>,
    gini: u32,
    value: int,
) -> bool {
    let refused = before.spec_used() != 0 || moves.len() == 0 || moves.len() > 255
        || moves.len() != priors.len();
    &&& r == Some(Stop::Stuck) <==> refused
    &&& r == Some(Stop::TreeTooSmall) <==> !refused && before.capacity() < 1 + moves.len()
    &&& r is None <==> !refused && before.capacity() >= 1 + moves.len()
    &&& refused ==> after.nodes() == before.nodes() && after.allocated() == 0
    &&& r is None ==> after.allocated() == 1 + moves.len() && after.nodes() == expanded(
        before.nodes().update(
            0,
            NodeModel::fresh(GameState::Ongoing).updated(QUANT - held_in_unit(value)),
        ),
        before.spec_active(),
        1,
        0,
        moves,
        priors,
        gini,
    )
}

/// Why an empty tree got no root when it was to get one with a child for
/// each of `moves` and the priors `priors`: no search can be run when a slot
/// of the tree was asked for in vain before, when there are no moves or when
/// there are not as many priors as moves; else the tree is too small, having
/// not a slot for the root and one for each move.
pub open spec fn not_seeded(before: &Tree, stop: Stop, moves: Seq<Move>, priors: Seq<u16>) -> bool {
    if before.spec_used() != 0 || moves.len() == 0 || moves.len() > 255 || moves.len()
        != priors.len() {
        stop == Stop::Stuck
    } else {
        before.capacity() < 1 + moves.len() && stop == Stop::TreeTooSmall
    }
}

/// Gives an empty tree its root for the position `pos`: visited once with
/// the value of `eval`, and with a child for each move with the priors of
/// `policy`. Says why if it cannot.
fn sow<E, P>(tree: &mut Tree, pos: &Board, eval: &E, policy: &P) -> (r: Option<Stop>) where
    E: Fn(&Board) -> i64,
    P: Fn(&Board, &Vec<Move>, bool) -> (Vec<u16>, u32),

    requires
        old(tree).wf(),
        old(tree).allocated() == 0,
        !old(tree).descending(),
        pos@ == old(tree).spec_root_position(),
        pos@.on_board(),
        forall|b: &Board| call_requires(*eval, (b,)),
        forall|b: &Board, m: &Vec<Move>, root: bool| call_requires(*policy, (b, m, root)),
    ensures
        final(tree).wf(),
        !final(tree).descending(),
        final(tree).spec_active() == old(tree).spec_active(),
        final(tree).capacity() == old(tree).capacity(),
        final(tree).spec_root_position() == old(tree).spec_root_position(),
        r is None || r == Some(Stop::Stuck) || r == Some(Stop::TreeTooSmall),
        r is None ==> final(tree).allocated() > 0 && final(tree).nodes()[0].visits >= 1
            && fresh_root(final(tree).nodes(), pos@),
        r is Some ==> final(tree).allocated() == 0
            || (final(tree).allocated() == 1 && final(tree).nodes()[0].num_actions == 0),
        exists|moves: Vec<Move>, out: (Vec<u16>, u32), value: i64|
            {
                &&& moves@ == offered_moves(pos@)
                &&& #[trigger] call_ensures(*policy, (pos, &moves, true), out)
                &&& #[trigger] call_ensures(*eval, (pos,), value)
                &&& seeded(
                    &*old(tree),
                    &*final(tree),
                    r,
                    moves@,
                    out.0@,
                    out.1,
                    value as int,
                )
            },
{
    let moves = first_moves(pos.map_legal_moves());
    let out = policy(pos, &moves, true);
    let value = eval(pos);
    let r = match tree.seed_root(&moves, &out.0, out.1, in_unit(value)) {
        Expansion::Done => None,
        Expansion::TreeFull => Some(Stop::TreeTooSmall),
        Expansion::Refused => Some(Stop::Stuck),
    };
    proof {
        reveal(seeded);
        tree.lemma_capacity();
        NodePtr::lemma_at(tree.spec_active(), 1);
        assert(call_ensures(*policy, (pos, &moves, true), out));
        assert(call_ensures(*eval, (pos,), value));
        assert(seeded(&*old(tree), &*tree, r, moves@, out.0@, out.1, value as int));
    }
    r
}

/// Makes the tree ready for a search from the position at its root, and
/// says why no search can be run if none can: the position does not lie on
/// the board, it has no moves, `policy` has not a prior for each, or the tree
/// has no room for the root and its children. A descent under way is dropped.
/// An empty tree gets its root, visited once with the value of `eval`, and
/// the children of the root with the priors of `policy`. In a tree that has a
/// root, the children of the root get the priors that `policy` has for them
/// now, and so do the children of each child to which the move can be
/// played; nothing else is changed.
pub fn prepare_root<E, P>(tree: &mut Tree, eval: &E, policy: &P) -> (r: Option<Stop>) where
    E: Fn(&Board) -> i64,
    P: Fn(&Board, &Vec<Move>, bool) -> (Vec<u16>, u32),

    requires
        old(tree).wf(),
        forall|b: &Board| call_requires(*eval, (b,)),
        forall|b: &Board, m: &Vec<Move>, root: bool| call_requires(*policy, (b, m, root)),
    ensures
        final(tree).wf(),
        !final(tree).descending(),
        final(tree).spec_active() == old(tree).spec_active(),
        final(tree).capacity() == old(tree).capacity(),
        final(tree).spec_root_position() == old(tree).spec_root_position(),
        r is None || r == Some(Stop::Stuck) || r == Some(Stop::TreeTooSmall),
        r is None ==> final(tree).allocated() > 0 && old(tree).spec_root_position().on_board(),
        r is None && (old(tree).allocated() == 0 || old(tree).nodes()[0].visits >= 1)
            ==> final(tree).nodes()[0].visits >= 1,
        r is None && old(tree).allocated() == 0 ==> fresh_root(
            final(tree).nodes(),
            old(tree).spec_root_position(),
        ),
        r is Some && old(tree).allocated() == 0 ==> final(tree).allocated() == 0
            || (final(tree).allocated() == 1 && final(tree).nodes()[0].num_actions == 0),
        !old(tree).spec_root_position().on_board() ==> r == Some(Stop::Stuck)
            && final(tree).allocated() == old(tree).allocated() && repriored(
            old(tree).nodes(),
            final(tree).nodes(),
        ),
        old(tree).spec_root_position().on_board() && old(tree).allocated() > 0 ==> r is None
            && final(tree).allocated() == old(tree).allocated() && repriored(
            old(tree).nodes(),
            final(tree).nodes(),
        ),
        old(tree).spec_root_position().on_board() && has_children(old(tree)) ==> exists|
            pos: Board,
            moves: Vec<Move>,
            out: (Vec<u16>, u32),
        |
            {
                &&& pos@ == old(tree).spec_root_position()
                &&& moves@ == child_moves_of(old(tree).nodes(), 0)
                &&& #[trigger] call_ensures(*policy, (&pos, &moves, true), out)
                &&& root_relabelled(old(tree).nodes(), final(tree).nodes(), out.0@)
            },
        old(tree).spec_root_position().on_board() && old(tree).allocated() == 0 ==> exists|
            pos: Board,
            moves: Vec<Move>,
            out: (Vec<u16>, u32),
            value: i64,
        |
            {
                &&& pos@ == old(tree).spec_root_position()
                &&& moves@ == offered_moves(pos@)
                &&& #[trigger] call_ensures(*policy, (&pos, &moves, true), out)
                &&& #[trigger] call_ensures(*eval, (&pos,), value)
                &&& seeded(
                    &*old(tree),
                    &*final(tree),
                    r,
                    moves@,
                    out.0@,
                    out.1,
                    value as int,
                )
            },
{
    tree.abandon();
    let ghost dropped = tree.nodes();
    proof {
        lemma_dropped_repriored(old(tree).nodes(), dropped, old(tree).spec_path());
    }
    let pos = *tree.root_position();
    if !pos.is_on_board() {
        return Some(Stop::Stuck);
    }
    if tree.len() == 0 {
        proof {
            assert(old(tree).spec_path().len() == 0) by {
                if old(tree).spec_path().len() > 0 {
                    assert(0 <= old(tree).spec_path()[0] < old(tree).allocated());
                }
            }
            assert(dropped =~= old(tree).nodes());
        }
        let ghost empty = *tree;
        let r = sow(tree, &pos, eval, policy);
        proof {
            let (moves, out, value) = choose|moves: Vec<Move>, out: (Vec<u16>, u32), value: i64|
                {
                    &&& moves@ == offered_moves(pos@)
                    &&& #[trigger] call_ensures(*policy, (&pos, &moves, true), out)
                    &&& #[trigger] call_ensures(*eval, (&pos,), value)
                    &&& seeded(&empty, &*tree, r, moves@, out.0@, out.1, value as int)
                };
            reveal(seeded);
            assert(call_ensures(*policy, (&pos, &moves, true), out));
            assert(call_ensures(*eval, (&pos,), value));
            assert(seeded(&*old(tree), &*tree, r, moves@, out.0@, out.1, value as int));
        }
        return r;
    }
    refresh(tree, &pos, policy);
    proof {
        lemma_repriored_twice(old(tree).nodes(), dropped, tree.nodes());
        old(tree).lemma_capacity();
        assert(well_linked(old(tree).nodes(), old(tree).spec_active(), old(tree).allocated()));
        lemma_root_dropped(
            old(tree).nodes(),
            dropped,
            old(tree).allocated(),
            old(tree).spec_active(),
        );
    }
    None
}

/// What a worker does after an iteration.
#[derive(Clone, Copy, PartialEq, Eq, Debug, Structural)]
pub enum Step {
    /// The iteration is counted; it came this many nodes deep.
    Count(usize),
    /// The tree is flipped with the root preserved, and the search goes on.
    Flip,
    /// The search ends.
    End(Stop),
}

/// What the outcome of an iteration asks for: a counted one is counted; a
/// full tree is flipped, unless it was flipped just before and nothing was
/// counted since, and then it is too small; a stuck iteration ends the search.
pub open spec fn step_after(played: Playout, flipped: bool) -> Step {
    match played {
        Playout::Done(depth) => Step::Count(depth),
        Playout::TreeFull => if flipped {
            Step::End(Stop::TreeTooSmall)
        } else {
            Step::Flip
        },
        Playout::Stuck => Step::End(Stop::Stuck),
    }
}

/// What a worker does after an iteration with the outcome `played`;
/// `flipped` says whether the tree was flipped just before it and nothing was
/// counted since.
pub fn on_playout(played: Playout, flipped: bool) -> (next: Step)
    ensures
        next == step_after(played, flipped),
{
    match played {
        Playout::Done(depth) => Step::Count(depth),
        Playout::TreeFull => if flipped {
            Step::End(Stop::TreeTooSmall)
        } else {
            Step::Flip
        },
        Playout::Stuck => Step::End(Stop::Stuck),
    }
}

/// Whether an iteration of a search in a tree of `capacity` slots, from the
/// position `root`, was given up with the outcome `r` in the tree `at`, at
/// the position `pos`, for the reason that `halted` states.
pub open spec fn gave_up<P, S>(
    capacity: int,
    root: BoardModel,
    at: &Tree,
    pos: &Board,
    r: Playout,
    policy: &P,
    select: &S,
) -> bool where
    P: Fn(&Board, &Vec<Move>, bool) -> (Vec<u16>, u32),
    S: Fn(&Tree, NodePtr) -> usize,
{
    &&& at.wf()
    &&& at.descending()
    &&& at.capacity() == capacity
    &&& at.spec_root_position() == root
    &&& halted(at, pos, r, policy, select)
}

/// Runs one iteration, as `iterate` does, in a tree in which no descent is
/// under way, and says of it what a search goes by: what it has counted on
/// the root, that the root keeps its children, and why it was given up if it
/// was.
fn play<E, P, S>(tree: &mut Tree, eval: &E, policy: &P, select: &S) -> (r: Playout) where
    E: Fn(&Board) -> i64,
    P: Fn(&Board, &Vec<Move>, bool) -> (Vec<u16>, u32),
    S: Fn(&Tree, NodePtr) -> usize,

    requires
        old(tree).wf(),
        !old(tree).descending(),
        old(tree).allocated() > 0,
        old(tree).spec_root_position().on_board(),
        forall|b: &Board| call_requires(*eval, (b,)),
        forall|b: &Board, m: &Vec<Move>, root: bool| call_requires(*policy, (b, m, root)),
        forall|t: &Tree, p: NodePtr| t.wf() && t.holds(p) ==> call_requires(*select, (t, p)),
    ensures
        final(tree).wf(),
        !final(tree).descending(),
        final(tree).spec_active() == old(tree).spec_active(),
        final(tree).capacity() == old(tree).capacity(),
        final(tree).spec_root_position() == old(tree).spec_root_position(),
        final(tree).allocated() >= old(tree).allocated(),
        final(tree).nodes()[0].visits == old(tree).nodes()[0].visits + (if r is Done {
            1int
        } else {
            0int
        }),
        r matches Playout::Done(depth) ==> depth >= 1,
        old(tree).nodes()[0].num_actions > 0 ==> {
            &&& final(tree).nodes()[0].num_actions == old(tree).nodes()[0].num_actions
            &&& child_moves_of(final(tree).nodes(), 0) == child_moves_of(old(tree).nodes(), 0)
            &&& child_priors_of(final(tree).nodes(), 0) == child_priors_of(old(tree).nodes(), 0)
        },
        drawn_root(old(tree).nodes(), old(tree).spec_root_position()) ==> drawn_root(
            final(tree).nodes(),
            old(tree).spec_root_position(),
        ),
        r == Playout::Stuck ==> final(tree).nodes()[0].visits == i32::MAX || exists|
            at: Tree,
            pos: Board,
        | #[trigger]
            gave_up(
                old(tree).capacity(),
                old(tree).spec_root_position(),
                &at,
                &pos,
                Playout::Stuck,
                policy,
                select,
            ),
        r == Playout::TreeFull ==> exists|at: Tree, pos: Board|
            {
                &&& at.allocated() == old(tree).allocated()
                &&& at.spec_used() == old(tree).spec_used()
                &&& #[trigger] gave_up(
                    old(tree).capacity(),
                    old(tree).spec_root_position(),
                    &at,
                    &pos,
                    Playout::TreeFull,
                    policy,
                    select,
                )
            },
{
    let ghost before = *tree;
    let played = iterate(tree, eval, policy, select);
    proof {
        before.lemma_capacity();
        assert(well_linked(before.nodes(), before.spec_active(), before.allocated()));
        if before.nodes()[0].num_actions > 0 {
            lemma_root_moves_kept(
                before.nodes(),
                before.allocated(),
                before.spec_active(),
                tree.nodes(),
            );
        }
        if drawn_root(before.nodes(), before.spec_root_position()) {
            lemma_draws_iterated(
                before.nodes(),
                before.allocated(),
                before.spec_active(),
                before.spec_root_position(),
                tree.nodes(),
                tree.allocated(),
                played,
            );
        }
        if !(played matches Playout::Done(_)) && can_start(&before) {
            let (at, pos) = choose|at: Tree, pos: Board|
                {
                    &&& at.wf()
                    &&& at.descending()
                    &&& #[trigger] descended(
                        before.nodes(),
                        before.allocated(),
                        before.spec_root_position(),
                        at.nodes(),
                        at.allocated(),
                        at.spec_path(),
                        pos@,
                    )
                    &&& halted(&at, &pos, played, policy, select)
                    &&& at.capacity() == before.capacity()
                    &&& at.spec_root_position() == before.spec_root_position()
                    &&& played == Playout::TreeFull ==> at.allocated() == before.allocated()
                        && at.spec_used() == before.spec_used()
                };
            assert(gave_up(
                before.capacity(),
                before.spec_root_position(),
                &at,
                &pos,
                played,
                policy,
                select,
            ));
        }
    }
    played
}

/// The number of iterations that a search may count: what the limits say,
/// and one at least.
pub open spec fn node_bound(limits: Limits) -> int {
    if limits.max_nodes < 1 {
        1
    } else {
        limits.max_nodes as int
    }
}

/// Whether a check of the limits after `k` counted iterations let the search
/// go on: the clock was asked, and with the time that it gave and the
/// counters as they stood no limit was reached.
pub open spec fn passed<C>(limits: Limits, k: int, clock: &C) -> bool where C: Fn() -> u128 {
    exists|counted: SearchStats, elapsed: u128, steady: bool|
        {
            &&& counted.total_iters == k
            &&& counted.main_iters == k
            &&& call_ensures(*clock, (), elapsed)
            &&& !soft_check_due(k, limits) ==> !steady
            &&& #[trigger] verdict_of(limits, counted, elapsed, steady) == Verdict::Continue
        }
}

/// Whether the checks of the limits after every number of counted
/// iterations below `n` let the search go on.
#[verifier::opaque]
pub open spec fn passed_below<C>(limits: Limits, n: int, clock: &C) -> bool where
    C: Fn() -> u128,
{
    forall|k: int| 1 <= k < n ==> #[trigger] passed(limits, k, clock)
}

/// No check is asked of a search that has counted one iteration at most.
proof fn lemma_passed_none<C>(limits: Limits, clock: &C) where C: Fn() -> u128
    ensures
        passed_below(limits, 0, clock),
        passed_below(limits, 1, clock),
{
    reveal(passed_below);
}

/// The checks below a number are those below every greater one.
proof fn lemma_passed_fewer<C>(limits: Limits, n: int, m: int, clock: &C) where C: Fn() -> u128
    requires
        passed_below(limits, n, clock),
        m <= n,
    ensures
        passed_below(limits, m, clock),
{
    reveal(passed_below);
}

/// One more check that lets the search go on.
proof fn lemma_passed_next<C>(
    limits: Limits,
    counted: SearchStats,
    elapsed: u128,
    steady: bool,
    clock: &C,
) where C: Fn() -> u128
    requires
        passed_below(limits, counted.total_iters as int, clock),
        counted.main_iters == counted.total_iters,
        call_ensures(*clock, (), elapsed),
        !soft_check_due(counted.main_iters as int, limits) ==> !steady,
        verdict_of(limits, counted, elapsed, steady) == Verdict::Continue,
    ensures
        passed_below(limits, counted.total_iters + 1, clock),
{
    reveal(passed_below);
    assert(passed(limits, counted.total_iters as int, clock));
}

/// Searches the tree from the position at its root until a limit is reached,
/// `abort` says so or the outcome of the root is proven. The tree is first
/// made ready as `prepare_root` does it; where that cannot be done no
/// iteration is run. Then iterations are run as `iterate` runs them, and
/// counted. When the tree is full it is flipped with the root preserved; if
/// it is full again before another iteration could be counted, the search
/// ends.
///
/// `clock` gives the time since the search began in milliseconds. `stable`
/// is asked, when `soft_check_due` holds, whether the result is stable enough
/// to stop early; it is told the number of changes of the best move and the
/// time. `abort` is asked before every iteration and after every counted one,
/// so a search that is told to stop at once counts nothing. `report` is
/// called after every check of the limits that lets the search go on, with
/// the tree, the counters and whether the check has noted a new greatest
/// average depth.
///
/// The reason for the stop fits the tree that is left: unless the search was
/// stuck or the tree too small, the tree has a root; a root found decided is
/// decided; a limit is one that was reached, after every earlier check had
/// let the search go on; and the root has counted one visit for every
/// iteration, besides those that it had. A search is stuck only where the
/// position does not lie on the board, an empty tree could not get its root,
/// the root can count no more visits, or an iteration was given up as stuck
/// for the reason that `halted` states; a tree is too small only where an
/// empty tree had no room for its root and the children, or a tree that was
/// just flipped had no room for the children of a node.
///
/// A root that has children keeps them, with their moves, and they have the
/// priors that `policy` has for them now. An empty tree gets a root with a
/// child for each move of the position, or the reason says why not
/// (`not_seeded`). Where every move of the position leads to a drawn
/// position, the tree stays a `drawn_root` and the mean of the best child is
/// a half.
pub fn search_with<E, P, S, C, A, T, R>(
    tree: &mut Tree,
    limits: &Limits,
    eval: &E,
    policy: &P,
    select: &S,
    clock: &C,
    abort: &A,
    stable: &T,
    report: &R,
) -> (outcome: SearchOutcome) where
    E: Fn(&Board) -> i64,
    P: Fn(&Board, &Vec<Move>, bool) -> (Vec<u16>, u32),
    S: Fn(&Tree, NodePtr) -> usize,
    C: Fn() -> u128,
    A: Fn() -> bool,
    T: Fn(&Tree, i32, u128) -> bool,
    R: Fn(&Tree, &SearchStats, bool) -> (),

    requires
        old(tree).wf(),
        forall|b: &Board| call_requires(*eval, (b,)),
        forall|b: &Board, m: &Vec<Move>, root: bool| call_requires(*policy, (b, m, root)),
        forall|t: &Tree, p: NodePtr| t.wf() && t.holds(p) ==> call_requires(*select, (t, p)),
        call_requires(*clock, ()),
        call_requires(*abort, ()),
        forall|t: &Tree, c: i32, e: u128| t.wf() ==> call_requires(*stable, (t, c, e)),
        forall|t: &Tree, s: &SearchStats, d: bool| t.wf() ==> call_requires(*report, (t, s, d)),
    ensures
        final(tree).wf(),
        !final(tree).descending(),
        final(tree).capacity() == old(tree).capacity(),
        final(tree).spec_root_position() == old(tree).spec_root_position(),
        outcome.stats.total_iters <= node_bound(*limits),
        outcome.stop == Stop::Limit(Verdict::NodeLimit) ==> outcome.stats.total_iters
            == node_bound(*limits),
        outcome.stop == Stop::Stuck ==> {
            ||| !old(tree).spec_root_position().on_board()
            ||| old(tree).allocated() == 0 && !has_children(final(tree))
            ||| final(tree).allocated() > 0 && final(tree).nodes()[0].visits == i32::MAX
            ||| exists|at: Tree, pos: Board| #[trigger]
                gave_up(
                    old(tree).capacity(),
                    old(tree).spec_root_position(),
                    &at,
                    &pos,
                    Playout::Stuck,
                    policy,
                    select,
                )
        },
        outcome.stop == Stop::TreeTooSmall ==> {
            ||| old(tree).allocated() == 0 && !has_children(final(tree))
            ||| exists|at: Tree, pos: Board|
                at.spec_used() == at.allocated() && #[trigger] gave_up(
                    old(tree).capacity(),
                    old(tree).spec_root_position(),
                    &at,
                    &pos,
                    Playout::TreeFull,
                    policy,
                    select,
                )
        },
        old(tree).allocated() > 0 ==> final(tree).allocated() > 0
            && final(tree).nodes()[0].visits == old(tree).nodes()[0].visits
            + outcome.stats.total_iters,
        old(tree).allocated() == 0 && has_children(final(tree))
            ==> final(tree).nodes()[0].visits == 1 + outcome.stats.total_iters,
        outcome.stats.main_iters == outcome.stats.total_iters,
        outcome.best_move == best_move_of(final(tree)),
        outcome.mean == best_mean_of(final(tree)),
        !old(tree).spec_root_position().on_board() ==> outcome.stop == Stop::Stuck
            && outcome.stats.total_iters == 0,
        outcome.stop != Stop::Stuck && outcome.stop != Stop::TreeTooSmall
            ==> final(tree).allocated() > 0,
        outcome.stop != Stop::Stuck && outcome.stop != Stop::TreeTooSmall
            && (old(tree).allocated() == 0 || old(tree).nodes()[0].visits >= 1)
            ==> final(tree).nodes()[0].visits >= 1,
        outcome.stats.total_iters >= 1 ==> final(tree).allocated() > 0
            && final(tree).nodes()[0].visits >= 1,
        outcome.stop == Stop::RootDecided || outcome.stop is Limit ==> outcome.stats.total_iters
            >= 1,
        outcome.stop == Stop::RootDecided ==> final(tree).nodes()[0].state.is_terminal(),
        outcome.stop matches Stop::Limit(v) ==> v != Verdict::Continue,
        passed_below(*limits, outcome.stats.total_iters as int, clock),
        outcome.stop == Stop::Aborted ==> call_ensures(*abort, (), true),
        outcome.stop matches Stop::Limit(v) ==> exists|
            counted: SearchStats,
            elapsed: u128,
            steady: bool,
        |
            {
                &&& call_ensures(*clock, (), elapsed)
                &&& !soft_check_due(counted.main_iters as int, *limits) ==> !steady
                &&& #[trigger] verdict_of(*limits, counted, elapsed, steady) == v
                &&& outcome.stats == stats_checked(*limits, counted, elapsed, steady)
            },
        has_children(old(tree)) ==> has_children(final(tree)) && child_moves_of(
            final(tree).nodes(),
            0,
        ) == child_moves_of(old(tree).nodes(), 0),
        old(tree).spec_root_position().on_board() && has_children(old(tree)) ==> exists|
            pos: Board,
            moves: Vec<Move>,
            out: (Vec<u16>, u32),
        |
            {
                &&& pos@ == old(tree).spec_root_position()
                &&& moves@ == child_moves_of(old(tree).nodes(), 0)
                &&& #[trigger] call_ensures(*policy, (&pos, &moves, true), out)
                &&& root_relabelled(old(tree).nodes(), final(tree).nodes(), out.0@)
            },
        old(tree).allocated() == 0 && has_children(final(tree)) ==> final(tree).nodes()[0].visits
            >= 1 && child_moves_of(final(tree).nodes(), 0) == offered_moves(
            old(tree).spec_root_position(),
        ),
        old(tree).allocated() == 0 && old(tree).spec_root_position().on_board() && !has_children(
            final(tree),
        ) ==> outcome.stats.total_iters == 0 && exists|
            pos: Board,
            moves: Vec<Move>,
            out: (Vec<u16>, u32),
        |
            {
                &&& pos@ == old(tree).spec_root_position()
                &&& moves@ == offered_moves(pos@)
                &&& #[trigger] call_ensures(*policy, (&pos, &moves, true), out)
                &&& not_seeded(&*old(tree), outcome.stop, moves@, out.0@)
            },
        all_moves_draw(old(tree).spec_root_position()) && (old(tree).allocated() == 0
            || drawn_root(old(tree).nodes(), old(tree).spec_root_position())) ==> {
            &&& outcome.best_move is Some ==> outcome.mean == QUANT / 2
            &&& has_children(final(tree)) ==> drawn_root(
                final(tree).nodes(),
                old(tree).spec_root_position(),
            )
        },
{
    let ghost root = tree.spec_root_position();
    let ghost draws = all_moves_draw(root) && (tree.allocated() == 0 || drawn_root(
        tree.nodes(),
        root,
    ));
    let ghost had = tree.allocated() > 0 && tree.nodes()[0].num_actions > 0;
    let ghost kids = child_moves_of(tree.nodes(), 0);
    let mut stats = SearchStats {
        total_nodes: 0,
        total_iters: 0,
        main_iters: 0,
        avg_depth: 0,
        seldepth: 0,
    };
    let prepared = prepare_root(tree, eval, policy);
    let ghost sown = old(tree).allocated() == 0 && prepared is None;
    let ghost asked = had && root.on_board();
    let ghost told = choose|w: (Board, Vec<Move>, (Vec<u16>, u32))|
        {
            &&& w.0@ == root
            &&& w.1@ == child_moves_of(old(tree).nodes(), 0)
            &&& #[trigger] call_ensures(*policy, (&w.0, &w.1, true), w.2)
            &&& root_relabelled(old(tree).nodes(), tree.nodes(), w.2.0@)
        };
    proof {
        tree.lemma_capacity();
        old(tree).lemma_capacity();
        if asked {
            let (pos, moves, out) = choose|pos: Board, moves: Vec<Move>, out: (Vec<u16>, u32)|
                {
                    &&& pos@ == root
                    &&& moves@ == child_moves_of(old(tree).nodes(), 0)
                    &&& #[trigger] call_ensures(*policy, (&pos, &moves, true), out)
                    &&& root_relabelled(old(tree).nodes(), tree.nodes(), out.0@)
                };
            assert(call_ensures(
                *policy,
                (&(pos, moves, out).0, &(pos, moves, out).1, true),
                (pos, moves, out).2,
            ));
        }
        if sown {
            assert(child_moves_of(tree.nodes(), 0) =~= offered_moves(root));
        }
        if old(tree).allocated() == 0 && root.on_board() && prepared is Some {
            let (pos, moves, out, value) = choose|
                pos: Board,
                moves: Vec<Move>,
                out: (Vec<u16>, u32),
                value: i64,
            |
                {
                    &&& pos@ == old(tree).spec_root_position()
                    &&& moves@ == offered_moves(pos@)
                    &&& #[trigger] call_ensures(*policy, (&pos, &moves, true), out)
                    &&& #[trigger] call_ensures(*eval, (&pos,), value)
                    &&& seeded(
                        &*old(tree),
                        &*tree,
                        prepared,
                        moves@,
                        out.0@,
                        out.1,
                        value as int,
                    )
                };
            reveal(seeded);
            assert(call_ensures(*policy, (&pos, &moves, true), out));
            assert(not_seeded(&*old(tree), prepared->0, moves@, out.0@));
        }
        if had {
            assert(well_linked(old(tree).nodes(), old(tree).spec_active(), old(tree).allocated()));
            lemma_root_moves_repriored(
                old(tree).nodes(),
                old(tree).allocated(),
                old(tree).spec_active(),
                tree.nodes(),
            );
        }
        if draws {
            if old(tree).allocated() == 0 {
                if prepared is None {
                    lemma_draws_seeded(tree.nodes(), root);
                }
            } else {
                lemma_draws_repriored(
                    old(tree).nodes(),
                    old(tree).allocated(),
                    old(tree).spec_active(),
                    tree.nodes(),
                    root,
                );
            }
            if tree.allocated() > 0 && drawn_root(tree.nodes(), root) {
                lemma_draws_mean(*tree, root);
            }
        }
    }
    match prepared {
        Some(stop) => {
            proof {
                lemma_passed_none(*limits, clock);
            }
            return conclude(tree, stats, stop);
        },
        None => {},
    }
    let ghost seen = old(tree).allocated() == 0 || old(tree).nodes()[0].visits >= 1;
    let ghost base = tree.nodes()[0].visits;
    let bound: usize = if limits.max_nodes < 1 {
        1
    } else {
        limits.max_nodes
    };
    let mut best_move = Move::new_null();
    let mut changes: i32 = 0;
    let mut flipped = false;
    let mut stop = Stop::Stuck;
    proof {
        lemma_passed_none(*limits, clock);
    }
    loop
        invariant_except_break
            stats.total_iters < bound,
            flipped ==> tree.spec_used() == tree.allocated(),
            passed_below(*limits, stats.total_iters + 1, clock),
        invariant
            tree.wf(),
            !tree.descending(),
            tree.capacity() == old(tree).capacity(),
            tree.spec_root_position() == old(tree).spec_root_position(),
            tree.allocated() > 0,
            seen ==> tree.nodes()[0].visits >= 1,
            stats.total_iters >= 1 ==> tree.nodes()[0].visits >= 1,
            tree.nodes()[0].visits == base + stats.total_iters,
            root.on_board(),
            root == old(tree).spec_root_position(),
            draws ==> drawn_root(tree.nodes(), root),
            had ==> tree.nodes()[0].num_actions > 0 && child_moves_of(tree.nodes(), 0) == kids,
            sown ==> tree.nodes()[0].num_actions > 0 && child_moves_of(tree.nodes(), 0)
                == offered_moves(root),
            asked ==> had,
            asked ==> told.0@ == root && told.1@ == child_moves_of(old(tree).nodes(), 0),
            asked ==> call_ensures(*policy, (&told.0, &told.1, true), told.2),
            asked ==> root_relabelled(old(tree).nodes(), tree.nodes(), told.2.0@),
            bound == (if limits.max_nodes < 1 {
                1
            } else {
                limits.max_nodes
            }),
            stats.total_iters <= bound,
            stats.main_iters == stats.total_iters,
            forall|b: &Board| call_requires(*eval, (b,)),
            forall|b: &Board, m: &Vec<Move>, root: bool| call_requires(*policy, (b, m, root)),
            forall|t: &Tree, p: NodePtr| t.wf() && t.holds(p) ==> call_requires(*select, (t, p)),
            call_requires(*clock, ()),
            call_requires(*abort, ()),
            forall|t: &Tree, c: i32, e: u128| t.wf() ==> call_requires(*stable, (t, c, e)),
            forall|t: &Tree, s: &SearchStats, d: bool|
                t.wf() ==> call_requires(*report, (t, s, d)),
        ensures
            tree.wf(),
            !tree.descending(),
            tree.capacity() == old(tree).capacity(),
            tree.spec_root_position() == old(tree).spec_root_position(),
            stats.total_iters <= limits.max_nodes || stats.total_iters <= 1,
            stop == Stop::Limit(Verdict::NodeLimit) ==> stats.total_iters == node_bound(*limits),
            stats.main_iters == stats.total_iters,
            tree.nodes()[0].visits == base + stats.total_iters,
            stop == Stop::Stuck ==> tree.nodes()[0].visits == i32::MAX || exists|
                at: Tree,
                pos: Board,
            | #[trigger]
                gave_up(
                    old(tree).capacity(),
                    old(tree).spec_root_position(),
                    &at,
                    &pos,
                    Playout::Stuck,
                    policy,
                    select,
                ),
            stop == Stop::TreeTooSmall ==> exists|at: Tree, pos: Board|
                at.spec_used() == at.allocated() && #[trigger] gave_up(
                    old(tree).capacity(),
                    old(tree).spec_root_position(),
                    &at,
                    &pos,
                    Playout::TreeFull,
                    policy,
                    select,
                ),
            tree.allocated() > 0,
            seen ==> tree.nodes()[0].visits >= 1,
            stats.total_iters >= 1 ==> tree.nodes()[0].visits >= 1,
            draws ==> drawn_root(tree.nodes(), root),
            had ==> tree.nodes()[0].num_actions > 0 && child_moves_of(tree.nodes(), 0) == kids,
            sown ==> tree.nodes()[0].num_actions > 0 && child_moves_of(tree.nodes(), 0)
                == offered_moves(root),
            asked ==> told.0@ == root && told.1@ == child_moves_of(old(tree).nodes(), 0),
            asked ==> call_ensures(*policy, (&told.0, &told.1, true), told.2),
            asked ==> root_relabelled(old(tree).nodes(), tree.nodes(), told.2.0@),
            stop == Stop::RootDecided || stop is Limit ==> stats.total_iters >= 1,
            stop == Stop::RootDecided ==> tree.nodes()[0].state.is_terminal(),
            stop matches Stop::Limit(v) ==> v != Verdict::Continue,
            passed_below(*limits, stats.total_iters as int, clock),
            stop == Stop::Aborted ==> call_ensures(*abort, (), true),
            stop matches Stop::Limit(v) ==> exists|
                counted: SearchStats,
                elapsed: u128,
                steady: bool,
            |
                {
                    &&& call_ensures(*clock, (), elapsed)
                    &&& !soft_check_due(counted.main_iters as int, *limits) ==> !steady
                    &&& #[trigger] verdict_of(*limits, counted, elapsed, steady) == v
                    &&& stats == stats_checked(*limits, counted, elapsed, steady)
                },
        decreases bound - stats.total_iters, (if flipped {
            0int
        } else {
            1int
        }),
    {
        if abort() {
            stop = Stop::Aborted;
            proof {
                lemma_passed_fewer(
                    *limits,
                    stats.total_iters + 1,
                    stats.total_iters as int,
                    clock,
                );
            }
            break;
        }
        let ghost before = *tree;
        let played = play(tree, eval, policy, select);
        proof {
            if played == Playout::TreeFull && flipped {
                let (at, pos) = choose|at: Tree, pos: Board|
                    {
                        &&& at.allocated() == before.allocated()
                        &&& at.spec_used() == before.spec_used()
                        &&& #[trigger] gave_up(
                            before.capacity(),
                            before.spec_root_position(),
                            &at,
                            &pos,
                            Playout::TreeFull,
                            policy,
                            select,
                        )
                    };
                assert(at.spec_used() == at.allocated());
            }
        }
        match on_playout(played, flipped) {
            Step::Count(depth) => {
                flipped = false;
                proof {
                    tree.lemma_capacity();
                }
                let decided = tree.slot(0).is_terminal();
                let told = abort();
                if iteration_done(&mut stats, depth, true, decided, told) {
                    stop = if decided {
                        Stop::RootDecided
                    } else {
                        Stop::Aborted
                    };
                    break;
                }
                let elapsed = clock();
                let new_best = match tree.get_best_action(tree.root_node()) {
                    Some((_, mov, _)) => mov,
                    None => Move::new_null(),
                };
                let steady = if stability_due(&stats, limits) {
                    stable(&*tree, changes, elapsed)
                } else {
                    false
                };
                let ghost counted = stats;
                let depth_before = stats.avg_depth;
                let v = check_limits(
                    limits,
                    &mut stats,
                    elapsed,
                    steady,
                    new_best,
                    &mut best_move,
                    &mut changes,
                );
                if v != Verdict::Continue {
                    stop = Stop::Limit(v);
                    proof {
                        assert(verdict_of(*limits, counted, elapsed, steady) == v);
                    }
                    break;
                }
                proof {
                    lemma_passed_next(*limits, counted, elapsed, steady, clock);
                }
                report(&*tree, &stats, stats.avg_depth > depth_before);
            },
            Step::Flip => {
                let ghost full = *tree;
                tree.flip(true);
                flipped = true;
                proof {
                    if had || sown {
                        lemma_root_moves_flipped(full, *tree);
                    }
                    if draws {
                        lemma_draws_flipped(full, *tree, root);
                    }
                }
            },
            Step::End(why) => {
                stop = why;
                proof {
                    lemma_passed_fewer(
                        *limits,
                        stats.total_iters + 1,
                        stats.total_iters as int,
                        clock,
                    );
                }
                break;
            },
        }
    }
    proof {
        if draws {
            lemma_draws_mean(*tree, root);
        }
    }
    conclude(tree, stats, stop)
}

} // verus!
