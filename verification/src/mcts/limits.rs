use vstd::prelude::*;

use crate::ataxx::moves::Move;

verus! {

/// What ends a search.
#[derive(Clone, Copy)]
pub struct Limits {
    /// The time after which the search stops, in milliseconds.
    pub max_time: Option<u128>,
    /// The time after which the search may stop if its result is stable.
    pub opt_time: Option<u128>,
    /// The average depth at which the search stops.
    pub max_depth: usize,
    /// The number of iterations after which the search stops.
    pub max_nodes: usize,
}

/// The counters of a search.
#[derive(Clone, Copy, Default)]
pub struct SearchStats {
    /// The nodes visited by all iterations together.
    pub total_nodes: usize,
    /// The iterations done.
    pub total_iters: usize,
    /// The iterations done by the worker that checks the limits.
    pub main_iters: usize,
    /// The greatest average depth seen.
    pub avg_depth: usize,
    /// The greatest depth that an iteration came to.
    pub seldepth: usize,
}

/// What a check of the limits says.
#[derive(Clone, Copy, PartialEq, Eq, Debug, Structural)]
pub enum Verdict {
    /// The search goes on.
    Continue,
    /// The search has done as many iterations as it may.
    NodeLimit,
    /// The search has taken as long as it may.
    TimeLimit,
    /// The search may stop early: its result is stable.
    SoftTimeLimit,
    /// The search has come to the average depth at which it stops.
    DepthLimit,
}

/// The average depth of the iterations: the nodes that they visited below
/// the root, divided by their number.
pub open spec fn average_depth(stats: SearchStats) -> int {
    if stats.total_iters == 0 || stats.total_nodes < stats.total_iters {
        0
    } else {
        (stats.total_nodes - stats.total_iters) / (stats.total_iters as int)
    }
}

/// Whether the clock is looked at after this many iterations of the main
/// worker.
pub open spec fn quick_check_due(iters: int) -> bool {
    iters % 128 == 0
}

/// Whether the stability of the result is looked at after this many
/// iterations of the main worker.
pub open spec fn soft_check_due(iters: int, limits: Limits) -> bool {
    iters % 4096 == 0 && limits.opt_time is Some
}

/// Whether the stability of the result is to be looked at now, after the
/// iterations that the main worker has counted.
pub fn stability_due(stats: &SearchStats, limits: &Limits) -> (due: bool)
    ensures
        due == soft_check_due(stats.main_iters as int, *limits),
{
    stats.main_iters % 4096 == 0 && limits.opt_time.is_some()
}

/// What a check of the limits says, given the counters, the time that has
/// passed and whether the result was found stable: the first of the limits
/// that has been reached, in the order of `Verdict`.
pub open spec fn verdict_of(limits: Limits, stats: SearchStats, elapsed: u128, stable: bool) -> Verdict {
    if stats.total_iters >= limits.max_nodes {
        Verdict::NodeLimit
    } else if quick_check_due(stats.main_iters as int) && limits.max_time is Some && elapsed
        >= limits.max_time->0 {
        Verdict::TimeLimit
    } else if soft_check_due(stats.main_iters as int, limits) && stable {
        Verdict::SoftTimeLimit
    } else if average_depth(stats) > stats.avg_depth && average_depth(stats) >= limits.max_depth {
        Verdict::DepthLimit
    } else {
        Verdict::Continue
    }
}

/// The counters after a check of the limits: a new greatest average depth is
/// noted, unless a limit on iterations or time ended the search first.
pub open spec fn stats_checked(limits: Limits, stats: SearchStats, elapsed: u128, stable: bool) -> SearchStats {
    let v = verdict_of(limits, stats, elapsed, stable);
    if (v == Verdict::Continue || v == Verdict::DepthLimit) && average_depth(stats)
        > stats.avg_depth {
        SearchStats { avg_depth: average_depth(stats) as usize, ..stats }
    } else {
        stats
    }
}

/// What holds the count of changes of the best move: its number after a
/// check, which counts a change when the clock is looked at and starts anew
/// every 16384 iterations while the stability of the result is looked at.
pub open spec fn changes_checked(
    limits: Limits,
    stats: SearchStats,
    elapsed: u128,
    stable: bool,
    best: Move,
    new_best: Move,
    changes: i32,
) -> int {
    let v = verdict_of(limits, stats, elapsed, stable);
    if v == Verdict::NodeLimit || v == Verdict::TimeLimit {
        changes as int
    } else {
        let counted = if quick_check_due(stats.main_iters as int) && new_best != best
            && changes < i32::MAX {
            changes + 1
        } else {
            changes as int
        };
        if v != Verdict::SoftTimeLimit && soft_check_due(stats.main_iters as int, limits)
            && stats.main_iters % 16384 == 0 {
            0
        } else {
            counted
        }
    }
}

/// Checks the limits of a search after an iteration of the main worker.
/// `elapsed` is the time since the search began, in milliseconds, `new_best`
/// the best move at the root as it is now, and `stable` whether the result
/// was found stable enough to stop early, which counts only when
/// `soft_check_due` holds. Keeps the best move and the count of its changes
/// up to date, and the greatest average depth.
pub fn check_limits(
    limits: &Limits,
    stats: &mut SearchStats,
    elapsed: u128,
    stable: bool,
    new_best: Move,
    best_move: &mut Move,
    best_move_changes: &mut i32,
) -> (v: Verdict)
    ensures
        v == verdict_of(*limits, *old(stats), elapsed, stable),
        *final(stats) == stats_checked(*limits, *old(stats), elapsed, stable),
        *final(best_move_changes) == changes_checked(
            *limits,
            *old(stats),
            elapsed,
            stable,
            *old(best_move),
            new_best,
            *old(best_move_changes),
        ),
        *final(best_move) == (if v != Verdict::NodeLimit && v != Verdict::TimeLimit
            && quick_check_due(old(stats).main_iters as int) {
            new_best
        } else {
            *old(best_move)
        }),
{
    let iters = stats.main_iters;
    if stats.total_iters >= limits.max_nodes {
        return Verdict::NodeLimit;
    }
    if iters % 128 == 0 {
        match limits.max_time {
            Some(time) => {
                if elapsed >= time {
                    return Verdict::TimeLimit;
                }
            },
            None => {},
        }
        if new_best != *best_move {
            *best_move = new_best;
            if *best_move_changes < i32::MAX {
                *best_move_changes = *best_move_changes + 1;
            }
        }
    }
    if iters % 4096 == 0 && limits.opt_time.is_some() {
        if stable {
            return Verdict::SoftTimeLimit;
        }
        if iters % 16384 == 0 {
            *best_move_changes = 0;
        }
    }
    let new_depth = if stats.total_iters == 0 || stats.total_nodes < stats.total_iters {
        0
    } else {
        (stats.total_nodes - stats.total_iters) / stats.total_iters
    };
    if new_depth > stats.avg_depth {
        stats.avg_depth = new_depth;
        if new_depth >= limits.max_depth {
            return Verdict::DepthLimit;
        }
    }
    Verdict::Continue
}

/// The counters after an iteration that came `depth` nodes deep was counted.
/// A counter that is full stays as it is.
pub open spec fn stats_counted(stats: SearchStats, depth: usize, main: bool) -> SearchStats {
    SearchStats {
        total_iters: if stats.total_iters < usize::MAX {
            (stats.total_iters + 1) as usize
        } else {
            stats.total_iters
        },
        total_nodes: if stats.total_nodes + depth <= usize::MAX {
            (stats.total_nodes + depth) as usize
        } else {
            usize::MAX
        },
        seldepth: if depth > 0 && depth - 1 > stats.seldepth {
            (depth - 1) as usize
        } else {
            stats.seldepth
        },
        main_iters: if main && stats.main_iters < usize::MAX {
            (stats.main_iters + 1) as usize
        } else {
            stats.main_iters
        },
        avg_depth: stats.avg_depth,
    }
}

/// Counts an iteration that came `depth` nodes deep, and says whether the
/// worker is to stop without looking at the limits: because the root is
/// decided or because the search was told to stop.
pub fn iteration_done(
    stats: &mut SearchStats,
    depth: usize,
    main: bool,
    root_decided: bool,
    abort: bool,
) -> (stop: bool)
    ensures
        *final(stats) == stats_counted(*old(stats), depth, main),
        stop == (root_decided || abort),
{
    if stats.total_iters < usize::MAX {
        stats.total_iters = stats.total_iters + 1;
    }
    stats.total_nodes = stats.total_nodes.saturating_add(depth);
    if depth > 0 && depth - 1 > stats.seldepth {
        stats.seldepth = depth - 1;
    }
    if main && stats.main_iters < usize::MAX {
        stats.main_iters = stats.main_iters + 1;
    }
    root_decided || abort
}

/// A worker that counts an iteration only while no check has told it to
/// stop never counts more iterations than the limit allows, and when the
/// limit on iterations stops it, it has counted exactly that many.
pub proof fn lemma_node_limit(
    limits: Limits,
    before: SearchStats,
    after: SearchStats,
    depth: usize,
    main: bool,
    elapsed: u128,
    stable: bool,
)
    requires
        limits.max_nodes >= 1,
        before.total_iters < limits.max_nodes,
        after == stats_counted(before, depth, main),
    ensures
        after.total_iters <= limits.max_nodes,
        after.total_iters == before.total_iters + 1,
        verdict_of(limits, after, elapsed, stable) == Verdict::NodeLimit <==> after.total_iters
            == limits.max_nodes,
        verdict_of(limits, before, elapsed, stable) != Verdict::NodeLimit,
{
}

} // verus!
