//! How the counters of a search move together.

use vstd::prelude::*;
use super::searcher::{SearchCounters, CLOCK_CHECK_INTERVAL};

verus! {

/// What a search has counted, and what it holds.
pub struct Pace {
    /// The search's own counters.
    pub tally: SearchCounters,
    /// Assignments made.
    pub assigned: u64,
    /// Clauses in the database.
    pub clauses: int,
    /// The node limit.
    pub limit: Option<u64>,
    /// Whether clauses are learned from conflicts.
    pub learning: bool,
    /// Whether the search was told to stop.
    pub stopped: bool,
    /// Whether no time at all is allowed.
    pub instant: bool,
    /// Whether verdicts are remembered.
    pub remembering: bool,
    /// Questions put to the memo.
    pub lookups: u64,
    /// Questions that the memo answered.
    pub hits: u64,
}

/// The search goes by its limits: it is over as soon as there are more nodes than the limit, so there
/// is at most one too many; and where no time is allowed it is over the first time that the clock is
/// read.
pub open spec fn within_limit(p: Pace) -> bool {
    &&& p.limit matches Some(limit) ==> p.tally.nodes <= limit + 1 && (p.tally.nodes > limit ==> p.stopped)
    &&& p.instant ==> p.tally.nodes <= CLOCK_CHECK_INTERVAL && (p.tally.nodes == CLOCK_CHECK_INTERVAL ==> p.stopped)
}

/// The memo was asked at every visit but the one at which the search was told to stop.
pub open spec fn memo_asked(a: Pace, b: Pace) -> bool {
    &&& b.remembering ==> b.lookups - a.lookups == b.tally.nodes - a.tally.nodes - if b.stopped && !a.stopped {
        1int
    } else {
        0int
    }
    &&& b.hits - a.hits <= b.lookups - a.lookups
}

/// The search is no deeper than it has visited nodes, and the first node is at depth one.
pub open spec fn depth_visited(p: Pace) -> bool {
    p.tally.max_depth <= p.tally.nodes && (p.tally.nodes > 0 ==> p.tally.max_depth > 0)
}

/// Nothing was learned in between.
pub open spec fn nothing_learned(a: Pace, b: Pace) -> bool {
    &&& b.clauses == a.clauses
    &&& b.tally.learned == a.tally.learned
    &&& b.tally.discarded == a.tally.discarded
    &&& b.tally.backjumps == a.tally.backjumps
    &&& b.tally.levels_skipped == a.tally.levels_skipped
}

/// The same limits, no new order to stop, and no question to the memo.
pub open spec fn same_orders(a: Pace, b: Pace) -> bool {
    &&& b.limit == a.limit
    &&& b.learning == a.learning
    &&& b.stopped == a.stopped
    &&& b.instant == a.instant
    &&& b.remembering == a.remembering
    &&& b.lookups == a.lookups
    &&& b.hits == a.hits
}

/// No counter has reached the largest number it can hold.
pub open spec fn uncapped(p: Pace) -> bool {
    &&& p.tally.nodes < u64::MAX
    &&& p.tally.decisions < u64::MAX
    &&& p.tally.conflicts < u64::MAX
    &&& p.tally.components < u64::MAX
    &&& p.tally.pure_literals < u64::MAX
    &&& p.tally.learned < u64::MAX
    &&& p.tally.discarded < u64::MAX
    &&& p.tally.backjumps < u64::MAX
    &&& p.tally.levels_skipped < u64::MAX
    &&& p.assigned < u64::MAX
}

/// Nothing is counted down.
pub open spec fn counts_on(a: Pace, b: Pace) -> bool {
    &&& a.tally.nodes <= b.tally.nodes
    &&& a.tally.decisions <= b.tally.decisions
    &&& a.tally.conflicts <= b.tally.conflicts
    &&& a.tally.components <= b.tally.components
    &&& a.tally.pure_literals <= b.tally.pure_literals
    &&& a.tally.learned <= b.tally.learned
    &&& a.tally.discarded <= b.tally.discarded
    &&& a.tally.backjumps <= b.tally.backjumps
    &&& a.tally.levels_skipped <= b.tally.levels_skipped
    &&& a.tally.max_depth <= b.tally.max_depth
    &&& a.assigned <= b.assigned
    &&& a.clauses <= b.clauses
    &&& a.lookups <= b.lookups
    &&& a.hits <= b.hits
}

/// Between `a` and `b`, as long as no counter is full: there were at most `nodes` visits more than
/// components found, at most `decisions` decisions more than two for each visit, and at most
/// `conflicts` clauses derived more than conflicts; every clause that was kept is in the database;
/// backjumps come from such clauses, and each skips a level; pure literals were assigned. Whatever
/// the counters: the node limit was heeded, the depth stayed below the number of nodes, and with
/// learning off nothing was learned.
#[verifier::opaque]
pub open spec fn paced(a: Pace, b: Pace, nodes: int, decisions: int, conflicts: int) -> bool {
    &&& counts_on(a, b)
    &&& b.limit == a.limit
    &&& b.learning == a.learning
    &&& b.instant == a.instant
    &&& b.remembering == a.remembering
    &&& a.stopped ==> b.stopped
    &&& b.tally.nodes < u64::MAX && b.lookups < u64::MAX && b.hits < u64::MAX ==> memo_asked(a, b)
    &&& within_limit(a) ==> within_limit(b)
    &&& depth_visited(a) ==> depth_visited(b)
    &&& !a.learning ==> nothing_learned(a, b)
    &&& uncapped(b) ==> {
        &&& b.tally.nodes - a.tally.nodes <= b.tally.components - a.tally.components + nodes
        &&& b.tally.decisions - a.tally.decisions <= 2 * (b.tally.nodes - a.tally.nodes) + decisions
        &&& (b.tally.learned - a.tally.learned) + (b.tally.discarded - a.tally.discarded) <= b.tally.conflicts
            - a.tally.conflicts + conflicts
        &&& b.tally.learned - a.tally.learned == b.clauses - a.clauses
        &&& b.tally.backjumps - a.tally.backjumps <= b.tally.learned - a.tally.learned
        &&& b.tally.backjumps - a.tally.backjumps <= b.tally.levels_skipped - a.tally.levels_skipped
        &&& b.tally.pure_literals - a.tally.pure_literals <= b.assigned - a.assigned
    }
}

/// What a whole search has counted: no more visits than components, no more than two decisions for
/// each visit, no more derived clauses than conflicts, one clause in the database for each that was
/// kept, no more backjumps than those or than levels skipped, and no more pure literals than
/// assignments. All of this as long as no counter is full.
pub open spec fn balanced(p: Pace, given: int) -> bool {
    uncapped(p) ==> {
        &&& p.tally.nodes <= p.tally.components
        &&& p.tally.decisions <= 2 * p.tally.nodes
        &&& p.tally.learned + p.tally.discarded <= p.tally.conflicts
        &&& p.tally.learned == p.clauses - given
        &&& p.tally.backjumps <= p.tally.learned
        &&& p.tally.backjumps <= p.tally.levels_skipped
        &&& p.tally.pure_literals <= p.assigned
    }
}

/// A search that started from nothing is balanced.
pub proof fn lemma_balanced(a: Pace, b: Pace)
    requires
        paced(a, b, 0, 0, 0),
        a.tally == SearchCounters::zero(),
        a.assigned == 0,
    ensures
        balanced(b, a.clauses),
        b.limit == a.limit,
        within_limit(b),
        depth_visited(b),
        !a.learning ==> nothing_learned(a, b),
        b.tally.nodes < u64::MAX && b.lookups < u64::MAX && b.hits < u64::MAX ==> memo_asked(a, b),
        b.remembering == a.remembering,
        b.instant == a.instant,
{
    reveal(paced);
}

pub proof fn lemma_paced_refl(a: Pace)
    ensures
        paced(a, a, 0, 0, 0),
{
    reveal(paced);
}

pub proof fn lemma_paced_trans(a: Pace, b: Pace, c: Pace, n1: int, d1: int, k1: int, n2: int, d2: int, k2: int)
    requires
        paced(a, b, n1, d1, k1),
        paced(b, c, n2, d2, k2),
    ensures
        paced(a, c, n1 + n2, d1 + d2, k1 + k2),
{
    reveal(paced);
}

/// More room does no harm.
pub proof fn lemma_paced_widen(a: Pace, b: Pace, n1: int, d1: int, k1: int, n2: int, d2: int, k2: int)
    requires
        paced(a, b, n1, d1, k1),
        n1 <= n2,
        d1 <= d2,
        k1 <= k2,
    ensures
        paced(a, b, n2, d2, k2),
{
    reveal(paced);
}

/// Assignments alone.
pub proof fn lemma_paced_assigned(a: Pace, b: Pace)
    requires
        same_orders(a, b),
        b.tally == a.tally,
        b.clauses == a.clauses,
        a.assigned <= b.assigned,
    ensures
        paced(a, b, 0, 0, 0),
{
    reveal(paced);
}

/// Visits add up.
pub proof fn lemma_paced_nodes(a: Pace, b: Pace, n: int, d: int, k: int)
    requires
        paced(a, b, n, d, k),
    ensures
        a.tally.nodes <= b.tally.nodes,
{
    reveal(paced);
}

/// A visit, with the question whether to stop that follows it.
pub proof fn lemma_paced_node(a: Pace, b: Pace)
    requires
        b.tally == (SearchCounters {
            nodes: a.tally.nodes.saturating_add(1),
            max_depth: b.tally.max_depth,
            ..a.tally
        }),
        a.tally.max_depth <= b.tally.max_depth,
        b.tally.max_depth > 0,
        b.tally.max_depth <= a.tally.max_depth || depth_visited(b),
        b.limit == a.limit,
        b.learning == a.learning,
        !a.stopped,
        b.limit is Some && b.tally.nodes > b.limit->0 ==> b.stopped,
        b.instant == a.instant,
        b.instant && b.tally.nodes % CLOCK_CHECK_INTERVAL == 0 ==> b.stopped,
        b.remembering == a.remembering,
        b.lookups == (if a.remembering && !b.stopped {
            a.lookups.saturating_add(1)
        } else {
            a.lookups
        }),
        b.hits == a.hits || (a.remembering && !b.stopped && b.hits == a.hits.saturating_add(1)),
        b.clauses == a.clauses,
        b.assigned == a.assigned,
    ensures
        paced(a, b, 1, -2, 0),
{
    reveal(paced);
}

/// A decision.
pub proof fn lemma_paced_decision(a: Pace, b: Pace)
    requires
        same_orders(a, b),
        b.tally == (SearchCounters { decisions: a.tally.decisions.saturating_add(1), ..a.tally }),
        b.clauses == a.clauses,
        a.assigned <= b.assigned,
    ensures
        paced(a, b, 0, 1, 0),
{
    reveal(paced);
}

/// A conflict.
pub proof fn lemma_paced_conflict(a: Pace, b: Pace)
    requires
        same_orders(a, b),
        b.tally == (SearchCounters { conflicts: a.tally.conflicts.saturating_add(1), ..a.tally }),
        b.clauses == a.clauses,
        b.assigned == a.assigned,
    ensures
        paced(a, b, 0, 0, -1),
{
    reveal(paced);
}

/// Components found.
pub proof fn lemma_paced_components(a: Pace, b: Pace, k: u64)
    requires
        same_orders(a, b),
        b.tally == (SearchCounters { components: a.tally.components.saturating_add(k), ..a.tally }),
        b.clauses == a.clauses,
        b.assigned == a.assigned,
    ensures
        paced(a, b, -(k as int), 0, 0),
{
    reveal(paced);
}

/// Pure literals assigned.
pub proof fn lemma_paced_pure(a: Pace, b: Pace, k: u64)
    requires
        same_orders(a, b),
        b.tally == (SearchCounters { pure_literals: a.tally.pure_literals.saturating_add(k), ..a.tally }),
        b.clauses == a.clauses,
        a.assigned <= b.assigned,
        b.assigned < u64::MAX ==> b.assigned - a.assigned >= k,
    ensures
        paced(a, b, 0, 0, 0),
{
    reveal(paced);
}

/// A clause derived and thrown away.
pub proof fn lemma_paced_discarded(a: Pace, b: Pace)
    requires
        same_orders(a, b),
        a.learning,
        b.tally == (SearchCounters { discarded: a.tally.discarded.saturating_add(1), ..a.tally }),
        b.clauses == a.clauses,
        b.assigned == a.assigned,
    ensures
        paced(a, b, 0, 0, 1),
{
    reveal(paced);
}

/// A clause derived and kept, with or without a backjump over some levels.
pub proof fn lemma_paced_learned(a: Pace, b: Pace, jumps: bool, levels: u64)
    requires
        same_orders(a, b),
        a.learning,
        b.tally == (SearchCounters {
            learned: a.tally.learned.saturating_add(1),
            backjumps: if jumps {
                a.tally.backjumps.saturating_add(1)
            } else {
                a.tally.backjumps
            },
            levels_skipped: if jumps {
                a.tally.levels_skipped.saturating_add(levels)
            } else {
                a.tally.levels_skipped
            },
            ..a.tally
        }),
        jumps ==> levels >= 1,
        b.clauses == a.clauses + 1,
        b.assigned == a.assigned,
    ensures
        paced(a, b, 0, 0, 1),
{
    reveal(paced);
}

} // verus!
