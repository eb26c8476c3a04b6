//! In what order variables are eliminated, and within what limits.
//!
//! Clauses are counted here one by one, with no regard to how occurrences are kept.

use vstd::prelude::*;
use crate::dp::{dp_ends, dp_round, stats_tell, without_pure, DpOutcome, DpState, DpStats};
use crate::elim::elimination::{eliminated, lemma_eliminated, lemma_eliminated_count, resolvents};
use crate::elim::pure::lemma_count_occurs;
use crate::elim::working::{holds, is_live, live_count, occ_of, occurs, slots_normal, Slots};
use crate::lit::{mk_lit, Lit, Var};
use super::bounded::{accepted, attempt, effort, in_bounds, is_ranking, rank, Limits, Pass};

verus! {

/// How many of the clauses hold the literal.
pub open spec fn clauses_with(s: Slots, l: Lit) -> nat
    decreases s.len(),
{
    if s.len() == 0 {
        0
    } else {
        clauses_with(s.drop_last(), l) + if s.last() is Some && s.last()->0.contains(l) {
            1nat
        } else {
            0nat
        }
    }
}

/// How many clauses there are.
pub open spec fn clause_count(s: Slots) -> nat
    decreases s.len(),
{
    if s.len() == 0 {
        0
    } else {
        clause_count(s.drop_last()) + if s.last() is Some {
            1nat
        } else {
            0nat
        }
    }
}

/// How many pairs of clauses there are, one with the variable and one with its complement.
pub open spec fn pairs_on(s: Slots, v: int) -> nat {
    clauses_with(s, mk_lit(v, true)) * clauses_with(s, mk_lit(v, false))
}

proof fn lemma_clauses_with(s: Slots, l: Lit)
    ensures
        clauses_with(s, l) == occ_of(s, l).len(),
    decreases s.len(),
{
    if s.len() > 0 {
        lemma_clauses_with(s.drop_last(), l);
        assert(holds(s, s.len() - 1, l) <==> s.last() is Some && s.last()->0.contains(l));
    }
}

proof fn lemma_clause_count(s: Slots)
    ensures
        clause_count(s) == live_count(s),
    decreases s.len(),
{
    if s.len() > 0 {
        lemma_clause_count(s.drop_last());
    }
}

/// Bounded elimination lets a variable go only within its limits: it occurs with either sign, and with
/// neither in more clauses than allowed; the clauses that take the place of its own are no longer than
/// allowed and no more than they replace; and none of them mentions it. A variable whose turn comes
/// within the limits does go. The pairs of clauses to be resolved are accounted for either way, and
/// once the work is used up nothing happens.
pub proof fn lemma_elimination_keeps_to_its_limits(a: Pass, x: u128, limits: Limits, n: int)
    requires
        slots_normal(a.clauses, n),
        a.clauses.len() <= usize::MAX,
        x as int % 0x1_0000_0000 <= Var::MAX_INDEX,
    ensures
        ({
            let v = x as int % 0x1_0000_0000;
            let (p, q) = (mk_lit(v, true), mk_lit(v, false));
            let b = attempt(a, x, limits);
            let few = 0 < clauses_with(a.clauses, p) <= limits.max_occurrences && 0 < clauses_with(a.clauses, q)
                <= limits.max_occurrences;
            let short = forall|k: int|
                0 <= k < resolvents(a.clauses, v).len() ==> (#[trigger] resolvents(a.clauses, v)[k]).len()
                    <= limits.max_resolvent_len;
            let shrinks = resolvents(a.clauses, v).len() <= clauses_with(a.clauses, p) + clauses_with(a.clauses, q);
            &&& a.work >= limits.work_budget ==> b == a
            &&& a.work < limits.work_budget && a.work + x as int / 0x1_0000_0000 <= u64::MAX ==> b.work == a.work
                + x as int / 0x1_0000_0000
            &&& b.steps.len() == a.steps.len() ==> b.clauses == a.clauses
            &&& b.steps.len() <= a.steps.len() + 1
            &&& b.steps.len() > a.steps.len() <==> a.work < limits.work_budget && few && short && shrinks
            &&& b.steps.len() > a.steps.len() ==> {
                &&& !occurs(b.clauses, p) && !occurs(b.clauses, q)
                &&& clause_count(b.clauses) <= clause_count(a.clauses)
                &&& forall|i: int| #[trigger]
                    is_live(b.clauses, i) ==> (i < a.clauses.len() && b.clauses[i] == a.clauses[i])
                        || b.clauses[i]->0.len() <= limits.max_resolvent_len
            }
        }),
{
    let v = x as int % 0x1_0000_0000;
    let s = a.clauses;
    let (p, q) = (mk_lit(v, true), mk_lit(v, false));
    lemma_clauses_with(s, p);
    lemma_clauses_with(s, q);
    let b = attempt(a, x, limits);
    if a.work < limits.work_budget && accepted(s, v, limits) {
        lemma_eliminated(s, v, n);
        lemma_eliminated_count(s, v, n);
        lemma_clause_count(s);
        lemma_clause_count(b.clauses);
        if occurs(b.clauses, p) {
            assert(p.vi() != v);
        }
        if occurs(b.clauses, q) {
            assert(q.vi() != v);
        }
        assert forall|i: int| #[trigger] is_live(b.clauses, i) implies (i < s.len() && b.clauses[i] == s[i])
            || b.clauses[i]->0.len() <= limits.max_resolvent_len by {
            if i >= s.len() {
                assert(b.clauses[i]->0 == resolvents(s, v)[i - s.len()]);
            }
        }
    }
}

/// Candidates come cheapest first: by the number of pairs to be resolved, and among equals by their
/// index. All variables within the occurrence limit are candidates, and no others.
pub proof fn lemma_candidates_come_cheapest_first(s: Slots, n: int, limits: Limits, ranks: Seq<u128>, i: int, j: int)
    requires
        is_ranking(s, n, limits, ranks),
        0 <= n <= Var::MAX_INDEX + 1,
        0 <= i < j < ranks.len(),
    ensures
        ({
            let u = ranks[i] as int % 0x1_0000_0000;
            let w = ranks[j] as int % 0x1_0000_0000;
            &&& 0 <= u < n && 0 <= w < n && u != w
            &&& pairs_on(s, u) <= pairs_on(s, w) || pairs_on(s, w) >= usize::MAX
            &&& pairs_on(s, u) == pairs_on(s, w) ==> u < w
            &&& pairs_on(s, u) <= usize::MAX ==> ranks[i] as int / 0x1_0000_0000 == pairs_on(s, u)
            &&& 0 < clauses_with(s, mk_lit(u, true)) <= limits.max_occurrences
            &&& 0 < clauses_with(s, mk_lit(u, false)) <= limits.max_occurrences
        }),
{
    assert(ranks.contains(ranks[i]));
    assert(ranks.contains(ranks[j]));
    let u = choose|v: int| 0 <= v < n && #[trigger] in_bounds(s, v, limits) && ranks[i] == rank(s, v);
    let w = choose|v: int| 0 <= v < n && #[trigger] in_bounds(s, v, limits) && ranks[j] == rank(s, v);
    assert(ranks[i] < ranks[j]);
    lemma_rank_parts(s, u);
    lemma_rank_parts(s, w);
}

proof fn lemma_rank_parts(s: Slots, v: int)
    requires
        0 <= v <= Var::MAX_INDEX,
    ensures
        rank(s, v) % 0x1_0000_0000 == v,
        rank(s, v) / 0x1_0000_0000 == effort(s, v),
        effort(s, v) == if pairs_on(s, v) > usize::MAX {
            usize::MAX as int
        } else {
            pairs_on(s, v) as int
        },
        clauses_with(s, mk_lit(v, true)) == occ_of(s, mk_lit(v, true)).len(),
        clauses_with(s, mk_lit(v, false)) == occ_of(s, mk_lit(v, false)).len(),
{
    lemma_clauses_with(s, mk_lit(v, true));
    lemma_clauses_with(s, mk_lit(v, false));
}

/// Every variable below `n` within the occurrence limit is a candidate.
pub proof fn lemma_candidates_are_complete(s: Slots, n: int, limits: Limits, ranks: Seq<u128>, v: int)
    requires
        is_ranking(s, n, limits, ranks),
        0 <= v < n <= Var::MAX_INDEX + 1,
        0 < clauses_with(s, mk_lit(v, true)) <= limits.max_occurrences,
        0 < clauses_with(s, mk_lit(v, false)) <= limits.max_occurrences,
    ensures
        exists|i: int| 0 <= i < ranks.len() && #[trigger] ranks[i] as int % 0x1_0000_0000 == v,
{
    lemma_rank_parts(s, v);
    assert(in_bounds(s, v, limits));
    let r = rank(s, v) as u128;
    assert(0 <= rank(s, v) <= u128::MAX);
    assert(ranks.contains(r));
    let i = choose|i: int| 0 <= i < ranks.len() && ranks[i] == r;
    assert(ranks[i] as int % 0x1_0000_0000 == v);
}

/// Davis and Putnam's procedure eliminates the variable for which the fewest pairs of clauses are to be
/// resolved, and among several the first; every round eliminates one, which then occurs no more.
pub proof fn lemma_davis_putnam_eliminates_the_cheapest(
    a: DpState,
    n: int,
    u: Seq<Lit>,
    g: Slots,
    v: int,
    b: DpState,
    w: int,
)
    requires
        dp_round(a, n, u, g, v, b),
        n <= Var::MAX_INDEX + 1,
        slots_normal(without_pure(g, n), n),
        without_pure(g, n).len() < u32::MAX,
        0 <= w < n,
        clauses_with(without_pure(g, n), mk_lit(w, true)) > 0,
        clauses_with(without_pure(g, n), mk_lit(w, false)) > 0,
    ensures
        clauses_with(without_pure(g, n), mk_lit(v, true)) > 0,
        clauses_with(without_pure(g, n), mk_lit(v, false)) > 0,
        pairs_on(without_pure(g, n), v) <= pairs_on(without_pure(g, n), w),
        pairs_on(without_pure(g, n), v) == pairs_on(without_pure(g, n), w) ==> v <= w,
        !occurs(b.clauses, mk_lit(v, true)),
        !occurs(b.clauses, mk_lit(v, false)),
        b.eliminated == a.eliminated + 1,
        clause_count(b.clauses) + clauses_with(without_pure(g, n), mk_lit(v, true)) + clauses_with(
            without_pure(g, n),
            mk_lit(v, false),
        ) + a.resolvents == clause_count(without_pure(g, n)) + b.resolvents,
        b.peak >= a.peak,
        b.peak >= clause_count(b.clauses),
        b.peak == a.peak || b.peak == clause_count(b.clauses),
{
    let h = without_pure(g, n);
    lemma_few(h, mk_lit(v, true));
    lemma_few(h, mk_lit(v, false));
    lemma_few(h, mk_lit(w, true));
    lemma_few(h, mk_lit(w, false));
    lemma_count_occurs(h, mk_lit(v, true));
    lemma_count_occurs(h, mk_lit(v, false));
    lemma_count_occurs(h, mk_lit(w, true));
    lemma_count_occurs(h, mk_lit(w, false));
    assert(crate::dp::two_sided(h, w));
    lemma_eliminated(h, v, n);
    lemma_eliminated_count(h, v, n);
    lemma_clause_count(h);
    lemma_clause_count(b.clauses);
    if occurs(b.clauses, mk_lit(v, true)) {
        assert(mk_lit(v, true).vi() != v);
    }
    if occurs(b.clauses, mk_lit(v, false)) {
        assert(mk_lit(v, false).vi() != v);
    }
}

proof fn lemma_few(s: Slots, l: Lit)
    ensures
        clauses_with(s, l) == occ_of(s, l).len(),
        clauses_with(s, l) <= s.len(),
    decreases s.len(),
{
    lemma_clauses_with(s, l);
    if s.len() > 0 {
        lemma_few(s.drop_last(), l);
    }
}

/// The procedure runs out of resources only where there are more clauses than the limit, and says how
/// many there are and how many variables were eliminated before.
pub proof fn lemma_davis_putnam_stops_over_the_limit(st: DpState, n: int, limit: nat, o: DpOutcome, stats: DpStats)
    requires
        dp_ends(st, n, limit, o),
        stats_tell(stats, st),
    ensures
        o matches DpOutcome::OutOfResources { clauses, eliminated } ==> clauses == clause_count(st.clauses)
            && clauses > limit && eliminated == stats.eliminated && eliminated > 0,
{
    lemma_clause_count(st.clauses);
}

} // verus!
