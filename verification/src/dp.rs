//! The original Davis–Putnam procedure.
//!
//! Published in 1960, two years before the backtracking search that replaced it. It decides
//! satisfiability without any search at all: propagate units, remove pure literals, then pick a
//! variable and *eliminate* it by replacing every clause containing it with all resolvents of its
//! positive and negative occurrences. Repeat. No clauses left means satisfiable; the empty clause
//! means unsatisfiable.
//!
//! It shares all of its machinery with the bounded variable elimination in
//! [`crate::preprocess`], so it costs almost nothing to provide. And running it next to the DPLL
//! search makes concrete why the 1962 paper won: memory. Eliminating a variable of degree
//! `p` and `n` can produce `p * n` clauses, and that compounds.
//!
//! Elimination order is cheapest-first, by the product of the occurrence counts, which is the
//! standard heuristic and delays the blowup as long as anything can.

use vstd::prelude::*;
use crate::cnf::{lemma_normalization_is_equivalent, norm_formula, Cnf, Model};
use crate::elim::{eliminate_pure_literals, eliminate_var, resolvent_count, unit_propagate, Reconstruction, Working};
use crate::elim::elimination::{clauses_on, eliminated, lemma_eliminated, lemma_eliminated_count, lemma_elimination_simplifies, resolvents};
use crate::elim::pure::{is_pure, lemma_count_occurs, lemma_pure_elimination_simplifies, lemma_without_occurs, pure_rounds, without_each};
use crate::elim::reconstruction::{lemma_simplifications_compose, lemma_simplifies_refl, replay, replayable, simplifies, slots_sat, Undo, lemma_replay_len};
use crate::elim::units::{derivable, falsified, fixed_since, fixes, lemma_propagation_conflict_refutes, lemma_unit_propagation_simplifies, propagated, rest_at};
use crate::elim::working::{capped_count, holds, is_live, lemma_live_count_zero, lemma_slots_of, lemma_slots_true, live_count, occurs, slots_normal, slots_of, slots_true, Slots};
use crate::lit::{mk_lit, Lit, Var};
use crate::semantics::{formula_below, formula_true, normal_formula, satisfiable, valuation, Valuation};

verus! {

/// How a Davis–Putnam run ended.
#[derive(Debug)]
pub enum DpOutcome {
    /// Satisfiable, with a model recovered from the elimination trail.
    Sat(Model),
    /// Unsatisfiable.
    Unsat,
    /// The clause limit was hit; the procedure ran out of room, not out of work.
    OutOfResources {
        /// Clauses present when the limit was hit.
        clauses: usize,
        /// Variables eliminated before that.
        eliminated: usize,
    },
}

/// Counters for a Davis–Putnam run.
#[derive(Copy, Clone, Debug)]
pub struct DpStats {
    /// Variables removed by resolution.
    pub eliminated: usize,
    /// Resolvents generated.
    pub resolvents: u64,
    /// Largest clause count reached, the number that decides whether this finishes.
    pub peak_clauses: usize,
}

impl Default for DpStats {
    fn default() -> (s: Self)
        ensures
            s.eliminated == 0,
            s.resolvents == 0,
            s.peak_clauses == 0,
    {
        DpStats { eliminated: 0, resolvents: 0, peak_clauses: 0 }
    }
}

/// Both literals of the variable occur.
pub open spec fn two_sided(s: Slots, v: int) -> bool {
    occurs(s, mk_lit(v, true)) && occurs(s, mk_lit(v, false))
}

/// The number of resolution attempts that eliminating the variable takes.
pub open spec fn cost(s: Slots, v: int) -> int {
    capped_count(s, mk_lit(v, true)) * capped_count(s, mk_lit(v, false))
}

/// The variable has the least cost of those that occur on both sides; of several, it comes first.
pub open spec fn is_cheapest(s: Slots, n: int, v: int) -> bool {
    &&& 0 <= v < n
    &&& two_sided(s, v)
    &&& forall|u: int|
        0 <= u < n && #[trigger] two_sided(s, u) ==> cost(s, v) < cost(s, u) || (cost(s, v) == cost(s, u) && v
            <= u)
}

/// The variable whose elimination looks cheapest.
///
/// Ranked by the number of resolution attempts, rather than by the exact resolvent count.
/// Counting exactly means performing every resolution for every candidate variable on every
/// iteration, which costs more than the elimination it is choosing.
fn cheapest_variable(w: &Working) -> (r: Option<Var>)
    requires
        w.wf(),
    ensures
        r is Some ==> is_cheapest(w.slots(), w.nv(), r->0.vi()),
        r is None ==> forall|v: int| 0 <= v < w.nv() ==> !#[trigger] two_sided(w.slots(), v),
{
    let counts = w.literal_counts();
    let n: usize = w.num_vars();
    let mut best: Option<Var> = None;
    let mut least: u64 = 0;
    proof {
        w.lemma_wf();
        w.lemma_in_order();
    }
    for i in 0..n
        invariant
            w.wf(),
            n == w.nv(),
            n <= Var::MAX_INDEX + 1,
            w.slots().len() <= usize::MAX,
            counts@.len() == 2 * n,
            forall|k: int|
                0 <= k < counts@.len() ==> #[trigger] counts@[k] == capped_count(
                    w.slots(),
                    Lit { code: k as u32 },
                ),
            best is Some ==> is_cheapest(w.slots(), i as int, best->0.vi()) && least == cost(
                w.slots(),
                best->0.vi(),
            ),
            best is None ==> forall|v: int| 0 <= v < i ==> !#[trigger] two_sided(w.slots(), v),
    {
        let v = Var::from_index(i);
        let p = v.positive();
        let q = v.negative();
        let pos: u64 = counts[p.index()] as u64;
        let neg: u64 = counts[q.index()] as u64;
        proof {
            assert(p == mk_lit(i as int, true) && q == mk_lit(i as int, false));
            assert(counts@[p.code as int] == capped_count(w.slots(), Lit { code: p.code }));
            assert(counts@[q.code as int] == capped_count(w.slots(), Lit { code: q.code }));
            lemma_count_occurs(w.slots(), p);
            lemma_count_occurs(w.slots(), q);
            assert(pos * neg <= 0xffff_ffff * 0xffff_ffff) by (nonlinear_arith)
                requires
                    pos <= 0xffff_ffff,
                    neg <= 0xffff_ffff,
            ;
        }
        if pos > 0 && neg > 0 {
            let c: u64 = pos * neg;
            assert(c == cost(w.slots(), i as int));
            if best.is_none() || c < least {
                best = Some(v);
                least = c;
            }
        }
    }
    best
}

/// A stage of the procedure: the clauses, and what has been counted so far.
pub struct DpState {
    /// The clauses at the start of the round.
    pub clauses: Slots,
    /// Variables eliminated.
    pub eliminated: nat,
    /// Resolvents generated.
    pub resolvents: nat,
    /// Largest clause count at the start of a round.
    pub peak: nat,
}

/// The clauses that pure literal elimination leaves.
pub open spec fn without_pure(s: Slots, n: int) -> Slots {
    without_each(s, pure_rounds(s, n))
}

/// One round: propagate units, which makes `u` true and leaves `g`; drop pure literals; eliminate
/// the cheapest variable, `v`.
pub open spec fn dp_round(a: DpState, n: int, u: Seq<Lit>, g: Slots, v: int, b: DpState) -> bool {
    let h = without_pure(g, n);
    &&& propagated(a.clauses, u, g)
    &&& live_count(h) > 0
    &&& is_cheapest(h, n, v)
    &&& b.clauses == eliminated(h, v)
    &&& b.eliminated == a.eliminated + 1
    &&& b.resolvents == a.resolvents + resolvents(h, v).len()
    &&& b.peak == if live_count(b.clauses) > a.peak {
        live_count(b.clauses)
    } else {
        a.peak
    }
}

/// Some round leads from `a` to `b`.
pub open spec fn dp_next(a: DpState, n: int, b: DpState) -> bool {
    exists|u: Seq<Lit>, g: Slots, v: int| #[trigger] dp_round(a, n, u, g, v, b)
}

/// Nothing has been done yet.
pub open spec fn dp_start(f: Slots) -> DpState {
    DpState { clauses: f, eliminated: 0, resolvents: 0, peak: live_count(f) }
}

/// The procedure reaches the stage from the formula, with no round but the last ending over the
/// clause limit.
pub open spec fn dp_reaches(f: Slots, n: int, limit: nat, st: DpState) -> bool
    decreases st.eliminated,
{
    if st.eliminated == 0 {
        st == dp_start(f)
    } else {
        exists|a: DpState|
            a.eliminated + 1 == st.eliminated && dp_reaches(f, n, limit, a) && (a.eliminated > 0
                ==> live_count(a.clauses) <= limit) && #[trigger] dp_next(a, n, st)
    }
}

/// The counters tell the stage.
pub open spec fn stats_tell(stats: DpStats, st: DpState) -> bool {
    &&& stats.eliminated == st.eliminated
    &&& stats.peak_clauses == st.peak
    &&& stats.resolvents == if st.resolvents < u64::MAX {
        st.resolvents as int
    } else {
        u64::MAX as int
    }
}

/// Unit propagation at this stage runs into a conflict.
pub open spec fn dp_refuted(st: DpState) -> bool {
    exists|u: Seq<Lit>| derivable(st.clauses, u) && #[trigger] falsified(st.clauses, u)
}

/// Unit propagation and pure literals at this stage leave no clause.
pub open spec fn dp_solved(st: DpState, n: int) -> bool {
    exists|u: Seq<Lit>, g: Slots| #[trigger]
        propagated(st.clauses, u, g) && live_count(without_pure(g, n)) == 0
}

/// The stage is where the procedure stops, with this outcome.
pub open spec fn dp_ends(st: DpState, n: int, limit: nat, outcome: DpOutcome) -> bool {
    match outcome {
        DpOutcome::Sat(_) => dp_solved(st, n),
        DpOutcome::Unsat => dp_refuted(st),
        DpOutcome::OutOfResources { clauses, eliminated } => {
            &&& st.eliminated > 0
            &&& eliminated == st.eliminated
            &&& clauses == live_count(st.clauses)
            &&& clauses > limit
        },
    }
}

/// Some clause is empty.
pub open spec fn has_empty_clause(f: Seq<Seq<Lit>>) -> bool {
    exists|i: int| 0 <= i < f.len() && (#[trigger] f[i]).len() == 0
}

/// How many variables below `n` occur.
pub open spec fn vars_left(s: Slots, n: int) -> nat
    decreases n,
{
    if n <= 0 {
        0
    } else {
        vars_left(s, n - 1) + if occurs(s, mk_lit(n - 1, true)) || occurs(s, mk_lit(n - 1, false)) {
            1nat
        } else {
            0nat
        }
    }
}

/// Fewer literals occur, so fewer variables do; fewer still where one of them is gone.
proof fn lemma_vars_left(s: Slots, t: Slots, n: int, v: int)
    requires
        forall|l: Lit| #[trigger] occurs(t, l) ==> occurs(s, l),
    ensures
        vars_left(t, n) <= vars_left(s, n),
        vars_left(s, n) <= if n > 0 { n } else { 0 },
        0 <= v < n && occurs(s, mk_lit(v, true)) && !occurs(t, mk_lit(v, true)) && !occurs(t, mk_lit(v, false))
            ==> vars_left(t, n) < vars_left(s, n),
    decreases n,
{
    if n > 0 {
        lemma_vars_left(s, t, n - 1, v);
        assert(occurs(t, mk_lit(n - 1, true)) ==> occurs(s, mk_lit(n - 1, true)));
        assert(occurs(t, mk_lit(n - 1, false)) ==> occurs(s, mk_lit(n - 1, false)));
    }
}

/// Propagation brings no literal in.
pub proof fn lemma_propagated_occurs(s: Slots, u: Seq<Lit>, t: Slots)
    requires
        propagated(s, u, t),
    ensures
        forall|l: Lit| #[trigger] occurs(t, l) ==> occurs(s, l),
{
    assert forall|l: Lit| #[trigger] occurs(t, l) implies occurs(s, l) by {
        let j = choose|j: int| #[trigger] holds(t, j, l);
        assert(is_live(t, j));
        let i = choose|i: int| #[trigger] rest_at(s, i, u, t, j);
        assert(t[j]->0.contains(l));
        assert(holds(s, i, l));
    }
}

/// Where clauses are left after propagation and no literal is pure, some variable occurs on both
/// sides.
proof fn lemma_some_two_sided(s: Slots, u: Seq<Lit>, g: Slots, h: Slots, n: int)
    requires
        propagated(s, u, g),
        h == without_pure(g, n),
        live_count(h) > 0,
        slots_normal(h, n),
        n <= Var::MAX_INDEX + 1,
        forall|l: Lit| l.vi() < n ==> !#[trigger] is_pure(h, l),
    ensures
        exists|v: int| 0 <= v < n && #[trigger] two_sided(h, v),
{
    lemma_live_count_zero(h);
    let i = choose|i: int| #[trigger] is_live(h, i);
    lemma_without_occurs(g, pure_rounds(g, n), Lit { code: 0 });
    assert(is_live(g, i) && h[i] == g[i]);
    let l = h[i]->0[0];
    assert(h[i]->0.contains(l));
    assert(holds(h, i, l));
    assert(l.vi() < n);
    assert(!is_pure(h, l));
    assert(occurs(h, l) && occurs(h, l.neg()));
    crate::lit::lemma_mk_lit(l);
    assert(two_sided(h, l.vi()));
}

/// A model of a simplified formula without clauses replays to a model of the formula.
proof fn lemma_empty_lifts(f: Seq<Seq<Lit>>, trail: Seq<Undo>, w: Slots, n: int, m: Seq<bool>)
    requires
        simplifies(slots_of(norm_formula(f)), trail, w, n),
        live_count(w) == 0,
        m.len() == n,
    ensures
        replayable(trail, m),
        replay(trail, m).len() == n,
        formula_true(valuation(replay(trail, m)), f),
{
    let g = norm_formula(f);
    lemma_live_count_zero(w);
    assert(slots_true(valuation(m), w));
    lemma_replay_len(trail, m);
    lemma_slots_of(g);
    lemma_slots_true(valuation(replay(trail, m)), slots_of(g));
    lemma_normalization_is_equivalent(f, n);
    assert(formula_true(valuation(replay(trail, m)), f) <==> formula_true(valuation(replay(trail, m)), g));
}

/// A refuted simplification refutes the formula.
pub proof fn lemma_refutation_lifts(f: Seq<Seq<Lit>>, trail: Seq<Undo>, w: Slots, n: int)
    requires
        simplifies(slots_of(norm_formula(f)), trail, w, n),
        !slots_sat(w),
    ensures
        !satisfiable(f),
{
    let g = norm_formula(f);
    if satisfiable(f) {
        let m = choose|m: Valuation| formula_true(m, f);
        lemma_normalization_is_equivalent(f, n);
        assert(formula_true(m, g));
        lemma_slots_of(g);
        lemma_slots_true(m, slots_of(g));
    }
}

/// The slots of a normal formula are normal.
pub proof fn lemma_slots_of_normal(f: Seq<Seq<Lit>>, n: int)
    requires
        normal_formula(f),
        formula_below(f, n),
    ensures
        slots_normal(slots_of(f), n),
{
    assert forall|i: int| #[trigger] is_live(slots_of(f), i) implies crate::semantics::normal_clause(
        slots_of(f)[i]->0,
    ) && crate::semantics::clause_below(slots_of(f)[i]->0, n) by {
        assert(slots_of(f)[i]->0 == f[i]);
    }
}

/// A round whose clauses are over the limit or not: the stage it leads to is reached.
proof fn lemma_reach_next(f: Slots, n: int, limit: nat, a: DpState, u: Seq<Lit>, g: Slots, v: int, b: DpState)
    requires
        dp_reaches(f, n, limit, a),
        a.eliminated > 0 ==> live_count(a.clauses) <= limit,
        dp_round(a, n, u, g, v, b),
    ensures
        dp_reaches(f, n, limit, b),
{
    assert(dp_next(a, n, b));
}

/// What a run on the formula `f` over `n` variables ends with: a model satisfies the formula, a
/// refuted formula is unsatisfiable, and outcome and counters are those of the stage at which the
/// procedure stops. A limit that no number of clauses exceeds always leads to a verdict.
pub open spec fn dp_result(f: Seq<Seq<Lit>>, n: int, clause_limit: usize, o: DpOutcome, stats: DpStats) -> bool {
    let g = slots_of(norm_formula(f));
    &&& o is Sat ==> o->Sat_0@.len() == n && formula_true(valuation(o->Sat_0@), f)
    &&& o is Unsat ==> !satisfiable(f)
    &&& clause_limit == usize::MAX ==> !(o is OutOfResources)
    &&& has_empty_clause(f) ==> o is Unsat && stats.eliminated == 0 && stats.resolvents == 0 && stats.peak_clauses
        == 0
    &&& !has_empty_clause(f) ==> exists|st: DpState|
        #![trigger dp_reaches(g, n, clause_limit as nat, st)]
        dp_reaches(g, n, clause_limit as nat, st) && stats_tell(stats, st) && dp_ends(
            st,
            n,
            clause_limit as nat,
            o,
        )
}

/// Runs Davis–Putnam to completion, or until more than `clause_limit` clauses exist.
pub fn solve(cnf: &Cnf, clause_limit: usize) -> (r: (DpOutcome, DpStats))
    requires
        cnf.wf(),
        cnf.nv() <= Var::MAX_INDEX + 1,
    ensures
        dp_result(cnf@, cnf.nv(), clause_limit, r.0, r.1),
{
    let (normalised, empty) = cnf.normalized();
    let mut stats = DpStats::default();
    let mut trail = Reconstruction::new();
    if empty {
        proof {
            let i = choose|i: int| 0 <= i < cnf@.len() && (#[trigger] cnf@[i]).len() == 0;
            assert forall|m: Valuation| !formula_true(m, cnf@) by {
                if formula_true(m, cnf@) {
                    assert(crate::semantics::clause_true(m, cnf@[i]));
                }
            }
        }
        return (DpOutcome::Unsat, stats);
    }
    let ghost n = cnf.nv();
    let ghost limit = clause_limit as nat;
    let ghost f = slots_of(norm_formula(cnf@));
    proof {
        cnf.lemma_wf();
        lemma_normalization_is_equivalent(cnf@, n);
        lemma_slots_of_normal(norm_formula(cnf@), n);
    }
    let mut w = Working::new(&normalised);
    stats.peak_clauses = w.live_clauses();
    let ghost mut st = dp_start(f);
    proof {
        lemma_simplifies_refl(f, n);
        lemma_vars_left(f, f, n, 0);
    }
    loop
        invariant
            cnf.wf(),
            n == cnf.nv(),
            0 <= n <= Var::MAX_INDEX + 1,
            limit == clause_limit,
            !has_empty_clause(cnf@),
            f == slots_of(norm_formula(cnf@)),
            w.wf(),
            w.nv() == n,
            st.clauses == w.slots(),
            dp_reaches(f, n, limit, st),
            stats_tell(stats, st),
            st.eliminated > 0 ==> live_count(w.slots()) <= limit,
            st.eliminated + vars_left(w.slots(), n) <= n,
            simplifies(f, trail@, w.slots(), n),
        decreases vars_left(w.slots(), n),
    {
        let ghost s = w.slots();
        let ghost before = trail@;
        proof {
            w.lemma_wf();
        }
        let ok = unit_propagate(&mut w, &mut trail);
        let ghost u = fixed_since(trail@, before.len());
        if !ok {
            proof {
                lemma_propagation_conflict_refutes(s, u);
                lemma_refutation_lifts(cnf@, before, s, n);
                assert(dp_refuted(st));
            }
            return (DpOutcome::Unsat, stats);
        }
        let ghost g = w.slots();
        proof {
            lemma_unit_propagation_simplifies(s, u, g, n);
            lemma_simplifications_compose(f, before, s, fixes(u), g, n);
            w.lemma_wf();
            lemma_pure_elimination_simplifies(g, n);
        }
        let ghost mid = trail@;
        eliminate_pure_literals(&mut w, &mut trail);
        let ghost h = w.slots();
        proof {
            lemma_simplifications_compose(f, mid, g, fixes(pure_rounds(g, n)), h, n);
            w.lemma_wf();
        }
        if w.is_empty() {
            let mut model = Model::all_false(cnf.num_vars());
            proof {
                lemma_empty_lifts(cnf@, trail@, h, n, model@);
                assert(dp_solved(st, n)) by {
                    assert(propagated(st.clauses, u, g));
                }
            }
            trail.extend(&mut model);
            return (DpOutcome::Sat(model), stats);
        }
        // Cheapest variable first: the product of the occurrence counts bounds the resolvents.
        proof {
            lemma_some_two_sided(s, u, g, h, n);
        }
        let var = match cheapest_variable(&w) {
            Some(v) => v,
            None => {
                // Every remaining variable would occur on one side only, and the pure literal rule
                // would have cleared the formula.
                proof {
                    let v = choose|v: int| 0 <= v < n && #[trigger] two_sided(h, v);
                    assert(!two_sided(h, v));
                }
                let mut model = Model::all_false(cnf.num_vars());
                trail.extend(&mut model);
                return (DpOutcome::Sat(model), stats);
            },
        };
        let ghost v = var.vi();
        let ghost late = trail@;
        proof {
            lemma_elimination_simplifies(h, v, n);
            lemma_eliminated(h, v, n);
        }
        let ghost t = eliminated(h, v);
        let ghost next = DpState {
            clauses: t,
            eliminated: st.eliminated + 1,
            resolvents: st.resolvents + resolvents(h, v).len(),
            peak: if live_count(t) > st.peak { live_count(t) } else { st.peak },
        };
        proof {
            assert(dp_round(st, n, u, g, v, next));
            lemma_reach_next(f, n, limit, st, u, g, v, next);
            lemma_propagated_occurs(s, u, g);
            lemma_round_shrinks(s, g, h, t, n, v);
            lemma_eliminated_count(h, v, n);
        }
        let added: usize = resolvent_count(&w, var);
        if stats.resolvents > u64::MAX - added as u64 {
            stats.resolvents = u64::MAX;
        } else {
            stats.resolvents = stats.resolvents + added as u64;
        }
        stats.eliminated = stats.eliminated + 1;
        // Where the count alone shows that the limit will be passed, the resolvents need not be
        // built.
        let kept: usize = w.live_clauses() - w.count(var.positive()) - w.count(var.negative());
        if added <= usize::MAX - kept && kept + added > clause_limit {
            let live: usize = kept + added;
            if live > stats.peak_clauses {
                stats.peak_clauses = live;
            }
            proof {
                st = next;
            }
            return (DpOutcome::OutOfResources { clauses: live, eliminated: stats.eliminated }, stats);
        }
        eliminate_var(&mut w, var, &mut trail);
        proof {
            lemma_simplifications_compose(
                f,
                late,
                h,
                seq![Undo::Eliminated(v, clauses_on(h, v))],
                t,
                n,
            );
            assert(trail@ =~= late + seq![Undo::Eliminated(v, clauses_on(h, v))]);
        }
        let live: usize = w.live_clauses();
        if live > stats.peak_clauses {
            stats.peak_clauses = live;
        }
        proof {
            st = next;
        }
        if live > clause_limit {
            return (DpOutcome::OutOfResources { clauses: live, eliminated: stats.eliminated }, stats);
        }
        // Occurrence lists accumulate tombstones fast under resolution, but compaction is not
        // cheap either; only pay for it once most entries are dead.
        let (dead, total) = w.tombstones();
        if dead > total - dead {
            w.compact_occurrences();
        }
    }
}

/// A round leaves fewer variables.
proof fn lemma_round_shrinks(s: Slots, g: Slots, h: Slots, t: Slots, n: int, v: int)
    requires
        forall|l: Lit| #[trigger] occurs(g, l) ==> occurs(s, l),
        h == without_pure(g, n),
        forall|l: Lit| #[trigger] occurs(t, l) ==> l.vi() != v && occurs(h, l),
        0 <= v < n,
        n <= Var::MAX_INDEX + 1,
        two_sided(h, v),
    ensures
        vars_left(t, n) < vars_left(s, n),
{
    assert forall|l: Lit| #[trigger] occurs(h, l) implies occurs(s, l) by {
        lemma_without_occurs(g, pure_rounds(g, n), l);
        assert(occurs(g, l));
    }
    assert(mk_lit(v, true).vi() == v && mk_lit(v, false).vi() == v);
    lemma_vars_left(s, t, n, v);
}

} // verus!
