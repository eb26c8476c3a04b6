//! The order of the simplifications, and what they add up to.

use vstd::prelude::*;
use crate::cnf::{lemma_normalization_is_equivalent, norm_formula, Cnf};
use crate::dp::{has_empty_clause, lemma_slots_of_normal, without_pure};
use crate::elim::{eliminate_pure_literals, unit_propagate, Reconstruction, Working};
use crate::elim::pure::{lemma_pure_elimination_simplifies, pure_rounds};
use crate::elim::reconstruction::{lemma_simplification_is_equisatisfiable, lemma_simplifications_compose, lemma_simplifies_refl, replay, replayable, simplifies, slots_sat, steps_below, Undo};
use crate::elim::units::{derivable, falsified, fixed_since, fixes, lemma_propagation_conflict_refutes, lemma_unit_propagation_simplifies, propagated};
use crate::elim::working::{has_empty, is_live, lemma_live_clauses, lemma_live_normal, lemma_slots_of, lemma_slots_true, live_clauses, live_count, slots_of, slots_normal, slots_true, Slots};
use crate::lit::{Lit, Var};
use crate::semantics::{clause_true, formula_true, normal_formula, satisfiable, valuation, Valuation};
use super::bounded::{attempts, is_ranking, bounded_pass, bounded_variable_elimination, Limits, Pass};
use super::duplicates::{drop_duplicate_clauses, first_occurrences, lemma_duplicates_do_not_matter, lemma_first_occurrences};

verus! {

/// What preprocessing did.
#[derive(Copy, Clone, Debug)]
pub struct PreprocessStats {
    /// Clauses removed as duplicates.
    pub duplicates_removed: usize,
    /// Variables fixed by unit propagation: the steps recorded by the time propagation last
    /// completed, less the pure literals among them.
    pub units_fixed: usize,
    /// Variables fixed for being pure.
    pub pure_fixed: usize,
    /// Variables removed by bounded variable elimination.
    pub vars_eliminated: usize,
    /// Clauses in, clauses out.
    pub clauses_before: usize,
    /// Clauses remaining.
    pub clauses_after: usize,
}

impl PreprocessStats {
    /// All counters at zero.
    pub open spec fn zero() -> PreprocessStats {
        PreprocessStats {
            duplicates_removed: 0,
            units_fixed: 0,
            pure_fixed: 0,
            vars_eliminated: 0,
            clauses_before: 0,
            clauses_after: 0,
        }
    }
}

impl Default for PreprocessStats {
    fn default() -> (s: Self)
        ensures
            s == PreprocessStats::zero(),
    {
        PreprocessStats {
            duplicates_removed: 0,
            units_fixed: 0,
            pure_fixed: 0,
            vars_eliminated: 0,
            clauses_before: 0,
            clauses_after: 0,
        }
    }
}

/// The simplified formula and how to undo the simplification.
#[derive(Debug)]
pub struct Preprocessed {
    /// The formula the search should run on.
    pub cnf: Cnf,
    /// Set when preprocessing settled the question by itself: `Some(false)` for unsatisfiable,
    /// `Some(true)` when every clause was removed.
    pub verdict: Option<bool>,
    /// Replay trail that turns a model of `cnf` into a model of the input.
    pub reconstruction: Reconstruction,
    /// What was done.
    pub stats: PreprocessStats,
}

/// Where the pipeline stands between two rounds.
pub struct Stage {
    /// The clauses.
    pub clauses: Slots,
    /// Everything done so far.
    pub steps: Seq<Undo>,
    /// Rounds completed.
    pub rounds: nat,
    /// Whether the last round did anything.
    pub changed: bool,
    /// Resolution attempts accounted for.
    pub work: int,
    /// Steps recorded by the time unit propagation last completed, less the pure literals among
    /// them.
    pub units: nat,
    /// Variables fixed for being pure.
    pub pure: nat,
    /// Variables eliminated.
    pub eliminated: nat,
}

/// Nothing done yet.
pub open spec fn stage_zero(f: Slots) -> Stage {
    Stage {
        clauses: f,
        steps: Seq::empty(),
        rounds: 0,
        changed: true,
        work: 0,
        units: 0,
        pure: 0,
        eliminated: 0,
    }
}

/// The steps recorded once propagation made `u` true, less the pure literals of earlier rounds.
pub open spec fn units_by(st: Stage, u: Seq<Lit>) -> nat {
    (st.steps.len() - st.pure + u.len()) as nat
}

/// A full round: unit propagation makes `u` true and leaves `g`, pure literals go, and bounded
/// elimination ends in `p`.
pub open spec fn round_by(a: Stage, n: int, limits: Limits, u: Seq<Lit>, g: Slots, p: Pass, b: Stage) -> bool {
    let h = without_pure(g, n);
    let done = fixes(u) + fixes(pure_rounds(g, n)) + p.steps;
    &&& propagated(a.clauses, u, g)
    &&& live_count(h) > 0
    &&& bounded_pass(h, n, limits, a.work, p)
    &&& b == Stage {
        clauses: p.clauses,
        steps: a.steps + done,
        rounds: a.rounds + 1,
        changed: done.len() > 0,
        work: p.work,
        units: units_by(a, u),
        pure: a.pure + pure_rounds(g, n).len(),
        eliminated: a.eliminated + p.steps.len(),
    }
}

/// Some full round leads from `a` to `b`.
pub open spec fn round(a: Stage, n: int, limits: Limits, b: Stage) -> bool {
    exists|u: Seq<Lit>, g: Slots, p: Pass| #[trigger] round_by(a, n, limits, u, g, p, b)
}

/// Another round is due: rounds are left, the last one changed something, and the question is
/// still open.
pub open spec fn goes_on(st: Stage, limits: Limits) -> bool {
    st.rounds < limits.rounds && (st.rounds > 0 ==> st.changed && live_count(st.clauses) > 0 && !has_empty(
        st.clauses,
    ))
}

/// The pipeline reaches the stage from the formula.
pub open spec fn stage_reached(f: Slots, n: int, limits: Limits, st: Stage) -> bool
    decreases st.rounds,
{
    if st.rounds == 0 {
        st == stage_zero(f)
    } else {
        exists|a: Stage|
            a.rounds + 1 == st.rounds && stage_reached(f, n, limits, a) && goes_on(a, limits) && #[trigger] round(
                a,
                n,
                limits,
                st,
            )
    }
}

/// Propagation at this stage runs into a conflict, having made `u` true.
pub open spec fn refuted_by(st: Stage, limits: Limits, u: Seq<Lit>) -> bool {
    goes_on(st, limits) && derivable(st.clauses, u) && falsified(st.clauses, u)
}

/// Propagation makes `u` true and leaves `g`, of which pure literals leave nothing.
pub open spec fn solved_by(st: Stage, n: int, limits: Limits, u: Seq<Lit>, g: Slots) -> bool {
    goes_on(st, limits) && propagated(st.clauses, u, g) && live_count(without_pure(g, n)) == 0
}

/// The counters tell what was done, `pure` coming on top of what the stage counted, and `units` in
/// place of what it noted.
pub open spec fn stats_say(stats: PreprocessStats, f: Seq<Seq<Lit>>, st: Stage, units: nat, pure: nat, after: nat) -> bool {
    &&& stats.duplicates_removed == norm_formula(f).len() - first_occurrences(norm_formula(f)).len()
    &&& stats.units_fixed == units
    &&& stats.pure_fixed == st.pure + pure
    &&& stats.vars_eliminated == st.eliminated
    &&& stats.clauses_before == f.len()
    &&& stats.clauses_after == after
}

/// The pipeline stops at this stage, with this result.
pub open spec fn stops_with(f: Seq<Seq<Lit>>, st: Stage, n: int, limits: Limits, r: Preprocessed) -> bool {
    let steps = r.reconstruction@;
    match r.verdict {
        None => {
            &&& st.rounds == limits.rounds || (st.rounds > 0 && !st.changed)
            &&& st.rounds > 0 ==> live_count(st.clauses) > 0 && !has_empty(st.clauses)
            &&& r.cnf@ == live_clauses(st.clauses)
            &&& steps == st.steps
            &&& stats_say(r.stats, f, st, st.units, 0, r.cnf@.len())
        },
        Some(true) => {
            ||| st.rounds > 0 && live_count(st.clauses) == 0 && r.cnf@.len() == 0 && steps == st.steps && stats_say(
                r.stats,
                f,
                st,
                st.units,
                0,
                0,
            )
            ||| exists|u: Seq<Lit>, g: Slots| #[trigger]
                solved_by(st, n, limits, u, g) && r.cnf@.len() == 0 && steps == st.steps + (fixes(u) + fixes(
                    pure_rounds(g, n),
                )) && stats_say(
                    r.stats,
                    f,
                    st,
                    units_by(st, u),
                    pure_rounds(g, n).len(),
                    0,
                )
        },
        Some(false) => {
            ||| st.rounds > 0 && has_empty(st.clauses) && r.cnf@ == live_clauses(st.clauses) && steps == st.steps
                && stats_say(r.stats, f, st, st.units, 0, r.cnf@.len())
            ||| exists|u: Seq<Lit>| #[trigger]
                refuted_by(st, limits, u) && steps == st.steps + fixes(u) && stats_say(
                    r.stats,
                    f,
                    st,
                    st.units,
                    0,
                    r.cnf@.len(),
                )
        },
    }
}

/// Every model of `g` replays to a model of `f`.
pub open spec fn reconstructs(f: Seq<Seq<Lit>>, steps: Seq<Undo>, g: Seq<Seq<Lit>>, n: int) -> bool {
    &&& steps_below(steps, n)
    &&& forall|m: Seq<bool>|
        m.len() == n && #[trigger] formula_true(valuation(m), g) ==> replayable(steps, m) && formula_true(
            valuation(replay(steps, m)),
            f,
        )
}

/// The clauses that go into the first round.
pub open spec fn entering(f: Seq<Seq<Lit>>) -> Slots {
    slots_of(first_occurrences(norm_formula(f)))
}

/// What goes into the first round has the models of the formula.
proof fn lemma_entering(f: Seq<Seq<Lit>>, n: int)
    ensures
        forall|m: Valuation| #[trigger] slots_true(m, entering(f)) <==> formula_true(m, f),
        crate::semantics::formula_below(f, n) ==> slots_normal(entering(f), n),
        live_count(entering(f)) <= f.len(),
        normal_formula(first_occurrences(norm_formula(f))),
{
    let g = norm_formula(f);
    let d = first_occurrences(g);
    lemma_normalization_is_equivalent(f, n);
    lemma_duplicates_do_not_matter(g, n);
    lemma_first_occurrences(g);
    lemma_slots_of(d);
    if crate::semantics::formula_below(f, n) {
        lemma_slots_of_normal(d, n);
    }
    assert forall|m: Valuation| #[trigger] slots_true(m, entering(f)) <==> formula_true(m, f) by {
        lemma_slots_true(m, entering(f));
        assert(formula_true(m, d) <==> formula_true(m, g));
        assert(formula_true(m, f) <==> formula_true(m, g));
    }
}

/// A lossless simplification of what entered, handed back as a formula, serves the caller.
proof fn lemma_handed_back(f: Seq<Seq<Lit>>, steps: Seq<Undo>, w: Slots, n: int)
    requires
        simplifies(entering(f), steps, w, n),
        slots_normal(w, n),
        n >= 0,
    ensures
        reconstructs(f, steps, live_clauses(w), n),
        satisfiable(f) <==> satisfiable(live_clauses(w)),
{
    lemma_entering(f, n);
    let g = live_clauses(w);
    assert forall|m: Seq<bool>| m.len() == n && #[trigger] formula_true(valuation(m), g) implies replayable(steps, m)
        && formula_true(valuation(replay(steps, m)), f) by {
        lemma_slots_true(valuation(m), w);
        assert(slots_true(valuation(m), w));
        assert(slots_true(valuation(replay(steps, m)), entering(f)));
    }
    lemma_simplification_is_equisatisfiable(entering(f), steps, w, n);
    if satisfiable(f) {
        let m = choose|m: Valuation| formula_true(m, f);
        assert(slots_true(m, entering(f)));
        let m2 = choose|m2: Valuation| slots_true(m2, w);
        lemma_slots_true(m2, w);
    }
    if satisfiable(g) {
        let m = choose|m: Valuation| formula_true(m, g);
        lemma_slots_true(m, w);
        assert(slots_sat(w));
        let m2 = choose|m2: Valuation| slots_true(m2, entering(f));
        assert(formula_true(m2, f));
    }
}

/// A refutation of what a lossless simplification leaves refutes the formula.
proof fn lemma_refuted(f: Seq<Seq<Lit>>, steps: Seq<Undo>, w: Slots, n: int)
    requires
        simplifies(entering(f), steps, w, n),
        !slots_sat(w),
    ensures
        !satisfiable(f),
{
    lemma_entering(f, n);
    if satisfiable(f) {
        let m = choose|m: Valuation| formula_true(m, f);
        assert(slots_true(m, entering(f)));
        assert(slots_sat(entering(f)));
    }
}

/// An empty clause refutes.
proof fn lemma_empty_refutes(w: Slots)
    requires
        has_empty(w),
    ensures
        !slots_sat(w),
{
    let i = choose|i: int| #[trigger] is_live(w, i) && w[i]->0.len() == 0;
    assert forall|m: Valuation| !slots_true(m, w) by {
        if slots_true(m, w) {
            assert(clause_true(m, w[i]->0));
        }
    }
}

/// Puts the result together.
fn finish(w: &Working, verdict: Option<bool>, reconstruction: Reconstruction, stats: PreprocessStats) -> (r: Preprocessed)
    requires
        w.wf(),
    ensures
        r.cnf.wf(),
        r.cnf.nv() == w.nv(),
        r.cnf@ == live_clauses(w.slots()),
        r.cnf@.len() == live_count(w.slots()),
        r.verdict == verdict,
        r.reconstruction == reconstruction,
        r.stats == (PreprocessStats {
            clauses_after: r.stats.clauses_after,
            ..stats
        }),
        r.stats.clauses_after == r.cnf@.len(),
        normal_formula(r.cnf@),
{
    let cnf = w.to_cnf();
    proof {
        w.lemma_wf();
        lemma_live_normal(w.slots(), w.nv());
        lemma_live_clauses(w.slots());
    }
    let after: usize = cnf.num_clauses();
    let stats = PreprocessStats {
        duplicates_removed: stats.duplicates_removed,
        units_fixed: stats.units_fixed,
        pure_fixed: stats.pure_fixed,
        vars_eliminated: stats.vars_eliminated,
        clauses_before: stats.clauses_before,
        clauses_after: after,
    };
    Preprocessed { cnf, verdict, reconstruction, stats }
}

/// A round from a stage at which one is due leads to the next stage.
proof fn lemma_stage_next(f: Slots, n: int, limits: Limits, a: Stage, u: Seq<Lit>, g: Slots, p: Pass, b: Stage)
    requires
        stage_reached(f, n, limits, a),
        goes_on(a, limits),
        round_by(a, n, limits, u, g, p, b),
    ensures
        stage_reached(f, n, limits, b),
{
    assert(round(a, n, limits, b));
}

/// What preprocessing the formula `f` over `n` variables ends with: a formula in normal form over
/// the same variables, with no more clauses, satisfiable exactly where the input is, and whose
/// models replay to models of the input; or the verdict that the input is unsatisfiable. Formula,
/// trail, verdict and counters are those of the stage at which the pipeline stops.
pub open spec fn preprocess_result(f: Seq<Seq<Lit>>, n: int, limits: Limits, r: Preprocessed) -> bool {
    &&& r.cnf.wf()
    &&& r.cnf.nv() == n
    &&& normal_formula(r.cnf@)
    &&& r.cnf@.len() <= f.len()
    &&& r.verdict == Some(false) ==> !satisfiable(f)
    &&& r.verdict == Some(true) ==> r.cnf@.len() == 0
    &&& r.verdict != Some(false) ==> reconstructs(f, r.reconstruction@, r.cnf@, n) && (satisfiable(f)
        <==> satisfiable(r.cnf@))
    &&& has_empty_clause(f) ==> r.verdict == Some(false) && r.cnf@ == norm_formula(f) && r.reconstruction@.len() == 0
        && r.stats == (PreprocessStats {
        clauses_before: f.len() as usize,
        clauses_after: norm_formula(f).len() as usize,
        ..PreprocessStats::zero()
    })
    &&& r.stats.clauses_before == f.len()
    &&& r.stats.clauses_after == r.cnf@.len()
    &&& !has_empty_clause(f) ==> exists|st: Stage|
        #![trigger stage_reached(entering(f), n, limits, st)]
        stage_reached(entering(f), n, limits, st) && stops_with(f, st, n, limits, r)
}

/// Simplifies a formula.
///
/// The returned [`Preprocessed::cnf`] keeps the original variable numbering — eliminated
/// variables simply stop occurring — so nothing downstream has to translate indices, and the
/// class of bugs that comes with renumbering does not arise.
pub fn preprocess(cnf: &Cnf, limits: &Limits) -> (r: Preprocessed)
    requires
        cnf.wf(),
        cnf.nv() <= Var::MAX_INDEX + 1,
    ensures
        preprocess_result(cnf@, cnf.nv(), *limits, r),
{
    let mut stats = PreprocessStats::default();
    stats.clauses_before = cnf.num_clauses();
    let (normalised, empty) = cnf.normalized();
    let mut trail = Reconstruction::new();
    let ghost n = cnf.nv();
    proof {
        cnf.lemma_wf();
        lemma_normalization_is_equivalent(cnf@, n);
        lemma_entering(cnf@, n);
    }
    if empty {
        proof {
            let i = choose|i: int| 0 <= i < cnf@.len() && (#[trigger] cnf@[i]).len() == 0;
            assert forall|m: Valuation| !formula_true(m, cnf@) by {
                if formula_true(m, cnf@) {
                    assert(clause_true(m, cnf@[i]));
                }
            }
        }
        stats.clauses_after = normalised.num_clauses();
        return Preprocessed { cnf: normalised, verdict: Some(false), reconstruction: trail, stats };
    }
    let deduped = drop_duplicate_clauses(&normalised);
    proof {
        lemma_first_occurrences(norm_formula(cnf@));
        lemma_slots_of(first_occurrences(norm_formula(cnf@)));
    }
    stats.duplicates_removed = normalised.num_clauses() - deduped.num_clauses();
    let mut w = Working::new(&deduped);
    let mut work: u64 = 0;
    let mut rounds: usize = 0;
    let mut changed = true;
    let ghost f = entering(cnf@);
    let ghost mut st = stage_zero(f);
    proof {
        lemma_simplifies_refl(f, n);
        assert(trail@ =~= st.steps);
    }
    while rounds < limits.rounds && changed
        invariant
            cnf.wf(),
            n == cnf.nv(),
            0 <= n <= Var::MAX_INDEX + 1,
            f == entering(cnf@),
            !has_empty_clause(cnf@),
            live_count(f) <= cnf@.len(),
            w.wf(),
            w.nv() == n,
            st.clauses == w.slots(),
            st.steps == trail@,
            st.rounds == rounds,
            st.changed == changed,
            st.work == work,
            rounds <= limits.rounds,
            rounds == 0 ==> changed,
            rounds > 0 ==> live_count(w.slots()) > 0 && !has_empty(w.slots()),
            stage_reached(f, n, *limits, st),
            stats.duplicates_removed == norm_formula(cnf@).len() - first_occurrences(norm_formula(cnf@)).len(),
            stats.units_fixed == st.units,
            stats.pure_fixed == st.pure,
            stats.vars_eliminated == st.eliminated,
            stats.clauses_before == cnf@.len(),
            st.pure + st.eliminated <= st.steps.len(),
            simplifies(f, trail@, w.slots(), n),
            live_count(w.slots()) <= cnf@.len(),
        decreases limits.rounds - rounds,
    {
        let ghost s = w.slots();
        let ghost t0 = trail@;
        let len0: usize = trail.len();
        assert(goes_on(st, *limits));
        proof {
            w.lemma_wf();
        }
        let ok = unit_propagate(&mut w, &mut trail);
        let ghost u = fixed_since(trail@, t0.len());
        if !ok {
            proof {
                lemma_propagation_conflict_refutes(s, u);
                lemma_refuted(cnf@, t0, s, n);
                assert(refuted_by(st, *limits, u));
            }
            return finish(&w, Some(false), trail, stats);
        }
        let len1: usize = trail.len();
        let ghost g = w.slots();
        let ghost t1 = trail@;
        proof {
            lemma_unit_propagation_simplifies(s, u, g, n);
            lemma_simplifications_compose(f, t0, s, fixes(u), g, n);
            w.lemma_wf();
            lemma_pure_elimination_simplifies(g, n);
        }
        let pure: usize = eliminate_pure_literals(&mut w, &mut trail);
        let len2: usize = trail.len();
        let ghost h = w.slots();
        let ghost t2 = trail@;
        proof {
            lemma_simplifications_compose(f, t1, g, fixes(pure_rounds(g, n)), h, n);
            w.lemma_wf();
        }
        // Every step was counted, not just units; take out those attributed to pure literals.
        stats.units_fixed = len1 - stats.pure_fixed;
        stats.pure_fixed = stats.pure_fixed + pure;
        if w.is_empty() {
            proof {
                lemma_handed_back(cnf@, t2, h, n);
                lemma_live_clauses(h);
                assert(solved_by(st, n, *limits, u, g));
                assert(t2 =~= t0 + (fixes(u) + fixes(pure_rounds(g, n))));
            }
            return finish(&w, Some(true), trail, stats);
        }
        let eliminated: usize = bounded_variable_elimination(&mut w, &mut trail, limits, &mut work);
        let len3: usize = trail.len();
        let ghost steps = trail@.skip(t2.len() as int);
        let ghost p = Pass { clauses: w.slots(), steps, work: work as int };
        let ghost done = fixes(u) + fixes(pure_rounds(g, n)) + steps;
        let ghost next = Stage {
            clauses: p.clauses,
            steps: t0 + done,
            rounds: st.rounds + 1,
            changed: done.len() > 0,
            work: p.work,
            units: units_by(st, u),
            pure: st.pure + pure_rounds(g, n).len(),
            eliminated: st.eliminated + steps.len(),
        };
        proof {
            lemma_simplifications_compose(f, t2, h, steps, w.slots(), n);
            assert(trail@ =~= t0 + done);
            assert(round_by(st, n, *limits, u, g, p, next));
            lemma_stage_next(f, n, *limits, st, u, g, p, next);
            w.lemma_wf();
            st = next;
        }
        stats.vars_eliminated = stats.vars_eliminated + eliminated;
        rounds = rounds + 1;
        // A round that changes nothing would change nothing next time either.
        changed = len3 > len0;
        if w.has_empty_clause() {
            proof {
                lemma_empty_refutes(w.slots());
                lemma_refuted(cnf@, trail@, w.slots(), n);
            }
            return finish(&w, Some(false), trail, stats);
        }
        if w.is_empty() {
            proof {
                lemma_handed_back(cnf@, trail@, w.slots(), n);
                lemma_live_clauses(w.slots());
            }
            return finish(&w, Some(true), trail, stats);
        }
        if changed {
            w.compact_occurrences();
        }
    }
    proof {
        w.lemma_wf();
        lemma_handed_back(cnf@, trail@, w.slots(), n);
    }
    finish(&w, None, trail, stats)
}

/// How many of the steps are eliminations.
pub open spec fn eliminations(steps: Seq<Undo>) -> nat
    decreases steps.len(),
{
    if steps.len() == 0 {
        0
    } else {
        eliminations(steps.drop_last()) + if steps.last() is Eliminated {
            1nat
        } else {
            0nat
        }
    }
}

proof fn lemma_eliminations_join(a: Seq<Undo>, b: Seq<Undo>)
    ensures
        eliminations(a + b) == eliminations(a) + eliminations(b),
    decreases b.len(),
{
    if b.len() == 0 {
        assert(a + b =~= a);
    } else {
        lemma_eliminations_join(a, b.drop_last());
        assert((a + b).drop_last() =~= a + b.drop_last());
    }
}

proof fn lemma_fixes_eliminate_nothing(u: Seq<Lit>)
    ensures
        eliminations(fixes(u)) == 0,
    decreases u.len(),
{
    if u.len() > 0 {
        lemma_fixes_eliminate_nothing(u.drop_last());
        assert(fixes(u).drop_last() =~= fixes(u.drop_last()));
    }
}

proof fn lemma_attempts_eliminate(a: Pass, ranks: Seq<u128>, limits: Limits)
    requires
        eliminations(a.steps) == a.steps.len(),
    ensures
        eliminations(attempts(a, ranks, limits).steps) == attempts(a, ranks, limits).steps.len(),
    decreases ranks.len(),
{
    if ranks.len() > 0 {
        lemma_attempts_eliminate(a, ranks.drop_last(), limits);
        let p = attempts(a, ranks.drop_last(), limits);
        let q = attempts(a, ranks, limits);
        if q.steps != p.steps {
            assert(q.steps.drop_last() =~= p.steps);
        }
    }
}

proof fn lemma_stage_eliminations(f: Slots, n: int, limits: Limits, st: Stage)
    requires
        stage_reached(f, n, limits, st),
    ensures
        eliminations(st.steps) == st.eliminated,
        st.pure + st.eliminated <= st.steps.len(),
        st.rounds <= limits.rounds,
        st.rounds > 0 && !st.changed ==> exists|a: Stage|
            a.rounds + 1 == st.rounds && a.steps == st.steps && #[trigger] stage_reached(f, n, limits, a),
    decreases st.rounds,
{
    if st.rounds > 0 {
        let a = choose|a: Stage|
            a.rounds + 1 == st.rounds && stage_reached(f, n, limits, a) && goes_on(a, limits) && #[trigger] round(
                a,
                n,
                limits,
                st,
            );
        lemma_stage_eliminations(f, n, limits, a);
        let (u, g, p) = choose|u: Seq<Lit>, g: Slots, p: Pass| #[trigger] round_by(a, n, limits, u, g, p, st);
        let h = without_pure(g, n);
        let ranks = choose|ranks: Seq<u128>| #[trigger]
            is_ranking(h, n, limits, ranks) && p == attempts(
                Pass { clauses: h, steps: Seq::empty(), work: a.work },
                ranks,
                limits,
            );
        lemma_attempts_eliminate(Pass { clauses: h, steps: Seq::empty(), work: a.work }, ranks, limits);
        let done = fixes(u) + fixes(pure_rounds(g, n)) + p.steps;
        lemma_fixes_eliminate_nothing(u);
        lemma_fixes_eliminate_nothing(pure_rounds(g, n));
        lemma_eliminations_join(fixes(u), fixes(pure_rounds(g, n)));
        lemma_eliminations_join(fixes(u) + fixes(pure_rounds(g, n)), p.steps);
        lemma_eliminations_join(a.steps, done);
        if !st.changed {
            assert(a.steps =~= st.steps);
        }
    }
}

/// The preprocessor counts what it did: as many variables were eliminated as there are eliminations to be
/// undone. It goes on for as many rounds as allowed, unless one has nothing to do or settles the
/// question, and never for more.
pub proof fn lemma_preprocessing_counts_its_steps(
    f: Seq<Seq<Lit>>,
    n: int,
    limits: Limits,
    st: Stage,
    r: Preprocessed,
)
    requires
        stage_reached(entering(f), n, limits, st),
        stops_with(f, st, n, limits, r),
    ensures
        r.stats.vars_eliminated == eliminations(r.reconstruction@),
        r.stats.vars_eliminated + r.stats.pure_fixed <= r.reconstruction@.len(),
        st.rounds <= limits.rounds,
        r.verdict is None && st.rounds < limits.rounds ==> exists|a: Stage|
            a.rounds + 1 == st.rounds && a.steps == r.reconstruction@ && #[trigger] stage_reached(
                entering(f),
                n,
                limits,
                a,
            ),
{
    lemma_stage_eliminations(entering(f), n, limits, st);
    let steps = r.reconstruction@;
    if r.verdict == Some(true) && !(st.rounds > 0 && live_count(st.clauses) == 0 && r.cnf@.len() == 0 && steps
        == st.steps && stats_say(r.stats, f, st, st.units, 0, 0)) {
        let (u, g) = choose|u: Seq<Lit>, g: Slots| #[trigger]
            solved_by(st, n, limits, u, g) && r.cnf@.len() == 0 && steps == st.steps + (fixes(u) + fixes(
                pure_rounds(g, n),
            )) && stats_say(r.stats, f, st, units_by(st, u), pure_rounds(g, n).len(), 0);
        lemma_fixes_eliminate_nothing(u);
        lemma_fixes_eliminate_nothing(pure_rounds(g, n));
        lemma_eliminations_join(fixes(u), fixes(pure_rounds(g, n)));
        lemma_eliminations_join(st.steps, fixes(u) + fixes(pure_rounds(g, n)));
    }
    if r.verdict == Some(false) && steps != st.steps {
        let u = choose|u: Seq<Lit>| #[trigger]
            refuted_by(st, limits, u) && steps == st.steps + fixes(u) && stats_say(
                r.stats,
                f,
                st,
                st.units,
                0,
                r.cnf@.len(),
            );
        lemma_fixes_eliminate_nothing(u);
        lemma_eliminations_join(st.steps, fixes(u));
    }
}

} // verus!
