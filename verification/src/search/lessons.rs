//! What conflicts teach, where they lead, and what the counters make of them.

use vstd::prelude::*;
use crate::config::Config;
use crate::lit::Lit;
use super::searcher::Answer;
use super::state::{brought_in, lemma_max_level, mentions, Cut, SearchState, NO_REASON};
use super::trace::{answer_of_lesson, clauses_after_round, clauses_after_rounds, clauses_after_visit, clauses_after_visits, ok_lesson, counted, ok_round, ok_rounds, ok_run, ok_visit, ok_visits, one_conflict, purified, reached, run_story, run_told, tally_round, tally_rounds, tally_try, tally_visit, tally_visits, tally_run, try_stage, visits_len, Ending, Ledger, Lesson, Round, Rounds, Run, Stage, Tally, Visit, Visits};

verus! {

/// A backjump returns to the shallowest level at which the learned clause forces something: all its
/// literals but the first are false there, one of them since that very level, or it is the root; and
/// the first literal was assigned further down, so it is open again.
pub proof fn lemma_backjump_lands_where_the_clause_forces(at: SearchState, d: Seq<Lit>, target: usize)
    requires
        at.wf(),
        at.derives(d),
        answer_of_lesson(at, Lesson::Kept(d)) == Answer::Backjump(target),
        at.lims().len() <= usize::MAX,
    ensures
        target < at.levels()[d[0].vi()],
        forall|i: int| 1 <= i < d.len() ==> at.levels()[(#[trigger] d[i]).vi()] <= target,
        target > 0 ==> exists|i: int| 1 <= i < d.len() && at.levels()[(#[trigger] d[i]).vi()] == target,
        forall|i: int| 0 <= i < d.len() ==> at.trail().contains((#[trigger] d[i]).neg()),
{
    let rest = d.skip(1);
    lemma_max_level(at.levels(), rest);
    let m = super::state::max_level(at.levels(), rest);
    assert(m < at.conflict_level() <= usize::MAX) by {
        assert(at.levels()[d[0].vi()] == at.conflict_level());
    }
    assert(target == m);
    assert forall|i: int| 1 <= i < d.len() implies at.levels()[(#[trigger] d[i]).vi()] <= target by {
        assert(rest[i - 1] == d[i]);
    }
    if target > 0 {
        let i = choose|i: int| 0 <= i < rest.len() && at.levels()[(#[trigger] rest[i]).vi()] == m;
        assert(d[i + 1] == rest[i]);
    }
}

/// A conflict from which nothing is kept, or a clause that forces nothing further up, refutes the branch
/// and is followed by no backjump.
pub proof fn lemma_only_asserting_clauses_jump(at: SearchState, d: Seq<Lit>)
    requires
        at.wf(),
        at.derives(d),
    ensures
        answer_of_lesson(at, Lesson::Unwanted) == Answer::Unsat,
        answer_of_lesson(at, Lesson::TooLong) == Answer::Unsat,
        answer_of_lesson(at, Lesson::Kept(d)) is Backjump <==> forall|i: int|
            1 <= i < d.len() ==> at.levels()[(#[trigger] d[i]).vi()] < at.levels()[d[0].vi()],
        answer_of_lesson(at, Lesson::Kept(d)) is Backjump || answer_of_lesson(at, Lesson::Kept(d)) == Answer::Unsat,
{
    let rest = d.skip(1);
    let m = super::state::max_level(at.levels(), rest);
    lemma_max_level(at.levels(), rest);
    assert(at.levels()[d[0].vi()] == at.conflict_level());
    if m < at.conflict_level() {
        assert forall|i: int| 1 <= i < d.len() implies at.levels()[(#[trigger] d[i]).vi()] < at.levels()[d[0].vi()] by {
            assert(rest[i - 1] == d[i]);
        }
    } else {
        assert(0 < at.levels()[d[0].vi()]);
        let i = choose|i: int| 0 <= i < rest.len() && at.levels()[(#[trigger] rest[i]).vi()] == m;
        assert(d[i + 1] == rest[i]);
    }
}

/// A clause is kept exactly where learning is on, the literals of the clauses kept so far are below
/// their limit, and it is no longer than allowed; zero allows any length. A longer one is thrown away.
pub proof fn lemma_learning_keeps_to_its_limits(cfg: Config, at: SearchState, lesson: Lesson, d: Seq<Lit>)
    requires
        ok_lesson(cfg, at, lesson),
        at.learns(d),
        at.db().len() < 0xffff_fffe,
    ensures
        !cfg.learn || at.learned_size() >= cfg.max_learned_literals <==> lesson is Unwanted,
        lesson matches Lesson::Kept(e) ==> (cfg.max_learned_clause_size == 0 || e.len() <= cfg.max_learned_clause_size)
            && e.len() == d.len(),
        cfg.learn && at.learned_size() < cfg.max_learned_literals ==> (lesson is Kept <==> (cfg.max_learned_clause_size
            == 0 || d.len() <= cfg.max_learned_clause_size)),
{
    if let Lesson::Kept(e) = lesson {
        super::state::lemma_conflict_teaches_one_clause(at, d, e);
    }
}

/// What is counted of a conflict: one conflict; a clause and its literals where it was kept, or one
/// thrown away where it was too long; and, where the search jumps back, the levels between the one it
/// was on and the one above which it goes on.
pub proof fn lemma_conflicts_are_counted(at: SearchState, lesson: Lesson)
    requires
        at.wf(),
        lesson matches Lesson::Kept(d) ==> at.derives(d),
        at.lims().len() <= usize::MAX,
    ensures
        one_conflict(at, lesson).conflicts == 1,
        one_conflict(at, lesson).learned == (if lesson is Kept {
            1nat
        } else {
            0nat
        }),
        one_conflict(at, lesson).learned_literals == (match lesson {
            Lesson::Kept(d) => d.len(),
            _ => 0,
        }),
        one_conflict(at, lesson).discarded == (if lesson is TooLong {
            1nat
        } else {
            0nat
        }),
        answer_of_lesson(at, lesson) matches Answer::Backjump(target) ==> (target < at.lims().len()
            ==> one_conflict(at, lesson).levels_skipped + target + 1 == at.lims().len()),
        !(answer_of_lesson(at, lesson) is Backjump) ==> one_conflict(at, lesson).levels_skipped == 0,
        one_conflict(at, lesson).backjumps == (if one_conflict(at, lesson).levels_skipped > 0 {
            1nat
        } else {
            0nat
        }),
        one_conflict(at, lesson).nodes == 0 && one_conflict(at, lesson).decisions == 0 && one_conflict(at, lesson).components
            == 0,
{
    if let Lesson::Kept(d) = lesson {
        lemma_max_level(at.levels(), d.skip(1));
        assert(at.levels()[d[0].vi()] == at.conflict_level());
    }
}

/// The literals of all clauses, counted.
pub open spec fn total_size(db: Seq<Seq<Lit>>) -> nat
    decreases db.len(),
{
    if db.len() == 0 {
        0
    } else {
        total_size(db.drop_last()) + db.last().len()
    }
}

/// Counters that tell how a database grew, and that agree with one another. No more visits were made
/// than there were components, but for `extra` that were found before.
pub open spec fn tells_growth(t: Tally, before: Seq<Seq<Lit>>, after: Seq<Seq<Lit>>, extra: nat) -> bool {
    &&& after.len() == before.len() + t.learned
    &&& total_size(after) == total_size(before) + t.learned_literals
    &&& t.learned + t.discarded <= t.conflicts
    &&& t.hits + t.inserts <= t.lookups <= t.nodes
    &&& t.backjumps <= t.learned
    &&& t.backjumps <= t.levels_skipped
    &&& t.pure_literals + t.decisions <= t.propagations
    &&& t.decisions + 2 * t.hits <= 2 * t.nodes
    &&& t.nodes <= t.components + extra
}

/// Counters of a search that kept to its settings: with learning off nothing was learned or thrown away,
/// with the memo off it was not asked, with pure literals off none was assigned, and no clause was kept
/// that is longer than allowed.
pub open spec fn keeps_to(cfg: Config, t: Tally) -> bool {
    &&& !cfg.learn ==> t.learned == 0 && t.learned_literals == 0 && t.discarded == 0 && t.backjumps == 0
        && t.levels_skipped == 0
    &&& !cfg.cache ==> t.lookups == 0 && t.hits == 0 && t.inserts == 0
    &&& !cfg.pure_literals ==> t.pure_literals == 0
    &&& cfg.max_learned_clause_size == 0 ==> t.discarded == 0
    &&& cfg.max_learned_clause_size > 0 ==> t.learned_literals <= cfg.max_learned_clause_size * t.learned
    &&& t.learned <= t.learned_literals
}

proof fn lemma_keeps_both(cfg: Config, a: Tally, b: Tally)
    requires
        keeps_to(cfg, a),
        keeps_to(cfg, b),
    ensures
        keeps_to(cfg, a.plus(b)),
{
    let n = cfg.max_learned_clause_size as int;
    assert(n * (a.learned + b.learned) == n * a.learned + n * b.learned) by (nonlinear_arith);
}

proof fn lemma_round_keeps(cfg: Config, st: Stage, r: Round, d: u64)
    requires
        ok_round(cfg, st, r),
    ensures
        keeps_to(cfg, tally_round(r, d)),
    decreases r,
{
    match r {
        Round::Conflict { from, at, lesson } => {
            if let Lesson::Kept(e) = lesson {
                let n = cfg.max_learned_clause_size as int;
                assert(n * 1 == n);
            }
            let n = cfg.max_learned_clause_size as int;
            assert(n * 0 == 0);
            lemma_keeps_both(cfg, super::trace::some_forced(at.trail().len() - from.trail().len()), one_conflict(at, lesson));
        },
        Round::Split { from, at, split, comps, visits } => {
            reveal(purified);
            let n = cfg.max_learned_clause_size as int;
            assert(n * 0 == 0);
            lemma_visits_keep(cfg, split, comps, st.memo, visits, d.saturating_add(1));
            let f = super::trace::some_forced(at.trail().len() - from.trail().len());
            let o = super::trace::one_split(at, split, comps);
            lemma_keeps_both(cfg, f, o);
            lemma_keeps_both(cfg, f.plus(o), tally_visits(visits, d.saturating_add(1)));
        },
    }
}

proof fn lemma_rounds_keep(cfg: Config, st: Stage, rs: Rounds, d: u64)
    requires
        ok_rounds(cfg, st, rs),
    ensures
        keeps_to(cfg, tally_rounds(rs, d)),
    decreases rs,
{
    let n = cfg.max_learned_clause_size as int;
    assert(n * 0 == 0);
    if let Rounds::Then(p, r) = rs {
        lemma_rounds_keep(cfg, st, *p, d);
        lemma_round_keeps(cfg, super::trace::next_stage(st, *p), *r, d);
        lemma_keeps_both(cfg, tally_rounds(*p, d), tally_round(*r, d));
    }
}

proof fn lemma_visits_keep(
    cfg: Config,
    split: SearchState,
    comps: Seq<super::component::Comp>,
    m: crate::cache::table::Memo,
    vs: Visits,
    d: u64,
)
    requires
        ok_visits(cfg, split, comps, m, vs),
    ensures
        keeps_to(cfg, tally_visits(vs, d)),
    decreases vs,
{
    let n = cfg.max_learned_clause_size as int;
    assert(n * 0 == 0);
    if let Visits::Then(p, v) = vs {
        lemma_visits_keep(cfg, split, comps, m, *p, d);
        lemma_visit_keeps(cfg, *v, d);
        lemma_keeps_both(cfg, tally_visits(*p, d), tally_visit(*v, d));
    }
}

/// A visit keeps to the settings of the search.
pub proof fn lemma_visit_keeps(cfg: Config, v: Visit, d: u64)
    requires
        ok_visit(cfg, v),
    ensures
        keeps_to(cfg, tally_visit(v, d)),
    decreases v,
{
    let n = cfg.max_learned_clause_size as int;
    assert(n * 0 == 0);
    let one = super::trace::one_visit(d, v.asked, false);
    let last = super::trace::one_answer(v.kept);
    let m = super::trace::asked_in_vain(cfg, v.memo);
    match v.end {
        Ending::Once(t) => {
            let st = try_stage(v.at.trail(), v.at.vals(), v.at.lims(), v.at.db(), m, Seq::empty(), v.comp, t.lit);
            lemma_rounds_keep(cfg, st, t.rounds, d);
            lemma_keeps_both(cfg, super::trace::one_decision(), tally_rounds(t.rounds, d));
            lemma_keeps_both(cfg, one, tally_try(*t, d));
            lemma_keeps_both(cfg, one.plus(tally_try(*t, d)), last);
        },
        Ending::Twice(t, u) => {
            let st = try_stage(v.at.trail(), v.at.vals(), v.at.lims(), v.at.db(), m, Seq::empty(), v.comp, t.lit);
            lemma_rounds_keep(cfg, st, t.rounds, d);
            let st2 = try_stage(
                v.at.trail(),
                v.at.vals(),
                v.at.lims(),
                clauses_after_rounds(t.rounds, v.at.db()),
                super::trace::memo_after_rounds(t.rounds, m),
                super::trace::pending_after_rounds(t.rounds),
                v.comp,
                u.lit,
            );
            lemma_rounds_keep(cfg, st2, u.rounds, d);
            lemma_keeps_both(cfg, super::trace::one_decision(), tally_rounds(t.rounds, d));
            lemma_keeps_both(cfg, super::trace::one_decision(), tally_rounds(u.rounds, d));
            lemma_keeps_both(cfg, one, tally_try(*t, d));
            lemma_keeps_both(cfg, one.plus(tally_try(*t, d)), tally_try(*u, d));
            lemma_keeps_both(cfg, one.plus(tally_try(*t, d)).plus(tally_try(*u, d)), last);
        },
        _ => {},
    }
}

proof fn lemma_grown_by_one(db: Seq<Seq<Lit>>, d: Seq<Lit>)
    ensures
        total_size(db.push(d)) == total_size(db) + d.len(),
{
    assert(db.push(d).drop_last() =~= db);
}

proof fn lemma_round_grows(cfg: Config, st: Stage, r: Round, d: u64)
    requires
        ok_round(cfg, st, r),
    ensures
        tells_growth(tally_round(r, d), st.db, clauses_after_round(r), 0),
    decreases r,
{
    match r {
        Round::Conflict { from, at, lesson } => {
            reveal(reached);
            if let Lesson::Kept(e) = lesson {
                lemma_grown_by_one(st.db, e);
            }
        },
        Round::Split { from, at, split, comps, visits } => {
            reveal(reached);
            reveal(purified);
            lemma_visits_grow(cfg, split, comps, st.memo, visits, d.saturating_add(1));
        },
    }
}

proof fn lemma_rounds_grow(cfg: Config, st: Stage, rs: Rounds, d: u64)
    requires
        ok_rounds(cfg, st, rs),
    ensures
        tells_growth(tally_rounds(rs, d), st.db, clauses_after_rounds(rs, st.db), 0),
    decreases rs,
{
    if let Rounds::Then(p, r) = rs {
        lemma_rounds_grow(cfg, st, *p, d);
        lemma_round_grows(cfg, super::trace::next_stage(st, *p), *r, d);
    }
}

proof fn lemma_visits_grow(
    cfg: Config,
    split: SearchState,
    comps: Seq<super::component::Comp>,
    m: crate::cache::table::Memo,
    vs: Visits,
    d: u64,
)
    requires
        ok_visits(cfg, split, comps, m, vs),
    ensures
        tells_growth(tally_visits(vs, d), split.db(), clauses_after_visits(vs, split.db()), visits_len(vs)),
        visits_len(vs) <= comps.len(),
    decreases vs,
{
    if let Visits::Then(p, v) = vs {
        lemma_visits_grow(cfg, split, comps, m, *p, d);
        lemma_visit_grows(cfg, *v, d);
    }
}

/// What the counters of a visit say fits together: as many clauses were learned as the database grew by,
/// and as many literals; no more clauses were derived than there were conflicts; no more answers came
/// from the memo or went into it than it was asked for, which happens at most once for each visit; a
/// visit makes at most two decisions, and none where the memo answers; and each backjump goes back by at
/// least a level and comes from a clause that was kept.
pub proof fn lemma_visit_grows(cfg: Config, v: Visit, d: u64)
    requires
        ok_visit(cfg, v),
    ensures
        tells_growth(tally_visit(v, d), v.at.db(), clauses_after_visit(v), 1),
    decreases v,
{
    match v.end {
        Ending::Once(t) => {
            let m = super::trace::asked_in_vain(cfg, v.memo);
            let st = try_stage(v.at.trail(), v.at.vals(), v.at.lims(), v.at.db(), m, Seq::empty(), v.comp, t.lit);
            lemma_rounds_grow(cfg, st, t.rounds, d);
        },
        Ending::Twice(t, u) => {
            let m = super::trace::asked_in_vain(cfg, v.memo);
            let st = try_stage(v.at.trail(), v.at.vals(), v.at.lims(), v.at.db(), m, Seq::empty(), v.comp, t.lit);
            lemma_rounds_grow(cfg, st, t.rounds, d);
            let st2 = try_stage(
                v.at.trail(),
                v.at.vals(),
                v.at.lims(),
                clauses_after_rounds(t.rounds, v.at.db()),
                super::trace::memo_after_rounds(t.rounds, m),
                super::trace::pending_after_rounds(t.rounds),
                v.comp,
                u.lit,
            );
            lemma_rounds_grow(cfg, st2, u.rounds, d);
        },
        _ => {},
    }
}

/// The counters of a whole search fit together in the same way.
pub proof fn lemma_run_grows(cfg: Config, st: Stage, run: Run)
    requires
        ok_run(cfg, st, run),
    ensures
        tells_growth(tally_run(st, run), st.db, clauses_after_rounds(run.rounds, st.db), 0),
{
    lemma_rounds_grow(cfg, st, run.rounds, 0);
}

/// A whole search keeps to its settings.
pub proof fn lemma_run_keeps(cfg: Config, st: Stage, run: Run)
    requires
        ok_run(cfg, st, run),
    ensures
        keeps_to(cfg, tally_run(st, run)),
{
    let n = cfg.max_learned_clause_size as int;
    assert(n * 0 == 0);
    lemma_rounds_keep(cfg, st, run.rounds, 0);
    if let Some((from, at)) = run.refuted {
        lemma_keeps_both(
            cfg,
            tally_rounds(run.rounds, 0),
            super::trace::some_forced(at.trail().len() - from.trail().len()),
        );
    }
}

/// What the counters of a search report, as long as none is full: there are clauses, the given ones and
/// those learned, and the counters say how many were learned and how long they are together.
pub proof fn lemma_counters_report_the_search(cfg: Config, st: Stage, c0: Ledger, a: Answer, c1: Ledger)
    requires
        run_told(cfg, st, c0, a, c1),
        c0 == Ledger::fresh(cfg),
        c1.counters.nodes < u64::MAX,
        c1.counters.decisions < u64::MAX,
        c1.counters.conflicts < u64::MAX,
        c1.counters.propagations < u64::MAX,
        c1.counters.components < u64::MAX,
        c1.counters.learned_literals < u64::MAX,
        c1.counters.levels_skipped < u64::MAX,
    ensures
        exists|db: Seq<Seq<Lit>>| #[trigger]
            total_size(db) == total_size(st.db) + c1.counters.learned_literals && db.len() == st.db.len()
                + c1.counters.learned,
        c1.counters.learned + c1.counters.discarded <= c1.counters.conflicts,
        c1.memo.stats.hits + c1.memo.stats.inserts <= c1.memo.stats.lookups <= c1.counters.nodes,
        c1.counters.backjumps <= c1.counters.learned,
        c1.counters.backjumps <= c1.counters.levels_skipped,
        c1.counters.pure_literals + c1.counters.decisions <= c1.counters.propagations,
        c1.counters.decisions + 2 * c1.memo.stats.hits <= 2 * c1.counters.nodes,
        c1.counters.nodes <= c1.counters.components,
        !cfg.learn ==> c1.counters.learned == 0 && c1.counters.discarded == 0 && c1.counters.backjumps == 0,
        !cfg.cache ==> c1.memo.stats.lookups == 0 && c1.memo.stats.hits == 0 && c1.memo.stats.inserts == 0,
        !cfg.pure_literals ==> c1.counters.pure_literals == 0,
        cfg.max_learned_clause_size > 0 ==> c1.counters.learned_literals <= cfg.max_learned_clause_size
            * c1.counters.learned,
{
    reveal(run_told);
    reveal(counted);
    let run = choose|run: Run| #[trigger] run_story(cfg, st, c0, run, a, c1);
    lemma_run_grows(cfg, st, run);
    lemma_run_keeps(cfg, st, run);
    let db = clauses_after_rounds(run.rounds, st.db);
    assert(total_size(db) == total_size(st.db) + c1.counters.learned_literals);
}

/// The depth that is counted: that of a visit, and one more for each visit inside another.
pub proof fn lemma_visit_depth(v: Visit, d: u64)
    ensures
        d <= tally_visit(v, d).depth,
        tally_visit(v, d).depth < d + tally_visit(v, d).nodes,
        tally_visit(v, d).nodes > 0,
    decreases v,
{
    match v.end {
        Ending::Once(t) => lemma_rounds_depth(t.rounds, d),
        Ending::Twice(t, u) => {
            lemma_rounds_depth(t.rounds, d);
            lemma_rounds_depth(u.rounds, d);
        },
        _ => {},
    }
}

proof fn lemma_rounds_depth(rs: Rounds, d: u64)
    ensures
        tally_rounds(rs, d).depth <= d + tally_rounds(rs, d).nodes,
    decreases rs,
{
    if let Rounds::Then(p, r) = rs {
        lemma_rounds_depth(*p, d);
        lemma_round_depth(*r, d);
    }
}

/// A round that visits components is a level deeper than the visit that it belongs to.
pub proof fn lemma_round_depth(r: Round, d: u64)
    ensures
        tally_round(r, d).depth <= d + tally_round(r, d).nodes,
        tally_round(r, d).nodes > 0 && d < u64::MAX ==> tally_round(r, d).depth > d,
    decreases r,
{
    if let Round::Split { from, at, split, comps, visits } = r {
        lemma_visits_depth(visits, d.saturating_add(1));
    }
}

proof fn lemma_visits_depth(vs: Visits, d: u64)
    ensures
        tally_visits(vs, d).nodes > 0 ==> d <= tally_visits(vs, d).depth < d + tally_visits(vs, d).nodes,
        tally_visits(vs, d).nodes == 0 ==> tally_visits(vs, d).depth == 0,
    decreases vs,
{
    if let Visits::Then(p, v) = vs {
        lemma_visits_depth(*p, d);
        lemma_visit_depth(*v, d);
    }
}

/// The clause that forced the `k`-th literal of the trail is also over variable `v`.
pub open spec fn pulls(s: &SearchState, k: int, v: int) -> bool {
    let r = s.reasons()[s.trail()[k].vi()];
    r != NO_REASON && v != s.trail()[k].vi() && mentions(s.db()[r as int], v)
}

/// The `j`-th literal of the trail belongs to the conflict level and takes part in the conflict: the
/// falsified clause is over its variable, or the clause that forced a later one that takes part.
pub open spec fn takes_part_in_conflict(s: &SearchState, j: int) -> bool
    decreases s.trail().len() - j,
{
    &&& 0 <= j < s.trail().len()
    &&& s.levels()[s.trail()[j].vi()] == s.conflict_level()
    &&& mentions(s.db()[s.conflict_at()], s.trail()[j].vi()) || exists|k: int|
        j < k < s.trail().len() && takes_part_in_conflict(s, k) && #[trigger] pulls(s, k, s.trail()[j].vi())
}

/// The `p`-th literal of the trail, of the conflict level, leads to the conflict beside the `u`-th and
/// those after it: the falsified clause is over its variable, or the clause that forced one from the
/// `u`-th on that takes part.
pub open spec fn leads_past(s: &SearchState, p: int, u: int) -> bool {
    &&& 0 <= p < s.trail().len()
    &&& s.levels()[s.trail()[p].vi()] == s.conflict_level()
    &&& mentions(s.db()[s.conflict_at()], s.trail()[p].vi()) || exists|k: int|
        u <= k < s.trail().len() && takes_part_in_conflict(s, k) && #[trigger] pulls(s, k, s.trail()[p].vi())
}

/// The `u`-th literal of the trail is a unique implication point: it takes part in the conflict, and
/// nothing of its level before it does but through it.
pub open spec fn is_implication_point(s: &SearchState, u: int) -> bool {
    takes_part_in_conflict(s, u) && forall|p: int| 0 <= p < u ==> !#[trigger] leads_past(s, p, u + 1)
}

/// The variable stands beside the `u`-th literal of the trail in what the conflict comes down to: it was
/// assigned on another level, but not at the root, and leads to the conflict past that literal; or it
/// takes part in the conflict after it and no clause forced it.
pub open spec fn stands_beside(s: &SearchState, u: int, v: int) -> bool {
    ||| s.levels()[v] != 0 && s.levels()[v] != s.conflict_level() && (mentions(s.db()[s.conflict_at()], v)
        || exists|k: int| u < k < s.trail().len() && takes_part_in_conflict(s, k) && #[trigger] pulls(s, k, v))
    ||| exists|p: int|
        u < p < s.trail().len() && s.trail()[p].vi() == v && #[trigger] takes_part_in_conflict(s, p)
            && s.reasons()[v] == NO_REASON
}

/// The clause that forced the variable is over nothing else but what is fixed at the root, the `u`-th
/// literal of the trail and what stands beside it: its literal says nothing that the others do not.
pub open spec fn goes_without_saying(s: &SearchState, u: int, v: int) -> bool {
    let r = s.reasons()[v];
    r != NO_REASON && forall|w: int| #[trigger]
        mentions(s.db()[r as int], w) && w != v ==> s.levels()[w] == 0 || w == s.trail()[u].vi() || stands_beside(s, u, w)
}

/// The kept variables of a cut are those that stand beside what comes before place `i`.
spec fn kept_before(s: &SearchState, i: int, cut: Cut) -> bool {
    forall|v: int| #[trigger] cut.kept.contains(v) <==> stands_beside(s, i - 1, v)
}

/// The open variables of a cut are those before place `i` that lead to the conflict past it.
spec fn open_before(s: &SearchState, i: int, cut: Cut) -> bool {
    forall|v: int| #[trigger]
        cut.open.contains(v) <==> exists|p: int| 0 <= p < i && s.trail()[p].vi() == v && #[trigger] leads_past(s, p, i)
}

proof fn lemma_distinct(s: &SearchState, p: int, n: int)
    requires
        s.wf(),
        0 <= p < s.trail().len(),
        0 <= n < s.trail().len(),
        s.trail()[p].vi() == s.trail()[n].vi(),
    ensures
        p == n,
{
}

/// The other variables of the clause that forced a literal were assigned before it.
proof fn lemma_reason_before(s: &SearchState, n: int, w: int) -> (p: int)
    requires
        s.wf(),
        0 <= n < s.trail().len(),
        pulls(s, n, w),
    ensures
        0 <= p < n,
        s.trail()[p].vi() == w,
{
    let l = s.trail()[n];
    assert(s.reason_ok(l, n));
    let c = s.db()[s.reasons()[l.vi()] as int];
    let t = s.trail().take(n);
    let m = choose|m: int|
        0 <= m < c.len() && #[trigger] c[m] == l && forall|q: int|
            0 <= q < c.len() && q != m ==> t.contains((#[trigger] c[q]).neg());
    let q = choose|q: int| 0 <= q < c.len() && (#[trigger] c[q]).vi() == w;
    assert(t.contains(c[q].neg()));
    let p = t.index_of(c[q].neg());
    assert(s.trail()[p] == c[q].neg());
    p
}

/// The `u`-th literal of the trail is the first unique implication point, and the cut is over it and what
/// stands beside it.
spec fn is_first_point(s: &SearchState, u: int, cut: (int, Seq<int>)) -> bool {
    &&& 0 <= u < s.trail().len()
    &&& s.trail()[u].vi() == cut.0
    &&& is_implication_point(s, u)
    &&& forall|j: int| u < j < s.trail().len() ==> !#[trigger] is_implication_point(s, j)
    &&& forall|v: int| #[trigger] cut.1.contains(v) <==> stands_beside(s, u, v)
}

proof fn lemma_uip_below(s: &SearchState, i: int, cut: Cut)
    requires
        s.wf(),
        s.conflicting(),
        s.conflict_level() > 0,
        0 <= i <= s.trail().len(),
        open_before(s, i, cut),
        kept_before(s, i, cut),
        exists|v: int| #[trigger] cut.open.contains(v),
        forall|j: int| i <= j < s.trail().len() ==> !#[trigger] is_implication_point(s, j),
    ensures
        exists|u: int| #[trigger] is_first_point(s, u, s.uip_below(i, cut)),
    decreases i,
{
    let some = choose|v: int| #[trigger] cut.open.contains(v);
    let at = choose|p: int| 0 <= p < i && s.trail()[p].vi() == some && #[trigger] leads_past(s, p, i);
    assert(i > 0);
    let n = i - 1;
    let v = s.trail()[n].vi();
    lemma_open_takes_part(s, n, cut);
    if !cut.open.contains(v) {
        lemma_passed_over(s, n, cut);
        lemma_kept_passed_over(s, n, cut);
        assert(!is_implication_point(s, n));
        lemma_uip_below(s, n, cut);
        assert(s.uip_below(i, cut) == s.uip_below(n, cut));
        let u = choose|u: int| #[trigger] is_first_point(s, u, s.uip_below(n, cut));
        assert(is_first_point(s, u, s.uip_below(i, cut)));
    } else if forall|w: int| #[trigger] cut.open.contains(w) ==> w == v {
        lemma_single(s, n, cut);
        assert(s.uip_below(i, cut) == (v, cut.kept));
        assert(is_first_point(s, n, s.uip_below(i, cut)));
    } else {
        let w = choose|w: int| #[trigger] cut.open.contains(w) && w != v;
        lemma_another(s, n, cut, w);
        lemma_resolved(s, n, cut);
        lemma_kept_resolved(s, n, cut);
        let next = s.resolved(cut, v);
        lemma_uip_below(s, n, next);
        assert(s.uip_below(i, cut) == s.uip_below(n, next));
        let u = choose|u: int| #[trigger] is_first_point(s, u, s.uip_below(n, next));
        assert(is_first_point(s, u, s.uip_below(i, cut)));
    }
}

/// A variable takes part exactly where it is open when its turn comes.
proof fn lemma_open_takes_part(s: &SearchState, n: int, cut: Cut)
    requires
        s.wf(),
        0 <= n < s.trail().len(),
        open_before(s, n + 1, cut),
    ensures
        cut.open.contains(s.trail()[n].vi()) <==> takes_part_in_conflict(s, n),
{
    let v = s.trail()[n].vi();
    if takes_part_in_conflict(s, n) {
        if !mentions(s.db()[s.conflict_at()], v) {
            let k = choose|k: int| n < k < s.trail().len() && takes_part_in_conflict(s, k) && #[trigger] pulls(s, k, v);
            assert(pulls(s, k, v));
        }
        assert(leads_past(s, n, n + 1));
    }
    if cut.open.contains(v) {
        let p = choose|p: int| 0 <= p < n + 1 && s.trail()[p].vi() == v && #[trigger] leads_past(s, p, n + 1);
        lemma_distinct(s, p, n);
        if !mentions(s.db()[s.conflict_at()], v) {
            let k = choose|k: int|
                n + 1 <= k < s.trail().len() && takes_part_in_conflict(s, k) && #[trigger] pulls(s, k, v);
            assert(pulls(s, k, v));
        }
    }
}

/// A variable that takes no part is passed over.
proof fn lemma_passed_over(s: &SearchState, n: int, cut: Cut)
    requires
        s.wf(),
        0 <= n < s.trail().len(),
        open_before(s, n + 1, cut),
        !cut.open.contains(s.trail()[n].vi()),
        !takes_part_in_conflict(s, n),
    ensures
        open_before(s, n, cut),
{
    let i = n + 1;
    assert forall|w: int| #[trigger] cut.open.contains(w) <==> exists|p: int|
        0 <= p < n && s.trail()[p].vi() == w && #[trigger] leads_past(s, p, n) by {
        if cut.open.contains(w) {
            let p = choose|p: int| 0 <= p < i && s.trail()[p].vi() == w && #[trigger] leads_past(s, p, i);
            assert(p != n);
            lemma_leads_on(s, p, n);
        }
        if exists|p: int| 0 <= p < n && s.trail()[p].vi() == w && #[trigger] leads_past(s, p, n) {
            let p = choose|p: int| 0 <= p < n && s.trail()[p].vi() == w && #[trigger] leads_past(s, p, n);
            lemma_leads_on(s, p, n);
        }
    }
}

/// A variable that is left alone is an implication point.
proof fn lemma_single(s: &SearchState, n: int, cut: Cut)
    requires
        s.wf(),
        0 <= n < s.trail().len(),
        open_before(s, n + 1, cut),
        takes_part_in_conflict(s, n),
        forall|w: int| #[trigger] cut.open.contains(w) ==> w == s.trail()[n].vi(),
    ensures
        is_implication_point(s, n),
{
    assert forall|p: int| 0 <= p < n implies !#[trigger] leads_past(s, p, n + 1) by {
        if leads_past(s, p, n + 1) {
            assert(cut.open.contains(s.trail()[p].vi()));
            lemma_distinct(s, p, n);
        }
    }
}

/// A variable beside which another is open is none, and the other stays open.
proof fn lemma_another(s: &SearchState, n: int, cut: Cut, w: int)
    requires
        s.wf(),
        s.conflicting(),
        s.conflict_level() > 0,
        0 <= n < s.trail().len(),
        open_before(s, n + 1, cut),
        takes_part_in_conflict(s, n),
        cut.open.contains(w),
        w != s.trail()[n].vi(),
    ensures
        !is_implication_point(s, n),
        s.resolved(cut, s.trail()[n].vi()).open.contains(w),
{
    let q = choose|p: int| 0 <= p < n + 1 && s.trail()[p].vi() == w && #[trigger] leads_past(s, p, n + 1);
    assert(q < n);
    assert(leads_past(s, q, n + 1));
}

/// What leads past a place leads past the one before it, and there is nothing else but what the literal
/// between them pulls in.
proof fn lemma_leads_on(s: &SearchState, p: int, n: int)
    requires
        0 <= p,
        0 <= n < s.trail().len(),
    ensures
        leads_past(s, p, n + 1) ==> leads_past(s, p, n),
        leads_past(s, p, n) ==> leads_past(s, p, n + 1) || (takes_part_in_conflict(s, n) && pulls(
            s,
            n,
            s.trail()[p].vi(),
        )),
{
    let v = s.trail()[p].vi();
    if leads_past(s, p, n + 1) && !mentions(s.db()[s.conflict_at()], v) {
        let k = choose|k: int|
            n + 1 <= k < s.trail().len() && takes_part_in_conflict(s, k) && #[trigger] pulls(s, k, v);
        assert(pulls(s, k, v));
    }
    if leads_past(s, p, n) && !mentions(s.db()[s.conflict_at()], v) {
        let k = choose|k: int|
            n <= k < s.trail().len() && takes_part_in_conflict(s, k) && #[trigger] pulls(s, k, v);
        assert(pulls(s, k, v));
    }
}

/// Resolving the variable at place `n` away keeps the cut in step.
proof fn lemma_resolved(s: &SearchState, n: int, cut: Cut)
    requires
        s.wf(),
        s.conflicting(),
        s.conflict_level() > 0,
        0 <= n < s.trail().len(),
        open_before(s, n + 1, cut),
        takes_part_in_conflict(s, n),
    ensures
        open_before(s, n, s.resolved(cut, s.trail()[n].vi())),
{
    let v = s.trail()[n].vi();
    let next = s.resolved(cut, v);
    let r = s.reasons()[v];
    let i = n + 1;
    assert forall|w: int| #[trigger] next.open.contains(w) <==> exists|p: int|
        0 <= p < n && s.trail()[p].vi() == w && #[trigger] leads_past(s, p, n) by {
        if next.open.contains(w) {
            if cut.open.contains(w) && w != v {
                let p = choose|p: int| 0 <= p < i && s.trail()[p].vi() == w && #[trigger] leads_past(s, p, i);
                assert(p != n);
                lemma_leads_on(s, p, n);
            } else {
                assert(r != NO_REASON && s.brings(r as int, v, w));
                let p = lemma_reason_before(s, n, w);
                assert(pulls(s, n, w));
                assert(leads_past(s, p, n));
            }
        }
        if exists|p: int| 0 <= p < n && s.trail()[p].vi() == w && #[trigger] leads_past(s, p, n) {
            let p = choose|p: int| 0 <= p < n && s.trail()[p].vi() == w && #[trigger] leads_past(s, p, n);
            lemma_leads_on(s, p, n);
            if leads_past(s, p, i) {
                assert(cut.open.contains(w));
                if w == v {
                    lemma_distinct(s, p, n);
                }
            } else {
                assert(s.brings(r as int, v, w));
            }
        }
    }
}

/// What stands beside a place stands beside the one before it, with what the literal between them pulls
/// in, or with its own variable where no clause forced it.
proof fn lemma_beside_on(s: &SearchState, n: int, v: int)
    requires
        0 <= n < s.trail().len(),
    ensures
        stands_beside(s, n - 1, v) <==> stands_beside(s, n, v) || (takes_part_in_conflict(s, n) && ((pulls(s, n, v)
            && s.levels()[v] != 0 && s.levels()[v] != s.conflict_level()) || (s.trail()[n].vi() == v && s.reasons()[v]
            == NO_REASON))),
{
    let elsewhere = s.levels()[v] != 0 && s.levels()[v] != s.conflict_level();
    if stands_beside(s, n - 1, v) {
        if elsewhere && !mentions(s.db()[s.conflict_at()], v) && exists|k: int|
            n - 1 < k < s.trail().len() && takes_part_in_conflict(s, k) && #[trigger] pulls(s, k, v) {
            let k = choose|k: int|
                n - 1 < k < s.trail().len() && takes_part_in_conflict(s, k) && #[trigger] pulls(s, k, v);
            assert(pulls(s, k, v));
        } else if !(elsewhere && mentions(s.db()[s.conflict_at()], v)) {
            let p = choose|p: int|
                n - 1 < p < s.trail().len() && s.trail()[p].vi() == v && #[trigger] takes_part_in_conflict(s, p)
                    && s.reasons()[v] == NO_REASON;
            assert(takes_part_in_conflict(s, p));
        }
    }
    if stands_beside(s, n, v) {
        if elsewhere && !mentions(s.db()[s.conflict_at()], v) && exists|k: int|
            n < k < s.trail().len() && takes_part_in_conflict(s, k) && #[trigger] pulls(s, k, v) {
            let k = choose|k: int| n < k < s.trail().len() && takes_part_in_conflict(s, k) && #[trigger] pulls(s, k, v);
            assert(pulls(s, k, v));
        } else if !(elsewhere && mentions(s.db()[s.conflict_at()], v)) {
            let p = choose|p: int|
                n < p < s.trail().len() && s.trail()[p].vi() == v && #[trigger] takes_part_in_conflict(s, p)
                    && s.reasons()[v] == NO_REASON;
            assert(takes_part_in_conflict(s, p));
        }
    }
    if takes_part_in_conflict(s, n) && pulls(s, n, v) && elsewhere {
        assert(stands_beside(s, n - 1, v));
    }
    if takes_part_in_conflict(s, n) && s.trail()[n].vi() == v && s.reasons()[v] == NO_REASON {
        assert(stands_beside(s, n - 1, v));
    }
}

proof fn lemma_kept_passed_over(s: &SearchState, n: int, cut: Cut)
    requires
        0 <= n < s.trail().len(),
        kept_before(s, n + 1, cut),
        !takes_part_in_conflict(s, n),
    ensures
        kept_before(s, n, cut),
{
    assert forall|v: int| #[trigger] cut.kept.contains(v) <==> stands_beside(s, n - 1, v) by {
        lemma_beside_on(s, n, v);
    }
}

/// What a clause brings in.
proof fn lemma_brought_in(kept: Seq<int>, c: Seq<Lit>, levels: Seq<usize>, cl: int, pivot: int, n: int, v: int)
    requires
        0 <= n <= c.len(),
    ensures
        brought_in(kept, c, levels, cl, pivot, n).contains(v) <==> kept.contains(v) || (v != pivot && levels[v] != 0
            && levels[v] != cl && mentions(c.take(n), v)),
    decreases n,
{
    if n > 0 {
        lemma_brought_in(kept, c, levels, cl, pivot, n - 1, v);
        let before = brought_in(kept, c, levels, cl, pivot, n - 1);
        let w = c[n - 1].vi();
        crate::sorting::lemma_push_contains(before, w);
        if mentions(c.take(n), v) && !mentions(c.take(n - 1), v) {
            let k = choose|k: int| 0 <= k < n && (#[trigger] c.take(n)[k]).vi() == v;
            if k < n - 1 {
                assert(c.take(n - 1)[k].vi() == v);
            }
        }
        if mentions(c.take(n - 1), v) {
            let k = choose|k: int| 0 <= k < n - 1 && (#[trigger] c.take(n - 1)[k]).vi() == v;
            assert(c.take(n)[k].vi() == v);
        }
        if w == v {
            assert(c.take(n)[n - 1].vi() == v);
        }
        if w == v && v != pivot && levels[v] != 0 && levels[v] != cl && !before.contains(v) {
            lemma_brought_in(kept, c, levels, cl, pivot, n - 1, w);
        }
    }
}

proof fn lemma_kept_resolved(s: &SearchState, n: int, cut: Cut)
    requires
        s.wf(),
        0 <= n < s.trail().len(),
        kept_before(s, n + 1, cut),
        takes_part_in_conflict(s, n),
    ensures
        kept_before(s, n, s.resolved(cut, s.trail()[n].vi())),
{
    let v = s.trail()[n].vi();
    let r = s.reasons()[v];
    let next = s.resolved(cut, v);
    assert forall|w: int| #[trigger] next.kept.contains(w) <==> stands_beside(s, n - 1, w) by {
        lemma_beside_on(s, n, w);
        if r == NO_REASON {
            crate::sorting::lemma_push_contains(cut.kept, v);
        } else {
            let c = s.db()[r as int];
            assert(c.take(c.len() as int) =~= c);
            lemma_brought_in(cut.kept, c, s.levels(), s.conflict_level(), v, c.len() as int, w);
        }
    }
}

/// The clause that a conflict teaches is over the first unique implication point and what stands beside
/// it, but for what goes without saying.
pub proof fn lemma_learned_clause_says_what_is_needed(s: &SearchState, d: Seq<Lit>)
    requires
        s.wf(),
        s.conflicting(),
        s.conflict_level() > 0,
        s.learns(d),
    ensures
        exists|u: int|
            0 <= u < s.trail().len() && s.trail()[u].vi() == d[0].vi() && #[trigger] is_implication_point(s, u)
                && forall|v: int| #[trigger]
                mentions(d, v) <==> v == s.trail()[u].vi() || (stands_beside(s, u, v) && !goes_without_saying(s, u, v)),
{
    let cut = s.uip_cut();
    let u = lemma_first_point(s);
    assert forall|v: int| #[trigger]
        mentions(d, v) <==> v == s.trail()[u].vi() || (stands_beside(s, u, v) && !goes_without_saying(s, u, v)) by {
        lemma_spared(s, u, cut, v);
    }
}

/// What is spared is what goes without saying.
proof fn lemma_spared(s: &SearchState, u: int, cut: (int, Seq<int>), v: int)
    requires
        is_first_point(s, u, cut),
    ensures
        s.spared(cut, v) <==> goes_without_saying(s, u, v),
        cut.1.contains(v) <==> stands_beside(s, u, v),
{
    let r = s.reasons()[v];
    let c = s.db()[r as int];
    if s.spared(cut, v) {
        assert forall|w: int| #[trigger] mentions(c, w) && w != v implies s.levels()[w] == 0 || w == s.trail()[u].vi()
            || stands_beside(s, u, w) by {
            let q = choose|q: int| 0 <= q < c.len() && (#[trigger] c[q]).vi() == w;
            assert(cut.1.contains(w) <==> stands_beside(s, u, w));
        }
    }
    if goes_without_saying(s, u, v) {
        assert forall|q: int| 0 <= q < c.len() implies ({
            let w = (#[trigger] c[q]).vi();
            w == v || s.levels()[w] == 0 || w == cut.0 || cut.1.contains(w)
        }) by {
            let w = c[q].vi();
            assert(mentions(c, w));
            assert(cut.1.contains(w) <==> stands_beside(s, u, w));
        }
    }
}

/// The clause that a conflict teaches is cut at the first unique implication point: its first literal is
/// over a variable of the conflict level through which everything of that level before it leads to the
/// conflict, and no variable assigned after it is such a point.
pub proof fn lemma_learned_clause_is_cut_at_the_first_point(s: &SearchState, d: Seq<Lit>)
    requires
        s.wf(),
        s.conflicting(),
        s.conflict_level() > 0,
        s.learns(d),
    ensures
        exists|u: int|
            0 <= u < s.trail().len() && s.trail()[u].vi() == d[0].vi() && #[trigger] is_implication_point(s, u)
                && forall|j: int| u < j < s.trail().len() ==> !#[trigger] is_implication_point(s, j),
{
    let u = lemma_first_point(s);
    assert(is_implication_point(s, u));
}

proof fn lemma_first_point(s: &SearchState) -> (u: int)
    requires
        s.wf(),
        s.conflicting(),
        s.conflict_level() > 0,
    ensures
        is_first_point(s, u, s.uip_cut()),
{
    let n = s.trail().len() as int;
    let cut = s.first_cut();
    let conf = s.db()[s.conflict_at()];
    lemma_max_level(s.levels(), conf);
    assert(open_before(s, n, cut)) by {
        assert forall|v: int| #[trigger] cut.open.contains(v) <==> exists|p: int|
            0 <= p < n && s.trail()[p].vi() == v && #[trigger] leads_past(s, p, n) by {
            if cut.open.contains(v) {
                let k = choose|k: int| 0 <= k < conf.len() && (#[trigger] conf[k]).vi() == v;
                assert(s.trail().contains(conf[k].neg()));
                let p = s.trail().index_of(conf[k].neg());
                assert(leads_past(s, p, n));
            }
            if exists|p: int| 0 <= p < n && s.trail()[p].vi() == v && #[trigger] leads_past(s, p, n) {
                let p = choose|p: int| 0 <= p < n && s.trail()[p].vi() == v && #[trigger] leads_past(s, p, n);
                assert(s.brings(s.conflict_at(), -1, v));
            }
        }
    }
    assert(kept_before(s, n, cut)) by {
        assert forall|v: int| #[trigger] cut.kept.contains(v) <==> stands_beside(s, n - 1, v) by {
            assert(conf.take(conf.len() as int) =~= conf);
            lemma_brought_in(Seq::empty(), conf, s.levels(), s.conflict_level(), -1, conf.len() as int, v);
            if mentions(conf, v) {
                let k = choose|k: int| 0 <= k < conf.len() && (#[trigger] conf[k]).vi() == v;
                assert(v >= 0);
            }
        }
    }
    let k = choose|k: int| 0 <= k < conf.len() && s.levels()[(#[trigger] conf[k]).vi()] == s.conflict_level();
    assert(s.brings(s.conflict_at(), -1, conf[k].vi()));
    assert(cut.open.contains(conf[k].vi()));
    lemma_uip_below(s, n, cut);
    choose|u: int| #[trigger] is_first_point(s, u, s.uip_below(n, cut))
}

} // verus!
