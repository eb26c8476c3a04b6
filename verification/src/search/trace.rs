//! What a search did, written down as a tree.
//!
//! A search visits components. A visit ends at once, where the search is told to stop or the memo
//! knows the answer, or it tries one or both polarities of a decision. A try goes in rounds: each
//! round propagates, and then either meets a conflict, or assigns pure literals, splits what is left
//! into components and visits those. A further round follows only where a backjump landed.
//!
//! The tree fixes what the counters of a search say, and each step in it is one that the
//! configuration calls for.

use vstd::prelude::*;
use crate::cache::arena::Verdict;
use crate::cache::hash::key_hash;
use crate::cache::table::{CacheStats, Memo};
use crate::config::{Algorithm, Config};
use crate::lit::Lit;
use crate::search::component::{comp_shape, is_whole, key_bytes, lit_active, occurs_active, pure_list, splits, Comp};
use crate::search::heuristic::is_pick;
use crate::search::state::{forces, max_level, t_false, t_has, t_sat, woken, SearchState, Wave, NO_REASON};
use super::searcher::{Answer, SearchCounters};

verus! {

/// What became of the clause that a conflict teaches.
pub enum Lesson {
    /// Learning is off, or there is no room.
    Unwanted,
    /// It was longer than the size limit and thrown away.
    TooLong,
    /// It went into the database.
    Kept(Seq<Lit>),
}

/// A visit to a component.
pub struct Visit {
    /// The state of the search at the visit.
    pub at: SearchState,
    /// The component.
    pub comp: Comp,
    /// The memo before the visit.
    pub memo: Memo,
    /// Whether the memo was asked.
    pub asked: bool,
    /// How the visit ended.
    pub end: Ending,
    /// Whether the answer was put into the memo.
    pub kept: bool,
    /// The memo after the visit.
    pub after: Memo,
}

/// What a search has counted, and what it remembers.
pub struct Ledger {
    /// The counters of the search itself.
    pub counters: SearchCounters,
    /// The memo.
    pub memo: Memo,
    /// The clauses learned since the last propagation.
    pub pending: Seq<u32>,
}

impl Ledger {
    /// The ledger of a search that has not begun.
    pub open spec fn fresh(cfg: Config) -> Ledger {
        Ledger {
            counters: SearchCounters::zero(),
            memo: Memo::empty(cfg.cache_budget_bytes as int, cfg.target_load as int),
            pending: Seq::empty(),
        }
    }
}

/// How a visit ended.
pub enum Ending {
    /// The search was told to stop.
    Stopped,
    /// The memo knew the answer.
    Recalled(Verdict),
    /// The first polarity of a decision settled it.
    Once(Box<Try>),
    /// The first polarity failed, so the second was tried.
    Twice(Box<Try>, Box<Try>),
}

/// One polarity of a decision.
pub struct Try {
    /// The literal decided on.
    pub lit: Lit,
    /// The rounds that followed.
    pub rounds: Rounds,
}

/// Rounds, one after the other.
pub enum Rounds {
    /// None yet.
    Start,
    /// Some, and then one more.
    Then(Box<Rounds>, Box<Round>),
}

/// One round of propagation and what came of it.
pub enum Round {
    /// A clause was falsified.
    Conflict {
        /// The state of the search before the round.
        from: SearchState,
        /// The state of the search at the conflict.
        at: SearchState,
        /// What was learned from it.
        lesson: Lesson,
    },
    /// What was left fell into components.
    Split {
        /// The state of the search before the round.
        from: SearchState,
        /// The state of the search after propagation.
        at: SearchState,
        /// The state after pure literals were assigned.
        split: SearchState,
        /// The components.
        comps: Seq<Comp>,
        /// The visits to them.
        visits: Visits,
    },
}

/// Visits, one after the other.
pub enum Visits {
    /// None yet.
    Start,
    /// Some, and then one more.
    Then(Box<Visits>, Box<Visit>),
}

/// A whole search: rounds at the root, and the state in which a clause was falsified there, if one
/// was.
pub struct Run {
    /// The rounds.
    pub rounds: Rounds,
    /// The states before the last propagation and with the falsified clause.
    pub refuted: Option<(SearchState, SearchState)>,
}

/// Where a series of rounds begins.
pub struct Stage {
    /// What is assigned.
    pub trail: Seq<Lit>,
    /// Where the decision levels start.
    pub lims: Seq<usize>,
    /// The variables that may be left.
    pub scope: Seq<u32>,
    /// The clauses, given and learned.
    pub db: Seq<Seq<Lit>>,
    /// The memo.
    pub memo: Memo,
    /// The clauses that propagation has to look at.
    pub queue: Seq<u32>,
}

/// The hash and key under which the memo knows a component.
pub open spec fn memo_key(comp: Comp) -> (u64, Seq<u8>) {
    (key_hash(key_bytes(comp.vars, comp.clauses)), key_bytes(comp.vars, comp.clauses))
}

/// How many bytes of witness go with an answer: one bit for each variable of a satisfied component.
pub open spec fn witness_bytes(comp: Comp, a: Answer) -> nat {
    if a == Answer::Sat {
        ((comp.vars.len() + 7) / 8) as nat
    } else {
        0
    }
}

/// The verdict that an answer stands for.
pub open spec fn verdict_of(a: Answer) -> Verdict {
    if a == Answer::Sat {
        Verdict::Sat
    } else {
        Verdict::Unsat
    }
}

/// The answer is one to remember: the memo is on, the component was decided, and there is room.
pub open spec fn keepable(cfg: Config, comp: Comp, a: Answer, m: Memo) -> bool {
    &&& cfg.cache
    &&& a == Answer::Sat || a == Answer::Unsat
    &&& m.fits(memo_key(comp).1.len(), witness_bytes(comp, a))
}

/// From memo `m` to memo `n` the answer was remembered with the witness, if it is one to remember.
#[verifier::opaque]
pub open spec fn remembered_with(cfg: Config, comp: Comp, a: Answer, w: Seq<u8>, m: Memo, n: Memo) -> bool {
    if keepable(cfg, comp, a, m) {
        n.stored_from(m, memo_key(comp).0, memo_key(comp).1, verdict_of(a), w)
    } else {
        n == m
    }
}

/// From memo `m` to memo `n` the answer was remembered, if it is one to remember.
#[verifier::opaque]
pub open spec fn remembered(cfg: Config, comp: Comp, a: Answer, m: Memo, n: Memo) -> bool {
    exists|w: Seq<u8>| w.len() == witness_bytes(comp, a) && #[trigger] remembered_with(cfg, comp, a, w, m, n)
}

/// What is not to be remembered leaves the memo as it is.
pub proof fn lemma_nothing_remembered(cfg: Config, comp: Comp, a: Answer, m: Memo)
    requires
        a != Answer::Sat,
        a != Answer::Unsat,
    ensures
        remembered(cfg, comp, a, m, m),
{
    reveal(remembered_with);
    reveal(remembered);
    assert(remembered_with(cfg, comp, a, Seq::empty(), m, m));
}

/// The memo once it was asked for a component that it does not know.
pub open spec fn asked_in_vain(cfg: Config, m: Memo) -> Memo {
    if cfg.cache {
        m.missed()
    } else {
        m
    }
}

/// The level at which a clause learned in a state asserts its first literal.
pub open spec fn target_level(at: SearchState, d: Seq<Lit>) -> int {
    max_level(at.levels(), d.skip(1))
}

/// The learned clause asserts its first literal above the conflict.
pub open spec fn is_asserting(at: SearchState, d: Seq<Lit>) -> bool {
    target_level(at, d) < at.conflict_level()
}

/// What a conflict means for the search.
pub open spec fn answer_of_lesson(at: SearchState, lesson: Lesson) -> Answer {
    match lesson {
        Lesson::Kept(d) => if is_asserting(at, d) {
            Answer::Backjump(target_level(at, d) as usize)
        } else {
            Answer::Unsat
        },
        _ => Answer::Unsat,
    }
}

/// How the visit was answered.
pub open spec fn answer_of_visit(v: Visit) -> Answer
    decreases v,
{
    match v.end {
        Ending::Stopped => Answer::Aborted,
        Ending::Recalled(Verdict::Sat) => Answer::Sat,
        Ending::Recalled(Verdict::Unsat) => Answer::Unsat,
        Ending::Once(t) => answer_of_rounds(t.rounds),
        Ending::Twice(_, t) => answer_of_rounds(t.rounds),
    }
}

/// How the rounds ended.
pub open spec fn answer_of_rounds(rs: Rounds) -> Answer
    decreases rs,
{
    match rs {
        Rounds::Start => Answer::Unsat,
        Rounds::Then(_, r) => answer_of_round(*r),
    }
}

/// How the round ended.
pub open spec fn answer_of_round(r: Round) -> Answer
    decreases r,
{
    match r {
        Round::Conflict { from, at, lesson } => answer_of_lesson(at, lesson),
        Round::Split { from, at, split, comps, visits } => answer_of_visits(visits),
    }
}

/// How the last of the visits was answered.
pub open spec fn answer_of_visits(vs: Visits) -> Answer
    decreases vs,
{
    match vs {
        Visits::Start => Answer::Sat,
        Visits::Then(_, v) => answer_of_visit(*v),
    }
}

/// How the search ended.
pub open spec fn answer_of_run(run: Run) -> Answer {
    if run.refuted is Some {
        Answer::Unsat
    } else {
        answer_of_rounds(run.rounds)
    }
}

/// The clauses after a conflict.
pub open spec fn clauses_after_lesson(at: SearchState, lesson: Lesson) -> Seq<Seq<Lit>> {
    match lesson {
        Lesson::Kept(d) => at.db().push(d),
        _ => at.db(),
    }
}

/// The clauses after a visit.
pub open spec fn clauses_after_visit(v: Visit) -> Seq<Seq<Lit>>
    decreases v,
{
    match v.end {
        Ending::Stopped => v.at.db(),
        Ending::Recalled(_) => v.at.db(),
        Ending::Once(t) => clauses_after_rounds(t.rounds, v.at.db()),
        Ending::Twice(_, t) => clauses_after_rounds(t.rounds, v.at.db()),
    }
}

/// The clauses after rounds that began with `db`.
pub open spec fn clauses_after_rounds(rs: Rounds, db: Seq<Seq<Lit>>) -> Seq<Seq<Lit>>
    decreases rs,
{
    match rs {
        Rounds::Start => db,
        Rounds::Then(_, r) => clauses_after_round(*r),
    }
}

/// The clauses after a round.
pub open spec fn clauses_after_round(r: Round) -> Seq<Seq<Lit>>
    decreases r,
{
    match r {
        Round::Conflict { from, at, lesson } => clauses_after_lesson(at, lesson),
        Round::Split { from, at, split, comps, visits } => clauses_after_visits(visits, split.db()),
    }
}

/// The clauses after visits that began with `db`.
pub open spec fn clauses_after_visits(vs: Visits, db: Seq<Seq<Lit>>) -> Seq<Seq<Lit>>
    decreases vs,
{
    match vs {
        Visits::Start => db,
        Visits::Then(_, v) => clauses_after_visit(*v),
    }
}

/// What is assigned after rounds that began with `trail`.
pub open spec fn trail_after_rounds(rs: Rounds, trail: Seq<Lit>) -> Seq<Lit> {
    match rs {
        Rounds::Start => trail,
        Rounds::Then(_, r) => match *r {
            Round::Conflict { from, at, lesson } => at.trail(),
            Round::Split { from, at, split, comps, visits } => split.trail(),
        },
    }
}

/// The memo after visits that began with `m`.
pub open spec fn memo_after_visits(vs: Visits, m: Memo) -> Memo {
    match vs {
        Visits::Start => m,
        Visits::Then(_, v) => v.after,
    }
}

/// The memo after rounds that began with `m`.
pub open spec fn memo_after_rounds(rs: Rounds, m: Memo) -> Memo
    decreases rs,
{
    match rs {
        Rounds::Start => m,
        Rounds::Then(p, r) => match *r {
            Round::Conflict { from, at, lesson } => memo_after_rounds(*p, m),
            Round::Split { from, at, split, comps, visits } => memo_after_visits(visits, memo_after_rounds(*p, m)),
        },
    }
}

/// The clause that a conflict leaves to be propagated.
pub open spec fn pending_after_lesson(at: SearchState, lesson: Lesson) -> Seq<u32> {
    match lesson {
        Lesson::Kept(d) => seq![at.db().len() as u32],
        _ => Seq::empty(),
    }
}

/// The clauses that a visit leaves to be propagated.
pub open spec fn pending_after_visit(v: Visit) -> Seq<u32>
    decreases v,
{
    match v.end {
        Ending::Stopped => Seq::empty(),
        Ending::Recalled(_) => Seq::empty(),
        Ending::Once(t) => pending_after_rounds(t.rounds),
        Ending::Twice(_, t) => pending_after_rounds(t.rounds),
    }
}

/// The clauses that rounds leave to be propagated, once there was one.
pub open spec fn pending_after_rounds(rs: Rounds) -> Seq<u32>
    decreases rs,
{
    match rs {
        Rounds::Start => Seq::empty(),
        Rounds::Then(_, r) => pending_after_round(*r),
    }
}

/// The clauses that a round leaves to be propagated.
pub open spec fn pending_after_round(r: Round) -> Seq<u32>
    decreases r,
{
    match r {
        Round::Conflict { from, at, lesson } => pending_after_lesson(at, lesson),
        Round::Split { from, at, split, comps, visits } => pending_after_visits(visits),
    }
}

/// The clauses that visits leave to be propagated.
pub open spec fn pending_after_visits(vs: Visits) -> Seq<u32>
    decreases vs,
{
    match vs {
        Visits::Start => Seq::empty(),
        Visits::Then(_, v) => pending_after_visit(*v),
    }
}

/// How many visits there are in a row.
pub open spec fn visits_len(vs: Visits) -> nat
    decreases vs,
{
    match vs {
        Visits::Start => 0,
        Visits::Then(p, _) => visits_len(*p) + 1,
    }
}

/// Events, counted.
pub struct Tally {
    /// Visits.
    pub nodes: nat,
    /// Decisions.
    pub decisions: nat,
    /// Conflicts.
    pub conflicts: nat,
    /// Assignments.
    pub propagations: nat,
    /// Components.
    pub components: nat,
    /// Pure literals.
    pub pure_literals: nat,
    /// Clauses kept.
    pub learned: nat,
    /// Literals of clauses kept.
    pub learned_literals: nat,
    /// Clauses thrown away.
    pub discarded: nat,
    /// Backjumps over at least one level.
    pub backjumps: nat,
    /// Levels jumped over.
    pub levels_skipped: nat,
    /// Questions put to the memo.
    pub lookups: nat,
    /// Visits that the memo answered.
    pub hits: nat,
    /// Answers put into the memo.
    pub inserts: nat,
    /// The depth of the deepest visit.
    pub depth: u64,
}

impl Tally {
    /// Nothing.
    pub open spec fn none() -> Tally {
        Tally {
            nodes: 0,
            decisions: 0,
            conflicts: 0,
            propagations: 0,
            components: 0,
            pure_literals: 0,
            learned: 0,
            learned_literals: 0,
            discarded: 0,
            backjumps: 0,
            levels_skipped: 0,
            lookups: 0,
            hits: 0,
            inserts: 0,
            depth: 0,
        }
    }

    /// Both together.
    pub open spec fn plus(self, o: Tally) -> Tally {
        Tally {
            nodes: self.nodes + o.nodes,
            decisions: self.decisions + o.decisions,
            conflicts: self.conflicts + o.conflicts,
            propagations: self.propagations + o.propagations,
            components: self.components + o.components,
            pure_literals: self.pure_literals + o.pure_literals,
            learned: self.learned + o.learned,
            learned_literals: self.learned_literals + o.learned_literals,
            discarded: self.discarded + o.discarded,
            backjumps: self.backjumps + o.backjumps,
            levels_skipped: self.levels_skipped + o.levels_skipped,
            lookups: self.lookups + o.lookups,
            hits: self.hits + o.hits,
            inserts: self.inserts + o.inserts,
            depth: if self.depth > o.depth {
                self.depth
            } else {
                o.depth
            },
        }
    }
}

/// One if it is so.
pub open spec fn one_if(b: bool) -> nat {
    if b {
        1
    } else {
        0
    }
}

/// A single visit at depth `d`: whether the memo was asked, and whether it knew the answer.
pub open spec fn one_visit(d: u64, asked: bool, hit: bool) -> Tally {
    Tally { nodes: 1, depth: d, lookups: one_if(asked), hits: one_if(hit), ..Tally::none() }
}

/// An answer, put into the memo or not.
pub open spec fn one_answer(kept: bool) -> Tally {
    Tally { inserts: one_if(kept), ..Tally::none() }
}

/// A single decision.
pub open spec fn one_decision() -> Tally {
    Tally { decisions: 1, propagations: 1, ..Tally::none() }
}

/// A number of literals that propagation assigned.
pub open spec fn some_forced(n: int) -> Tally {
    Tally { propagations: n as nat, ..Tally::none() }
}

/// A single conflict, with what came of it.
pub open spec fn one_conflict(at: SearchState, lesson: Lesson) -> Tally {
    let level = at.lims().len();
    match lesson {
        Lesson::Unwanted => Tally { conflicts: 1, ..Tally::none() },
        Lesson::TooLong => Tally { conflicts: 1, discarded: 1, ..Tally::none() },
        Lesson::Kept(d) => {
            let jumps = is_asserting(at, d) && target_level(at, d) + 1 < level;
            Tally {
                conflicts: 1,
                learned: 1,
                learned_literals: d.len(),
                backjumps: if jumps {
                    1
                } else {
                    0
                },
                levels_skipped: if jumps {
                    (level - target_level(at, d) - 1) as nat
                } else {
                    0
                },
                ..Tally::none()
            }
        },
    }
}

/// A split into components after some pure literals.
pub open spec fn one_split(at: SearchState, split: SearchState, comps: Seq<Comp>) -> Tally {
    Tally {
        components: comps.len(),
        pure_literals: (split.trail().len() - at.trail().len()) as nat,
        propagations: (split.trail().len() - at.trail().len()) as nat,
        ..Tally::none()
    }
}

/// The events of a visit at depth `d`.
pub open spec fn tally_visit(v: Visit, d: u64) -> Tally
    decreases v,
{
    match v.end {
        Ending::Stopped => one_visit(d, v.asked, false),
        Ending::Recalled(_) => one_visit(d, v.asked, true),
        Ending::Once(t) => one_visit(d, v.asked, false).plus(tally_try(*t, d)).plus(one_answer(v.kept)),
        Ending::Twice(t, u) => one_visit(d, v.asked, false).plus(tally_try(*t, d)).plus(tally_try(*u, d)).plus(
            one_answer(v.kept),
        ),
    }
}

/// The events of a try under a visit at depth `d`.
pub open spec fn tally_try(t: Try, d: u64) -> Tally
    decreases t,
{
    one_decision().plus(tally_rounds(t.rounds, d))
}

/// The events of rounds under a visit at depth `d`.
pub open spec fn tally_rounds(rs: Rounds, d: u64) -> Tally
    decreases rs,
{
    match rs {
        Rounds::Start => Tally::none(),
        Rounds::Then(p, r) => tally_rounds(*p, d).plus(tally_round(*r, d)),
    }
}

/// The events of a round under a visit at depth `d`.
pub open spec fn tally_round(r: Round, d: u64) -> Tally
    decreases r,
{
    match r {
        Round::Conflict { from, at, lesson } => some_forced(at.trail().len() - from.trail().len()).plus(one_conflict(at, lesson)),
        Round::Split { from, at, split, comps, visits } => some_forced(at.trail().len() - from.trail().len()).plus(
            one_split(at, split, comps),
        ).plus(tally_visits(visits, d.saturating_add(1))),
    }
}

/// The events of visits at depth `d`.
pub open spec fn tally_visits(vs: Visits, d: u64) -> Tally
    decreases vs,
{
    match vs {
        Visits::Start => Tally::none(),
        Visits::Then(p, v) => tally_visits(*p, d).plus(tally_visit(*v, d)),
    }
}

/// A counter that stops at the largest number it can hold.
pub open spec fn added(a: u64, n: nat) -> u64 {
    if a + n > u64::MAX {
        u64::MAX
    } else {
        (a + n) as u64
    }
}

/// Between `a` and `b` the counters, those of the memo among them, took up exactly the tally.
#[verifier::opaque]
pub open spec fn counted(a: Ledger, b: Ledger, t: Tally) -> bool {
    &&& b.counters.nodes == added(a.counters.nodes, t.nodes)
    &&& b.counters.decisions == added(a.counters.decisions, t.decisions)
    &&& b.counters.conflicts == added(a.counters.conflicts, t.conflicts)
    &&& b.counters.propagations == added(a.counters.propagations, t.propagations)
    &&& b.counters.components == added(a.counters.components, t.components)
    &&& b.counters.pure_literals == added(a.counters.pure_literals, t.pure_literals)
    &&& b.counters.learned == added(a.counters.learned, t.learned)
    &&& b.counters.learned_literals == added(a.counters.learned_literals, t.learned_literals)
    &&& b.counters.discarded == added(a.counters.discarded, t.discarded)
    &&& b.counters.backjumps == added(a.counters.backjumps, t.backjumps)
    &&& b.counters.levels_skipped == added(a.counters.levels_skipped, t.levels_skipped)
    &&& b.counters.max_depth == if t.depth > a.counters.max_depth {
        t.depth
    } else {
        a.counters.max_depth
    }
    &&& b.memo.stats.lookups == added(a.memo.stats.lookups, t.lookups)
    &&& b.memo.stats.hits == added(a.memo.stats.hits, t.hits)
    &&& b.memo.stats.inserts == added(a.memo.stats.inserts, t.inserts)
}

/// There is room for another clause, and it is wanted.
pub open spec fn may_learn(cfg: Config, at: SearchState) -> bool {
    &&& cfg.learn
    &&& at.learned_size() < cfg.max_learned_literals
    &&& at.db().len() < 0xffff_fffe
}

/// The configuration calls for the lesson.
pub open spec fn ok_lesson(cfg: Config, at: SearchState, lesson: Lesson) -> bool {
    match lesson {
        Lesson::Unwanted => !may_learn(cfg, at),
        Lesson::TooLong => may_learn(cfg, at) && cfg.max_learned_clause_size != 0 && forall|d: Seq<Lit>| #[trigger]
            at.learns(d) ==> d.len() > cfg.max_learned_clause_size,
        Lesson::Kept(d) => may_learn(cfg, at) && at.learns(d) && at.derives(d) && (cfg.max_learned_clause_size == 0
            || d.len() <= cfg.max_learned_clause_size),
    }
}

/// With the clauses `q` to look at, propagation comes to rest in `at` after `n` steps.
pub open spec fn comes_to(o: SearchState, q: Seq<u32>, at: SearchState, n: nat) -> bool {
    let end = (Wave { queue: q, ..o.wave() }).steps(o.db(), n);
    end.at_rest() && Wave { queue: Seq::empty(), ..at.wave() } == (Wave { queue: Seq::empty(), ..end })
}

/// With the clauses `q` to look at, propagation comes to rest in `at`.
pub open spec fn settles(o: SearchState, q: Seq<u32>, at: SearchState) -> bool {
    exists|n: nat| #[trigger] comes_to(o, q, at, n)
}

/// Propagation leads from the stage to the state: it comes to rest there, and every literal beyond
/// the trail was forced by a clause.
#[verifier::opaque]
pub open spec fn reached(st: Stage, from: SearchState, at: SearchState) -> bool {
    &&& from.trail() == st.trail
    &&& from.lims() == st.lims
    &&& from.db() == st.db
    &&& at.wf()
    &&& at.db() == st.db
    &&& at.lims() == st.lims
    &&& st.trail.len() <= at.trail().len()
    &&& at.trail().take(st.trail.len() as int) == st.trail
    &&& forall|i: int|
        st.trail.len() <= i < at.trail().len() ==> at.reasons()[(#[trigger] at.trail()[i]).vi()] != NO_REASON
    &&& settles(from, st.queue, at)
}

/// Every literal from position `n` on was pure when it was assigned: its variable was open and its
/// complement occurred in no active clause.
pub open spec fn pure_from(db: Seq<Seq<Lit>>, t: Seq<Lit>, n: int) -> bool {
    forall|i: int|
        n <= i < t.len() ==> !lit_active(db, t.take(i), (#[trigger] t[i]).neg()) && !t_has(t.take(i), t[i].vi())
}

/// Pure literals lead from one state to the other, and none is left among the components; there are
/// none at all where they are switched off.
#[verifier::opaque]
pub open spec fn purified(cfg: Config, at: SearchState, split: SearchState, comps: Seq<Comp>) -> bool {
    &&& split.wf()
    &&& split.db() == at.db()
    &&& split.nv() == at.nv()
    &&& split.lims() == at.lims()
    &&& at.trail().len() <= split.trail().len()
    &&& split.trail().take(at.trail().len() as int) == at.trail()
    &&& pure_from(split.db(), split.trail(), at.trail().len() as int)
    &&& if cfg.pure_literals {
        pure_list(split.db(), split.trail(), comps) == Seq::<Lit>::empty()
    } else {
        split.trail() == at.trail()
    }
}

/// The components are those that the algorithm makes of the scope: a single one for plain DPLL, and
/// otherwise the connected ones.
#[verifier::opaque]
pub open spec fn divided(cfg: Config, s: SearchState, scope: Seq<u32>, comps: Seq<Comp>) -> bool {
    if cfg.algorithm == Algorithm::Dpll {
        &&& comps.len() <= 1
        &&& comps.len() == 1 <==> exists|k: int|
            0 <= k < scope.len() && !t_has(s.trail(), #[trigger] scope[k] as int) && occurs_active(
                s.db(),
                s.trail(),
                scope[k] as int,
            )
        &&& comps.len() == 1 ==> is_whole(s.db(), s.trail(), scope, comps[0])
    } else {
        splits(s.db(), s.trail(), s.nv(), scope, comps)
    }
}

/// The steps of the visit are those that the configuration calls for. The memo is asked first, where
/// it is on; what it knows it answers at the price of the visit alone; and what a decision settles is
/// remembered, where there is room.
pub open spec fn ok_visit(cfg: Config, v: Visit) -> bool
    decreases v,
{
    let trail = v.at.trail();
    let k = memo_key(v.comp);
    let m = asked_in_vain(cfg, v.memo);
    &&& v.at.wf()
    &&& comp_shape(v.at.db(), trail, v.at.nv(), v.comp)
    &&& v.asked == (cfg.cache && !(v.end is Stopped))
    &&& match v.end {
        Ending::Stopped => !v.kept && v.after == v.memo,
        Ending::Recalled(verdict) => {
            &&& cfg.cache
            &&& v.memo.map.contains_key(k)
            &&& verdict == v.memo.map[k].verdict
            &&& !v.kept
            &&& v.after == v.memo.touched(k)
        },
        Ending::Once(t) => {
            let a = answer_of_rounds(t.rounds);
            let n = memo_after_rounds(t.rounds, m);
            &&& cfg.cache ==> !v.memo.map.contains_key(k)
            &&& is_pick(&v.at, v.comp, cfg.heuristic, t.lit)
            &&& ok_rounds(
                cfg,
                try_stage(trail, v.at.vals(), v.at.lims(), v.at.db(), m, Seq::empty(), v.comp, t.lit),
                t.rounds,
            )
            &&& !(t.rounds is Start)
            &&& a != Answer::Unsat
            &&& v.kept == keepable(cfg, v.comp, a, n)
            &&& remembered(cfg, v.comp, a, n, v.after)
        },
        Ending::Twice(t, u) => {
            let a = answer_of_rounds(u.rounds);
            let m2 = memo_after_rounds(t.rounds, m);
            let n = memo_after_rounds(u.rounds, m2);
            &&& cfg.cache ==> !v.memo.map.contains_key(k)
            &&& is_pick(&v.at, v.comp, cfg.heuristic, t.lit)
            &&& ok_rounds(
                cfg,
                try_stage(trail, v.at.vals(), v.at.lims(), v.at.db(), m, Seq::empty(), v.comp, t.lit),
                t.rounds,
            )
            &&& !(t.rounds is Start)
            &&& answer_of_rounds(t.rounds) == Answer::Unsat
            &&& u.lit == t.lit.neg()
            &&& ok_rounds(
                cfg,
                try_stage(
                    trail,
                    v.at.vals(),
                    v.at.lims(),
                    clauses_after_rounds(t.rounds, v.at.db()),
                    m2,
                    pending_after_rounds(t.rounds),
                    v.comp,
                    u.lit,
                ),
                u.rounds,
            )
            &&& !(u.rounds is Start)
            &&& v.kept == keepable(cfg, v.comp, a, n)
            &&& remembered(cfg, v.comp, a, n, v.after)
        },
    }
}

/// The rounds are those that the configuration calls for: each begins where the one before it left
/// off, and follows only on a backjump that lands here.
pub open spec fn ok_rounds(cfg: Config, st: Stage, rs: Rounds) -> bool
    decreases rs,
{
    match rs {
        Rounds::Start => true,
        Rounds::Then(p, r) => {
            &&& ok_rounds(cfg, st, *p)
            &&& *p is Start || lands(st, answer_of_rounds(*p))
            &&& ok_round(
                cfg,
                next_stage(st, *p),
                *r,
            )
        },
    }
}

/// Where the next round begins.
pub open spec fn next_stage(st: Stage, rs: Rounds) -> Stage {
    Stage {
        trail: trail_after_rounds(rs, st.trail),
        db: clauses_after_rounds(rs, st.db),
        memo: memo_after_rounds(rs, st.memo),
        queue: if rs is Start {
            st.queue
        } else {
            pending_after_rounds(rs)
        },
        ..st
    }
}

/// A backjump lands at the stage: on its level, or at the root, where all end that are not caught
/// before.
pub open spec fn lands(st: Stage, a: Answer) -> bool {
    a matches Answer::Backjump(target) && (st.lims.len() > 0 ==> target == st.lims.len())
}

/// The round is one that the configuration calls for.
pub open spec fn ok_round(cfg: Config, st: Stage, r: Round) -> bool
    decreases r,
{
    match r {
        Round::Conflict { from, at, lesson } => {
            &&& reached(st, from, at)
            &&& at.conflicting()
            &&& ok_lesson(cfg, at, lesson)
        },
        Round::Split { from, at, split, comps, visits } => {
            &&& reached(st, from, at)
            &&& !at.conflicting()
            &&& at.noted()
            &&& purified(cfg, at, split, comps)
            &&& divided(cfg, split, st.scope, comps)
            &&& ok_visits(cfg, split, comps, st.memo, visits)
            &&& visits_len(visits) == comps.len() || answer_of_visits(visits) != Answer::Sat
        },
    }
}

/// The visits go through the components in order, each but the last with success.
pub open spec fn ok_visits(cfg: Config, split: SearchState, comps: Seq<Comp>, m: Memo, vs: Visits) -> bool
    decreases vs,
{
    match vs {
        Visits::Start => true,
        Visits::Then(p, v) => {
            &&& ok_visits(cfg, split, comps, m, *p)
            &&& answer_of_visits(*p) == Answer::Sat
            &&& visits_len(*p) < comps.len()
            &&& v.comp == comps[visits_len(*p) as int]
            &&& v.at.trail() == split.trail()
            &&& v.at.lims() == split.lims()
            &&& v.at.nv() == split.nv()
            &&& v.at.db() == clauses_after_visits(*p, split.db())
            &&& v.memo == memo_after_visits(*p, m)
            &&& ok_visit(cfg, *v)
        },
    }
}

/// No round met a conflict itself.
pub open spec fn only_splits(rs: Rounds) -> bool
    decreases rs,
{
    match rs {
        Rounds::Start => true,
        Rounds::Then(p, r) => only_splits(*p) && *r is Split,
    }
}

/// The search is one that the configuration calls for, from the stage on.
pub open spec fn ok_run(cfg: Config, st: Stage, run: Run) -> bool {
    &&& ok_rounds(cfg, st, run.rounds)
    &&& only_splits(run.rounds)
    &&& match run.refuted {
        Some((from, at)) => {
            &&& run.rounds is Start || lands(st, answer_of_rounds(run.rounds))
            &&& reached(next_stage(st, run.rounds), from, at)
            &&& at.conflicting()
        },
        None => !(run.rounds is Start) && !(answer_of_rounds(run.rounds) is Backjump),
    }
}

/// Pure literals after pure literals.
pub proof fn lemma_pure_from(db: Seq<Seq<Lit>>, t: Seq<Lit>, u: Seq<Lit>, n: int)
    requires
        0 <= n <= t.len() <= u.len(),
        u.take(t.len() as int) == t,
        pure_from(db, t, n),
        pure_from(db, u, t.len() as int),
    ensures
        pure_from(db, u, n),
{
    assert forall|i: int| n <= i < u.len() implies !lit_active(db, u.take(i), (#[trigger] u[i]).neg()) && !t_has(
        u.take(i),
        u[i].vi(),
    ) by {
        if i < t.len() {
            assert(u.take(t.len() as int)[i] == u[i]);
            assert(u.take(i) =~= t.take(i));
            assert(t[i] == u[i]);
        }
    }
}

/// With the clauses `q` to look at, propagation led from one state to the other, and missed no
/// falsified clause.
#[verifier::opaque]
pub open spec fn led_to(o: SearchState, q: Seq<u32>, at: SearchState) -> bool {
    at.wf() && at.noted() && at.propagated_from(&o) && settles(o, q, at)
}

/// Where propagation leads.
pub proof fn lemma_reached(st: Stage, o: &SearchState, s: &SearchState)
    requires
        st.trail == o.trail(),
        st.lims == o.lims(),
        st.db == o.db(),
        s.wf(),
        s.propagated_from(o),
        settles(*o, st.queue, *s),
    ensures
        reached(st, *o, *s),
{
    reveal(reached);
}

/// Nothing happened.
pub proof fn lemma_counted_none(a: Ledger)
    ensures
        counted(a, a, Tally::none()),
{
    reveal(counted);
}

/// One thing after the other.
pub proof fn lemma_counted_trans(a: Ledger, b: Ledger, c: Ledger, t: Tally, u: Tally)
    requires
        counted(a, b, t),
        counted(b, c, u),
    ensures
        counted(a, c, t.plus(u)),
{
    reveal(counted);
}

/// A visit is counted, and what came of asking the memo.
pub proof fn lemma_counted_visit(a: Ledger, b: Ledger, d: u64, asked: bool, hit: bool)
    requires
        b.counters == (SearchCounters {
            nodes: a.counters.nodes.saturating_add(1),
            max_depth: if d > a.counters.max_depth {
                d
            } else {
                a.counters.max_depth
            },
            ..a.counters
        }),
        b.memo.stats == (CacheStats {
            lookups: if asked {
                a.memo.stats.lookups.saturating_add(1)
            } else {
                a.memo.stats.lookups
            },
            hits: if hit {
                a.memo.stats.hits.saturating_add(1)
            } else {
                a.memo.stats.hits
            },
            ..a.memo.stats
        }),
    ensures
        counted(a, b, one_visit(d, asked, hit)),
{
    reveal(counted);
}

/// Remembering an answer is counted.
pub proof fn lemma_counted_answer(cfg: Config, comp: Comp, ans: Answer, a: Ledger, b: Ledger)
    requires
        b.counters == a.counters,
        remembered(cfg, comp, ans, a.memo, b.memo),
    ensures
        counted(a, b, one_answer(keepable(cfg, comp, ans, a.memo))),
{
    reveal(counted);
    reveal(remembered_with);
    reveal(remembered);
}

/// What propagation assigned is counted.
pub proof fn lemma_counted_forced(a: Ledger, b: Ledger, n: int)
    requires
        n >= 0,
        b.memo == a.memo,
        b.counters == (SearchCounters {
            propagations: added(a.counters.propagations, n as nat),
            ..a.counters
        }),
    ensures
        counted(a, b, some_forced(n)),
{
    reveal(counted);
}

/// A decision is counted.
pub proof fn lemma_counted_decision(a: Ledger, b: Ledger)
    requires
        b.memo == a.memo,
        b.counters == (SearchCounters {
            decisions: a.counters.decisions.saturating_add(1),
            propagations: a.counters.propagations.saturating_add(1),
            ..a.counters
        }),
    ensures
        counted(a, b, one_decision()),
{
    reveal(counted);
}

/// A split is counted.
pub proof fn lemma_counted_split(a: Ledger, b: Ledger, at: SearchState, split: SearchState, comps: Seq<Comp>)
    requires
        at.trail().len() <= split.trail().len(),
        b.memo == a.memo,
        b.counters == (SearchCounters {
            components: added(a.counters.components, comps.len()),
            pure_literals: added(a.counters.pure_literals, (split.trail().len() - at.trail().len()) as nat),
            propagations: added(a.counters.propagations, (split.trail().len() - at.trail().len()) as nat),
            ..a.counters
        }),
    ensures
        counted(a, b, one_split(at, split, comps)),
{
    reveal(counted);
}

/// A conflict is counted.
pub proof fn lemma_counted_conflict(a: Ledger, b: Ledger, at: SearchState, lesson: Lesson)
    requires
        b.memo == a.memo,
        ({
            let t = one_conflict(at, lesson);
            b.counters == (SearchCounters {
                conflicts: a.counters.conflicts.saturating_add(1),
                learned: added(a.counters.learned, t.learned),
                learned_literals: added(a.counters.learned_literals, t.learned_literals),
                discarded: added(a.counters.discarded, t.discarded),
                backjumps: added(a.counters.backjumps, t.backjumps),
                levels_skipped: added(a.counters.levels_skipped, t.levels_skipped),
                ..a.counters
            })
        }),
    ensures
        counted(a, b, one_conflict(at, lesson)),
{
    reveal(counted);
}

/// The visit tells what was done to component `comp` at depth `d`, from counters `c0` to counters
/// `c1`: how it was answered and which clauses there are afterwards.
#[verifier::opaque]
pub open spec fn visit_story(
    cfg: Config,
    at: SearchState,
    comp: Comp,
    d: u64,
    c0: Ledger,
    v: Visit,
    a: Answer,
    db: Seq<Seq<Lit>>,
    c1: Ledger,
) -> bool {
    &&& ok_visit(cfg, v)
    &&& v.at == at
    &&& v.comp == comp
    &&& v.memo == c0.memo
    &&& v.after == c1.memo
    &&& c0.pending == Seq::<u32>::empty()
    &&& c1.pending == pending_after_visit(v)
    &&& answer_of_visit(v) == a
    &&& clauses_after_visit(v) == db
    &&& counted(c0, c1, tally_visit(v, d))
}

/// The visits tell what was done to the first `n` components, as [`visit_story`] does of one.
#[verifier::opaque]
pub open spec fn visits_story(
    cfg: Config,
    split: SearchState,
    comps: Seq<Comp>,
    d: u64,
    c0: Ledger,
    vs: Visits,
    n: int,
    a: Answer,
    db: Seq<Seq<Lit>>,
    c1: Ledger,
) -> bool {
    &&& ok_visits(cfg, split, comps, c0.memo, vs)
    &&& memo_after_visits(vs, c0.memo) == c1.memo
    &&& c0.pending == Seq::<u32>::empty()
    &&& c1.pending == pending_after_visits(vs)
    &&& visits_len(vs) == n
    &&& answer_of_visits(vs) == a
    &&& clauses_after_visits(vs, split.db()) == db
    &&& counted(c0, c1, tally_visits(vs, d))
}

/// The rounds tell what was done from the stage on under a visit at depth `d`: what is assigned and
/// which clauses there are afterwards.
#[verifier::opaque]
pub open spec fn rounds_story(
    cfg: Config,
    st: Stage,
    d: u64,
    c0: Ledger,
    rs: Rounds,
    trail: Seq<Lit>,
    db: Seq<Seq<Lit>>,
    c1: Ledger,
) -> bool {
    &&& ok_rounds(cfg, st, rs)
    &&& st.memo == c0.memo
    &&& memo_after_rounds(rs, st.memo) == c1.memo
    &&& rs is Start || c1.pending == pending_after_rounds(rs)
    &&& trail_after_rounds(rs, st.trail) == trail
    &&& clauses_after_rounds(rs, st.db) == db
    &&& counted(c0, c1, tally_rounds(rs, d))
}

/// The stage at which a polarity is tried: the clauses that the decision wakes are looked at, and those
/// that were learned since the last propagation.
pub open spec fn try_stage(
    trail: Seq<Lit>,
    vals: Seq<Option<bool>>,
    lims: Seq<usize>,
    db: Seq<Seq<Lit>>,
    memo: Memo,
    pending: Seq<u32>,
    comp: Comp,
    lit: Lit,
) -> Stage {
    Stage {
        trail: trail.push(lit),
        lims: lims.push(trail.len() as usize),
        scope: comp.vars,
        db,
        memo,
        queue: woken(db, vals.update(lit.vi(), Some(lit.pos())), lit.neg(), db.len() as int) + pending,
    }
}

/// The rounds tell what came of trying a literal, as [`rounds_story`] does.
#[verifier::opaque]
pub open spec fn try_story(
    cfg: Config,
    st: Stage,
    d: u64,
    c0: Ledger,
    rs: Rounds,
    a: Answer,
    db: Seq<Seq<Lit>>,
    c1: Ledger,
) -> bool {
    &&& ok_rounds(cfg, st, rs)
    &&& st.memo == c0.memo
    &&& memo_after_rounds(rs, st.memo) == c1.memo
    &&& c1.pending == pending_after_rounds(rs)
    &&& !(rs is Start)
    &&& answer_of_rounds(rs) == a
    &&& clauses_after_rounds(rs, st.db) == db
    &&& counted(c0, c1, one_decision().plus(tally_rounds(rs, d)))
}

/// No visits yet.
pub proof fn lemma_visits_start(cfg: Config, split: SearchState, comps: Seq<Comp>, d: u64, c: Ledger)
    requires
        c.pending == Seq::<u32>::empty(),
    ensures
        visits_story(cfg, split, comps, d, c, Visits::Start, 0, Answer::Sat, split.db(), c),
{
    reveal(visits_story);
    lemma_counted_none(c);
}

/// One visit more.
pub proof fn lemma_visits_next(
    cfg: Config,
    split: SearchState,
    comps: Seq<Comp>,
    d: u64,
    c0: Ledger,
    vs: Visits,
    n: int,
    c1: Ledger,
    at: SearchState,
    v: Visit,
    a: Answer,
    db: Seq<Seq<Lit>>,
    c2: Ledger,
)
    requires
        visits_story(cfg, split, comps, d, c0, vs, n, Answer::Sat, at.db(), c1),
        0 <= n < comps.len(),
        at.trail() == split.trail(),
        at.lims() == split.lims(),
        at.nv() == split.nv(),
        visit_story(cfg, at, comps[n], d, c1, v, a, db, c2),
    ensures
        visits_story(cfg, split, comps, d, c0, Visits::Then(Box::new(vs), Box::new(v)), n + 1, a, db, c2),
{
    reveal(visits_story);
    reveal(visit_story);
    lemma_counted_trans(c0, c1, c2, tally_visits(vs, d), tally_visit(v, d));
}

/// No rounds yet.
pub proof fn lemma_rounds_start(cfg: Config, st: Stage, d: u64, c: Ledger)
    requires
        st.memo == c.memo,
    ensures
        rounds_story(cfg, st, d, c, Rounds::Start, st.trail, st.db, c),
{
    reveal(rounds_story);
    lemma_counted_none(c);
}

/// A round that met a conflict.
pub proof fn lemma_rounds_conflict(
    cfg: Config,
    st: Stage,
    d: u64,
    c0: Ledger,
    rs: Rounds,
    from: SearchState,
    c1: Ledger,
    at: SearchState,
    lesson: Lesson,
    c2: Ledger,
)
    requires
        rounds_story(cfg, st, d, c0, rs, from.trail(), at.db(), c1),
        rs is Start || lands(st, answer_of_rounds(rs)),
        reached(next_stage(st, rs), from, at),
        at.conflicting(),
        ok_lesson(cfg, at, lesson),
        c2.pending == pending_after_lesson(at, lesson),
        counted(c1, c2, some_forced(at.trail().len() - from.trail().len()).plus(one_conflict(at, lesson))),
        c2.memo == c1.memo,
    ensures
        ({
            let r = Round::Conflict { from, at, lesson };
            let next = Rounds::Then(Box::new(rs), Box::new(r));
            &&& rounds_story(cfg, st, d, c0, next, at.trail(), clauses_after_round(r), c2)
            &&& answer_of_rounds(next) == answer_of_lesson(at, lesson)
        }),
{
    reveal(rounds_story);
    let one = some_forced(at.trail().len() - from.trail().len()).plus(one_conflict(at, lesson));
    lemma_counted_trans(c0, c1, c2, tally_rounds(rs, d), one);
    let r = Round::Conflict { from, at, lesson };
    assert(tally_round(r, d) == one);
    assert(answer_of_round(r) == answer_of_lesson(at, lesson));
    assert(pending_after_round(r) == pending_after_lesson(at, lesson));
    assert(ok_round(cfg, next_stage(st, rs), r));
}

/// A round that split what was left.
pub proof fn lemma_rounds_split(
    cfg: Config,
    st: Stage,
    d: u64,
    c0: Ledger,
    rs: Rounds,
    from: SearchState,
    c1: Ledger,
    at: SearchState,
    split: SearchState,
    comps: Seq<Comp>,
    c2: Ledger,
    vs: Visits,
    n: int,
    a: Answer,
    db: Seq<Seq<Lit>>,
    c3: Ledger,
)
    requires
        rounds_story(cfg, st, d, c0, rs, from.trail(), at.db(), c1),
        rs is Start || lands(st, answer_of_rounds(rs)),
        reached(next_stage(st, rs), from, at),
        !at.conflicting(),
        at.noted(),
        purified(cfg, at, split, comps),
        divided(cfg, split, st.scope, comps),
        counted(c1, c2, some_forced(at.trail().len() - from.trail().len()).plus(one_split(at, split, comps))),
        c2.memo == c1.memo,
        visits_story(cfg, split, comps, d.saturating_add(1), c2, vs, n, a, db, c3),
        n == comps.len() || a != Answer::Sat,
    ensures
        ({
            let r = Round::Split { from, at, split, comps, visits: vs };
            let next = Rounds::Then(Box::new(rs), Box::new(r));
            &&& rounds_story(cfg, st, d, c0, next, split.trail(), db, c3)
            &&& answer_of_rounds(next) == a
            &&& only_splits(rs) ==> only_splits(next)
        }),
{
    reveal(rounds_story);
    reveal(visits_story);
    let t = tally_visits(vs, d.saturating_add(1));
    let one = some_forced(at.trail().len() - from.trail().len()).plus(one_split(at, split, comps));
    lemma_counted_trans(c1, c2, c3, one, t);
    lemma_counted_trans(c0, c1, c3, tally_rounds(rs, d), one.plus(t));
    let r = Round::Split { from, at, split, comps, visits: vs };
    assert(tally_round(r, d) == one.plus(t));
    assert(answer_of_round(r) == a);
    assert(pending_after_round(r) == pending_after_visits(vs));
    assert(clauses_after_round(r) == db);
    assert(ok_round(cfg, next_stage(st, rs), r));
}

/// Rounds that came after a decision.
pub proof fn lemma_try(
    cfg: Config,
    st: Stage,
    d: u64,
    c0: Ledger,
    c1: Ledger,
    rs: Rounds,
    trail: Seq<Lit>,
    db: Seq<Seq<Lit>>,
    c2: Ledger,
)
    requires
        counted(c0, c1, one_decision()),
        c1.memo == c0.memo,
        rounds_story(cfg, st, d, c1, rs, trail, db, c2),
        !(rs is Start),
    ensures
        try_story(cfg, st, d, c0, rs, answer_of_rounds(rs), db, c2),
{
    reveal(rounds_story);
    reveal(try_story);
    lemma_counted_trans(c0, c1, c2, one_decision(), tally_rounds(rs, d));
}

/// A visit that ended at once.
pub proof fn lemma_visit_short(
    cfg: Config,
    at: SearchState,
    comp: Comp,
    d: u64,
    c0: Ledger,
    end: Ending,
    c1: Ledger,
) -> (v: Visit)
    requires
        at.wf(),
        comp_shape(at.db(), at.trail(), at.nv(), comp),
        ends_at_once(cfg, comp, c0.memo, end, c1.memo),
        c0.pending == Seq::<u32>::empty(),
        c1.pending == Seq::<u32>::empty(),
        counted(c0, c1, one_visit(d, end is Recalled, end is Recalled)),
    ensures
        visit_story(cfg, at, comp, d, c0, v, answer_at_once(end), at.db(), c1),
{
    reveal(visit_story);
    Visit { at, comp, memo: c0.memo, asked: end is Recalled, end, kept: false, after: c1.memo }
}

/// A visit can end so without a decision.
pub open spec fn ends_at_once(cfg: Config, comp: Comp, m: Memo, end: Ending, n: Memo) -> bool {
    let k = memo_key(comp);
    match end {
        Ending::Stopped => n == m,
        Ending::Recalled(verdict) => cfg.cache && m.map.contains_key(k) && verdict == m.map[k].verdict && n
            == m.touched(k),
        _ => false,
    }
}

/// How a visit is answered that ends without a decision.
pub open spec fn answer_at_once(end: Ending) -> Answer {
    match end {
        Ending::Recalled(Verdict::Sat) => Answer::Sat,
        Ending::Recalled(Verdict::Unsat) => Answer::Unsat,
        _ => Answer::Aborted,
    }
}

/// A component comes to a decision: the literal is the one to pick, and the memo, if it is on, was
/// asked in vain.
pub open spec fn undecided(cfg: Config, at: SearchState, comp: Comp, d: u64, c0: Ledger, lit: Lit, c1: Ledger) -> bool {
    &&& at.wf()
    &&& comp_shape(at.db(), at.trail(), at.nv(), comp)
    &&& is_pick(&at, comp, cfg.heuristic, lit)
    &&& cfg.cache ==> !c0.memo.map.contains_key(memo_key(comp))
    &&& c1.memo == asked_in_vain(cfg, c0.memo)
    &&& c0.pending == Seq::<u32>::empty()
    &&& c1.pending == Seq::<u32>::empty()
    &&& counted(c0, c1, one_visit(d, cfg.cache, false))
}

/// A visit that one try settled.
pub proof fn lemma_visit_once(
    cfg: Config,
    at: SearchState,
    comp: Comp,
    d: u64,
    c0: Ledger,
    c1: Ledger,
    lit: Lit,
    rs: Rounds,
    a: Answer,
    db: Seq<Seq<Lit>>,
    c2: Ledger,
    c3: Ledger,
) -> (v: Visit)
    requires
        undecided(cfg, at, comp, d, c0, lit, c1),
        try_story(cfg, try_stage(at.trail(), at.vals(), at.lims(), at.db(), c1.memo, c1.pending, comp, lit), d, c1, rs, a, db, c2),
        a != Answer::Unsat,
        c3.counters == c2.counters,
        c3.pending == c2.pending,
        remembered(cfg, comp, a, c2.memo, c3.memo),
    ensures
        visit_story(cfg, at, comp, d, c0, v, a, db, c3),
{
    reveal(visit_story);
    reveal(try_story);
    let kept = keepable(cfg, comp, a, c2.memo);
    let t = one_decision().plus(tally_rounds(rs, d));
    lemma_counted_trans(c0, c1, c2, one_visit(d, cfg.cache, false), t);
    lemma_counted_answer(cfg, comp, a, c2, c3);
    lemma_counted_trans(c0, c2, c3, one_visit(d, cfg.cache, false).plus(t), one_answer(kept));
    Visit {
        at,
        comp,
        memo: c0.memo,
        asked: cfg.cache,
        end: Ending::Once(Box::new(Try { lit, rounds: rs })),
        kept,
        after: c3.memo,
    }
}

/// A visit that took two tries.
pub proof fn lemma_visit_twice(
    cfg: Config,
    at: SearchState,
    comp: Comp,
    d: u64,
    c0: Ledger,
    c1: Ledger,
    lit: Lit,
    rs: Rounds,
    db1: Seq<Seq<Lit>>,
    c2: Ledger,
    other: Rounds,
    a: Answer,
    db2: Seq<Seq<Lit>>,
    c3: Ledger,
    c4: Ledger,
) -> (v: Visit)
    requires
        undecided(cfg, at, comp, d, c0, lit, c1),
        try_story(
            cfg,
            try_stage(at.trail(), at.vals(), at.lims(), at.db(), c1.memo, c1.pending, comp, lit),
            d,
            c1,
            rs,
            Answer::Unsat,
            db1,
            c2,
        ),
        try_story(
            cfg,
            try_stage(at.trail(), at.vals(), at.lims(), db1, c2.memo, c2.pending, comp, lit.neg()),
            d,
            c2,
            other,
            a,
            db2,
            c3,
        ),
        c4.counters == c3.counters,
        c4.pending == c3.pending,
        remembered(cfg, comp, a, c3.memo, c4.memo),
    ensures
        visit_story(cfg, at, comp, d, c0, v, a, db2, c4),
{
    reveal(visit_story);
    reveal(try_story);
    let kept = keepable(cfg, comp, a, c3.memo);
    let one = one_visit(d, cfg.cache, false);
    let t = one_decision().plus(tally_rounds(rs, d));
    let u = one_decision().plus(tally_rounds(other, d));
    lemma_counted_trans(c0, c1, c2, one, t);
    lemma_counted_trans(c0, c2, c3, one.plus(t), u);
    lemma_counted_answer(cfg, comp, a, c3, c4);
    lemma_counted_trans(c0, c3, c4, one.plus(t).plus(u), one_answer(kept));
    // The clauses after the second try do not depend on those before it, for it has a round.
    assert(clauses_after_rounds(other, at.db()) == clauses_after_rounds(other, db1));
    Visit {
        at,
        comp,
        memo: c0.memo,
        asked: cfg.cache,
        end: Ending::Twice(Box::new(Try { lit, rounds: rs }), Box::new(Try { lit: lit.neg(), rounds: other })),
        kept,
        after: c4.memo,
    }
}

/// The run tells what a search did from the stage on, from counters `c0` to counters `c1`, and how
/// it ended: its steps are those that the configuration calls for, and they are what was counted.
pub open spec fn run_story(
    cfg: Config,
    st: Stage,
    c0: Ledger,
    run: Run,
    a: Answer,
    c1: Ledger,
) -> bool {
    &&& ok_run(cfg, st, run)
    &&& st.memo == c0.memo
    &&& memo_after_rounds(run.rounds, st.memo) == c1.memo
    &&& answer_of_run(run) == a
    &&& counted(c0, c1, tally_run(st, run))
}

/// The events of a run.
pub open spec fn tally_run(st: Stage, run: Run) -> Tally {
    match run.refuted {
        Some((from, at)) => tally_rounds(run.rounds, 0).plus(
            some_forced(at.trail().len() - from.trail().len()),
        ),
        None => tally_rounds(run.rounds, 0),
    }
}

/// A run that found a falsified clause at the root.
pub proof fn lemma_run_refuted(
    cfg: Config,
    st: Stage,
    c0: Ledger,
    rs: Rounds,
    from: SearchState,
    c1: Ledger,
    at: SearchState,
    c2: Ledger,
)
    requires
        rounds_story(cfg, st, 0, c0, rs, from.trail(), at.db(), c1),
        rs is Start || lands(st, answer_of_rounds(rs)),
        only_splits(rs),
        reached(next_stage(st, rs), from, at),
        at.conflicting(),
        counted(c1, c2, some_forced(at.trail().len() - from.trail().len())),
        c2.memo == c1.memo,
    ensures
        run_story(cfg, st, c0, Run { rounds: rs, refuted: Some((from, at)) }, Answer::Unsat, c2),
{
    reveal(rounds_story);
    lemma_counted_trans(c0, c1, c2, tally_rounds(rs, 0), some_forced(at.trail().len() - from.trail().len()));
}

/// A run that ended in a round.
pub proof fn lemma_run_ended(
    cfg: Config,
    st: Stage,
    c0: Ledger,
    rs: Rounds,
    trail: Seq<Lit>,
    db: Seq<Seq<Lit>>,
    c1: Ledger,
)
    requires
        rounds_story(cfg, st, 0, c0, rs, trail, db, c1),
        !(rs is Start),
        only_splits(rs),
        !(answer_of_rounds(rs) is Backjump),
    ensures
        run_story(cfg, st, c0, Run { rounds: rs, refuted: None }, answer_of_rounds(rs), c1),
{
    reveal(rounds_story);
}

/// The counters of a run, with what else is reported of it.
pub proof fn lemma_run_reported(
    cfg: Config,
    st: Stage,
    c0: Ledger,
    a: Answer,
    c1: Ledger,
    c: Ledger,
)
    requires
        run_told(cfg, st, c0, a, c1),
        c.memo == c1.memo,
        c.pending == c1.pending,
        c.counters == (SearchCounters {
            cache: c.counters.cache,
            table: c.counters.table,
            cache_bytes: c.counters.cache_bytes,
            ..c1.counters
        }),
    ensures
        run_told(cfg, st, c0, a, c),
{
    reveal(run_told);
    let run = choose|run: Run| #[trigger] run_story(cfg, st, c0, run, a, c1);
    assert(run_story(cfg, st, c0, run, a, c)) by {
        reveal(counted);
    }
}

/// Some visit tells what was done, see [`visit_story`].
#[verifier::opaque]
pub open spec fn visit_told(
    cfg: Config,
    at: SearchState,
    comp: Comp,
    d: u64,
    c0: Ledger,
    a: Answer,
    db: Seq<Seq<Lit>>,
    c1: Ledger,
) -> bool {
    exists|v: Visit| #[trigger] visit_story(cfg, at, comp, d, c0, v, a, db, c1)
}

/// Some visits tell what was done to the first `n` components, see [`visits_story`].
#[verifier::opaque]
pub open spec fn visits_told(
    cfg: Config,
    split: SearchState,
    comps: Seq<Comp>,
    d: u64,
    c0: Ledger,
    n: int,
    a: Answer,
    db: Seq<Seq<Lit>>,
    c1: Ledger,
) -> bool {
    exists|vs: Visits| #[trigger] visits_story(cfg, split, comps, d, c0, vs, n, a, db, c1)
}

/// Some rounds, all of them splits, tell what was done so far, see [`rounds_story`]; there is a
/// further one to come, with the clauses `q` to look at.
#[verifier::opaque]
pub open spec fn rounds_open(
    cfg: Config,
    st: Stage,
    d: u64,
    c0: Ledger,
    trail: Seq<Lit>,
    db: Seq<Seq<Lit>>,
    q: Seq<u32>,
    c1: Ledger,
) -> bool {
    exists|rs: Rounds| #[trigger]
        rounds_story(cfg, st, d, c0, rs, trail, db, c1) && only_splits(rs) && (rs is Start || lands(
            st,
            answer_of_rounds(rs),
        )) && q == next_stage(st, rs).queue
}

/// Some rounds tell what was done, see [`rounds_story`].
#[verifier::opaque]
pub open spec fn rounds_told(
    cfg: Config,
    st: Stage,
    d: u64,
    c0: Ledger,
    a: Answer,
    db: Seq<Seq<Lit>>,
    c1: Ledger,
) -> bool {
    exists|rs: Rounds, trail: Seq<Lit>| #[trigger]
        rounds_story(cfg, st, d, c0, rs, trail, db, c1) && !(rs is Start) && answer_of_rounds(rs) == a
}

/// Some rounds tell what came of a try, see [`try_story`].
#[verifier::opaque]
pub open spec fn try_told(
    cfg: Config,
    st: Stage,
    d: u64,
    c0: Ledger,
    a: Answer,
    db: Seq<Seq<Lit>>,
    c1: Ledger,
) -> bool {
    exists|rs: Rounds| #[trigger] try_story(cfg, st, d, c0, rs, a, db, c1)
}

/// Some run tells what a search did, see [`run_story`].
#[verifier::opaque]
pub open spec fn run_told(cfg: Config, st: Stage, c0: Ledger, a: Answer, c1: Ledger) -> bool {
    exists|run: Run| #[trigger] run_story(cfg, st, c0, run, a, c1)
}

/// No visits yet.
pub proof fn lemma_told_no_visits(cfg: Config, split: SearchState, comps: Seq<Comp>, d: u64, c: Ledger)
    requires
        c.pending == Seq::<u32>::empty(),
    ensures
        visits_told(cfg, split, comps, d, c, 0, Answer::Sat, split.db(), c),
{
    reveal(visits_told);
    lemma_visits_start(cfg, split, comps, d, c);
}

/// One visit more.
pub proof fn lemma_told_next_visit(
    cfg: Config,
    split: SearchState,
    comps: Seq<Comp>,
    d: u64,
    c0: Ledger,
    n: int,
    c1: Ledger,
    at: SearchState,
    a: Answer,
    db: Seq<Seq<Lit>>,
    c2: Ledger,
)
    requires
        visits_told(cfg, split, comps, d, c0, n, Answer::Sat, at.db(), c1),
        0 <= n < comps.len(),
        at.trail() == split.trail(),
        at.lims() == split.lims(),
        at.nv() == split.nv(),
        visit_told(cfg, at, comps[n], d, c1, a, db, c2),
    ensures
        visits_told(cfg, split, comps, d, c0, n + 1, a, db, c2),
{
    reveal(visits_told);
    reveal(visit_told);
    let vs = choose|vs: Visits| #[trigger]
        visits_story(cfg, split, comps, d, c0, vs, n, Answer::Sat, at.db(), c1);
    let v = choose|v: Visit| #[trigger] visit_story(cfg, at, comps[n], d, c1, v, a, db, c2);
    lemma_visits_next(cfg, split, comps, d, c0, vs, n, c1, at, v, a, db, c2);
}

/// No rounds yet.
pub proof fn lemma_open_start(cfg: Config, st: Stage, d: u64, c: Ledger)
    requires
        st.memo == c.memo,
    ensures
        rounds_open(cfg, st, d, c, st.trail, st.db, st.queue, c),
{
    reveal(rounds_open);
    lemma_rounds_start(cfg, st, d, c);
}

/// A round that met a conflict is the last.
pub proof fn lemma_told_conflict(
    cfg: Config,
    st: Stage,
    d: u64,
    c0: Ledger,
    o: &SearchState,
    q: Seq<u32>,
    c1: Ledger,
    at: SearchState,
    cm: Ledger,
    lesson: Lesson,
    c2: Ledger,
)
    requires
        rounds_open(cfg, st, d, c0, o.trail(), o.db(), q, c1),
        led_to(*o, q, at),
        o.lims() == st.lims,
        at.conflicting(),
        ok_lesson(cfg, at, lesson),
        c2.pending == pending_after_lesson(at, lesson),
        counted(c1, cm, some_forced(at.trail().len() - o.trail().len())),
        c2.memo == c1.memo,
        counted(cm, c2, one_conflict(at, lesson)),
    ensures
        rounds_told(
            cfg,
            st,
            d,
            c0,
            answer_of_lesson(at, lesson),
            clauses_after_lesson(at, lesson),
            c2,
        ),
{
    reveal(led_to);
    reveal(rounds_open);
    reveal(rounds_told);
    let rs = choose|rs: Rounds| #[trigger]
        rounds_story(cfg, st, d, c0, rs, o.trail(), o.db(), c1) && only_splits(rs) && (rs is Start || lands(
            st,
            answer_of_rounds(rs),
        )) && q == next_stage(st, rs).queue;
    reveal(rounds_story);
    lemma_reached(next_stage(st, rs), o, &at);
    lemma_counted_trans(
        c1,
        cm,
        c2,
        some_forced(at.trail().len() - o.trail().len()),
        one_conflict(at, lesson),
    );
    lemma_rounds_conflict(cfg, st, d, c0, rs, *o, c1, at, lesson, c2);
}

/// A round that split what was left is the last, or a further one follows, or the search is over.
pub proof fn lemma_told_split(
    cfg: Config,
    st: Stage,
    d: u64,
    c0: Ledger,
    o: &SearchState,
    q: Seq<u32>,
    c1: Ledger,
    at: SearchState,
    cm: Ledger,
    split: SearchState,
    comps: Seq<Comp>,
    c2: Ledger,
    n: int,
    a: Answer,
    db: Seq<Seq<Lit>>,
    c3: Ledger,
)
    requires
        rounds_open(cfg, st, d, c0, o.trail(), o.db(), q, c1),
        led_to(*o, q, at),
        o.lims() == st.lims,
        !at.conflicting(),
        purified(cfg, at, split, comps),
        divided(cfg, split, st.scope, comps),
        counted(c1, cm, some_forced(at.trail().len() - o.trail().len())),
        c2.memo == c1.memo,
        counted(cm, c2, one_split(at, split, comps)),
        visits_told(cfg, split, comps, d.saturating_add(1), c2, n, a, db, c3),
        n == comps.len() || a != Answer::Sat,
    ensures
        rounds_told(cfg, st, d, c0, a, db, c3),
        lands(st, a) ==> rounds_open(cfg, st, d, c0, split.trail(), db, c3.pending, c3),
        d == 0 && !(a is Backjump) ==> run_told(cfg, st, c0, a, c3),
{
    reveal(led_to);
    reveal(rounds_open);
    reveal(rounds_told);
    reveal(visits_told);
    reveal(run_told);
    let rs = choose|rs: Rounds| #[trigger]
        rounds_story(cfg, st, d, c0, rs, o.trail(), o.db(), c1) && only_splits(rs) && (rs is Start || lands(
            st,
            answer_of_rounds(rs),
        )) && q == next_stage(st, rs).queue;
    let vs = choose|vs: Visits| #[trigger]
        visits_story(cfg, split, comps, d.saturating_add(1), c2, vs, n, a, db, c3);
    reveal(rounds_story);
    lemma_reached(next_stage(st, rs), o, &at);
    lemma_counted_trans(
        c1,
        cm,
        c2,
        some_forced(at.trail().len() - o.trail().len()),
        one_split(at, split, comps),
    );
    lemma_rounds_split(cfg, st, d, c0, rs, *o, c1, at, split, comps, c2, vs, n, a, db, c3);
    let next = Rounds::Then(Box::new(rs), Box::new(Round::Split { from: *o, at, split, comps, visits: vs }));
    if d == 0 && !(a is Backjump) {
        lemma_run_ended(cfg, st, c0, next, split.trail(), db, c3);
    }
}

/// A search that found a falsified clause at the root.
pub proof fn lemma_told_refuted(
    cfg: Config,
    st: Stage,
    c0: Ledger,
    o: &SearchState,
    q: Seq<u32>,
    c1: Ledger,
    at: SearchState,
    c2: Ledger,
)
    requires
        rounds_open(cfg, st, 0, c0, o.trail(), o.db(), q, c1),
        at.wf(),
        at == *o || at.propagated_from(o),
        settles(*o, q, at),
        o.lims() == st.lims,
        at.conflicting(),
        counted(c1, c2, some_forced(at.trail().len() - o.trail().len())),
        c2.memo == c1.memo,
    ensures
        run_told(cfg, st, c0, Answer::Unsat, c2),
{
    reveal(rounds_open);
    reveal(run_told);
    let rs = choose|rs: Rounds| #[trigger]
        rounds_story(cfg, st, 0, c0, rs, o.trail(), o.db(), c1) && only_splits(rs) && (rs is Start || lands(
            st,
            answer_of_rounds(rs),
        )) && q == next_stage(st, rs).queue;
    if at == *o {
        assert(reached(next_stage(st, rs), *o, at)) by {
            reveal(reached);
            reveal(rounds_story);
            assert(o.trail().take(o.trail().len() as int) =~= o.trail());
        }
    } else {
        reveal(rounds_story);
    lemma_reached(next_stage(st, rs), o, &at);
    }
    lemma_run_refuted(cfg, st, c0, rs, *o, c1, at, c2);
}

/// Rounds that came after a decision.
pub proof fn lemma_told_try(
    cfg: Config,
    st: Stage,
    d: u64,
    c0: Ledger,
    c1: Ledger,
    a: Answer,
    db: Seq<Seq<Lit>>,
    c2: Ledger,
)
    requires
        counted(c0, c1, one_decision()),
        c1.memo == c0.memo,
        rounds_told(cfg, st, d, c1, a, db, c2),
    ensures
        try_told(cfg, st, d, c0, a, db, c2),
{
    reveal(rounds_told);
    reveal(try_told);
    let (rs, trail) = choose|rs: Rounds, trail: Seq<Lit>| #[trigger]
        rounds_story(cfg, st, d, c1, rs, trail, db, c2) && !(rs is Start) && answer_of_rounds(rs) == a;
    lemma_try(cfg, st, d, c0, c1, rs, trail, db, c2);
}

/// A visit that ended at once.
pub proof fn lemma_told_short(
    cfg: Config,
    at: SearchState,
    comp: Comp,
    d: u64,
    c0: Ledger,
    end: Ending,
    c1: Ledger,
)
    requires
        at.wf(),
        comp_shape(at.db(), at.trail(), at.nv(), comp),
        ends_at_once(cfg, comp, c0.memo, end, c1.memo),
        c0.pending == Seq::<u32>::empty(),
        c1.pending == Seq::<u32>::empty(),
        counted(c0, c1, one_visit(d, end is Recalled, end is Recalled)),
    ensures
        visit_told(cfg, at, comp, d, c0, answer_at_once(end), at.db(), c1),
{
    reveal(visit_told);
    let v = lemma_visit_short(cfg, at, comp, d, c0, end, c1);
}

/// A visit that one try settled.
pub proof fn lemma_told_once(
    cfg: Config,
    at: SearchState,
    comp: Comp,
    d: u64,
    c0: Ledger,
    c1: Ledger,
    lit: Lit,
    a: Answer,
    db: Seq<Seq<Lit>>,
    c2: Ledger,
    c3: Ledger,
)
    requires
        undecided(cfg, at, comp, d, c0, lit, c1),
        try_told(cfg, try_stage(at.trail(), at.vals(), at.lims(), at.db(), c1.memo, c1.pending, comp, lit), d, c1, a, db, c2),
        a != Answer::Unsat,
        c3.counters == c2.counters,
        c3.pending == c2.pending,
        remembered(cfg, comp, a, c2.memo, c3.memo),
    ensures
        visit_told(cfg, at, comp, d, c0, a, db, c3),
{
    reveal(try_told);
    reveal(visit_told);
    let st = try_stage(at.trail(), at.vals(), at.lims(), at.db(), c1.memo, c1.pending, comp, lit);
    let rs = choose|rs: Rounds| #[trigger] try_story(cfg, st, d, c1, rs, a, db, c2);
    let v = lemma_visit_once(cfg, at, comp, d, c0, c1, lit, rs, a, db, c2, c3);
}

/// A visit that took two tries.
pub proof fn lemma_told_twice(
    cfg: Config,
    at: SearchState,
    comp: Comp,
    d: u64,
    c0: Ledger,
    c1: Ledger,
    lit: Lit,
    db1: Seq<Seq<Lit>>,
    c2: Ledger,
    a: Answer,
    db2: Seq<Seq<Lit>>,
    c3: Ledger,
    c4: Ledger,
)
    requires
        undecided(cfg, at, comp, d, c0, lit, c1),
        try_told(
            cfg,
            try_stage(at.trail(), at.vals(), at.lims(), at.db(), c1.memo, c1.pending, comp, lit),
            d,
            c1,
            Answer::Unsat,
            db1,
            c2,
        ),
        try_told(cfg, try_stage(at.trail(), at.vals(), at.lims(), db1, c2.memo, c2.pending, comp, lit.neg()), d, c2, a, db2, c3),
        c4.counters == c3.counters,
        c4.pending == c3.pending,
        remembered(cfg, comp, a, c3.memo, c4.memo),
    ensures
        visit_told(cfg, at, comp, d, c0, a, db2, c4),
{
    reveal(try_told);
    reveal(visit_told);
    let st = try_stage(at.trail(), at.vals(), at.lims(), at.db(), c1.memo, c1.pending, comp, lit);
    let rs = choose|rs: Rounds| #[trigger] try_story(cfg, st, d, c1, rs, Answer::Unsat, db1, c2);
    let other = try_stage(at.trail(), at.vals(), at.lims(), db1, c2.memo, c2.pending, comp, lit.neg());
    let us = choose|rs: Rounds| #[trigger] try_story(cfg, other, d, c2, rs, a, db2, c3);
    let v = lemma_visit_twice(cfg, at, comp, d, c0, c1, lit, rs, db1, c2, us, a, db2, c3, c4);
}

/// A component that the memo knows is answered from it: unless the search is told to stop, the visit
/// gives the verdict that was stored, and it is the only node.
pub proof fn lemma_known_component_is_recalled(cfg: Config, v: Visit, d: u64)
    requires
        ok_visit(cfg, v),
        cfg.cache,
        v.memo.map.contains_key(memo_key(v.comp)),
        !(v.end is Stopped),
    ensures
        answer_of_visit(v) == (match v.memo.map[memo_key(v.comp)].verdict {
            Verdict::Sat => Answer::Sat,
            Verdict::Unsat => Answer::Unsat,
        }),
        tally_visit(v, d) == one_visit(d, true, true),
        clauses_after_visit(v) == v.at.db(),
        v.after.map.contains_key(memo_key(v.comp)),
        v.after.map[memo_key(v.comp)].verdict == v.memo.map[memo_key(v.comp)].verdict,
{
}

/// A component that was decided is remembered: after the visit the memo knows it with the verdict
/// that was found, unless it had no room.
pub proof fn lemma_solved_component_is_remembered(cfg: Config, v: Visit)
    requires
        ok_visit(cfg, v),
        cfg.cache,
        answer_of_visit(v) == Answer::Sat || answer_of_visit(v) == Answer::Unsat,
    ensures
        v.kept || v.end is Recalled ==> v.after.map.contains_key(memo_key(v.comp))
            && v.after.map[memo_key(v.comp)].verdict == verdict_of(answer_of_visit(v)),
        !v.kept && !(v.end is Recalled) ==> !v.after.fits(
            memo_key(v.comp).1.len(),
            witness_bytes(v.comp, answer_of_visit(v)),
        ),
{
    reveal(remembered_with);
    reveal(remembered);
}

/// Every literal of the trail was open, and was forced by a clause.
pub open spec fn all_forced(f: Seq<Seq<Lit>>, t: Seq<Lit>) -> bool {
    forall|i: int| 0 <= i < t.len() ==> !t_has(t.take(i), (#[trigger] t[i]).vi()) && some_forces(f, t[i], t.take(i))
}

/// Some clause forces the literal.
pub open spec fn some_forces(f: Seq<Seq<Lit>>, l: Lit, t: Seq<Lit>) -> bool {
    exists|c: int| 0 <= c < f.len() && forces(#[trigger] f[c], l, t)
}

/// No clause is falsified, and each clause that forces a literal is satisfied.
pub open spec fn none_forced(f: Seq<Seq<Lit>>, t: Seq<Lit>) -> bool {
    &&& forall|c: int| 0 <= c < f.len() ==> !t_false(t, #[trigger] f[c])
    &&& forall|c: int, l: Lit| 0 <= c < f.len() && #[trigger] forces(f[c], l, t) ==> t_sat(t, f[c])
}

/// The complement of an open literal that occurs in an active clause occurs in one too.
pub open spec fn none_pure(f: Seq<Seq<Lit>>, t: Seq<Lit>) -> bool {
    forall|l: Lit| #[trigger] lit_active(f, t, l) && !t_has(t, l.vi()) ==> lit_active(f, t, l.neg())
}

/// What is assigned at the root of a search that has come to rest without a conflict: first `t` by
/// propagation, to the end; then `u`, with pure literals where they are switched on, to the end.
pub open spec fn rests_at(f: Seq<Seq<Lit>>, pure: bool, t: Seq<Lit>, u: Seq<Lit>) -> bool {
    &&& all_forced(f, t)
    &&& none_forced(f, t)
    &&& t.len() <= u.len()
    &&& u.take(t.len() as int) == t
    &&& if pure {
        pure_from(f, u, t.len() as int) && none_pure(f, u)
    } else {
        u == t
    }
}

/// The formula is settled at the root: however propagation and pure literals come to rest, no clause
/// is active, or there is a conflict and they do not come to rest at all.
pub open spec fn settled_at_root(f: Seq<Seq<Lit>>, pure: bool) -> bool {
    forall|t: Seq<Lit>, u: Seq<Lit>, c: int| #[trigger]
        rests_at(f, pure, t, u) && 0 <= c < f.len() ==> t_sat(u, #[trigger] f[c])
}

/// What propagation forces, any propagation that has come to rest has assigned too.
proof fn lemma_forced_everywhere(f: Seq<Seq<Lit>>, t: Seq<Lit>, u: Seq<Lit>, i: int)
    requires
        all_forced(f, t),
        all_forced(f, u),
        none_forced(f, u),
        0 <= i < t.len(),
    ensures
        u.contains(t[i]),
    decreases i,
{
    let l = t[i];
    let before = t.take(i);
    assert(some_forces(f, t[i], t.take(i)));
    let c = choose|c: int| 0 <= c < f.len() && forces(#[trigger] f[c], l, before);
    let cl = f[c];
    let p = choose|p: int|
        0 <= p < cl.len() && #[trigger] cl[p] == l && forall|q: int|
            0 <= q < cl.len() && q != p ==> before.contains((#[trigger] cl[q]).neg());
    assert forall|q: int| 0 <= q < cl.len() && q != p implies u.contains((#[trigger] cl[q]).neg()) by {
        assert(before.contains(cl[q].neg()));
        let j = before.index_of(cl[q].neg());
        assert(t[j] == cl[q].neg());
        lemma_forced_everywhere(f, t, u, j);
    }
    assert(cl[p] == l);
    assert(forces(f[c], l, u));
    assert(t_sat(u, f[c]));
    let q = choose|q: int| 0 <= q < cl.len() && u.contains(#[trigger] cl[q]);
    if q != p {
        assert(u.contains(cl[q].neg()));
        lemma_consistent(f, u, cl[q]);
    }
}

/// A trail of forced literals holds no literal beside its complement.
proof fn lemma_consistent(f: Seq<Seq<Lit>>, t: Seq<Lit>, l: Lit)
    requires
        all_forced(f, t),
        t.contains(l),
    ensures
        !t.contains(l.neg()),
{
    crate::lit::lemma_negation_is_involutive(l);
    if t.contains(l.neg()) {
        let i = t.index_of(l);
        let j = t.index_of(l.neg());
        assert(t[i].vi() == t[j].vi() && i != j);
        if i < j {
            assert(!t_has(t.take(j), t[j].vi()));
            assert(t.take(j)[i] == t[i]);
        } else {
            assert(!t_has(t.take(i), t[i].vi()));
            assert(t.take(i)[j] == t[j]);
        }
    }
}

/// A formula is settled at the root if some forced assignments falsify one of its clauses: then no
/// propagation comes to rest without a conflict.
pub proof fn lemma_settled_by_conflict(f: Seq<Seq<Lit>>, pure: bool, t: Seq<Lit>, c: int)
    requires
        all_forced(f, t),
        0 <= c < f.len(),
        t_false(t, f[c]),
    ensures
        settled_at_root(f, pure),
{
    assert forall|t2: Seq<Lit>, u2: Seq<Lit>, c2: int| #[trigger]
        rests_at(f, pure, t2, u2) && 0 <= c2 < f.len() implies t_sat(u2, #[trigger] f[c2]) by {
        assert forall|q: int| 0 <= q < f[c].len() implies t2.contains((#[trigger] f[c][q]).neg()) by {
            assert(t.contains(f[c][q].neg()));
            lemma_forced_everywhere(f, t, t2, t.index_of(f[c][q].neg()));
        }
        assert(t_false(t2, f[c]));
    }
}

/// A formula is settled at the root if propagation and pure literals come to rest once with every
/// clause satisfied: then they do so wherever they come to rest.
pub proof fn lemma_settled_by_satisfaction(f: Seq<Seq<Lit>>, pure: bool, t: Seq<Lit>, u: Seq<Lit>)
    requires
        rests_at(f, pure, t, u),
        forall|c: int| 0 <= c < f.len() ==> t_sat(u, #[trigger] f[c]),
    ensures
        settled_at_root(f, pure),
{
    assert(u.take(u.len() as int) =~= u);
    assert forall|t2: Seq<Lit>, u2: Seq<Lit>, c: int| #[trigger]
        rests_at(f, pure, t2, u2) && 0 <= c < f.len() implies t_sat(u2, #[trigger] f[c]) by {
        lemma_satisfied_everywhere(f, pure, t, u, t2, u2, u.len() as int, c);
    }
}

/// A clause satisfied by the first `n` literals of one end is satisfied at every other.
proof fn lemma_satisfied_everywhere(
    f: Seq<Seq<Lit>>,
    pure: bool,
    t: Seq<Lit>,
    u: Seq<Lit>,
    t2: Seq<Lit>,
    u2: Seq<Lit>,
    n: int,
    c: int,
)
    requires
        rests_at(f, pure, t, u),
        rests_at(f, pure, t2, u2),
        t.len() <= n <= u.len(),
        0 <= c < f.len(),
        t_sat(u.take(n), f[c]),
    ensures
        t_sat(u2, f[c]),
    decreases n,
{
    let cl = f[c];
    let q = choose|q: int| 0 <= q < cl.len() && u.take(n).contains(#[trigger] cl[q]);
    let l = cl[q];
    let i = u.take(n).index_of(l);
    assert(u[i] == l);
    if i < t.len() {
        // Forced, so assigned at the other end as well.
        assert(u.take(t.len() as int)[i] == u[i]);
        lemma_forced_everywhere(f, t, t2, i);
        let j = t2.index_of(l);
        assert(u2.take(t2.len() as int)[j] == u2[j]);
        assert(u2.contains(cl[q]));
    } else {
        assert(pure);
        crate::lit::lemma_negation_is_involutive(l);
        // The complement occurs in satisfied clauses only, here and at the other end.
        assert(!lit_active(f, u2, l.neg())) by {
            if lit_active(f, u2, l.neg()) {
                let d = choose|d: int| 0 <= d < f.len() && !t_sat(u2, #[trigger] f[d]) && f[d].contains(l.neg());
                assert(!lit_active(f, u.take(i), u[i].neg()));
                assert(t_sat(u.take(i), f[d]));
                lemma_satisfied_everywhere(f, pure, t, u, t2, u2, i, d);
            }
        }
        if !t_sat(u2, cl) {
            assert(cl.contains(l));
            assert(lit_active(f, u2, l)) by {
                assert(!t_sat(u2, f[c]) && f[c].contains(l));
            }
            assert(t_has(u2, l.vi()));
            let j = choose|j: int| 0 <= j < u2.len() && (#[trigger] u2[j]).vi() == l.vi();
            crate::lit::lemma_lit_ext(u2[j], l);
            crate::lit::lemma_lit_ext(u2[j], l.neg());
            if u2[j] == l {
                assert(u2.contains(cl[q]));
            } else {
                assert(u2[j] == l.neg());
                if j < t2.len() {
                    assert(u2.take(t2.len() as int)[j] == u2[j]);
                    lemma_forced_everywhere(f, t2, t, j);
                    let k = t.index_of(l.neg());
                    assert(u.take(t.len() as int)[k] == u[k]);
                    assert(u.take(i)[k] == l.neg());
                    assert(t_has(u.take(i), u[i].vi()));
                } else {
                    assert(!lit_active(f, u2.take(j), u2[j].neg()));
                    assert(t_sat(u2.take(j), f[c]));
                    let x = choose|x: int| 0 <= x < cl.len() && u2.take(j).contains(#[trigger] cl[x]);
                    let y = u2.take(j).index_of(cl[x]);
                    assert(u2[y] == cl[x]);
                    assert(u2.contains(cl[x]));
                }
            }
        }
    }
}

/// With pure literals switched off, a search from nothing assigns none.
pub proof fn lemma_no_pure_literals(cfg: Config, st: Stage, c0: Ledger, a: Answer, c: Ledger)
    requires
        !cfg.pure_literals,
        run_told(cfg, st, c0, a, c),
        c0.counters.pure_literals == 0,
    ensures
        c.counters.pure_literals == 0,
{
    reveal(run_told);
    reveal(counted);
    let run = choose|run: Run| #[trigger] run_story(cfg, st, c0, run, a, c);
    lemma_rounds_not_pure(cfg, st, run.rounds, 0);
}

proof fn lemma_rounds_not_pure(cfg: Config, st: Stage, rs: Rounds, d: u64)
    requires
        !cfg.pure_literals,
        ok_rounds(cfg, st, rs),
    ensures
        tally_rounds(rs, d).pure_literals == 0,
    decreases rs,
{
    if let Rounds::Then(p, r) = rs {
        lemma_rounds_not_pure(cfg, st, *p, d);
        let next = next_stage(st, *p);
        lemma_round_not_pure(cfg, next, *r, d);
    }
}

proof fn lemma_round_not_pure(cfg: Config, st: Stage, r: Round, d: u64)
    requires
        !cfg.pure_literals,
        ok_round(cfg, st, r),
    ensures
        tally_round(r, d).pure_literals == 0,
    decreases r,
{
    match r {
        Round::Conflict { from, at, lesson } => {},
        Round::Split { from, at, split, comps, visits } => {
            reveal(purified);
            lemma_visits_not_pure(cfg, split, comps, st.memo, visits, d.saturating_add(1));
        },
    }
}

proof fn lemma_visits_not_pure(cfg: Config, split: SearchState, comps: Seq<Comp>, m: Memo, vs: Visits, d: u64)
    requires
        !cfg.pure_literals,
        ok_visits(cfg, split, comps, m, vs),
    ensures
        tally_visits(vs, d).pure_literals == 0,
    decreases vs,
{
    if let Visits::Then(p, v) = vs {
        lemma_visits_not_pure(cfg, split, comps, m, *p, d);
        lemma_visit_not_pure(cfg, *v, d);
    }
}

proof fn lemma_visit_not_pure(cfg: Config, v: Visit, d: u64)
    requires
        !cfg.pure_literals,
        ok_visit(cfg, v),
    ensures
        tally_visit(v, d).pure_literals == 0,
    decreases v,
{
    let trail = v.at.trail();
    let m = asked_in_vain(cfg, v.memo);
    match v.end {
        Ending::Once(t) => {
            lemma_rounds_not_pure(cfg, try_stage(trail, v.at.vals(), v.at.lims(), v.at.db(), m, Seq::empty(), v.comp, t.lit), t.rounds, d);
        },
        Ending::Twice(t, u) => {
            lemma_rounds_not_pure(cfg, try_stage(trail, v.at.vals(), v.at.lims(), v.at.db(), m, Seq::empty(), v.comp, t.lit), t.rounds, d);
            let db = clauses_after_rounds(t.rounds, v.at.db());
            let st = try_stage(
                trail,
                v.at.vals(),
                v.at.lims(),
                db,
                memo_after_rounds(t.rounds, m),
                pending_after_rounds(t.rounds),
                v.comp,
                u.lit,
            );
            lemma_rounds_not_pure(cfg, st, u.rounds, d);
        },
        _ => {},
    }
}

} // verus!
