//! The DPLL search, with component decomposition, clause learning and the memo wired in.
//!
//! # Learning inside a decomposing search
//!
//! A learned clause is a resolvent of clauses already in the database, which makes it safe to *add*.
//! It does not make it safe to ignore. Were it hidden from component analysis, assigning a variable
//! of one component could falsify it and force a variable of another, and the two components would
//! no longer be independent, the premise the whole memo rests on. So learned clauses are ordinary
//! clauses here. They appear in the occurrence lists, they take part in decomposition, and their
//! indices appear in component keys exactly like input clauses. The key therefore still determines
//! the residual formula, and every cached verdict stays true for as long as the entry lives.
//!
//! Because keys name clauses by index, learned clauses are never deleted. Instead the database is
//! capped by `max_learned_literals`, after which the search simply stops learning.
//!
//! # Backjumping through recursion
//!
//! The search is recursive: one frame per component, and one decision level per polarity a frame
//! tries. A frame that derives a clause asserting at a shallower level returns
//! [`Answer::Backjump`], and each frame on the way out closes its own level and passes it on until
//! the frame that owns the target level is reached. That frame does not pop: it discards the
//! subproblems it had split off, propagates the newly learned clause, which is now unit, and
//! splits again. The root does the same at level zero.

use vstd::prelude::*;
use core::ops::Range;
use std::time::Instant;
use crate::cache::arena::{witness_len, NodeId, Verdict};
use crate::cache::hash::key_hash;
use crate::cache::table::{decayed, new_entry, CacheEntry, CacheStats, ComponentCache, Memo, TableShape};
use crate::cache::tree::BucketPolicy;
use crate::clock;
use crate::cnf::Cnf;
use crate::config::{Algorithm, Config};
use crate::count::{cnt, lemma_cnt_update};
use crate::lit::{Lit, Var};
use crate::search::component::{apart, comp_shape, key_bytes, lemma_none_pure, lit_active, pure_in, pure_list, var_set, Comp, ComponentAnalyzer, ComponentRef, ComponentStore, StoreMark};
use crate::search::frames::{Frame, back_at, carried_over, claimed, clean, comp_within, divides, frame_of, frame_ok, frames_ok, grown, keeps_clauses, keeps_models, lemma_base, lemma_both_refuted, lemma_closed_now, lemma_conflict_recent, lemma_conflict_refutes, lemma_falsified, lemma_forced_true, lemma_frame_extends, lemma_frame_pops, lemma_grown_trans, lemma_keeps_models_refl, lemma_keeps_models_trans, lemma_learned_clean, lemma_learned_frame, lemma_listed, lemma_new_frame, lemma_not_both, lemma_pure_keeps_models, lemma_refuted_before_propagation, lemma_refuted_before_pure, lemma_refuted_grows, lemma_same_vals, lemma_sat_all_grows, lemma_sibling, lemma_splits_divide, lemma_stays_pure, lemma_still_solves, lemma_sub_refutes, lemma_takes_part_below, lemma_whole_divides, new_parts, refuted, resid_clause, sat_all, solves, takes_part};
use crate::search::heuristic::DecisionMaker;
use crate::search::memo::{bit, entry_true, lemma_memo_decayed, lemma_memo_insert, lemma_memo_outlives_learning, lemma_memo_touched, lemma_new_keys_trans, lemma_not_named, lemma_set_bit, lemma_solves_grows, lemma_witness_len, memo_true, names_within, new_keys_within, witness_valuation};
use super::trace::{added, all_forced, answer_of_lesson, clauses_after_lesson, comes_to, counted, divided, led_to, lemma_counted_conflict, lemma_counted_decision, lemma_counted_forced, lemma_counted_split, lemma_counted_visit, lemma_nothing_remembered, lemma_open_start, lemma_pure_from, lemma_told_conflict, lemma_told_next_visit, lemma_told_no_visits, lemma_told_once, lemma_told_refuted, lemma_told_short, lemma_told_split, lemma_told_try, lemma_told_twice, memo_key, none_forced, none_pure, ok_lesson, one_conflict, one_decision, one_split, pending_after_lesson, pure_from, purified, remembered, remembered_with, rests_at, rounds_open, rounds_told, run_told, settled_at_root, settles, some_forced, some_forces, try_stage, try_told, undecided, verdict_of, visit_told, visits_told, witness_bytes, Ending, Ledger, Lesson, Stage};
use super::pace::{lemma_paced_assigned, lemma_paced_components, lemma_paced_conflict, lemma_paced_decision, lemma_paced_discarded, lemma_paced_learned, lemma_paced_node, lemma_paced_nodes, lemma_paced_pure, lemma_paced_refl, lemma_paced_trans, lemma_paced_widen, paced, Pace};
use crate::search::state::{agrees, closed_under, forces, inside, lemma_conflict_teaches_one_clause, lemma_max_level, lemma_trail_grows, listed_inside, max_level, n_free, n_true, t_false, t_has, t_sat, touches, unit_indices, woken, NO_REASON, Conflict, SearchState, Wave};
use crate::semantics::{clause_below, clause_true, formula_true, lit_true, nothing_obvious, occurs_in, satisfiable, valuation, Valuation};
use crate::sorting::{ascending32, lemma_ascending_len, lemma_push_contains};

verus! {

/// How often, in search nodes, to check the wall clock. Reading the clock is not free and the
/// answer changes slowly relative to node visits.
pub const CLOCK_CHECK_INTERVAL: u64 = 4096;

/// The result of solving one component, or the whole formula.
#[derive(Copy, Clone, PartialEq, Eq, Debug, Structural)]
pub enum Answer {
    /// Satisfiable; the witness has been written into the model.
    Sat,
    /// Unsatisfiable.
    Unsat,
    /// A clause was learned that asserts at a shallower decision level, and every frame down to
    /// the one owning that level must unwind. See the module notes.
    Backjump(usize),
    /// A limit was hit before an answer was found.
    Aborted,
}

/// How one polarity of one decision ended.
#[derive(Copy, Clone, PartialEq, Eq, Debug, Structural)]
enum Branch {
    /// Every subproblem was satisfied.
    Sat,
    /// The branch failed here; try the other polarity.
    Failed,
    /// Unwind to this decision level, where a learned clause is waiting to propagate.
    Backjump(usize),
    /// A limit was hit.
    Aborted,
}

/// The answer that a verdict stands for.
spec fn answer_of_verdict(v: Verdict) -> Answer {
    match v {
        Verdict::Sat => Answer::Sat,
        Verdict::Unsat => Answer::Unsat,
    }
}

/// What the end of a branch means for the component.
spec fn answer_of_branch(b: Branch) -> Answer {
    match b {
        Branch::Sat => Answer::Sat,
        Branch::Failed => Answer::Unsat,
        Branch::Backjump(target) => Answer::Backjump(target),
        Branch::Aborted => Answer::Aborted,
    }
}

/// Counters describing one search. They saturate.
#[derive(Clone, Copy, Debug)]
pub struct SearchCounters {
    /// Component solve attempts, including those answered by the memo.
    pub nodes: u64,
    /// Branching decisions taken.
    pub decisions: u64,
    /// Conflicts reached.
    pub conflicts: u64,
    /// Literal assignments, including propagated ones.
    pub propagations: u64,
    /// Components produced by decomposition.
    pub components: u64,
    /// Pure literals assigned.
    pub pure_literals: u64,
    /// Clauses derived by conflict analysis and kept.
    pub learned: u64,
    /// Clauses derived and thrown away for being longer than the size limit.
    pub discarded: u64,
    /// Literals across all derived clauses.
    pub learned_literals: u64,
    /// Conflicts whose derived clause sent the search back past more than one decision level.
    pub backjumps: u64,
    /// Decision levels skipped by those backjumps.
    pub levels_skipped: u64,
    /// Deepest recursion reached.
    pub max_depth: u64,
    /// Memo counters.
    pub cache: CacheStats,
    /// Memo shape at the end of the run.
    pub table: TableShape,
    /// Bytes held by the memo.
    pub cache_bytes: usize,
}

impl SearchCounters {
    /// All counters at zero.
    pub open spec fn zero() -> SearchCounters {
        SearchCounters {
            nodes: 0,
            decisions: 0,
            conflicts: 0,
            propagations: 0,
            components: 0,
            pure_literals: 0,
            learned: 0,
            discarded: 0,
            learned_literals: 0,
            backjumps: 0,
            levels_skipped: 0,
            max_depth: 0,
            cache: CacheStats::zero(),
            table: TableShape {
                buckets: 0,
                occupied: 0,
                entries: 0,
                max_bucket: 0,
                max_depth: 0,
                depth_total: 0,
            },
            cache_bytes: 0,
        }
    }
}

impl SearchCounters {
    /// The counters fit together, as long as none of them is full: no more visits than components,
    /// no more than two decisions for each visit, no more clauses derived than conflicts, no more
    /// backjumps than clauses kept or levels skipped, and no more pure literals than assignments.
    pub open spec fn consistent(self) -> bool {
        (self.nodes < u64::MAX && self.decisions < u64::MAX && self.conflicts < u64::MAX && self.components
            < u64::MAX && self.pure_literals < u64::MAX && self.learned < u64::MAX && self.discarded < u64::MAX
            && self.backjumps < u64::MAX && self.levels_skipped < u64::MAX && self.propagations < u64::MAX) ==> {
            &&& self.nodes <= self.components
            &&& self.decisions <= 2 * self.nodes
            &&& self.learned + self.discarded <= self.conflicts
            &&& self.backjumps <= self.learned
            &&& self.backjumps <= self.levels_skipped
            &&& self.pure_literals <= self.propagations
        }
    }
}

impl Default for SearchCounters {
    /// Nothing has happened yet.
    fn default() -> (c: Self)
        ensures
            c == SearchCounters::zero(),
    {
        SearchCounters {
            nodes: 0,
            decisions: 0,
            conflicts: 0,
            propagations: 0,
            components: 0,
            pure_literals: 0,
            learned: 0,
            discarded: 0,
            learned_literals: 0,
            backjumps: 0,
            levels_skipped: 0,
            max_depth: 0,
            cache: CacheStats::default(),
            table: TableShape::default(),
            cache_bytes: 0,
        }
    }
}

/// A DPLL search over one formula.
pub struct Searcher<'a, P: BucketPolicy> {
    state: SearchState,
    store: ComponentStore,
    analyzer: ComponentAnalyzer,
    cache: ComponentCache<P>,
    decider: DecisionMaker,
    config: &'a Config,
    /// The assignment being built. Component witnesses are written here as they are found.
    model: Vec<bool>,
    /// Clauses learned since the last propagation, to be re-examined once the search has
    /// backtracked far enough for them to say something.
    pending: Vec<u32>,
    counters: SearchCounters,
    started: Instant,
    aborted: bool,
    /// Set when conflict analysis derived the empty clause: the formula is unsatisfiable, and
    /// the [`Answer::Backjump`] travelling up the stack means "stop", not "retry".
    root_unsat: bool,
}

/// The lists agree outside the listed variables.
pub open spec fn same_outside(a: Seq<bool>, b: Seq<bool>, vars: Seq<u32>) -> bool {
    a.len() == b.len() && forall|v: int|
        0 <= v < a.len() && !vars.contains(v as u32) ==> #[trigger] b[v] == a[v]
}

impl<'a, P: BucketPolicy> Searcher<'a, P> {
    /// Every part is valid, they fit together, nothing falsified was missed, and what the memo says
    /// is true.
    spec fn valid(&self) -> bool {
        &&& self.state.wf()
        &&& self.state.noted()
        &&& clean(&self.state)
        &&& self.store.wf()
        &&& self.analyzer.wf()
        &&& self.analyzer.nv() == self.state.nv()
        &&& self.decider.wf()
        &&& self.decider.nv() == self.state.nv()
        &&& self.cache.wf()
        &&& memo_true(self.state.db(), self.cache@)
        &&& self.model@.len() == self.state.nv()
        &&& !self.root_unsat
        &&& self.aborted ==> self.limited()
    }

    /// A reason to give up: more nodes than the limit allows, or a time limit and a visit at which
    /// the clock was due.
    pub open spec fn excused(&self) -> bool {
        (self.node_limit() is Some && self.nodes() > self.node_limit()->0) || (self.timed() && self.nodes() > 0
            && self.nodes() % CLOCK_CHECK_INTERVAL == 0)
    }

    /// A limit is set.
    pub open spec fn limited(&self) -> bool {
        self.node_limit() is Some || self.timed()
    }

    /// The node limit.
    pub closed spec fn node_limit(&self) -> Option<u64> {
        self.config.max_nodes
    }

    /// A time limit is set.
    pub closed spec fn timed(&self) -> bool {
        self.config.timeout is Some
    }

    /// Nodes visited so far.
    pub closed spec fn nodes(&self) -> u64 {
        self.counters.nodes
    }

    /// What has been counted, and what is held.
    pub open spec fn pace(&self) -> Pace {
        Pace {
            tally: self.tally(),
            assigned: self.assignments(),
            clauses: self.clause_count(),
            limit: self.node_limit(),
            learning: self.learning(),
            stopped: self.stopped(),
            instant: self.instant(),
            remembering: self.remembering(),
            lookups: self.memo_counters().lookups,
            hits: self.memo_counters().hits,
        }
    }

    /// No time at all is allowed.
    pub closed spec fn instant(&self) -> bool {
        self.config.timeout == Some(0u128)
    }

    /// Clauses are learned from conflicts.
    pub closed spec fn learning(&self) -> bool {
        self.config.learn
    }

    /// Verdicts are remembered.
    pub closed spec fn remembering(&self) -> bool {
        self.config.cache
    }

    /// The search was told to stop.
    pub closed spec fn stopped(&self) -> bool {
        self.aborted
    }

    /// Clauses in the database, given and learned.
    pub closed spec fn clause_count(&self) -> int {
        self.state.db().len() as int
    }

    /// The clauses waiting to be propagated take part in the frame.
    spec fn pending_in(&self, f: Frame) -> bool {
        forall|k: int|
            0 <= k < self.pending@.len() ==> #[trigger] self.pending@[k] < self.state.db().len() && takes_part(
                f,
                self.state.db()[self.pending@[k] as int],
            )
    }

    /// Valid, and at or below every frame.
    #[verifier::opaque]
    spec fn inv(&self, fs: Seq<Frame>) -> bool {
        &&& self.valid()
        &&& frames_ok(&self.state, fs)
        &&& forall|i: int| 0 <= i < fs.len() ==> self.pending_in(#[trigger] fs[i])
        &&& forall|k: int| 0 <= k < self.pending@.len() ==> #[trigger] self.pending@[k] < self.state.db().len()
    }

    /// What the invariant says, apart from the frames.
    proof fn lemma_inv(&self, fs: Seq<Frame>)
        requires
            self.inv(fs),
        ensures
            self.valid(),
            forall|k: int| 0 <= k < self.pending@.len() ==> #[trigger] self.pending@[k] < self.state.db().len(),
    {
        reveal(Searcher::inv);
    }

    /// What the invariant says of the state.
    proof fn lemma_inv_state(&self, fs: Seq<Frame>)
        requires
            self.inv(fs),
        ensures
            self.state.wf(),
            self.state.noted(),
    {
        reveal(Searcher::inv);
    }

    /// What the invariant says of one frame.
    proof fn lemma_inv_frame(&self, fs: Seq<Frame>, i: int)
        requires
            self.inv(fs),
            0 <= i < fs.len(),
        ensures
            frame_ok(&self.state, fs[i]),
            self.pending_in(fs[i]),
    {
        reveal(Searcher::inv);
        assert(frame_ok(&self.state, fs[i]));
    }

    /// Nothing waits to be propagated and there is no conflict.
    spec fn idle(&self) -> bool {
        &&& self.state.queue().len() == 0
        &&& self.pending@.len() == 0
        &&& !self.state.conflicting()
    }

    /// Everything but the search state, the pending clauses and the counters is as in `o`.
    spec fn same_rest(&self, o: &Self) -> bool {
        &&& self.store == o.store
        &&& self.analyzer == o.analyzer
        &&& self.cache == o.cache
        &&& self.decider == o.decider
        &&& self.config == o.config
        &&& self.started == o.started
        &&& self.model == o.model
        &&& self.root_unsat == o.root_unsat
        &&& self.aborted ==> o.aborted || self.excused()
        &&& self.counters.nodes >= o.counters.nodes
    }

    /// How many literals may still be learned.
    spec fn budget(&self) -> int {
        if self.state.learned_size() < self.config.max_learned_literals {
            self.config.max_learned_literals - self.state.learned_size()
        } else {
            0
        }
    }

    /// How many variables are unassigned.
    spec fn open_vars(&self) -> nat {
        cnt(self.state.vals(), None::<bool>)
    }

    /// Propagates to fixpoint, first re-offering any clause learned since the last call.
    ///
    /// Backtracking only ever unassigns, so it cannot make a clause unit by the ordinary route:
    /// a clause derived from a conflict becomes unit precisely *because* the search unwound past
    /// the assignments that falsified it, and nothing would otherwise look at it again.
    fn propagate(&mut self) -> (ok: bool)
        requires
            old(self).valid(),
            forall|k: int|
                0 <= k < old(self).pending@.len() ==> #[trigger] old(self).pending@[k] < old(self).state.db().len(),
        ensures
            final(self).valid(),
            final(self).same_rest(old(self)),
            final(self).pending@.len() == 0,
            final(self).state.queue().len() == 0,
            final(self).state.propagated_from(&old(self).state),
            ok == !final(self).state.conflicting(),
            paced(old(self).pace(), final(self).pace(), 0, 0, 0),
            final(self).aborted == old(self).aborted,
            final(self).counters == old(self).counters,
            settles(old(self).state, old(self).state.queue() + old(self).pending@, final(self).state),
            old(self).pending@.len() == 0 && all_seen(&old(self).state) ==> all_seen(&final(self).state),
            counted(
                old(self).ledger(),
                final(self).ledger(),
                some_forced(final(self).state.trail().len() - old(self).state.trail().len()),
            ),
            forall|w: Set<int>|
                #![trigger closed_under(old(self).state.db(), old(self).state.trail(), w)]
                closed_under(old(self).state.db(), old(self).state.trail(), w) && listed_inside(
                    old(self).state.db(),
                    old(self).state.trail(),
                    old(self).state.queue() + old(self).pending@,
                    w,
                ) ==> forall|i: int|
                    old(self).state.trail().len() <= i < final(self).state.trail().len() ==> w.contains(
                        (#[trigger] final(self).state.trail()[i]).vi(),
                    ),
    {
        let ghost s0 = *self;
        let ghost q0 = self.state.queue();
        proof {
            assert(q0 + s0.pending@.take(0) =~= q0);
        }
        let n: usize = self.pending.len();
        for i in 0..n
            invariant
                i == 0 ==> self.state == s0.state,
                n == s0.pending@.len(),
                self.pending == s0.pending,
                self.same_rest(&s0),
                self.counters == s0.counters,
                self.aborted == s0.aborted,
                self.state.wf(),
                self.state.noted(),
                self.state.same_but_queue(&s0.state),
                self.state.conflicting() == s0.state.conflicting(),
                self.state.conflict_at() == s0.state.conflict_at(),
                self.state.queue() == q0 + s0.pending@.take(i as int),
                s0.valid(),
                forall|k: int| 0 <= k < s0.pending@.len() ==> #[trigger] s0.pending@[k] < s0.state.db().len(),
        {
            let c: u32 = self.pending[i];
            assert(s0.pending@[i as int] < s0.state.db().len());
            self.state.queue_clause(c);
            assert(q0 + s0.pending@.take(i + 1) =~= (q0 + s0.pending@.take(i as int)).push(c));
        }
        proof {
            assert(s0.pending@.take(s0.pending@.len() as int) =~= s0.pending@);
        }
        let ghost s1 = *self;
        self.pending.clear();
        let ok = self.state.propagate();
        proof {
            let n = choose|n: nat| #[trigger] self.state.settled_after(&s1.state, n);
            assert(s1.state.wave() == Wave { queue: q0 + s0.pending@, ..s0.state.wave() });
            assert(comes_to(s0.state, q0 + s0.pending@, self.state, n));
            assert(s0.pending@.len() == 0 && all_seen(&s0.state) ==> all_seen(&self.state)) by {
                reveal(all_seen);
            }
            lemma_counted_forced(
                s0.ledger(),
                self.ledger(),
                self.state.trail().len() - s0.state.trail().len(),
            );
            lemma_paced_assigned(s0.pace(), self.pace());
            lemma_clean_extends(&s1.state, &self.state);
            assert(clean(&s1.state)) by {
                assert(s1.state.trail() == s0.state.trail());
            }
        }
        ok
    }

    /// The state after conflict analysis: the same assignment, with at most one clause more.
    spec fn analyzed(&self, o: &Self, fs: Seq<Frame>) -> bool {
        &&& self.inv(fs)
        &&& self.same_rest(o)
        &&& self.aborted == o.aborted
        &&& self.state.same_assignment(&o.state)
        &&& self.state.queue() == o.state.queue()
        &&& grown(o.state.db(), self.state.db())
        &&& self.state.learned_size() >= o.state.learned_size()
        &&& forall|i: int|
            0 <= i < fs.len() ==> new_parts(o.state.db().len() as int, self.state.db(), #[trigger] fs[i])
    }

    /// There is room for another clause, and it is wanted.
    spec fn room_to_learn(&self) -> bool {
        &&& self.config.learn
        &&& self.state.learned_size() < self.config.max_learned_literals
        &&& self.state.db().len() < 0xffff_fffe
    }

    /// What the conflict teaches is longer than the limit.
    spec fn lesson_too_long(&self) -> bool {
        self.config.max_learned_clause_size != 0 && forall|d: Seq<Lit>| #[trigger]
            self.state.learns(d) ==> d.len() > self.config.max_learned_clause_size
    }

    /// What the conflict of `o` teaches went into the database and awaits propagation.
    spec fn lesson_kept(&self, o: &Self) -> bool {
        let d = self.state.db().last();
        &&& self.state.db() == o.state.db().push(d)
        &&& self.state.learned_size() == o.state.learned_size() + d.len()
        &&& o.state.learns(d)
        &&& o.state.derives(d)
        &&& o.config.max_learned_clause_size == 0 || d.len() <= o.config.max_learned_clause_size
        &&& self.pending@ == o.pending@.push(o.state.db().len() as u32)
    }

    /// The level at which the clause just kept asserts its first literal.
    spec fn lesson_level(&self, o: &Self) -> int {
        max_level(o.state.levels(), self.state.db().last().skip(1))
    }

    /// How a conflict on `level` was answered. With no room or no wish to learn, nothing happened. A
    /// clause beyond the size limit was counted as discarded. Any other clause was kept and counted,
    /// and where it asserts a literal further up, that is where the search has to go.
    spec fn lesson_drawn(&self, o: &Self, level: int, r: Option<usize>) -> bool {
        &&& self.state.propagation_count() == o.state.propagation_count()
        &&& if !o.room_to_learn() {
            &&& r is None
            &&& *self == *o
        } else if o.lesson_too_long() {
            &&& r is None
            &&& self.state.db() == o.state.db()
            &&& self.state.learned_size() == o.state.learned_size()
            &&& self.pending == o.pending
            &&& self.counters == (SearchCounters {
                discarded: o.counters.discarded.saturating_add(1),
                ..o.counters
            })
        } else {
            let target = self.lesson_level(o);
            let asserting = target < o.state.conflict_level();
            &&& self.lesson_kept(o)
            &&& r == (if asserting {
                Some(target as usize)
            } else {
                None
            })
            &&& self.counters == (SearchCounters {
                learned: o.counters.learned.saturating_add(1),
                backjumps: if asserting && target + 1 < level {
                    o.counters.backjumps.saturating_add(1)
                } else {
                    o.counters.backjumps
                },
                levels_skipped: if asserting && target + 1 < level {
                    o.counters.levels_skipped.saturating_add((level - target - 1) as u64)
                } else {
                    o.counters.levels_skipped
                },
                ..o.counters
            })
        }
    }

    /// Analyses the conflict and files the derived clause, if it is kept.
    #[verifier::spinoff_prover]
    #[verifier::rlimit(100)]
    fn derive(&mut self, level: usize, Ghost(fs): Ghost<Seq<Frame>>) -> (r: Conflict)
        requires
            old(self).inv(fs),
            old(self).state.conflicting(),
            old(self).state.db().len() + 1 < u32::MAX,
            level == old(self).state.lims().len(),
            level > 0,
            forall|i: int|
                0 <= i < fs.len() ==> (#[trigger] fs[i]).base.len() <= old(self).state.lims().last(),
        ensures
            final(self).analyzed(old(self), fs),
            r != Conflict::Root,
            r matches Conflict::Learned { clause, assert_level, asserting } ==> final(self).state.learned_size() > old(self).state.learned_size() && (asserting ==> assert_level < level),
            final(self).counters == old(self).counters,
            final(self).state.propagation_count() == old(self).state.propagation_count(),
            r is TooLong ==> final(self).state.db() == old(self).state.db() && final(self).state.learned_size() == old(
                self,
            ).state.learned_size() && final(self).pending == old(self).pending
                && old(self).lesson_too_long(),
            r matches Conflict::Learned { clause, assert_level, asserting } ==> {
                &&& final(self).lesson_kept(old(self))
                &&& assert_level == final(self).lesson_level(old(self))
                &&& asserting == (assert_level < old(self).state.conflict_level())
            },
    {
        let ghost s0 = *self;
        let max_size: usize = self.config.max_learned_clause_size;
        proof {
            s0.lemma_inv(fs);
            let (q, j) = lemma_conflict_recent(&s0.state);
            assert(s0.state.db().take(s0.state.db().len() as int) =~= s0.state.db());
        }
        let r = self.state.analyze_conflict(max_size);
        match r {
            Conflict::Learned { clause, assert_level, asserting } => {
                self.pending.push(clause);
                proof {
                    assert forall|d: Seq<Lit>| #[trigger] s0.state.learns(d) implies d.len()
                        == self.state.db().last().len() by {
                        lemma_conflict_teaches_one_clause(s0.state, d, self.state.db().last());
                    }
                    self.lemma_learned_inv(&s0, fs, clause);
                }
            },
            _ => {
                proof {
                    self.lemma_unchanged_inv(&s0, fs);
                    if let Conflict::TooLong(n) = r {
                        let e = choose|d: Seq<Lit>|
                            d.len() == n && #[trigger] s0.state.derives(d) && s0.state.learns(d);
                        assert forall|d: Seq<Lit>| #[trigger] s0.state.learns(d) implies d.len() > max_size by {
                            lemma_conflict_teaches_one_clause(s0.state, d, e);
                        }
                    }
                }
            },
        }
        r
    }

    /// Derives a clause from the current conflict.
    ///
    /// Returns the level to unwind to, or `None` when the search should simply try the other
    /// polarity: either learning is off, the database is full, or the derived clause is not
    /// asserting and so justifies no backjump.
    fn learn(&mut self, level: usize, Ghost(fs): Ghost<Seq<Frame>>) -> (r: Option<usize>)
        requires
            old(self).inv(fs),
            old(self).state.conflicting(),
            level == old(self).state.lims().len(),
            level > 0,
            forall|i: int|
                0 <= i < fs.len() ==> (#[trigger] fs[i]).base.len() <= old(self).state.lims().last(),
        ensures
            final(self).analyzed(old(self), fs),
            final(self).lesson_drawn(old(self), level as int, r),
            r matches Some(target) ==> target < level && final(self).state.learned_size() > old(self).state.learned_size() && old(self).state.learned_size() < old(self).config.max_learned_literals,
            paced(old(self).pace(), final(self).pace(), 0, 0, 1),
    {
        let ghost s0 = *self;
        proof {
            s0.lemma_inv(fs);
            assert(s0.state.db().take(s0.state.db().len() as int) =~= s0.state.db());
        }
        if !self.config.learn || self.state.learned_literals() >= self.config.max_learned_literals as u64
            || self.state.num_clauses() >= 0xffff_fffe {
            proof {
                lemma_paced_refl(s0.pace());
                lemma_paced_widen(s0.pace(), s0.pace(), 0, 0, 0, 0, 0, 1);
            }
            return None;
        }
        let r = self.derive(level, Ghost(fs));
        let ghost s1 = *self;
        match r {
            Conflict::TooLong(_) => {
                self.counters.discarded = self.counters.discarded.saturating_add(1);
                proof {
                    self.lemma_counters_inv(&s1, fs);
                    lemma_paced_discarded(s0.pace(), self.pace());
                }
                None
            },
            Conflict::Root => {
                // No falsified clause was missed before the level was opened, so the conflict lies
                // on it and never at the root.
                self.root_unsat = true;
                Some(0)
            },
            Conflict::Learned { clause, assert_level, asserting } => {
                self.counters.learned = self.counters.learned.saturating_add(1);
                if asserting && assert_level + 1 < level {
                    self.counters.backjumps = self.counters.backjumps.saturating_add(1);
                    self.counters.levels_skipped = self.counters.levels_skipped.saturating_add(
                        (level - assert_level - 1) as u64,
                    );
                }
                proof {
                    self.lemma_counters_inv(&s1, fs);
                    lemma_paced_learned(
                        s0.pace(),
                        self.pace(),
                        asserting && assert_level + 1 < level,
                        (level - assert_level - 1) as u64,
                    );
                }
                if !asserting || assert_level >= level {
                    return None;
                }
                Some(assert_level)
            },
        }
    }

    /// What was learned from the conflict of `o`.
    spec fn lesson(&self, o: &Self) -> Lesson {
        if !o.room_to_learn() {
            Lesson::Unwanted
        } else if o.lesson_too_long() {
            Lesson::TooLong
        } else {
            Lesson::Kept(self.state.db().last())
        }
    }

    /// The lesson is the one that the configuration calls for, and it is counted. State `s` is `o`
    /// before the conflict was.
    proof fn lemma_lesson(&self, o: &Self, s: &Self, r: Option<usize>)
        requires
            self.lesson_drawn(o, o.state.lims().len() as int, r),
            s.state == o.state,
            s.config == o.config,
            o.pending@ == Seq::<u32>::empty(),
            self.cache == s.cache,
            o.counters == (SearchCounters { conflicts: s.counters.conflicts.saturating_add(1), ..s.counters }),
            r matches Some(target) ==> target < o.state.lims().len(),
            o.state.wf(),
            self.state.wf(),
            o.state.lims().len() <= usize::MAX,
        ensures
            ok_lesson(*s.config, s.state, self.lesson(o)),
            counted(s.ledger(), self.ledger(), one_conflict(s.state, self.lesson(o))),
            answer_of_lesson(s.state, self.lesson(o)) == (match r {
                Some(target) => Answer::Backjump(target),
                None => Answer::Unsat,
            }),
            clauses_after_lesson(s.state, self.lesson(o)) == self.state.db(),
            pending_after_lesson(s.state, self.lesson(o)) == self.pending@,
    {
        let lesson = self.lesson(o);
        assert(pending_after_lesson(s.state, lesson) =~= self.pending@);
        self.state.lemma_learned_fits();
        o.state.lemma_learned_fits();
        if let Lesson::Kept(d) = lesson {
            lemma_max_level(o.state.levels(), d.skip(1));
        }
        lemma_counted_conflict(s.ledger(), self.ledger(), s.state, lesson);
    }

    /// The invariant does not mention the counters.
    proof fn lemma_counters_inv(&self, o: &Self, fs: Seq<Frame>)
        requires
            o.inv(fs),
            self.same_rest(o),
            self.state == o.state,
            self.pending == o.pending,
        ensures
            self.inv(fs),
    {
        reveal(Searcher::inv);
        assert forall|i: int| 0 <= i < fs.len() implies self.pending_in(#[trigger] fs[i]) by {
            assert(o.pending_in(fs[i]));
        }
    }

    /// Conflict analysis that adds nothing keeps the invariant.
    proof fn lemma_unchanged_inv(&self, o: &Self, fs: Seq<Frame>)
        requires
            o.inv(fs),
            self.same_rest(o),
            self.pending == o.pending,
            self.state.wf(),
            self.state.same_assignment(&o.state),
            self.state.db() == o.state.db(),
            self.state.conflicting(),
        ensures
            self.inv(fs),
    {
        reveal(Searcher::inv);
        assert forall|i: int| 0 <= i < fs.len() implies frame_ok(&self.state, #[trigger] fs[i])
            && self.pending_in(fs[i]) by {
            assert(frame_ok(&o.state, fs[i]));
            assert(o.pending_in(fs[i]));
            lemma_frame_same(&o.state, &self.state, fs[i]);
        }
        lemma_clean_same(&o.state, &self.state);
    }

    /// Adding a derived clause keeps the invariant.
    proof fn lemma_learned_inv(&self, o: &Self, fs: Seq<Frame>, clause: u32)
        requires
            o.inv(fs),
            o.state.conflicting(),
            o.state.lims().len() > 0,
            forall|i: int| 0 <= i < fs.len() ==> (#[trigger] fs[i]).base.len() <= o.state.lims().last(),
            self.same_rest(o),
            self.pending@ == o.pending@.push(clause),
            self.state.wf(),
            self.state.same_assignment(&o.state),
            self.state.conflicting(),
            clause == o.state.db().len(),
            self.state.db() == o.state.db().push(self.state.db().last()),
            o.state.derives(self.state.db().last()),
        ensures
            self.inv(fs),
            grown(o.state.db(), self.state.db()),
            forall|i: int|
                0 <= i < fs.len() ==> new_parts(
                    o.state.db().len() as int,
                    self.state.db(),
                    #[trigger] fs[i],
                ),
    {
        reveal(Searcher::inv);
        let d = self.state.db().last();
        let db = o.state.db();
        let db2 = self.state.db();
        assert(db2.take(db.len() as int) =~= db);
        lemma_memo_outlives_learning(db, db2, o.cache@);
        lemma_learned_clean(&o.state, &self.state, d);
        assert forall|i: int| 0 <= i < fs.len() implies frame_ok(&self.state, #[trigger] fs[i])
            && self.pending_in(fs[i]) && new_parts(db.len() as int, db2, fs[i]) by {
            assert(frame_ok(&o.state, fs[i]));
            assert(o.pending_in(fs[i]));
            lemma_learned_frame(&o.state, &self.state, fs[i], d);
            assert forall|k: int| 0 <= k < self.pending@.len() implies #[trigger] self.pending@[k]
                < self.state.db().len() && takes_part(fs[i], self.state.db()[self.pending@[k] as int]) by {
                if k < o.pending@.len() {
                    assert(self.pending@[k] == o.pending@[k]);
                    assert(db2[o.pending@[k] as int] == db[o.pending@[k] as int]);
                } else {
                    assert(db2[clause as int] == d);
                }
            }
        }
        assert forall|k: int| 0 <= k < self.pending@.len() implies #[trigger] self.pending@[k] < self.state.db().len() by {
            if k < o.pending@.len() {
                assert(self.pending@[k] == o.pending@[k]);
            }
        }
    }
}

/// What was assigned since the innermost level was opened belongs to it.
proof fn lemma_recent_level(s: &SearchState, j: int)
    requires
        s.trail_ok(),
        s.lims().len() > 0,
        s.lims().last() <= j < s.trail().len(),
    ensures
        s.levels()[s.trail()[j].vi()] == s.lims().len(),
{
    let a = s.levels()[s.trail()[j].vi()] as int;
    assert(crate::search::state::at_level(s.lims(), j, a));
    if a < s.lims().len() {
        assert(s.lims()[a] <= s.lims()[s.lims().len() - 1]);
    }
}

/// Assigning on top of the trail keeps earlier levels clean.
proof fn lemma_clean_extends(o: &SearchState, s: &SearchState)
    requires
        clean(o),
        s.db() == o.db(),
        s.lims() == o.lims(),
        o.trail().len() <= s.trail().len(),
        s.trail().take(o.trail().len() as int) == o.trail(),
        forall|k: int| 0 <= k < o.lims().len() ==> #[trigger] o.lims()[k] <= o.trail().len(),
    ensures
        clean(s),
{
    assert forall|k: int, c: int| 0 <= k < s.lims().len() && 0 <= c < s.db().len() implies !t_false(
        s.trail().take(#[trigger] s.lims()[k] as int),
        #[trigger] s.db()[c],
    ) by {
        let n = o.lims()[k] as int;
        assert(s.trail().take(n) =~= o.trail().take(n)) by {
            assert forall|i: int| 0 <= i < n implies s.trail().take(n)[i] == o.trail().take(n)[i] by {
                assert(s.trail().take(o.trail().len() as int)[i] == s.trail()[i]);
            }
        }
        assert(!t_false(o.trail().take(n), o.db()[c]));
    }
}

proof fn lemma_clean_same(o: &SearchState, s: &SearchState)
    requires
        clean(o),
        s.db() == o.db(),
        s.same_assignment(o),
    ensures
        clean(s),
{
    assert forall|k: int, c: int| 0 <= k < s.lims().len() && 0 <= c < s.db().len() implies !t_false(
        s.trail().take(#[trigger] s.lims()[k] as int),
        #[trigger] s.db()[c],
    ) by {
        assert(!t_false(o.trail().take(o.lims()[k] as int), o.db()[c]));
    }
}

proof fn lemma_frame_same(o: &SearchState, s: &SearchState, f: Frame)
    requires
        frame_ok(o, f),
        s.db() == o.db(),
        s.nv() == o.nv(),
        s.trail() == o.trail(),
        forall|i: int|
            0 <= i < o.trail().len() ==> s.levels()[(#[trigger] o.trail()[i]).vi()]
                == o.levels()[o.trail()[i].vi()],
    ensures
        frame_ok(s, f),
{
    assert(s.trail().take(o.trail().len() as int) =~= o.trail());
    lemma_frame_extends(o, s, f);
}

impl<'a, P: BucketPolicy> Searcher<'a, P> {
    /// Assigning literals over `w` on the innermost level keeps the invariant.
    proof fn lemma_extended_inv(&self, o: &Self, fs: Seq<Frame>, w: Set<int>)
        requires
            o.inv(fs),
            self.valid(),
            self.pending == o.pending || self.pending@.len() == 0,
            self.state.db() == o.state.db(),
            self.state.nv() == o.state.nv(),
            self.state.lims() == o.state.lims(),
            fs.len() > 0 ==> o.state.lims().len() > 0 && o.state.lims().last() <= o.state.trail().len(),
            o.state.trail().len() <= self.state.trail().len(),
            self.state.trail().take(o.state.trail().len() as int) == o.state.trail(),
            forall|i: int|
                o.state.trail().len() <= i < self.state.trail().len() ==> w.contains(
                    (#[trigger] self.state.trail()[i]).vi(),
                ),
            forall|i: int|
                0 <= i < o.state.trail().len() ==> self.state.levels()[(#[trigger] o.state.trail()[i]).vi()]
                    == o.state.levels()[o.state.trail()[i].vi()],
            forall|i: int| 0 <= i < fs.len() ==> w.subset_of((#[trigger] fs[i]).vars),
        ensures
            self.inv(fs),
    {
        reveal(Searcher::inv);
        assert forall|i: int| 0 <= i < fs.len() implies frame_ok(&self.state, #[trigger] fs[i])
            && self.pending_in(fs[i]) by {
            let f = fs[i];
            assert(frame_ok(&o.state, f));
            assert(o.pending_in(f));
            let t = self.state.trail();
            assert forall|j: int| o.state.trail().len() <= j < t.len() implies f.vars.contains((#[trigger] t[j]).vi())
                && self.state.levels()[t[j].vi()] > 0 by {
                assert(w.contains(t[j].vi()));
                lemma_recent_level(&self.state, j);
            }
            lemma_frame_extends(&o.state, &self.state, f);
        }
    }

    /// What decomposing the set `w` does: pure literals over `w` may have been assigned, losing no
    /// satisfied clause, and the new components divide `w`.
    spec fn decomposed(&self, o: &Self, w: Set<int>, start: int) -> bool {
        &&& self.valid()
        &&& self.config == o.config
        &&& self.started == o.started
        &&& self.aborted == o.aborted
        &&& self.cache == o.cache
        &&& self.model == o.model
        &&& self.pending == o.pending
        &&& self.state.db() == o.state.db()
        &&& self.state.nv() == o.state.nv()
        &&& self.state.n_orig() == o.state.n_orig()
        &&& self.state.lims() == o.state.lims()
        &&& self.state.learned_size() == o.state.learned_size()
        &&& self.state.queue().len() == 0
        &&& !self.state.conflicting()
        &&& o.state.trail().len() <= self.state.trail().len()
        &&& self.state.trail().take(o.state.trail().len() as int) == o.state.trail()
        &&& forall|i: int|
            o.state.trail().len() <= i < self.state.trail().len() ==> w.contains(
                (#[trigger] self.state.trail()[i]).vi(),
            )
        &&& forall|i: int|
            0 <= i < o.state.trail().len() ==> self.state.levels()[(#[trigger] o.state.trail()[i]).vi()]
                == o.state.levels()[o.state.trail()[i].vi()]
        &&& keeps_models(o.state.db(), o.state.trail(), self.state.trail())
        &&& self.open_vars() <= o.open_vars()
        &&& start == o.store.comps().len()
        &&& start <= self.store.comps().len()
        &&& self.store.comps().take(start) == o.store.comps()
    }

    /// Assigns the pure literals of the last analysis. Returns how many were assigned.
    #[verifier::rlimit(100)]
    fn assign_pure(&mut self, Ghost(w): Ghost<Set<int>>) -> (n: u64)
        requires
            old(self).valid(),
            old(self).state.queue().len() == 0,
            !old(self).state.conflicting(),
            forall|l: Lit| #[trigger]
                old(self).analyzer.pure().contains(l) ==> l.vi() < old(self).state.nv() && w.contains(l.vi()) && !lit_active(
                    old(self).state.db(),
                    old(self).state.trail(),
                    l.neg(),
                ) && !t_has(old(self).state.trail(), l.vi()),
            old(self).analyzer.pure().len() > 0,
        ensures
            final(self).decomposed(old(self), w, old(self).store.comps().len() as int),
            final(self).store == old(self).store,
            final(self).open_vars() < old(self).open_vars(),
            final(self).counters == old(self).counters,
            final(self).state.propagation_count() == added(old(self).state.propagation_count(), n as nat),
            n == final(self).state.trail().len() - old(self).state.trail().len(),
            pure_from(old(self).state.db(), final(self).state.trail(), old(self).state.trail().len() as int),
    {
        let ghost s0 = *self;
        let ghost pure = self.analyzer.pure();
        let ghost db = self.state.db();
        let count: usize = self.analyzer.pure_literals().len();
        let mut assigned: u64 = 0;
        proof {
            lemma_keeps_models_refl(db, s0.state.trail());
            assert(s0.state.trail().take(s0.state.trail().len() as int) =~= s0.state.trail());
            assert(s0.store.comps().take(s0.store.comps().len() as int) =~= s0.store.comps());
        }
        for i in 0..count
            invariant
                s0.valid(),
                self.decomposed(&s0, w, s0.store.comps().len() as int),
                self.store == s0.store,
                self.analyzer == s0.analyzer,
                pure == s0.analyzer.pure(),
                count == pure.len(),
                db == s0.state.db(),
                i > 0 ==> self.open_vars() < s0.open_vars(),
                i == 0 ==> self.state == s0.state,
                self.counters == s0.counters,
                self.state.propagation_count() == added(s0.state.propagation_count(), assigned as nat),
                assigned <= i,
                assigned == self.state.trail().len() - s0.state.trail().len(),
                pure_from(db, self.state.trail(), s0.state.trail().len() as int),
                forall|l: Lit| #[trigger]
                    pure.contains(l) ==> l.vi() < s0.state.nv() && w.contains(l.vi()) && !lit_active(
                        db,
                        s0.state.trail(),
                        l.neg(),
                    ) && !t_has(s0.state.trail(), l.vi()),
        {
            let lit = self.analyzer.pure_literals()[i];
            proof {
                assert(pure.contains(pure[i as int]));
                s0.state.lemma_vals(lit.vi());
            }
            if self.state.value(lit.var()).is_none() {
                let ghost before = *self;
                let ghost t = self.state.trail();
                self.state.enqueue(lit);
                assigned = assigned.saturating_add(1);
                proof {
                    before.state.lemma_vals(lit.vi());
                    lemma_stays_pure(db, s0.state.trail(), t, lit.neg());
                    lemma_pure_keeps_models(&before.state, lit);
                    lemma_keeps_models_trans(db, s0.state.trail(), t, self.state.trail());
                    lemma_pure_quiet(&before.state, &self.state, lit);
                    self.state.lemma_assign_noted(&before.state, lit, NO_REASON);
                    assert(self.state.trail().take(t.len() as int) =~= t);
                    lemma_clean_extends(&before.state, &self.state);
                    lemma_cnt_update(before.state.vals(), lit.vi(), Some(lit.pos()), None::<bool>);
                    assert(self.state.trail().take(s0.state.trail().len() as int) =~= t.take(
                        s0.state.trail().len() as int,
                    ));
                    let u = self.state.trail();
                    assert(pure_from(db, u, t.len() as int)) by {
                        assert(u.take(t.len() as int) =~= t);
                        assert(!t_has(t, lit.vi()));
                    }
                    lemma_pure_from(db, t, u, s0.state.trail().len() as int);
                    assert forall|j: int| s0.state.trail().len() <= j < u.len() implies w.contains(
                        (#[trigger] u[j]).vi(),
                    ) by {
                        if j < t.len() {
                            assert(u[j] == t[j]);
                        }
                    }
                    assert forall|j: int| 0 <= j < s0.state.trail().len() implies self.state.levels()[(
                    #[trigger] s0.state.trail()[j]).vi()] == s0.state.levels()[s0.state.trail()[j].vi()] by {
                        assert(t.take(s0.state.trail().len() as int)[j] == t[j]);
                        assert(before.state.vals()[t[j].vi()] is Some);
                    }
                }
            }
        }
        assigned
    }

    /// The scope lists the variables of the closed set `w`, besides assigned ones.
    spec fn scoped(s: &SearchState, scope: Seq<u32>, w: Set<int>) -> bool {
        &&& closed_under(s.db(), s.trail(), w)
        &&& forall|v: int| #[trigger] w.contains(v) ==> 0 <= v <= u32::MAX && scope.contains(v as u32)
        &&& forall|k: int|
            0 <= k < scope.len() ==> #[trigger] scope[k] < s.nv() && (w.contains(scope[k] as int) || t_has(
                s.trail(),
                scope[k] as int,
            ))
    }

    /// Splits a scope into components as they stand, and looks for pure literals if asked to.
    #[verifier::spinoff_prover]
    #[verifier::rlimit(100)]
    fn split(&mut self, scope: &Vec<u32>, detect_pure: bool, Ghost(w): Ghost<Set<int>>) -> (r: Range<usize>)
        requires
            old(self).valid(),
            Self::scoped(&old(self).state, scope@, w),
        ensures
            final(self).valid(),
            final(self).state == old(self).state,
            final(self).config == old(self).config,
            final(self).started == old(self).started,
            final(self).aborted == old(self).aborted,
            final(self).cache == old(self).cache,
            final(self).model == old(self).model,
            final(self).pending == old(self).pending,
            final(self).counters == old(self).counters,
            r.start == old(self).store.comps().len(),
            r.end == final(self).store.comps().len(),
            r.start <= r.end,
            final(self).store.comps().take(r.start as int) == old(self).store.comps(),
            divides(&final(self).state, w, final(self).store.comps().skip(r.start as int)),
            divided(
                *final(self).config,
                final(self).state,
                scope@,
                final(self).store.comps().skip(r.start as int),
            ),
            !detect_pure ==> final(self).analyzer.pure().len() == 0,
            detect_pure ==> final(self).analyzer.pure() == pure_list(
                final(self).state.db(),
                final(self).state.trail(),
                final(self).store.comps().skip(r.start as int),
            ),
            forall|l: Lit| #[trigger]
                final(self).analyzer.pure().contains(l) ==> l.vi() < old(self).state.nv() && w.contains(l.vi()) && lit_active(
                    old(self).state.db(),
                    old(self).state.trail(),
                    l,
                ) && !lit_active(
                    old(self).state.db(),
                    old(self).state.trail(),
                    l.neg(),
                ) && !t_has(old(self).state.trail(), l.vi()),
    {
        let range = if self.config.algorithm == Algorithm::Dpll {
            self.analyzer.analyze_whole(&self.state, scope.as_slice(), &mut self.store, detect_pure)
        } else {
            self.analyzer.analyze(&self.state, scope.as_slice(), &mut self.store, detect_pure)
        };
        proof {
            reveal(divided);
            let comps = self.store.comps().skip(range.start as int);
            if self.config.algorithm == Algorithm::Dpll {
                if comps.len() == 1 {
                    assert(comps[0] == self.store.comps()[range.start as int]);
                }
                lemma_whole_divides(&self.state, scope@, w, comps);
            } else {
                lemma_splits_divide(&self.state, scope@, w, comps);
            }
            assert forall|l: Lit| #[trigger] self.analyzer.pure().contains(l) implies l.vi() < self.state.nv()
                && w.contains(l.vi()) && lit_active(self.state.db(), self.state.trail(), l) && !lit_active(
                self.state.db(),
                self.state.trail(),
                l.neg(),
            ) && !t_has(self.state.trail(), l.vi()) by {
                assert(pure_in(self.state.db(), self.state.trail(), comps, l));
                Self::lemma_pure_ready(&self.state, w, comps, l);
            }
        }
        range
    }

    /// Splits a scope into components, first driving pure literal elimination to fixpoint.
    ///
    /// Purity is computed as a side effect of the same scan that finds the components, so the
    /// fixpoint loop costs one extra pass per round of pure literals rather than a separate
    /// sweep of the formula.
    #[verifier::spinoff_prover]
    #[verifier::rlimit(100)]
    fn decompose(&mut self, scope: &Vec<u32>, Ghost(w): Ghost<Set<int>>) -> (r: Range<usize>)
        requires
            old(self).valid(),
            old(self).state.queue().len() == 0,
            !old(self).state.conflicting(),
            Self::scoped(&old(self).state, scope@, w),
        ensures
            final(self).decomposed(old(self), w, r.start as int),
            r.end == final(self).store.comps().len(),
            divides(&final(self).state, w, final(self).store.comps().skip(r.start as int)),
            r.start <= r.end,
            paced(old(self).pace(), final(self).pace(), r.start - r.end, 0, 0),
            purified(
                *old(self).config,
                old(self).state,
                final(self).state,
                final(self).store.comps().skip(r.start as int),
            ),
            divided(
                *old(self).config,
                final(self).state,
                scope@,
                final(self).store.comps().skip(r.start as int),
            ),
            counted(
                old(self).ledger(),
                final(self).ledger(),
                one_split(old(self).state, final(self).state, final(self).store.comps().skip(r.start as int)),
            ),
            final(self).counters.nodes == old(self).counters.nodes,
            final(self).counters.components == old(self).counters.components.saturating_add((r.end - r.start) as u64),
            no_pure(old(self).state.db(), old(self).state.trail()) ==> final(self).state.trail()
                == old(self).state.trail(),
    {
        let ghost s0 = *self;
        let ghost start = self.store.comps().len() as int;
        proof {
            lemma_paced_refl(s0.pace());
            lemma_keeps_models_refl(s0.state.db(), s0.state.trail());
            assert(s0.state.trail().take(s0.state.trail().len() as int) =~= s0.state.trail());
            assert(s0.store.comps().take(start) =~= s0.store.comps());
        }
        loop
            invariant
                s0 == *old(self),
                start == s0.store.comps().len(),
                self.decomposed(&s0, w, start),
                self.store.comps() == s0.store.comps(),
                Self::scoped(&s0.state, scope@, w),
                paced(s0.pace(), self.pace(), 0, 0, 0),
                self.counters == (SearchCounters {
                    pure_literals: added(
                        s0.counters.pure_literals,
                        (self.state.trail().len() - s0.state.trail().len()) as nat,
                    ),
                    ..s0.counters
                }),
                self.state.propagation_count() == added(
                    s0.state.propagation_count(),
                    (self.state.trail().len() - s0.state.trail().len()) as nat,
                ),
                pure_from(s0.state.db(), self.state.trail(), s0.state.trail().len() as int),
                !s0.config.pure_literals ==> self.state.trail() == s0.state.trail(),
                no_pure(s0.state.db(), s0.state.trail()) ==> self.state.trail() == s0.state.trail(),
            decreases self.open_vars(),
        {
            let ghost top = *self;
            proof {
                lemma_closed_later(s0.state.db(), s0.state.trail(), self.state.trail(), w);
                lemma_trail_grows(s0.state.trail(), self.state.trail());
            }
            let mark = self.store.mark();
            let detect_pure = self.config.pure_literals;
            let range = self.split(scope, detect_pure, Ghost(w));
            if self.analyzer.pure_literals().len() == 0 {
                let found: u64 = (range.end - range.start) as u64;
                self.counters.components = self.counters.components.saturating_add(found);
                proof {
                    reveal(purified);
                    let comps = self.store.comps().skip(range.start as int);
                    assert(comps.len() == found);
                    lemma_counted_split(s0.ledger(), self.ledger(), s0.state, self.state, comps);
                    if s0.config.pure_literals {
                        assert(pure_list(self.state.db(), self.state.trail(), comps) =~= Seq::<Lit>::empty());
                    }
                    lemma_paced_components(top.pace(), self.pace(), found);
                    lemma_paced_trans(s0.pace(), top.pace(), self.pace(), 0, 0, 0, -(found as int), 0, 0);
                }
                return range;
            }
            proof {
                let l = self.analyzer.pure()[0];
                assert(self.analyzer.pure().contains(l));
                assert(!no_pure(s0.state.db(), s0.state.trail()));
            }
            // Assigning a pure literal can only satisfy clauses, never shorten one, so it can
            // neither conflict nor propagate. The components just computed are stale, though, so
            // they are discarded and the scan repeats.
            self.store.truncate(mark);
            assert(self.store.comps() =~= s0.store.comps());
            let ghost before = *self;
            let assigned: u64 = self.assign_pure(Ghost(w));
            self.counters.pure_literals = self.counters.pure_literals.saturating_add(assigned);
            proof {
                lemma_paced_pure(top.pace(), self.pace(), assigned);
                lemma_paced_trans(s0.pace(), top.pace(), self.pace(), 0, 0, 0, 0, 0, 0);
                lemma_pure_from(
                    s0.state.db(),
                    before.state.trail(),
                    self.state.trail(),
                    s0.state.trail().len() as int,
                );
                self.lemma_decomposed_trans(&before, &s0, w);
            }
        }
    }

    /// Two rounds of pure literals are one.
    #[verifier::spinoff_prover]
    proof fn lemma_decomposed_trans(&self, b: &Self, o: &Self, w: Set<int>)
        requires
            o.store.comps() == b.store.comps(),
            b.decomposed(o, w, o.store.comps().len() as int),
            self.decomposed(b, w, b.store.comps().len() as int),
        ensures
            self.decomposed(o, w, o.store.comps().len() as int),
    {
        let db = o.state.db();
        let n = o.state.trail().len() as int;
        let u = self.state.trail();
        let t = b.state.trail();
        lemma_keeps_models_trans(db, o.state.trail(), t, u);
        lemma_prefix_kept(t, u, n);
        assert forall|j: int| n <= j < u.len() implies w.contains((#[trigger] u[j]).vi()) by {
            if j < t.len() {
                assert(u.take(t.len() as int)[j] == u[j]);
                assert(w.contains(t[j].vi()));
            }
        }
        assert forall|j: int| 0 <= j < n implies self.state.levels()[(#[trigger] o.state.trail()[j]).vi()]
            == o.state.levels()[o.state.trail()[j].vi()] by {
            assert(t.take(n)[j] == t[j]);
            assert(self.state.levels()[t[j].vi()] == b.state.levels()[t[j].vi()]);
        }
    }

    /// The pure literals that an analysis of `w` found may be assigned.
    #[verifier::spinoff_prover]
    proof fn lemma_pure_ready(s: &SearchState, w: Set<int>, comps: Seq<Comp>, l: Lit)
        requires
            s.wf(),
            divides(s, w, comps),
            pure_in(s.db(), s.trail(), comps, l),
        ensures
            l.vi() < s.nv(),
            w.contains(l.vi()),
            !lit_active(s.db(), s.trail(), l.neg()),
            !t_has(s.trail(), l.vi()),
    {
        let j = choose|j: int| 0 <= j < comps.len() && (#[trigger] comps[j]).vars.contains(l.vi() as u32);
        assert(comp_within(s, w, comps[j]));
        lemma_lit_in_range(s, l);
        assert(var_set(comps[j].vars).contains(l.vi()));
        let z = choose|z: int| 0 <= z < comps[j].vars.len() && comps[j].vars[z] == l.vi() as u32;
        assert(!t_has(s.trail(), comps[j].vars[z] as int));
    }
}

/// An active literal is over a variable of the formula.
proof fn lemma_lit_in_range(s: &SearchState, l: Lit)
    requires
        s.wf(),
        lit_active(s.db(), s.trail(), l),
    ensures
        l.vi() < s.nv(),
{
    let c = choose|c: int| 0 <= c < s.db().len() && !t_sat(s.trail(), #[trigger] s.db()[c]) && s.db()[c].contains(l);
    assert(clause_below(s.db()[c], s.nv()));
    let i = choose|i: int| 0 <= i < s.db()[c].len() && s.db()[c][i] == l;
    assert(s.db()[c][i].vi() < s.nv());
}

/// Assigning a pure literal neither conflicts nor queues a clause.
proof fn lemma_pure_quiet(o: &SearchState, s: &SearchState, l: Lit)
    requires
        o.wf(),
        s.wf(),
        s.assigned_from(o, l, NO_REASON),
        !o.conflicting(),
        o.queue().len() == 0,
        !lit_active(o.db(), o.trail(), l.neg()),
    ensures
        !s.conflicting(),
        s.queue().len() == 0,
{
    let t = o.trail();
    let u = s.trail();
    assert(u.take(t.len() as int) =~= t);
    lemma_trail_grows(t, u);
    if s.conflicting() {
        let c = choose|c: int|
            0 <= c < s.db().len() && (#[trigger] s.db()[c]).contains(l.neg()) && t_false(s.trail(), s.db()[c]);
        assert(t_sat(t, o.db()[c]));
        let i = choose|i: int| 0 <= i < o.db()[c].len() && t.contains(#[trigger] o.db()[c][i]);
        assert(u.contains(o.db()[c][i]));
        assert(u.contains(o.db()[c][i].neg()));
        lemma_not_both(s, o.db()[c][i]);
    }
    if s.queue().len() > 0 {
        let c = s.queue()[0] as int;
        assert(s.db()[c].contains(l.neg()));
        assert(!t_sat(u, s.db()[c]));
        assert(t_sat(t, o.db()[c]));
        assert(t_sat(u, o.db()[c]));
    }
}

/// A closed set stays closed as its variables are assigned.
proof fn lemma_closed_later(db: Seq<Seq<Lit>>, t: Seq<Lit>, u: Seq<Lit>, w: Set<int>)
    requires
        closed_under(db, t, w),
        t.len() <= u.len(),
        u.take(t.len() as int) == t,
    ensures
        closed_under(db, u, w),
{
    lemma_trail_grows(t, u);
    assert forall|c: int| 0 <= c < db.len() && !t_sat(u, #[trigger] db[c]) && touches(u, db[c], w) implies inside(
        u,
        db[c],
        w,
    ) by {
        let i = choose|i: int| 0 <= i < db[c].len() && !t_has(u, (#[trigger] db[c][i]).vi()) && w.contains(
            db[c][i].vi(),
        );
        assert(!t_has(t, db[c][i].vi()));
        assert(touches(t, db[c], w));
    }
}

/// Whether bit `i` of a bitset is set.
fn bit_set(w: &[u8], i: usize) -> (b: bool)
    requires
        i / 8 < w@.len(),
    ensures
        b == bit(w@, i as int),
{
    (w[i / 8] >> ((i % 8) as u8)) & 1 == 1
}

/// The values of the listed variables as a bitset.
fn pack_bits(model: &Vec<bool>, vars: &[u32]) -> (w: Vec<u8>)
    requires
        forall|k: int| 0 <= k < vars@.len() ==> #[trigger] vars@[k] < model@.len(),
    ensures
        w@.len() == (vars@.len() + 7) / 8,
        forall|i: int| 0 <= i < vars@.len() ==> #[trigger] bit(w@, i) == model@[vars@[i] as int],
{
    let n: usize = vars.len();
    let bytes: usize = n / 8 + if n % 8 == 0 {
        0
    } else {
        1
    };
    let mut w: Vec<u8> = vec![0; bytes];
    proof {
        assert forall|i: int| 0 <= i < 8 * bytes implies !#[trigger] bit(w@, i) by {
            let k = (i % 8) as u8;
            assert((0u8 >> k) & 1 == 0) by (bit_vector);
        }
    }
    for i in 0..n
        invariant
            n == vars@.len(),
            bytes == (n + 7) / 8,
            w@.len() == bytes,
            forall|k: int| 0 <= k < vars@.len() ==> #[trigger] vars@[k] < model@.len(),
            forall|k: int| 0 <= k < i ==> #[trigger] bit(w@, k) == model@[vars@[k] as int],
            forall|k: int| i <= k < 8 * bytes ==> !#[trigger] bit(w@, k),
    {
        let ghost before = w@;
        assert(!bit(before, i as int));
        assert(vars@[i as int] < model@.len());
        if model[vars[i] as usize] {
            let j: u8 = (i % 8) as u8;
            w[i / 8] = w[i / 8] | (1u8 << j);
            proof {
                assert forall|k: int| 0 <= k < 8 * bytes implies #[trigger] bit(w@, k) == (if k == i {
                    true
                } else {
                    bit(before, k)
                }) by {
                    if k / 8 == i as int / 8 {
                        lemma_set_bit(before[i as int / 8], j, (k % 8) as u8);
                    }
                }
            }
        }
    }
    w
}

/// A bitset read back gives the values it was packed from.
proof fn lemma_packed_valuation(vars: Seq<u32>, w: Seq<u8>, model: Seq<bool>)
    requires
        ascending32(vars),
        forall|k: int| 0 <= k < vars.len() ==> #[trigger] vars[k] < model.len(),
        forall|i: int| 0 <= i < vars.len() ==> #[trigger] bit(w, i) == model[vars[i] as int],
    ensures
        forall|v: int|
            0 <= v <= u32::MAX && #[trigger] vars.contains(v as u32) ==> witness_valuation(vars, w)(v)
                == valuation(model)(v),
{
    assert forall|v: int| 0 <= v <= u32::MAX && #[trigger] vars.contains(v as u32) implies witness_valuation(
        vars,
        w,
    )(v) == valuation(model)(v) by {
        let k = choose|k: int| 0 <= k < vars.len() && vars[k] == v as u32;
        assert(bit(w, k) == model[vars[k] as int]);
        if witness_valuation(vars, w)(v) {
            let i = choose|i: int| 0 <= i < vars.len() && #[trigger] vars[i] == v && bit(w, i);
            assert(i == k) by {
                if i < k {
                    assert(vars[i] < vars[k]);
                } else if k < i {
                    assert(vars[k] < vars[i]);
                }
            }
        } else {
            assert(vars[k] == v);
        }
    }
}

impl<'a, P: BucketPolicy> Searcher<'a, P> {
    /// The search was told to stop before, or has visited more nodes than the limit allows.
    spec fn must_stop(&self) -> bool {
        self.aborted || (self.config.max_nodes is Some && self.counters.nodes > self.config.max_nodes->0)
    }

    /// There is a time limit, and this is a visit at which to look at the clock.
    spec fn clock_due(&self) -> bool {
        self.config.timeout is Some && self.counters.nodes % CLOCK_CHECK_INTERVAL == 0
    }

    /// Whether to stop if that much time has passed.
    spec fn stops_after(&self, elapsed: u128) -> bool {
        self.must_stop() || (self.clock_due() && elapsed >= self.config.timeout->0)
    }

    /// Everything but the order to stop is as in `o`.
    spec fn same_but_order(&self, o: &Self) -> bool {
        &&& self.same_rest(o)
        &&& self.state == o.state
        &&& self.pending == o.pending
        &&& self.counters == o.counters
    }

    /// Whether a node limit has been reached or, where the clock is due, a time limit: `late` tells
    /// what the clock said. Once it has, the search stays stopped.
    fn stop_if(&mut self, late: bool) -> (b: bool)
        requires
            old(self).aborted ==> old(self).limited(),
            old(self).counters.nodes > 0,
        ensures
            b == (old(self).must_stop() || (old(self).clock_due() && late)),
            final(self).aborted == b,
            b && !old(self).aborted ==> final(self).excused(),
            final(self).same_but_order(old(self)),
    {
        if self.aborted {
            return true;
        }
        match self.config.max_nodes {
            Some(limit) => {
                if self.counters.nodes > limit {
                    self.aborted = true;
                    return true;
                }
            },
            None => {},
        }
        if late && self.config.timeout.is_some() && self.counters.nodes % CLOCK_CHECK_INTERVAL == 0 {
            self.aborted = true;
            return true;
        }
        false
    }

    /// Whether a node or time limit has been reached.
    ///
    /// The clock is read only where it is due; how much time has passed is its word.
    fn should_abort(&mut self) -> (b: bool)
        requires
            old(self).aborted ==> old(self).limited(),
            old(self).counters.nodes > 0,
        ensures
            exists|elapsed: u128| b == #[trigger] old(self).stops_after(elapsed),
            final(self).aborted == b,
            b && !old(self).aborted ==> final(self).excused(),
            final(self).same_but_order(old(self)),
    {
        let ghost s0 = *self;
        let mut elapsed: u128 = 0;
        let late = match self.config.timeout {
            Some(limit) => {
                if self.counters.nodes % CLOCK_CHECK_INTERVAL == 0 {
                    elapsed = clock::since(&self.started);
                }
                clock::late(elapsed, limit)
            },
            None => false,
        };
        let b = self.stop_if(late);
        assert(b == s0.stops_after(elapsed));
        b
    }

    /// Reads a solved component's assignment out of the search state and into the model.
    ///
    /// Variables left unassigned are either free (every clause holding them is satisfied, so any
    /// value works) or were filled in by a memo hit deeper down. Either way the value already in
    /// `model` is correct, which is why this only overwrites variables the state has a value for.
    fn capture(&mut self, comp: ComponentRef)
        requires
            old(self).valid(),
            comp.at() < old(self).store.comps().len(),
            forall|k: int|
                0 <= k < old(self).store.comps()[comp.at()].vars.len()
                    ==> #[trigger] old(self).store.comps()[comp.at()].vars[k] < old(self).state.nv(),
        ensures
            final(self).counters == old(self).counters,
            final(self).valid(),
            final(self).state == old(self).state,
            final(self).store == old(self).store,
            final(self).cache == old(self).cache,
            final(self).config == old(self).config,
            final(self).started == old(self).started,
            final(self).pending == old(self).pending,
            final(self).aborted == old(self).aborted,
            same_outside(old(self).model@, final(self).model@, old(self).store.comps()[comp.at()].vars),
            forall|v: int|
                0 <= v < old(self).state.nv() && old(self).store.comps()[comp.at()].vars.contains(v as u32)
                    ==> #[trigger] final(self).model@[v] == (match old(self).state.vals()[v] {
                    Some(b) => b,
                    None => old(self).model@[v],
                }),
    {
        let ghost s0 = *self;
        let ghost vars = self.store.comps()[comp.at()].vars;
        let count: usize = self.store.vars(comp).len();
        for i in 0..count
            invariant
                s0.valid(),
                count == vars.len(),
                vars == s0.store.comps()[comp.at()].vars,
                comp.at() < s0.store.comps().len(),
                forall|k: int| 0 <= k < vars.len() ==> #[trigger] vars[k] < s0.state.nv(),
                self.state == s0.state,
                self.store == s0.store,
                self.cache == s0.cache,
                self.config == s0.config,
                self.started == s0.started,
                self.aborted == s0.aborted,
                self.counters == s0.counters,
                self.pending == s0.pending,
                self.analyzer == s0.analyzer,
                self.decider == s0.decider,
                self.root_unsat == s0.root_unsat,
                self.model@.len() == s0.model@.len(),
                forall|v: int|
                    0 <= v < s0.state.nv() ==> #[trigger] self.model@[v] == (if vars.take(i as int).contains(
                        v as u32,
                    ) {
                        match s0.state.vals()[v] {
                            Some(b) => b,
                            None => s0.model@[v],
                        }
                    } else {
                        s0.model@[v]
                    }),
        {
            let v: usize = self.store.vars(comp)[i] as usize;
            let ghost before = self.model@;
            proof {
                assert(vars[i as int] < s0.state.nv());
                assert(vars.take(i + 1) =~= vars.take(i as int).push(vars[i as int]));
                lemma_push_contains(vars.take(i as int), vars[i as int]);
            }
            match self.state.value_of_index(v) {
                Some(b) => {
                    self.model[v] = b;
                },
                None => {},
            }
            proof {
                assert forall|x: int| 0 <= x < s0.state.nv() implies #[trigger] self.model@[x] == (if vars.take(
                    i + 1,
                ).contains(x as u32) {
                    match s0.state.vals()[x] {
                        Some(b) => b,
                        None => s0.model@[x],
                    }
                } else {
                    s0.model@[x]
                }) by {
                    assert(before[x] == (if vars.take(i as int).contains(x as u32) {
                        match s0.state.vals()[x] {
                            Some(b) => b,
                            None => s0.model@[x],
                        }
                    } else {
                        s0.model@[x]
                    }));
                }
            }
        }
        assert(vars.take(vars.len() as int) =~= vars);
    }

    /// Writes a memo hit's stored witness into the model.
    fn apply_witness(&mut self, comp: ComponentRef, node: NodeId)
        requires
            old(self).valid(),
            comp.at() < old(self).store.comps().len(),
            forall|k: int|
                0 <= k < old(self).store.comps()[comp.at()].vars.len()
                    ==> #[trigger] old(self).store.comps()[comp.at()].vars[k] < old(self).state.nv(),
            ascending32(old(self).store.comps()[comp.at()].vars),
            old(self).cache.has(node),
            old(self).cache.key_of(node).1 == key_bytes(
                old(self).store.comps()[comp.at()].vars,
                old(self).store.comps()[comp.at()].clauses,
            ),
            old(self).cache@[old(self).cache.key_of(node)].verdict == Verdict::Sat,
        ensures
            final(self).counters == old(self).counters,
            final(self).valid(),
            final(self).state == old(self).state,
            final(self).store == old(self).store,
            final(self).cache == old(self).cache,
            final(self).config == old(self).config,
            final(self).started == old(self).started,
            final(self).pending == old(self).pending,
            final(self).aborted == old(self).aborted,
            same_outside(old(self).model@, final(self).model@, old(self).store.comps()[comp.at()].vars),
            forall|v: int|
                0 <= v <= u32::MAX && #[trigger] old(self).store.comps()[comp.at()].vars.contains(v as u32)
                    ==> valuation(final(self).model@)(v) == witness_valuation(
                    old(self).store.comps()[comp.at()].vars,
                    old(self).cache@[old(self).cache.key_of(node)].witness,
                )(v),
    {
        let ghost s0 = *self;
        let ghost comp_at = self.store.comps()[comp.at()];
        let ghost vars = comp_at.vars;
        let ghost w = self.cache@[self.cache.key_of(node)].witness;
        let count: usize = self.store.vars(comp).len();
        proof {
            lemma_ascending_len(vars, s0.state.nv());
            lemma_witness_len(comp_at);
        }
        for i in 0..count
            invariant
                s0.valid(),
                count == vars.len(),
                comp_at == s0.store.comps()[comp.at()],
                vars == comp_at.vars,
                comp.at() < s0.store.comps().len(),
                forall|k: int| 0 <= k < vars.len() ==> #[trigger] vars[k] < s0.state.nv(),
                ascending32(vars),
                s0.cache.has(node),
                s0.cache.key_of(node).1 == key_bytes(vars, comp_at.clauses),
                s0.cache@[s0.cache.key_of(node)].verdict == Verdict::Sat,
                w == s0.cache@[s0.cache.key_of(node)].witness,
                witness_len(key_bytes(vars, comp_at.clauses)) == (vars.len() + 7) / 8,
                self.state == s0.state,
                self.store == s0.store,
                self.cache == s0.cache,
                self.config == s0.config,
                self.started == s0.started,
                self.aborted == s0.aborted,
                self.counters == s0.counters,
                self.pending == s0.pending,
                self.analyzer == s0.analyzer,
                self.decider == s0.decider,
                self.root_unsat == s0.root_unsat,
                same_outside(s0.model@, self.model@, vars),
                forall|k: int| 0 <= k < i ==> bit(w, k) == self.model@[#[trigger] vars[k] as int],
        {
            let v: usize = self.store.vars(comp)[i] as usize;
            let ghost before = self.model@;
            assert(vars[i as int] < s0.state.nv());
            assert(vars.contains(vars[i as int]));
            let value = bit_set(self.cache.witness(node), i);
            self.model[v] = value;
            proof {
                assert forall|k: int| 0 <= k < i + 1 implies bit(w, k) == self.model@[#[trigger] vars[k] as int] by {
                    if k < i {
                        assert(vars[k] < vars[i as int]);
                        assert(bit(w, k) == before[vars[k] as int]);
                    }
                }
            }
        }
        proof {
            assert forall|i: int| 0 <= i < vars.len() implies #[trigger] bit(w, i) == self.model@[vars[i] as int] by {
                assert(vars[i] < s0.state.nv());
            }
            lemma_packed_valuation(vars, w, self.model@);
        }
    }

    /// Records a verdict in the memo, if the memo is in use and the entry fits.
    fn remember(&mut self, comp: ComponentRef, hash: u64, verdict: Verdict, witness: &[u8])
        requires
            old(self).valid(),
            comp.at() < old(self).store.comps().len(),
            ascending32(old(self).store.comps()[comp.at()].vars),
            ascending32(old(self).store.comps()[comp.at()].clauses),
            witness@.len() == witness_bytes(old(self).store.comps()[comp.at()], answer_of_verdict(verdict)),
            hash == memo_key(old(self).store.comps()[comp.at()]).0,
            old(self).store.comps()[comp.at()].vars.len() <= u32::MAX,
            old(self).config.cache ==> !old(self).cache@.contains_key(
                (
                    hash,
                    key_bytes(
                        old(self).store.comps()[comp.at()].vars,
                        old(self).store.comps()[comp.at()].clauses,
                    ),
                ),
            ),
            entry_true(
                old(self).state.db(),
                old(self).store.comps()[comp.at()],
                (CacheEntry {
                    verdict,
                    witness: if verdict == Verdict::Sat {
                        witness@
                    } else {
                        Seq::empty()
                    },
                    activity: 1,
                }),
            ),
        ensures
            final(self).counters == old(self).counters,
            final(self).valid(),
            final(self).state == old(self).state,
            final(self).store == old(self).store,
            final(self).config == old(self).config,
            final(self).started == old(self).started,
            final(self).pending == old(self).pending,
            final(self).model == old(self).model,
            new_keys_within(
                old(self).cache@,
                final(self).cache@,
                var_set(old(self).store.comps()[comp.at()].vars),
            ),
            remembered_with(
                *old(self).config,
                old(self).store.comps()[comp.at()],
                answer_of_verdict(verdict),
                witness@,
                old(self).cache.memo(),
                final(self).cache.memo(),
            ),
            !old(self).config.cache ==> final(self).cache == old(self).cache,
            final(self).cache.counters().lookups == old(self).cache.counters().lookups,
            final(self).cache.counters().hits == old(self).cache.counters().hits,
            final(self).aborted == old(self).aborted,
            final(self).analyzer == old(self).analyzer,
            final(self).decider == old(self).decider,
            final(self).root_unsat == old(self).root_unsat,
    {
        let ghost s0 = *self;
        let ghost c = self.store.comps()[comp.at()];
        let ghost key = key_bytes(c.vars, c.clauses);
        proof {
            lemma_witness_len(c);
        }
        proof {
            reveal(remembered_with);
        }
        if self.config.cache {
            let k = self.store.key(comp);
            if self.cache.has_room(k.len(), witness.len()) {
                self.cache.insert(hash, k, verdict, witness);
                proof {
                    let base = if s0.cache.memo().must_sweep() {
                        decayed(s0.cache@)
                    } else {
                        s0.cache@
                    };
                    lemma_memo_decayed(s0.state.db(), s0.cache@);
                    let e = new_entry(verdict, key, witness@);
                    if verdict == Verdict::Sat {
                        assert(witness@.take(witness@.len() as int) =~= witness@);
                    }
                    lemma_memo_insert(s0.state.db(), base, hash, c, e);
                    assert forall|q: (u64, Seq<u8>)| #[trigger]
                        self.cache@.contains_key(q) && !s0.cache@.contains_key(q) implies names_within(
                        q.1,
                        var_set(c.vars),
                    ) by {
                        assert(q == (hash, key));
                    }
                }
            }
        }
    }
}

/// No active literal is pure.
spec fn no_pure(db: Seq<Seq<Lit>>, t: Seq<Lit>) -> bool {
    forall|l: Lit| #[trigger] lit_active(db, t, l) ==> lit_active(db, t, l.neg())
}

/// With nothing obvious and nothing assigned, there is no pure literal.
proof fn lemma_no_pure(f: Seq<Seq<Lit>>)
    requires
        nothing_obvious(f),
    ensures
        no_pure(f, Seq::<Lit>::empty()),
{
    let t = Seq::<Lit>::empty();
    assert forall|l: Lit| #[trigger] lit_active(f, t, l) implies lit_active(f, t, l.neg()) by {
        assert(occurs_in(f, l));
        let c = choose|c: int| 0 <= c < f.len() && (#[trigger] f[c]).contains(l.neg());
        assert(!t_sat(t, f[c]));
    }
}

/// With nothing obvious, propagation from nothing assigned finds nothing.
proof fn lemma_nothing_forced(s: &SearchState)
    requires
        s.wf(),
        nothing_obvious(s.db()),
        forall|i: int| 0 <= i < s.trail().len() ==> s.reasons()[(#[trigger] s.trail()[i]).vi()] != NO_REASON,
    ensures
        s.trail().len() == 0,
        !s.conflicting(),
{
    if s.trail().len() > 0 {
        let l = s.trail()[0];
        assert(s.reason_ok(l, 0));
        let c = s.db()[s.reasons()[l.vi()] as int];
        let p = choose|p: int|
            0 <= p < c.len() && #[trigger] c[p] == l && forall|q: int|
                0 <= q < c.len() && q != p ==> s.trail().take(0).contains((#[trigger] c[q]).neg());
        let q: int = if p == 0 {
            1
        } else {
            0
        };
        assert(s.trail().take(0).contains(c[q].neg()));
    }
    if s.conflicting() {
        let c = s.db()[s.conflict_at()];
        assert(s.trail().contains(c[0].neg()));
    }
}

/// With nothing obvious and nothing assigned, there is a component.
proof fn lemma_something_left(s: &SearchState, w: Set<int>, comps: Seq<Comp>)
    requires
        s.wf(),
        nothing_obvious(s.db()),
        s.trail().len() == 0,
        divides(s, w, comps),
        forall|v: int| 0 <= v < s.nv() ==> #[trigger] w.contains(v),
    ensures
        comps.len() > 0,
{
    let c = s.db()[0];
    assert(c.len() >= 2);
    assert(clause_below(c, s.nv()));
    assert(w.contains(c[0].vi()));
    assert(touches(s.trail(), c, w));
    assert(!t_sat(s.trail(), s.db()[0]));
    assert(claimed(comps, 0));
}

/// The variables of `w` that the trail leaves open.
pub open spec fn open_in(t: Seq<Lit>, w: Set<int>) -> Set<int> {
    Set::new(|v: int| w.contains(v) && !t_has(t, v))
}

impl<'a, P: BucketPolicy> Searcher<'a, P> {
    /// Back where `o` was, with the invariant kept, the store as it was, and no conflict.
    spec fn returned(&self, o: &Self, fs: Seq<Frame>) -> bool {
        &&& self.inv(fs)
        &&& self.config == o.config
        &&& self.started == o.started
        &&& !o.config.cache ==> self.cache == o.cache
        &&& back_at(&o.state, &self.state)
        &&& self.state.queue().len() == 0
        &&& !self.state.conflicting()
        &&& self.store.comps() == o.store.comps()
    }

    /// What solving component `c` does and says.
    spec fn after_solve(&self, o: &Self, fs: Seq<Frame>, c: Comp, a: Answer) -> bool {
        &&& self.returned(o, fs)
        &&& frame_ok(&self.state, frame_of(o.state.trail(), c))
        &&& new_parts(o.state.db().len() as int, self.state.db(), frame_of(o.state.trail(), c))
        &&& same_outside(o.model@, self.model@, c.vars)
        &&& new_keys_within(o.cache@, self.cache@, var_set(c.vars))
        &&& a == Answer::Sat ==> self.pending@.len() == 0 && solves(
            self.state.db(),
            c,
            valuation(self.model@),
        )
        &&& a == Answer::Unsat ==> forall|m: Valuation| !#[trigger] solves(self.state.db(), c, m)
        &&& a == Answer::Aborted && !o.aborted ==> self.excused()
        &&& self.aborted == (a == Answer::Aborted)
        &&& self.jumped(o, a)
    }

    /// A backjump goes to a level that is open, and comes with a learned clause.
    spec fn jumped(&self, o: &Self, a: Answer) -> bool {
        a matches Answer::Backjump(target) ==> target <= o.state.lims().len()
            && self.state.learned_size() > o.state.learned_size() && o.state.learned_size()
            < o.config.max_learned_literals
    }

    /// The component can be solved now: it is one of the residual formula, its variables belong to
    /// every frame, and nothing is waiting.
    spec fn solvable(&self, fs: Seq<Frame>, c: Comp) -> bool {
        &&& self.inv(fs)
        &&& self.idle()
        &&& comp_shape(self.state.db(), self.state.trail(), self.state.nv(), c)
        &&& forall|i: int| 0 <= i < fs.len() ==> var_set(c.vars).subset_of((#[trigger] fs[i]).vars)
    }

    /// What solving the components from `start` on does and says.
    spec fn after_all(&self, o: &Self, fs: Seq<Frame>, w: Set<int>, start: int, a: Answer) -> bool {
        &&& self.returned(o, fs)
        &&& forall|i: int|
            0 <= i < fs.len() ==> new_parts(o.state.db().len() as int, self.state.db(), #[trigger] fs[i])
        &&& self.model@.len() == o.model@.len()
        &&& forall|v: int|
            0 <= v < o.model@.len() && !open_in(o.state.trail(), w).contains(v) ==> #[trigger] self.model@[v]
                == o.model@[v]
        &&& new_keys_within(o.cache@, self.cache@, open_in(o.state.trail(), w))
        &&& a == Answer::Sat ==> self.pending@.len() == 0 && forall|k: int|
            start <= k < o.store.comps().len() ==> solves(
                self.state.db(),
                #[trigger] o.store.comps()[k],
                valuation(self.model@),
            )
        &&& a == Answer::Unsat ==> forall|i: int|
            0 <= i < fs.len() ==> refuted(self.state.db(), o.state.trail(), (#[trigger] fs[i]).clauses)
        &&& a == Answer::Aborted && !o.aborted ==> self.excused()
        &&& self.aborted == (a == Answer::Aborted || o.aborted)
        &&& self.jumped(o, a)
    }

    /// Some visits tell what happened to the components from `start` on since `o`.
    spec fn told_all(&self, o: &Self, start: int, depth: u64, n: int, a: Answer) -> bool {
        visits_told(
            *o.config,
            o.state,
            o.store.comps().skip(start),
            depth,
            o.ledger(),
            n,
            a,
            self.state.db(),
            self.ledger(),
        )
    }

    /// Visits, to all of the components or up to one that did not come out satisfied, tell what
    /// happened to them since `o`.
    #[verifier::opaque]
    spec fn told_some(&self, o: &Self, start: int, depth: u64, a: Answer) -> bool {
        exists|n: int|
            (n == o.store.comps().len() - start || a != Answer::Sat) && #[trigger] self.told_all(
                o,
                start,
                depth,
                n,
                a,
            )
    }

    /// Some visit tells what happened to component `c` since `o`.
    spec fn told_visit(&self, o: &Self, c: Comp, depth: u64, a: Answer) -> bool {
        visit_told(*o.config, o.state, c, depth, o.ledger(), a, self.state.db(), self.ledger())
    }

    /// The ledger `e`, but for an answer to component `c` that was put into the memo where a branch
    /// satisfied it.
    spec fn closes(&self, e: Ledger, c: Comp, b: Branch) -> bool {
        &&& self.ledger().counters == e.counters
        &&& self.pending@ == e.pending
        &&& if b == Branch::Sat {
            remembered(*self.config, c, Answer::Sat, e.memo, self.cache.memo())
        } else {
            self.cache.memo() == e.memo
        }
    }

    /// Some rounds tell what happened in a branch since `o`.
    #[verifier::opaque]
    spec fn told_rounds(&self, o: &Self, st: Stage, c: Comp, depth: u64, b: Branch) -> bool {
        exists|e: Ledger|
            #![trigger self.closes(e, c, b)]
            self.closes(e, c, b) && rounds_told(
                *o.config,
                st,
                depth,
                o.ledger(),
                answer_of_branch(b),
                self.state.db(),
                e,
            )
    }

    /// Some rounds tell what came of trying a literal since `o`.
    #[verifier::opaque]
    spec fn told_try(&self, o: &Self, c: Comp, lit: Lit, depth: u64, b: Branch) -> bool {
        exists|e: Ledger|
            #![trigger self.closes(e, c, b)]
            self.closes(e, c, b) && try_told(
                *o.config,
                o.try_stage(c, lit),
                depth,
                o.ledger(),
                answer_of_branch(b),
                self.state.db(),
                e,
            )
    }

    /// The memo knows the answer to component `c`, or has no room for it.
    #[verifier::opaque]
    spec fn remembers(&self, c: Comp, a: Answer) -> bool {
        self.config.cache && (a == Answer::Sat || a == Answer::Unsat) ==> {
            ||| !self.cache.fits(memo_key(c).1.len(), witness_bytes(c, a))
            ||| self.cache@.contains_key(memo_key(c)) && self.cache@[memo_key(c)].verdict == verdict_of(a)
        }
    }

    /// Remembering an answer does what it says.
    proof fn lemma_remembers(&self, o: &Self, c: Comp, a: Answer)
        requires
            remembered(*self.config, c, a, o.cache.memo(), self.cache.memo()),
        ensures
            self.remembers(c, a),
    {
        reveal(remembered_with);
        reveal(remembered);
        reveal(Searcher::remembers);
    }

    /// What the memo knows does not depend on the rest of the search.
    proof fn lemma_remembers_same(&self, o: &Self, c: Comp, a: Answer)
        requires
            self.config == o.config,
            self.cache == o.cache,
        ensures
            o.remembers(c, a) ==> self.remembers(c, a),
            a != Answer::Sat && a != Answer::Unsat ==> self.remembers(c, a),
    {
        reveal(Searcher::remembers);
    }

    /// The rounds of a branch, and what was remembered after them.
    proof fn lemma_told_rounds(&self, o: &Self, st: Stage, c: Comp, depth: u64, b: Branch, e: Ledger)
        requires
            self.ledger().counters == e.counters,
            self.pending@ == e.pending,
            b == Branch::Sat ==> remembered(*self.config, c, Answer::Sat, e.memo, self.cache.memo()),
            b != Branch::Sat ==> self.cache.memo() == e.memo,
            rounds_told(*o.config, st, depth, o.ledger(), answer_of_branch(b), self.state.db(), e),
        ensures
            self.told_rounds(o, st, c, depth, b),
    {
        reveal(Searcher::told_rounds);
        assert(self.closes(e, c, b));
    }

    /// A try is a decision and the branch that follows it: from `o` by way of `m` to `n`, and with its
    /// level closed again.
    proof fn lemma_tried(&self, o: &Self, m: &Self, n: &Self, c: Comp, lit: Lit, depth: u64, b: Branch)
        requires
            n.told_rounds(m, m.branch_stage(c), c, depth, b),
            m.branch_stage(c) == o.try_stage(c, lit),
            counted(o.ledger(), m.ledger(), one_decision()),
            m.config == o.config,
            self.config == n.config,
            self.cache == n.cache,
            self.ledger() == n.ledger(),
            self.state.db() == n.state.db(),
        ensures
            self.told_try(o, c, lit, depth, b),
    {
        reveal(Searcher::told_rounds);
        reveal(Searcher::told_try);
        let st = m.branch_stage(c);
        let e = choose|e: Ledger|
            #![trigger n.closes(e, c, b)]
            n.closes(e, c, b) && rounds_told(
                *m.config,
                st,
                depth,
                m.ledger(),
                answer_of_branch(b),
                n.state.db(),
                e,
            );
        lemma_told_try(
            *o.config,
            st,
            depth,
            o.ledger(),
            m.ledger(),
            answer_of_branch(b),
            n.state.db(),
            e,
        );
        assert(self.closes(e, c, b));
    }

    /// A visit that the first try settled.
    proof fn lemma_first(&self, s0: &Self, o: &Self, c: Comp, depth: u64, lit: Lit, b: Branch)
        requires
            self.told_try(s0, c, lit, depth, b),
            b != Branch::Failed,
            undecided(*s0.config, s0.state, c, depth, o.ledger(), lit, s0.ledger()),
            o.state == s0.state,
            o.config == s0.config,
            self.config == s0.config,
        ensures
            self.told_visit(o, c, depth, answer_of_branch(b)),
    {
        reveal(Searcher::told_try);
        let st = s0.try_stage(c, lit);
        let a = answer_of_branch(b);
        let e = choose|e: Ledger|
            #![trigger self.closes(e, c, b)]
            self.closes(e, c, b) && try_told(*s0.config, st, depth, s0.ledger(), a, self.state.db(), e);
        if b != Branch::Sat {
            lemma_nothing_remembered(*s0.config, c, a, e.memo);
        }
        lemma_told_once(
            *s0.config,
            s0.state,
            c,
            depth,
            o.ledger(),
            s0.ledger(),
            lit,
            a,
            self.state.db(),
            e,
            self.ledger(),
        );
    }

    /// A visit that took two tries, up to `s1` and up to `s2`; a refutation is remembered after them.
    proof fn lemma_second(
        &self,
        s0: &Self,
        s1: &Self,
        s2: &Self,
        o: &Self,
        c: Comp,
        depth: u64,
        lit: Lit,
        b: Branch,
    )
        requires
            s1.told_try(s0, c, lit, depth, Branch::Failed),
            s2.told_try(s1, c, lit.neg(), depth, b),
            undecided(*s0.config, s0.state, c, depth, o.ledger(), lit, s0.ledger()),
            o.state == s0.state,
            o.config == s0.config,
            s1.config == s0.config,
            s2.config == s0.config,
            self.config == s0.config,
            s1.state.trail() == s0.state.trail(),
            s1.state.lims() == s0.state.lims(),
            s1.state.vals() == s0.state.vals(),
            self.state == s2.state,
            self.counters == s2.counters,
            self.pending == s2.pending,
            b == Branch::Failed ==> remembered(
                *s0.config,
                c,
                Answer::Unsat,
                s2.cache.memo(),
                self.cache.memo(),
            ),
            b != Branch::Failed ==> self.cache == s2.cache,
        ensures
            self.told_visit(o, c, depth, answer_of_branch(b)),
    {
        reveal(Searcher::told_try);
        let st = s0.try_stage(c, lit);
        let e1 = choose|e: Ledger|
            #![trigger s1.closes(e, c, Branch::Failed)]
            s1.closes(e, c, Branch::Failed) && try_told(
                *s0.config,
                st,
                depth,
                s0.ledger(),
                Answer::Unsat,
                s1.state.db(),
                e,
            );
        assert(e1 == s1.ledger());
        let st2 = s1.try_stage(c, lit.neg());
        let a = answer_of_branch(b);
        let e2 = choose|e: Ledger|
            #![trigger s2.closes(e, c, b)]
            s2.closes(e, c, b) && try_told(*s1.config, st2, depth, s1.ledger(), a, s2.state.db(), e);
        if b != Branch::Sat && b != Branch::Failed {
            lemma_nothing_remembered(*s0.config, c, a, e2.memo);
        }
        lemma_told_twice(
            *s0.config,
            s0.state,
            c,
            depth,
            o.ledger(),
            s0.ledger(),
            lit,
            s1.state.db(),
            s1.ledger(),
            a,
            s2.state.db(),
            e2,
            self.ledger(),
        );
    }

    /// Where a branch begins.
    spec fn branch_stage(&self, c: Comp) -> Stage {
        Stage {
            trail: self.state.trail(),
            lims: self.state.lims(),
            scope: c.vars,
            db: self.state.db(),
            memo: self.cache.memo(),
            queue: self.state.queue() + self.pending@,
        }
    }

    /// Where trying a literal begins.
    spec fn try_stage(&self, c: Comp, lit: Lit) -> Stage {
        try_stage(
            self.state.trail(),
            self.state.vals(),
            self.state.lims(),
            self.state.db(),
            self.cache.memo(),
            self.pending@,
            c,
            lit,
        )
    }

    /// Solves the components from `start` on, one after the other, until one does not come out
    /// satisfied.
    #[verifier::spinoff_prover]
    #[verifier::rlimit(100)]
    fn solve_all(
        &mut self,
        start: usize,
        depth: u64,
        Ghost(fs): Ghost<Seq<Frame>>,
        Ghost(w): Ghost<Set<int>>,
    ) -> (a: Answer)
        requires
            old(self).inv(fs),
            old(self).idle(),
            1 <= depth <= old(self).counters.nodes + 1,
            start <= old(self).store.comps().len(),
            divides(&old(self).state, w, old(self).store.comps().skip(start as int)),
            forall|i: int| 0 <= i < fs.len() ==> w.subset_of((#[trigger] fs[i]).vars),
        ensures
            final(self).after_all(old(self), fs, w, start as int, a),
            !old(self).aborted ==> paced(
                old(self).pace(),
                final(self).pace(),
                old(self).store.comps().len() - start,
                0,
                0,
            ),
            final(self).told_some(old(self), start as int, depth, a),
            start < old(self).store.comps().len() ==> final(self).counters.nodes > 0,
            start == old(self).store.comps().len() ==> final(self).counters == old(self).counters && a == Answer::Sat,
        decreases old(self).budget(), old(self).open_vars(), 3int,
    {
        let ghost s0 = *self;
        let ghost comps = self.store.comps();
        let ghost t = self.state.trail();
        let ghost wo = open_in(t, w);
        let end: usize = self.store.len();
        let mut index: usize = start;
        proof {
            lemma_paced_refl(s0.pace());
            assert(s0.pending@ =~= Seq::<u32>::empty());
            lemma_told_no_visits(*s0.config, s0.state, comps.skip(start as int), depth, s0.ledger());
            s0.lemma_inv(fs);
            assert(s0.state.db().take(s0.state.db().len() as int) =~= s0.state.db());
            assert forall|k: int| start <= k < comps.len() implies comp_within(&s0.state, w, #[trigger] comps[k]) by {
                assert(comps.skip(start as int)[k - start] == comps[k]);
            }
            assert forall|i: int, j: int| start <= i < j < comps.len() implies apart(
                #[trigger] comps[i],
                #[trigger] comps[j],
            ) by {
                assert(comps.skip(start as int)[i - start] == comps[i]);
                assert(comps.skip(start as int)[j - start] == comps[j]);
            }
        }
        while index < end
            invariant
                s0 == *old(self),
                s0.inv(fs),
                comps == s0.store.comps(),
                t == s0.state.trail(),
                wo == open_in(t, w),
                end == comps.len(),
                start <= index <= end,
                self.returned(&s0, fs),
                self.idle(),
                forall|i: int| 0 <= i < fs.len() ==> w.subset_of((#[trigger] fs[i]).vars),
                forall|i: int|
                    0 <= i < fs.len() ==> new_parts(
                        s0.state.db().len() as int,
                        self.state.db(),
                        #[trigger] fs[i],
                    ),
                forall|i: int, j: int|
                    start <= i < j < comps.len() ==> apart(#[trigger] comps[i], #[trigger] comps[j]),
                forall|k: int| index <= k < end ==> comp_within(&self.state, w, #[trigger] comps[k]),
                forall|k: int|
                    start <= k < index ==> solves(
                        self.state.db(),
                        #[trigger] comps[k],
                        valuation(self.model@),
                    ),
                forall|k: int| start <= k < end ==> comp_within(&s0.state, w, #[trigger] comps[k]),
                self.model@.len() == s0.model@.len(),
                forall|v: int|
                    0 <= v < s0.model@.len() && !wo.contains(v) ==> #[trigger] self.model@[v] == s0.model@[v],
                new_keys_within(s0.cache@, self.cache@, wo),
                s0.budget() >= self.budget(),
                s0.open_vars() == self.open_vars(),
                !s0.aborted ==> paced(s0.pace(), self.pace(), index - start, 0, 0),
                1 <= depth <= s0.counters.nodes + 1,
                index > start ==> self.counters.nodes > 0 && !s0.aborted,
                index == start ==> self.counters == s0.counters,
                self.aborted == s0.aborted,
                self.told_all(&s0, start as int, depth, index - start, Answer::Sat),
            decreases end - index,
        {
            let ghost before = *self;
            let ghost c = comps[index as int];
            proof {
                if !s0.aborted {
                    lemma_paced_nodes(s0.pace(), self.pace(), index - start, 0, 0);
                }
                s0.lemma_inv(fs);
                before.lemma_inv(fs);
                assert(comp_within(&self.state, w, comps[index as int]));
                assert forall|i: int| 0 <= i < fs.len() implies var_set(c.vars).subset_of((#[trigger] fs[i]).vars) by {
                    assert(w.subset_of(fs[i].vars));
                }
            }
            let a = self.solve_component(ComponentRef::new(index), depth, Ghost(fs));
            proof {
                if !s0.aborted {
                    lemma_paced_trans(s0.pace(), before.pace(), self.pace(), index - start, 0, 0, 1, 0, 0);
                    lemma_paced_widen(s0.pace(), self.pace(), index - start + 1, 0, 0, end - start, 0, 0);
                }
                assert(comps.skip(start as int)[index - start] == c);
                lemma_told_next_visit(
                    *s0.config,
                    s0.state,
                    comps.skip(start as int),
                    depth,
                    s0.ledger(),
                    index - start,
                    before.ledger(),
                    before.state,
                    a,
                    self.state.db(),
                    self.ledger(),
                );
                assert(self.told_all(&s0, start as int, depth, index - start + 1, a));
                assert(a != Answer::Sat ==> self.told_some(&s0, start as int, depth, a)) by {
                    reveal(Searcher::told_some);
                }
                self.lemma_inv(fs);
                lemma_grown_trans(s0.state.db(), before.state.db(), self.state.db());
                lemma_same_vals(&s0.state, &self.state);
                assert forall|v: int| #[trigger] var_set(c.vars).contains(v) implies wo.contains(v) by {
                    let z = choose|z: int| 0 <= z < c.vars.len() && c.vars[z] == v as u32;
                    assert(!t_has(t, c.vars[z] as int));
                }
                lemma_new_keys_trans(s0.cache@, before.cache@, self.cache@, wo, var_set(c.vars), wo);
                assert forall|i: int| 0 <= i < fs.len() implies new_parts(
                    s0.state.db().len() as int,
                    self.state.db(),
                    #[trigger] fs[i],
                ) by {
                    before.lemma_inv_frame(fs, i);
                    self.lemma_inv_frame(fs, i);
                    lemma_new_parts_step(&before.state, &self.state, s0.state.db().len() as int, fs[i], c);
                }
                assert forall|v: int| 0 <= v < s0.model@.len() && !wo.contains(v) implies #[trigger] self.model@[v]
                    == s0.model@[v] by {
                    if c.vars.contains(v as u32) {
                        assert(var_set(c.vars).contains(v));
                    }
                    assert(before.model@[v] == s0.model@[v]);
                }
                lemma_clauses_in_range(&before.state, c);
            }
            match a {
                Answer::Sat => {
                    proof {
                        assert forall|k: int| index + 1 <= k < end implies comp_within(
                            &self.state,
                            w,
                            #[trigger] comps[k],
                        ) by {
                            assert(comp_within(&before.state, w, comps[k]));
                            assert(apart(comps[index as int], comps[k]));
                            lemma_sibling(&before.state, &self.state, w, c, comps[k]);
                        }
                        assert forall|k: int| start <= k < index + 1 implies solves(
                            self.state.db(),
                            #[trigger] comps[k],
                            valuation(self.model@),
                        ) by {
                            if k < index {
                                assert(comp_within(&s0.state, w, comps[k]));
                                assert(apart(comps[k], comps[index as int]));
                                lemma_clauses_in_range(&s0.state, comps[k]);
                                assert forall|v: int|
                                    0 <= v <= u32::MAX && #[trigger] comps[k].vars.contains(v as u32) implies valuation(
                                    self.model@,
                                )(v) == valuation(before.model@)(v) by {
                                    assert(!c.vars.contains(v as u32));
                                }
                                lemma_still_solves(
                                    before.state.db(),
                                    self.state.db(),
                                    comps[k],
                                    valuation(before.model@),
                                    valuation(self.model@),
                                );
                            }
                        }
                    }
                    index = index + 1;
                },
                Answer::Unsat => {
                    proof {
                        assert forall|m: Valuation| !#[trigger] solves(before.state.db(), c, m) by {
                            lemma_solves_grows(before.state.db(), self.state.db(), c, m);
                            assert(!solves(self.state.db(), c, m));
                        }
                        assert forall|i: int| 0 <= i < fs.len() implies refuted(
                            self.state.db(),
                            t,
                            (#[trigger] fs[i]).clauses,
                        ) by {
                            before.lemma_inv_frame(fs, i);
                            assert(w.subset_of(fs[i].vars));
                            assert(comp_within(&before.state, fs[i].vars, c));
                            lemma_sub_refutes(&before.state, fs[i], c);
                            lemma_refuted_grows(before.state.db(), self.state.db(), t, fs[i].clauses);
                        }
                    }
                    return a;
                },
                _ => {
                    return a;
                },
            }
        }
        proof {
            reveal(Searcher::told_some);
            assert(self.told_all(&s0, start as int, depth, end - start, Answer::Sat));
        }
        Answer::Sat
    }
}

/// Clauses learned within a component take part in every frame that holds its variables.
proof fn lemma_new_parts_step(o: &SearchState, s: &SearchState, n: int, f: Frame, c: Comp)
    requires
        grown(o.db(), s.db()),
        s.trail() == o.trail(),
        0 <= n <= o.db().len(),
        new_parts(n, o.db(), f),
        new_parts(o.db().len() as int, s.db(), frame_of(o.trail(), c)),
        f.base.len() <= s.trail().len(),
        s.trail().take(f.base.len() as int) == f.base,
        var_set(c.vars).subset_of(f.vars),
    ensures
        new_parts(n, s.db(), f),
{
    assert forall|k: int| n <= k < s.db().len() implies takes_part(f, #[trigger] s.db()[k]) by {
        if k < o.db().len() {
            assert(s.db().take(o.db().len() as int)[k] == s.db()[k]);
            assert(takes_part(f, o.db()[k]));
        } else {
            assert(takes_part(frame_of(o.trail(), c), s.db()[k]));
            lemma_takes_part_below(s, f, s.db()[k], var_set(c.vars));
        }
    }
}

/// A component's clauses are in the database.
proof fn lemma_clauses_in_range(s: &SearchState, c: Comp)
    requires
        comp_shape(s.db(), s.trail(), s.nv(), c),
    ensures
        forall|k: int| 0 <= k < c.clauses.len() ==> #[trigger] c.clauses[k] < s.db().len(),
{
    assert forall|k: int| 0 <= k < c.clauses.len() implies #[trigger] c.clauses[k] < s.db().len() by {
        assert(c.clauses.contains(c.clauses[k]));
    }
}

impl<'a, P: BucketPolicy> Searcher<'a, P> {
    /// A branch on `lit` is being explored: the state is at or below the level that was opened for
    /// it on top of the base of the innermost frame, which is that of component `c`.
    spec fn branching(&self, c: Comp, fs: Seq<Frame>, lit: Lit, level: int) -> bool {
        let f = fs.last();
        &&& self.inv(fs)
        &&& fs.len() > 0
        &&& f == frame_of(f.base, c)
        &&& level == self.state.lims().len()
        &&& level > 0
        &&& self.state.lims().last() == f.base.len()
        &&& f.base.len() + 1 <= self.state.trail().len()
        &&& self.state.trail().take(f.base.len() as int + 1) == f.base.push(lit)
        &&& c.vars.contains(lit.vi() as u32)
        &&& 0 <= lit.vi() <= u32::MAX
        &&& ascending32(c.vars)
        &&& ascending32(c.clauses)
        &&& forall|i: int|
            0 <= i < fs.len() ==> (#[trigger] fs[i]).base.len() <= f.base.len() && f.vars.subset_of(
                fs[i].vars,
            )
        &&& forall|k: int|
            0 <= k < c.clauses.len() ==> #[trigger] c.clauses[k] < self.state.db().len() && takes_part(
                f,
                self.state.db()[c.clauses[k] as int],
            )
        &&& forall|k: int|
            0 <= k < self.state.queue().len() ==> #[trigger] self.state.queue()[k] < self.state.db().len()
                && takes_part(f, self.state.db()[self.state.queue()[k] as int])
        &&& refuted(self.state.db(), self.state.trail(), f.clauses) ==> refuted(
            self.state.db(),
            f.base.push(lit),
            f.clauses,
        )
    }

    /// What has changed since the branch was entered in state `o`.
    spec fn since_entry(&self, o: &Self, c: Comp, fs: Seq<Frame>, lit: Lit) -> bool {
        &&& self.since_parts(o, c, fs)
        &&& self.store.comps() == o.store.comps()
    }

    /// What has changed since the branch was entered in state `o`, apart from the store.
    spec fn since_parts(&self, o: &Self, c: Comp, fs: Seq<Frame>) -> bool {
        &&& self.config == o.config
        &&& self.started == o.started
        &&& !o.config.cache ==> self.cache == o.cache
        &&& self.state.nv() == o.state.nv()
        &&& self.state.n_orig() == o.state.n_orig()
        &&& self.state.lims() == o.state.lims()
        &&& grown(o.state.db(), self.state.db())
        &&& self.state.learned_size() >= o.state.learned_size()
        &&& new_parts(o.state.db().len() as int, self.state.db(), fs.last())
        &&& same_outside(o.model@, self.model@, c.vars)
        &&& self.open_vars() <= o.open_vars()
    }

    /// What a branch says when it ends.
    spec fn after_branch(&self, o: &Self, c: Comp, fs: Seq<Frame>, lit: Lit, level: int, b: Branch) -> bool {
        let f = fs.last();
        &&& self.since_entry(o, c, fs, lit)
        &&& self.branching(c, fs, lit, level)
        &&& b == Branch::Failed ==> refuted(self.state.db(), f.base.push(lit), f.clauses)
        &&& b == Branch::Sat ==> self.pending@.len() == 0 && solves(
            self.state.db(),
            c,
            valuation(self.model@),
        ) && new_keys_within(o.cache@, self.cache@, f.vars)
        &&& b != Branch::Sat ==> new_keys_within(o.cache@, self.cache@, f.vars.remove(lit.vi()))
        &&& b == Branch::Aborted ==> self.excused()
        &&& self.aborted == (b == Branch::Aborted)
        &&& b matches Branch::Backjump(target) ==> target < level && self.state.learned_size()
            > o.state.learned_size() && o.state.learned_size() < o.config.max_learned_literals
    }
}

/// Assigning more variables leaves fewer open.
proof fn lemma_fewer_open(a: Seq<Option<bool>>, b: Seq<Option<bool>>)
    requires
        a.len() == b.len(),
        forall|v: int| 0 <= v < a.len() && #[trigger] a[v] is Some ==> b[v] is Some,
    ensures
        cnt(b, None::<bool>) <= cnt(a, None::<bool>),
    decreases a.len(),
{
    if a.len() > 0 {
        let p = a.drop_last();
        let q = b.drop_last();
        assert forall|v: int| 0 <= v < p.len() && #[trigger] p[v] is Some implies q[v] is Some by {
            assert(a[v] is Some);
        }
        lemma_fewer_open(p, q);
        assert(a[a.len() - 1] is Some ==> b[b.len() - 1] is Some);
    }
}

/// When every subproblem of a branch is solved, reading the values of the trail into the model
/// gives an assignment that solves the component.
#[verifier::rlimit(100)]
proof fn lemma_branch_solves(
    s: &SearchState,
    db2: Seq<Seq<Lit>>,
    f: Frame,
    c: Comp,
    comps: Seq<Comp>,
    m1: Seq<bool>,
    m2: Seq<bool>,
)
    requires
        s.wf(),
        s.noted(),
        !s.conflicting(),
        frame_ok(s, f),
        f == frame_of(f.base, c),
        grown(s.db(), db2),
        divides(s, f.vars, comps),
        m1.len() == s.nv(),
        m2.len() == s.nv(),
        forall|k: int|
            0 <= k < c.clauses.len() ==> #[trigger] c.clauses[k] < s.db().len() && takes_part(
                f,
                s.db()[c.clauses[k] as int],
            ),
        forall|k: int| 0 <= k < comps.len() ==> solves(db2, #[trigger] comps[k], valuation(m1)),
        forall|v: int|
            0 <= v < s.nv() && c.vars.contains(v as u32) ==> #[trigger] m2[v] == (match s.vals()[v] {
                Some(b) => b,
                None => m1[v],
            }),
    ensures
        solves(db2, c, valuation(m2)),
{
    let t = s.trail();
    let db = s.db();
    assert forall|k: int| 0 <= k < c.clauses.len() implies resid_clause(
        db2[#[trigger] c.clauses[k] as int],
        c.vars,
        valuation(m2),
    ) by {
        let ci = c.clauses[k] as int;
        let cl = db[ci];
        assert(takes_part(f, db[c.clauses[k] as int]));
        assert(db2.take(db.len() as int)[ci] == db2[ci]);
        assert(db2[ci] == cl);
        assert(clause_below(db[ci], s.nv()));
        assert(inside(f.base, cl, f.vars));
        if t_sat(t, cl) {
            lemma_base(s, f);
            let i = choose|i: int| 0 <= i < cl.len() && t.contains(#[trigger] cl[i]);
            let p = choose|p: int| 0 <= p < t.len() && t[p] == cl[i];
            if p < f.base.len() {
                assert(f.base[p] == t[p]);
                assert(f.base.contains(cl[i]));
                assert(t_sat(f.base, cl));
            }
            assert(f.vars.contains(t[p].vi()));
            assert(s.vals()[t[p].vi()] == Some(t[p].pos()));
            assert(m2[cl[i].vi()] == cl[i].pos());
            assert(lit_true(valuation(m2), cl[i]));
        } else {
            assert(!t_false(t, db[ci]));
            let i = choose|i: int| 0 <= i < cl.len() && !t.contains((#[trigger] cl[i]).neg());
            assert(!t.contains(cl[i]));
            s.lemma_vals_lit(cl[i]);
            assert(!t_has(t, cl[i].vi()));
            lemma_trail_grows(f.base, t);
            assert(!t_has(f.base, cl[i].vi()));
            assert(f.vars.contains(cl[i].vi()));
            assert(touches(t, db[ci], f.vars));
            assert(claimed(comps, ci));
            let j = choose|j: int| 0 <= j < comps.len() && (#[trigger] comps[j]).clauses.contains(ci as u32);
            assert(comp_within(s, f.vars, comps[j]));
            let q = choose|q: int| 0 <= q < comps[j].clauses.len() && comps[j].clauses[q] == ci as u32;
            assert(resid_clause(db2[comps[j].clauses[q] as int], comps[j].vars, valuation(m1)));
            let x = choose|x: int|
                0 <= x < cl.len() && comps[j].vars.contains((#[trigger] cl[x]).vi() as u32) && lit_true(
                    valuation(m1),
                    cl[x],
                );
            let y = choose|y: int| 0 <= y < comps[j].vars.len() && comps[j].vars[y] == cl[x].vi() as u32;
            assert(!t_has(t, comps[j].vars[y] as int));
            assert(var_set(comps[j].vars).contains(cl[x].vi()));
            assert(f.vars.contains(cl[x].vi()));
            s.lemma_vals(cl[x].vi());
            assert(m2[cl[x].vi()] == m1[cl[x].vi()]);
            assert(lit_true(valuation(m2), cl[x]));
        }
    }
}

impl<'a, P: BucketPolicy> Searcher<'a, P> {
    /// Propagation keeps a branch going.
    #[verifier::spinoff_prover]
    #[verifier::rlimit(100)]
    proof fn lemma_branch_propagated(&self, s0: &Self, c: Comp, fs: Seq<Frame>, lit: Lit, level: int)
        requires
            s0.branching(c, fs, lit, level),
            self.valid(),
            self.same_rest(s0),
            self.pending@.len() == 0,
            self.state.queue().len() == 0,
            self.state.propagated_from(&s0.state),
            closed_under(s0.state.db(), s0.state.trail(), fs.last().vars) && listed_inside(
                s0.state.db(),
                s0.state.trail(),
                s0.state.queue() + s0.pending@,
                fs.last().vars,
            ) ==> forall|i: int|
                s0.state.trail().len() <= i < self.state.trail().len() ==> fs.last().vars.contains(
                    (#[trigger] self.state.trail()[i]).vi(),
                ),
        ensures
            self.branching(c, fs, lit, level),
            self.open_vars() <= s0.open_vars(),
    {
        let f = fs.last();
        let n = fs.len() - 1;
        s0.lemma_inv(fs);
        s0.lemma_inv_frame(fs, n);
        let q = s0.state.queue() + s0.pending@;
        assert forall|k: int| 0 <= k < q.len() implies #[trigger] q[k] < s0.state.db().len() && takes_part(
            f,
            s0.state.db()[q[k] as int],
        ) by {
            if k < s0.state.queue().len() {
                assert(q[k] == s0.state.queue()[k]);
            } else {
                assert(q[k] == s0.pending@[k - s0.state.queue().len()]);
            }
        }
        lemma_listed(&s0.state, f, q);
        lemma_closed_now(&s0.state, f);
        assert forall|i: int| 0 <= i < s0.state.trail().len() implies self.state.levels()[(
        #[trigger] s0.state.trail()[i]).vi()] == s0.state.levels()[s0.state.trail()[i].vi()] by {
            assert(s0.state.vals()[s0.state.trail()[i].vi()] is Some);
        }
        self.lemma_extended_inv(&s0, fs, f.vars);
        self.lemma_inv_frame(fs, n);
        if refuted(self.state.db(), self.state.trail(), f.clauses) {
            lemma_refuted_before_propagation(&s0.state, &self.state, f);
        }
        lemma_fewer_open(s0.state.vals(), self.state.vals());
        lemma_prefix_kept(s0.state.trail(), self.state.trail(), f.base.len() as int + 1);
    }

    /// Propagation within a branch.
    #[verifier::spinoff_prover]
    #[verifier::rlimit(100)]
    fn branch_propagate(
        &mut self,
        level: usize,
        Ghost(c): Ghost<Comp>,
        Ghost(fs): Ghost<Seq<Frame>>,
        Ghost(lit): Ghost<Lit>,
    ) -> (ok: bool)
        requires
            old(self).branching(c, fs, lit, level as int),
        ensures
            final(self).branching(c, fs, lit, level as int),
            final(self).same_rest(old(self)),
            final(self).state.db() == old(self).state.db(),
            final(self).state.nv() == old(self).state.nv(),
            final(self).state.n_orig() == old(self).state.n_orig(),
            final(self).state.lims() == old(self).state.lims(),
            final(self).state.learned_size() == old(self).state.learned_size(),
            final(self).pending@.len() == 0,
            final(self).state.queue().len() == 0,
            ok == !final(self).state.conflicting(),
            final(self).open_vars() <= old(self).open_vars(),
            final(self).aborted == old(self).aborted,
            final(self).counters == old(self).counters,
            led_to(old(self).state, old(self).state.queue() + old(self).pending@, final(self).state),
            counted(
                old(self).ledger(),
                final(self).ledger(),
                some_forced(final(self).state.trail().len() - old(self).state.trail().len()),
            ),
            paced(old(self).pace(), final(self).pace(), 0, 0, 0),
    {
        let ghost s0 = *self;
        let ghost f = fs.last();
        proof {
            s0.lemma_inv(fs);
        }
        let ok = self.propagate();
        proof {
            assert(led_to(s0.state, s0.state.queue() + s0.pending@, self.state)) by {
                reveal(led_to);
            }
            self.lemma_branch_propagated(&s0, c, fs, lit, level as int);
        }
        ok
    }

    /// Decomposition within a branch.
    #[verifier::spinoff_prover]
    #[verifier::rlimit(100)]
    fn branch_decompose(
        &mut self,
        comp: ComponentRef,
        level: usize,
        Ghost(c): Ghost<Comp>,
        Ghost(fs): Ghost<Seq<Frame>>,
        Ghost(lit): Ghost<Lit>,
    ) -> (r: Range<usize>)
        requires
            old(self).branching(c, fs, lit, level as int),
            old(self).idle(),
            comp.at() < old(self).store.comps().len(),
            old(self).store.comps()[comp.at()] == c,
        ensures
            final(self).branching(c, fs, lit, level as int),
            final(self).idle(),
            final(self).decomposed(old(self), fs.last().vars, r.start as int),
            r.end == final(self).store.comps().len(),
            divides(&final(self).state, fs.last().vars, final(self).store.comps().skip(r.start as int)),
            r.start <= r.end,
            paced(old(self).pace(), final(self).pace(), r.start - r.end, 0, 0),
            purified(
                *old(self).config,
                old(self).state,
                final(self).state,
                final(self).store.comps().skip(r.start as int),
            ),
            divided(
                *old(self).config,
                final(self).state,
                c.vars,
                final(self).store.comps().skip(r.start as int),
            ),
            counted(
                old(self).ledger(),
                final(self).ledger(),
                one_split(old(self).state, final(self).state, final(self).store.comps().skip(r.start as int)),
            ),
    {
        let ghost s0 = *self;
        let ghost f = fs.last();
        let ghost n = fs.len() - 1;
        proof {
            s0.lemma_inv(fs);
            s0.lemma_inv_frame(fs, n);
            lemma_closed_now(&s0.state, f);
        }
        let scope: Vec<u32> = copy_indices(self.store.vars(comp));
        proof {
            assert forall|v: int| #[trigger] f.vars.contains(v) implies 0 <= v <= u32::MAX && scope@.contains(v as u32) by {}
            assert forall|k: int| 0 <= k < scope@.len() implies #[trigger] scope@[k] < s0.state.nv() && (
            f.vars.contains(scope@[k] as int) || t_has(s0.state.trail(), scope@[k] as int)) by {
                assert(c.vars.contains(c.vars[k]));
                assert(f.vars.contains(scope@[k] as int));
            }
        }
        let r = self.decompose(&scope, Ghost(f.vars));
        proof {
            self.lemma_extended_inv(&s0, fs, f.vars);
            self.lemma_inv_frame(fs, n);
            if refuted(self.state.db(), self.state.trail(), f.clauses) {
                lemma_refuted_before_pure(
                    self.state.db(),
                    s0.state.trail(),
                    self.state.trail(),
                    f.clauses,
                );
            }
            lemma_prefix_kept(s0.state.trail(), self.state.trail(), f.base.len() as int + 1);
        }
        r
    }
}

/// A prefix of a prefix.
proof fn lemma_prefix_kept(t: Seq<Lit>, u: Seq<Lit>, n: int)
    requires
        0 <= n <= t.len() <= u.len(),
        u.take(t.len() as int) == t,
    ensures
        u.take(n) == t.take(n),
{
    assert(u.take(n) =~= t.take(n)) by {
        assert forall|i: int| 0 <= i < n implies u.take(n)[i] == t.take(n)[i] by {
            assert(u.take(t.len() as int)[i] == u[i]);
        }
    }
}

/// Copies a list of indices.
fn copy_indices(s: &[u32]) -> (v: Vec<u32>)
    ensures
        v@ == s@,
{
    let mut v: Vec<u32> = Vec::new();
    for i in 0..s.len()
        invariant
            v@ =~= s@.take(i as int),
    {
        v.push(s[i]);
    }
    assert(s@.take(s@.len() as int) =~= s@);
    v
}

/// Clauses appended in two steps.
proof fn lemma_new_parts_join(n: int, a: Seq<Seq<Lit>>, b: Seq<Seq<Lit>>, f: Frame)
    requires
        0 <= n <= a.len(),
        grown(a, b),
        new_parts(n, a, f),
        new_parts(a.len() as int, b, f),
    ensures
        new_parts(n, b, f),
{
    assert forall|k: int| n <= k < b.len() implies takes_part(f, #[trigger] b[k]) by {
        if k < a.len() {
            assert(b.take(a.len() as int)[k] == b[k]);
            assert(takes_part(f, a[k]));
        }
    }
}

impl<'a, P: BucketPolicy> Searcher<'a, P> {
    /// A branch goes on after work below it that put the trail back.
    proof fn lemma_branching_kept(&self, o: &Self, c: Comp, fs: Seq<Frame>, lit: Lit, level: int)
        requires
            o.branching(c, fs, lit, level),
            self.inv(fs),
            back_at(&o.state, &self.state),
            self.state.queue().len() == 0,
        ensures
            self.branching(c, fs, lit, level),
            self.open_vars() == o.open_vars(),
    {
        let f = fs.last();
        let db = o.state.db();
        let db2 = self.state.db();
        o.lemma_inv(fs);
        self.lemma_inv(fs);
        o.lemma_inv_frame(fs, fs.len() - 1);
        lemma_same_vals(&o.state, &self.state);
        assert forall|k: int| 0 <= k < c.clauses.len() implies #[trigger] c.clauses[k] < db2.len() && takes_part(
            f,
            db2[c.clauses[k] as int],
        ) by {
            assert(takes_part(f, db[c.clauses[k] as int]));
            assert(db2.take(db.len() as int)[c.clauses[k] as int] == db2[c.clauses[k] as int]);
        }
        lemma_refuted_grows(db, db2, o.state.trail(), f.clauses);
        lemma_refuted_grows(db, db2, f.base.push(lit), f.clauses);
    }

    /// A conflict within a branch refutes it.
    proof fn lemma_branch_conflict(&self, c: Comp, fs: Seq<Frame>, lit: Lit, level: int)
        requires
            self.branching(c, fs, lit, level),
            self.state.conflicting(),
        ensures
            refuted(self.state.db(), fs.last().base.push(lit), fs.last().clauses),
    {
        let f = fs.last();
        self.lemma_inv(fs);
        self.lemma_inv_frame(fs, fs.len() - 1);
        assert forall|m: Valuation| #[trigger] agrees(m, self.state.trail()) implies !sat_all(
            self.state.db(),
            m,
            f.clauses,
        ) by {
            lemma_conflict_refutes(&self.state, f, m);
        }
    }

    /// The component of a branch is not yet in the memo.
    proof fn lemma_not_remembered(
        o: Map<(u64, Seq<u8>), CacheEntry>,
        m: Map<(u64, Seq<u8>), CacheEntry>,
        hash: u64,
        c: Comp,
        w: Set<int>,
        lit: Lit,
    )
        requires
            ascending32(c.vars),
            ascending32(c.clauses),
            c.vars.contains(lit.vi() as u32),
            0 <= lit.vi() <= u32::MAX,
            new_keys_within(o, m, w.remove(lit.vi())),
            !o.contains_key((hash, key_bytes(c.vars, c.clauses))),
        ensures
            !m.contains_key((hash, key_bytes(c.vars, c.clauses))),
    {
        lemma_not_named(c, w.remove(lit.vi()), lit.vi() as u32);
    }

    /// Finishes a branch whose subproblems are all solved: completes the model and remembers the
    /// component.
    #[verifier::spinoff_prover]
    #[verifier::rlimit(100)]
    fn finish_branch(
        &mut self,
        comp: ComponentRef,
        hash: u64,
        Ghost(c): Ghost<Comp>,
        Ghost(fs): Ghost<Seq<Frame>>,
        Ghost(mid): Ghost<&Self>,
        Ghost(start): Ghost<int>,
    )
        requires
            old(self).inv(fs),
            fs.len() > 0,
            fs.last() == frame_of(fs.last().base, c),
            old(self).pending@.len() == 0,
            comp.at() < old(self).store.comps().len(),
            old(self).store.comps()[comp.at()] == c,
            ascending32(c.vars),
            ascending32(c.clauses),
            hash == memo_key(c).0,
            old(self).config.cache ==> !old(self).cache@.contains_key((hash, key_bytes(c.vars, c.clauses))),
            mid.inv(fs),
            mid.idle(),
            back_at(&mid.state, &old(self).state),
            0 <= start <= mid.store.comps().len(),
            divides(&mid.state, fs.last().vars, mid.store.comps().skip(start)),
            forall|k: int|
                0 <= k < c.clauses.len() ==> #[trigger] c.clauses[k] < mid.state.db().len() && takes_part(
                    fs.last(),
                    mid.state.db()[c.clauses[k] as int],
                ),
            forall|k: int|
                start <= k < mid.store.comps().len() ==> solves(
                    old(self).state.db(),
                    #[trigger] mid.store.comps()[k],
                    valuation(old(self).model@),
                ),
        ensures
            final(self).counters == old(self).counters,
            final(self).inv(fs),
            final(self).state == old(self).state,
            final(self).store == old(self).store,
            final(self).config == old(self).config,
            final(self).started == old(self).started,
            final(self).aborted == old(self).aborted,
            !old(self).config.cache ==> final(self).cache == old(self).cache,
            remembered(*old(self).config, c, Answer::Sat, old(self).cache.memo(), final(self).cache.memo()),
            final(self).remembers(c, Answer::Sat),
            final(self).cache.counters().lookups == old(self).cache.counters().lookups,
            final(self).cache.counters().hits == old(self).cache.counters().hits,
            final(self).pending@.len() == 0,
            same_outside(old(self).model@, final(self).model@, c.vars),
            solves(final(self).state.db(), c, valuation(final(self).model@)),
            new_keys_within(old(self).cache@, final(self).cache@, fs.last().vars),
    {
        let ghost s0 = *self;
        let ghost f = fs.last();
        proof {
            s0.lemma_inv(fs);
            mid.lemma_inv(fs);
            mid.lemma_inv_frame(fs, fs.len() - 1);
            lemma_same_vals(&mid.state, &s0.state);
            assert forall|k: int| 0 <= k < c.vars.len() implies #[trigger] c.vars[k] < s0.state.nv() by {
                assert(c.vars.contains(c.vars[k]));
                assert(f.vars.contains(c.vars[k] as int));
            }
        }
        // The witness has to be read off before the decision level is popped.
        self.capture(comp);
        let ghost s1 = *self;
        let witness = pack_bits(&self.model, self.store.vars(comp));
        proof {
            let comps = mid.store.comps().skip(start);
            assert forall|k: int| 0 <= k < comps.len() implies solves(
                s0.state.db(),
                #[trigger] comps[k],
                valuation(s0.model@),
            ) by {
                assert(comps[k] == mid.store.comps()[k + start]);
            }
            lemma_branch_solves(&mid.state, s0.state.db(), f, c, comps, s0.model@, s1.model@);
            lemma_packed_valuation(c.vars, witness@, s1.model@);
            let db = s1.state.db();
            assert(db.take(db.len() as int) =~= db);
            assert forall|k: int| 0 <= k < c.clauses.len() implies #[trigger] c.clauses[k] < db.len() by {}
            lemma_still_solves(
                db,
                db,
                c,
                valuation(s1.model@),
                witness_valuation(c.vars, witness@),
            );
            lemma_ascending_len(c.vars, s0.state.nv());
        }
        self.remember(comp, hash, Verdict::Sat, &witness);
        proof {
            assert(remembered(*s0.config, c, Answer::Sat, s0.cache.memo(), self.cache.memo())) by {
                reveal(remembered);
            }
            self.lemma_remembers(&s0, c, Answer::Sat);
            self.lemma_rest_inv(&s0, fs);
        }
    }

    /// The invariant mentions the memo, the model and the store only through their validity.
    proof fn lemma_rest_inv(&self, o: &Self, fs: Seq<Frame>)
        requires
            o.inv(fs),
            self.valid(),
            self.state == o.state,
            self.pending == o.pending,
        ensures
            self.inv(fs),
    {
        reveal(Searcher::inv);
        assert forall|i: int| 0 <= i < fs.len() implies self.pending_in(#[trigger] fs[i]) by {
            assert(o.pending_in(fs[i]));
        }
    }

    /// The conflict of `o` was counted, taught the lesson, and ends the branch.
    spec fn taught(&self, o: &Self, lesson: Lesson, b: Branch) -> bool {
        &&& ok_lesson(*o.config, o.state, lesson)
        &&& counted(o.ledger(), self.ledger(), one_conflict(o.state, lesson))
        &&& answer_of_lesson(o.state, lesson) == answer_of_branch(b)
        &&& clauses_after_lesson(o.state, lesson) == self.state.db()
        &&& pending_after_lesson(o.state, lesson) == self.pending@
    }

    /// Counts a conflict and learns from it.
    #[verifier::spinoff_prover]
    #[verifier::rlimit(100)]
    fn branch_conflict(
        &mut self,
        level: usize,
        Ghost(c): Ghost<Comp>,
        Ghost(fs): Ghost<Seq<Frame>>,
        Ghost(lit): Ghost<Lit>,
    ) -> (b: Branch)
        requires
            old(self).branching(c, fs, lit, level as int),
            old(self).state.conflicting(),
            old(self).state.queue().len() == 0,
            old(self).pending@.len() == 0,
        ensures
            final(self).branching(c, fs, lit, level as int),
            final(self).same_rest(old(self)),
            final(self).aborted == old(self).aborted,
            final(self).state.same_assignment(&old(self).state),
            grown(old(self).state.db(), final(self).state.db()),
            new_parts(old(self).state.db().len() as int, final(self).state.db(), fs.last()),
            final(self).state.learned_size() >= old(self).state.learned_size(),
            final(self).open_vars() == old(self).open_vars(),
            refuted(final(self).state.db(), fs.last().base.push(lit), fs.last().clauses),
            b is Failed || b is Backjump,
            b matches Branch::Backjump(target) ==> target < level && final(self).state.learned_size() > old(
                self,
            ).state.learned_size() && old(self).state.learned_size() < old(self).config.max_learned_literals,
            exists|lesson: Lesson| #[trigger] final(self).taught(old(self), lesson, b),
            paced(old(self).pace(), final(self).pace(), 0, 0, 0),
    {
        let ghost s1 = *self;
        let ghost f = fs.last();
        self.counters.conflicts = self.counters.conflicts.saturating_add(1);
        let ghost s2 = *self;
        proof {
            s2.lemma_counters_inv(&s1, fs);
            assert(s2.branching(c, fs, lit, level as int));
            s2.lemma_branch_conflict(c, fs, lit, level as int);
            s2.lemma_inv_state(fs);
            assert(s2.pending@ =~= Seq::<u32>::empty());
        }
        let r = self.learn(level, Ghost(fs));
        let b = match r {
            Some(target) => Branch::Backjump(target),
            None => Branch::Failed,
        };
        proof {
            lemma_paced_conflict(s1.pace(), s2.pace());
            lemma_paced_trans(s1.pace(), s2.pace(), self.pace(), 0, 0, -1, 0, 0, 1);
            self.lemma_inv_state(fs);
            self.lemma_lesson(&s2, &s1, r);
            assert(self.taught(&s1, self.lesson(&s2), b));
            self.lemma_branching_kept(&s2, c, fs, lit, level as int);
            assert(new_parts(s2.state.db().len() as int, self.state.db(), fs[fs.len() - 1]));
            s2.lemma_inv_frame(fs, fs.len() - 1);
            lemma_refuted_grows(s2.state.db(), self.state.db(), f.base.push(lit), f.clauses);
        }
        b
    }

    /// The round that led from `top` by way of `s1` and `s3` to here, told.
    proof fn lemma_parts_told(
        &self,
        s3: &Self,
        s1: &Self,
        top: &Self,
        s0: &Self,
        c: Comp,
        depth: u64,
        level: usize,
        start: int,
        a: Answer,
    )
        requires
            rounds_open(
                *s0.config,
                s0.branch_stage(c),
                depth,
                s0.ledger(),
                top.state.trail(),
                top.state.db(),
                top.state.queue() + top.pending@,
                top.ledger(),
            ),
            led_to(top.state, top.state.queue() + top.pending@, s1.state),
            top.state.lims() == s0.state.lims(),
            !s1.state.conflicting(),
            top.cache == s1.cache,
            s3.cache == s1.cache,
            s3.config == s0.config,
            counted(top.ledger(), s1.ledger(), some_forced(s1.state.trail().len() - top.state.trail().len())),
            0 <= start <= s3.store.comps().len(),
            purified(*s0.config, s1.state, s3.state, s3.store.comps().skip(start)),
            divided(*s0.config, s3.state, c.vars, s3.store.comps().skip(start)),
            counted(
                s1.ledger(),
                s3.ledger(),
                one_split(s1.state, s3.state, s3.store.comps().skip(start)),
            ),
            self.told_some(s3, start, depth.saturating_add(1), a),
            level == s0.state.lims().len(),
        ensures
            rounds_told(
                *s0.config,
                s0.branch_stage(c),
                depth,
                s0.ledger(),
                a,
                self.state.db(),
                self.ledger(),
            ),
            a == Answer::Backjump(level) ==> rounds_open(
                *s0.config,
                s0.branch_stage(c),
                depth,
                s0.ledger(),
                s3.state.trail(),
                self.state.db(),
                self.pending@,
                self.ledger(),
            ),
    {
        reveal(Searcher::told_some);
        let n = choose|n: int|
            (n == s3.store.comps().len() - start || a != Answer::Sat) && #[trigger] self.told_all(
                s3,
                start,
                depth.saturating_add(1),
                n,
                a,
            );
        lemma_told_split(
            *s0.config,
            s0.branch_stage(c),
            depth,
            s0.ledger(),
            &top.state,
            top.state.queue() + top.pending@,
            top.ledger(),
            s1.state,
            s1.ledger(),
            s3.state,
            s3.store.comps().skip(start),
            s3.ledger(),
            n,
            a,
            self.state.db(),
            self.ledger(),
        );
    }

    /// The parts that `s3` fell into were solved: the branch goes on, and what has changed since `s0`
    /// stays within its component.
    proof fn lemma_parts_solved(
        &self,
        s3: &Self,
        s0: &Self,
        c: Comp,
        fs: Seq<Frame>,
        lit: Lit,
        level: int,
        start: int,
        a: Answer,
    )
        requires
            s3.branching(c, fs, lit, level),
            s3.config == s0.config,
            grown(s0.state.db(), s3.state.db()),
            new_parts(s0.state.db().len() as int, s3.state.db(), fs.last()),
            same_outside(s0.model@, s3.model@, c.vars),
            new_keys_within(s0.cache@, s3.cache@, fs.last().vars.remove(lit.vi())),
            self.after_all(s3, fs, fs.last().vars, start, a),
        ensures
            self.branching(c, fs, lit, level),
            self.open_vars() == s3.open_vars(),
            grown(s0.state.db(), self.state.db()),
            new_parts(s0.state.db().len() as int, self.state.db(), fs.last()),
            same_outside(s0.model@, self.model@, c.vars),
            new_keys_within(s0.cache@, self.cache@, fs.last().vars.remove(lit.vi())),
            a == Answer::Unsat ==> refuted(self.state.db(), s3.state.trail(), fs.last().clauses),
    {
        let f = fs.last();
        let w1 = f.vars.remove(lit.vi());
        s3.lemma_inv(fs);
        self.lemma_branching_kept(s3, c, fs, lit, level);
        lemma_grown_trans(s0.state.db(), s3.state.db(), self.state.db());
        assert(new_parts(s3.state.db().len() as int, self.state.db(), fs[fs.len() - 1]));
        lemma_new_parts_join(s0.state.db().len() as int, s3.state.db(), self.state.db(), f);
        lemma_open_part(s3.state.trail(), f, lit);
        lemma_new_keys_trans(s0.cache@, s3.cache@, self.cache@, w1, open_in(s3.state.trail(), f.vars), w1);
        lemma_outside_trans(s0.model@, s3.model@, self.model@, c.vars, open_in(s3.state.trail(), f.vars));
        if a == Answer::Unsat {
            assert(refuted(self.state.db(), s3.state.trail(), fs[fs.len() - 1].clauses));
        }
    }

    /// Ends a round of a branch: completes it where every part came out satisfied, and drops the
    /// parts. `s0` is the state in which the branch began, and `s3` the one that fell into the parts.
    #[verifier::spinoff_prover]
    #[verifier::rlimit(100)]
    fn close_parts(
        &mut self,
        comp: ComponentRef,
        hash: u64,
        mark: StoreMark,
        outcome: Branch,
        Ghost(depth): Ghost<u64>,
        Ghost(c): Ghost<Comp>,
        Ghost(fs): Ghost<Seq<Frame>>,
        Ghost(lit): Ghost<Lit>,
        Ghost(s0): Ghost<&Self>,
        Ghost(s3): Ghost<&Self>,
    )
        requires
            old(self).branching(c, fs, lit, s0.state.lims().len() as int),
            old(self).since_parts(s0, c, fs),
            old(self).after_all(s3, fs, fs.last().vars, mark.at(), answer_of_branch(outcome)),
            new_keys_within(s0.cache@, old(self).cache@, fs.last().vars.remove(lit.vi())),
            outcome == Branch::Failed ==> refuted(
                old(self).state.db(),
                s3.state.trail(),
                fs.last().clauses,
            ),
            s3.branching(c, fs, lit, s0.state.lims().len() as int),
            s3.idle(),
            !s3.aborted,
            mark.at() == s0.store.comps().len(),
            mark.at() <= s3.store.comps().len(),
            s3.store.comps().take(mark.at()) == s0.store.comps(),
            divides(&s3.state, fs.last().vars, s3.store.comps().skip(mark.at())),
            s0.state.learned_size() <= s3.state.learned_size(),
            s3.config == s0.config,
            s3.state.lims() == s0.state.lims(),
            comp.at() < s0.store.comps().len(),
            s0.store.comps()[comp.at()] == c,
            hash == memo_key(c).0,
            s0.config.cache ==> !s0.cache@.contains_key((hash, key_bytes(c.vars, c.clauses))),
            rounds_told(
                *s0.config,
                s0.branch_stage(c),
                depth,
                s0.ledger(),
                answer_of_branch(outcome),
                old(self).state.db(),
                old(self).ledger(),
            ),
        ensures
            final(self).branching(c, fs, lit, s0.state.lims().len() as int),
            final(self).since_entry(s0, c, fs, lit),
            outcome != Branch::Backjump(s0.state.lims().len() as usize) ==> final(self).after_branch(
                s0,
                c,
                fs,
                lit,
                s0.state.lims().len() as int,
                outcome,
            ),
            outcome != Branch::Sat ==> final(self).cache == old(self).cache && final(self).pending
                == old(self).pending,
            final(self).state == old(self).state,
            final(self).counters == old(self).counters,
            final(self).aborted == old(self).aborted,
            final(self).config == old(self).config,
            !final(self).root_unsat,
            final(self).pace() == old(self).pace(),
            final(self).told_rounds(s0, s0.branch_stage(c), c, depth, outcome),
            outcome == Branch::Sat ==> final(self).remembers(c, Answer::Sat),
    {
        let ghost s4 = *self;
        let ghost f = fs.last();
        let ghost w1 = f.vars.remove(lit.vi());
        proof {
            comp.lemma_at();
            assert(s3.store.comps().take(mark.at())[comp.at()] == s3.store.comps()[comp.at()]);
        }
        if outcome == Branch::Sat {
            proof {
                if s0.config.cache {
                    Self::lemma_not_remembered(s0.cache@, s4.cache@, hash, c, f.vars, lit);
                }
            }
            self.finish_branch(comp, hash, Ghost(c), Ghost(fs), Ghost(s3), Ghost(mark.at()));
        }
        let ghost s5 = *self;
        proof {
            s5.lemma_inv(fs);
        }
        self.store.truncate(mark);
        proof {
            assert(self.pace() == s4.pace());
            self.lemma_inv_store(&s5, fs);
            assert(self.store.comps() =~= s0.store.comps());
            if outcome == Branch::Sat {
                lemma_new_keys_trans(s0.cache@, s4.cache@, self.cache@, w1, f.vars, f.vars);
                assert(same_outside(s0.model@, self.model@, c.vars));
                assert(self.pending@ =~= s4.pending@);
            }
            self.lemma_told_rounds(s0, s0.branch_stage(c), c, depth, outcome, s4.ledger());
            self.lemma_remembers_same(&s5, c, Answer::Sat);
        }
    }

    /// Splits what is left after propagation within a branch, and solves the parts one after the
    /// other. `s0` is the state in which the branch began, and `top` the one before propagation.
    #[verifier::spinoff_prover]
    #[verifier::rlimit(100)]
    fn branch_parts(
        &mut self,
        comp: ComponentRef,
        hash: u64,
        depth: u64,
        level: usize,
        Ghost(c): Ghost<Comp>,
        Ghost(fs): Ghost<Seq<Frame>>,
        Ghost(lit): Ghost<Lit>,
        Ghost(s0): Ghost<&Self>,
        Ghost(top): Ghost<&Self>,
    ) -> (outcome: Branch)
        requires
            old(self).branching(c, fs, lit, level as int),
            old(self).since_entry(s0, c, fs, lit),
            old(self).idle(),
            !old(self).aborted,
            depth <= s0.counters.nodes,
            level == s0.state.lims().len(),
            level > 0,
            comp.at() < s0.store.comps().len(),
            s0.store.comps()[comp.at()] == c,
            hash == memo_key(c).0,
            s0.config.cache ==> !s0.cache@.contains_key((hash, key_bytes(c.vars, c.clauses))),
            new_keys_within(s0.cache@, old(self).cache@, fs.last().vars.remove(lit.vi())),
            paced(s0.pace(), old(self).pace(), 0, 0, 0),
            top.state.lims() == s0.state.lims(),
            top.store == old(self).store,
            top.cache == old(self).cache,
            led_to(top.state, top.state.queue() + top.pending@, old(self).state),
            counted(
                top.ledger(),
                old(self).ledger(),
                some_forced(old(self).state.trail().len() - top.state.trail().len()),
            ),
            rounds_open(
                *s0.config,
                s0.branch_stage(c),
                depth,
                s0.ledger(),
                top.state.trail(),
                top.state.db(),
                top.state.queue() + top.pending@,
                top.ledger(),
            ),
        ensures
            final(self).since_entry(s0, c, fs, lit),
            final(self).branching(c, fs, lit, level as int),
            outcome != Branch::Backjump(level) ==> final(self).after_branch(s0, c, fs, lit, level as int, outcome),
            outcome == Branch::Backjump(level) ==> {
                &&& rounds_open(
                    *s0.config,
                    s0.branch_stage(c),
                    depth,
                    s0.ledger(),
                    final(self).state.trail(),
                    final(self).state.db(),
                    final(self).state.queue() + final(self).pending@,
                    final(self).ledger(),
                )
                &&& !final(self).aborted
                &&& final(self).budget() < old(self).budget()
                &&& new_keys_within(s0.cache@, final(self).cache@, fs.last().vars.remove(lit.vi()))
            },
            !final(self).root_unsat,
            paced(s0.pace(), final(self).pace(), 0, 0, 0),
            final(self).told_rounds(s0, s0.branch_stage(c), c, depth, outcome),
            outcome == Branch::Sat ==> final(self).remembers(c, Answer::Sat),
        decreases old(self).budget(), old(self).open_vars(), 4int,
    {
        let ghost s1 = *self;
        let ghost f = fs.last();
        let ghost w1 = f.vars.remove(lit.vi());
        let ghost cfg = *s0.config;
        let ghost st = s0.branch_stage(c);
        proof {
            assert(s1.pending@ =~= Seq::<u32>::empty());
        }
        let mark = self.store.mark();
        let subs = self.branch_decompose(comp, level, Ghost(c), Ghost(fs), Ghost(lit));
        let ghost s3 = *self;
        proof {
            lemma_paced_trans(s0.pace(), s1.pace(), s3.pace(), 0, 0, 0, subs.start - subs.end, 0, 0);
            lemma_paced_nodes(s0.pace(), s3.pace(), subs.start - subs.end, 0, 0);
        }
        let a = self.solve_all(subs.start, depth.saturating_add(1), Ghost(fs), Ghost(f.vars));
        let ghost s4 = *self;
        proof {
            lemma_paced_trans(
                s0.pace(),
                s3.pace(),
                s4.pace(),
                subs.start - subs.end,
                0,
                0,
                subs.end - subs.start,
                0,
                0,
            );
            comp.lemma_at();
            assert(s3.store.comps().take(subs.start as int) == top.store.comps());
            assert(s3.store.comps().take(subs.start as int)[comp.at()] == s3.store.comps()[comp.at()]);
        }
        proof {
            s4.lemma_parts_told(&s3, &s1, top, s0, c, depth, level, subs.start as int, a);
            s4.lemma_parts_solved(&s3, s0, c, fs, lit, level as int, subs.start as int, a);
        }
        let outcome = match a {
            Answer::Sat => Branch::Sat,
            Answer::Unsat => Branch::Failed,
            Answer::Aborted => Branch::Aborted,
            Answer::Backjump(target) => Branch::Backjump(target),
        };
        self.close_parts(
            comp,
            hash,
            mark,
            outcome,
            Ghost(depth),
            Ghost(c),
            Ghost(fs),
            Ghost(lit),
            Ghost(s0),
            Ghost(&s3),
        );
        proof {
            assert(self.state.queue() + self.pending@ =~= self.pending@);
        }
        outcome
    }

    /// Explores one polarity of one decision, at the decision level `level` it opened.
    ///
    /// This is where a backjump lands. If a descendant asks to unwind to `level`, the work done
    /// under it is thrown away and the whole thing is redone with the newly learned clause in
    /// force; anything shallower is passed further up.
    #[verifier::spinoff_prover]
    #[verifier::rlimit(100)]
    fn branch(
        &mut self,
        comp: ComponentRef,
        hash: u64,
        depth: u64,
        level: usize,
        Ghost(c): Ghost<Comp>,
        Ghost(fs): Ghost<Seq<Frame>>,
        Ghost(lit): Ghost<Lit>,
    ) -> (b: Branch)
        requires
            old(self).branching(c, fs, lit, level as int),
            !old(self).aborted,
            depth <= old(self).counters.nodes,
            level == old(self).state.lims().len(),
            comp.at() < old(self).store.comps().len(),
            old(self).store.comps()[comp.at()] == c,
            hash == memo_key(c).0,
            old(self).config.cache ==> !old(self).cache@.contains_key((hash, key_bytes(c.vars, c.clauses))),
        ensures
            final(self).after_branch(old(self), c, fs, lit, level as int, b),
            paced(old(self).pace(), final(self).pace(), 0, 0, 0),
            final(self).told_rounds(old(self), old(self).branch_stage(c), c, depth, b),
            b == Branch::Sat ==> final(self).remembers(c, Answer::Sat),
        decreases old(self).budget(), old(self).open_vars(), 5int,
    {
        let ghost s0 = *self;
        let ghost f = fs.last();
        let ghost w1 = f.vars.remove(lit.vi());
        proof {
            let db = s0.state.db();
            assert(db.take(db.len() as int) =~= db);
            lemma_paced_refl(s0.pace());
        }
        let ghost cfg = *s0.config;
        let ghost st = s0.branch_stage(c);
        proof {
            lemma_open_start(cfg, st, depth, s0.ledger());
        }
        loop
            invariant
                s0 == *old(self),
                cfg == *s0.config,
                st == s0.branch_stage(c),
                level == s0.state.lims().len(),
                level > 0,
                rounds_open(
                    cfg,
                    st,
                    depth,
                    s0.ledger(),
                    self.state.trail(),
                    self.state.db(),
                    self.state.queue() + self.pending@,
                    self.ledger(),
                ),
                paced(s0.pace(), self.pace(), 0, 0, 0),
                !self.aborted,
                depth <= s0.counters.nodes,
                f == fs.last(),
                w1 == f.vars.remove(lit.vi()),
                self.branching(c, fs, lit, level as int),
                self.since_entry(&s0, c, fs, lit),
                comp.at() < s0.store.comps().len(),
                s0.store.comps()[comp.at()] == c,
                hash == memo_key(c).0,
                s0.config.cache ==> !s0.cache@.contains_key((hash, key_bytes(c.vars, c.clauses))),
                new_keys_within(s0.cache@, self.cache@, w1),
            decreases self.budget(),
        {
            let ghost top = *self;
            let ok = self.branch_propagate(level, Ghost(c), Ghost(fs), Ghost(lit));
            let ghost s1 = *self;
            proof {
                lemma_paced_trans(s0.pace(), top.pace(), s1.pace(), 0, 0, 0, 0, 0, 0);
            }
            if !ok {
                let b = self.branch_conflict(level, Ghost(c), Ghost(fs), Ghost(lit));
                proof {
                    lemma_paced_trans(s0.pace(), s1.pace(), self.pace(), 0, 0, 0, 0, 0, 0);
                    lemma_grown_trans(s0.state.db(), s1.state.db(), self.state.db());
                    lemma_new_parts_join(s0.state.db().len() as int, s1.state.db(), self.state.db(), f);
                    let lesson = choose|lesson: Lesson| #[trigger] self.taught(&s1, lesson, b);
                    lemma_told_conflict(
                        cfg,
                        st,
                        depth,
                        s0.ledger(),
                        &top.state,
                        top.state.queue() + top.pending@,
                        top.ledger(),
                        s1.state,
                        s1.ledger(),
                        lesson,
                        self.ledger(),
                    );
                    self.lemma_told_rounds(&s0, st, c, depth, b, self.ledger());
                }
                return b;
            }
            let outcome = self.branch_parts(
                comp,
                hash,
                depth,
                level,
                Ghost(c),
                Ghost(fs),
                Ghost(lit),
                Ghost(&s0),
                Ghost(&top),
            );
            // A descendant asking to unwind to exactly this level lands here: stay put,
            // propagate what was learned, and split again. Anything else leaves the branch.
            match outcome {
                Branch::Backjump(target) => {
                    if target != level || self.root_unsat {
                        return outcome;
                    }
                },
                _ => {
                    return outcome;
                },
            }
        }
    }

    /// The invariant mentions the store only through its validity.
    proof fn lemma_inv_store(&self, o: &Self, fs: Seq<Frame>)
        requires
            o.inv(fs),
            self.store.wf(),
            self.state == o.state,
            self.pending == o.pending,
            self.analyzer == o.analyzer,
            self.decider == o.decider,
            self.cache == o.cache,
            self.model == o.model,
            self.root_unsat == o.root_unsat,
            self.config == o.config,
            self.started == o.started,
            self.aborted == o.aborted,
            self.counters.nodes >= o.counters.nodes,
        ensures
            self.inv(fs),
    {
        o.lemma_inv(fs);
        self.lemma_rest_inv(o, fs);
    }
}

/// Below a decision the open variables of the frame do not have the decided one.
proof fn lemma_open_part(t: Seq<Lit>, f: Frame, lit: Lit)
    requires
        f.base.len() + 1 <= t.len(),
        t.take(f.base.len() as int + 1) == f.base.push(lit),
    ensures
        open_in(t, f.vars).subset_of(f.vars.remove(lit.vi())),
{
    assert(t.take(f.base.len() as int + 1)[f.base.len() as int] == t[f.base.len() as int]);
    assert(t[f.base.len() as int].vi() == lit.vi());
    assert(t_has(t, lit.vi()));
}

/// Changes to open variables of a component are changes within it.
proof fn lemma_outside_trans(a: Seq<bool>, b: Seq<bool>, d: Seq<bool>, vars: Seq<u32>, w: Set<int>)
    requires
        same_outside(a, b, vars),
        d.len() == b.len(),
        a.len() <= u32::MAX,
        forall|v: int| 0 <= v < b.len() && !w.contains(v) ==> #[trigger] d[v] == b[v],
        forall|v: int| #[trigger] w.contains(v) ==> 0 <= v <= u32::MAX && vars.contains(v as u32),
    ensures
        same_outside(a, d, vars),
{
    assert forall|v: int| 0 <= v < a.len() && !vars.contains(v as u32) implies #[trigger] d[v] == a[v] by {
        assert(!w.contains(v));
        assert(b[v] == a[v]);
    }
}

impl<'a, P: BucketPolicy> Searcher<'a, P> {
    /// Opening a level keeps the invariant.
    proof fn lemma_pushed_inv(&self, o: &Self, fs: Seq<Frame>)
        requires
            o.inv(fs),
            !o.state.conflicting(),
            self.same_rest(o),
            self.pending == o.pending,
            self.state.wf(),
            self.state.db() == o.state.db(),
            self.state.nv() == o.state.nv(),
            self.state.trail() == o.state.trail(),
            self.state.levels() == o.state.levels(),
            self.state.lims() == o.state.lims().push(o.state.trail().len() as usize),
            self.state.conflicting() == o.state.conflicting(),
        ensures
            self.inv(fs),
    {
        reveal(Searcher::inv);
        let t = o.state.trail();
        assert(clean(&self.state)) by {
            assert forall|k: int, c: int| 0 <= k < self.state.lims().len() && 0 <= c < self.state.db().len() implies !t_false(
                self.state.trail().take(#[trigger] self.state.lims()[k] as int),
                #[trigger] self.state.db()[c],
            ) by {
                if k < o.state.lims().len() {
                    assert(self.state.lims()[k] == o.state.lims()[k]);
                    assert(!t_false(o.state.trail().take(o.state.lims()[k] as int), o.state.db()[c]));
                } else {
                    o.state.lemma_trail_fits();
                    assert(t.take(t.len() as int) =~= t);
                    assert(!t_false(o.state.trail(), o.state.db()[c]));
                }
            }
        }
        assert forall|i: int| 0 <= i < fs.len() implies frame_ok(&self.state, #[trigger] fs[i])
            && self.pending_in(fs[i]) by {
            assert(frame_ok(&o.state, fs[i]));
            assert(o.pending_in(fs[i]));
            lemma_frame_same(&o.state, &self.state, fs[i]);
        }
    }

    /// Closing a level opened below every frame keeps the invariant.
    proof fn lemma_popped_inv(&self, o: &Self, fs: Seq<Frame>)
        requires
            o.inv(fs),
            self.same_rest(o),
            self.pending == o.pending,
            self.state.wf(),
            o.state.lims().len() > 0,
            self.state.popped_from(&o.state),
            forall|i: int| 0 <= i < fs.len() ==> (#[trigger] fs[i]).base.len() <= o.state.lims().last(),
        ensures
            self.inv(fs),
    {
        reveal(Searcher::inv);
        let last = o.state.lims().len() - 1;
        let n = o.state.lims()[last] as int;
        assert(n <= o.state.trail().len());
        assert(self.state.noted()) by {
            assert forall|c: int| 0 <= c < self.state.db().len() implies !t_false(
                self.state.trail(),
                #[trigger] self.state.db()[c],
            ) by {
                assert(!t_false(o.state.trail().take(o.state.lims()[last] as int), o.state.db()[c]));
            }
        }
        assert(clean(&self.state)) by {
            assert forall|k: int, c: int| 0 <= k < self.state.lims().len() && 0 <= c < self.state.db().len() implies !t_false(
                self.state.trail().take(#[trigger] self.state.lims()[k] as int),
                #[trigger] self.state.db()[c],
            ) by {
                let x = o.state.lims()[k] as int;
                assert(self.state.lims()[k] == o.state.lims()[k]);
                assert(o.state.lims()[k] <= o.state.lims()[last]);
                assert(self.state.trail().take(x) =~= o.state.trail().take(x));
                assert(!t_false(o.state.trail().take(x), o.state.db()[c]));
            }
        }
        assert forall|i: int| 0 <= i < fs.len() implies frame_ok(&self.state, #[trigger] fs[i])
            && self.pending_in(fs[i]) by {
            assert(frame_ok(&o.state, fs[i]));
            assert(o.pending_in(fs[i]));
            lemma_frame_pops(&o.state, &self.state, fs[i]);
        }
    }

    /// A polarity of component `c` can be tried: its frame is the innermost and its base is the
    /// trail.
    spec fn triable(&self, c: Comp, fs: Seq<Frame>, lit: Lit) -> bool {
        let f = fs.last();
        &&& self.inv(fs)
        &&& fs.len() > 0
        &&& f == frame_of(self.state.trail(), c)
        &&& !self.aborted
        &&& self.state.queue().len() == 0
        &&& !self.state.conflicting()
        &&& c.vars.contains(lit.vi() as u32)
        &&& 0 <= lit.vi() <= u32::MAX
        &&& ascending32(c.vars)
        &&& ascending32(c.clauses)
        &&& forall|i: int| 0 <= i < fs.len() ==> f.vars.subset_of((#[trigger] fs[i]).vars)
        &&& forall|k: int|
            0 <= k < c.clauses.len() ==> #[trigger] c.clauses[k] < self.state.db().len() && takes_part(
                f,
                self.state.db()[c.clauses[k] as int],
            )
    }

    /// What trying a polarity does and says.
    spec fn after_try(&self, o: &Self, c: Comp, fs: Seq<Frame>, lit: Lit, b: Branch) -> bool {
        let f = fs.last();
        &&& self.returned(o, fs)
        &&& new_parts(o.state.db().len() as int, self.state.db(), f)
        &&& same_outside(o.model@, self.model@, c.vars)
        &&& b == Branch::Failed ==> refuted(self.state.db(), f.base.push(lit), f.clauses)
        &&& b == Branch::Sat ==> self.pending@.len() == 0 && solves(
            self.state.db(),
            c,
            valuation(self.model@),
        ) && new_keys_within(o.cache@, self.cache@, f.vars)
        &&& b != Branch::Sat ==> new_keys_within(o.cache@, self.cache@, f.vars.remove(lit.vi()))
        &&& b == Branch::Aborted ==> self.excused()
        &&& self.aborted == (b == Branch::Aborted)
        &&& b matches Branch::Backjump(target) ==> target <= o.state.lims().len() && self.state.learned_size()
            > o.state.learned_size() && o.state.learned_size() < o.config.max_learned_literals
    }

    /// Opens a decision level and assigns `lit` on it. Returns the level.
    #[verifier::spinoff_prover]
    #[verifier::rlimit(100)]
    fn open_try(&mut self, lit: Lit, Ghost(c): Ghost<Comp>, Ghost(fs): Ghost<Seq<Frame>>) -> (level: usize)
        requires
            old(self).triable(c, fs, lit),
        ensures
            final(self).branching(c, fs, lit, level as int),
            final(self).branch_stage(c) == old(self).try_stage(c, lit),
            counted(old(self).ledger(), final(self).ledger(), one_decision()),
            paced(old(self).pace(), final(self).pace(), 0, 1, 0),
            level == final(self).state.lims().len(),
            final(self).state.lims() == old(self).state.lims().push(old(self).state.trail().len() as usize),
            final(self).state.trail() == old(self).state.trail().push(lit),
            final(self).state.db() == old(self).state.db(),
            final(self).state.nv() == old(self).state.nv(),
            final(self).state.n_orig() == old(self).state.n_orig(),
            final(self).state.learned_size() == old(self).state.learned_size(),
            final(self).open_vars() < old(self).open_vars(),
            final(self).counters.nodes == old(self).counters.nodes,
            final(self).config == old(self).config,
            final(self).started == old(self).started,
            final(self).aborted == old(self).aborted,
            final(self).cache == old(self).cache,
            final(self).model == old(self).model,
            final(self).store == old(self).store,
            final(self).pending == old(self).pending,
    {
        let ghost s0 = *self;
        let ghost f = fs.last();
        let ghost t = self.state.trail();
        proof {
            s0.lemma_inv(fs);
            s0.lemma_inv_frame(fs, fs.len() - 1);
            s0.state.lemma_trail_fits();
            assert(f.vars.contains(lit.vi()));
            s0.state.lemma_vals(lit.vi());
        }
        self.counters.decisions = self.counters.decisions.saturating_add(1);
        self.state.push_level();
        let ghost s1 = *self;
        let level: usize = self.state.decision_level();
        self.state.enqueue(lit);
        let ghost s2 = *self;
        proof {
            s1.lemma_pushed_inv(&s0, fs);
            s1.lemma_inv(fs);
            s2.state.lemma_assign_noted(&s1.state, lit, NO_REASON);
            assert(s2.state.trail().take(t.len() as int) =~= t);
            lemma_clean_extends(&s1.state, &s2.state);
            assert forall|i: int| 0 <= i < t.len() implies s2.state.levels()[(#[trigger] t[i]).vi()]
                == s1.state.levels()[t[i].vi()] by {
                assert(s1.state.vals()[t[i].vi()] is Some);
            }
            s2.lemma_extended_inv(&s1, fs, f.vars);
            assert forall|i: int| 0 <= i < fs.len() implies (#[trigger] fs[i]).base.len() <= f.base.len() by {
                s0.lemma_inv_frame(fs, i);
            }
            assert forall|k: int| 0 <= k < s2.state.queue().len() implies #[trigger] s2.state.queue()[k]
                < s2.state.db().len() && takes_part(f, s2.state.db()[s2.state.queue()[k] as int]) by {
                lemma_queued_part(t, s2.state.trail(), f, s2.state.db()[s2.state.queue()[k] as int], lit);
            }
            assert(s2.state.trail().take(f.base.len() as int + 1) =~= f.base.push(lit));
            assert(s2.state.trail() =~= f.base.push(lit));
            lemma_cnt_update(s1.state.vals(), lit.vi(), Some(lit.pos()), None::<bool>);
            assert(s2.branching(c, fs, lit, level as int));
        }
        proof {
            lemma_counted_decision(s0.ledger(), s2.ledger());
            assert(s2.branch_stage(c) == s0.try_stage(c, lit)) by {
                assert(s2.state.queue() =~= woken(s2.state.db(), s2.state.vals(), lit.neg(), s2.state.db().len() as int));
            }
            lemma_paced_decision(s0.pace(), s2.pace());
        }
        level
    }

    /// Tries one polarity of a decision on a level of its own, and closes the level again.
    #[verifier::spinoff_prover]
    #[verifier::rlimit(100)]
    fn try_polarity(
        &mut self,
        comp: ComponentRef,
        hash: u64,
        depth: u64,
        lit: Lit,
        Ghost(c): Ghost<Comp>,
        Ghost(fs): Ghost<Seq<Frame>>,
    ) -> (b: Branch)
        requires
            old(self).triable(c, fs, lit),
            depth <= old(self).counters.nodes,
            comp.at() < old(self).store.comps().len(),
            old(self).store.comps()[comp.at()] == c,
            hash == memo_key(c).0,
            old(self).config.cache ==> !old(self).cache@.contains_key((hash, key_bytes(c.vars, c.clauses))),
        ensures
            final(self).after_try(old(self), c, fs, lit, b),
            paced(old(self).pace(), final(self).pace(), 0, 1, 0),
            final(self).told_try(old(self), c, lit, depth, b),
            b == Branch::Sat ==> final(self).remembers(c, Answer::Sat),
        decreases old(self).budget(), old(self).open_vars(), 0int,
    {
        let ghost s0 = *self;
        let ghost f = fs.last();
        let ghost t = self.state.trail();
        let level: usize = self.open_try(lit, Ghost(c), Ghost(fs));
        let ghost s2 = *self;
        let b = self.branch(comp, hash, depth, level, Ghost(c), Ghost(fs), Ghost(lit));
        let ghost s3 = *self;
        proof {
            s3.lemma_inv(fs);
            s3.state.lemma_trail_fits();
        }
        self.state.pop_level();
        proof {
            self.lemma_tried(&s0, &s2, &s3, c, lit, depth, b);
            self.lemma_remembers_same(&s3, c, Answer::Sat);
            lemma_paced_trans(s0.pace(), s2.pace(), s3.pace(), 0, 1, 0, 0, 0, 0);
            assert(self.pace() == s3.pace());
            self.lemma_popped_inv(&s3, fs);
            assert(self.state.lims() =~= s0.state.lims());
            assert(s3.state.trail().take(f.base.len() as int + 1)
                == f.base.push(lit));
            assert(self.state.trail() =~= t) by {
                assert forall|i: int| 0 <= i < t.len() implies self.state.trail()[i] == t[i] by {
                    assert(s3.state.trail().take(f.base.len() as int + 1)[i] == s3.state.trail()[i]);
                }
            }
        }
        b
    }

    /// The component was answered from the memo: with the verdict that was stored, at the price of
    /// one node, and with the search left where it was.
    spec fn recalled(&self, o: &Self, depth: u64, entry: CacheEntry, a: Answer) -> bool {
        &&& a == (match entry.verdict {
            Verdict::Sat => Answer::Sat,
            Verdict::Unsat => Answer::Unsat,
        })
        &&& self.counters == (SearchCounters {
            nodes: o.counters.nodes.saturating_add(1),
            max_depth: if depth > o.counters.max_depth {
                depth
            } else {
                o.counters.max_depth
            },
            ..o.counters
        })
        &&& self.state == o.state
        &&& self.pending == o.pending
        &&& self.cache.counters().hits == o.cache.counters().hits.saturating_add(1)
    }

    /// Solves one component, consulting and populating the memo.
    #[verifier::spinoff_prover]
    #[verifier::rlimit(100)]
    fn solve_component(&mut self, comp: ComponentRef, depth: u64, Ghost(fs): Ghost<Seq<Frame>>) -> (a: Answer)
        requires
            comp.at() < old(self).store.comps().len(),
            old(self).solvable(fs, old(self).store.comps()[comp.at()]),
            1 <= depth <= old(self).counters.nodes + 1,
        ensures
            final(self).after_solve(old(self), fs, old(self).store.comps()[comp.at()], a),
            !old(self).aborted ==> paced(old(self).pace(), final(self).pace(), 1, 0, 0),
            final(self).told_visit(old(self), old(self).store.comps()[comp.at()], depth, a),
            old(self).aborted ==> a == Answer::Aborted,
            final(self).counters.nodes > 0,
            final(self).remembers(old(self).store.comps()[comp.at()], a),
            old(self).config.cache && !(a is Aborted) ==> {
                let c = old(self).store.comps()[comp.at()];
                let k = (key_hash(key_bytes(c.vars, c.clauses)), key_bytes(c.vars, c.clauses));
                old(self).cache@.contains_key(k) ==> final(self).recalled(old(self), depth, old(self).cache@[k], a)
            },
        decreases old(self).budget(), old(self).open_vars(), 2int,
    {
        let ghost s0 = *self;
        let ghost c = self.store.comps()[comp.at()];
        let ghost t = self.state.trail();
        let ghost f = frame_of(t, c);
        let ghost w1 = f.vars;
        proof {
            s0.lemma_inv(fs);
            lemma_new_frame(&s0.state, c);
            lemma_clauses_in_range(&s0.state, c);
            assert(s0.pending@ =~= Seq::<u32>::empty());
            assert(s0.state.db().take(s0.state.db().len() as int) =~= s0.state.db());
        }
        self.counters.nodes = self.counters.nodes.saturating_add(1);
        if depth > self.counters.max_depth {
            self.counters.max_depth = depth;
        }
        if self.should_abort() {
            proof {
                lemma_counted_visit(s0.ledger(), self.ledger(), depth, false, false);
                if !s0.aborted {
                    lemma_paced_node(s0.pace(), self.pace());
                    lemma_paced_widen(s0.pace(), self.pace(), 1, -2, 0, 1, 0, 0);
                }
                lemma_told_short(*s0.config, s0.state, c, depth, s0.ledger(), Ending::Stopped, self.ledger());
                self.lemma_remembers_same(self, c, Answer::Aborted);
                self.lemma_counters_inv(&s0, fs);
            }
            return Answer::Aborted;
        }
        let ghost s1 = *self;
        proof {
            s1.lemma_counters_inv(&s0, fs);
        }
        let hash: u64 = self.store.hash(comp);
        if self.config.cache {
            let found = self.cache.lookup(hash, self.store.key(comp));
            match found {
                Some(node) => {
                    let ghost s2 = *self;
                    let ghost k = (hash, key_bytes(c.vars, c.clauses));
                    proof {
                        lemma_paced_node(s0.pace(), s2.pace());
                        lemma_paced_widen(s0.pace(), s2.pace(), 1, -2, 0, 1, 0, 0);
                        let act = s1.cache@[k].activity.saturating_add(1);
                        lemma_memo_touched(s1.state.db(), s1.cache@, k, act);
                        assert(s2.valid());
                        s2.lemma_rest_inv(&s1, fs);
                        assert(entry_true(s2.state.db(), c, s2.cache@[k]));
                    }
                    proof {
                        let verdict = s2.cache@[k].verdict;
                        lemma_counted_visit(s0.ledger(), s2.ledger(), depth, true, true);
                        lemma_told_short(
                            *s0.config,
                            s0.state,
                            c,
                            depth,
                            s0.ledger(),
                            Ending::Recalled(verdict),
                            s2.ledger(),
                        );
                    }
                    match self.cache.verdict(node) {
                        Verdict::Unsat => {
                            assert(self.remembers(c, Answer::Unsat)) by {
                                reveal(Searcher::remembers);
                            }
                            return Answer::Unsat;
                        },
                        Verdict::Sat => {
                            self.apply_witness(comp, node);
                            proof {
                                assert(self.remembers(c, Answer::Sat)) by {
                                    reveal(Searcher::remembers);
                                }
                                self.lemma_rest_inv(&s2, fs);
                                lemma_still_solves(
                                    s2.state.db(),
                                    self.state.db(),
                                    c,
                                    witness_valuation(c.vars, s2.cache@[k].witness),
                                    valuation(self.model@),
                                );
                            }
                            return Answer::Sat;
                        },
                    }
                },
                None => {},
            }
        }
        let ghost s2 = *self;
        proof {
            lemma_paced_node(s0.pace(), s2.pace());
            assert(s2.valid());
            s2.lemma_rest_inv(&s1, fs);
        }
        let heuristic = self.config.heuristic;
        let picked = self.decider.pick(&self.state, &self.store, comp, heuristic);
        let ghost s3 = *self;
        proof {
            s3.lemma_rest_inv(&s2, fs);
            lemma_counted_visit(s0.ledger(), s3.ledger(), depth, s0.config.cache, false);
        }
        match picked {
            None => {
                // A component always carries at least one active clause, and an active clause always
                // has an unassigned literal, so this does not happen.
                proof {
                    lemma_has_open(&s3.state, c);
                    let k = choose|k: int| 0 <= k < c.vars.len() && s3.state.vals()[#[trigger] c.vars[k] as int] is None;
                    assert(s3.state.vals()[s3.store.comps()[comp.at()].vars[k] as int] is None);
                }
                Answer::Sat
            },
            Some(decision) => self.decide(comp, hash, depth, decision, Ghost(fs), Ghost(&s0)),
        }
    }

    /// Tries both polarities of a decision.
    #[verifier::spinoff_prover]
    #[verifier::rlimit(100)]
    fn decide(
        &mut self,
        comp: ComponentRef,
        hash: u64,
        depth: u64,
        decision: Lit,
        Ghost(fs): Ghost<Seq<Frame>>,
        Ghost(o): Ghost<&Self>,
    ) -> (a: Answer)
        requires
            comp.at() < old(self).store.comps().len(),
            old(self).solvable(fs, old(self).store.comps()[comp.at()]),
            old(self).store.comps()[comp.at()].vars.contains(decision.vi() as u32),
            0 <= decision.vi() <= u32::MAX,
            o.state == old(self).state,
            o.store == old(self).store,
            o.config == old(self).config,
            o.started == old(self).started,
            o.model == old(self).model,
            !o.config.cache ==> old(self).cache == o.cache,
            new_keys_within(o.cache@, old(self).cache@, Set::<int>::empty()),
            paced(o.pace(), old(self).pace(), 1, -2, 0),
            undecided(
                *old(self).config,
                old(self).state,
                old(self).store.comps()[comp.at()],
                depth,
                o.ledger(),
                decision,
                old(self).ledger(),
            ),
            hash == memo_key(old(self).store.comps()[comp.at()]).0,
            !old(self).aborted,
            !o.aborted,
            depth <= old(self).counters.nodes,
            old(self).counters.nodes > 0,
            old(self).config.cache ==> !old(self).cache@.contains_key(
                (
                    hash,
                    key_bytes(
                        old(self).store.comps()[comp.at()].vars,
                        old(self).store.comps()[comp.at()].clauses,
                    ),
                ),
            ),
        ensures
            final(self).after_solve(o, fs, old(self).store.comps()[comp.at()], a),
            paced(o.pace(), final(self).pace(), 1, 0, 0),
            final(self).told_visit(o, old(self).store.comps()[comp.at()], depth, a),
            final(self).remembers(old(self).store.comps()[comp.at()], a),
            final(self).counters.nodes > 0,
        decreases old(self).budget(), old(self).open_vars(), 1int,
    {
        let ghost s0 = *self;
        let ghost c = self.store.comps()[comp.at()];
        let ghost t = self.state.trail();
        let ghost f = frame_of(t, c);
        let ghost fs2 = fs.push(f);
        let ghost w1 = f.vars.remove(decision.vi());
        proof {
            s0.lemma_inv(fs);
            s0.lemma_enter(fs, c, decision);
            crate::lit::lemma_negation_is_involutive(decision);
        }
        let first = self.try_polarity(comp, hash, depth, decision, Ghost(c), Ghost(fs2));
        let ghost s1 = *self;
        proof {
            if first != Branch::Failed {
                s1.lemma_first(&s0, o, c, depth, decision, first);
                s1.lemma_remembers_same(&s1, c, answer_of_branch(first));
            }
            lemma_paced_nodes(s0.pace(), s1.pace(), 0, 1, 0);
            lemma_paced_trans(o.pace(), s0.pace(), s1.pace(), 1, -2, 0, 0, 1, 0);
            lemma_paced_widen(o.pace(), s1.pace(), 1, -1, 0, 1, 0, 0);
            s1.lemma_leave(fs, f);
            s1.lemma_inv(fs);
            s1.lemma_inv_frame(fs2, fs.len() as int);
            lemma_same_vals(&s0.state, &s1.state);
            lemma_new_keys_trans(o.cache@, s0.cache@, s1.cache@, Set::empty(), f.vars, f.vars);
        }
        match first {
            Branch::Sat => {
                return Answer::Sat;
            },
            Branch::Aborted => {
                return Answer::Aborted;
            },
            Branch::Backjump(target) => {
                return Answer::Backjump(target);
            },
            Branch::Failed => {},
        }
        proof {
            assert(s1.triable(c, fs2, decision.neg())) by {
                assert forall|k: int| 0 <= k < c.clauses.len() implies #[trigger] c.clauses[k]
                    < s1.state.db().len() && takes_part(f, s1.state.db()[c.clauses[k] as int]) by {
                    let x = c.clauses[k] as int;
                    assert(s1.state.db().take(s0.state.db().len() as int)[x] == s1.state.db()[x]);
                    assert(takes_part(f, s0.state.db()[c.clauses[k] as int]));
                }
            }
            if s0.config.cache {
                Self::lemma_not_remembered(s0.cache@, s1.cache@, hash, c, f.vars, decision);
            }
        }
        let second = self.try_polarity(comp, hash, depth, decision.negated(), Ghost(c), Ghost(fs2));
        let ghost s2 = *self;
        proof {
            if second != Branch::Failed {
                s2.lemma_second(&s0, &s1, &s2, o, c, depth, decision, second);
                s2.lemma_remembers_same(&s2, c, answer_of_branch(second));
            }
            lemma_paced_nodes(s1.pace(), s2.pace(), 0, 1, 0);
            lemma_paced_trans(o.pace(), s1.pace(), s2.pace(), 1, -1, 0, 0, 1, 0);
            s2.lemma_leave(fs, f);
            s2.lemma_inv(fs);
            s2.lemma_inv_frame(fs2, fs.len() as int);
            lemma_grown_trans(s0.state.db(), s1.state.db(), s2.state.db());
            lemma_new_parts_join(s0.state.db().len() as int, s1.state.db(), s2.state.db(), f);
            lemma_new_keys_trans(o.cache@, s1.cache@, s2.cache@, f.vars, f.vars, f.vars);
        }
        match second {
            Branch::Sat => {
                return Answer::Sat;
            },
            Branch::Aborted => {
                return Answer::Aborted;
            },
            Branch::Backjump(target) => {
                return Answer::Backjump(target);
            },
            Branch::Failed => {},
        }
        proof {
            let db = s0.state.db();
            let db2 = s2.state.db();
            lemma_clauses_in_range(&s0.state, c);
            s0.lemma_inv_frame2(fs, c);
            lemma_refuted_grows(s0.state.db(), s1.state.db(), t.push(decision), f.clauses);
            lemma_refuted_grows(s0.state.db(), s2.state.db(), t.push(decision.neg()), f.clauses);
            lemma_both_refuted(&s0.state, c, decision);
            assert forall|m: Valuation| !#[trigger] solves(db2, c, m) by {
                lemma_solves_grows(db, db2, c, m);
                assert(!solves(db, c, m));
            }
            if s0.config.cache {
                Self::lemma_not_remembered(s1.cache@, s2.cache@, hash, c, f.vars, decision);
            }
            lemma_vars_in_range(&s0.state, c);
            lemma_ascending_len(c.vars, s0.state.nv());
            assert forall|k: int| 0 <= k < c.clauses.len() implies #[trigger] c.clauses[k] < db2.len() by {}
        }
        let none: Vec<u8> = Vec::new();
        self.remember(comp, hash, Verdict::Unsat, &none);
        proof {
            assert(remembered(*s0.config, c, Answer::Unsat, s2.cache.memo(), self.cache.memo())) by {
                reveal(remembered);
            }
            self.lemma_second(&s0, &s1, &s2, o, c, depth, decision, Branch::Failed);
            self.lemma_remembers(&s2, c, Answer::Unsat);
            self.lemma_rest_inv(&s2, fs);
            lemma_new_keys_trans(o.cache@, s2.cache@, self.cache@, f.vars, f.vars, f.vars);
        }
        Answer::Unsat
    }

    /// The frame of a component about to be solved.
    proof fn lemma_inv_frame2(&self, fs: Seq<Frame>, c: Comp)
        requires
            self.solvable(fs, c),
        ensures
            frame_ok(&self.state, frame_of(self.state.trail(), c)),
    {
        self.lemma_inv(fs);
        lemma_new_frame(&self.state, c);
    }

    /// Entering a component: its frame joins the others.
    proof fn lemma_enter(&self, fs: Seq<Frame>, c: Comp, lit: Lit)
        requires
            !self.aborted,
            self.solvable(fs, c),
            c.vars.contains(lit.vi() as u32),
            0 <= lit.vi() <= u32::MAX,
        ensures
            self.triable(c, fs.push(frame_of(self.state.trail(), c)), lit),
    {
        reveal(Searcher::inv);
        let f = frame_of(self.state.trail(), c);
        let fs2 = fs.push(f);
        lemma_new_frame(&self.state, c);
        assert forall|i: int| 0 <= i < fs2.len() implies frame_ok(&self.state, #[trigger] fs2[i])
            && self.pending_in(fs2[i]) && f.vars.subset_of(fs2[i].vars) by {
            if i < fs.len() {
                assert(fs2[i] == fs[i]);
                assert(frame_ok(&self.state, fs[i]));
                assert(self.pending_in(fs[i]));
            }
        }
        assert forall|k: int| 0 <= k < c.clauses.len() implies #[trigger] c.clauses[k] < self.state.db().len()
            && takes_part(f, self.state.db()[c.clauses[k] as int]) by {
            assert(c.clauses.contains(c.clauses[k]));
        }
    }

    /// Leaving a component: the other frames are still in force.
    proof fn lemma_leave(&self, fs: Seq<Frame>, f: Frame)
        requires
            self.inv(fs.push(f)),
        ensures
            self.inv(fs),
    {
        reveal(Searcher::inv);
        let fs2 = fs.push(f);
        assert forall|i: int| 0 <= i < fs.len() implies frame_ok(&self.state, #[trigger] fs[i])
            && self.pending_in(fs[i]) by {
            assert(fs2[i] == fs[i]);
        }
    }
}

/// A clause queued by a decision takes part in the frame.
proof fn lemma_queued_part(t: Seq<Lit>, u: Seq<Lit>, f: Frame, c: Seq<Lit>, lit: Lit)
    requires
        f.base == t,
        u == t.push(lit),
        !t_sat(u, c),
        c.contains(lit.neg()),
        f.vars.contains(lit.vi()),
        !t_has(t, lit.vi()),
    ensures
        takes_part(f, c),
{
    assert(u.take(t.len() as int) =~= t);
    lemma_trail_grows(t, u);
    let i = choose|i: int| 0 <= i < c.len() && c[i] == lit.neg();
    assert(c[i].vi() == lit.vi());
}

/// A component has an open variable.
proof fn lemma_has_open(s: &SearchState, c: Comp)
    requires
        s.wf(),
        comp_shape(s.db(), s.trail(), s.nv(), c),
    ensures
        exists|k: int| 0 <= k < c.vars.len() && s.vals()[#[trigger] c.vars[k] as int] is None,
{
    let t = s.trail();
    assert(c.clauses.contains(c.clauses[0]));
    let cl = s.db()[c.clauses[0] as int];
    assert(touches(t, cl, var_set(c.vars)));
    let i = choose|i: int| 0 <= i < cl.len() && !t_has(t, (#[trigger] cl[i]).vi()) && var_set(c.vars).contains(
        cl[i].vi(),
    );
    let k = choose|k: int| 0 <= k < c.vars.len() && c.vars[k] == cl[i].vi() as u32;
    assert(c.vars[k] < s.nv());
    s.lemma_vals(c.vars[k] as int);
}

/// A component's variables are in range.
proof fn lemma_vars_in_range(s: &SearchState, c: Comp)
    requires
        comp_shape(s.db(), s.trail(), s.nv(), c),
    ensures
        forall|k: int| 0 <= k < c.vars.len() ==> #[trigger] c.vars[k] < s.nv(),
{
}

/// The variables of the whole formula.
pub open spec fn root_scope(n: int) -> Seq<u32> {
    Seq::new(n as nat, |i: int| i as u32)
}

/// Where a search over a formula begins.
pub open spec fn root_stage(f: Seq<Seq<Lit>>, n: int, memo: Memo) -> Stage {
    Stage {
        trail: Seq::empty(),
        lims: Seq::empty(),
        scope: root_scope(n),
        db: f,
        memo,
        queue: unit_indices(f, f.len() as int),
    }
}

/// At the root: if the formula has a model, it has one that agrees with the trail; and a model that
/// agrees with the trail satisfies every clause of the database.
spec fn rooted(s: &SearchState, f: Seq<Seq<Lit>>) -> bool {
    &&& s.lims().len() == 0
    &&& satisfiable(f) ==> exists|m: Valuation| #[trigger] agrees(m, s.trail()) && formula_true(m, f)
    &&& forall|m: Valuation, c: int|
        #![trigger agrees(m, s.trail()), s.db()[c]]
        0 <= c < s.db().len() && agrees(m, s.trail()) && formula_true(m, f) ==> clause_true(m, s.db()[c])
}

/// The frame of the whole formula.
spec fn root_frame(s: &SearchState) -> Frame {
    Frame {
        base: s.trail(),
        vars: Set::new(|v: int| 0 <= v < s.nv() && !t_has(s.trail(), v)),
        clauses: Set::new(|c: int| 0 <= c < s.n_orig()),
    }
}

/// Propagation at the root loses no model.
proof fn lemma_root_forced(o: &SearchState, s: &SearchState, f: Seq<Seq<Lit>>, m: Valuation, n: int)
    requires
        s.wf(),
        s.propagated_from(o),
        rooted(o, f),
        agrees(m, o.trail()),
        formula_true(m, f),
        o.trail().len() <= n <= s.trail().len(),
    ensures
        agrees(m, s.trail().take(n)),
    decreases n,
{
    let t = s.trail();
    if n == o.trail().len() {
        assert(t.take(n) == o.trail());
    } else {
        lemma_root_forced(o, s, f, m, n - 1);
        let i = n - 1;
        let c = s.db()[s.reasons()[t[i].vi()] as int];
        assert(s.reason_ok(t[i], i));
        assert(clause_true(m, o.db()[s.reasons()[t[i].vi()] as int]));
        lemma_forced_true(c, t[i], t.take(i), m);
        assert forall|k: int| 0 <= k < t.take(n).len() implies lit_true(m, #[trigger] t.take(n)[k]) by {
            if k < i {
                assert(t.take(i)[k] == t.take(n)[k]);
            }
        }
    }
}

/// Propagation at the root keeps what is known there; a conflict means there is no model.
proof fn lemma_root_propagated(o: &SearchState, s: &SearchState, f: Seq<Seq<Lit>>)
    requires
        s.wf(),
        s.propagated_from(o),
        rooted(o, f),
    ensures
        rooted(s, f),
        s.conflicting() ==> !satisfiable(f),
{
    let t = s.trail();
    assert(t.take(t.len() as int) =~= t);
    assert forall|m: Valuation| #[trigger] agrees(m, o.trail()) && formula_true(m, f) implies agrees(m, t) by {
        lemma_root_forced(o, s, f, m, t.len() as int);
    }
    assert forall|m: Valuation| #[trigger] agrees(m, t) implies agrees(m, o.trail()) by {
        lemma_trail_grows(o.trail(), t);
    }
    if satisfiable(f) {
        let m = choose|m: Valuation| #[trigger] agrees(m, o.trail()) && formula_true(m, f);
        assert(agrees(m, t));
        if s.conflicting() {
            assert(clause_true(m, o.db()[s.conflict_at()]));
            lemma_falsified(t, s.db()[s.conflict_at()], m);
        }
    }
    assert forall|m: Valuation, c: int|
        #![trigger agrees(m, s.trail()), s.db()[c]]
        0 <= c < s.db().len() && agrees(m, s.trail()) && formula_true(m, f) implies clause_true(m, s.db()[c]) by {
        assert(agrees(m, o.trail()));
        assert(clause_true(m, o.db()[c]));
    }
}

/// Pure literals at the root keep what is known there.
proof fn lemma_root_pure(o: &SearchState, s: &SearchState, f: Seq<Seq<Lit>>, n: int)
    requires
        rooted(o, f),
        s.db() == o.db(),
        s.lims() == o.lims(),
        0 <= n <= o.db().len(),
        f == o.db().take(n),
        o.trail().len() <= s.trail().len(),
        s.trail().take(o.trail().len() as int) == o.trail(),
        keeps_models(o.db(), o.trail(), s.trail()),
    ensures
        rooted(s, f),
{
    if satisfiable(f) {
        let m = choose|m: Valuation| #[trigger] agrees(m, o.trail()) && formula_true(m, f);
        assert(carried_over(o.db(), m, s.trail()));
        let m2 = choose|m2: Valuation| #[trigger] agrees(m2, s.trail()) && keeps_clauses(o.db(), m, m2);
        assert(formula_true(m2, f)) by {
            assert forall|c: int| 0 <= c < f.len() implies clause_true(m2, #[trigger] f[c]) by {
                assert(clause_true(m, f[c]));
                assert(f[c] == o.db()[c]);
            }
        }
    }
    assert forall|m: Valuation, c: int|
        #![trigger agrees(m, s.trail()), s.db()[c]]
        0 <= c < s.db().len() && agrees(m, s.trail()) && formula_true(m, f) implies clause_true(m, s.db()[c]) by {
        lemma_trail_grows(o.trail(), s.trail());
        assert(agrees(m, o.trail()));
        assert(clause_true(m, o.db()[c]));
    }
}

/// Satisfying the input clauses of the database is satisfying the formula.
proof fn lemma_root_clauses(s: &SearchState, f: Seq<Seq<Lit>>, m: Valuation)
    requires
        0 <= s.n_orig() <= s.db().len(),
        f == s.db().take(s.n_orig()),
    ensures
        sat_all(s.db(), m, root_frame(s).clauses) == formula_true(m, f),
{
    let cs = root_frame(s).clauses;
    if formula_true(m, f) {
        assert forall|c: int| #[trigger] cs.contains(c) implies clause_true(m, s.db()[c]) by {
            assert(f[c] == s.db()[c]);
        }
    }
    if sat_all(s.db(), m, cs) {
        assert forall|c: int| 0 <= c < f.len() implies clause_true(m, #[trigger] f[c]) by {
            assert(cs.contains(c));
            assert(f[c] == s.db()[c]);
        }
    }
}

/// The whole formula makes a frame.
proof fn lemma_root_frame(s: &SearchState, f: Seq<Seq<Lit>>)
    requires
        s.wf(),
        rooted(s, f),
        f == s.db().take(s.n_orig()),
    ensures
        frame_ok(s, root_frame(s)),
{
    let fr = root_frame(s);
    let t = s.trail();
    assert(t.take(t.len() as int) =~= t);
    assert forall|c: int| 0 <= c < s.db().len() implies inside(t, #[trigger] s.db()[c], fr.vars) by {
        assert(clause_below(s.db()[c], s.nv()));
    }
    assert forall|m: Valuation, c: int|
        #![trigger agrees(m, fr.base), s.db()[c]]
        0 <= c < s.db().len() && agrees(m, fr.base) && sat_all(s.db(), m, fr.clauses) && takes_part(
            fr,
            s.db()[c],
        ) implies clause_true(m, s.db()[c]) by {
        lemma_root_clauses(s, f, m);
    }
}

/// Clauses learned below the root are satisfied by the models that agree with the trail.
proof fn lemma_root_learned(o: &SearchState, s: &SearchState, f: Seq<Seq<Lit>>)
    requires
        o.wf(),
        s.wf(),
        s.noted(),
        !s.conflicting(),
        rooted(o, f),
        f == o.db().take(o.n_orig()),
        back_at(o, s),
        frame_ok(s, root_frame(o)),
    ensures
        rooted(s, f),
        f == s.db().take(s.n_orig()),
{
    let fr = root_frame(o);
    let t = s.trail();
    assert(s.db().take(s.n_orig()) =~= f) by {
        assert forall|i: int| 0 <= i < s.n_orig() implies s.db().take(s.n_orig())[i] == f[i] by {
            assert(s.db().take(o.db().len() as int)[i] == s.db()[i]);
        }
    }
    assert forall|m: Valuation, c: int|
        #![trigger agrees(m, s.trail()), s.db()[c]]
        0 <= c < s.db().len() && agrees(m, s.trail()) && formula_true(m, f) implies clause_true(m, s.db()[c]) by {
        let cl = s.db()[c];
        if t_sat(t, cl) {
            let i = choose|i: int| 0 <= i < cl.len() && t.contains(#[trigger] cl[i]);
            let j = choose|j: int| 0 <= j < t.len() && t[j] == cl[i];
            assert(lit_true(m, t[j]));
            assert(lit_true(m, cl[i]));
        } else {
            assert(!t_false(t, s.db()[c]));
            let i = choose|i: int| 0 <= i < cl.len() && !t.contains((#[trigger] cl[i]).neg());
            assert(clause_below(s.db()[c], s.nv()));
            s.lemma_vals_lit(cl[i]);
            assert(fr.vars.contains(cl[i].vi()));
            assert(touches(fr.base, cl, fr.vars));
            lemma_root_clauses(o, f, m);
            lemma_sat_all_grows(o.db(), s.db(), m, fr.clauses);
            assert(takes_part(fr, s.db()[c]));
        }
    }
}

/// Components within all variables lie within the open ones.
proof fn lemma_divides_open(s: &SearchState, w: Set<int>, comps: Seq<Comp>)
    requires
        divides(s, w, comps),
    ensures
        divides(s, open_in(s.trail(), w), comps),
{
    let t = s.trail();
    let wo = open_in(t, w);
    assert forall|k: int| 0 <= k < comps.len() implies comp_within(s, wo, #[trigger] comps[k]) by {
        assert(comp_within(s, w, comps[k]));
        assert forall|v: int| #[trigger] var_set(comps[k].vars).contains(v) implies wo.contains(v) by {
            let z = choose|z: int| 0 <= z < comps[k].vars.len() && comps[k].vars[z] == v as u32;
            assert(!t_has(t, comps[k].vars[z] as int));
        }
    }
    assert forall|c: int|
        0 <= c < s.db().len() && !t_sat(t, #[trigger] s.db()[c]) && touches(t, s.db()[c], wo) implies claimed(
        comps,
        c,
    ) by {
        let cl = s.db()[c];
        let i = choose|i: int| 0 <= i < cl.len() && !t_has(t, (#[trigger] cl[i]).vi()) && wo.contains(cl[i].vi());
        assert(w.contains(cl[i].vi()));
        assert(touches(t, s.db()[c], w));
    }
}

/// When every component of the root is solved, the model completed by the trail satisfies the
/// formula.
#[verifier::rlimit(100)]
proof fn lemma_root_solves(
    s: &SearchState,
    db2: Seq<Seq<Lit>>,
    f: Seq<Seq<Lit>>,
    comps: Seq<Comp>,
    m1: Seq<bool>,
    m2: Seq<bool>,
)
    requires
        s.wf(),
        s.noted(),
        !s.conflicting(),
        f == s.db().take(s.n_orig()),
        grown(s.db(), db2),
        divides(s, root_frame(s).vars, comps),
        m1.len() == s.nv(),
        m2.len() == s.nv(),
        forall|k: int| 0 <= k < comps.len() ==> solves(db2, #[trigger] comps[k], valuation(m1)),
        forall|v: int|
            0 <= v < s.nv() ==> #[trigger] m2[v] == (match s.vals()[v] {
                Some(b) => b,
                None => m1[v],
            }),
    ensures
        formula_true(valuation(m2), f),
{
    let t = s.trail();
    let db = s.db();
    let vars = root_frame(s).vars;
    assert forall|ci: int| 0 <= ci < f.len() implies clause_true(valuation(m2), #[trigger] f[ci]) by {
        let cl = db[ci];
        assert(f[ci] == cl);
        assert(db2.take(db.len() as int)[ci] == db2[ci]);
        assert(db2[ci] == cl);
        assert(clause_below(db[ci], s.nv()));
        if t_sat(t, cl) {
            let i = choose|i: int| 0 <= i < cl.len() && t.contains(#[trigger] cl[i]);
            let p = choose|p: int| 0 <= p < t.len() && t[p] == cl[i];
            assert(s.vals()[t[p].vi()] == Some(t[p].pos()));
            assert(m2[cl[i].vi()] == cl[i].pos());
            assert(lit_true(valuation(m2), cl[i]));
        } else {
            assert(!t_false(t, db[ci]));
            let i = choose|i: int| 0 <= i < cl.len() && !t.contains((#[trigger] cl[i]).neg());
            assert(!t.contains(cl[i]));
            s.lemma_vals_lit(cl[i]);
            assert(vars.contains(cl[i].vi()));
            assert(touches(t, db[ci], vars));
            assert(claimed(comps, ci));
            let j = choose|j: int| 0 <= j < comps.len() && (#[trigger] comps[j]).clauses.contains(ci as u32);
            assert(comp_within(s, vars, comps[j]));
            let q = choose|q: int| 0 <= q < comps[j].clauses.len() && comps[j].clauses[q] == ci as u32;
            assert(resid_clause(db2[comps[j].clauses[q] as int], comps[j].vars, valuation(m1)));
            let x = choose|x: int|
                0 <= x < cl.len() && comps[j].vars.contains((#[trigger] cl[x]).vi() as u32) && lit_true(
                    valuation(m1),
                    cl[x],
                );
            let y = choose|y: int| 0 <= y < comps[j].vars.len() && comps[j].vars[y] == cl[x].vi() as u32;
            assert(!t_has(t, comps[j].vars[y] as int));
            s.lemma_vals(cl[x].vi());
            assert(m2[cl[x].vi()] == m1[cl[x].vi()]);
            assert(lit_true(valuation(m2), cl[x]));
        }
    }
}

impl<'a, P: BucketPolicy> Searcher<'a, P> {
    /// The formula being searched.
    pub closed spec fn formula(&self) -> Seq<Seq<Lit>> {
        self.state.db().take(self.state.n_orig())
    }

    /// The number of variables.
    pub closed spec fn nv(&self) -> int {
        self.state.nv()
    }

    /// The assignment built so far.
    pub closed spec fn values(&self) -> Seq<bool> {
        self.model@
    }

    /// Every part is valid and they fit together, and the search stands at the root.
    pub closed spec fn wf(&self) -> bool {
        &&& self.valid()
        &&& rooted(&self.state, self.formula())
        &&& forall|k: int| 0 <= k < self.pending@.len() ==> #[trigger] self.pending@[k] < self.state.db().len()
    }

    /// Nothing has been searched yet.
    pub closed spec fn fresh(&self) -> bool {
        &&& self.wf()
        &&& all_seen(&self.state)
        &&& self.state.trail().len() == 0
        &&& self.state.n_orig() == self.state.db().len()
        &&& self.pending@.len() == 0
        &&& !self.aborted
    }

    /// The configuration.
    pub closed spec fn settings(&self) -> Config {
        *self.config
    }

    /// Where a run begins.
    pub closed spec fn stage(&self) -> Stage {
        Stage {
            trail: self.state.trail(),
            lims: self.state.lims(),
            scope: root_scope(self.state.nv()),
            db: self.state.db(),
            memo: self.cache.memo(),
            queue: self.state.queue() + self.pending@,
        }
    }

    /// Prepares a search over `cnf`.
    pub fn new(cnf: &Cnf, config: &'a Config, started: Instant) -> (s: Self)
        requires
            cnf.wf(),
            cnf.nv() <= Var::MAX_INDEX + 1,
            cnf@.len() < u32::MAX,
            config.target_load > 0,
        ensures
            s.fresh(),
            s.wf(),
            s.formula() == cnf@,
            s.nv() == cnf.nv(),
            s.node_limit() == config.max_nodes,
            s.timed() == (config.timeout is Some),
            s.tally() == SearchCounters::zero(),
            s.ledger() == Ledger::fresh(*config),
            s.memo_budget() == config.cache_budget_bytes,
            s.memo_load() == config.target_load,
            s.nodes() == 0,
            s.assignments() == 0,
            s.clause_count() == cnf@.len(),
            s.learning() == config.learn,
            s.remembering() == config.cache,
            s.memo_counters() == CacheStats::zero(),
            s.memo_size() == 0,
            s.settings() == *config,
            s.instant() == (config.timeout == Some(0u128)),
            s.stage() == root_stage(cnf@, cnf.nv(), Ledger::fresh(*config).memo),
            !s.stopped(),
    {
        let state = SearchState::new(cnf);
        let n: usize = cnf.num_vars();
        let s = Searcher {
            state,
            store: ComponentStore::new(),
            analyzer: ComponentAnalyzer::new(n, cnf.num_clauses()),
            cache: ComponentCache::new(config.cache_budget_bytes, config.target_load),
            decider: DecisionMaker::new(n),
            config,
            model: vec![false; n],
            pending: Vec::new(),
            counters: SearchCounters::default(),
            started,
            aborted: false,
            root_unsat: false,
        };
        proof {
            assert(s.state.db().take(s.state.n_orig()) =~= cnf@);
            reveal(all_seen);
            assert(rooted(&s.state, cnf@)) by {
                if satisfiable(cnf@) {
                    let m = choose|m: Valuation| formula_true(m, cnf@);
                    assert(agrees(m, s.state.trail()));
                }
                assert forall|m: Valuation, c: int|
                    #![trigger agrees(m, s.state.trail()), s.state.db()[c]]
                    0 <= c < s.state.db().len() && agrees(m, s.state.trail()) && formula_true(m, cnf@) implies clause_true(
                    m,
                    s.state.db()[c],
                ) by {
                    assert(cnf@[c] == s.state.db()[c]);
                }
            }
            assert(s.state.noted()) by {
                if !s.state.conflicting() {
                    assert forall|c: int| 0 <= c < s.state.db().len() implies !t_false(
                        s.state.trail(),
                        #[trigger] s.state.db()[c],
                    ) by {
                        let cl = s.state.db()[c];
                        assert(cl.len() > 0);
                        if t_false(s.state.trail(), cl) {
                            assert(s.state.trail().contains(cl[0].neg()));
                        }
                    }
                }
            }
        }
        s
    }

    /// The counters gathered so far.
    pub fn counters(&self) -> (c: SearchCounters)
        requires
            self.wf(),
        ensures
            c == (SearchCounters {
                propagations: self.assignments(),
                learned_literals: self.learned_size() as u64,
                cache: self.memo_counters(),
                table: self.memo_shape(),
                cache_bytes: c.cache_bytes,
                ..self.tally()
            }),
            c.learned_literals == self.learned_size(),
            c.nodes == self.nodes(),
            c == (SearchCounters {
                cache: c.cache,
                table: c.table,
                cache_bytes: c.cache_bytes,
                ..self.ledger().counters
            }),
            c.cache == self.ledger().memo.stats,
            c.table.entries == self.ledger().memo.size,
            c.table.buckets == self.ledger().memo.slots,
            c.table.entries == self.memo_size(),
            c.table.occupied <= c.table.buckets && c.table.occupied <= c.table.entries,
            c.table.max_depth <= c.table.max_bucket <= c.table.entries,
            P::height_fits(c.table.max_depth as int, c.table.max_bucket as int),
            self.memo_can_hold(c.cache_bytes as int),
    {
        proof {
            self.cache.lemma_shape();
        }
        let mut c = self.counters;
        c.propagations = self.state.propagations();
        c.learned_literals = self.state.learned_literals();
        c.cache = self.cache.stats();
        c.table = self.cache.shape();
        c.cache_bytes = self.cache.memory_bytes();
        c
    }

    /// What has been counted of the events of the search, and what is remembered.
    pub closed spec fn ledger(&self) -> Ledger {
        Ledger {
            counters: SearchCounters {
                propagations: self.state.propagation_count(),
                learned_literals: self.state.learned_size() as u64,
                ..self.counters
            },
            memo: self.cache.memo(),
            pending: self.pending@,
        }
    }

    /// What the search itself has counted.
    pub closed spec fn tally(&self) -> SearchCounters {
        self.counters
    }

    /// The memo can hold that many bytes, see [`ComponentCache::can_hold`].
    pub closed spec fn memo_can_hold(&self, n: int) -> bool {
        self.cache.can_hold(n)
    }

    /// The memo's counters.
    pub closed spec fn memo_counters(&self) -> CacheStats {
        self.cache.counters()
    }

    /// The memo's byte budget.
    pub closed spec fn memo_budget(&self) -> int {
        self.cache.budget()
    }

    /// The bucket occupancy that the memo aims for.
    pub closed spec fn memo_load(&self) -> int {
        self.cache.load()
    }

    /// Entries in the memo.
    pub closed spec fn memo_size(&self) -> int {
        self.cache.size()
    }

    /// The memo's shape.
    pub closed spec fn memo_shape(&self) -> TableShape {
        self.cache.spec_shape()
    }

    /// Literals in learned clauses.
    pub closed spec fn learned_size(&self) -> int {
        self.state.learned_size()
    }

    /// Assignments made so far.
    pub closed spec fn assignments(&self) -> u64 {
        self.state.propagation_count()
    }

    /// The assignment found, meaningful only after [`Searcher::run`] returns [`Answer::Sat`].
    pub fn model(&self) -> (m: &[bool])
        ensures
            m@ == self.values(),
    {
        self.model.as_slice()
    }

    /// Splits the whole formula at the root.
    #[verifier::spinoff_prover]
    #[verifier::rlimit(100)]
    fn decompose_root(&mut self, Ghost(f): Ghost<Seq<Seq<Lit>>>) -> (r: Range<usize>)
        requires
            old(self).valid(),
            old(self).idle(),
            rooted(&old(self).state, f),
            f == old(self).state.db().take(old(self).state.n_orig()),
        ensures
            final(self).inv(seq![root_frame(&final(self).state)]),
            final(self).idle(),
            final(self).aborted == old(self).aborted,
            final(self).cache == old(self).cache,
            final(self).config == old(self).config,
            final(self).started == old(self).started,
            rooted(&final(self).state, f),
            f == final(self).state.db().take(final(self).state.n_orig()),
            final(self).state.nv() == old(self).state.nv(),
            final(self).state.learned_size() == old(self).state.learned_size(),
            r.start == old(self).store.comps().len(),
            r.start <= final(self).store.comps().len(),
            divides(
                &final(self).state,
                root_frame(&final(self).state).vars,
                final(self).store.comps().skip(r.start as int),
            ),
            paced(old(self).pace(), final(self).pace(), r.start - final(self).store.comps().len(), 0, 0),
            purified(
                *old(self).config,
                old(self).state,
                final(self).state,
                final(self).store.comps().skip(r.start as int),
            ),
            divided(
                *old(self).config,
                final(self).state,
                root_scope(old(self).state.nv()),
                final(self).store.comps().skip(r.start as int),
            ),
            counted(
                old(self).ledger(),
                final(self).ledger(),
                one_split(old(self).state, final(self).state, final(self).store.comps().skip(r.start as int)),
            ),
            final(self).counters.nodes == old(self).counters.nodes,
            final(self).counters.components == old(self).counters.components.saturating_add(
                (final(self).store.comps().len() - r.start) as u64,
            ),
            nothing_obvious(old(self).state.db()) && old(self).state.trail().len() == 0 ==> r.start
                < final(self).store.comps().len(),
    {
        let ghost s0 = *self;
        let n: usize = self.state.num_vars();
        let mut scope: Vec<u32> = Vec::new();
        for v in 0..n
            invariant
                n <= Var::MAX_INDEX + 1,
                scope@.len() == v,
                forall|k: int| 0 <= k < v ==> #[trigger] scope@[k] == k,
        {
            scope.push(v as u32);
        }
        let ghost w = Set::new(|v: int| 0 <= v < s0.state.nv());
        proof {
            assert forall|c: int| 0 <= c < s0.state.db().len() implies inside(
                s0.state.trail(),
                #[trigger] s0.state.db()[c],
                w,
            ) by {
                assert(clause_below(s0.state.db()[c], s0.state.nv()));
            }
            assert forall|v: int| #[trigger] w.contains(v) implies 0 <= v <= u32::MAX && scope@.contains(v as u32) by {
                assert(scope@[v] == v);
            }
        }
        assert(scope@ =~= root_scope(s0.state.nv()));
        let r = self.decompose(&scope, Ghost(w));
        proof {
            let fr = root_frame(&self.state);
            lemma_root_pure(&s0.state, &self.state, f, s0.state.n_orig());
            lemma_root_frame(&self.state, f);
            if nothing_obvious(s0.state.db()) && s0.state.trail().len() == 0 {
                assert(s0.state.trail() =~= Seq::<Lit>::empty());
                lemma_no_pure(s0.state.db());
                lemma_something_left(&self.state, w, self.store.comps().skip(r.start as int));
            }
            lemma_divides_open(&self.state, w, self.store.comps().skip(r.start as int));
            assert(open_in(self.state.trail(), w) =~= fr.vars);
            reveal(Searcher::inv);
            let fs = seq![fr];
            assert forall|i: int| 0 <= i < fs.len() implies frame_ok(&self.state, #[trigger] fs[i])
                && self.pending_in(fs[i]) by {
                assert(fs[i] == fr);
            }
        }
        r
    }

    /// Runs the search to completion, or until a limit is reached.
    ///
    /// A search that has ended can be run again, and goes on from what it has learned and remembered;
    /// once it was told to stop it stays stopped.
    #[verifier::spinoff_prover]
    #[verifier::rlimit(100)]
    pub fn run(&mut self) -> (a: Answer)
        requires
            old(self).wf(),
        ensures
            final(self).wf(),
            final(self).formula() == old(self).formula(),
            final(self).nv() == old(self).nv(),
            final(self).values().len() == old(self).nv(),
            a == Answer::Sat ==> formula_true(valuation(final(self).values()), old(self).formula()),
            a == Answer::Unsat ==> !satisfiable(old(self).formula()),
            final(self).node_limit() == old(self).node_limit(),
            final(self).timed() == old(self).timed(),
            a == Answer::Aborted && !old(self).stopped() ==> final(self).excused(),
            final(self).stopped() == (a == Answer::Aborted || old(self).stopped()),
            run_told(old(self).settings(), old(self).stage(), old(self).ledger(), a, final(self).ledger()),
            old(self).fresh() && settled_at_root(old(self).formula(), old(self).settings().pure_literals) ==> !(
            a is Aborted) && final(self).nodes() == old(self).nodes(),
            !(a is Backjump),
            !old(self).remembering() ==> final(self).memo_counters() == old(self).memo_counters()
                && final(self).memo_size() == old(self).memo_size(),
            !old(self).stopped() ==> paced(old(self).pace(), final(self).pace(), 0, 0, 0),
            old(self).tally().components == 0 ==> final(self).tally().nodes > 0 || final(self).tally().components == 0,
            old(self).fresh() && nothing_obvious(old(self).formula()) ==> final(self).tally().nodes > 0,
    {
        let ghost s0 = *self;
        let ghost f = self.formula();
        let ghost cfg = *s0.config;
        let ghost st = s0.stage();
        let ghost new = s0.fresh();
        let ghost mut first = true;
        let ghost mut before = s0.state;
        let ghost mut early = s0.ledger();
        let ghost mut offered = s0.state.queue() + s0.pending@;
        proof {
            lemma_open_start(cfg, st, 0, s0.ledger());
        }
        let conflict = self.state.in_conflict();
        proof {
            if new {
                assert(f =~= s0.state.db());
            }
            if new && nothing_obvious(f) {
                lemma_nothing_forced(&s0.state);
            }
        }
        if conflict {
            proof {
                lemma_paced_refl(s0.pace());
                lemma_root_conflict(&s0.state, f);
                lemma_counted_forced(s0.ledger(), s0.ledger(), 0);
                assert(comes_to(s0.state, s0.state.queue() + s0.pending@, s0.state, 0));
                lemma_told_refuted(
                    cfg,
                    st,
                    s0.ledger(),
                    &s0.state,
                    s0.state.queue() + s0.pending@,
                    s0.ledger(),
                    s0.state,
                    s0.ledger(),
                );
            }
            return Answer::Unsat;
        }
        let ok = self.propagate();
        proof {
            lemma_root_propagated(&s0.state, &self.state, f);
            if new && nothing_obvious(f) {
                lemma_nothing_forced(&self.state);
            }
        }
        if !ok {
            proof {
                lemma_told_refuted(
                    cfg,
                    st,
                    s0.ledger(),
                    &s0.state,
                    s0.state.queue() + s0.pending@,
                    s0.ledger(),
                    self.state,
                    self.ledger(),
                );
            }
            return Answer::Unsat;
        }
        // The root owns decision level zero. A clause learned anywhere in the search that asserts
        // at level zero unwinds to here, where it is propagated and everything is split again.
        loop
            invariant
                s0 == *old(self),
                s0.wf(),
                cfg == *s0.config,
                st == s0.stage(),
                new == s0.fresh(),
                before.lims() == st.lims,
                self.state.propagated_from(&before),
                rounds_open(cfg, st, 0, s0.ledger(), before.trail(), before.db(), offered, early),
                settles(before, offered, self.state),
                counted(early, self.ledger(), some_forced(self.state.trail().len() - before.trail().len())),
                early.memo == self.cache.memo(),
                self.aborted == s0.aborted,
                new && first ==> all_seen(&self.state) && before.trail().len() == 0 && self.state.db() == f,
                new && settled_at_root(f, cfg.pure_literals) ==> first,
                first ==> self.counters.nodes == s0.counters.nodes,
                f == s0.formula(),
                self.valid(),
                self.idle(),
                self.config == s0.config,
                self.started == s0.started,
                !s0.config.cache ==> self.cache == s0.cache,
                self.state.nv() == s0.state.nv(),
                rooted(&self.state, f),
                f == self.state.db().take(self.state.n_orig()),
                !s0.aborted ==> paced(s0.pace(), self.pace(), 0, 0, 0),
                s0.counters.components == 0 ==> self.counters.nodes > 0 || self.counters.components == 0,
                new && nothing_obvious(f) ==> self.counters.nodes > 0 || (self.state.trail().len() == 0 && self.state.db() == f),
            decreases self.budget(),
        {
            let ghost top = *self;
            let mark = self.store.mark();
            let roots = self.decompose_root(Ghost(f));
            let ghost s1 = *self;
            let ghost fr = root_frame(&s1.state);
            let ghost fs = seq![fr];
            let answer = self.solve_all(roots.start, 1, Ghost(fs), Ghost(fr.vars));
            let ghost s2 = *self;
            proof {
                let k = s1.store.comps().len() - roots.start;
                if !s0.aborted {
                    lemma_paced_trans(s0.pace(), top.pace(), s1.pace(), 0, 0, 0, -k, 0, 0);
                    lemma_paced_trans(s0.pace(), s1.pace(), s2.pace(), -k, 0, 0, k, 0, 0);
                    lemma_paced_nodes(s1.pace(), s2.pace(), k, 0, 0);
                }
                let comps = s1.store.comps().skip(roots.start as int);
                reveal(Searcher::told_some);
                let n = choose|n: int|
                    (n == s1.store.comps().len() - roots.start || answer != Answer::Sat) && #[trigger] s2.told_all(
                        &s1,
                        roots.start as int,
                        1,
                        n,
                        answer,
                    );
                assert(led_to(before, offered, top.state)) by {
                    reveal(led_to);
                }
                lemma_told_split(
                    cfg,
                    st,
                    0,
                    s0.ledger(),
                    &before,
                    offered,
                    early,
                    top.state,
                    top.ledger(),
                    s1.state,
                    comps,
                    s1.ledger(),
                    n,
                    answer,
                    s2.state.db(),
                    s2.ledger(),
                );
                if new && settled_at_root(f, cfg.pure_literals) {
                    lemma_settled(cfg, &before, &top.state, &s1.state, f, comps);
                }
                first = false;
                s1.lemma_inv(fs);
                s2.lemma_inv(fs);
                s2.lemma_inv_frame(fs, 0);
                assert(fs[0] == fr);
                lemma_root_learned(&s1.state, &s2.state, f);
            }
            match answer {
                Answer::Sat => {
                    self.complete_model();
                    proof {
                        let comps = s1.store.comps().skip(roots.start as int);
                        assert forall|k: int| 0 <= k < comps.len() implies solves(
                            s2.state.db(),
                            #[trigger] comps[k],
                            valuation(s2.model@),
                        ) by {
                            assert(comps[k] == s1.store.comps()[k + roots.start]);
                        }
                        lemma_same_vals(&s1.state, &s2.state);
                        lemma_root_solves(&s1.state, s2.state.db(), f, comps, s2.model@, self.model@);
                    }
                    return Answer::Sat;
                },
                Answer::Unsat => {
                    proof {
                        assert(refuted(s2.state.db(), s1.state.trail(), fs[0].clauses));
                        if satisfiable(f) {
                            let m = choose|m: Valuation| #[trigger] agrees(m, s1.state.trail()) && formula_true(m, f);
                            lemma_root_clauses(&s1.state, f, m);
                            lemma_sat_all_grows(s1.state.db(), s2.state.db(), m, fr.clauses);
                        }
                    }
                    return Answer::Unsat;
                },
                Answer::Aborted => {
                    return Answer::Aborted;
                },
                Answer::Backjump(_) => {
                    if self.root_unsat {
                        return Answer::Unsat;
                    }
                },
            }
            self.store.truncate(mark);
            let ghost s3 = *self;
            assert(s3.valid());
            assert(s3.state.lims() =~= st.lims);
            assert(s3.state.queue() + s3.pending@ =~= s2.pending@);
            if !self.propagate() {
                // A conflict with no decisions above it is the formula's own.
                proof {
                    if !s0.aborted {
                        lemma_paced_trans(s0.pace(), s2.pace(), self.pace(), 0, 0, 0, 0, 0, 0);
                    }
                    lemma_root_propagated(&s3.state, &self.state, f);
                    lemma_told_refuted(
                        cfg,
                        st,
                        s0.ledger(),
                        &s3.state,
                        s3.state.queue() + s3.pending@,
                        s3.ledger(),
                        self.state,
                        self.ledger(),
                    );
                }
                return Answer::Unsat;
            }
            proof {
                if !s0.aborted {
                    lemma_paced_trans(s0.pace(), s2.pace(), self.pace(), 0, 0, 0, 0, 0, 0);
                }
                lemma_root_propagated(&s3.state, &self.state, f);
                before = s3.state;
                early = s3.ledger();
                offered = s3.state.queue() + s3.pending@;
            }
        }
    }

    /// Picks up everything fixed by top-level propagation and by pure literals. Variables that
    /// appear in no active clause keep their default, which is always sound because every
    /// clause containing them is satisfied.
    fn complete_model(&mut self)
        requires
            old(self).valid(),
        ensures
            final(self).counters == old(self).counters,
            final(self).valid(),
            final(self).state == old(self).state,
            final(self).config == old(self).config,
            final(self).started == old(self).started,
            final(self).aborted == old(self).aborted,
            final(self).cache == old(self).cache,
            final(self).pending == old(self).pending,
            forall|v: int|
                0 <= v < old(self).state.nv() ==> #[trigger] final(self).model@[v] == (match old(self).state.vals()[v] {
                    Some(b) => b,
                    None => old(self).model@[v],
                }),
    {
        let ghost s0 = *self;
        let n: usize = self.state.num_vars();
        for v in 0..n
            invariant
                s0.valid(),
                n == s0.state.nv(),
                self.state == s0.state,
                self.store == s0.store,
                self.cache == s0.cache,
                self.config == s0.config,
                self.started == s0.started,
                self.aborted == s0.aborted,
                self.counters == s0.counters,
                self.pending == s0.pending,
                self.analyzer == s0.analyzer,
                self.decider == s0.decider,
                self.root_unsat == s0.root_unsat,
                self.model@.len() == s0.model@.len(),
                forall|x: int|
                    0 <= x < n ==> #[trigger] self.model@[x] == (if x < v {
                        match s0.state.vals()[x] {
                            Some(b) => b,
                            None => s0.model@[x],
                        }
                    } else {
                        s0.model@[x]
                    }),
        {
            match self.state.value_of_index(v) {
                Some(b) => {
                    self.model[v] = b;
                },
                None => {},
            }
        }
    }
}

/// No unit clause was missed.
#[verifier::opaque]
spec fn all_seen(s: &SearchState) -> bool {
    s.covered()
}

/// A clause with one open literal has at most one.
proof fn lemma_one_free(c: Seq<Lit>, vals: Seq<Option<bool>>, p: int)
    requires
        forall|q: int| 0 <= q < c.len() && q != p ==> vals[(#[trigger] c[q]).vi()] is Some,
    ensures
        n_free(c, vals) <= 1,
        !(0 <= p < c.len()) ==> n_free(c, vals) == 0,
    decreases c.len(),
{
    if c.len() > 0 {
        let d = c.drop_last();
        assert forall|q: int| 0 <= q < d.len() && q != p implies vals[(#[trigger] d[q]).vi()] is Some by {
            assert(d[q] == c[q]);
        }
        lemma_one_free(d, vals, p);
        assert(c[c.len() - 1] == c.last());
    }
}

/// Once nothing waits to be propagated, a clause that forces a literal is satisfied.
proof fn lemma_unit_covered(at: &SearchState, c: int, l: Lit)
    requires
        at.wf(),
        at.covered(),
        at.queue().len() == 0,
        !at.conflicting(),
        0 <= c < at.db().len(),
        forces(at.db()[c], l, at.trail()),
    ensures
        t_sat(at.trail(), at.db()[c]),
{
    let cl = at.db()[c];
    let t = at.trail();
    assert(clause_below(cl, at.nv()));
    at.lemma_clause_counts(cl);
    let p = choose|p: int|
        0 <= p < cl.len() && #[trigger] cl[p] == l && forall|q: int|
            0 <= q < cl.len() && q != p ==> t.contains((#[trigger] cl[q]).neg());
    assert forall|q: int| 0 <= q < cl.len() && q != p implies at.vals()[(#[trigger] cl[q]).vi()] is Some by {
        assert(t.contains(cl[q].neg()));
        let i = choose|i: int| 0 <= i < t.len() && t[i] == cl[q].neg();
        assert(t[i].vi() == cl[q].vi());
        at.lemma_vals(cl[q].vi());
    }
    lemma_one_free(cl, at.vals(), p);
    if !t_sat(t, cl) {
        assert(n_true(at.db()[c], at.vals()) == 0);
        assert(at.queue().contains(c as u32));
    }
}

/// Where no literal of the components is pure, an active open literal has an active complement.
proof fn lemma_complement_active(s: &SearchState, comps: Seq<Comp>, l: Lit)
    requires
        s.wf(),
        divides(s, root_frame(s).vars, comps),
        pure_list(s.db(), s.trail(), comps).len() == 0,
        lit_active(s.db(), s.trail(), l),
        !t_has(s.trail(), l.vi()),
    ensures
        lit_active(s.db(), s.trail(), l.neg()),
{
    let t = s.trail();
    let c = choose|c: int| 0 <= c < s.db().len() && !t_sat(t, #[trigger] s.db()[c]) && s.db()[c].contains(l);
    let cl = s.db()[c];
    assert(clause_below(cl, s.nv()));
    let p = choose|p: int| 0 <= p < cl.len() && cl[p] == l;
    assert(cl[p].vi() < s.nv());
    assert(touches(t, cl, root_frame(s).vars));
    assert(claimed(comps, c));
    let j = choose|j: int| 0 <= j < comps.len() && (#[trigger] comps[j]).clauses.contains(c as u32);
    assert(comp_within(s, root_frame(s).vars, comps[j]));
    assert(inside(t, cl, var_set(comps[j].vars)));
    assert(var_set(comps[j].vars).contains(cl[p].vi()));
    let k = choose|k: int| 0 <= k < comps[j].vars.len() && comps[j].vars[k] == l.vi() as u32;
    lemma_none_pure(s.db(), t, comps, j, k);
    crate::lit::lemma_mk_lit(l);
}

/// Where a formula is settled at the root, the first split finds no component.
proof fn lemma_settled(cfg: Config, o: &SearchState, at: &SearchState, split: &SearchState, f: Seq<Seq<Lit>>, comps: Seq<Comp>)
    requires
        settled_at_root(f, cfg.pure_literals),
        at.wf(),
        all_seen(at),
        at.queue().len() == 0,
        at.noted(),
        !at.conflicting(),
        at.propagated_from(o),
        o.trail().len() == 0,
        at.db() == f,
        purified(cfg, *at, *split, comps),
        divides(split, root_frame(split).vars, comps),
    ensures
        comps.len() == 0,
{
    reveal(all_seen);
    reveal(purified);
    let t = at.trail();
    let u = split.trail();
    assert(all_forced(f, t)) by {
        assert forall|i: int| 0 <= i < t.len() implies !t_has(t.take(i), (#[trigger] t[i]).vi()) && some_forces(
            f,
            t[i],
            t.take(i),
        ) by {
            assert(at.reason_ok(t[i], i));
            let r = at.reasons()[t[i].vi()] as int;
            assert(forces(f[r], t[i], t.take(i)));
            assert(some_forces(f, t[i], t.take(i)));
            if t_has(t.take(i), t[i].vi()) {
                let j = choose|j: int| 0 <= j < t.take(i).len() && (#[trigger] t.take(i)[j]).vi() == t[i].vi();
                assert(t[j].vi() == t[i].vi());
            }
        }
    }
    assert(none_forced(f, t)) by {
        assert forall|c: int, l: Lit| 0 <= c < f.len() && #[trigger] forces(f[c], l, t) implies t_sat(t, f[c]) by {
            lemma_unit_covered(at, c, l);
        }
    }
    if cfg.pure_literals {
        assert forall|l: Lit| #[trigger] lit_active(f, u, l) && !t_has(u, l.vi()) implies lit_active(
            f,
            u,
            l.neg(),
        ) by {
            lemma_complement_active(split, comps, l);
        }
        assert(none_pure(f, u));
    }
    assert(rests_at(f, cfg.pure_literals, t, u));
    if comps.len() > 0 {
        let comp = comps[0];
        assert(comp_within(split, root_frame(split).vars, comp));
        let c = comp.clauses[0];
        assert(comp.clauses.contains(c));
        assert(t_sat(u, f[c as int]));
    }
}

/// A falsified clause at the root means there is no model.
proof fn lemma_root_conflict(s: &SearchState, f: Seq<Seq<Lit>>)
    requires
        s.wf(),
        s.conflicting(),
        rooted(s, f),
    ensures
        !satisfiable(f),
{
    if satisfiable(f) {
        let m = choose|m: Valuation| #[trigger] agrees(m, s.trail()) && formula_true(m, f);
        assert(clause_true(m, s.db()[s.conflict_at()]));
        lemma_falsified(s.trail(), s.db()[s.conflict_at()], m);
    }
}

} // verus!
