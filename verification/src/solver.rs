//! The public entry point: run a configuration against a formula and get a verdict.

use vstd::prelude::*;
use std::time::Instant;
use crate::cache::table::TableShape;
use crate::cache::{Avl, BucketKind, BucketPolicy, CacheStats, Chain, Splay, Unbalanced};
use crate::clock;
use crate::cnf::{lemma_normalization_is_equivalent, norm_formula, Cnf, Model};
use crate::config::{Algorithm, Config};
use crate::dp::{self, dp_result, DpOutcome, DpStats};
use crate::elim::Reconstruction;
use crate::elim::reconstruction::{lemma_replay_len, replay, replayable, Undo};
use crate::lit::{Lit, Var};
use crate::preprocess::{self, Limits, Preprocessed, PreprocessStats};
use crate::preprocess::pipeline::{preprocess_result, reconstructs};
use crate::search::{Answer, SearchCounters, Searcher};
use crate::search::pace::lemma_balanced;
use crate::search::searcher::{root_stage, CLOCK_CHECK_INTERVAL};
use crate::search::trace::{lemma_no_pure_literals, lemma_run_reported, run_told, settled_at_root, Ledger};
use crate::semantics::{clause_true, formula_below, formula_true, nothing_obvious, satisfiable, valuation, Valuation};

verus! {

/// Why a solve gave up.
#[derive(Copy, Clone, PartialEq, Eq, Debug, Structural)]
pub enum AbortReason {
    /// The wall-clock limit expired.
    Timeout,
    /// The search-node limit was reached.
    NodeLimit,
    /// Davis–Putnam exceeded its clause limit.
    Resources,
}

impl AbortReason {
    /// The reason as text.
    pub open spec fn spec_name(self) -> Seq<char> {
        match self {
            AbortReason::Timeout => "timeout"@,
            AbortReason::NodeLimit => "node limit"@,
            AbortReason::Resources => "resource limit"@,
        }
    }

    /// The reason, as it is reported to people.
    pub fn name(self) -> (s: &'static str)
        ensures
            s@ == self.spec_name(),
    {
        match self {
            AbortReason::Timeout => "timeout",
            AbortReason::NodeLimit => "node limit",
            AbortReason::Resources => "resource limit",
        }
    }
}

/// The verdict.
#[derive(Clone, Debug)]
pub enum Outcome {
    /// Satisfiable, with a total assignment over the input's variables.
    Sat(Model),
    /// Unsatisfiable.
    Unsat,
    /// No answer within the configured limits.
    Unknown(AbortReason),
}

impl Outcome {
    /// The status line as text.
    pub open spec fn spec_status_line(self) -> Seq<char> {
        match self {
            Outcome::Sat(_) => "s SATISFIABLE"@,
            Outcome::Unsat => "s UNSATISFIABLE"@,
            Outcome::Unknown(_) => "s UNKNOWN"@,
        }
    }

    /// The exit code as a number.
    pub open spec fn spec_exit_code(self) -> i32 {
        match self {
            Outcome::Sat(_) => 10,
            Outcome::Unsat => 20,
            Outcome::Unknown(_) => 0,
        }
    }

    /// The DIMACS status line for this outcome.
    pub fn status_line(&self) -> (s: &'static str)
        ensures
            s@ == self.spec_status_line(),
    {
        match self {
            Outcome::Sat(_) => "s SATISFIABLE",
            Outcome::Unsat => "s UNSATISFIABLE",
            Outcome::Unknown(_) => "s UNKNOWN",
        }
    }

    /// The conventional SAT competition exit code: 10 satisfiable, 20 unsatisfiable, 0 unknown.
    ///
    /// Matching this is what lets the solver be dropped into the same harnesses as `MiniSat`,
    /// `CaDiCaL` and Kissat, and compared against them without special-casing.
    pub fn exit_code(&self) -> (c: i32)
        ensures
            c == self.spec_exit_code(),
    {
        match self {
            Outcome::Sat(_) => 10,
            Outcome::Unsat => 20,
            Outcome::Unknown(_) => 0,
        }
    }

    /// The verdict is right about the formula `f` over `n` variables: a model covers them all and
    /// satisfies it, and a formula called unsatisfiable is.
    pub open spec fn right_about(self, f: Seq<Seq<Lit>>, n: int) -> bool {
        match self {
            Outcome::Sat(m) => m@.len() == n && formula_true(valuation(m@), f),
            Outcome::Unsat => !satisfiable(f),
            Outcome::Unknown(_) => true,
        }
    }
}

/// Exit code and status line tell the three kinds of verdict apart, and agree with each other.
pub proof fn lemma_exit_codes_tell_verdicts_apart(a: Outcome, b: Outcome)
    ensures
        a.spec_exit_code() == b.spec_exit_code() <==> (a is Sat == b is Sat && a is Unsat == b is Unsat),
        a.spec_exit_code() == b.spec_exit_code() <==> a.spec_status_line() == b.spec_status_line(),
{
    reveal_strlit("s SATISFIABLE");
    reveal_strlit("s UNSATISFIABLE");
    reveal_strlit("s UNKNOWN");
    assert("s SATISFIABLE"@.len() == 13 && "s UNSATISFIABLE"@.len() == 15 && "s UNKNOWN"@.len() == 9);
}

/// Any two verdicts on one formula agree, whatever the configurations they come from: one says
/// satisfiable and the other unsatisfiable for no formula.
pub proof fn lemma_verdicts_agree(f: Seq<Seq<Lit>>, n: int, a: Outcome, b: Outcome)
    requires
        a.right_about(f, n),
        b.right_about(f, n),
        !(a is Unknown),
        !(b is Unknown),
    ensures
        a is Sat <==> satisfiable(f),
        a is Sat <==> b is Sat,
        a is Unsat <==> b is Unsat,
{
}

/// Everything measured about one solve.
#[derive(Copy, Clone, Debug)]
pub struct SolveStats {
    /// Algorithm used.
    pub algorithm: Algorithm,
    /// Bucket policy used, when the memo was active.
    pub bucket: Option<BucketKind>,
    /// Variables in the input.
    pub input_vars: usize,
    /// Clauses in the input.
    pub input_clauses: usize,
    /// Preprocessing counters, when preprocessing ran.
    pub preprocess: Option<PreprocessStats>,
    /// Search counters, when the search ran.
    pub search: Option<SearchCounters>,
    /// Davis–Putnam counters, for that algorithm.
    pub dp: Option<DpStats>,
    /// Total wall-clock time, in nanoseconds.
    pub elapsed: u128,
}

/// A verdict plus its measurements.
#[derive(Clone, Debug)]
pub struct SolveResult {
    /// The verdict.
    pub outcome: Outcome,
    /// What it cost.
    pub stats: SolveStats,
}

impl SolveResult {
    /// Re-checks a satisfiable verdict against `cnf`.
    ///
    /// Returns `Ok(())` for unsatisfiable and unknown verdicts, since there is nothing to check,
    /// and otherwise the index of the first clause the model fails to satisfy.
    pub fn verify(&self, cnf: &Cnf) -> (r: Result<(), usize>)
        requires
            cnf.wf(),
            self.outcome matches Outcome::Sat(m) ==> formula_below(cnf@, m@.len() as int),
        ensures
            r is Ok <==> (self.outcome matches Outcome::Sat(m) ==> formula_true(valuation(m@), cnf@)),
            r matches Err(i) ==> i < cnf@.len() && !clause_true(valuation(self.outcome->Sat_0@), cnf@[i as int])
                && forall|j: int|
                0 <= j < i ==> clause_true(valuation(self.outcome->Sat_0@), #[trigger] cnf@[j]),
    {
        match &self.outcome {
            Outcome::Sat(model) => match cnf.first_falsified_clause(model) {
                Some(i) => Err(i),
                None => Ok(()),
            },
            _ => Ok(()),
        }
    }
}

/// A formula that a solve accepts under a configuration: its variables can be numbered, and for the
/// search its clauses can be too, and the memo has a load to aim for.
pub open spec fn solvable(cnf: &Cnf, config: &Config) -> bool {
    &&& cnf.wf()
    &&& cnf.nv() <= Var::MAX_INDEX + 1
    &&& config.algorithm != Algorithm::DavisPutnam ==> cnf@.len() < u32::MAX && config.target_load > 0
}

/// The verdict that a Davis–Putnam run stands for.
pub open spec fn outcome_of_dp(o: DpOutcome) -> Outcome {
    match o {
        DpOutcome::Sat(m) => Outcome::Sat(m),
        DpOutcome::Unsat => Outcome::Unsat,
        DpOutcome::OutOfResources { .. } => Outcome::Unknown(AbortReason::Resources),
    }
}

/// A run of the Davis–Putnam procedure explains the result.
pub open spec fn explained_by_dp(cnf: &Cnf, config: &Config, r: SolveResult, o: DpOutcome) -> bool {
    &&& r.stats.dp is Some
    &&& dp_result(cnf@, cnf.nv(), config.dp_clause_limit, o, r.stats.dp->0)
    &&& r.outcome == outcome_of_dp(o)
}

/// How a search ended that gave the outcome.
pub open spec fn answer_for(o: Outcome) -> Answer {
    match o {
        Outcome::Sat(_) => Answer::Sat,
        Outcome::Unsat => Answer::Unsat,
        Outcome::Unknown(_) => Answer::Aborted,
    }
}

/// Some run from an empty memo ends with the answer and with the ledger, whose memo is the one that
/// the counters report on.
pub open spec fn searched_with(config: &Config, f: Seq<Seq<Lit>>, n: int, a: Answer, e: Ledger) -> bool {
    let start = Ledger::fresh(*config);
    &&& run_told(*config, root_stage(f, n, start.memo), start, a, e)
    &&& e.counters.cache == e.memo.stats
    &&& e.counters.table.entries == e.memo.size
    &&& e.counters.table.buckets == e.memo.slots
}

/// A search over `f`, in `n` variables, explains the result: some run that the configuration calls
/// for ends as the outcome says, and its events are what the counters counted. It visits a component
/// where nothing is obvious, and none, but with an answer, where the formula is settled at the root.
pub open spec fn explained_by_search(config: &Config, f: Seq<Seq<Lit>>, n: int, r: SolveResult) -> bool {
    &&& r.stats.search is Some
    &&& exists|e: Ledger| #[trigger]
        searched_with(config, f, n, answer_for(r.outcome), e) && e.counters == r.stats.search->0
    &&& buckets_fit(config.bucket, r.stats.search->0.table)
    &&& nothing_obvious(f) ==> r.stats.search->0.nodes > 0
    &&& settled_at_root(f, config.pure_literals) ==> !(r.outcome is Unknown) && r.stats.search->0.nodes == 0
}

/// A run of the preprocessor explains the result, as far as it settled the question: a refuted
/// input is unsatisfiable, an input without clauses left has the model that all-false replays to,
/// and otherwise the search ran.
pub open spec fn explained_by_preprocessing(
    cnf: &Cnf,
    config: &Config,
    r: SolveResult,
    limits: Limits,
    p: Preprocessed,
) -> bool {
    &&& limits.max_resolvent_len == 16 && limits.max_occurrences == 64 && limits.work_budget == 20_000_000
        && limits.rounds == 4
    &&& preprocess_result(cnf@, cnf.nv(), limits, p)
    &&& r.stats.preprocess == Some(p.stats)
    &&& match p.verdict {
        Some(false) => r.outcome is Unsat && r.stats.search is None,
        Some(true) => r.stats.search is None && r.outcome is Sat && r.outcome->Sat_0@ == replay(
            p.reconstruction@,
            Seq::new(cnf.nv() as nat, |i: int| false),
        ),
        None => explained_by_search(config, p.cnf@, cnf.nv(), r),
    }
}

/// What a solve reports beside its verdict.
pub open spec fn stats_fit(cnf: &Cnf, config: &Config, r: SolveResult) -> bool {
    let dp = config.algorithm == Algorithm::DavisPutnam;
    let s = r.stats;
    &&& s.algorithm == config.algorithm
    &&& s.bucket == if !dp && config.cache {
        Some(config.bucket)
    } else {
        None
    }
    &&& s.input_vars == cnf.nv()
    &&& s.input_clauses == cnf@.len()
    &&& dp ==> s.preprocess is None && s.search is None && exists|o: DpOutcome| explained_by_dp(cnf, config, r, o)
    &&& !dp ==> s.dp is None
    &&& s.search is Some ==> s.search->0.consistent()
    &&& !dp && config.preprocess ==> exists|l: Limits, p: Preprocessed| #[trigger]
        explained_by_preprocessing(cnf, config, r, l, p)
    &&& !dp && !config.preprocess ==> s.preprocess is None && explained_by_search(
        config,
        norm_formula(cnf@),
        cnf.nv(),
        r,
    )
}

/// A solve gives up for a reason: a limit that was set and, of two, the one that was reached. For the
/// time limit that is only at a visit at which the clock is read.
pub open spec fn gave_up_for(config: &Config, r: SolveResult, reason: AbortReason) -> bool {
    let dp = config.algorithm == Algorithm::DavisPutnam;
    match reason {
        AbortReason::Resources => dp,
        AbortReason::NodeLimit => {
            &&& !dp
            &&& config.max_nodes is Some
            &&& r.stats.search is Some
            &&& r.stats.search->0.nodes > config.max_nodes->0
        },
        AbortReason::Timeout => {
            &&& !dp
            &&& config.timeout is Some
            &&& r.stats.search is Some
            &&& r.stats.search->0.nodes > 0
            &&& r.stats.search->0.nodes % CLOCK_CHECK_INTERVAL == 0
            &&& config.max_nodes is Some ==> r.stats.search->0.nodes <= config.max_nodes->0
        },
    }
}

/// A solve gives up for one reason only, and for none that was not set: where it blames the nodes there
/// were more than the limit, where it blames the time there were not, and where it blames the clauses
/// there was no search.
pub proof fn lemma_one_reason_to_give_up(config: &Config, r: SolveResult, a: AbortReason, b: AbortReason)
    requires
        gave_up_for(config, r, a),
        gave_up_for(config, r, b),
    ensures
        a == b,
        a == AbortReason::Timeout ==> config.timeout is Some && r.stats.search is Some,
        a == AbortReason::NodeLimit <==> config.algorithm != Algorithm::DavisPutnam && config.max_nodes is Some
            && r.stats.search is Some && r.stats.search->0.nodes > config.max_nodes->0,
        a == AbortReason::Resources <==> config.algorithm == Algorithm::DavisPutnam,
{
}

/// The buckets are as deep as their kind may be: logarithmically for AVL trees, and just as deep as
/// they are large for chains.
pub open spec fn buckets_fit(kind: BucketKind, table: TableShape) -> bool {
    match kind {
        BucketKind::Avl => Avl::height_fits(table.max_depth as int, table.max_bucket as int),
        BucketKind::Unbalanced => Unbalanced::height_fits(table.max_depth as int, table.max_bucket as int),
        BucketKind::Splay => Splay::height_fits(table.max_depth as int, table.max_bucket as int),
        BucketKind::Chain => Chain::height_fits(table.max_depth as int, table.max_bucket as int),
    }
}

/// More nodes were visited than the limit allows.
pub open spec fn over_node_limit(config: &Config, c: SearchCounters) -> bool {
    config.max_nodes is Some && c.nodes > config.max_nodes->0
}

/// The search kept to its configuration: it visited at most one node more than the limit, and stopped
/// if it did; where no time was allowed it stopped when the clock was first read; it was never deeper
/// than it had visited nodes, the first being at depth one; with learning off it learned nothing;
/// with pure literals off it assigned none; with the memo on that was asked at every visit but the one
/// at which the search stopped, and with the memo off never, so that it stayed empty; and where there
/// was a component to visit it visited one.
pub open spec fn search_kept_to(config: &Config, stopped: bool, c: SearchCounters) -> bool {
    &&& config.max_nodes is Some ==> c.nodes <= config.max_nodes->0 + 1
    &&& over_node_limit(config, c) ==> stopped
    &&& config.timeout == Some(0u128) ==> c.nodes <= CLOCK_CHECK_INTERVAL && (c.nodes == CLOCK_CHECK_INTERVAL ==> stopped)
    &&& c.nodes < u64::MAX && c.cache.lookups < u64::MAX && c.cache.hits < u64::MAX ==> {
        &&& config.cache ==> c.cache.lookups == c.nodes - if stopped {
            1int
        } else {
            0int
        }
        &&& c.cache.hits <= c.cache.lookups
    }
    &&& c.max_depth <= c.nodes
    &&& c.nodes > 0 ==> c.max_depth > 0
    &&& !config.learn ==> c.learned == 0 && c.discarded == 0 && c.backjumps == 0 && c.levels_skipped == 0
    &&& !config.pure_literals ==> c.pure_literals == 0
    &&& c.components > 0 ==> c.nodes > 0
    &&& !config.cache ==> c.cache == CacheStats::zero() && c.table.entries == 0
    &&& c.table.occupied <= c.table.buckets && c.table.occupied <= c.table.entries
    &&& c.table.max_depth <= c.table.max_bucket <= c.table.entries
}

/// Runs the search with a concrete bucket policy, so every call is statically dispatched.
fn run<P: BucketPolicy>(cnf: &Cnf, config: &Config, started: Instant) -> (r: (
    Answer,
    Vec<bool>,
    SearchCounters,
))
    requires
        P::spec_name() == config.bucket.spec_name(),
        cnf.wf(),
        cnf.nv() <= Var::MAX_INDEX + 1,
        cnf@.len() < u32::MAX,
        config.target_load > 0,
    ensures
        r.1@.len() == cnf.nv(),
        r.0 == Answer::Sat ==> formula_true(valuation(r.1@), cnf@),
        r.0 == Answer::Unsat ==> !satisfiable(cnf@),
        r.0 == Answer::Aborted ==> (config.max_nodes is Some && r.2.nodes > config.max_nodes->0) || (config.timeout is Some && r.2.nodes > 0
            && r.2.nodes % CLOCK_CHECK_INTERVAL == 0),
        !(r.0 is Backjump),
        r.2.consistent(),
        search_kept_to(config, r.0 == Answer::Aborted, r.2),
        P::height_fits(r.2.table.max_depth as int, r.2.table.max_bucket as int),
        nothing_obvious(cnf@) ==> r.2.nodes > 0,
        exists|e: Ledger| #[trigger] searched_with(config, cnf@, cnf.nv(), r.0, e) && e.counters == r.2,
        settled_at_root(cnf@, config.pure_literals) ==> !(r.0 is Aborted) && r.2.nodes == 0,
{
    let mut searcher = Searcher::<P>::new(cnf, config, started);
    let ghost start = searcher.pace();
    let answer = searcher.run();
    proof {
        lemma_balanced(start, searcher.pace());
    }
    let ghost told = searcher.ledger();
    let found = searcher.model();
    let mut values: Vec<bool> = Vec::new();
    for i in 0..found.len()
        invariant
            values@ == found@.take(i as int),
    {
        values.push(found[i]);
        assert(found@.take(i + 1) =~= found@.take(i as int).push(found@[i as int]));
    }
    assert(found@.take(found@.len() as int) =~= found@);
    let counters = searcher.counters();
    proof {
        let begun = Ledger::fresh(*config);
        let ended = Ledger { counters, ..told };
        let st = root_stage(cnf@, cnf.nv(), begun.memo);
        lemma_run_reported(*config, st, begun, answer, told, ended);
        assert(searched_with(config, cnf@, cnf.nv(), answer, ended));
        if !config.pure_literals {
            lemma_no_pure_literals(*config, st, begun, answer, ended);
        }
    }
    (answer, values, counters)
}

/// Solves `cnf` on the calling thread.
///
/// The search recurses once per decision: the caller guarantees a stack deep enough for that.
pub fn solve_here(cnf: &Cnf, config: &Config) -> (r: SolveResult)
    requires
        solvable(cnf, config),
    ensures
        r.outcome.right_about(cnf@, cnf.nv()),
        r.outcome matches Outcome::Unknown(reason) ==> gave_up_for(config, r, reason),
        r.stats.search matches Some(c) ==> search_kept_to(config, r.outcome is Unknown, c) && (over_node_limit(
            config,
            c,
        ) ==> r.outcome == Outcome::Unknown(AbortReason::NodeLimit)),
        stats_fit(cnf, config, r),
{
    let started = clock::now();
    let input_vars: usize = cnf.num_vars();
    let input_clauses: usize = cnf.num_clauses();
    let memo = config.algorithm != Algorithm::DavisPutnam && config.cache;
    let bucket = if memo {
        Some(config.bucket)
    } else {
        None
    };
    if config.algorithm == Algorithm::DavisPutnam {
        let (o, dp_stats) = dp::solve(cnf, config.dp_clause_limit);
        let stats = SolveStats {
            algorithm: config.algorithm,
            bucket,
            input_vars,
            input_clauses,
            preprocess: None,
            search: None,
            dp: Some(dp_stats),
            elapsed: clock::since(&started),
        };
        let ghost ended = o;
        let outcome = match o {
            DpOutcome::Sat(model) => Outcome::Sat(model),
            DpOutcome::Unsat => Outcome::Unsat,
            DpOutcome::OutOfResources { .. } => Outcome::Unknown(AbortReason::Resources),
        };
        let r = SolveResult { outcome, stats };
        assert(explained_by_dp(cnf, config, r, ended));
        return r;
    }
    // Preprocess, unless asked not to. The residual keeps the original variable numbering, so the
    // reconstruction trail is the only thing standing between its model and the input's.
    if config.preprocess {
        let limits = Limits::default();
        let p = preprocess::preprocess(cnf, &limits);
        let ghost whole = p;
        let pre = Some(p.stats);
        match p.verdict {
            Some(b) => {
                let outcome = if b {
                    let mut model = Model::all_false(input_vars);
                    proof {
                        assert(formula_true(valuation(model@), p.cnf@));
                        lemma_replay_len(p.reconstruction@, model@);
                    }
                    p.reconstruction.extend(&mut model);
                    Outcome::Sat(model)
                } else {
                    Outcome::Unsat
                };
                let stats = SolveStats {
                    algorithm: config.algorithm,
                    bucket,
                    input_vars,
                    input_clauses,
                    preprocess: pre,
                    search: None,
                    dp: None,
                    elapsed: clock::since(&started),
                };
                let r = SolveResult { outcome, stats };
                assert(explained_by_preprocessing(cnf, config, r, limits, whole));
                r
            },
            None => {
                let r = searched(cnf, config, &p.cnf, &p.reconstruction, pre, started);
                assert(explained_by_preprocessing(cnf, config, r, limits, whole));
                r
            },
        }
    } else {
        let (normalised, empty) = cnf.normalized();
        let trail = Reconstruction::new();
        proof {
            lemma_normalization_is_equivalent(cnf@, cnf.nv());
            lemma_untouched(cnf@, normalised@, cnf.nv());
        }
        searched(cnf, config, &normalised, &trail, None, started)
    }
}

/// A formula with the same models needs no reconstruction.
proof fn lemma_untouched(f: Seq<Seq<Lit>>, g: Seq<Seq<Lit>>, n: int)
    requires
        forall|m: Valuation| formula_true(m, g) <==> #[trigger] formula_true(m, f),
    ensures
        reconstructs(f, Seq::<Undo>::empty(), g, n),
        satisfiable(f) <==> satisfiable(g),
{
    assert forall|m: Seq<bool>| m.len() == n && #[trigger] formula_true(valuation(m), g) implies replayable(
        Seq::<Undo>::empty(),
        m,
    ) && formula_true(valuation(replay(Seq::<Undo>::empty(), m)), f) by {
        assert(formula_true(valuation(m), f) <==> formula_true(valuation(m), g));
    }
    if satisfiable(f) {
        let m = choose|m: Valuation| formula_true(m, f);
        assert(formula_true(m, g));
    }
    if satisfiable(g) {
        let m = choose|m: Valuation| formula_true(m, g);
        assert(formula_true(m, f));
    }
}

/// Searches a simplified formula and carries the verdict back to the input.
fn searched(
    cnf: &Cnf,
    config: &Config,
    working: &Cnf,
    reconstruction: &Reconstruction,
    pre: Option<PreprocessStats>,
    started: Instant,
) -> (r: SolveResult)
    requires
        solvable(cnf, config),
        config.algorithm != Algorithm::DavisPutnam,
        working.wf(),
        working.nv() == cnf.nv(),
        working@.len() <= cnf@.len(),
        reconstructs(cnf@, reconstruction@, working@, cnf.nv()),
        satisfiable(cnf@) ==> satisfiable(working@),
    ensures
        r.outcome.right_about(cnf@, cnf.nv()),
        r.outcome matches Outcome::Unknown(reason) ==> gave_up_for(config, r, reason),
        r.stats.algorithm == config.algorithm,
        r.stats.bucket == (if config.cache {
            Some(config.bucket)
        } else {
            None
        }),
        r.stats.input_vars == cnf.nv(),
        r.stats.input_clauses == cnf@.len(),
        r.stats.preprocess == pre,
        r.stats.dp is None,
        r.stats.search is Some,
        r.stats.search->0.consistent(),
        search_kept_to(config, r.outcome is Unknown, r.stats.search->0),
        over_node_limit(config, r.stats.search->0) ==> r.outcome == Outcome::Unknown(AbortReason::NodeLimit),
        explained_by_search(config, working@, cnf.nv(), r),
{
    let (answer, values, counters) = match config.bucket {
        BucketKind::Avl => run::<Avl>(working, config, started),
        BucketKind::Unbalanced => run::<Unbalanced>(working, config, started),
        BucketKind::Splay => run::<Splay>(working, config, started),
        BucketKind::Chain => run::<Chain>(working, config, started),
    };
    let bucket = if config.cache {
        Some(config.bucket)
    } else {
        None
    };
    let stats = SolveStats {
        algorithm: config.algorithm,
        bucket,
        input_vars: cnf.num_vars(),
        input_clauses: cnf.num_clauses(),
        preprocess: pre,
        search: Some(counters),
        dp: None,
        elapsed: clock::since(&started),
    };
    let outcome = match answer {
        Answer::Unsat => Outcome::Unsat,
        Answer::Sat => {
            let mut full = Model::from_values(values);
            proof {
                lemma_replay_len(reconstruction@, full@);
            }
            reconstruction.extend(&mut full);
            Outcome::Sat(full)
        },
        _ => {
            let nodes: u64 = counters.nodes;
            let by_nodes = match config.max_nodes {
                Some(limit) => nodes > limit,
                None => false,
            };
            Outcome::Unknown(
                if by_nodes {
                    AbortReason::NodeLimit
                } else {
                    AbortReason::Timeout
                },
            )
        },
    };
    proof {
        let e = choose|e: Ledger| #[trigger]
            searched_with(config, working@, cnf.nv(), answer, e) && e.counters == counters;
        assert(searched_with(config, working@, cnf.nv(), answer_for(outcome), e));
    }
    SolveResult { outcome, stats }
}

/// What a report says of the run: which algorithm ran, on how many variables and clauses, and with which
/// bucket policy where there was a memo; and only what ran has counters.
pub proof fn lemma_report_is_about_the_run(cnf: &Cnf, config: &Config, r: SolveResult)
    requires
        stats_fit(cnf, config, r),
    ensures
        r.stats.algorithm == config.algorithm,
        r.stats.input_vars == cnf.nv(),
        r.stats.input_clauses == cnf@.len(),
        r.stats.bucket matches Some(b) ==> b == config.bucket,
        r.stats.bucket is Some <==> config.cache && config.algorithm != Algorithm::DavisPutnam,
        r.stats.dp is Some ==> config.algorithm == Algorithm::DavisPutnam,
        r.stats.search is Some ==> config.algorithm != Algorithm::DavisPutnam,
        r.stats.preprocess is Some <==> config.preprocess && config.algorithm != Algorithm::DavisPutnam,
        config.algorithm == Algorithm::DavisPutnam ==> r.stats.dp is Some,
        config.algorithm != Algorithm::DavisPutnam && !config.preprocess ==> r.stats.search is Some,
{
}

} // verus!
