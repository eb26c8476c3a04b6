//! Solver configuration.

use vstd::prelude::*;
use crate::cache::{BucketKind, DEFAULT_BUDGET_BYTES, DEFAULT_TARGET_LOAD};
use crate::search::heuristic::Heuristic;
use crate::text::{same_text, unknown_name, unknown_text};

verus! {

/// Default longest derived clause to keep.
///
/// Three. That is far shorter than a CDCL solver would tolerate, and it is a consequence of
/// propagating by clause counters rather than watched literals: a stored clause is charged on
/// every assignment to every variable it mentions.
pub const DEFAULT_MAX_LEARNED_CLAUSE_SIZE: usize = 3;

/// Default ceiling on derived clause literals: eight million, or about 32 MiB of them.
pub const DEFAULT_MAX_LEARNED_LITERALS: usize = 8 * 1024 * 1024;

/// Default cap on resolvents of the Davis-Putnam procedure.
pub const DEFAULT_DP_CLAUSE_LIMIT: usize = 200_000;

/// Which algorithm to run.
#[derive(Copy, Clone, PartialEq, Eq, Debug, Structural)]
pub enum Algorithm {
    /// DPLL search with connected-component decomposition and a memo. The point of the project.
    DpllMemo,
    /// Plain DPLL: no decomposition, no memo. The baseline the memo has to beat.
    Dpll,
    /// Davis and Putnam's original 1960 procedure: eliminate variables by resolution until the
    /// formula is empty or contains the empty clause. Included because it is the other thing
    /// "DP" means, and because watching it explode is instructive.
    DavisPutnam,
}

impl Default for Algorithm {
    /// Search with the memo.
    fn default() -> (a: Self)
        ensures
            a == Algorithm::DpllMemo,
    {
        Algorithm::DpllMemo
    }
}

impl Algorithm {
    /// The name as text.
    pub open spec fn spec_name(self) -> Seq<char> {
        match self {
            Algorithm::DpllMemo => "dpll-memo"@,
            Algorithm::Dpll => "dpll"@,
            Algorithm::DavisPutnam => "dp"@,
        }
    }

    /// Every algorithm, in a stable order for benchmark tables.
    pub fn all() -> (a: [Algorithm; 3])
        ensures
            a@ == seq![Algorithm::DpllMemo, Algorithm::Dpll, Algorithm::DavisPutnam],
            forall|x: Algorithm| a@.contains(x),
    {
        let a = [Algorithm::DpllMemo, Algorithm::Dpll, Algorithm::DavisPutnam];
        proof {
            assert(a@ =~= seq![Algorithm::DpllMemo, Algorithm::Dpll, Algorithm::DavisPutnam]);
            assert forall|x: Algorithm| a@.contains(x) by {
                match x {
                    Algorithm::DpllMemo => assert(a@[0] == x),
                    Algorithm::Dpll => assert(a@[1] == x),
                    Algorithm::DavisPutnam => assert(a@[2] == x),
                }
            }
        }
        a
    }

    /// The algorithm's command-line name.
    pub fn name(self) -> (s: &'static str)
        ensures
            s@ == self.spec_name(),
    {
        match self {
            Algorithm::DpllMemo => "dpll-memo",
            Algorithm::Dpll => "dpll",
            Algorithm::DavisPutnam => "dp",
        }
    }

    /// Distinct algorithms have distinct names.
    pub proof fn lemma_names_distinct(a: Algorithm, b: Algorithm)
        ensures
            a.spec_name() == b.spec_name() ==> a == b,
    {
        reveal_strlit("dpll-memo");
        reveal_strlit("dpll");
        reveal_strlit("dp");
        assert("dpll-memo"@.len() == 9 && "dpll"@.len() == 4 && "dp"@.len() == 2);
    }

    /// The algorithm with the given command-line name, or a message that names the unknown one.
    pub fn from_name(s: &str) -> (r: Result<Algorithm, String>)
        ensures
            forall|a: Algorithm| r == Ok::<Algorithm, String>(a) <==> s@ == #[trigger] a.spec_name(),
            r matches Err(e) ==> e@ == unknown_text("algorithm"@, s@),
    {
        proof {
            assert forall|a: Algorithm, b: Algorithm|
                #[trigger] a.spec_name() == #[trigger] b.spec_name() implies a == b by {
                Algorithm::lemma_names_distinct(a, b);
            }
        }
        if same_text(s, "dpll-memo") {
            assert(s@ == Algorithm::DpllMemo.spec_name());
            Ok(Algorithm::DpllMemo)
        } else if same_text(s, "dpll") {
            assert(s@ == Algorithm::Dpll.spec_name());
            Ok(Algorithm::Dpll)
        } else if same_text(s, "dp") {
            assert(s@ == Algorithm::DavisPutnam.spec_name());
            Ok(Algorithm::DavisPutnam)
        } else {
            Err(unknown_name("algorithm", s))
        }
    }
}

impl core::str::FromStr for Algorithm {
    type Err = String;

    fn from_str(s: &str) -> (r: Result<Self, String>)
        ensures
            forall|a: Algorithm| r == Ok::<Algorithm, String>(a) <==> s@ == #[trigger] a.spec_name(),
            r matches Err(e) ==> e@ == unknown_text("algorithm"@, s@),
    {
        Algorithm::from_name(s)
    }
}

/// How to run a solve.
#[derive(Clone, Debug)]
pub struct Config {
    /// Which algorithm to run.
    pub algorithm: Algorithm,
    /// Bucket policy for the memo.
    pub bucket: BucketKind,
    /// Branching rule.
    pub heuristic: Heuristic,
    /// Whether to consult and populate the memo.
    pub cache: bool,
    /// Byte budget for the memo, after which it starts evicting.
    pub cache_budget_bytes: usize,
    /// Entries per bucket the memo aims for before growing.
    pub target_load: usize,
    /// Whether to derive a clause from every conflict and backjump on it.
    pub learn: bool,
    /// Longest derived clause worth keeping; longer ones are discarded and the search
    /// backtracks chronologically instead. Zero means no limit.
    pub max_learned_clause_size: usize,
    /// Cap on the total literals held in derived clauses, after which learning stops.
    ///
    /// Learned clauses are never deleted, because component keys name clauses by index and
    /// recycling an index would change what an existing memo entry means. That is why the database
    /// needs a ceiling rather than a reduction policy.
    pub max_learned_literals: usize,
    /// Whether to apply pure literal elimination inside components.
    pub pure_literals: bool,
    /// Whether to run the preprocessor.
    pub preprocess: bool,
    /// Cap on resolvents produced by [`Algorithm::DavisPutnam`] before giving up.
    pub dp_clause_limit: usize,
    /// Wall-clock limit for the solve, in nanoseconds.
    pub timeout: Option<u128>,
    /// Cap on search nodes, mostly for tests that must terminate.
    pub max_nodes: Option<u64>,
}

impl Config {
    /// The default configuration.
    pub open spec fn spec_default() -> Config {
        Config {
            algorithm: Algorithm::DpllMemo,
            bucket: BucketKind::Avl,
            heuristic: Heuristic::JeroslowWang,
            cache: true,
            cache_budget_bytes: DEFAULT_BUDGET_BYTES,
            target_load: DEFAULT_TARGET_LOAD,
            learn: true,
            max_learned_clause_size: DEFAULT_MAX_LEARNED_CLAUSE_SIZE,
            max_learned_literals: DEFAULT_MAX_LEARNED_LITERALS,
            pure_literals: true,
            preprocess: true,
            dp_clause_limit: DEFAULT_DP_CLAUSE_LIMIT,
            timeout: None,
            max_nodes: None,
        }
    }

    /// Configuration for plain DPLL, with every extra switched off: no decomposition, no memo,
    /// no learning, no preprocessing.
    ///
    /// This is the control the memo is measured against, so it is a named constructor rather
    /// than something a benchmark script has to assemble correctly by hand.
    pub fn plain_dpll() -> (c: Self)
        ensures
            c == (Config {
                algorithm: Algorithm::Dpll,
                cache: false,
                learn: false,
                preprocess: false,
                ..Config::spec_default()
            }),
    {
        let mut c = Config::default();
        c.algorithm = Algorithm::Dpll;
        c.cache = false;
        c.learn = false;
        c.preprocess = false;
        c
    }
}

impl Default for Config {
    /// The default configuration.
    fn default() -> (c: Self)
        ensures
            c == Config::spec_default(),
    {
        Config {
            algorithm: Algorithm::DpllMemo,
            bucket: BucketKind::Avl,
            heuristic: Heuristic::JeroslowWang,
            cache: true,
            cache_budget_bytes: DEFAULT_BUDGET_BYTES,
            target_load: DEFAULT_TARGET_LOAD,
            learn: true,
            max_learned_clause_size: DEFAULT_MAX_LEARNED_CLAUSE_SIZE,
            max_learned_literals: DEFAULT_MAX_LEARNED_LITERALS,
            pure_literals: true,
            preprocess: true,
            dp_clause_limit: DEFAULT_DP_CLAUSE_LIMIT,
            timeout: None,
            max_nodes: None,
        }
    }
}

/// What a command line asks for, as plain values.
#[derive(Clone, Debug)]
pub struct Options {
    /// Algorithm to run.
    pub algorithm: Algorithm,
    /// Bucket policy for the memo.
    pub bucket: BucketKind,
    /// Branching heuristic.
    pub heuristic: Heuristic,
    /// Leave the memo out.
    pub no_cache: bool,
    /// Memory budget for the memo, in mebibytes.
    pub cache_mb: usize,
    /// Entries per bucket the memo tolerates before growing the table.
    pub target_load: usize,
    /// Leave clause learning out.
    pub no_learn: bool,
    /// Longest derived clause to keep; zero for no limit.
    pub max_learned_clause_size: usize,
    /// Most literals to hold in derived clauses.
    pub max_learned_literals: usize,
    /// Leave pure literal elimination out.
    pub no_pure_literals: bool,
    /// Leave preprocessing out.
    pub no_preprocess: bool,
    /// Wall-clock limit, in nanoseconds.
    pub timeout: Option<u128>,
    /// Node limit.
    pub max_nodes: Option<u64>,
}

/// A number of mebibytes in bytes, as far as it fits.
pub open spec fn mebibytes(mb: usize) -> int {
    if mb * 0x10_0000 <= usize::MAX {
        mb * 0x10_0000
    } else {
        usize::MAX as int
    }
}

impl Options {
    /// The configuration that the options describe. A target load of zero stands for one.
    pub fn to_config(&self) -> (c: Config)
        ensures
            c == (Config {
                algorithm: self.algorithm,
                bucket: self.bucket,
                heuristic: self.heuristic,
                cache: !self.no_cache,
                cache_budget_bytes: mebibytes(self.cache_mb) as usize,
                target_load: if self.target_load == 0 {
                    1
                } else {
                    self.target_load
                },
                learn: !self.no_learn,
                max_learned_clause_size: self.max_learned_clause_size,
                max_learned_literals: self.max_learned_literals,
                pure_literals: !self.no_pure_literals,
                preprocess: !self.no_preprocess,
                timeout: self.timeout,
                max_nodes: self.max_nodes,
                ..Config::spec_default()
            }),
            c.target_load > 0,
    {
        let mut c = Config::default();
        c.algorithm = self.algorithm;
        c.bucket = self.bucket;
        c.heuristic = self.heuristic;
        c.cache = !self.no_cache;
        c.cache_budget_bytes = if self.cache_mb <= usize::MAX / 0x10_0000 {
            self.cache_mb * 0x10_0000
        } else {
            usize::MAX
        };
        c.target_load = if self.target_load == 0 {
            1
        } else {
            self.target_load
        };
        c.learn = !self.no_learn;
        c.max_learned_clause_size = self.max_learned_clause_size;
        c.max_learned_literals = self.max_learned_literals;
        c.pure_literals = !self.no_pure_literals;
        c.preprocess = !self.no_preprocess;
        c.timeout = self.timeout;
        c.max_nodes = self.max_nodes;
        c
    }
}

/// Without options the solver searches with the memo, in balanced trees and by Jeroslow-Wang, with
/// everything switched on and without a limit; clauses of up to three literals are kept.
pub proof fn lemma_defaults_switch_everything_on()
    ensures
        Config::spec_default().algorithm == Algorithm::DpllMemo,
        Config::spec_default().bucket == BucketKind::Avl,
        Config::spec_default().heuristic == Heuristic::JeroslowWang,
        Config::spec_default().cache && Config::spec_default().learn,
        Config::spec_default().pure_literals && Config::spec_default().preprocess,
        Config::spec_default().max_learned_clause_size == 3,
        Config::spec_default().timeout is None && Config::spec_default().max_nodes is None,
{
}

/// A mebibyte is two to the twentieth bytes; a budget beyond what can be addressed is the largest that
/// can.
pub proof fn lemma_mebibytes_in_bytes(mb: usize)
    ensures
        1024 * (1024 * mb) <= usize::MAX ==> mebibytes(mb) == 1024 * (1024 * mb),
        1024 * (1024 * mb) > usize::MAX ==> mebibytes(mb) == usize::MAX,
{
}

} // verus!
