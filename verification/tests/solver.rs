//! Whole solves.

use dpbst_core::cache::BucketKind;
use dpbst_core::search::heuristic::Heuristic;
use dpbst_core::solver::solve_here;
use dpbst_core::{AbortReason, Algorithm, Cnf, Config, Model, Outcome};

fn cnf(clauses: &[&[i32]]) -> Cnf {
    let mut f = Cnf::new(0);
    for c in clauses {
        f.add_dimacs_clause(c);
    }
    f
}

fn verdict(f: &Cnf, config: &Config) -> Option<bool> {
    let r = solve_here(f, config);
    r.verify(f).expect("model must satisfy the formula");
    match r.outcome {
        Outcome::Sat(_) => Some(true),
        Outcome::Unsat => Some(false),
        Outcome::Unknown(_) => None,
    }
}

#[test]
fn trivial_cases() {
    let c = Config::default();
    assert_eq!(verdict(&Cnf::new(0), &c), Some(true));
    assert_eq!(verdict(&Cnf::new(5), &c), Some(true));
    assert_eq!(verdict(&cnf(&[&[1], &[-1]]), &c), Some(false));
    assert_eq!(verdict(&cnf(&[&[1, 2], &[1, -2], &[-1, 2], &[-1, -2]]), &c), Some(false));
}

#[test]
fn an_empty_clause_is_unsatisfiable() {
    let mut f = cnf(&[&[1, 2]]);
    f.add_clause(&[]);
    assert_eq!(verdict(&f, &Config::default()), Some(false));
}

#[test]
fn exit_codes_follow_the_competition_convention() {
    assert_eq!(Outcome::Unsat.exit_code(), 20);
    assert_eq!(Outcome::Sat(Model::all_false(1)).exit_code(), 10);
    assert_eq!(Outcome::Unknown(AbortReason::Timeout).exit_code(), 0);
}

/// Every configuration must agree, on both the answer and the validity of the model. This is
/// the test that catches a bucket policy or an ablation quietly changing the semantics.
#[test]
fn all_configurations_agree() {
    let instances = [
        cnf(&[&[1, 2, 3], &[-1, 2], &[-2, 3], &[-3, 1], &[-1, -2, -3]]),
        cnf(&[&[1, 2], &[1, -2], &[-1, 2], &[-1, -2]]),
        cnf(&[&[1, 2], &[3, 4], &[-1, -2], &[-3, -4]]),
        cnf(&[&[1], &[-1, 2], &[-2, 3], &[-3, 4], &[-4]]),
    ];

    for (i, f) in instances.iter().enumerate() {
        let baseline = verdict(f, &Config::default());
        for bucket in BucketKind::all() {
            for heuristic in Heuristic::all() {
                for cache in [true, false] {
                    for pure_literals in [true, false] {
                        for preprocess in [true, false] {
                            let c = Config {
                                bucket,
                                heuristic,
                                cache,
                                pure_literals,
                                preprocess,
                                ..Config::default()
                            };
                            assert_eq!(
                                verdict(f, &c),
                                baseline,
                                "instance {i} disagreed with bucket={} heuristic={} cache={cache} pure={pure_literals} pre={preprocess}",
                                bucket.name(),
                                heuristic.name()
                            );
                        }
                    }
                }
            }
        }
        // Plain DPLL and Davis-Putnam must land on the same answer too.
        assert_eq!(verdict(f, &Config::plain_dpll()), baseline, "instance {i}: plain DPLL");
        let dp = Config { algorithm: Algorithm::DavisPutnam, ..Config::default() };
        assert_eq!(verdict(f, &dp), baseline, "instance {i}: Davis-Putnam");
    }
}

/// Four independent "exactly one of three" blocks. Nothing links them, so decomposition
/// should find them as separate components rather than searching their product.
#[test]
fn independent_blocks_are_decomposed() {
    let mut f = Cnf::new(0);
    for block in 0..4_i32 {
        let (x, y, z) = (block * 3 + 1, block * 3 + 2, block * 3 + 3);
        f.add_dimacs_clause(&[x, y, z]);
        f.add_dimacs_clause(&[-x, -y]);
        f.add_dimacs_clause(&[-x, -z]);
        f.add_dimacs_clause(&[-y, -z]);
    }
    let config = Config { preprocess: false, ..Config::default() };
    let r = solve_here(&f, &config);
    assert!(matches!(r.outcome, Outcome::Sat(_)));
    r.verify(&f).expect("model must satisfy");

    let search = r.stats.search.expect("search ran");
    assert!(
        search.components >= 4,
        "expected at least one component per block, got {}",
        search.components
    );
}

/// The memo only pays when the *same* subproblem is reached twice by different routes. Here
/// an unsatisfiable block over {u, v, w} hangs off the clause (a or b or u): setting `a`, or
/// clearing `a` and setting `b`, both leave that block as the identical residual component.
/// The second visit must be answered from the memo rather than re-searched.
#[test]
fn the_memo_hits_when_a_subproblem_recurs() {
    let (a, b, u, v, w) = (1, 2, 3, 4, 5);
    let mut f = Cnf::new(0);
    f.add_dimacs_clause(&[a, b, u]);
    // Every assignment of u, v, w is excluded, so the block is unsatisfiable.
    for mask in 0..8_i32 {
        f.add_dimacs_clause(&[
            if mask & 1 == 0 { u } else { -u },
            if mask & 2 == 0 { v } else { -v },
            if mask & 4 == 0 { w } else { -w },
        ]);
    }

    // Pure literals would set `a` outright and the block would only ever be seen once, and a clause
    // learned from the first visit would send the search past the second.
    let config = Config {
        preprocess: false,
        pure_literals: false,
        learn: false,
        heuristic: Heuristic::Static,
        ..Config::default()
    };
    let with_memo = solve_here(&f, &config);
    assert!(matches!(with_memo.outcome, Outcome::Unsat));

    let stats = with_memo.stats.search.expect("search ran");
    assert!(
        stats.cache.hits > 0,
        "expected the repeated block to be answered from the memo;              lookups={} hits={}",
        stats.cache.lookups,
        stats.cache.hits
    );

    // And with the memo off, the same instance must take strictly more search nodes.
    let without = solve_here(&f, &Config { cache: false, ..config });
    let plain = without.stats.search.expect("search ran");
    assert!(
        plain.nodes > stats.nodes,
        "memo should have saved work: {} nodes with, {} without",
        stats.nodes,
        plain.nodes
    );
}

#[test]
fn the_node_limit_yields_unknown() {
    // A formula big enough that one node cannot settle it.
    let mut f = Cnf::new(0);
    for i in 1..=30_i32 {
        f.add_dimacs_clause(&[i, -(i % 30 + 1)]);
        f.add_dimacs_clause(&[-i, i % 30 + 1]);
        f.add_dimacs_clause(&[i, i % 30 + 1]);
        f.add_dimacs_clause(&[-i, -(i % 30 + 1)]);
    }
    let config = Config { max_nodes: Some(1), preprocess: false, ..Config::default() };
    let r = solve_here(&f, &config);
    // Either it aborted, or it was settled outright before the limit could bite.
    if let Outcome::Unknown(reason) = r.outcome {
        assert_eq!(reason, AbortReason::NodeLimit);
    }
}
