//! What the library promises, on concrete values.

use dpbst_core::cache::arena::arena_bytes;
use dpbst_core::cache::table::with_slots;
use dpbst_core::cache::{Avl, BucketKind};
use dpbst_core::config::{Options, DEFAULT_MAX_LEARNED_CLAUSE_SIZE, DEFAULT_MAX_LEARNED_LITERALS};
use dpbst_core::dimacs::{parse_bytes, write_cnf, DimacsError};
use dpbst_core::dp::{self, DpOutcome};
use dpbst_core::elim::{resolve, unit_propagate, Reconstruction, Working};
use dpbst_core::preprocess::{preprocess, Limits};
use dpbst_core::report::{json_stats, write_stats, Figures};
use dpbst_core::clock::late;
use dpbst_core::memory::room_bytes;
use dpbst_core::search::heuristic::Heuristic;
use dpbst_core::search::wide::{add_power, exceeds, sum_of};
use dpbst_core::search::component::store_bytes;
use dpbst_core::search::{Answer, Searcher};
use dpbst_core::solution::solution_text;
use dpbst_core::solver::solve_here;
use dpbst_core::{AbortReason, Algorithm, Cnf, Config, Lit, Model, Outcome, Var};

/// An hour, in nanoseconds.
const HOUR: u128 = 3_600_000_000_000;

fn cnf(clauses: &[&[i32]]) -> Cnf {
    let mut f = Cnf::new(0);
    for c in clauses {
        f.add_dimacs_clause(c);
    }
    f
}

fn lits(numbers: &[i32]) -> Vec<Lit> {
    numbers.iter().map(|&n| Lit::from_dimacs(n)).collect()
}

/// `pigeons` pigeons into `holes` holes.
fn pigeonhole(pigeons: usize, holes: usize) -> Cnf {
    let mut f = Cnf::new(pigeons * holes);
    let var = |p: usize, h: usize| (p * holes + h) as i32 + 1;
    for p in 0..pigeons {
        f.add_dimacs_clause(&(0..holes).map(|h| var(p, h)).collect::<Vec<_>>());
    }
    for h in 0..holes {
        for p in 0..pigeons {
            for q in p + 1..pigeons {
                f.add_dimacs_clause(&[-var(p, h), -var(q, h)]);
            }
        }
    }
    f
}

/// The counters of a whole run, one by one.
#[test]
fn ten_pigeons_and_nine_holes_cost_what_they_cost() {
    let f = pigeonhole(10, 9);
    let r = solve_here(&f, &Config::default());
    assert!(matches!(r.outcome, Outcome::Unsat));
    assert_eq!((r.stats.input_vars, r.stats.input_clauses), (90, 415));
    let p = r.stats.preprocess.unwrap();
    assert_eq!((p.clauses_before, p.clauses_after), (415, 405));
    assert_eq!(
        (p.duplicates_removed, p.units_fixed, p.pure_fixed, p.vars_eliminated),
        (0, 10, 0, 10)
    );
    let s = r.stats.search.unwrap();
    assert_eq!((s.nodes, s.decisions, s.conflicts), (8315, 8722, 408));
    assert_eq!((s.propagations, s.components, s.pure_literals), (44005, 8315, 8764));
    assert_eq!((s.learned, s.discarded, s.learned_literals), (0, 408, 0));
    assert_eq!((s.backjumps, s.levels_skipped, s.max_depth), (0, 0, 36));
    assert_eq!((s.cache.lookups, s.cache.hits, s.table.entries), (8315, 3954, 4361));
    assert_eq!(
        (s.cache.inserts, s.cache.evicted, s.cache.sweeps, s.cache.resizes),
        (4361, 0, 0, 1)
    );
    assert_eq!((s.table.buckets, s.table.occupied, s.table.max_bucket), (2048, 1819, 8));
    assert_eq!(s.table.max_depth, 4);
    assert_eq!(format!("{:.2}", s.table.depth_total as f64 / s.table.entries as f64), "1.71");
    assert!(s.cache_bytes >= 4361 * 32 + 2048 * 4);
}

#[test]
fn learning_settings_do_not_change_the_verdict() {
    for (f, sat) in [
        (pigeonhole(5, 4), false),
        (pigeonhole(4, 4), true),
        (cnf(&[&[1, 2, 3], &[-1, 2], &[-2, 3], &[-3, 1], &[-1, -2, -3]]), false),
    ] {
        for learn in [true, false] {
            for cache in [true, false] {
                for pure_literals in [true, false] {
                    for (size, budget) in [(0, usize::MAX), (3, 5), (1, 100), (2, 0)] {
                        let c = Config {
                            learn,
                            cache,
                            pure_literals,
                            preprocess: false,
                            max_learned_clause_size: size,
                            max_learned_literals: budget,
                            ..Config::default()
                        };
                        let r = solve_here(&f, &c);
                        assert_eq!(r.verify(&f), Ok(()));
                        assert_eq!(matches!(r.outcome, Outcome::Sat(_)), sat);
                        assert_eq!(matches!(r.outcome, Outcome::Unsat), !sat);
                    }
                }
            }
        }
    }
}

#[test]
fn a_long_chain_is_propagated_to_its_end() {
    let mut f = Cnf::new(0);
    for i in 1..2000_i32 {
        f.add_dimacs_clause(&[-i, i + 1]);
    }
    f.add_dimacs_clause(&[1]);
    let r = solve_here(&f, &Config { preprocess: false, ..Config::default() });
    match &r.outcome {
        Outcome::Sat(m) => assert!((0..2000).all(|v| m.value(Var::from_index(v)))),
        other => panic!("unexpected outcome {other:?}"),
    }
}

#[test]
fn an_expired_deadline_is_a_timeout() {
    let f = pigeonhole(10, 9);
    let c = Config { timeout: Some(0), ..Config::default() };
    let r = solve_here(&f, &c);
    assert!(matches!(r.outcome, Outcome::Unknown(AbortReason::Timeout)));
    assert_eq!(r.stats.search.unwrap().nodes, 4096, "the clock is read at every 4096th visit");
    assert_eq!(r.outcome.exit_code(), 0);
    assert_eq!(r.outcome.status_line(), "s UNKNOWN");
}

#[test]
fn a_deadline_out_of_reach_is_none() {
    let f = pigeonhole(5, 4);
    let c = Config { timeout: Some(u128::MAX), ..Config::default() };
    assert!(matches!(solve_here(&f, &c).outcome, Outcome::Unsat));
}

#[test]
fn a_node_limit_is_reported_as_such_beside_a_deadline() {
    let f = pigeonhole(9, 8);
    let c = Config {
        max_nodes: Some(3),
        timeout: Some(HOUR),
        preprocess: false,
        ..Config::default()
    };
    let r = solve_here(&f, &c);
    assert!(matches!(r.outcome, Outcome::Unknown(AbortReason::NodeLimit)));
    assert!(r.stats.search.unwrap().nodes > 3);
}

#[test]
fn abort_reasons_have_names() {
    assert_eq!(AbortReason::Timeout.name(), "timeout");
    assert_eq!(AbortReason::NodeLimit.name(), "node limit");
    assert_eq!(AbortReason::Resources.name(), "resource limit");
}

#[test]
fn verification_names_the_first_clause_that_fails() {
    let f = cnf(&[&[1], &[2]]);
    let mut r = solve_here(&f, &Config::default());
    r.outcome = Outcome::Sat(Model::from_values(vec![true, false]));
    assert_eq!(r.verify(&f), Err(1));
    r.outcome = Outcome::Unsat;
    assert_eq!(r.verify(&f), Ok(()));
}

#[test]
fn elapsed_time_is_measured() {
    let r = solve_here(&pigeonhole(8, 7), &Config::default());
    assert!(r.stats.elapsed > 0);
}

#[test]
fn bucket_is_reported_only_where_the_memo_runs() {
    let f = cnf(&[&[1, 2]]);
    let with = solve_here(&f, &Config { bucket: BucketKind::Splay, ..Config::default() });
    assert_eq!(with.stats.bucket, Some(BucketKind::Splay));
    let without = solve_here(&f, &Config { cache: false, ..Config::default() });
    assert_eq!(without.stats.bucket, None);
    let dp = solve_here(&f, &Config { algorithm: Algorithm::DavisPutnam, ..Config::default() });
    assert_eq!(dp.stats.bucket, None);
    assert!(dp.stats.dp.is_some() && dp.stats.search.is_none() && dp.stats.preprocess.is_none());
}

#[test]
fn names_of_algorithms_and_buckets_round_trip() {
    for a in Algorithm::all() {
        assert_eq!(a.name().parse::<Algorithm>(), Ok(a));
    }
    for b in BucketKind::all() {
        assert_eq!(b.name().parse::<BucketKind>(), Ok(b));
    }
    assert_eq!("x".parse::<Algorithm>(), Err("unknown algorithm `x`".to_string()));
    assert_eq!("y".parse::<Heuristic>(), Err("unknown heuristic `y`".to_string()));
}

#[test]
fn a_solution_is_a_status_line_and_v_lines() {
    let sat = Outcome::Sat(Model::from_values(vec![true, false, true, true, false]));
    assert_eq!(solution_text(&sat, false), "s SATISFIABLE\nv 1 -2 3 4 -5 0\n");
    assert_eq!(solution_text(&sat, true), "s SATISFIABLE\n");
    assert_eq!(solution_text(&Outcome::Unsat, false), "s UNSATISFIABLE\n");
    let none = Outcome::Sat(Model::all_false(0));
    assert_eq!(solution_text(&none, false), "s SATISFIABLE\nv 0\n");
}

#[test]
fn long_models_are_wrapped() {
    let text = solution_text(&Outcome::Sat(Model::all_false(2000)), false);
    assert!(text.lines().all(|l| l.len() <= 78));
    let words: Vec<&str> = text.lines().skip(1).flat_map(|l| l.split(' ').skip(1)).collect();
    assert_eq!(words.len(), 2001);
    assert_eq!((words[0], words[1999], words[2000]), ("-1", "-2000", "0"));
    // The first line is as full as it can be: one more word would reach past the width.
    let first = text.lines().nth(1).unwrap();
    let second = text.lines().nth(2).unwrap();
    assert!(first.len() + 1 + second.split(' ').nth(1).unwrap().len() > 78);
}

fn options() -> Options {
    Options {
        algorithm: Algorithm::DpllMemo,
        bucket: BucketKind::Avl,
        heuristic: Heuristic::JeroslowWang,
        no_cache: false,
        cache_mb: 512,
        target_load: 4,
        no_learn: false,
        max_learned_clause_size: DEFAULT_MAX_LEARNED_CLAUSE_SIZE,
        max_learned_literals: DEFAULT_MAX_LEARNED_LITERALS,
        no_pure_literals: false,
        no_preprocess: false,
        timeout: None,
        max_nodes: None,
    }
}

fn figures() -> Figures {
    Figures {
        hit_percent: "47.6".into(),
        hit_rate: "0.475526".into(),
        mean_depth: "1.71".into(),
        mean_depth_fine: "1.706031".into(),
        learned_mean: "0.0".into(),
        memory_mib: "0.91".into(),
        seconds: "0.0257".into(),
        seconds_fine: "0.025700".into(),
    }
}

#[test]
fn options_become_a_configuration() {
    let mut o = options();
    let c = o.to_config();
    assert_eq!(c.cache_budget_bytes, 512 * 1024 * 1024);
    assert!(c.cache && c.learn && c.pure_literals && c.preprocess);
    assert_eq!(c.target_load, 4);
    o.cache_mb = usize::MAX;
    o.target_load = 0;
    o.no_learn = true;
    let c = o.to_config();
    assert_eq!((c.cache_budget_bytes, c.target_load, c.learn), (usize::MAX, 1, false));
}

#[test]
fn faults_are_reported_in_full() {
    let text = |input: &[u8]| parse_bytes(input).unwrap_err().to_string();
    assert_eq!(
        text(b"c\np cnf x 1\n"),
        "line 2: `x` is not an integer"
    );
    assert_eq!(
        text(b"\np edge 1 1\n"),
        "line 2: expected the header to read `p cnf <vars> <clauses>`"
    );
    assert_eq!(
        text(b"p cnf -1 1\n"),
        "line 1: expected the header to read `p cnf <vars> <clauses>`"
    );
    assert_eq!(
        text(b"1 0\n-2000000000 0\n"),
        "line 2: literal -2000000000 refers to variable 2000000000, above the supported maximum"
    );
    assert_eq!(text(b"1 2"), "input ends in the middle of a clause; a trailing `0` is missing");
    assert_eq!(DimacsError::MissingHeader.to_string(), "no `p cnf` header found");
    assert_eq!(
        text(b"99999999999999999999x 0\n"),
        "line 1: `99999999999999999999x` is not an integer"
    );
}

#[test]
fn a_token_that_is_no_text_is_shown_as_far_as_it_goes() {
    match parse_bytes(b"1 a\xff 0\n").unwrap_err() {
        DimacsError::BadInteger { line, token } => {
            assert_eq!(line, 1);
            assert_eq!(token, "a\u{fffd}");
        }
        other => panic!("unexpected error {other:?}"),
    }
}

#[test]
fn the_largest_readable_variable() {
    let max = Var::MAX_INDEX as i64;
    let ok = parse_bytes(format!("{max} 0").as_bytes()).unwrap();
    assert_eq!(ok.cnf.num_vars(), Var::MAX_INDEX);
    match parse_bytes(format!("-{} 0", max + 1).as_bytes()).unwrap_err() {
        DimacsError::VarTooLarge { line, value, var } => {
            assert_eq!((line, value, var), (1, -(max + 1), (max + 1) as u64));
        }
        other => panic!("unexpected error {other:?}"),
    }
}

#[test]
fn a_huge_declared_count_is_only_a_hint() {
    let p = parse_bytes(b"p cnf 2 4000000000000000000\n1 2 0\n").unwrap();
    assert_eq!(p.declared_clauses, Some(4_000_000_000_000_000_000));
    assert_eq!(p.cnf.num_clauses(), 1);
    assert!(!p.header_matches_body());
}

#[test]
fn nothing_after_a_percent_sign_is_read() {
    let p = parse_bytes(b"1 2 0\n%\n0\ngarbage \xff\n").unwrap();
    assert_eq!(p.cnf.num_clauses(), 1);
    assert_eq!((p.declared_vars, p.declared_clauses), (None, None));
    assert!(p.header_matches_body());
}

#[test]
fn plus_signs_and_tabs_are_read() {
    let p = parse_bytes(b"p\tcnf\t3\t1\r\n+1\t-3\r\n0").unwrap();
    assert_eq!(p.cnf.clause(0), &lits(&[1, -3])[..]);
}

#[test]
fn writing_is_exact() {
    let f = cnf(&[&[1, -20], &[], &[3]]);
    assert_eq!(write_cnf(&f), b"p cnf 20 3\n1 -20 0\n0\n3 0\n".to_vec());
    let back = parse_bytes(&write_cnf(&f)).unwrap();
    assert_eq!(back.cnf, f);
    assert!(back.header_matches_body());
}

#[test]
fn clauses_in_any_order_resolve_to_sorted_ones() {
    let v = Var::from_index(0);
    assert_eq!(
        resolve(&lits(&[5, 1, 3, 3]), &lits(&[-1, 2]), v),
        Some(lits(&[2, 3, 5]))
    );
    assert_eq!(resolve(&lits(&[4, 1]), &lits(&[-4, -1]), v), None);
    assert_eq!(resolve(&lits(&[1]), &lits(&[-1]), v), Some(vec![]));
}

#[test]
fn propagation_leaves_what_the_units_leave() {
    let f = cnf(&[&[1], &[-1, 2, 3], &[-1, -4, 5], &[1, 6]]).normalized().0;
    let mut w = Working::new(&f);
    let mut t = Reconstruction::new();
    assert!(unit_propagate(&mut w, &mut t));
    assert_eq!(t.len(), 1);
    let left = w.to_cnf();
    assert_eq!(left.num_clauses(), 2);
    assert_eq!(left.clause(0), &lits(&[2, 3])[..]);
    assert_eq!(left.clause(1), &lits(&[-4, 5])[..]);
}

#[test]
fn tombstones_are_counted_and_cleared() {
    let mut w = Working::new(&cnf(&[&[1, 2], &[1, 3], &[-1, 4]]).normalized().0);
    assert_eq!(w.tombstones(), (0, 6));
    w.remove(0);
    assert_eq!(w.tombstones(), (2, 6));
    w.compact_occurrences();
    assert_eq!(w.tombstones(), (0, 4));
    assert_eq!(w.live_indices(), vec![1, 2]);
    assert_eq!(w.literal_counts(), vec![1, 1, 0, 0, 1, 0, 1, 0]);
}

#[test]
fn davis_putnam_counts_what_it_does() {
    // Eliminating any of the two variables leaves the units over the other.
    let f = cnf(&[&[1, 2], &[1, -2], &[-1, 2], &[-1, -2]]);
    let (outcome, stats) = dp::solve(&f, 100);
    assert!(matches!(outcome, DpOutcome::Unsat));
    assert_eq!((stats.eliminated, stats.resolvents, stats.peak_clauses), (1, 2, 4));
    match dp::solve(&f, 1).0 {
        DpOutcome::OutOfResources { clauses, eliminated } => {
            assert_eq!((clauses, eliminated), (2, 1));
        }
        other => panic!("unexpected outcome {other:?}"),
    }
    let mut g = cnf(&[&[1]]);
    g.add_clause(&[]);
    let (outcome, stats) = dp::solve(&g, 100);
    assert!(matches!(outcome, DpOutcome::Unsat));
    assert_eq!((stats.eliminated, stats.resolvents, stats.peak_clauses), (0, 0, 0));
}

#[test]
fn running_out_of_clauses_is_a_resource_limit() {
    let c = Config { algorithm: Algorithm::DavisPutnam, dp_clause_limit: 3, ..Config::default() };
    let r = solve_here(&pigeonhole(5, 4), &c);
    assert!(matches!(r.outcome, Outcome::Unknown(AbortReason::Resources)));
}

#[test]
fn preprocessing_without_rounds_only_tidies() {
    let f = cnf(&[&[2, 1], &[1, 2], &[3, -3], &[4]]);
    let p = preprocess(&f, &Limits { rounds: 0, ..Limits::default() });
    assert_eq!(p.verdict, None);
    assert!(p.reconstruction.is_empty());
    assert_eq!(p.cnf.num_clauses(), 2);
    assert_eq!(p.cnf.clause(0), &lits(&[1, 2])[..]);
    assert_eq!(p.cnf.clause(1), &lits(&[4])[..]);
    assert_eq!((p.stats.clauses_before, p.stats.clauses_after, p.stats.duplicates_removed), (4, 2, 1));
}

#[test]
fn preprocessing_stops_at_its_work_budget() {
    let f = pigeonhole(4, 4);
    let none = preprocess(&f, &Limits { work_budget: 0, ..Limits::default() });
    assert_eq!(none.stats.vars_eliminated, 0);
    let some = preprocess(&f, &Limits::default());
    assert!(some.stats.vars_eliminated > 0);
    assert!(some.cnf.num_clauses() <= f.num_clauses());
}

#[test]
fn the_report_for_people_lists_every_counter() {
    let r = solve_here(&pigeonhole(10, 9), &Config::default());
    assert_eq!(
        write_stats(&r.stats, &figures()),
        "c algorithm            : dpll-memo\n\
c bucket policy        : avl\n\
c input                : 90 vars, 415 clauses\n\
c preprocessing        : 415 -> 405 clauses (0 dup, 10 unit, 0 pure, 10 eliminated)\n\
c search nodes         : 8315\n\
c decisions            : 8722\n\
c conflicts            : 408\n\
c propagations         : 44005\n\
c components           : 8315\n\
c pure literals        : 8764\n\
c learned clauses      : 0 kept, 408 too long (0 literals, 0.0 mean)\n\
c backjumps            : 0 (0 decision levels skipped)\n\
c max depth            : 36\n\
c memo                 : 8315 lookups, 3954 hits (47.6%), 4361 entries\n\
c memo maintenance     : 4361 inserts, 0 evicted, 0 sweeps, 1 resizes\n\
c memo table           : 2048 buckets, 1819 occupied, max bucket 8, max depth 4, mean depth 1.71\n\
c memo memory          : 0.91 MiB\n\
c cpu time             : 0.0257 s\n"
    );
}

#[test]
fn the_report_for_harnesses_is_one_object() {
    let f = cnf(&[&[1, 2], &[1, -2], &[-1, 2], &[-1, -2]]);
    let c = Config { algorithm: Algorithm::DavisPutnam, ..Config::default() };
    let r = solve_here(&f, &c);
    assert_eq!(
        json_stats(&r, &options(), &figures()),
        "{\"status\":\"UNSAT\",\"algorithm\":\"dp\",\"bucket\":\"avl\",\"heuristic\":\"jw\",\
\"cache\":true,\"elapsed_s\":0.025700,\"input_vars\":2,\"input_clauses\":4,\
\"dp_eliminated\":1,\"dp_resolvents\":2,\"dp_peak_clauses\":4}"
    );
    let r = solve_here(&pigeonhole(4, 4), &Config { preprocess: false, ..Config::default() });
    let text = json_stats(&r, &options(), &figures());
    assert!(text.starts_with("{\"status\":\"SAT\",\"algorithm\":\"dpll-memo\","));
    assert!(text.contains(",\"cache_hit_rate\":0.475526,"));
    assert!(text.contains(",\"table_mean_depth\":1.706031,"));
    assert!(text.ends_with('}'));
}

#[test]
fn search_counters_fit_together() {
    for f in [pigeonhole(6, 5), pigeonhole(5, 5), pigeonhole(7, 6)] {
        for size in [0, 3] {
            let c = Config { preprocess: false, max_learned_clause_size: size, ..Config::default() };
            let s = solve_here(&f, &c).stats.search.unwrap();
            assert!(s.nodes <= s.components);
            assert!(s.decisions <= 2 * s.nodes);
            assert!(s.learned + s.discarded <= s.conflicts);
            assert!(s.backjumps <= s.learned && s.backjumps <= s.levels_skipped);
            assert!(s.pure_literals <= s.propagations);
            assert!(size != 0 || s.discarded == 0);
        }
    }
}

#[test]
fn units_are_counted_apart_from_pure_literals() {
    let p = preprocess(&cnf(&[&[1], &[2, 3], &[3, 4]]), &Limits::default());
    assert_eq!(p.verdict, Some(true));
    assert_eq!((p.stats.units_fixed, p.stats.pure_fixed), (1, 3));
    let q = preprocess(&cnf(&[&[1], &[-1, 2], &[-2, 3]]), &Limits::default());
    assert_eq!((q.stats.units_fixed, q.stats.pure_fixed), (3, 0));
}

#[test]
fn an_empty_clause_leaves_the_tidied_clauses() {
    let p = preprocess(&cnf(&[&[1, 2], &[], &[3, -3]]), &Limits::default());
    assert_eq!(p.verdict, Some(false));
    assert_eq!((p.stats.clauses_before, p.stats.clauses_after), (3, 2));
    assert_eq!(p.cnf.num_clauses(), 2);
}

#[test]
fn a_limit_of_no_nodes_stops_at_the_first() {
    let c = Config {
        max_nodes: Some(0),
        timeout: Some(HOUR),
        preprocess: false,
        ..Config::default()
    };
    let r = solve_here(&cnf(&[&[1, 2], &[-1, -2]]), &c);
    assert!(matches!(r.outcome, Outcome::Unknown(AbortReason::NodeLimit)));
    let s = r.stats.search.unwrap();
    assert_eq!((s.nodes, s.components, s.max_depth, s.decisions), (1, 1, 1, 0));
}

#[test]
fn the_search_keeps_to_its_limits() {
    let f = pigeonhole(7, 6);
    for limit in [0, 1, 5, 50] {
        let c = Config { max_nodes: Some(limit), preprocess: false, ..Config::default() };
        let r = solve_here(&f, &c);
        assert!(matches!(r.outcome, Outcome::Unknown(AbortReason::NodeLimit)));
        let s = r.stats.search.unwrap();
        assert_eq!(s.nodes, limit + 1);
        assert!(s.max_depth <= s.nodes);
    }
    let c = Config { learn: false, ..Config::default() };
    let r = solve_here(&pigeonhole(5, 4), &c);
    assert!(matches!(r.outcome, Outcome::Unsat));
    let s = r.stats.search.unwrap();
    assert!(s.nodes > 0 && s.conflicts > 0);
    assert_eq!((s.learned, s.discarded, s.backjumps, s.levels_skipped), (0, 0, 0, 0));
    let r = solve_here(&pigeonhole(5, 4), &Config { cache: false, ..Config::default() });
    let s = r.stats.search.unwrap();
    assert_eq!((s.cache.lookups, s.cache.hits, s.cache.inserts, s.table.entries), (0, 0, 0, 0));
}

#[test]
fn what_is_settled_at_the_root_is_answered_under_any_limit() {
    let c = Config { max_nodes: Some(0), timeout: Some(0), preprocess: false, ..Config::default() };
    let empty = solve_here(&cnf(&[]), &c);
    assert!(matches!(empty.outcome, Outcome::Sat(_)));
    assert_eq!(empty.stats.search.unwrap().nodes, 0);
    let forced = solve_here(&cnf(&[&[1], &[-1, 2], &[-2, 3]]), &c);
    assert!(matches!(forced.outcome, Outcome::Sat(_)));
    assert_eq!(forced.stats.search.unwrap().nodes, 0);
    let refuted = solve_here(&cnf(&[&[1], &[-1, 2], &[-1, -2]]), &c);
    assert!(matches!(refuted.outcome, Outcome::Unsat));
    assert_eq!(refuted.stats.search.unwrap().nodes, 0);
    let pure = cnf(&[&[1, 2], &[1, 3]]);
    let r = solve_here(&pure, &c);
    assert!(matches!(r.outcome, Outcome::Sat(_)));
    // Without pure literals the same formula takes a visit.
    let r = solve_here(&pure, &Config { pure_literals: false, ..c });
    assert!(matches!(r.outcome, Outcome::Unknown(AbortReason::NodeLimit)));
    assert_eq!(r.stats.search.unwrap().pure_literals, 0);
}

#[test]
fn the_memo_is_asked_at_every_visit() {
    let s = solve_here(&pigeonhole(6, 5), &Config::default()).stats.search.unwrap();
    assert_eq!(s.cache.lookups, s.nodes);
    assert!(s.cache.hits <= s.cache.lookups);
    let c = Config { max_nodes: Some(7), preprocess: false, ..Config::default() };
    let s = solve_here(&pigeonhole(6, 5), &c).stats.search.unwrap();
    assert_eq!((s.nodes, s.cache.lookups), (8, 7));
}

#[test]
fn a_search_can_be_run_again() {
    let f = cnf(&[&[1, 2], &[-1, -2], &[1, -2]]);
    let config = Config::default();
    let mut s = Searcher::<Avl>::new(&f, &config, std::time::Instant::now());
    assert_eq!(s.run(), Answer::Sat);
    let nodes = s.counters().nodes;
    assert_eq!(s.run(), Answer::Sat);
    assert!(f.first_falsified_clause(&Model::from_values(s.model().to_vec())).is_none());
    assert!(s.counters().nodes >= nodes);

    // Once told to stop, a search stays stopped.
    let config = Config { max_nodes: Some(0), ..Config::default() };
    let mut s = Searcher::<Avl>::new(&pigeonhole(4, 3), &config, std::time::Instant::now());
    assert_eq!(s.run(), Answer::Aborted);
    assert_eq!(s.run(), Answer::Aborted);
    assert_eq!(s.counters().nodes, 2);
}

#[test]
fn time_is_up_when_as_much_has_passed_as_was_allowed() {
    assert!(late(5, 5) && late(6, 5) && late(0, 0));
    assert!(!late(4, 5));
}

#[test]
fn room_is_added_up_exactly() {
    assert_eq!(room_bytes(3, 32), 96);
    assert_eq!(room_bytes(usize::MAX, 2), usize::MAX);
    assert_eq!(arena_bytes(3, 32, 5), 101);
    assert_eq!(with_slots(101, 1024, 4), 4197);
    assert_eq!(with_slots(usize::MAX, 1, 4), usize::MAX);
    assert_eq!(store_bytes(32, 1, 2, 3, 4), 56);
}

#[test]
fn wide_numbers_add_and_compare() {
    let mut a: Vec<u32> = Vec::new();
    add_power(&mut a, 100);
    assert_eq!(a, vec![0, 0, 0, 16]);
    let mut b = vec![u32::MAX];
    add_power(&mut b, 0);
    assert_eq!(b, vec![0, 1]);
    assert_eq!(sum_of(&a, &b), vec![0, 1, 0, 16]);
    assert_eq!(sum_of(&[u32::MAX, u32::MAX], &[1]), vec![0, 0, 1]);
    assert!(exceeds(&a, &b) && !exceeds(&b, &a));
    assert!(!exceeds(&[1, 0, 0], &[1]));
}

#[test]
fn a_store_takes_any_clause() {
    let mut w = Working::new(&cnf(&[&[1, 2]]));
    let index = w.add(lits(&[2, -1, 2]));
    assert_eq!(index, 1);
    assert_eq!(w.clause(1).unwrap(), &lits(&[2, -1, 2])[..]);
    assert_eq!(w.occurrences(Lit::from_dimacs(2)), vec![0, 1, 1]);
    assert_eq!(w.count(Lit::from_dimacs(2)), 3);
    assert_eq!(w.count(Lit::from_dimacs(-1)), 1);
    w.remove(1);
    assert_eq!(w.occurrences(Lit::from_dimacs(2)), vec![0]);
    assert_eq!(w.live_clauses(), 1);
}

#[test]
fn a_solved_component_is_stored_and_a_known_one_recalled() {
    let c = Config { learn: false, preprocess: false, ..Config::default() };
    let s = solve_here(&pigeonhole(6, 5), &c).stats.search.unwrap();
    assert!(s.cache.hits > 0 && s.cache.inserts > 0);
    // Nothing backjumps and nothing is given up, so what was missed is stored.
    assert_eq!(s.cache.lookups, s.cache.hits + s.cache.inserts);
    assert_eq!(s.cache.lookups, s.nodes);
    assert_eq!(s.table.entries as u64, s.cache.inserts);
}

#[test]
fn the_buckets_are_those_that_were_asked_for() {
    let f = pigeonhole(7, 6);
    let mut seen = Vec::new();
    for bucket in [BucketKind::Avl, BucketKind::Unbalanced, BucketKind::Splay, BucketKind::Chain] {
        let c = Config { bucket, preprocess: false, target_load: 64, ..Config::default() };
        let s = solve_here(&f, &c).stats.search.unwrap();
        assert!(s.table.max_bucket >= 2);
        match bucket {
            BucketKind::Chain => assert_eq!(s.table.max_depth, s.table.max_bucket),
            BucketKind::Avl => {
                // The fewest entries that a balanced tree of the depth can have.
                let (mut fewest, mut before) = (0, 0);
                for h in 1..=s.table.max_depth {
                    let next = if h == 1 { 1 } else { 1 + fewest + before };
                    before = fewest;
                    fewest = next;
                }
                assert!(fewest <= s.table.max_bucket);
            }
            _ => assert!(s.table.max_depth <= s.table.max_bucket),
        }
        seen.push((s.nodes, s.cache.lookups, s.cache.hits, s.cache.inserts, s.table.entries));
    }
    // The policy decides where an entry lies, not whether it is found.
    assert!(seen.iter().all(|x| *x == seen[0]));
}
