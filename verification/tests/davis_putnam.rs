//! The Davis-Putnam procedure.

use dpbst_core::dp::{solve, DpOutcome};
use dpbst_core::Cnf;

fn cnf(clauses: &[&[i32]]) -> Cnf {
    let mut f = Cnf::new(0);
    for c in clauses {
        f.add_dimacs_clause(c);
    }
    f
}

fn verdict(f: &Cnf) -> Option<bool> {
    match solve(f, 1_000_000).0 {
        DpOutcome::Sat(m) => {
            assert!(f.is_satisfied_by(&m), "model does not satisfy the formula");
            Some(true)
        }
        DpOutcome::Unsat => Some(false),
        DpOutcome::OutOfResources { .. } => None,
    }
}

#[test]
fn empty_formula_is_satisfiable() {
    assert_eq!(verdict(&Cnf::new(3)), Some(true));
}

#[test]
fn a_direct_contradiction_is_unsatisfiable() {
    assert_eq!(verdict(&cnf(&[&[1], &[-1]])), Some(false));
}

#[test]
fn all_four_two_variable_clauses_are_unsatisfiable() {
    assert_eq!(
        verdict(&cnf(&[&[1, 2], &[1, -2], &[-1, 2], &[-1, -2]])),
        Some(false)
    );
}

#[test]
fn a_satisfiable_instance_yields_a_checked_model() {
    assert_eq!(
        verdict(&cnf(&[&[1, 2, 3], &[-1, 2], &[-2, 3], &[-3, 1]])),
        Some(true)
    );
}

#[test]
fn resolution_finds_the_pigeonhole_contradiction() {
    // Three pigeons, two holes.
    let f = cnf(&[
        &[1, 2],
        &[3, 4],
        &[5, 6],
        &[-1, -3],
        &[-1, -5],
        &[-3, -5],
        &[-2, -4],
        &[-2, -6],
        &[-4, -6],
    ]);
    assert_eq!(verdict(&f), Some(false));
}

#[test]
fn the_clause_limit_stops_a_blowup() {
    // A formula designed to resolve badly, with a limit far below what it needs.
    let mut f = Cnf::new(12);
    for i in 1..=6_i32 {
        for j in 7..=12_i32 {
            f.add_dimacs_clause(&[i, j]);
            f.add_dimacs_clause(&[-i, -j]);
        }
    }
    assert!(matches!(solve(&f, 8).0, DpOutcome::OutOfResources { .. }));
}

#[test]
fn peak_clause_count_is_reported() {
    let f = cnf(&[&[1, 2], &[-1, 3], &[-2, 3], &[-3, 4], &[-4, 1]]);
    let (_, stats) = solve(&f, 1_000_000);
    assert!(stats.peak_clauses >= f.num_clauses() - 1);
}
