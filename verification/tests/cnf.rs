//! Formulas and models.

use dpbst_core::{Cnf, Lit, Model, Var};

fn cnf(clauses: &[&[i32]]) -> Cnf {
    let mut f = Cnf::new(0);
    for c in clauses {
        f.add_dimacs_clause(c);
    }
    f
}

#[test]
fn shape_tracks_added_clauses() {
    let f = cnf(&[&[1, -2, 3], &[-1, 2]]);
    assert_eq!(f.num_clauses(), 2);
    assert_eq!(f.num_vars(), 3);
    assert_eq!(f.num_lits(), 5);
    assert_eq!(f.clause(0), [1, -2, 3].map(Lit::from_dimacs));
    assert_eq!(f.clause(1), [-1, 2].map(Lit::from_dimacs));
}

#[test]
fn normalization_drops_tautologies_and_duplicates() {
    let f = cnf(&[&[1, -1, 2], &[3, 3, -4], &[2, 1]]);
    let (n, has_empty) = f.normalized();
    assert!(!has_empty);
    // The tautology is gone, the duplicate literal collapsed.
    assert_eq!(n.num_clauses(), 2);
    assert_eq!(n.clause(0).len(), 2);
    assert_eq!(n.clause(1).len(), 2);
    // Variable count survives even though var 1 only appears in dropped positions.
    assert_eq!(n.num_vars(), 4);
}

#[test]
fn normalization_reports_the_empty_clause() {
    let mut f = cnf(&[&[1]]);
    f.add_clause(&[]);
    let (_, has_empty) = f.normalized();
    assert!(has_empty);
}

#[test]
fn model_checking_finds_the_falsified_clause() {
    let f = cnf(&[&[1, 2], &[-1, -2]]);
    let mut m = Model::all_false(2);
    m.set(Var::from_index(0), true);
    assert!(f.is_satisfied_by(&m));

    m.set(Var::from_index(1), true);
    // Now both are true, so (-1 or -2) fails; it is clause index 1.
    assert_eq!(f.first_falsified_clause(&m), Some(1));
    assert!(!f.is_satisfied_by(&m));
}

#[test]
fn empty_formula_is_satisfied_by_anything() {
    let f = Cnf::new(3);
    assert!(f.is_empty());
    assert!(f.is_satisfied_by(&Model::all_false(3)));
}

#[test]
fn display_round_trips_through_dimacs() {
    let f = cnf(&[&[1, -2], &[3]]);
    let text = f.to_string();
    assert!(text.starts_with("p cnf 3 2\n"));
    assert!(text.contains("1 -2 0\n"));
}

#[test]
fn model_display_is_a_dimacs_v_line_body() {
    let m = Model::from_values(vec![true, false, true]);
    assert_eq!(m.to_string(), "1 -2 3");
}
