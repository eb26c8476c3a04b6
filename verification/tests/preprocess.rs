//! Preprocessing.

use dpbst_core::preprocess::{preprocess, Limits};
use dpbst_core::{Cnf, Model};

fn cnf(clauses: &[&[i32]]) -> Cnf {
    let mut f = Cnf::new(0);
    for c in clauses {
        f.add_dimacs_clause(c);
    }
    f
}

/// Brute-force satisfiability, for cross-checking.
fn brute_force(f: &Cnf) -> Option<Model> {
    let n = f.num_vars();
    assert!(n <= 20, "brute force is exponential");
    (0..1_u32 << n)
        .map(|mask| Model::from_values((0..n).map(|i| mask >> i & 1 == 1).collect()))
        .find(|m| f.is_satisfied_by(m))
}

#[test]
fn an_empty_clause_is_caught_immediately() {
    let mut f = cnf(&[&[1]]);
    f.add_clause(&[]);
    let p = preprocess(&f, &Limits::default());
    assert_eq!(p.verdict, Some(false));
}

#[test]
fn duplicate_clauses_are_dropped() {
    let f = cnf(&[&[1, 2], &[2, 1], &[1, 2], &[3, 4]]);
    let p = preprocess(&f, &Limits::default());
    assert_eq!(p.stats.duplicates_removed, 2);
}

#[test]
fn a_trivially_satisfiable_formula_is_solved_outright() {
    // Everything here is pure or unit, so search should never be needed.
    let f = cnf(&[&[1], &[2, 3], &[3, 4]]);
    let p = preprocess(&f, &Limits::default());
    assert_eq!(p.verdict, Some(true));

    let mut m = Model::all_false(f.num_vars());
    p.reconstruction.extend(&mut m);
    assert!(f.is_satisfied_by(&m));
}

#[test]
fn contradictory_units_are_caught() {
    let p = preprocess(&cnf(&[&[1], &[-1], &[2, 3]]), &Limits::default());
    assert_eq!(p.verdict, Some(false));
}

#[test]
fn bounded_elimination_does_not_grow_the_formula() {
    // A chain where each variable links exactly two clauses: elimination is free.
    let f = cnf(&[&[1, 2], &[-2, 3], &[-3, 4], &[-4, 5], &[-5, -1]]);
    let p = preprocess(&f, &Limits::default());
    assert!(
        p.cnf.num_clauses() <= f.num_clauses(),
        "preprocessing grew the formula: {} -> {}",
        f.num_clauses(),
        p.cnf.num_clauses()
    );
}

#[test]
fn elimination_respects_the_occurrence_limit() {
    // One variable in many clauses; with max_occurrences 2 it must be left alone.
    let f = cnf(&[&[1, 2], &[1, 3], &[1, 4], &[-1, 5], &[-1, 6], &[-1, 7]]);
    let limits = Limits { max_occurrences: 2, ..Limits::default() };
    let p = preprocess(&f, &limits);
    // Pure literal elimination may still finish it off; what matters is that BVE did not run
    // away on the high-degree variable.
    assert!(p.stats.vars_eliminated <= 1);
}

/// The property that matters: whatever preprocessing does, a model of the residual must
/// extend to a model of the input.
#[test]
fn reconstruction_round_trips_on_random_formulas() {
    let mut seed = 0x2545_f491_4f6c_dd1d_u64;
    let mut next = move || {
        seed ^= seed << 13;
        seed ^= seed >> 7;
        seed ^= seed << 17;
        seed
    };

    for case in 0..300 {
        let num_vars = 6 + (next() % 5) as usize;
        let num_clauses = 8 + (next() % 20) as usize;
        let mut f = Cnf::new(num_vars);
        for _ in 0..num_clauses {
            let len = 2 + (next() % 2) as usize;
            let mut clause = Vec::new();
            for _ in 0..len {
                let v = (next() % num_vars as u64) as i32 + 1;
                let sign = if next() % 2 == 0 { 1 } else { -1 };
                clause.push(v * sign);
            }
            f.add_dimacs_clause(&clause);
        }

        let p = preprocess(&f, &Limits::default());
        let truth = brute_force(&f);

        match p.verdict {
            Some(false) => assert!(truth.is_none(), "case {case}: claimed UNSAT but is SAT"),
            Some(true) => {
                let mut m = Model::all_false(f.num_vars());
                p.reconstruction.extend(&mut m);
                assert!(f.is_satisfied_by(&m), "case {case}: claimed SAT with a bad model");
            }
            None => {
                // The residual must have exactly the same satisfiability as the input, and a
                // model of it must extend to one of the input.
                let residual_model = brute_force(&p.cnf);
                assert_eq!(
                    residual_model.is_some(),
                    truth.is_some(),
                    "case {case}: preprocessing changed satisfiability"
                );
                if let Some(mut m) = residual_model {
                    p.reconstruction.extend(&mut m);
                    assert!(
                        f.is_satisfied_by(&m),
                        "case {case}: reconstruction produced a non-model"
                    );
                }
            }
        }
    }
}
