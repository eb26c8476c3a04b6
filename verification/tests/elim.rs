//! Elimination and reconstruction.

use dpbst_core::elim::{
    eliminate_pure_literals, eliminate_var, resolve, resolvent_count, unit_propagate, Reconstruction, Working,
};
use dpbst_core::{Cnf, Lit, Model, Var};

fn cnf(clauses: &[&[i32]]) -> Cnf {
    let mut f = Cnf::new(0);
    for c in clauses {
        f.add_dimacs_clause(c);
    }
    f.normalized().0
}

fn lit(n: i32) -> Lit {
    Lit::from_dimacs(n)
}

fn var(n: i32) -> Var {
    Var::from_index(n as usize - 1)
}

#[test]
fn resolution_removes_the_pivot() {
    let a = [lit(1), lit(2)];
    let b = [lit(-1), lit(3)];
    let r = resolve(&a, &b, var(1)).expect("not a tautology");
    assert_eq!(r, vec![lit(2), lit(3)]);
}

#[test]
fn tautological_resolvents_are_dropped() {
    // (1 or 2) resolved with (-1 or -2) gives (2 or -2).
    assert!(resolve(&[lit(1), lit(2)], &[lit(-1), lit(-2)], var(1)).is_none());
}

#[test]
fn resolution_deduplicates() {
    let r = resolve(&[lit(1), lit(2)], &[lit(-1), lit(2), lit(3)], var(1)).unwrap();
    assert_eq!(r, vec![lit(2), lit(3)]);
}

#[test]
fn occurrence_lists_skip_removed_clauses() {
    let mut w = Working::new(&cnf(&[&[1, 2], &[1, 3], &[-1, 4]]));
    assert_eq!(w.count(lit(1)), 2);
    w.remove(0);
    assert_eq!(w.count(lit(1)), 1);
    assert_eq!(w.live_clauses(), 2);
}

#[test]
fn unit_propagation_fixes_and_strengthens() {
    let mut w = Working::new(&cnf(&[&[1], &[-1, 2], &[2, 3]]));
    let mut t = Reconstruction::new();
    assert!(unit_propagate(&mut w, &mut t));
    // 1 is true, so (-1 or 2) becomes the unit (2), which then satisfies (2 or 3).
    assert!(w.is_empty());
    assert_eq!(t.len(), 2);
}

#[test]
fn unit_propagation_detects_conflict() {
    let mut w = Working::new(&cnf(&[&[1], &[-1]]));
    let mut t = Reconstruction::new();
    assert!(!unit_propagate(&mut w, &mut t));
}

#[test]
fn pure_literals_are_removed() {
    let mut w = Working::new(&cnf(&[&[1, 2], &[1, -2], &[-2, 3]]));
    let mut t = Reconstruction::new();
    // 1 is pure positive; after its clauses go, 3 is pure and -2 is pure.
    assert!(eliminate_pure_literals(&mut w, &mut t) >= 1);
    assert!(w.is_empty());
}

#[test]
fn eliminating_a_variable_replaces_its_clauses() {
    // (1 or 2), (-1 or 3) resolve to (2 or 3); both originals go away.
    let mut w = Working::new(&cnf(&[&[1, 2], &[-1, 3], &[4, 5]]));
    let mut t = Reconstruction::new();
    assert_eq!(resolvent_count(&w, var(1)), 1);
    assert_eq!(eliminate_var(&mut w, var(1), &mut t), 1);
    assert_eq!(w.live_clauses(), 2);
    assert_eq!(w.count(lit(1)), 0);
    assert_eq!(w.count(lit(-1)), 0);
}

#[test]
fn reconstruction_recovers_a_fixed_variable() {
    let mut t = Reconstruction::new();
    t.fix(lit(-2));
    let mut m = Model::all_false(3);
    m.set(var(2), true);
    t.extend(&mut m);
    assert!(!m.value(var(2)));
}

#[test]
fn reconstruction_recovers_an_eliminated_variable() {
    let original = cnf(&[&[1, 2], &[-1, 3]]);
    let mut w = Working::new(&original);
    let mut t = Reconstruction::new();
    eliminate_var(&mut w, var(1), &mut t);

    // Model of the residual (2 or 3): satisfy it with 3 alone, leaving 2 false.
    let mut m = Model::all_false(3);
    m.set(var(3), true);
    assert!(w.to_cnf().is_satisfied_by(&m));

    t.extend(&mut m);
    assert!(original.is_satisfied_by(&m), "reconstruction must satisfy the original");
}

#[test]
fn reconstruction_handles_a_chain_of_eliminations() {
    let original = cnf(&[&[1, 2], &[-1, 3], &[-2, 4], &[-3, -4, 5]]);
    let mut w = Working::new(&original);
    let mut t = Reconstruction::new();
    for v in [1, 2, 3] {
        eliminate_var(&mut w, var(v), &mut t);
    }
    let residual = w.to_cnf();

    // Brute-force a model of the residual over the variables that remain.
    let n = residual.num_vars();
    let mut found = None;
    for mask in 0..1_u32 << n {
        let m = Model::from_values((0..n).map(|i| mask >> i & 1 == 1).collect());
        if residual.is_satisfied_by(&m) {
            found = Some(m);
            break;
        }
    }
    let mut m = found.expect("residual is satisfiable");
    t.extend(&mut m);
    assert!(original.is_satisfied_by(&m));
}

#[test]
fn compacting_occurrences_preserves_answers() {
    let mut w = Working::new(&cnf(&[&[1, 2], &[1, 3], &[-1, 4]]));
    w.remove(0);
    let before = w.count(lit(1));
    w.compact_occurrences();
    assert_eq!(w.count(lit(1)), before);
    assert_eq!(w.count(lit(-1)), 1);
}

#[test]
fn counts_agree_for_clauses_in_any_order() {
    let mut w = Working::new(&cnf(&[&[1, 2, 3]]));
    w.add(vec![lit(3), lit(-1), lit(2)]);
    w.add(vec![lit(2), lit(1)]);
    w.remove(0);
    let counts = w.literal_counts();
    for n in [1, -1, 2, -2, 3, -3] {
        let l = lit(n);
        assert_eq!(w.count(l), w.occurrences(l).len());
        assert_eq!(w.count(l), counts[l.index()] as usize);
    }
    assert_eq!(w.tombstones(), (3, 8));
    w.compact_occurrences();
    assert_eq!(w.tombstones(), (0, 5));
    assert_eq!(w.occurrences(lit(2)), vec![1, 2]);
}
