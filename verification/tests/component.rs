//! Decomposition into components.

use dpbst_core::search::component::{ComponentAnalyzer, ComponentRef, ComponentStore};
use dpbst_core::search::state::SearchState;
use dpbst_core::{Cnf, Lit};

fn cnf(clauses: &[&[i32]]) -> Cnf {
    let mut f = Cnf::new(0);
    for c in clauses {
        f.add_dimacs_clause(c);
    }
    f
}

fn setup(f: &Cnf) -> (SearchState, ComponentAnalyzer, ComponentStore) {
    (
        SearchState::new(f),
        ComponentAnalyzer::new(f.num_vars(), f.num_clauses()),
        ComponentStore::new(),
    )
}

fn all_vars(n: usize) -> Vec<u32> {
    (0..n as u32).collect()
}

#[test]
fn a_connected_formula_is_one_component() {
    let f = cnf(&[&[1, 2], &[2, 3], &[3, 1]]);
    let (state, mut a, mut store) = setup(&f);
    let range = a.analyze(&state, &all_vars(3), &mut store, false);
    assert_eq!(range.len(), 1);
    let c = ComponentRef::new(range.start);
    assert_eq!(store.vars(c), &[0, 1, 2]);
    assert_eq!(store.clauses(c), &[0, 1, 2]);
}

#[test]
fn disjoint_clause_groups_split() {
    // Two independent 2-colourings that share no variables at all.
    let f = cnf(&[&[1, 2], &[-1, -2], &[3, 4], &[-3, -4]]);
    let (state, mut a, mut store) = setup(&f);
    let range = a.analyze(&state, &all_vars(4), &mut store, false);
    assert_eq!(range.len(), 2);
    let first = ComponentRef::new(range.start);
    let second = ComponentRef::new(range.start + 1);
    assert_eq!(store.vars(first), &[0, 1]);
    assert_eq!(store.clauses(first), &[0, 1]);
    assert_eq!(store.vars(second), &[2, 3]);
    assert_eq!(store.clauses(second), &[2, 3]);
    assert_ne!(store.hash(first), store.hash(second));
}

/// The behaviour the whole design rests on: assigning a variable can break one component
/// into several, which is what creates reusable subproblems.
#[test]
fn assignment_splits_a_component_in_two() {
    // Variable 1 is the only link between the two halves.
    let f = cnf(&[&[1, 2], &[2, 3], &[1, 4], &[4, 5]]);
    let (mut state, mut a, mut store) = setup(&f);

    let whole = a.analyze(&state, &all_vars(5), &mut store, false);
    assert_eq!(whole.len(), 1, "connected before assigning");
    store.truncate(store.mark());

    state.push_level();
    state.enqueue(Lit::from_dimacs(1));
    assert!(state.propagate());

    let split = a.analyze(&state, &all_vars(5), &mut store, false);
    // Clauses 0 and 2 are satisfied by 1; what remains is {2,3} and {4,5}, disjoint.
    assert_eq!(split.len(), 2);
    let l = ComponentRef::new(split.start);
    let r = ComponentRef::new(split.start + 1);
    assert_eq!(store.vars(l), &[1, 2]);
    assert_eq!(store.vars(r), &[3, 4]);
}

#[test]
fn satisfied_clauses_and_free_variables_are_excluded() {
    let f = cnf(&[&[1], &[2, 3]]);
    let (mut state, mut a, mut store) = setup(&f);
    assert!(state.propagate(), "the unit clause assigns variable 1");

    let range = a.analyze(&state, &all_vars(3), &mut store, false);
    assert_eq!(range.len(), 1);
    let c = ComponentRef::new(range.start);
    assert_eq!(
        store.vars(c),
        &[1, 2],
        "variable 1 is assigned, so it is gone"
    );
    assert_eq!(
        store.clauses(c),
        &[1],
        "clause 0 is satisfied, so it is gone"
    );
}

#[test]
fn a_variable_with_only_satisfied_clauses_is_not_a_component() {
    let f = cnf(&[&[1, 2]]);
    let (mut state, mut a, mut store) = setup(&f);
    state.enqueue(Lit::from_dimacs(1));
    // Variable 2 is now free: its only clause is satisfied.
    let range = a.analyze(&state, &all_vars(2), &mut store, false);
    assert_eq!(range.len(), 0);
}

#[test]
fn identical_subproblems_reached_differently_get_identical_keys() {
    // This is the property that makes the memo hit at all: assigning 1 then 2, or 2 then 1,
    // must produce the same name for the subproblem that survives.
    let f = cnf(&[&[1, 5], &[2, 5], &[3, 4], &[-3, 4]]);
    let (mut state, mut a, mut store) = setup(&f);

    state.push_level();
    state.enqueue(Lit::from_dimacs(1));
    state.enqueue(Lit::from_dimacs(2));
    state.propagate();
    let first = a.analyze(&state, &all_vars(5), &mut store, false);
    let key_a = store.key(ComponentRef::new(first.start)).to_vec();
    let hash_a = store.hash(ComponentRef::new(first.start));
    state.pop_level();

    state.push_level();
    state.enqueue(Lit::from_dimacs(2));
    state.enqueue(Lit::from_dimacs(1));
    state.propagate();
    let second = a.analyze(&state, &all_vars(5), &mut store, false);
    let key_b = store.key(ComponentRef::new(second.start)).to_vec();
    let hash_b = store.hash(ComponentRef::new(second.start));
    state.pop_level();

    assert_eq!(key_a, key_b, "same residual formula must get the same key");
    assert_eq!(hash_a, hash_b);
}

#[test]
fn different_subproblems_get_different_keys() {
    // Same clause set, different unassigned variables: the keys must differ, which is why
    // the key records both halves rather than just the clauses.
    let f = cnf(&[&[1, 2, 3], &[-1, 2, 3]]);
    let (mut state, mut a, mut store) = setup(&f);

    let whole = a.analyze(&state, &all_vars(3), &mut store, false);
    let key_a = store.key(ComponentRef::new(whole.start)).to_vec();

    state.push_level();
    state.enqueue(Lit::from_dimacs(-1));
    state.propagate();
    let part = a.analyze(&state, &all_vars(3), &mut store, false);
    // Clause 1 is satisfied by -1; clause 0 survives with variable 1 assigned.
    let key_b = store.key(ComponentRef::new(part.start)).to_vec();
    assert_ne!(key_a, key_b);
}

#[test]
fn pure_literals_are_detected() {
    // Variable 3 only ever occurs positively among active clauses.
    let f = cnf(&[&[1, 3], &[-1, 3], &[1, -2], &[-1, 2]]);
    let (state, mut a, mut store) = setup(&f);
    a.analyze(&state, &all_vars(3), &mut store, true);
    assert_eq!(a.pure_literals(), &[Lit::from_dimacs(3)]);
}

#[test]
fn a_variable_on_both_sides_is_not_pure() {
    let f = cnf(&[&[1, 2], &[-1, 2], &[-2, 1]]);
    let (state, mut a, mut store) = setup(&f);
    a.analyze(&state, &all_vars(2), &mut store, true);
    assert!(a.pure_literals().is_empty());
}

#[test]
fn purity_counts_only_active_clauses() {
    // -3 occurs, but only in a clause that is already satisfied, so 3 is pure after all.
    let f = cnf(&[&[1, 3], &[-3, 2]]);
    let (mut state, mut a, mut store) = setup(&f);
    state.enqueue(Lit::from_dimacs(2));
    a.analyze(&state, &all_vars(3), &mut store, true);
    assert!(a.pure_literals().contains(&Lit::from_dimacs(3)));
}

#[test]
fn store_truncation_returns_to_the_mark() {
    let f = cnf(&[&[1, 2], &[3, 4]]);
    let (state, mut a, mut store) = setup(&f);
    let mark = store.mark();
    let range = a.analyze(&state, &all_vars(4), &mut store, false);
    assert_eq!(range.len(), 2);
    store.truncate(mark);
    let again = a.analyze(&state, &all_vars(4), &mut store, false);
    assert_eq!(again, 0..2, "the store should reuse the reclaimed slots");
}

#[test]
fn keys_are_compact() {
    // 40 clauses over 20 variables should cost roughly a byte per element, not four.
    let clauses: Vec<Vec<i32>> = (0..40)
        .map(|i| vec![(i % 20) + 1, ((i + 3) % 20) + 1, -(((i + 7) % 20) + 1)])
        .collect();
    let refs: Vec<&[i32]> = clauses.iter().map(std::vec::Vec::as_slice).collect();
    let f = cnf(&refs);
    let (state, mut a, mut store) = setup(&f);
    let range = a.analyze(&state, &all_vars(f.num_vars()), &mut store, false);
    let key = store.key(ComponentRef::new(range.start));
    assert!(
        key.len() <= 64,
        "key of {} bytes for 20 vars + 40 clauses",
        key.len()
    );
}

#[test]
fn scratch_may_be_larger_than_the_formula_it_analyses() {
    let f = cnf(&[&[1, 2], &[3, 4], &[-1, -2]]);
    let (state, mut exact, mut store) = setup(&f);
    let mut roomy = ComponentAnalyzer::new(f.num_vars() + 5, f.num_clauses() + 3);
    let a = exact.analyze(&state, &all_vars(4), &mut store, true);
    let b = roomy.analyze(&state, &all_vars(4), &mut store, true);
    assert_eq!((a.len(), b.len()), (2, 2));
    for k in 0..2 {
        let (p, q) = (ComponentRef::new(a.start + k), ComponentRef::new(b.start + k));
        assert_eq!(store.vars(p), store.vars(q));
        assert_eq!(store.clauses(p), store.clauses(q));
        assert_eq!(store.key(p), store.key(q));
    }
    let whole = roomy.analyze_whole(&state, &all_vars(4), &mut store, false);
    assert_eq!(whole.len(), 1);
    assert_eq!(store.clauses(ComponentRef::new(whole.start)), &[0, 1, 2]);
}
