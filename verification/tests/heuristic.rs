//! Branching.

use dpbst_core::search::component::{ComponentAnalyzer, ComponentRef, ComponentStore};
use dpbst_core::search::heuristic::{DecisionMaker, Heuristic};
use dpbst_core::search::state::SearchState;
use dpbst_core::{Cnf, Lit};

fn cnf(clauses: &[&[i32]]) -> Cnf {
    let mut f = Cnf::new(0);
    for c in clauses {
        f.add_dimacs_clause(c);
    }
    f
}

fn only_component(f: &Cnf) -> (SearchState, ComponentStore, ComponentRef) {
    let state = SearchState::new(f);
    let mut analyzer = ComponentAnalyzer::new(f.num_vars(), f.num_clauses());
    let mut store = ComponentStore::new();
    let scope: Vec<u32> = (0..f.num_vars() as u32).collect();
    let range = analyzer.analyze(&state, &scope, &mut store, false);
    (state, store, ComponentRef::new(range.start))
}

#[test]
fn names_round_trip() {
    for h in Heuristic::all() {
        assert_eq!(h.name().parse::<Heuristic>(), Ok(h));
    }
    assert!("nonsense".parse::<Heuristic>().is_err());
}

#[test]
fn static_picks_the_lowest_unassigned_variable() {
    let f = cnf(&[&[3, 4], &[2, 3]]);
    let (state, store, comp) = only_component(&f);
    let mut d = DecisionMaker::new(f.num_vars());
    let lit = d.pick(&state, &store, comp, Heuristic::Static).unwrap();
    assert_eq!(lit, Lit::from_dimacs(2));
}

#[test]
fn jeroslow_wang_prefers_the_variable_in_short_clauses() {
    // Variable 1 appears in one binary clause; variable 4 in three long ones. JW weights the
    // binary clause at 1/4 each and the 4-literal clauses at 1/16, so 1 should win.
    let f = cnf(&[&[1, 2], &[4, 5, 6, 7], &[4, 5, 6, 8], &[4, 5, 6, 9]]);
    let (state, store, comp) = only_component(&f);
    let mut d = DecisionMaker::new(f.num_vars());
    let lit = d.pick(&state, &store, comp, Heuristic::JeroslowWang).unwrap();
    assert!(
        matches!(lit.var().to_dimacs(), 1 | 2),
        "expected a variable from the binary clause, got {lit:?}"
    );
}

#[test]
fn dlis_prefers_the_most_frequent_literal() {
    let f = cnf(&[&[1, 2], &[1, 3], &[1, 4], &[2, 3]]);
    let (state, store, comp) = only_component(&f);
    let mut d = DecisionMaker::new(f.num_vars());
    let lit = d.pick(&state, &store, comp, Heuristic::Dlis).unwrap();
    assert_eq!(lit, Lit::from_dimacs(1), "literal 1 occurs three times");
}

#[test]
fn mom_prefers_a_variable_active_on_both_sides_of_short_clauses() {
    // Clauses of length 2 are the minimum; variable 1 appears in them both positively and
    // negatively, so its product term dominates.
    let f = cnf(&[&[1, 2], &[-1, 3], &[4, 5, 6], &[4, 5, 7]]);
    let (state, store, comp) = only_component(&f);
    let mut d = DecisionMaker::new(f.num_vars());
    let lit = d.pick(&state, &store, comp, Heuristic::Mom).unwrap();
    assert_eq!(lit.var().to_dimacs(), 1);
}

#[test]
fn polarity_follows_the_majority() {
    let f = cnf(&[&[-1, 2], &[-1, 3], &[-1, 4], &[1, 5]]);
    let (state, store, comp) = only_component(&f);
    let mut d = DecisionMaker::new(f.num_vars());
    let lit = d.pick(&state, &store, comp, Heuristic::Dlcs).unwrap();
    assert_eq!(lit, Lit::from_dimacs(-1), "-1 occurs more often than 1");
}

#[test]
fn scores_do_not_leak_between_calls() {
    let f = cnf(&[&[1, 2], &[1, 3], &[1, 4]]);
    let (state, store, comp) = only_component(&f);
    let mut d = DecisionMaker::new(f.num_vars());
    let first = d.pick(&state, &store, comp, Heuristic::Dlis).unwrap();
    let second = d.pick(&state, &store, comp, Heuristic::Dlis).unwrap();
    assert_eq!(first, second, "a repeated call on the same state must be stable");
}

#[test]
fn every_heuristic_returns_a_variable_of_the_component() {
    let f = cnf(&[&[1, -2, 3], &[-1, 2], &[2, -3]]);
    let (state, store, comp) = only_component(&f);
    let mut d = DecisionMaker::new(f.num_vars());
    for h in Heuristic::all() {
        let lit = d.pick(&state, &store, comp, h).expect("component is non-empty");
        assert!(
            store.vars(comp).contains(&(lit.var().index() as u32)),
            "{} picked {lit:?}, which is outside the component",
            h.name()
        );
    }
}

/// Weights are exact however far apart the clause lengths are: an occurrence in a long clause breaks
/// the tie that the short clauses leave.
#[test]
fn jeroslow_wang_counts_very_long_clauses() {
    let long: Vec<i32> = (2..=102).collect();
    let mut f = cnf(&[&[1, 2], &[-1, -2]]);
    let mut clause = vec![-1];
    clause.extend(&long[1..]);
    f.add_dimacs_clause(&clause);
    let (state, store, comp) = only_component(&f);
    let mut d = DecisionMaker::new(f.num_vars());
    let lit = d.pick(&state, &store, comp, Heuristic::JeroslowWang).unwrap();
    assert_eq!(lit, Lit::from_dimacs(-1));

    // With the long clause on the other side the polarity turns round.
    let mut f = cnf(&[&[1, 2], &[-1, -2]]);
    clause[0] = 1;
    f.add_dimacs_clause(&clause);
    let (state, store, comp) = only_component(&f);
    let lit = d.pick(&state, &store, comp, Heuristic::JeroslowWang).unwrap();
    assert_eq!(lit, Lit::from_dimacs(1));
}

#[test]
fn scratch_may_be_larger_than_the_formula() {
    let f = cnf(&[&[1, 2], &[1, 3], &[1, 4], &[2, 3]]);
    let (state, store, comp) = only_component(&f);
    for h in Heuristic::all() {
        let exact = DecisionMaker::new(f.num_vars()).pick(&state, &store, comp, h);
        let roomy = DecisionMaker::new(f.num_vars() + 7).pick(&state, &store, comp, h);
        assert_eq!(exact, roomy);
        assert!(exact.is_some());
    }
}
