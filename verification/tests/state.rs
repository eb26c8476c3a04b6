//! The search state.

use dpbst_core::search::state::{Conflict, SearchState};
use dpbst_core::{Cnf, Lit, Var};

fn cnf(clauses: &[&[i32]]) -> Cnf {
    let mut f = Cnf::new(0);
    for c in clauses {
        f.add_dimacs_clause(c);
    }
    f
}

fn lit(n: i32) -> Lit {
    Lit::from_dimacs(n)
}

fn occurrences(s: &SearchState, n: i32) -> Vec<u32> {
    s.occurrences(lit(n)).to_vec()
}

#[test]
fn occurrence_lists_are_complete() {
    let s = SearchState::new(&cnf(&[&[1, 2], &[-1, 3], &[1, -3]]));
    assert_eq!(occurrences(&s, 1), vec![0, 2]);
    assert_eq!(occurrences(&s, -1), vec![1]);
    assert_eq!(occurrences(&s, 3), vec![1]);
    assert_eq!(occurrences(&s, -3), vec![2]);
    assert!(occurrences(&s, -2).is_empty());
}

/// A learned clause has to show up in the occurrence lists, or component analysis would not
/// see it and propagation inside a component could escape it.
#[test]
fn learned_clauses_join_the_occurrence_lists() {
    let mut s = SearchState::new(&cnf(&[&[1, 2], &[-1, 3]]));
    let c = s.add_clause(&[lit(-2), lit(3)]);
    assert_eq!(c, 2);
    assert_eq!(occurrences(&s, 3), vec![1, 2]);
    assert_eq!(occurrences(&s, -2), vec![2]);
    assert_eq!(s.num_original_clauses(), 2);
    assert_eq!(s.num_learned_clauses(), 1);
    assert!(s.counters_are_consistent());
}

/// Counters for a clause added mid-search must account for the assignment already in force,
/// and must then undo exactly like any other clause.
#[test]
fn a_clause_added_mid_search_undoes_correctly() {
    let mut s = SearchState::new(&cnf(&[&[1, 2], &[-1, 3]]));
    s.push_level();
    s.enqueue(lit(1));
    assert!(s.propagate());
    let c = s.add_clause(&[lit(-1), lit(-3), lit(2)]);
    assert!(s.counters_are_consistent(), "counters at insertion time");
    assert!(s.is_active(c as usize), "-1 and -3 are false, 2 is free");
    s.pop_level();
    assert!(s.counters_are_consistent(), "counters after backtracking");
    assert_eq!(s.trail_len(), 0);
}

#[test]
fn assigning_updates_both_counters() {
    let mut s = SearchState::new(&cnf(&[&[1, 2, 3], &[-1, 2]]));
    assert!(s.is_active(0) && s.is_active(1));

    s.enqueue(lit(1));
    assert!(s.is_satisfied(0), "clause 0 contains literal 1");
    assert!(s.is_active(1), "clause 1 contains -1, which is now false");
    assert!(s.counters_are_consistent());
}

#[test]
fn unit_propagation_chains() {
    // 1 forces 2 forces 3.
    let mut s = SearchState::new(&cnf(&[&[1], &[-1, 2], &[-2, 3]]));
    assert!(s.propagate());
    assert_eq!(s.value(Var::from_index(0)), Some(true));
    assert_eq!(s.value(Var::from_index(1)), Some(true));
    assert_eq!(s.value(Var::from_index(2)), Some(true));
    assert!(s.counters_are_consistent());
}

#[test]
fn contradictory_units_conflict() {
    let mut s = SearchState::new(&cnf(&[&[1], &[-1]]));
    assert!(!s.propagate());
    assert!(s.in_conflict());
}

#[test]
fn empty_clause_conflicts_before_any_propagation() {
    let mut f = cnf(&[&[1]]);
    f.add_clause(&[]);
    let s = SearchState::new(&f);
    assert!(s.in_conflict());
}

#[test]
fn backtracking_restores_counters_exactly() {
    let mut s = SearchState::new(&cnf(&[&[1, 2, 3], &[-1, -2], &[2, -3], &[-1, 3]]));
    let before: Vec<_> = (0..s.num_clauses())
        .map(|c| (s.true_literals(c), s.unassigned_literals(c)))
        .collect();

    // Assigning 1 forces -2 and 3, and -2 then forces -3, which conflicts with 3. The point
    // here is not the verdict but that undoing it restores every counter exactly.
    s.push_level();
    s.enqueue(lit(1));
    assert!(!s.propagate(), "this branch conflicts");
    assert!(s.counters_are_consistent());
    s.pop_level();

    s.push_level();
    s.enqueue(lit(-1));
    assert!(s.propagate());
    assert!(s.counters_are_consistent());
    s.push_level();
    if s.value(Var::from_index(2)).is_none() {
        s.enqueue(lit(-3));
        s.propagate();
    }
    assert!(s.counters_are_consistent());

    s.pop_level();
    s.pop_level();

    let after: Vec<_> = (0..s.num_clauses())
        .map(|c| (s.true_literals(c), s.unassigned_literals(c)))
        .collect();
    assert_eq!(
        before, after,
        "counters must return to their initial values"
    );
    assert_eq!(s.trail_len(), 0);
    assert!(!s.in_conflict());
    assert!(s.counters_are_consistent());
}

#[test]
fn backtracking_clears_a_conflict() {
    let mut s = SearchState::new(&cnf(&[&[1, 2], &[-1, 2], &[1, -2], &[-1, -2]]));
    s.push_level();
    s.enqueue(lit(1));
    assert!(!s.propagate(), "1 forces 2 and -2");
    assert!(s.in_conflict());
    s.pop_level();
    assert!(!s.in_conflict());
    assert!(s.counters_are_consistent());
    assert_eq!(s.trail_len(), 0);
}

/// Textbook first-UIP: `a` and `b` each force `c` one way and the other. Resolving the
/// conflict must produce a clause over the decisions, not over the implied literal.
#[test]
fn first_uip_resolves_back_to_the_decisions() {
    // Deciding a and then b forces c by the first clause and falsifies the second.
    let mut s = SearchState::new(&cnf(&[&[-1, -2, 3], &[-1, -2, -3]]));
    s.push_level();
    s.enqueue(lit(1));
    assert!(s.propagate(), "a alone settles nothing");
    s.push_level();
    s.enqueue(lit(2));
    assert!(!s.propagate(), "b forces c and -c");

    let Conflict::Learned {
        clause,
        assert_level,
        asserting,
    } = s.analyze_conflict(0)
    else {
        panic!("the conflict is not at the root");
    };
    let mut learned: Vec<i32> = s
        .clause(clause as usize)
        .iter()
        .map(|l| l.to_dimacs())
        .collect();
    learned.sort_unstable();
    assert_eq!(learned, vec![-2, -1], "resolving c away leaves (-a or -b)");
    assert_eq!(assert_level, 1, "-a sits on level 1");
    assert!(asserting, "exactly one literal is on the conflict level");
}

/// The derived clause must be unit, and the backjump level zero, when everything that caused
/// the conflict was forced at the root.
#[test]
fn a_conflict_above_a_single_decision_yields_a_unit_clause() {
    let mut s = SearchState::new(&cnf(&[&[-1, 2], &[-1, -2]]));
    s.push_level();
    s.enqueue(lit(1));
    assert!(!s.propagate());

    let Conflict::Learned {
        clause,
        assert_level,
        asserting,
    } = s.analyze_conflict(0)
    else {
        panic!("the conflict is not at the root");
    };
    let learned: Vec<i32> = s
        .clause(clause as usize)
        .iter()
        .map(|l| l.to_dimacs())
        .collect();
    assert_eq!(learned, vec![-1]);
    assert_eq!(assert_level, 0);
    assert!(asserting);
}

/// A conflict that needs no decision at all is the formula's own; there is nothing to undo.
#[test]
fn a_root_conflict_is_reported_as_such() {
    let mut s = SearchState::new(&cnf(&[&[1], &[-1]]));
    assert!(!s.propagate());
    assert_eq!(s.analyze_conflict(0), Conflict::Root);
}

/// Pure literals carry no reason clause, so resolution has to stop at them and keep the
/// literal. The clause is still a valid consequence, but it is not asserting, and the state
/// has to say so rather than let the search backjump on it.
#[test]
fn a_conflict_through_a_pure_literal_is_not_asserting() {
    // Deciding a, then b, then assigning p as though pure: only all three together conflict,
    // and p has no reason clause to resolve against.
    let mut s = SearchState::new(&cnf(&[&[-1, -2, -4, 5], &[-1, -2, -4, -5]]));
    s.push_level();
    s.enqueue(lit(1));
    assert!(s.propagate());
    s.push_level();
    s.enqueue(lit(2));
    assert!(s.propagate());
    // `p` (variable 4) is assigned with no reason, on the same level as the decision `b`.
    s.enqueue(lit(4));
    assert!(!s.propagate(), "a, b and p together force e and -e");

    let Conflict::Learned {
        clause,
        assert_level,
        asserting,
    } = s.analyze_conflict(0)
    else {
        panic!("the conflict is not at the root");
    };
    let mut learned: Vec<i32> = s
        .clause(clause as usize)
        .iter()
        .map(|l| l.to_dimacs())
        .collect();
    learned.sort_unstable();
    assert_eq!(learned, vec![-4, -2, -1]);
    assert!(
        !asserting,
        "-b and -p are both on the conflict level, so nothing is forced by backjumping"
    );
    assert_eq!(assert_level, 2, "which is the conflict level itself");
}

/// Every derived clause is a resolvent of clauses already present, so it must be false under
/// the assignment that produced it — that is what makes backjumping to `assert_level` safe.
#[test]
fn a_derived_clause_is_falsified_by_the_assignment_that_produced_it() {
    let mut s = SearchState::new(&cnf(&[
        &[-1, 2],
        &[-2, 3],
        &[-1, -3, 4],
        &[-4, -2],
        &[5, 1],
        &[-5, 1],
    ]));
    assert!(s.propagate(), "1 is forced at the root");
    s.push_level();
    s.enqueue(lit(-2));
    if s.propagate() {
        return; // Nothing to analyse; the shape of this formula changed.
    }
    let Conflict::Learned { clause, .. } = s.analyze_conflict(0) else {
        return;
    };

    for &l in s.clause(clause as usize) {
        assert_eq!(
            s.value(l.var()),
            Some(!l.is_positive()),
            "{l:?} of the derived clause should be false"
        );
    }
}

/// A derived clause longer than the caller will keep must be reported, not stored.
#[test]
fn an_over_long_derived_clause_is_discarded() {
    let mut s = SearchState::new(&cnf(&[&[-1, -2, 3], &[-1, -2, -3]]));
    s.push_level();
    s.enqueue(lit(1));
    assert!(s.propagate());
    s.push_level();
    s.enqueue(lit(2));
    assert!(!s.propagate());

    let before = s.num_clauses();
    assert_eq!(s.analyze_conflict(1), Conflict::TooLong(2));
    assert_eq!(s.num_clauses(), before, "nothing should have been added");
}

#[test]
fn deep_assign_undo_cycles_stay_consistent() {
    // Hammer the incremental counters: a missed decrement anywhere shows up here.
    let mut s = SearchState::new(&cnf(&[
        &[1, 2, 3],
        &[-1, -2, 4],
        &[2, -3, -4],
        &[-2, 3, 4],
        &[1, -3, -4],
    ]));
    for mask in 0..16_u32 {
        for i in 0..4 {
            let sign = if mask >> i & 1 == 1 { 1 } else { -1 };
            s.push_level();
            let v = (i + 1) * sign;
            if s.value(Lit::from_dimacs(v).var()).is_none() {
                s.enqueue(lit(v));
                s.propagate();
            }
            assert!(s.counters_are_consistent(), "mask {mask} depth {i}");
        }
        for _ in 0..4 {
            s.pop_level();
        }
        assert_eq!(s.trail_len(), 0, "mask {mask}");
        assert!(s.counters_are_consistent());
    }
}

/// The asserting literal comes first, the rest in the order in which resolution met them, except
/// that the first of them made room and stands last.
#[test]
fn a_learned_clause_has_its_literals_in_order() {
    let mut s = SearchState::new(&cnf(&[&[-3, 4], &[-3, 5], &[-1, -2, -6, -4, -5]]));
    for n in [1, 2, 6] {
        s.push_level();
        s.enqueue(lit(n));
        assert!(s.propagate());
    }
    s.push_level();
    s.enqueue(lit(3));
    assert!(!s.propagate());
    let Conflict::Learned { clause, assert_level, asserting } = s.analyze_conflict(0) else {
        panic!("the conflict is not at the root");
    };
    let learned: Vec<i32> = s.clause(clause as usize).iter().map(|l| l.to_dimacs()).collect();
    assert_eq!(learned, vec![-3, -2, -6, -1]);
    assert_eq!((assert_level, asserting), (3, true));
}

/// The clause that was queued last is looked at first.
#[test]
fn the_last_clause_to_wake_is_the_first_to_act() {
    let mut s = SearchState::new(&cnf(&[&[-1, 2], &[-1, 3], &[-3, -2]]));
    s.push_level();
    s.enqueue(lit(1));
    assert!(!s.propagate());
    // The second clause forces 3, the third then forces -2, and the first is falsified.
    assert_eq!(s.value(Var::from_index(2)), Some(true));
    assert_eq!(s.value(Var::from_index(1)), Some(false));
    assert_eq!(s.trail_len(), 3);
}

/// Where one literal falsifies several clauses, the conflict is the first of them.
#[test]
fn the_first_falsified_clause_is_the_conflict() {
    let mut s = SearchState::new(&cnf(&[&[-1, -3], &[-2, -3]]));
    for n in [1, 2, 3] {
        s.push_level();
        s.enqueue(lit(n));
    }
    assert!(s.in_conflict());
    assert!(!s.propagate());
    let Conflict::Learned { clause, assert_level, asserting } = s.analyze_conflict(0) else {
        panic!("the conflict is not at the root");
    };
    let learned: Vec<i32> = s.clause(clause as usize).iter().map(|l| l.to_dimacs()).collect();
    assert_eq!(learned.len(), 2);
    assert!(learned.contains(&-1) && learned.contains(&-3));
    assert_eq!(assert_level, 1);
    assert!(asserting);
}
