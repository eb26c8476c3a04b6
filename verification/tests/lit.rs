//! Variables and literals.

use dpbst_core::{Lit, Var};

#[test]
fn dimacs_round_trip() {
    for n in [1i32, 2, 7, -1, -2, -12345] {
        let lit = Lit::from_dimacs(n);
        assert_eq!(lit.to_dimacs(), n);
        assert_eq!(lit.var().to_dimacs(), n.abs());
        assert_eq!(lit.is_positive(), n > 0);
    }
}

#[test]
fn negation_is_involutive_and_shares_a_var() {
    let l = Lit::from_dimacs(9);
    assert_eq!(!!l, l);
    assert_ne!(!l, l);
    assert_eq!((!l).var(), l.var());
    assert_eq!(l.index() ^ 1, (!l).index());
}

#[test]
fn index_round_trip() {
    let l = Lit::from_dimacs(-42);
    assert_eq!(Lit::from_index(l.index()), l);
}

#[test]
fn polarity_constructors_agree() {
    let v = Var::from_index(3);
    assert_eq!(v.positive(), Lit::new(v, true));
    assert_eq!(v.negative(), !v.positive());
    assert_eq!(v.positive().to_dimacs(), 4);
}
