//! What it means for an assignment to satisfy a literal, a clause or a formula.

use vstd::prelude::*;
use crate::lit::Lit;

verus! {

/// A total assignment: a truth value for every variable index.
pub type Valuation = spec_fn(int) -> bool;

/// The literal `l` is true under `m`.
pub open spec fn lit_true(m: Valuation, l: Lit) -> bool {
    m(l.vi()) == l.pos()
}

/// Some literal of the clause is true under `m`.
pub open spec fn clause_true(m: Valuation, c: Seq<Lit>) -> bool {
    exists|i: int| 0 <= i < c.len() && lit_true(m, #[trigger] c[i])
}

/// Every clause of the formula is true under `m`.
pub open spec fn formula_true(m: Valuation, f: Seq<Seq<Lit>>) -> bool {
    forall|i: int| 0 <= i < f.len() ==> clause_true(m, #[trigger] f[i])
}

/// Some assignment makes the formula true.
pub open spec fn satisfiable(f: Seq<Seq<Lit>>) -> bool {
    exists|m: Valuation| formula_true(m, f)
}

/// There is a clause, but nothing to simplify at sight: no empty clause, no unit clause, and no pure
/// literal.
pub open spec fn nothing_obvious(f: Seq<Seq<Lit>>) -> bool {
    &&& f.len() > 0
    &&& forall|c: int| 0 <= c < f.len() ==> (#[trigger] f[c]).len() >= 2
    &&& forall|l: Lit| #[trigger] occurs_in(f, l) ==> occurs_in(f, l.neg())
}

/// Some clause contains the literal.
pub open spec fn occurs_in(f: Seq<Seq<Lit>>, l: Lit) -> bool {
    exists|c: int| 0 <= c < f.len() && (#[trigger] f[c]).contains(l)
}

/// The total assignment that a list of values stands for; indices past its end are false.
pub open spec fn valuation(values: Seq<bool>) -> Valuation {
    |v: int| 0 <= v < values.len() && values[v]
}

/// All literals of the clause range over variables below `n`.
pub open spec fn clause_below(c: Seq<Lit>, n: int) -> bool {
    forall|i: int| 0 <= i < c.len() ==> (#[trigger] c[i]).vi() < n
}

/// All clauses of the formula range over variables below `n`.
pub open spec fn formula_below(f: Seq<Seq<Lit>>, n: int) -> bool {
    forall|i: int| 0 <= i < f.len() ==> clause_below(#[trigger] f[i], n)
}

/// The clause contains a literal and its complement, and so is true everywhere.
pub open spec fn tautology(c: Seq<Lit>) -> bool {
    exists|i: int, j: int|
        0 <= i < c.len() && 0 <= j < c.len() && #[trigger] c[i] == (#[trigger] c[j]).neg()
}

/// Literals in strictly ascending order of their encoding.
pub open spec fn strictly_sorted(c: Seq<Lit>) -> bool {
    forall|i: int, j: int| 0 <= i < j < c.len() ==> (#[trigger] c[i]).code < (#[trigger] c[j]).code
}

/// Sorted, without duplicates, and not a tautology.
pub open spec fn normal_clause(c: Seq<Lit>) -> bool {
    strictly_sorted(c) && !tautology(c)
}

/// Every clause of the formula is in normal form.
pub open spec fn normal_formula(f: Seq<Seq<Lit>>) -> bool {
    forall|i: int| 0 <= i < f.len() ==> normal_clause(#[trigger] f[i])
}

/// A witness literal makes its clause true.
pub proof fn lemma_clause_true_by(m: Valuation, c: Seq<Lit>, l: Lit)
    requires
        c.contains(l),
        lit_true(m, l),
    ensures
        clause_true(m, c),
{
    let i = choose|i: int| 0 <= i < c.len() && c[i] == l;
    assert(lit_true(m, c[i]));
}

/// Clauses with the same literals hold under the same assignments.
pub proof fn lemma_clause_true_same(m: Valuation, a: Seq<Lit>, b: Seq<Lit>)
    requires
        forall|l: Lit| a.contains(l) ==> #[trigger] b.contains(l),
        clause_true(m, a),
    ensures
        clause_true(m, b),
{
    let i = choose|i: int| 0 <= i < a.len() && lit_true(m, #[trigger] a[i]);
    assert(a.contains(a[i]));
    lemma_clause_true_by(m, b, a[i]);
}

/// A tautology holds under every assignment.
pub proof fn lemma_tautology_true(m: Valuation, c: Seq<Lit>)
    requires
        tautology(c),
    ensures
        clause_true(m, c),
{
    let (i, j) = choose|i: int, j: int|
        0 <= i < c.len() && 0 <= j < c.len() && #[trigger] c[i] == (#[trigger] c[j]).neg();
    if !lit_true(m, c[i]) {
        assert(lit_true(m, c[j]));
    }
}

/// Assignments that agree on a clause's variables agree on the clause.
pub proof fn lemma_clause_true_agree(m1: Valuation, m2: Valuation, c: Seq<Lit>, n: int)
    requires
        clause_below(c, n),
        forall|v: int| 0 <= v < n ==> #[trigger] m1(v) == m2(v),
    ensures
        clause_true(m1, c) == clause_true(m2, c),
{
    if clause_true(m1, c) {
        let i = choose|i: int| 0 <= i < c.len() && lit_true(m1, #[trigger] c[i]);
        assert(lit_true(m2, c[i]));
    }
    if clause_true(m2, c) {
        let i = choose|i: int| 0 <= i < c.len() && lit_true(m2, #[trigger] c[i]);
        assert(lit_true(m1, c[i]));
    }
}

} // verus!
