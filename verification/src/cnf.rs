//! Formulas in conjunctive normal form, and the assignments that satisfy them.
//!
//! Clauses live in one flat list of literals with a separate index of boundaries rather than as a
//! list of lists. That is one allocation instead of one per clause, and it makes the whole formula
//! a contiguous scan for the preprocessor and the occurrence-list builder.

use vstd::prelude::*;
use vstd::string::*;
use crate::lit::{Lit, Var};
use crate::semantics::{clause_below, clause_true, formula_below, formula_true, lit_true, strictly_sorted, tautology, valuation, normal_formula, Valuation, lemma_clause_true_same, lemma_tautology_true};
use crate::text::{append_decimal, append_signed, decimal, signed};
use crate::sorting::{lemma_ascending_unique, lemma_push_contains, sorted_set};

verus! {

/// The least variable count that is at least `n` and covers every literal of `c`.
pub open spec fn cover(n: int, c: Seq<Lit>) -> int
    decreases c.len(),
{
    if c.len() == 0 {
        n
    } else {
        let m = cover(n, c.drop_last());
        if c.last().vi() + 1 > m {
            c.last().vi() + 1
        } else {
            m
        }
    }
}

/// `cover` keeps what was covered and covers the clause.
pub proof fn lemma_cover(n: int, c: Seq<Lit>)
    ensures
        cover(n, c) >= n,
        clause_below(c, cover(n, c)),
        clause_below(c, n) ==> cover(n, c) == n,
    decreases c.len(),
{
    if c.len() > 0 {
        lemma_cover(n, c.drop_last());
        assert forall|i: int| 0 <= i < c.len() implies (#[trigger] c[i]).vi() < cover(n, c) by {
            if i < c.len() - 1 {
                assert(c.drop_last()[i] == c[i]);
            }
        }
        if clause_below(c, n) {
            assert forall|i: int| 0 <= i < c.drop_last().len() implies (#[trigger] c.drop_last()[i]).vi()
                < n by {
                assert(c[i].vi() < n);
            }
            assert(c[c.len() - 1].vi() < n);
        }
    }
}

/// Inserts a literal into a sorted clause unless it is there already.
pub open spec fn insert_lit(s: Seq<Lit>, l: Lit) -> Seq<Lit>
    decreases s.len(),
{
    if s.len() == 0 {
        seq![l]
    } else if s.last().code < l.code {
        s.push(l)
    } else if s.last() == l {
        s
    } else {
        insert_lit(s.drop_last(), l).push(s.last())
    }
}

/// The clause with its literals in ascending order, each once.
pub open spec fn norm_clause(c: Seq<Lit>) -> Seq<Lit>
    decreases c.len(),
{
    if c.len() == 0 {
        Seq::empty()
    } else {
        insert_lit(norm_clause(c.drop_last()), c.last())
    }
}

/// The formula with tautologies dropped and every other clause in sorted form, in order.
pub open spec fn norm_formula(f: Seq<Seq<Lit>>) -> Seq<Seq<Lit>>
    decreases f.len(),
{
    if f.len() == 0 {
        Seq::empty()
    } else if tautology(f.last()) {
        norm_formula(f.drop_last())
    } else {
        norm_formula(f.drop_last()).push(norm_clause(f.last()))
    }
}

proof fn lemma_insert_lit(s: Seq<Lit>, l: Lit)
    requires
        strictly_sorted(s),
    ensures
        strictly_sorted(insert_lit(s, l)),
        forall|x: Lit| #[trigger] insert_lit(s, l).contains(x) <==> (s.contains(x) || x == l),
    decreases s.len(),
{
    if s.len() == 0 {
        assert(insert_lit(s, l) =~= s.push(l));
        lemma_push_contains(s, l);
    } else if s.last().code < l.code {
        lemma_push_contains(s, l);
    } else if s.last() == l {
        assert(s.contains(s[s.len() - 1]));
    } else {
        let p = s.drop_last();
        assert(strictly_sorted(p)) by {
            assert forall|i: int, j: int| 0 <= i < j < p.len() implies (#[trigger] p[i]).code
                < (#[trigger] p[j]).code by {
                assert(s[i].code < s[j].code);
            }
        }
        lemma_insert_lit(p, l);
        let q = insert_lit(p, l);
        assert(s =~= p.push(s.last()));
        lemma_push_contains(p, s.last());
        lemma_push_contains(q, s.last());
        assert forall|i: int, j: int| 0 <= i < j < q.push(s.last()).len() implies (#[trigger] q.push(
            s.last(),
        )[i]).code < (#[trigger] q.push(s.last())[j]).code by {
            if j == q.len() {
                assert(q.contains(q[i]));
                if q[i] != l {
                    assert(p.contains(q[i]));
                    let k = choose|k: int| 0 <= k < p.len() && p[k] == q[i];
                    assert(s[k].code < s[s.len() - 1].code);
                }
            }
        }
    }
}

/// The sorted form is sorted and has the literals of the clause.
pub proof fn lemma_norm_clause(c: Seq<Lit>)
    ensures
        strictly_sorted(norm_clause(c)),
        forall|x: Lit| #[trigger] norm_clause(c).contains(x) <==> c.contains(x),
    decreases c.len(),
{
    if c.len() > 0 {
        lemma_norm_clause(c.drop_last());
        lemma_insert_lit(norm_clause(c.drop_last()), c.last());
        assert(c =~= c.drop_last().push(c.last()));
        lemma_push_contains(c.drop_last(), c.last());
    }
}

/// The encodings of the literals of a clause.
pub open spec fn codes(c: Seq<Lit>) -> Seq<u128> {
    Seq::new(c.len(), |i: int| c[i].code as u128)
}

/// A sorted clause is determined by its literals.
pub proof fn lemma_sorted_unique(a: Seq<Lit>, b: Seq<Lit>)
    requires
        strictly_sorted(a),
        strictly_sorted(b),
        forall|x: Lit| #[trigger] a.contains(x) <==> b.contains(x),
    ensures
        a == b,
{
    let ca = codes(a);
    let cb = codes(b);
    assert forall|x: u128| #[trigger] ca.contains(x) <==> cb.contains(x) by {
        if ca.contains(x) {
            let i = choose|i: int| 0 <= i < ca.len() && ca[i] == x;
            assert(a.contains(a[i]));
            assert(b.contains(a[i]));
            let j = choose|j: int| 0 <= j < b.len() && b[j] == a[i];
            assert(cb[j] == x);
        }
        if cb.contains(x) {
            let i = choose|i: int| 0 <= i < cb.len() && cb[i] == x;
            assert(b.contains(b[i]));
            assert(a.contains(b[i]));
            let j = choose|j: int| 0 <= j < a.len() && a[j] == b[i];
            assert(ca[j] == x);
        }
    }
    lemma_ascending_unique(ca, cb);
    assert forall|i: int| 0 <= i < a.len() implies a[i] == b[i] by {
        assert(ca[i] == cb[i]);
    }
    assert(ca.len() == a.len() && cb.len() == b.len());
    assert(a =~= b);
}

/// A sorted clause is its own sorted form.
pub proof fn lemma_norm_clause_fixed(c: Seq<Lit>)
    requires
        strictly_sorted(c),
    ensures
        norm_clause(c) == c,
{
    lemma_norm_clause(c);
    lemma_sorted_unique(norm_clause(c), c);
}

/// Sorting keeps a clause's tautology status.
pub proof fn lemma_norm_clause_tautology(c: Seq<Lit>)
    ensures
        tautology(norm_clause(c)) == tautology(c),
{
    lemma_norm_clause(c);
    let n = norm_clause(c);
    if tautology(c) {
        let (i, j) = choose|i: int, j: int|
            0 <= i < c.len() && 0 <= j < c.len() && #[trigger] c[i] == (#[trigger] c[j]).neg();
        assert(c.contains(c[i]) && c.contains(c[j]));
        assert(n.contains(c[i]) && n.contains(c[j]));
        let p = choose|p: int| 0 <= p < n.len() && n[p] == c[i];
        let q = choose|q: int| 0 <= q < n.len() && n[q] == c[j];
        assert(n[p] == n[q].neg());
    }
    if tautology(n) {
        let (i, j) = choose|i: int, j: int|
            0 <= i < n.len() && 0 <= j < n.len() && #[trigger] n[i] == (#[trigger] n[j]).neg();
        assert(n.contains(n[i]) && n.contains(n[j]));
        assert(c.contains(n[i]) && c.contains(n[j]));
        let p = choose|p: int| 0 <= p < c.len() && c[p] == n[i];
        let q = choose|q: int| 0 <= q < c.len() && c[q] == n[j];
        assert(c[p] == c[q].neg());
    }
}

/// Normalising a formula keeps exactly its satisfying assignments, leaves only clauses in normal
/// form, introduces no variable and adds no clause.
pub proof fn lemma_normalization_is_equivalent(f: Seq<Seq<Lit>>, n: int)
    ensures
        forall|m: Valuation| formula_true(m, norm_formula(f)) <==> #[trigger] formula_true(m, f),
        normal_formula(norm_formula(f)),
        formula_below(f, n) ==> formula_below(norm_formula(f), n),
        norm_formula(f).len() <= f.len(),
    decreases f.len(),
{
    if f.len() > 0 {
        let p = f.drop_last();
        let c = f.last();
        lemma_normalization_is_equivalent(p, n);
        lemma_norm_clause(c);
        lemma_norm_clause_tautology(c);
        let g = norm_formula(f);
        let gp = norm_formula(p);
        assert(f =~= p.push(c));
        if formula_below(f, n) {
            assert forall|i: int| 0 <= i < p.len() implies clause_below(#[trigger] p[i], n) by {
                assert(p[i] == f[i]);
            }
            assert(clause_below(f[f.len() - 1], n));
            let nc = norm_clause(c);
            assert forall|i: int| 0 <= i < nc.len() implies (#[trigger] nc[i]).vi() < n by {
                assert(nc.contains(nc[i]));
                assert(c.contains(nc[i]));
                let k = choose|k: int| 0 <= k < c.len() && c[k] == nc[i];
                assert(c[k].vi() < n);
            }
        }
        assert forall|m: Valuation| formula_true(m, g) <==> #[trigger] formula_true(m, f) by {
            if formula_true(m, f) {
                assert forall|i: int| 0 <= i < p.len() implies clause_true(m, #[trigger] p[i]) by {
                    assert(p[i] == f[i]);
                }
                assert(formula_true(m, p));
                assert(clause_true(m, f[f.len() - 1]));
                if !tautology(c) {
                    lemma_clause_true_same(m, c, norm_clause(c));
                }
            }
            if formula_true(m, g) {
                if tautology(c) {
                    lemma_tautology_true(m, c);
                } else {
                    assert(g[g.len() - 1] == norm_clause(c));
                    assert(clause_true(m, norm_clause(c)));
                    lemma_clause_true_same(m, norm_clause(c), c);
                    assert forall|i: int| 0 <= i < gp.len() implies clause_true(m, #[trigger] gp[i]) by {
                        assert(gp[i] == g[i]);
                    }
                }
                assert(formula_true(m, gp));
                assert(formula_true(m, p));
                assert forall|i: int| 0 <= i < f.len() implies clause_true(m, #[trigger] f[i]) by {
                    if i < p.len() {
                        assert(p[i] == f[i]);
                    }
                }
            }
        }
    }
}

/// Normalisation goes clause by clause: what it makes of two formulas one after the other is what it
/// makes of each.
pub proof fn lemma_normalization_goes_clause_by_clause(f: Seq<Seq<Lit>>, g: Seq<Seq<Lit>>)
    ensures
        norm_formula(f + g) == norm_formula(f) + norm_formula(g),
    decreases g.len(),
{
    if g.len() == 0 {
        assert(f + g =~= f);
        assert(norm_formula(f) + norm_formula(g) =~= norm_formula(f));
    } else {
        lemma_normalization_goes_clause_by_clause(f, g.drop_last());
        assert((f + g).drop_last() =~= f + g.drop_last());
        assert(norm_formula(f + g) =~= norm_formula(f) + norm_formula(g));
    }
}

/// A clause with a variable of either sign goes, and any other stays, with the same literals, each once
/// and in order.
pub proof fn lemma_normalization_keeps_the_literals(c: Seq<Lit>, x: Lit)
    ensures
        (exists|i: int, j: int| 0 <= i < c.len() && 0 <= j < c.len() && #[trigger] c[i] == (#[trigger] c[j]).neg())
            ==> norm_formula(seq![c]).len() == 0,
        !(exists|i: int, j: int| 0 <= i < c.len() && 0 <= j < c.len() && #[trigger] c[i] == (#[trigger] c[j]).neg())
            ==> norm_formula(seq![c]).len() == 1 && (norm_formula(seq![c])[0].contains(x) <==> c.contains(x))
            && strictly_sorted(norm_formula(seq![c])[0]),
{
    let f = seq![c];
    assert(f.drop_last() =~= Seq::<Seq<Lit>>::empty());
    assert(norm_formula(f.drop_last()) =~= Seq::<Seq<Lit>>::empty());
    lemma_norm_clause(c);
}

/// A formula already in normal form is left as it is.
pub proof fn lemma_normalization_is_idempotent(f: Seq<Seq<Lit>>)
    requires
        normal_formula(f),
    ensures
        norm_formula(f) == f,
    decreases f.len(),
{
    if f.len() > 0 {
        let p = f.drop_last();
        assert forall|i: int| 0 <= i < p.len() implies crate::semantics::normal_clause(#[trigger] p[i]) by {
            assert(p[i] == f[i]);
        }
        lemma_normalization_is_idempotent(p);
        assert(crate::semantics::normal_clause(f[f.len() - 1]));
        lemma_norm_clause_fixed(f.last());
        assert(norm_formula(f) =~= f);
    } else {
        assert(norm_formula(f) =~= f);
    }
}

/// Sorts the literals of a clause and drops repeated ones.
pub fn sort_lits(lits: &[Lit]) -> (out: Vec<Lit>)
    ensures
        out@ == norm_clause(lits@),
{
    let mut keys: Vec<u128> = Vec::new();
    for i in 0..lits.len()
        invariant
            keys@ =~= codes(lits@.take(i as int)),
    {
        keys.push(lits[i].code as u128);
        assert(lits@.take(i + 1) =~= lits@.take(i as int).push(lits@[i as int]));
    }
    assert(lits@.take(lits@.len() as int) =~= lits@);
    let sorted = sorted_set(&keys);
    assert forall|k: int| 0 <= k < sorted.len() implies #[trigger] sorted@[k] <= u32::MAX by {
        assert(sorted@.contains(sorted@[k]));
        assert(keys@.contains(sorted@[k]));
    }
    let mut out: Vec<Lit> = Vec::new();
    for i in 0..sorted.len()
        invariant
            out.len() == i,
            forall|k: int| 0 <= k < i ==> (#[trigger] out@[k]).code == sorted@[k],
            forall|k: int| 0 <= k < sorted.len() ==> #[trigger] sorted@[k] <= u32::MAX,
    {
        out.push(Lit { code: sorted[i] as u32 });
    }
    proof {
        lemma_norm_clause(lits@);
        assert forall|x: Lit| #[trigger] out@.contains(x) <==> norm_clause(lits@).contains(x) by {
            if out@.contains(x) {
                let k = choose|k: int| 0 <= k < out.len() && out@[k] == x;
                assert(sorted@.contains(sorted@[k]));
                assert(keys@.contains(sorted@[k]));
                let p = choose|p: int| 0 <= p < keys.len() && keys@[p] == sorted@[k];
                assert(lits@[p] == x);
                assert(lits@.contains(x));
            }
            if norm_clause(lits@).contains(x) {
                assert(lits@.contains(x));
                let p = choose|p: int| 0 <= p < lits@.len() && lits@[p] == x;
                assert(keys@[p] == x.code as u128);
                assert(keys@.contains(x.code as u128));
                assert(sorted@.contains(x.code as u128));
                let k = choose|k: int| 0 <= k < sorted.len() && sorted@[k] == x.code as u128;
                assert(out@[k] == x);
            }
        }
        assert(strictly_sorted(out@)) by {
            assert forall|i: int, j: int| 0 <= i < j < out.len() implies (#[trigger] out@[i]).code
                < (#[trigger] out@[j]).code by {
                assert(sorted@[i] < sorted@[j]);
            }
        }
        lemma_sorted_unique(out@, norm_clause(lits@));
    }
    out
}

/// Whether a sorted clause holds some literal and its complement.
///
/// After sorting, the two are adjacent: their encodings differ only in the lowest bit.
pub fn has_complement(c: &[Lit]) -> (b: bool)
    requires
        strictly_sorted(c@),
    ensures
        b == tautology(c@),
{
    let mut i: usize = 1;
    while i < c.len()
        invariant
            1 <= i,
            i <= c.len() || c.len() == 0,
            strictly_sorted(c@),
            forall|k: int| 1 <= k < i ==> c@[k - 1] != #[trigger] c@[k].neg(),
        decreases c.len() - i,
    {
        if c[i - 1] == c[i].negated() {
            assert(c@[i - 1] == c@[i as int].neg());
            return true;
        }
        i = i + 1;
    }
    proof {
        if tautology(c@) {
            let (p, q) = choose|p: int, q: int|
                0 <= p < c@.len() && 0 <= q < c@.len() && #[trigger] c@[p] == (#[trigger] c@[q]).neg();
            let lo = if p < q { p } else { q };
            let hi = if p < q { q } else { p };
            assert(lo < hi);
            assert(c@[lo] == c@[hi].neg());
            assert(c@[lo].code < c@[hi].code);
            if lo + 1 < hi {
                assert(c@[lo].code < c@[lo + 1].code);
                assert(c@[lo + 1].code < c@[hi].code);
            }
            assert(hi - 1 == lo);
            assert(c@[hi - 1] != c@[hi].neg());
        }
    }
    false
}

/// A formula in conjunctive normal form.
#[derive(Clone, Debug, PartialEq, Eq)]
pub struct Cnf {
    num_vars: usize,
    lits: Vec<Lit>,
    /// `bounds[i]..bounds[i + 1]` is clause `i`. Always non-empty, always starts with `0`.
    bounds: Vec<usize>,
}

impl View for Cnf {
    type V = Seq<Seq<Lit>>;

    /// The clauses, in order.
    closed spec fn view(&self) -> Seq<Seq<Lit>> {
        Seq::new(
            (self.bounds@.len() - 1) as nat,
            |i: int| self.lits@.subrange(self.bounds@[i] as int, self.bounds@[i + 1] as int),
        )
    }
}

impl Cnf {
    /// The number of variables the formula ranges over.
    pub closed spec fn nv(&self) -> int {
        self.num_vars as int
    }

    /// The total number of literal occurrences.
    pub closed spec fn size(&self) -> int {
        self.lits@.len() as int
    }

    /// The boundaries delimit clauses, and every literal is covered by the variable count.
    pub closed spec fn wf(&self) -> bool {
        &&& self.bounds@.len() >= 1
        &&& self.bounds@[0] == 0
        &&& self.bounds@.last() == self.lits@.len()
        &&& forall|i: int, j: int|
            0 <= i <= j < self.bounds@.len() ==> #[trigger] self.bounds@[i] <= #[trigger] self.bounds@[j]
        &&& clause_below(self.lits@, self.num_vars as int)
    }

    /// What validity gives to readers of the formula.
    pub proof fn lemma_wf(&self)
        requires
            self.wf(),
        ensures
            0 <= self.nv() <= usize::MAX,
            formula_below(self@, self.nv()),
            self@.len() < usize::MAX,
            self.size() <= usize::MAX,
            forall|i: int| 0 <= i < self@.len() ==> (#[trigger] self@[i]).len() <= self.size(),
    {
        assert(self.bounds.len() == self.bounds@.len());
        assert(self.lits.len() == self.lits@.len());
        assert forall|i: int| 0 <= i < self@.len() implies clause_below(#[trigger] self@[i], self.nv())
            && self@[i].len() <= self.size() by {
            assert(self.bounds@[i] <= self.bounds@[i + 1] <= self.bounds@[self.bounds@.len() - 1]);
            let c = self@[i];
            assert forall|k: int| 0 <= k < c.len() implies (#[trigger] c[k]).vi() < self.nv() by {
                assert(c[k] == self.lits@[self.bounds@[i] + k]);
            }
        }
    }

    /// Creates an empty formula over `num_vars` variables.
    ///
    /// The formula is trivially satisfiable until clauses are added.
    pub fn new(num_vars: usize) -> (f: Self)
        ensures
            f.wf(),
            f.nv() == num_vars,
            f@ == Seq::<Seq<Lit>>::empty(),
            f.size() == 0,
    {
        let mut bounds: Vec<usize> = Vec::new();
        bounds.push(0);
        let f = Cnf { num_vars, lits: Vec::new(), bounds };
        assert(f@ =~= Seq::<Seq<Lit>>::empty());
        f
    }

    /// Creates an empty formula, pre-allocating for the given shape.
    pub fn with_capacity(num_vars: usize, num_clauses: usize, num_lits: usize) -> (f: Self)
        requires
            8 * (num_clauses + 1) <= isize::MAX,
            4 * num_lits <= isize::MAX,
        ensures
            f.wf(),
            f.nv() == num_vars,
            f@ == Seq::<Seq<Lit>>::empty(),
            f.size() == 0,
    {
        let mut bounds: Vec<usize> = Vec::with_capacity(num_clauses + 1);
        bounds.push(0);
        let f = Cnf { num_vars, lits: Vec::with_capacity(num_lits), bounds };
        assert(f@ =~= Seq::<Seq<Lit>>::empty());
        f
    }

    /// Appends a clause verbatim, growing the variable count to cover its literals.
    ///
    /// No normalisation is performed: duplicate literals and tautologies survive. Use
    /// [`Cnf::normalized`] to clean them up.
    pub fn add_clause(&mut self, lits: &[Lit])
        requires
            old(self).wf(),
        ensures
            final(self).wf(),
            final(self)@ == old(self)@.push(lits@),
            final(self).nv() == cover(old(self).nv(), lits@),
            final(self).size() == old(self).size() + lits@.len(),
    {
        let ghost before = *self;
        let mut n: usize = self.num_vars;
        for i in 0..lits.len()
            invariant
                n == cover(before.num_vars as int, lits@.take(i as int)),
        {
            let k: usize = lits[i].var().index() + 1;
            if k > n {
                n = k;
            }
            assert(lits@.take(i + 1).drop_last() =~= lits@.take(i as int));
        }
        assert(lits@.take(lits@.len() as int) =~= lits@);
        self.num_vars = n;
        for i in 0..lits.len()
            invariant
                self.lits@ =~= before.lits@ + lits@.take(i as int),
                self.bounds == before.bounds,
                self.num_vars == n,
        {
            self.lits.push(lits[i]);
        }
        assert(lits@.take(lits@.len() as int) =~= lits@);
        let end: usize = self.lits.len();
        self.bounds.push(end);
        proof {
            lemma_cover(before.num_vars as int, lits@);
            assert forall|k: int| 0 <= k < self.lits@.len() implies (#[trigger] self.lits@[k]).vi()
                < self.num_vars by {
                if k < before.lits@.len() {
                    assert(self.lits@[k] == before.lits@[k]);
                } else {
                    assert(self.lits@[k] == lits@[k - before.lits@.len()]);
                }
            }
            assert forall|i: int, j: int| 0 <= i <= j < self.bounds@.len() implies #[trigger] self.bounds@[i]
                <= #[trigger] self.bounds@[j] by {
                if i < before.bounds@.len() {
                    assert(before.bounds@[i] <= before.bounds@[before.bounds@.len() - 1]);
                }
            }
            assert forall|i: int| 0 <= i < self@.len() implies self@[i] == before@.push(lits@)[i] by {
                if i < before@.len() {
                    assert(before.bounds@[i] <= before.bounds@[i + 1] <= before.bounds@[before.bounds@.len()
                        - 1]);
                    assert(self@[i] =~= before@[i]);
                } else {
                    assert(self@[i] =~= lits@);
                }
            }
            assert(self@ =~= before@.push(lits@));
        }
    }

    /// Appends a clause given in DIMACS notation.
    pub fn add_dimacs_clause(&mut self, numbers: &[i32])
        requires
            old(self).wf(),
            forall|i: int|
                0 <= i < numbers@.len() ==> #[trigger] numbers@[i] != 0 && -Var::MAX_INDEX <= numbers@[i]
                    <= Var::MAX_INDEX,
        ensures
            final(self).wf(),
            final(self)@.len() == old(self)@.len() + 1,
            final(self)@.drop_last() == old(self)@,
            final(self)@.last().len() == numbers@.len(),
            forall|i: int|
                0 <= i < numbers@.len() ==> (#[trigger] final(self)@.last()[i]).dimacs() == numbers@[i],
            final(self).nv() == cover(old(self).nv(), final(self)@.last()),
            final(self).size() == old(self).size() + numbers@.len(),
    {
        let mut lits: Vec<Lit> = Vec::new();
        for i in 0..numbers.len()
            invariant
                lits.len() == i,
                forall|k: int| 0 <= k < i ==> (#[trigger] lits@[k]).dimacs() == numbers@[k],
                forall|k: int|
                    0 <= k < numbers@.len() ==> #[trigger] numbers@[k] != 0 && -Var::MAX_INDEX <= numbers@[k]
                        <= Var::MAX_INDEX,
        {
            lits.push(Lit::from_dimacs(numbers[i]));
        }
        self.add_clause(&lits);
        assert(self@.drop_last() =~= old(self)@);
    }

    /// Number of variables the formula ranges over.
    pub fn num_vars(&self) -> (n: usize)
        ensures
            n == self.nv(),
    {
        self.num_vars
    }

    /// Number of clauses.
    pub fn num_clauses(&self) -> (n: usize)
        requires
            self.wf(),
        ensures
            n == self@.len(),
    {
        self.bounds.len() - 1
    }

    /// Total number of literal occurrences; the natural size measure for a CNF.
    pub fn num_lits(&self) -> (n: usize)
        ensures
            n == self.size(),
    {
        self.lits.len()
    }

    /// Whether the formula has no clauses, and so is trivially satisfiable.
    pub fn is_empty(&self) -> (b: bool)
        requires
            self.wf(),
        ensures
            b == (self@.len() == 0),
    {
        self.num_clauses() == 0
    }

    /// The literals of clause `index`.
    pub fn clause(&self, index: usize) -> (c: &[Lit])
        requires
            self.wf(),
            index < self@.len(),
        ensures
            c@ == self@[index as int],
    {
        assert(self.bounds.len() == self.bounds@.len());
        let start: usize = self.bounds[index];
        let end: usize = self.bounds[index + 1];
        assert(self.bounds@[index as int] <= self.bounds@[index + 1] <= self.bounds@[self.bounds@.len()
            - 1]);
        vstd::slice::slice_subrange(self.lits.as_slice(), start, end)
    }

    /// The clauses in order.
    pub fn clauses(&self) -> (cs: Vec<&[Lit]>)
        requires
            self.wf(),
        ensures
            cs@.len() == self@.len(),
            forall|i: int| 0 <= i < cs@.len() ==> (#[trigger] cs@[i])@ == self@[i],
    {
        let mut cs: Vec<&[Lit]> = Vec::new();
        let n: usize = self.num_clauses();
        for i in 0..n
            invariant
                n == self@.len(),
                self.wf(),
                cs@.len() == i,
                i <= self@.len(),
                forall|k: int| 0 <= k < i ==> (#[trigger] cs@[k])@ == self@[k],
        {
            cs.push(self.clause(i));
        }
        cs
    }

    /// Raises the variable count, which is needed when a DIMACS header declares more variables
    /// than actually occur. Never lowers it.
    pub fn reserve_vars(&mut self, num_vars: usize)
        requires
            old(self).wf(),
        ensures
            final(self).wf(),
            final(self)@ == old(self)@,
            final(self).nv() == (if num_vars > old(self).nv() {
                num_vars as int
            } else {
                old(self).nv()
            }),
            final(self).size() == old(self).size(),
    {
        if num_vars > self.num_vars {
            self.num_vars = num_vars;
        }
        assert(self@ =~= old(self)@);
    }

    /// Returns a copy with duplicate literals removed, tautologies dropped, and clauses sorted.
    ///
    /// Sorting is not cosmetic: it makes clause identity a plain comparison of literal lists, which
    /// is what duplicate-clause removal relies on.
    ///
    /// The flag in the returned pair is `true` if the formula contains an empty clause, i.e. it
    /// is unsatisfiable by inspection.
    pub fn normalized(&self) -> (r: (Self, bool))
        requires
            self.wf(),
        ensures
            r.0.wf(),
            r.0@ == norm_formula(self@),
            r.0.nv() == self.nv(),
            r.1 == (exists|i: int| 0 <= i < self@.len() && (#[trigger] self@[i]).len() == 0),
    {
        let mut out = Cnf::new(self.num_vars);
        let mut has_empty = false;
        let n: usize = self.num_clauses();
        for i in 0..n
            invariant
                n == self@.len(),
                self.wf(),
                i <= self@.len(),
                out.wf(),
                out@ == norm_formula(self@.take(i as int)),
                out.nv() == self.nv(),
                has_empty == (exists|k: int| 0 <= k < i && (#[trigger] self@[k]).len() == 0),
        {
            proof {
                assert(self@.take(i + 1).drop_last() =~= self@.take(i as int));
                lemma_norm_clause(self@[i as int]);
                lemma_norm_clause_tautology(self@[i as int]);
                self.lemma_wf();
                lemma_normalization_is_equivalent(self@, self.nv());
            }
            let buf = sort_lits(self.clause(i));
            let ghost c = self@[i as int];
            proof {
                if c.len() == 0 {
                    assert(buf@.len() == 0) by {
                        if buf@.len() > 0 {
                            assert(buf@.contains(buf@[0]));
                        }
                    }
                }
                if buf@.len() == 0 && c.len() > 0 {
                    assert(c.contains(c[0]));
                }
                assert forall|k: int| 0 <= k < buf@.len() implies (#[trigger] buf@[k]).vi() < self.nv() by {
                    assert(buf@.contains(buf@[k]));
                    assert(c.contains(buf@[k]));
                    let q = choose|q: int| 0 <= q < c.len() && c[q] == buf@[k];
                    assert(clause_below(c, self.nv()));
                }
                lemma_cover(self.nv(), buf@);
            }
            if !has_complement(&buf) {
                if buf.is_empty() {
                    has_empty = true;
                }
                out.add_clause(&buf);
            }
        }
        assert(self@.take(self@.len() as int) =~= self@);
        (out, has_empty)
    }

    /// Checks a total assignment against every clause.
    pub fn is_satisfied_by(&self, model: &Model) -> (b: bool)
        requires
            self.wf(),
            formula_below(self@, model@.len() as int),
        ensures
            b == formula_true(valuation(model@), self@),
    {
        self.first_falsified_clause(model).is_none()
    }

    /// Returns the index of the first clause that `model` fails to satisfy, if any.
    pub fn first_falsified_clause(&self, model: &Model) -> (r: Option<usize>)
        requires
            self.wf(),
            formula_below(self@, model@.len() as int),
        ensures
            r is None <==> formula_true(valuation(model@), self@),
            r matches Some(i) ==> i < self@.len() && !clause_true(valuation(model@), self@[i as int])
                && forall|j: int| 0 <= j < i ==> clause_true(valuation(model@), #[trigger] self@[j]),
    {
        let n: usize = self.num_clauses();
        for i in 0..n
            invariant
                n == self@.len(),
                self.wf(),
                i <= self@.len(),
                formula_below(self@, model@.len() as int),
                forall|j: int| 0 <= j < i ==> clause_true(valuation(model@), #[trigger] self@[j]),
        {
            if !model.satisfies(self.clause(i)) {
                return Some(i);
            }
        }
        None
    }
}

impl Default for Cnf {
    /// The empty formula over no variables.
    fn default() -> (f: Self)
        ensures
            f.wf(),
            f.nv() == 0,
            f@ == Seq::<Seq<Lit>>::empty(),
    {
        Cnf::new(0)
    }
}

/// A total assignment of every variable in a formula.
///
/// Total rather than partial by construction: variables the solver never needed to assign are
/// filled with `false`, so a `Model` can always be printed as a complete DIMACS `v` line.
#[derive(Clone, Debug, PartialEq, Eq)]
pub struct Model {
    values: Vec<bool>,
}

impl View for Model {
    type V = Seq<bool>;

    /// The values, by variable index.
    closed spec fn view(&self) -> Seq<bool> {
        self.values@
    }
}

impl Model {
    /// Creates an all-`false` assignment over `num_vars` variables.
    pub fn all_false(num_vars: usize) -> (m: Self)
        ensures
            m@ == Seq::new(num_vars as nat, |i: int| false),
    {
        let m = Model { values: vec![false; num_vars] };
        assert(m@ =~= Seq::new(num_vars as nat, |i: int| false));
        m
    }

    /// Creates a model from raw values, indexed by zero-based variable index.
    pub fn from_values(values: Vec<bool>) -> (m: Self)
        ensures
            m@ == values@,
    {
        Model { values }
    }

    /// The value assigned to `var`.
    pub fn value(&self, var: Var) -> (b: bool)
        requires
            var.vi() < self@.len(),
        ensures
            b == self@[var.vi()],
    {
        self.values[var.index()]
    }

    /// Sets the value of `var`.
    pub fn set(&mut self, var: Var, value: bool)
        requires
            var.vi() < old(self)@.len(),
        ensures
            final(self)@ == old(self)@.update(var.vi(), value),
    {
        let i: usize = var.index();
        self.values[i] = value;
    }

    /// Whether some literal of the clause is true.
    pub fn satisfies(&self, clause: &[Lit]) -> (b: bool)
        requires
            clause_below(clause@, self@.len() as int),
        ensures
            b == clause_true(valuation(self@), clause@),
    {
        for i in 0..clause.len()
            invariant
                clause_below(clause@, self@.len() as int),
                forall|k: int| 0 <= k < i ==> !lit_true(valuation(self@), #[trigger] clause@[k]),
        {
            let l = clause[i];
            if self.value(l.var()) == l.is_positive() {
                assert(lit_true(valuation(self@), clause@[i as int]));
                return true;
            }
        }
        false
    }

    /// Number of variables covered.
    pub fn len(&self) -> (n: usize)
        ensures
            n == self@.len(),
    {
        self.values.len()
    }

    /// Whether the model covers no variables.
    pub fn is_empty(&self) -> (b: bool)
        ensures
            b == (self@.len() == 0),
    {
        self.values.is_empty()
    }

    /// The raw values, indexed by zero-based variable index.
    pub fn values(&self) -> (v: &[bool])
        ensures
            v@ == self@,
    {
        self.values.as_slice()
    }

    /// The literals of the model, in variable order.
    pub fn literals(&self) -> (lits: Vec<Lit>)
        requires
            self@.len() <= Var::MAX_INDEX + 1,
        ensures
            lits@ == model_literals(self@),
    {
        let mut lits: Vec<Lit> = Vec::new();
        for i in 0..self.values.len()
            invariant
                self@.len() <= Var::MAX_INDEX + 1,
                lits@ =~= model_literals(self@).take(i as int),
        {
            lits.push(Var::from_index(i).lit(self.values[i]));
        }
        lits
    }
}

/// Literals as DIMACS numbers, each followed by a space.
pub open spec fn lits_text(c: Seq<Lit>) -> Seq<char>
    decreases c.len(),
{
    if c.len() == 0 {
        Seq::empty()
    } else {
        lits_text(c.drop_last()) + signed(c.last().dimacs()) + seq![' ']
    }
}

/// Clauses as DIMACS lines, each ended by a zero.
pub open spec fn clauses_text(f: Seq<Seq<Lit>>) -> Seq<char>
    decreases f.len(),
{
    if f.len() == 0 {
        Seq::empty()
    } else {
        clauses_text(f.drop_last()) + lits_text(f.last()) + seq!['0', '\n']
    }
}

/// The DIMACS header line.
pub open spec fn header_text(num_vars: nat, num_clauses: nat) -> Seq<char> {
    seq!['p', ' ', 'c', 'n', 'f', ' '] + decimal(num_vars) + seq![' '] + decimal(num_clauses) + seq!['\n']
}

/// A formula as DIMACS CNF: a header line, then a line for each clause.
pub open spec fn cnf_text(f: Seq<Seq<Lit>>, num_vars: nat) -> Seq<char> {
    header_text(num_vars, f.len()) + clauses_text(f)
}

/// Literals as DIMACS numbers with single spaces between them.
pub open spec fn spaced_text(c: Seq<Lit>) -> Seq<char>
    decreases c.len(),
{
    if c.len() == 0 {
        Seq::empty()
    } else if c.len() == 1 {
        signed(c[0].dimacs())
    } else {
        spaced_text(c.drop_last()) + seq![' '] + signed(c.last().dimacs())
    }
}

impl Cnf {
    /// Renders the formula as DIMACS CNF.
    pub fn to_string(&self) -> (s: String)
        requires
            self.wf(),
            formula_below(self@, i32::MAX as int),
        ensures
            s@ == cnf_text(self@, self.nv() as nat),
    {
        let mut s = "p cnf ".to_owned();
        append_decimal(&mut s, self.num_vars as u64);
        s.append(" ");
        let n: usize = self.num_clauses();
        append_decimal(&mut s, n as u64);
        s.append("\n");
        let ghost head = header_text(self.nv() as nat, self@.len());
        proof {
            reveal_strlit("p cnf ");
            reveal_strlit(" ");
            reveal_strlit("\n");
            assert(s@ =~= head + clauses_text(self@.take(0)));
        }
        for i in 0..n
            invariant
                self.wf(),
                n == self@.len(),
                formula_below(self@, i32::MAX as int),
                s@ == head + clauses_text(self@.take(i as int)),
        {
            let c = self.clause(i);
            let ghost before = s@;
            proof {
                assert(clause_below(self@[i as int], i32::MAX as int));
                assert(s@ =~= before + lits_text(c@.take(0)));
            }
            for j in 0..c.len()
                invariant
                    clause_below(c@, i32::MAX as int),
                    s@ == before + lits_text(c@.take(j as int)),
            {
                let ghost mid = s@;
                append_signed(&mut s, c[j].to_dimacs() as i64);
                s.append(" ");
                proof {
                    reveal_strlit(" ");
                    assert(c@.take(j + 1).drop_last() =~= c@.take(j as int));
                    assert(s@ =~= before + lits_text(c@.take(j + 1)));
                }
            }
            s.append("0\n");
            proof {
                reveal_strlit("0\n");
                assert(c@.take(c@.len() as int) =~= c@);
                assert(self@.take(i + 1).drop_last() =~= self@.take(i as int));
                assert(s@ =~= head + clauses_text(self@.take(i + 1)));
            }
        }
        assert(self@.take(n as int) =~= self@);
        s
    }
}

impl Model {
    /// Renders the model as the body of a DIMACS `v` line, without the leading `v` or the
    /// trailing `0`.
    pub fn to_string(&self) -> (s: String)
        requires
            self@.len() <= Var::MAX_INDEX + 1,
        ensures
            s@ == spaced_text(model_literals(self@)),
    {
        let lits = self.literals();
        let mut s = String::new();
        assert(s@ =~= spaced_text(lits@.take(0)));
        for i in 0..lits.len()
            invariant
                self@.len() <= Var::MAX_INDEX + 1,
                lits@ == model_literals(self@),
                s@ == spaced_text(lits@.take(i as int)),
        {
            let ghost before = s@;
            if i > 0 {
                s.append(" ");
            }
            append_signed(&mut s, lits[i].to_dimacs() as i64);
            proof {
                reveal_strlit(" ");
                let t = lits@.take(i + 1);
                assert(t.drop_last() =~= lits@.take(i as int));
                assert(s@ =~= spaced_text(t));
            }
        }
        assert(lits@.take(lits@.len() as int) =~= lits@);
        s
    }
}

/// The true literal of each variable, in variable order.
pub open spec fn model_literals(values: Seq<bool>) -> Seq<Lit> {
    Seq::new(values.len(), |i: int| crate::lit::mk_lit(i, values[i]))
}

/// A model read back from its own literals is the same assignment.
pub proof fn lemma_model_literals_hold(values: Seq<bool>)
    requires
        values.len() <= Var::MAX_INDEX + 1,
    ensures
        forall|i: int|
            0 <= i < values.len() ==> (#[trigger] model_literals(values)[i]).vi() == i
                && model_literals(values)[i].pos() == values[i] && lit_true(
                valuation(values),
                model_literals(values)[i],
            ),
{
}

} // verus!
