//! Resolution of two clauses on a variable.

use vstd::prelude::*;
use crate::cnf::{has_complement, lemma_norm_clause, lemma_sorted_unique, norm_clause, sort_lits};
use crate::lit::{Lit, Var};
use crate::semantics::{clause_below, clause_true, lit_true, normal_clause, strictly_sorted, tautology, lemma_clause_true_by, Valuation};
use crate::sorting::{lemma_concat_contains, lemma_push_contains};

verus! {

/// The clause without the literals over variable `v`.
pub open spec fn drop_var(c: Seq<Lit>, v: int) -> Seq<Lit>
    decreases c.len(),
{
    if c.len() == 0 {
        Seq::empty()
    } else if c.last().vi() == v {
        drop_var(c.drop_last(), v)
    } else {
        drop_var(c.drop_last(), v).push(c.last())
    }
}

/// The resolvent of two clauses on variable `v`: what either says beside `v`, in sorted form.
pub open spec fn resolvent(a: Seq<Lit>, b: Seq<Lit>, v: int) -> Seq<Lit> {
    norm_clause(drop_var(a, v) + drop_var(b, v))
}

/// `drop_var` keeps exactly the literals over other variables.
pub proof fn lemma_drop_var(c: Seq<Lit>, v: int)
    ensures
        forall|l: Lit| #[trigger] drop_var(c, v).contains(l) <==> c.contains(l) && l.vi() != v,
    decreases c.len(),
{
    if c.len() > 0 {
        let p = c.drop_last();
        lemma_drop_var(p, v);
        lemma_push_contains(p, c.last());
        assert(p.push(c.last()) =~= c);
        lemma_push_contains(drop_var(p, v), c.last());
    }
}

/// The literals of a resolvent are those of its parents over other variables, in order.
pub proof fn lemma_resolvent(a: Seq<Lit>, b: Seq<Lit>, v: int)
    ensures
        forall|l: Lit| #[trigger]
            resolvent(a, b, v).contains(l) <==> (a.contains(l) || b.contains(l)) && l.vi() != v,
        crate::semantics::strictly_sorted(resolvent(a, b, v)),
{
    lemma_drop_var(a, v);
    lemma_drop_var(b, v);
    lemma_concat_contains(drop_var(a, v), drop_var(b, v));
    lemma_norm_clause(drop_var(a, v) + drop_var(b, v));
    assert forall|l: Lit| #[trigger]
        resolvent(a, b, v).contains(l) <==> (a.contains(l) || b.contains(l)) && l.vi() != v by {
        assert((drop_var(a, v) + drop_var(b, v)).contains(l) <==> (a.contains(l) || b.contains(l))
            && l.vi() != v);
    }
}

/// A resolvent ranges over the variables of its parents.
pub proof fn lemma_resolvent_below(a: Seq<Lit>, b: Seq<Lit>, v: int, n: int)
    requires
        clause_below(a, n),
        clause_below(b, n),
    ensures
        clause_below(resolvent(a, b, v), n),
{
    lemma_resolvent(a, b, v);
    let r = resolvent(a, b, v);
    assert forall|i: int| 0 <= i < r.len() implies (#[trigger] r[i]).vi() < n by {
        assert(r.contains(r[i]));
        if a.contains(r[i]) {
            let j = choose|j: int| 0 <= j < a.len() && a[j] == r[i];
            assert(a[j].vi() < n);
        } else {
            let j = choose|j: int| 0 <= j < b.len() && b[j] == r[i];
            assert(b[j].vi() < n);
        }
    }
}

/// A resolvent follows from its parents.
pub proof fn lemma_resolvent_is_implied(m: Valuation, a: Seq<Lit>, b: Seq<Lit>, v: int)
    requires
        clause_true(m, a),
        clause_true(m, b),
        forall|l: Lit| a.contains(l) && l.vi() == v ==> #[trigger] l.pos(),
        forall|l: Lit| b.contains(l) && l.vi() == v ==> !#[trigger] l.pos(),
    ensures
        clause_true(m, resolvent(a, b, v)),
{
    lemma_resolvent(a, b, v);
    let r = resolvent(a, b, v);
    let i = choose|i: int| 0 <= i < a.len() && lit_true(m, #[trigger] a[i]);
    let j = choose|j: int| 0 <= j < b.len() && lit_true(m, #[trigger] b[j]);
    assert(a.contains(a[i]));
    assert(b.contains(b[j]));
    if a[i].vi() != v {
        assert(r.contains(a[i]));
        lemma_clause_true_by(m, r, a[i]);
    } else {
        assert(a[i].pos());
        if b[j].vi() == v {
            assert(!b[j].pos());
        }
        assert(r.contains(b[j]));
        lemma_clause_true_by(m, r, b[j]);
    }
}

/// Whether the literals stand in strictly ascending order.
fn in_order(c: &[Lit]) -> (b: bool)
    ensures
        b == strictly_sorted(c@),
{
    let mut i: usize = 1;
    while i < c.len()
        invariant
            1 <= i,
            i <= c@.len() || c@.len() == 0,
            strictly_sorted(c@.take(if i <= c@.len() { i as int } else { 0 })),
        decreases c.len() - i,
    {
        if c[i - 1].code >= c[i].code {
            assert(!(c@[i - 1].code < c@[i as int].code));
            return false;
        }
        proof {
            let t = c@.take(i + 1);
            assert forall|x: int, y: int| 0 <= x < y < t.len() implies (#[trigger] t[x]).code < (#[trigger] t[y]).code by {
                let u = c@.take(i as int);
                if y < i {
                    assert(u[x].code < u[y].code);
                } else if x < i - 1 {
                    assert(u[x].code < u[i - 1].code);
                }
            }
        }
        i = i + 1;
    }
    proof {
        if c@.len() > 0 {
            assert(c@.take(c@.len() as int) =~= c@);
        }
    }
    true
}

/// Merges two sorted clauses, leaving `var` out and keeping one copy of what they share.
fn merged(a: &[Lit], b: &[Lit], var: Var) -> (out: Vec<Lit>)
    requires
        strictly_sorted(a@),
        strictly_sorted(b@),
    ensures
        out@ == resolvent(a@, b@, var.vi()),
{
    let mut out: Vec<Lit> = Vec::with_capacity(a.len());
    let mut i: usize = 0;
    let mut j: usize = 0;
    while i < a.len() || j < b.len()
        invariant
            strictly_sorted(a@),
            strictly_sorted(b@),
            strictly_sorted(out@),
            i <= a@.len(),
            j <= b@.len(),
            forall|k: int, p: int|
                0 <= k < out@.len() && i <= p < a@.len() ==> (#[trigger] out@[k]).code < (#[trigger] a@[p]).code,
            forall|k: int, p: int|
                0 <= k < out@.len() && j <= p < b@.len() ==> (#[trigger] out@[k]).code < (#[trigger] b@[p]).code,
            forall|l: Lit| #[trigger]
                out@.contains(l) <==> (a@.take(i as int).contains(l) || b@.take(j as int).contains(l)) && l.vi()
                    != var.vi(),
        decreases a.len() - i + b.len() - j,
    {
        let ghost before = out@;
        let x: Lit = if j >= b.len() {
            a[i]
        } else if i >= a.len() {
            b[j]
        } else if a[i].code <= b[j].code {
            a[i]
        } else {
            b[j]
        };
        proof {
            lemma_push_contains(before, x);
            if i < a@.len() {
                assert(a@.take(i + 1) =~= a@.take(i as int).push(a@[i as int]));
                lemma_push_contains(a@.take(i as int), a@[i as int]);
            }
            if j < b@.len() {
                assert(b@.take(j + 1) =~= b@.take(j as int).push(b@[j as int]));
                lemma_push_contains(b@.take(j as int), b@[j as int]);
            }
        }
        let take_a = i < a.len() && a[i] == x;
        let take_b = j < b.len() && b[j] == x;
        if x.var().index() != var.index() {
            out.push(x);
        }
        if take_a {
            i = i + 1;
        }
        if take_b {
            j = j + 1;
        }
        proof {
            assert forall|k: int, p: int| 0 <= k < out@.len() && i <= p < a@.len() implies (#[trigger] out@[k]).code
                < (#[trigger] a@[p]).code by {
                if k < before.len() {
                    assert(before[k].code < a@[p].code);
                }
            }
            assert forall|k: int, p: int| 0 <= k < out@.len() && j <= p < b@.len() implies (#[trigger] out@[k]).code
                < (#[trigger] b@[p]).code by {
                if k < before.len() {
                    assert(before[k].code < b@[p].code);
                }
            }
        }
    }
    proof {
        assert(a@.take(i as int) =~= a@);
        assert(b@.take(j as int) =~= b@);
        lemma_resolvent(a@, b@, var.vi());
        lemma_sorted_unique(out@, resolvent(a@, b@, var.vi()));
    }
    out
}

/// Literals `p` of `a` and `q` of `b` are opposite and not over variable `v`.
spec fn clash_at(a: Seq<Lit>, b: Seq<Lit>, v: int, p: int, q: int) -> bool {
    0 <= p < a.len() && 0 <= q < b.len() && a[p] == b[q].neg() && a[p].vi() != v
}

/// Clauses in normal form resolve to a tautology exactly when they clash beside the pivot.
proof fn lemma_clash(a: Seq<Lit>, b: Seq<Lit>, v: int)
    requires
        normal_clause(a),
        normal_clause(b),
    ensures
        tautology(resolvent(a, b, v)) <==> exists|p: int, q: int| #[trigger] clash_at(a, b, v, p, q),
{
    lemma_resolvent(a, b, v);
    let r = resolvent(a, b, v);
    if tautology(r) {
        let (i, j) = choose|i: int, j: int|
            0 <= i < r.len() && 0 <= j < r.len() && #[trigger] r[i] == (#[trigger] r[j]).neg();
        assert(r.contains(r[i]) && r.contains(r[j]));
        if a.contains(r[i]) && a.contains(r[j]) {
            let x = choose|x: int| 0 <= x < a.len() && a[x] == r[i];
            let y = choose|y: int| 0 <= y < a.len() && a[y] == r[j];
            assert(a[x] == a[y].neg());
        } else if b.contains(r[i]) && b.contains(r[j]) {
            let x = choose|x: int| 0 <= x < b.len() && b[x] == r[i];
            let y = choose|y: int| 0 <= y < b.len() && b[y] == r[j];
            assert(b[x] == b[y].neg());
        } else if a.contains(r[i]) {
            let x = choose|x: int| 0 <= x < a.len() && a[x] == r[i];
            let y = choose|y: int| 0 <= y < b.len() && b[y] == r[j];
            assert(clash_at(a, b, v, x, y));
        } else {
            let x = choose|x: int| 0 <= x < a.len() && a[x] == r[j];
            let y = choose|y: int| 0 <= y < b.len() && b[y] == r[i];
            assert(a[x] == b[y].neg());
            assert(clash_at(a, b, v, x, y));
        }
    }
    if exists|p: int, q: int| #[trigger] clash_at(a, b, v, p, q) {
        let (p, q) = choose|p: int, q: int| #[trigger] clash_at(a, b, v, p, q);
        assert(a.contains(a[p]) && b.contains(b[q]));
        assert(r.contains(a[p]) && r.contains(b[q]));
        let i = choose|i: int| 0 <= i < r.len() && r[i] == a[p];
        let j = choose|j: int| 0 <= j < r.len() && r[j] == b[q];
        assert(r[i] == r[j].neg());
    }
}

/// In a clause in normal form the variables ascend.
proof fn lemma_vars_ascend(c: Seq<Lit>)
    requires
        normal_clause(c),
    ensures
        forall|i: int, j: int| 0 <= i < j < c.len() ==> (#[trigger] c[i]).vi() < (#[trigger] c[j]).vi(),
{
    assert forall|i: int, j: int| 0 <= i < j < c.len() implies (#[trigger] c[i]).vi() < (#[trigger] c[j]).vi() by {
        assert(c[i].code < c[j].code);
        assert(c[i] != c[j].neg());
    }
}

/// Whether two clauses in normal form resolve to a tautology.
pub fn clashes(a: &[Lit], b: &[Lit], var: Var) -> (r: bool)
    requires
        normal_clause(a@),
        normal_clause(b@),
    ensures
        r == tautology(resolvent(a@, b@, var.vi())),
{
    let mut i: usize = 0;
    let mut j: usize = 0;
    proof {
        lemma_clash(a@, b@, var.vi());
        lemma_vars_ascend(a@);
        lemma_vars_ascend(b@);
    }
    while i < a.len() && j < b.len()
        invariant
            i <= a@.len(),
            j <= b@.len(),
            forall|x: int, y: int| 0 <= x < y < a@.len() ==> (#[trigger] a@[x]).vi() < (#[trigger] a@[y]).vi(),
            forall|x: int, y: int| 0 <= x < y < b@.len() ==> (#[trigger] b@[x]).vi() < (#[trigger] b@[y]).vi(),
            forall|p: int, q: int| p < i || q < j ==> !#[trigger] clash_at(a@, b@, var.vi(), p, q),
            tautology(resolvent(a@, b@, var.vi())) <==> exists|p: int, q: int| #[trigger]
                clash_at(a@, b@, var.vi(), p, q),
        decreases a.len() - i + b.len() - j,
    {
        let x: u32 = a[i].code / 2;
        let y: u32 = b[j].code / 2;
        let ghost i0 = i as int;
        let ghost j0 = j as int;
        if x == y {
            if a[i].code != b[j].code && x != var.index() as u32 {
                assert(clash_at(a@, b@, var.vi(), i as int, j as int));
                return true;
            }
            i = i + 1;
            j = j + 1;
        } else if x < y {
            i = i + 1;
        } else {
            j = j + 1;
        }
        assert forall|p: int, q: int| p < i || q < j implies !#[trigger] clash_at(a@, b@, var.vi(), p, q) by {
            if p >= i0 && q >= j0 && clash_at(a@, b@, var.vi(), p, q) {
                if p > i0 {
                    assert(a@[i0].vi() < a@[p].vi());
                }
                if q > j0 {
                    assert(b@[j0].vi() < b@[q].vi());
                }
            }
        }
    }
    proof {
        assert forall|p: int, q: int| !#[trigger] clash_at(a@, b@, var.vi(), p, q) by {
            assert(p < i || q < j || p >= a@.len() || q >= b@.len());
        }
    }
    false
}

/// Resolves two clauses in normal form on `var`.
pub fn resolve_normal(a: &[Lit], b: &[Lit], var: Var) -> (r: Option<Vec<Lit>>)
    requires
        normal_clause(a@),
        normal_clause(b@),
    ensures
        r is None <==> tautology(resolvent(a@, b@, var.vi())),
        r is Some ==> r->0@ == resolvent(a@, b@, var.vi()),
{
    if clashes(a, b, var) {
        None
    } else {
        Some(merged(a, b, var))
    }
}

/// Resolves two clauses on `var`.
///
/// Returns `None` when the resolvent is a tautology, which is the case that keeps Davis–Putnam
/// from producing even more clauses than it already does. The result is sorted and duplicate-free
/// so that it can be compared directly.
pub fn resolve(a: &[Lit], b: &[Lit], var: Var) -> (r: Option<Vec<Lit>>)
    ensures
        r is None <==> tautology(resolvent(a@, b@, var.vi())),
        r is Some ==> r->0@ == resolvent(a@, b@, var.vi()),
{
    proof {
        lemma_resolvent(a@, b@, var.vi());
    }
    if in_order(a) && in_order(b) && !has_complement(a) && !has_complement(b) {
        return resolve_normal(a, b, var);
    }
    let mut out: Vec<Lit> = Vec::new();
    push_others(&mut out, a, var);
    push_others(&mut out, b, var);
    assert(out@ =~= drop_var(a@, var.vi()) + drop_var(b@, var.vi()));
    let sorted = sort_lits(&out);
    if has_complement(&sorted) {
        None
    } else {
        Some(sorted)
    }
}

/// Appends the literals of a clause that are not over `var`.
pub fn push_others(out: &mut Vec<Lit>, clause: &[Lit], var: Var)
    ensures
        final(out)@ == old(out)@ + drop_var(clause@, var.vi()),
{
    let ghost before = out@;
    assert(clause@.take(0).len() == 0);
    assert(before + drop_var(clause@.take(0), var.vi()) =~= before);
    for i in 0..clause.len()
        invariant
            out@ == before + drop_var(clause@.take(i as int), var.vi()),
    {
        proof {
            assert(clause@.take(i + 1).drop_last() =~= clause@.take(i as int));
            assert(clause@.take(i + 1).last() == clause@[i as int]);
            assert((before + drop_var(clause@.take(i as int), var.vi())).push(clause@[i as int]) =~= before
                + drop_var(clause@.take(i as int), var.vi()).push(clause@[i as int]));
        }
        if clause[i].var().index() != var.index() {
            out.push(clause[i]);
        }
    }
    assert(clause@.take(clause@.len() as int) =~= clause@);
}

} // verus!
