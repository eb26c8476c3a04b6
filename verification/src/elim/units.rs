//! Unit propagation on the clause store.

use vstd::prelude::*;
use crate::count::{cnt, lemma_cnt_update};
use crate::lit::{lemma_mk_lit, mk_lit, Lit};
use crate::semantics::{clause_below, clause_true, lit_true, normal_clause, strictly_sorted, valuation, lemma_clause_true_by, Valuation};
use crate::sorting::lemma_push_contains;
use super::reconstruction::{replay, replayable, simplifies, slots_sat, step_below, steps_below, Reconstruction, Undo};
use super::resolution::{drop_var, lemma_drop_var, push_others};
use super::working::{has_empty, holds, is_live, lemma_live_count_remove, lemma_occ_of, live_count, occ_of, occurs, slots_normal, slots_true, Slots, Working};

verus! {

/// The trail entries that record forced literals.
pub open spec fn fixes(u: Seq<Lit>) -> Seq<Undo> {
    Seq::new(u.len(), |i: int| Undo::Fixed(u[i]))
}

/// The literals forced by the steps from the `k`-th on.
pub open spec fn fixed_since(steps: Seq<Undo>, k: nat) -> Seq<Lit> {
    Seq::new((steps.len() - k) as nat, |i: int| steps[k + i]->Fixed_0)
}

/// Where a trail grew by fixes alone, `fixed_since` reads them back.
pub proof fn lemma_fixed_since(steps: Seq<Undo>, u: Seq<Lit>)
    ensures
        fixed_since(steps + fixes(u), steps.len()) == u,
{
    assert(fixed_since(steps + fixes(u), steps.len()) =~= u);
}

/// No two of the literals are over one variable.
pub open spec fn distinct_vars(u: Seq<Lit>) -> bool {
    forall|i: int, j: int| 0 <= i < j < u.len() ==> (#[trigger] u[i]).vi() != (#[trigger] u[j]).vi()
}

/// Undoing fixes gives each fixed variable its value and leaves the others alone.
pub proof fn lemma_replay_fixes(u: Seq<Lit>, m: Seq<bool>)
    requires
        distinct_vars(u),
        clause_below(u, m.len() as int),
    ensures
        replayable(fixes(u), m),
        replay(fixes(u), m).len() == m.len(),
        forall|l: Lit| #[trigger] u.contains(l) ==> replay(fixes(u), m)[l.vi()] == l.pos(),
        forall|v: int|
            0 <= v < m.len() && (forall|i: int| 0 <= i < u.len() ==> (#[trigger] u[i]).vi() != v)
                ==> #[trigger] replay(fixes(u), m)[v] == m[v],
    decreases u.len(),
{
    if u.len() > 0 {
        let p = u.drop_last();
        let last = u.last();
        assert(u[u.len() - 1].vi() < m.len());
        let m1 = m.update(last.vi(), last.pos());
        assert(fixes(u).drop_last() =~= fixes(p));
        assert(fixes(u).last() == Undo::Fixed(last));
        assert forall|i: int| 0 <= i < p.len() implies (#[trigger] p[i]).vi() < m1.len() by {
            assert(p[i] == u[i]);
        }
        assert(distinct_vars(p)) by {
            assert forall|i: int, j: int| 0 <= i < j < p.len() implies (#[trigger] p[i]).vi() != (#[trigger] p[j]).vi() by {
                assert(u[i].vi() != u[j].vi());
            }
        }
        lemma_replay_fixes(p, m1);
        lemma_push_contains(p, last);
        assert(u =~= p.push(last));
        assert forall|l: Lit| #[trigger] u.contains(l) implies replay(fixes(u), m)[l.vi()] == l.pos() by {
            if !p.contains(l) {
                assert forall|i: int| 0 <= i < p.len() implies (#[trigger] p[i]).vi() != last.vi() by {
                    assert(u[i].vi() != u[u.len() - 1].vi());
                }
            }
        }
        assert forall|v: int|
            0 <= v < m.len() && (forall|i: int| 0 <= i < u.len() ==> (#[trigger] u[i]).vi() != v)
            implies #[trigger] replay(fixes(u), m)[v] == m[v] by {
            assert(u[u.len() - 1].vi() != v);
            assert forall|i: int| 0 <= i < p.len() implies (#[trigger] p[i]).vi() != v by {
                assert(u[i].vi() != v);
            }
            assert(replay(fixes(p), m1)[v] == m1[v]);
        }
    }
}

/// Clause `i` leaves nothing but `l`: every other literal of it is false once `u` is true.
pub open spec fn unit_at(s: Slots, i: int, u: Seq<Lit>, l: Lit) -> bool {
    holds(s, i, l) && forall|x: Lit| #[trigger] s[i]->0.contains(x) && x != l ==> u.contains(x.neg())
}

/// Some clause leaves nothing but `l` once `u` is true.
pub open spec fn forced(s: Slots, u: Seq<Lit>, l: Lit) -> bool {
    exists|i: int| #[trigger] unit_at(s, i, u, l)
}

/// Each literal of `u` is forced by those before it, and is over a variable of its own.
pub open spec fn derivable(s: Slots, u: Seq<Lit>) -> bool {
    &&& distinct_vars(u)
    &&& forall|k: int| 0 <= k < u.len() ==> forced(s, u.take(k), #[trigger] u[k])
}

/// Every literal of clause `i` is false once `u` is true.
pub open spec fn falsified_at(s: Slots, i: int, u: Seq<Lit>) -> bool {
    is_live(s, i) && forall|x: Lit| #[trigger] s[i]->0.contains(x) ==> u.contains(x.neg())
}

/// Some clause is false once `u` is true.
pub open spec fn falsified(s: Slots, u: Seq<Lit>) -> bool {
    exists|i: int| #[trigger] falsified_at(s, i, u)
}

/// Some literal of `u` is in the clause.
pub open spec fn hit(c: Seq<Lit>, u: Seq<Lit>) -> bool {
    exists|x: Lit| #[trigger] c.contains(x) && u.contains(x)
}

/// `d` is `c` without the literals that `u` makes false.
pub open spec fn stripped(c: Seq<Lit>, u: Seq<Lit>, d: Seq<Lit>) -> bool {
    &&& strictly_sorted(d)
    &&& forall|x: Lit| #[trigger] d.contains(x) <==> c.contains(x) && !u.contains(x.neg())
}

/// Clause `i` of `s` is not satisfied by `u`, and slot `j` of `t` holds what `u` leaves of it.
pub open spec fn rest_at(s: Slots, i: int, u: Seq<Lit>, t: Slots, j: int) -> bool {
    is_live(s, i) && is_live(t, j) && !hit(s[i]->0, u) && stripped(s[i]->0, u, t[j]->0)
}

/// `t` holds what is left of the clauses of `s` once `u` is true: satisfied clauses are gone, and
/// false literals are gone from the others.
pub open spec fn reduced(s: Slots, u: Seq<Lit>, t: Slots) -> bool {
    &&& forall|j: int| #[trigger] is_live(t, j) ==> exists|i: int| #[trigger] rest_at(s, i, u, t, j)
    &&& forall|i: int| #[trigger] is_live(s, i) && !hit(s[i]->0, u) ==> exists|j: int| #[trigger] rest_at(s, i, u, t, j)
}

/// Unit propagation leads from `s` to `t` by making the literals of `u` true: each is forced in
/// its turn, `t` is what they leave of `s`, and nothing is left to propagate.
pub open spec fn propagated(s: Slots, u: Seq<Lit>, t: Slots) -> bool {
    &&& derivable(s, u)
    &&& reduced(s, u, t)
    &&& forall|j: int| #[trigger] is_live(t, j) ==> t[j]->0.len() >= 2
}

/// Two literals over one variable are the same or opposite.
proof fn lemma_same_var(a: Lit, b: Lit)
    ensures
        a.vi() == b.vi() <==> (a == b || a == b.neg()),
{
}

/// Derivable literals are never opposite.
proof fn lemma_derivable_consistent(s: Slots, u: Seq<Lit>, x: Lit)
    requires
        derivable(s, u),
        u.contains(x),
    ensures
        !u.contains(x.neg()),
{
    if u.contains(x.neg()) {
        let i = choose|i: int| 0 <= i < u.len() && u[i] == x;
        let j = choose|j: int| 0 <= j < u.len() && u[j] == x.neg();
        if i < j {
            assert(u[i].vi() != u[j].vi());
        } else {
            assert(u[j].vi() != u[i].vi());
        }
    }
}

/// What is derived holds in every model.
pub proof fn lemma_derived_literals_are_implied(s: Slots, u: Seq<Lit>, m: Valuation)
    requires
        derivable(s, u),
        slots_true(m, s),
    ensures
        forall|l: Lit| #[trigger] u.contains(l) ==> lit_true(m, l),
    decreases u.len(),
{
    if u.len() > 0 {
        let p = u.drop_last();
        let last = u.last();
        assert(derivable(s, p)) by {
            assert forall|k: int| 0 <= k < p.len() implies forced(s, p.take(k), #[trigger] p[k]) by {
                assert(p.take(k) =~= u.take(k));
                assert(p[k] == u[k]);
            }
            assert forall|i: int, j: int| 0 <= i < j < p.len() implies (#[trigger] p[i]).vi() != (#[trigger] p[j]).vi() by {
                assert(u[i].vi() != u[j].vi());
            }
        }
        lemma_derived_literals_are_implied(s, p, m);
        assert(forced(s, u.take(u.len() - 1), u[u.len() - 1]));
        assert(u.take(u.len() - 1) =~= p);
        let i = choose|i: int| #[trigger] unit_at(s, i, p, last);
        assert(is_live(s, i));
        let c = s[i]->0;
        let q = choose|q: int| 0 <= q < c.len() && lit_true(m, #[trigger] c[q]);
        assert(c.contains(c[q]));
        if c[q] != last {
            assert(p.contains(c[q].neg()));
            assert(lit_true(m, c[q].neg()));
        }
        lemma_push_contains(p, last);
        assert(u =~= p.push(last));
    }
}

/// A clause made false by derived literals refutes the formula.
pub proof fn lemma_propagation_conflict_refutes(s: Slots, u: Seq<Lit>)
    requires
        derivable(s, u),
        falsified(s, u),
    ensures
        !slots_sat(s),
{
    assert forall|m: Valuation| !slots_true(m, s) by {
        if slots_true(m, s) {
            lemma_derived_literals_are_implied(s, u, m);
            let i = choose|i: int| #[trigger] falsified_at(s, i, u);
            assert(is_live(s, i));
            let c = s[i]->0;
            let q = choose|q: int| 0 <= q < c.len() && lit_true(m, #[trigger] c[q]);
            assert(c.contains(c[q]));
            assert(u.contains(c[q].neg()));
            assert(lit_true(m, c[q].neg()));
        }
    }
}

/// Unit propagation gives the same literals whatever the order: whatever can be derived is among
/// those that a completed run made true, and no run ends in a conflict where another completes.
pub proof fn lemma_unit_propagation_is_confluent(s: Slots, u: Seq<Lit>, t: Slots, v: Seq<Lit>)
    requires
        propagated(s, u, t),
        derivable(s, v),
    ensures
        forall|x: Lit| #[trigger] v.contains(x) ==> u.contains(x),
        !falsified(s, v),
{
    lemma_derived_among(s, u, t, v, v.len() as int);
    assert(v.take(v.len() as int) =~= v);
    if falsified(s, v) {
        let i = choose|i: int| #[trigger] falsified_at(s, i, v);
        assert(is_live(s, i));
        if hit(s[i]->0, u) {
            let x = choose|x: Lit| #[trigger] s[i]->0.contains(x) && u.contains(x);
            assert(v.contains(x.neg()));
            lemma_derivable_consistent(s, u, x);
        } else {
            let j = choose|j: int| #[trigger] rest_at(s, i, u, t, j);
            let d = t[j]->0;
            assert(is_live(t, j));
            assert(d.contains(d[0]));
            assert(s[i]->0.contains(d[0]));
            assert(v.contains(d[0].neg()));
        }
    }
}

/// The first `k` literals of any derivation are among those of a completed run.
proof fn lemma_derived_among(s: Slots, u: Seq<Lit>, t: Slots, v: Seq<Lit>, k: int)
    requires
        propagated(s, u, t),
        derivable(s, v),
        0 <= k <= v.len(),
    ensures
        forall|x: Lit| #[trigger] v.take(k).contains(x) ==> u.contains(x),
    decreases k,
{
    if k > 0 {
        lemma_derived_among(s, u, t, v, k - 1);
        let p = v.take(k - 1);
        let l = v[k - 1];
        assert(v.take(k) =~= p.push(l));
        lemma_push_contains(p, l);
        assert(forced(s, v.take(k - 1), v[k - 1]));
        let i = choose|i: int| #[trigger] unit_at(s, i, p, l);
        assert(is_live(s, i));
        let c = s[i]->0;
        if hit(c, u) {
            let x = choose|x: Lit| #[trigger] c.contains(x) && u.contains(x);
            if x != l {
                assert(p.contains(x.neg()));
                lemma_derivable_consistent(s, u, x);
            }
        } else {
            let j = choose|j: int| #[trigger] rest_at(s, i, u, t, j);
            let d = t[j]->0;
            assert(is_live(t, j));
            assert(d.contains(d[0]) && d.contains(d[1]));
            assert(d[0].code < d[1].code);
            assert(c.contains(d[0]) && c.contains(d[1]));
            if d[0] != l {
                assert(p.contains(d[0].neg()));
            } else {
                assert(p.contains(d[1].neg()));
            }
        }
    }
}

/// Derived literals range over the variables of the formula.
pub proof fn lemma_derived_below(s: Slots, u: Seq<Lit>, n: int)
    requires
        derivable(s, u),
        slots_normal(s, n),
    ensures
        clause_below(u, n),
        steps_below(fixes(u), n),
{
    assert forall|k: int| 0 <= k < u.len() implies (#[trigger] u[k]).vi() < n by {
        assert(forced(s, u.take(k), u[k]));
        let i = choose|i: int| #[trigger] unit_at(s, i, u.take(k), u[k]);
        assert(is_live(s, i));
        let c = s[i]->0;
        let q = choose|q: int| 0 <= q < c.len() && c[q] == u[k];
        assert(c[q].vi() < n);
    }
    assert forall|k: int| 0 <= k < fixes(u).len() implies step_below(#[trigger] fixes(u)[k], n) by {
        assert(u[k].vi() < n);
    }
}

/// A clause holds once the forced literals are true and what they leave of it holds.
proof fn lemma_clause_lifts(s: Slots, u: Seq<Lit>, t: Slots, n: int, m: Seq<bool>, i: int)
    requires
        propagated(s, u, t),
        slots_normal(s, n),
        clause_below(u, n),
        m.len() == n,
        slots_true(valuation(m), t),
        is_live(s, i),
    ensures
        clause_true(valuation(replay(fixes(u), m)), s[i]->0),
{
    lemma_replay_fixes(u, m);
    let values = replay(fixes(u), m);
    let m1 = valuation(values);
    let c = s[i]->0;
    if hit(c, u) {
        let x = choose|x: Lit| #[trigger] c.contains(x) && u.contains(x);
        let q = choose|q: int| 0 <= q < u.len() && u[q] == x;
        assert(u[q].vi() < n);
        assert(values[x.vi()] == x.pos());
        assert(lit_true(m1, x));
        lemma_clause_true_by(m1, c, x);
    } else {
        let j = choose|j: int| #[trigger] rest_at(s, i, u, t, j);
        assert(is_live(t, j));
        let d = t[j]->0;
        let q = choose|q: int| 0 <= q < d.len() && lit_true(valuation(m), #[trigger] d[q]);
        let x = d[q];
        assert(d.contains(x));
        assert(c.contains(x) && !u.contains(x.neg()));
        assert(!u.contains(x));
        let z = choose|z: int| 0 <= z < c.len() && c[z] == x;
        assert(clause_below(c, n));
        assert(c[z].vi() < n);
        assert forall|k: int| 0 <= k < u.len() implies (#[trigger] u[k]).vi() != x.vi() by {
            lemma_same_var(u[k], x);
            assert(u.contains(u[k]));
        }
        assert(values[x.vi()] == m[x.vi()]);
        assert(lit_true(m1, x));
        lemma_clause_true_by(m1, c, x);
    }
}

/// What propagation leaves of a clause follows from the formula.
proof fn lemma_rest_is_implied(s: Slots, u: Seq<Lit>, t: Slots, m: Valuation, j: int)
    requires
        propagated(s, u, t),
        slots_true(m, s),
        is_live(t, j),
    ensures
        clause_true(m, t[j]->0),
{
    lemma_derived_literals_are_implied(s, u, m);
    let i = choose|i: int| #[trigger] rest_at(s, i, u, t, j);
    assert(is_live(s, i));
    let c = s[i]->0;
    let q = choose|q: int| 0 <= q < c.len() && lit_true(m, #[trigger] c[q]);
    assert(c.contains(c[q]));
    if u.contains(c[q].neg()) {
        assert(lit_true(m, c[q].neg()));
    }
    assert(t[j]->0.contains(c[q]));
    lemma_clause_true_by(m, t[j]->0, c[q]);
}

/// Unit propagation loses nothing: a model of what is left, with the forced literals made true,
/// is a model of the formula, and what is left is satisfiable where the formula is.
pub proof fn lemma_unit_propagation_simplifies(s: Slots, u: Seq<Lit>, t: Slots, n: int)
    requires
        propagated(s, u, t),
        slots_normal(s, n),
    ensures
        simplifies(s, fixes(u), t, n),
{
    lemma_derived_below(s, u, n);
    assert forall|m: Seq<bool>| m.len() == n && #[trigger] slots_true(valuation(m), t) implies replayable(
        fixes(u),
        m,
    ) && slots_true(valuation(replay(fixes(u), m)), s) by {
        lemma_replay_fixes(u, m);
        assert forall|i: int| #[trigger] is_live(s, i) implies clause_true(
            valuation(replay(fixes(u), m)),
            s[i]->0,
        ) by {
            lemma_clause_lifts(s, u, t, n, m, i);
        }
    }
    if slots_sat(s) {
        let m = choose|m: Valuation| slots_true(m, s);
        assert forall|j: int| #[trigger] is_live(t, j) implies clause_true(m, t[j]->0) by {
            lemma_rest_is_implied(s, u, t, m, j);
        }
        assert(slots_true(m, t));
    }
}

/// The slots without the clauses that contain `l`.
pub open spec fn without(s: Slots, l: Lit) -> Slots {
    Seq::new(s.len(), |i: int| if holds(s, i, l) { None } else { s[i] })
}

/// The slots without those listed.
pub open spec fn cleared(s: Slots, list: Seq<usize>) -> Slots {
    Seq::new(s.len(), |i: int| if list.contains(i as usize) { None } else { s[i] })
}

/// Clearing the slots that hold a literal removes the clauses that contain it.
pub proof fn lemma_cleared_without(s: Slots, l: Lit)
    requires
        s.len() <= usize::MAX,
    ensures
        cleared(s, occ_of(s, l)) == without(s, l),
{
    lemma_occ_of(s, l);
    assert(cleared(s, occ_of(s, l)) =~= without(s, l));
}

/// Clearing slots one after another.
pub proof fn lemma_cleared_push(s: Slots, list: Seq<usize>, k: int)
    requires
        0 <= k < list.len(),
        list[k] < s.len(),
        s.len() <= usize::MAX,
    ensures
        cleared(s, list.take(k + 1)) == cleared(s, list.take(k)).update(list[k] as int, None),
        live_count(cleared(s, list.take(k + 1))) <= live_count(cleared(s, list.take(k))),
        is_live(cleared(s, list.take(k)), list[k] as int) ==> live_count(cleared(s, list.take(k + 1)))
            == live_count(cleared(s, list.take(k))) - 1,
{
    assert(list.take(k + 1) =~= list.take(k).push(list[k]));
    lemma_push_contains(list.take(k), list[k]);
    assert(cleared(s, list.take(k + 1)) =~= cleared(s, list.take(k)).update(list[k] as int, None));
    lemma_live_count_remove(cleared(s, list.take(k)), list[k] as int);
}

/// Clearing no slot.
pub proof fn lemma_cleared_none(s: Slots, list: Seq<usize>)
    ensures
        cleared(s, list.take(0)) == s,
{
    assert(cleared(s, list.take(0)) =~= s);
}

/// Removes every clause that contains `lit`.
pub fn drop_satisfied(w: &mut Working, lit: Lit)
    requires
        old(w).wf(),
        lit.vi() < old(w).nv(),
    ensures
        final(w).wf(),
        final(w).nv() == old(w).nv(),
        final(w).slots() == without(old(w).slots(), lit),
        live_count(final(w).slots()) <= live_count(old(w).slots()),
        occurs(old(w).slots(), lit) ==> live_count(final(w).slots()) < live_count(old(w).slots()),
{
    let ghost s = w.slots();
    let list = w.occurrences(lit);
    proof {
        w.lemma_wf();
        lemma_occ_of(s, lit);
        lemma_cleared_none(s, list@);
    }
    for k in 0..list.len()
        invariant
            w.wf(),
            w.nv() == old(w).nv(),
            s.len() <= usize::MAX,
            list@ == occ_of(s, lit),
            forall|i: usize| #[trigger] list@.contains(i) <==> holds(s, i as int, lit),
            w.slots() == cleared(s, list@.take(k as int)),
            live_count(w.slots()) <= live_count(s),
            k > 0 ==> live_count(w.slots()) < live_count(s),
            super::working::ascending_slots(list@),
    {
        proof {
            assert(list@.contains(list@[k as int]));
            assert(is_live(cleared(s, list@.take(k as int)), list@[k as int] as int)) by {
                if list@.take(k as int).contains(list@[k as int]) {
                    let q = choose|q: int| 0 <= q < k && list@.take(k as int)[q] == list@[k as int];
                    assert(list@[q] < list@[k as int]);
                }
            }
            lemma_cleared_push(s, list@, k as int);
        }
        w.remove(list[k]);
    }
    proof {
        assert(list@.take(list@.len() as int) =~= list@);
        lemma_cleared_without(s, lit);
        if occurs(s, lit) {
            let i = choose|i: int| #[trigger] holds(s, i, lit);
            assert(list@.contains(i as usize));
        }
    }
}

/// Dropping a variable keeps a clause sorted, and in normal form.
pub proof fn lemma_drop_var_sorted(c: Seq<Lit>, v: int)
    requires
        normal_clause(c),
    ensures
        normal_clause(drop_var(c, v)),
{
    lemma_drop_var_strict(c, v);
    lemma_drop_var(c, v);
    let d = drop_var(c, v);
    if crate::semantics::tautology(d) {
        let (i, j) = choose|i: int, j: int|
            0 <= i < d.len() && 0 <= j < d.len() && #[trigger] d[i] == (#[trigger] d[j]).neg();
        assert(d.contains(d[i]) && d.contains(d[j]));
        let p = choose|p: int| 0 <= p < c.len() && c[p] == d[i];
        let q = choose|q: int| 0 <= q < c.len() && c[q] == d[j];
        assert(c[p] == c[q].neg());
    }
}

proof fn lemma_drop_var_strict(c: Seq<Lit>, v: int)
    requires
        strictly_sorted(c),
    ensures
        strictly_sorted(drop_var(c, v)),
    decreases c.len(),
{
    if c.len() > 0 {
        let p = c.drop_last();
        lemma_drop_var_strict(p, v);
        lemma_drop_var(p, v);
        let d = drop_var(p, v);
        assert forall|i: int| 0 <= i < d.len() implies (#[trigger] d[i]).code < c.last().code by {
            assert(d.contains(d[i]));
            let q = choose|q: int| 0 <= q < p.len() && p[q] == d[i];
            assert(c[q].code < c[c.len() - 1].code);
        }
    }
}

/// What the clauses in the listed slots become once variable `v` is dropped from them.
pub open spec fn cuts(s: Slots, list: Seq<usize>, v: int) -> Slots {
    Seq::new(list.len(), |k: int| Some(drop_var(s[list[k] as int]->0, v)))
}

/// Shortens every clause that contains `lit` by dropping that literal, and queues the literals of
/// the clauses that come down to one. Returns `false`, half done, where a clause comes down to
/// nothing.
fn strengthen(w: &mut Working, lit: Lit, queue: &mut Vec<Lit>) -> (ok: bool)
    requires
        old(w).wf(),
        lit.vi() < old(w).nv(),
    ensures
        final(w).wf(),
        final(w).nv() == old(w).nv(),
        live_count(final(w).slots()) <= live_count(old(w).slots()),
        ok ==> ({
            let s = old(w).slots();
            let list = occ_of(s, lit);
            &&& final(w).slots() == without(s, lit) + cuts(s, list, lit.vi())
            &&& forall|q: Lit| #[trigger]
                final(queue)@.contains(q) <==> old(queue)@.contains(q) || cut_to(s, list, lit.vi(), q)
        }),
        !ok ==> exists|i: int| #[trigger]
            holds(old(w).slots(), i, lit) && drop_var(old(w).slots()[i]->0, lit.vi()).len() == 0,
{
    let ghost s = w.slots();
    let ghost n = w.nv();
    let ghost before = queue@;
    let list = w.occurrences(lit);
    proof {
        w.lemma_wf();
        lemma_occ_of(s, lit);
        lemma_cleared_none(s, list@);
        assert(w.slots() =~= cleared(s, list@.take(0)) + cuts(s, list@.take(0), lit.vi()));
    }
    for k in 0..list.len()
        invariant
            w.wf(),
            w.nv() == n,
            n == old(w).nv(),
            s == old(w).slots(),
            s.len() <= usize::MAX,
            slots_normal(s, n),
            list@ == occ_of(s, lit),
            super::working::ascending_slots(list@),
            forall|i: usize| #[trigger] list@.contains(i) <==> holds(s, i as int, lit),
            w.slots() == cleared(s, list@.take(k as int)) + cuts(s, list@.take(k as int), lit.vi()),
            live_count(w.slots()) <= live_count(s),
            forall|q: Lit| #[trigger]
                queue@.contains(q) <==> before.contains(q) || cut_to(s, list@.take(k as int), lit.vi(), q),
    {
        let c: usize = list[k];
        let ghost mid = w.slots();
        let ghost base = cleared(s, list@.take(k as int));
        proof {
            assert(list@.contains(c));
            assert(is_live(s, c as int));
            assert(is_live(base, c as int)) by {
                if list@.take(k as int).contains(c) {
                    let q = choose|q: int| 0 <= q < k && list@.take(k as int)[q] == c;
                    assert(list@[q] < list@[k as int]);
                }
            }
            assert(mid[c as int] == s[c as int]);
            lemma_cleared_push(s, list@, k as int);
            lemma_live_count_remove(mid, c as int);
        }
        let mut clause: Vec<Lit> = Vec::new();
        if let Some(lits) = w.clause(c) {
            push_others(&mut clause, lits, lit.var());
        }
        let ghost cut = drop_var(s[c as int]->0, lit.vi());
        proof {
            assert(clause@ =~= cut);
            lemma_drop_var_sorted(s[c as int]->0, lit.vi());
            lemma_drop_var(s[c as int]->0, lit.vi());
            assert(clause_below(cut, n)) by {
                let d = s[c as int]->0;
                assert forall|i: int| 0 <= i < cut.len() implies (#[trigger] cut[i]).vi() < n by {
                    assert(cut.contains(cut[i]));
                    let q = choose|q: int| 0 <= q < d.len() && d[q] == cut[i];
                    assert(d[q].vi() < n);
                }
            }
            lemma_cut_to_push(s, list@, k as int, lit.vi());
        }
        w.remove(c);
        if clause.len() == 0 {
            assert(holds(s, c as int, lit));
            return false;
        }
        let ghost queued = queue@;
        if clause.len() == 1 {
            proof {
                lemma_push_contains(queued, cut[0]);
            }
            queue.push(clause[0]);
        }
        w.add(clause);
        proof {
            assert(mid.update(c as int, None).push(Some(cut)).drop_last() =~= mid.update(c as int, None));
            assert(list@.take(k + 1) =~= list@.take(k as int).push(c));
            assert(w.slots() =~= cleared(s, list@.take(k + 1)) + cuts(s, list@.take(k + 1), lit.vi()));
        }
    }
    proof {
        assert(list@.take(list@.len() as int) =~= list@);
        lemma_cleared_without(s, lit);
    }
    true
}

/// Some listed clause is `q` alone once variable `v` is dropped from it.
pub open spec fn cut_to(s: Slots, list: Seq<usize>, v: int, q: Lit) -> bool {
    exists|k: int| 0 <= k < list.len() && (#[trigger] cuts(s, list, v)[k])->0 =~= seq![q]
}

proof fn lemma_cut_to_push(s: Slots, list: Seq<usize>, k: int, v: int)
    requires
        0 <= k < list.len(),
    ensures
        forall|q: Lit| #[trigger]
            cut_to(s, list.take(k + 1), v, q) <==> cut_to(s, list.take(k), v, q) || drop_var(
                s[list[k] as int]->0,
                v,
            ) =~= seq![q],
{
    let a = cuts(s, list.take(k), v);
    let b = cuts(s, list.take(k + 1), v);
    assert forall|q: Lit| #[trigger]
        cut_to(s, list.take(k + 1), v, q) <==> cut_to(s, list.take(k), v, q) || drop_var(
            s[list[k] as int]->0,
            v,
        ) =~= seq![q] by {
        if cut_to(s, list.take(k + 1), v, q) {
            let i = choose|i: int| 0 <= i < k + 1 && (#[trigger] b[i])->0 =~= seq![q];
            if i < k {
                assert(a[i] == b[i]);
                assert(a[i]->0 =~= seq![q]);
            } else {
                assert(b[i]->0 == drop_var(s[list[k] as int]->0, v));
            }
        }
        if cut_to(s, list.take(k), v, q) {
            let i = choose|i: int| 0 <= i < k && (#[trigger] a[i])->0 =~= seq![q];
            assert(b[i] == a[i]);
        }
        if drop_var(s[list[k] as int]->0, v) =~= seq![q] {
            assert(b[k]->0 =~= seq![q]);
        }
    }
}

/// The state of a propagation under way: `u` is derived, `t` is what it leaves of `s`, every
/// queued literal is forced, and every clause of one literal has it queued.
pub open spec fn propagating(s: Slots, u: Seq<Lit>, t: Slots, queue: Seq<Lit>) -> bool {
    &&& derivable(s, u)
    &&& reduced(s, u, t)
    &&& forall|q: Lit| #[trigger] queue.contains(q) ==> forced(s, u, q)
    &&& forall|j: int| #[trigger] is_live(t, j) && t[j]->0.len() == 1 ==> queue.contains(t[j]->0[0])
}

/// The slots once `q` is true: clauses with it are gone, and its negation is gone from the others,
/// which move to new slots at the end.
pub open spec fn assigned(t: Slots, q: Lit) -> Slots {
    let t1 = without(t, q);
    without(t1, q.neg()) + cuts(t1, occ_of(t1, q.neg()), q.vi())
}

/// A forced literal stays forced as more literals become true.
proof fn lemma_forced_grows(s: Slots, u: Seq<Lit>, q: Lit, l: Lit)
    requires
        forced(s, u, l),
    ensures
        forced(s, u.push(q), l),
{
    let i = choose|i: int| #[trigger] unit_at(s, i, u, l);
    lemma_push_contains(u, q);
    assert(unit_at(s, i, u.push(q), l));
}

/// A forced literal whose negation is true already leaves a clause false.
proof fn lemma_forced_conflict(s: Slots, u: Seq<Lit>, q: Lit)
    requires
        forced(s, u, q),
        u.contains(q.neg()),
    ensures
        falsified(s, u),
{
    let i = choose|i: int| #[trigger] unit_at(s, i, u, q);
    assert(falsified_at(s, i, u));
}

/// Making a forced literal true is a further step of derivation.
proof fn lemma_derive_next(s: Slots, u: Seq<Lit>, q: Lit)
    requires
        derivable(s, u),
        forced(s, u, q),
        !u.contains(q),
        !u.contains(q.neg()),
    ensures
        derivable(s, u.push(q)),
{
    let u1 = u.push(q);
    assert forall|k: int| 0 <= k < u1.len() implies forced(s, u1.take(k), #[trigger] u1[k]) by {
        if k < u.len() {
            assert(u1.take(k) =~= u.take(k));
            assert(forced(s, u.take(k), u[k]));
        } else {
            assert(u1.take(k) =~= u);
        }
    }
    assert forall|i: int, j: int| 0 <= i < j < u1.len() implies (#[trigger] u1[i]).vi() != (#[trigger] u1[j]).vi() by {
        if j < u.len() {
            assert(u[i].vi() != u[j].vi());
        } else {
            lemma_same_var(u[i], q);
            assert(u.contains(u[i]));
        }
    }
}

/// A clause that keeps neither `q` nor its negation is the same rest once `q` is true.
proof fn lemma_rest_stays(s: Slots, u: Seq<Lit>, t: Slots, q: Lit, i: int, j: int, t2: Slots, j2: int)
    requires
        rest_at(s, i, u, t, j),
        !u.contains(q.neg()),
        is_live(t2, j2),
        strictly_sorted(t2[j2]->0),
        !holds(t, j, q),
        forall|x: Lit| #[trigger] t2[j2]->0.contains(x) <==> t[j]->0.contains(x) && x != q.neg(),
    ensures
        rest_at(s, i, u.push(q), t2, j2),
{
    let c = s[i]->0;
    let d = t[j]->0;
    let d2 = t2[j2]->0;
    lemma_push_contains(u, q);
    assert(!hit(c, u.push(q))) by {
        if hit(c, u.push(q)) {
            let x = choose|x: Lit| #[trigger] c.contains(x) && u.push(q).contains(x);
            assert(c.contains(x));
            if u.contains(x) {
                assert(hit(c, u));
            } else {
                assert(x == q);
                assert(d.contains(q));
            }
        }
    }
    assert forall|x: Lit| #[trigger] d2.contains(x) <==> c.contains(x) && !u.push(q).contains(x.neg()) by {
        assert(d.contains(x) <==> c.contains(x) && !u.contains(x.neg()));
        crate::lit::lemma_negation_is_involutive(x);
        crate::lit::lemma_negation_is_involutive(q);
    }
}

/// Making `q` true leaves what the definition of the rest says.
proof fn lemma_assigned_reduces(s: Slots, u: Seq<Lit>, t: Slots, q: Lit, n: int)
    requires
        reduced(s, u, t),
        slots_normal(t, n),
        t.len() <= usize::MAX,
        !u.contains(q),
        !u.contains(q.neg()),
    ensures
        reduced(s, u.push(q), assigned(t, q)),
        forall|j: int| #[trigger]
            is_live(assigned(t, q), j) && j < t.len() ==> is_live(t, j) && assigned(t, q)[j] == t[j]
                && !t[j]->0.contains(q),
{
    let t1 = without(t, q);
    let list = occ_of(t1, q.neg());
    let t2 = assigned(t, q);
    let u1 = u.push(q);
    lemma_occ_of(t1, q.neg());
    lemma_push_contains(u, q);
    assert forall|j: int| #[trigger] is_live(t2, j) && j < t.len() implies is_live(t, j) && t2[j] == t[j]
        && !t[j]->0.contains(q) && !t[j]->0.contains(q.neg()) by {
        assert(!holds(t1, j, q.neg()));
        assert(t2[j] == t1[j]);
        assert(!holds(t, j, q));
    }
    assert forall|j: int| #[trigger] is_live(t2, j) implies exists|i: int| #[trigger] rest_at(s, i, u1, t2, j) by {
        if j < t.len() {
            assert(is_live(t, j));
            let i = choose|i: int| #[trigger] rest_at(s, i, u, t, j);
            assert(!holds(t, j, q));
            lemma_rest_stays(s, u, t, q, i, j, t2, j);
            assert(rest_at(s, i, u1, t2, j));
        } else {
            let k = j - t.len();
            let o = list[k] as int;
            assert(list.contains(list[k]));
            assert(holds(t1, o, q.neg()));
            assert(is_live(t, o) && t[o] == t1[o]);
            lemma_cut_rest(t, q, o, t2, j);
            let i = choose|i: int| #[trigger] rest_at(s, i, u, t, o);
            lemma_rest_stays(s, u, t, q, i, o, t2, j);
            assert(rest_at(s, i, u1, t2, j));
        }
    }
    assert forall|i: int| #[trigger] is_live(s, i) && !hit(s[i]->0, u1) implies exists|j: int| #[trigger]
        rest_at(s, i, u1, t2, j) by {
        let c = s[i]->0;
        assert(!hit(c, u)) by {
            if hit(c, u) {
                let x = choose|x: Lit| #[trigger] c.contains(x) && u.contains(x);
                assert(u1.contains(x));
            }
        }
        let j = choose|j: int| #[trigger] rest_at(s, i, u, t, j);
        let d = t[j]->0;
        assert(!d.contains(q)) by {
            if d.contains(q) {
                assert(c.contains(q) && u1.contains(q));
            }
        }
        assert(!holds(t, j, q));
        assert(t1[j] == t[j]);
        if d.contains(q.neg()) {
            assert(holds(t1, j, q.neg()));
            assert(list.contains(j as usize));
            let k = choose|k: int| 0 <= k < list.len() && list[k] == j as usize;
            lemma_cut_rest(t, q, j, t2, t.len() + k);
            lemma_rest_stays(s, u, t, q, i, j, t2, t.len() + k);
            assert(rest_at(s, i, u1, t2, t.len() + k));
        } else {
            assert(!holds(t1, j, q.neg()));
            assert(t2[j] == t[j]);
            assert(is_live(t2, j));
            assert(is_live(t, j));
            lemma_rest_stays(s, u, t, q, i, j, t2, j);
            assert(rest_at(s, i, u1, t2, j));
        }
    }
}

/// A shortened clause has the literals of the clause it came from, but for the false one.
proof fn lemma_cut_rest(t: Slots, q: Lit, o: int, t2: Slots, j: int)
    requires
        is_live(t, o),
        normal_clause(t[o]->0),
        t[o]->0.contains(q.neg()),
        !t[o]->0.contains(q),
        is_live(t2, j),
        t2[j]->0 == drop_var(t[o]->0, q.vi()),
    ensures
        strictly_sorted(t2[j]->0),
        forall|x: Lit| #[trigger] t2[j]->0.contains(x) <==> t[o]->0.contains(x) && x != q.neg(),
{
    lemma_drop_var_sorted(t[o]->0, q.vi());
    lemma_drop_var(t[o]->0, q.vi());
    assert forall|x: Lit| #[trigger] t2[j]->0.contains(x) <==> t[o]->0.contains(x) && x != q.neg() by {
        lemma_same_var(x, q);
    }
}

/// What is left of a clause, where it is `x` alone, forces `x`.
proof fn lemma_rest_forces(s: Slots, u: Seq<Lit>, t: Slots, i: int, j: int, x: Lit)
    requires
        rest_at(s, i, u, t, j),
        t[j]->0 =~= seq![x],
    ensures
        forced(s, u, x),
{
    let d = t[j]->0;
    assert(d[0] == x);
    assert(d.contains(x));
    assert(unit_at(s, i, u, x)) by {
        assert forall|y: Lit| #[trigger] s[i]->0.contains(y) && y != x implies u.contains(y.neg()) by {
            if !u.contains(y.neg()) {
                assert(d.contains(y));
            }
        }
    }
}

/// Making the literal at the end of the queue true keeps a propagation under way.
proof fn lemma_propagation_step(s: Slots, u: Seq<Lit>, t: Slots, before: Seq<Lit>, after: Seq<Lit>, n: int)
    requires
        propagating(s, u, t, before),
        slots_normal(t, n),
        t.len() <= usize::MAX,
        before.len() > 0,
        !u.contains(before.last()),
        !u.contains(before.last().neg()),
        ({
            let q = before.last();
            let t1 = without(t, q);
            forall|x: Lit| #[trigger]
                after.contains(x) <==> before.drop_last().contains(x) || cut_to(
                    t1,
                    occ_of(t1, q.neg()),
                    q.vi(),
                    x,
                )
        }),
    ensures
        propagating(s, u.push(before.last()), assigned(t, before.last()), after),
{
    let q = before.last();
    let t1 = without(t, q);
    let list = occ_of(t1, q.neg());
    let t2 = assigned(t, q);
    let u1 = u.push(q);
    let p = before.drop_last();
    assert(before =~= p.push(q));
    lemma_push_contains(p, q);
    assert(before.contains(q));
    lemma_derive_next(s, u, q);
    lemma_assigned_reduces(s, u, t, q, n);
    assert forall|x: Lit| #[trigger] after.contains(x) implies forced(s, u1, x) by {
        if p.contains(x) {
            assert(before.contains(x));
            lemma_forced_grows(s, u, q, x);
        } else {
            let k = choose|k: int| 0 <= k < list.len() && (#[trigger] cuts(t1, list, q.vi())[k])->0 =~= seq![x];
            let j = t.len() + k;
            assert(t2[j] == cuts(t1, list, q.vi())[k]);
            assert(is_live(t2, j));
            let i = choose|i: int| #[trigger] rest_at(s, i, u1, t2, j);
            lemma_rest_forces(s, u1, t2, i, j, x);
        }
    }
    assert forall|j: int| #[trigger] is_live(t2, j) && t2[j]->0.len() == 1 implies after.contains(t2[j]->0[0]) by {
        let x = t2[j]->0[0];
        if j < t.len() {
            assert(is_live(t, j) && t[j] == t2[j]);
            assert(before.contains(x));
            assert(t[j]->0.contains(x));
            assert(x != q);
            assert(p.contains(x));
        } else {
            let k = j - t.len();
            assert(t2[j] == cuts(t1, list, q.vi())[k]);
            assert(cuts(t1, list, q.vi())[k]->0 =~= seq![x]);
            assert(cut_to(t1, list, q.vi(), x));
        }
    }
}

/// A clause that `q` cuts down to nothing is false.
proof fn lemma_cut_to_nothing(s: Slots, u: Seq<Lit>, t: Slots, q: Lit, o: int, n: int)
    requires
        reduced(s, u, t),
        slots_normal(t, n),
        holds(without(t, q), o, q.neg()),
        drop_var(without(t, q)[o]->0, q.vi()).len() == 0,
    ensures
        falsified(s, u.push(q)),
{
    let d = t[o]->0;
    assert(!holds(t, o, q));
    assert(is_live(t, o));
    let i = choose|i: int| #[trigger] rest_at(s, i, u, t, o);
    let u1 = u.push(q);
    lemma_push_contains(u, q);
    lemma_drop_var(d, q.vi());
    assert(falsified_at(s, i, u1)) by {
        assert forall|x: Lit| #[trigger] s[i]->0.contains(x) implies u1.contains(x.neg()) by {
            if !u.contains(x.neg()) {
                assert(d.contains(x));
                assert(!drop_var(d, q.vi()).contains(x));
                lemma_same_var(x, q);
            }
        }
    }
}

/// Propagates unit clauses to fixpoint.
///
/// Returns `false` if a conflict is derived, which makes the formula unsatisfiable.
pub fn unit_propagate(w: &mut Working, trail: &mut Reconstruction) -> (ok: bool)
    requires
        old(w).wf(),
    ensures
        final(w).wf(),
        final(w).nv() == old(w).nv(),
        live_count(final(w).slots()) <= live_count(old(w).slots()),
        ({
            let u = fixed_since(final(trail)@, old(trail)@.len());
            &&& final(trail)@ == old(trail)@ + fixes(u)
            &&& ok ==> propagated(old(w).slots(), u, final(w).slots())
            &&& !ok ==> derivable(old(w).slots(), u) && falsified(old(w).slots(), u)
        }),
{
    let ghost s = w.slots();
    let ghost n = w.nv();
    let ghost start = trail@;
    let ghost mut u = Seq::<Lit>::empty();
    let mut queue = unit_literals(w);
    let num_vars: usize = w.num_vars();
    let mut value: Vec<Option<bool>> = vec![None; num_vars];
    proof {
        w.lemma_wf();
        lemma_propagation_start(s, queue@, n);
        assert(trail@ =~= start + fixes(u));
    }
    while queue.len() > 0
        invariant
            w.wf(),
            w.nv() == n,
            n == old(w).nv(),
            s == old(w).slots(),
            start == old(trail)@,
            slots_normal(s, n),
            live_count(w.slots()) <= live_count(s),
            propagating(s, u, w.slots(), queue@),
            trail@ == start + fixes(u),
            value@.len() == n,
            n <= crate::lit::Var::MAX_INDEX + 1,
            forall|v: int, b: bool|
                0 <= v < n ==> (value@[v] == Some(b) <==> #[trigger] u.contains(mk_lit(v, b))),
        decreases cnt(value@, None), queue.len(),
    {
        let ghost before = queue@;
        let lit = match queue.pop() {
            Some(l) => l,
            None => {
                return true;
            },
        };
        let v: usize = lit.var().index();
        proof {
            assert(before.contains(before[before.len() - 1]));
            lemma_forced_below(s, u, lit, n);
            lemma_mk_lit(lit);
            lemma_fixed_since(start, u);
            assert(u.contains(mk_lit(v as int, lit.pos())) <==> u.contains(lit));
            assert(u.contains(mk_lit(v as int, !lit.pos())) <==> u.contains(lit.neg()));
        }
        let seen = value[v];
        match seen {
            Some(assigned) => {
                if assigned != lit.is_positive() {
                    // Both polarities were derived as units: the formula is unsatisfiable.
                    proof {
                        lemma_forced_conflict(s, u, lit);
                    }
                    return false;
                }
                proof {
                    lemma_repeat(s, u, w.slots(), before);
                }
            },
            None => {
                let ghost old_value = value@;
                value[v] = Some(lit.is_positive());
                proof {
                    lemma_cnt_update(old_value, v as int, Some(lit.pos()), None);
                    assert(!u.contains(lit) && !u.contains(lit.neg()));
                    lemma_derive_next(s, u, lit);
                }
                trail.fix(lit);
                let ghost t = w.slots();
                proof {
                    w.lemma_wf();
                    assert(trail@ =~= start + fixes(u.push(lit)));
                    lemma_fixed_since(start, u.push(lit));
                }
                drop_satisfied(w, lit);
                // Strengthen the clauses the literal falsifies.
                let ghost t1 = w.slots();
                if !strengthen(w, lit.negated(), &mut queue) {
                    proof {
                        let o = choose|o: int| #[trigger]
                            holds(t1, o, lit.neg()) && drop_var(t1[o]->0, lit.neg().vi()).len() == 0;
                        lemma_cut_to_nothing(s, u, t, lit, o, n);
                    }
                    return false;
                }
                proof {
                    assert(w.slots() == assigned(t, lit));
                    lemma_propagation_step(s, u, t, before, queue@, n);
                    lemma_push_contains(u, lit);
                    assert forall|x: int, b: bool| 0 <= x < n implies (value@[x] == Some(b) <==> #[trigger] u.push(
                        lit,
                    ).contains(mk_lit(x, b))) by {
                        assert(u.contains(mk_lit(x, b)) <==> old_value[x] == Some(b));
                        assert(mk_lit(x, b).vi() == x && mk_lit(x, b).pos() == b);
                    }
                    u = u.push(lit);
                }
            },
        }
    }
    proof {
        lemma_fixed_since(start, u);
        lemma_propagation_end(s, u, w.slots(), queue@);
    }
    !w.has_empty_clause()
}

/// A forced literal is over a variable of the formula.
proof fn lemma_forced_below(s: Slots, u: Seq<Lit>, l: Lit, n: int)
    requires
        forced(s, u, l),
        slots_normal(s, n),
    ensures
        l.vi() < n,
{
    let i = choose|i: int| #[trigger] unit_at(s, i, u, l);
    assert(is_live(s, i));
    let c = s[i]->0;
    let q = choose|q: int| 0 <= q < c.len() && c[q] == l;
    assert(c[q].vi() < n);
}

/// A queued literal that is true already can be dropped.
proof fn lemma_repeat(s: Slots, u: Seq<Lit>, t: Slots, queue: Seq<Lit>)
    requires
        propagating(s, u, t, queue),
        queue.len() > 0,
        u.contains(queue.last()),
    ensures
        propagating(s, u, t, queue.drop_last()),
{
    let p = queue.drop_last();
    let q = queue.last();
    assert(queue =~= p.push(q));
    lemma_push_contains(p, q);
    assert forall|x: Lit| #[trigger] p.contains(x) implies forced(s, u, x) by {
        assert(queue.contains(x));
    }
    assert forall|j: int| #[trigger] is_live(t, j) && t[j]->0.len() == 1 implies p.contains(t[j]->0[0]) by {
        let x = t[j]->0[0];
        assert(queue.contains(x));
        if x == q {
            let i = choose|i: int| #[trigger] rest_at(s, i, u, t, j);
            assert(t[j]->0.contains(x));
            assert(hit(s[i]->0, u));
        }
    }
}

/// Nothing queued and no clause empty: the propagation is complete. An empty clause is a conflict.
proof fn lemma_propagation_end(s: Slots, u: Seq<Lit>, t: Slots, queue: Seq<Lit>)
    requires
        propagating(s, u, t, queue),
        queue.len() == 0,
    ensures
        !has_empty(t) ==> propagated(s, u, t),
        has_empty(t) ==> falsified(s, u),
{
    if has_empty(t) {
        let j = choose|j: int| #[trigger] is_live(t, j) && t[j]->0.len() == 0;
        let i = choose|i: int| #[trigger] rest_at(s, i, u, t, j);
        assert(falsified_at(s, i, u)) by {
            assert forall|x: Lit| #[trigger] s[i]->0.contains(x) implies u.contains(x.neg()) by {
                if !u.contains(x.neg()) {
                    assert(t[j]->0.contains(x));
                }
            }
        }
    } else {
        assert forall|j: int| #[trigger] is_live(t, j) implies t[j]->0.len() >= 2 by {
            if t[j]->0.len() == 1 {
                assert(queue.contains(t[j]->0[0]));
            }
        }
    }
}

/// Before anything is true, the formula is what is left of itself.
proof fn lemma_propagation_start(s: Slots, queue: Seq<Lit>, n: int)
    requires
        slots_normal(s, n),
        forall|q: Lit| #[trigger]
            queue.contains(q) <==> exists|i: int| #[trigger] is_live(s, i) && s[i]->0 =~= seq![q],
    ensures
        propagating(s, Seq::empty(), s, queue),
{
    let u = Seq::<Lit>::empty();
    assert forall|j: int| #[trigger] is_live(s, j) implies rest_at(s, j, u, s, j) by {}
    assert forall|q: Lit| #[trigger] queue.contains(q) implies forced(s, u, q) by {
        let i = choose|i: int| #[trigger] is_live(s, i) && s[i]->0 =~= seq![q];
        lemma_rest_forces(s, u, s, i, i, q);
    }
    assert forall|j: int| #[trigger] is_live(s, j) && s[j]->0.len() == 1 implies queue.contains(s[j]->0[0]) by {
        assert(s[j]->0 =~= seq![s[j]->0[0]]);
    }
}

/// The literals that stand alone in a clause.
fn unit_literals(w: &Working) -> (queue: Vec<Lit>)
    requires
        w.wf(),
    ensures
        forall|q: Lit| #[trigger]
            queue@.contains(q) <==> exists|i: int| #[trigger] is_live(w.slots(), i) && w.slots()[i]->0 =~= seq![q],
{
    let ghost s = w.slots();
    let mut queue: Vec<Lit> = Vec::new();
    let n: usize = w.num_slots();
    for k in 0..n
        invariant
            s == w.slots(),
            n == s.len(),
            forall|q: Lit| #[trigger]
                queue@.contains(q) <==> exists|i: int| #[trigger] is_live(s, i) && i < k && s[i]->0 =~= seq![q],
    {
        let ghost before = queue@;
        if let Some(c) = w.clause(k) {
            if c.len() == 1 {
                proof {
                    lemma_push_contains(before, c@[0]);
                    assert(is_live(s, k as int) && s[k as int]->0 =~= seq![c@[0]]);
                }
                queue.push(c[0]);
            }
        }
        proof {
            assert forall|q: Lit| #[trigger]
                queue@.contains(q) <==> exists|i: int| #[trigger] is_live(s, i) && i < k + 1 && s[i]->0 =~= seq![q] by {
                if queue@.contains(q) {
                    if before.contains(q) {
                        let i = choose|i: int| #[trigger] is_live(s, i) && i < k && s[i]->0 =~= seq![q];
                        assert(is_live(s, i) && i < k + 1 && s[i]->0 =~= seq![q]);
                    } else {
                        assert(is_live(s, k as int) && s[k as int]->0 =~= seq![q]);
                    }
                }
                if exists|i: int| #[trigger] is_live(s, i) && i < k + 1 && s[i]->0 =~= seq![q] {
                    let i = choose|i: int| #[trigger] is_live(s, i) && i < k + 1 && s[i]->0 =~= seq![q];
                    if i < k {
                        assert(is_live(s, i) && i < k && s[i]->0 =~= seq![q]);
                        assert(before.contains(q));
                    } else {
                        assert(s[k as int]->0[0] == q);
                    }
                }
            }
        }
    }
    queue
}

} // verus!
