//! Elimination of a variable: its clauses give way to their resolvents.

use vstd::prelude::*;
use crate::lit::{lemma_mk_lit, mk_lit, Lit, Var};
use crate::semantics::{clause_below, clause_true, formula_below, formula_true, lit_true, normal_clause, tautology, valuation, lemma_clause_true_by, lemma_tautology_true, Valuation};
use crate::sorting::{lemma_concat_contains, lemma_push_contains};
use super::reconstruction::{nested, replay, replayable, simplifies, slots_sat, step_below, undo, undoable, Reconstruction, Undo};
use super::resolution::{lemma_resolvent, lemma_resolvent_below, lemma_resolvent_is_implied, clashes, resolve_normal, resolvent};
use super::units::{cleared, lemma_cleared_none, lemma_cleared_push};
use super::working::{copy_of, holds, is_live, lemma_occ_of, live_count, occ_of, occurs, slots_normal, slots_of, slots_true, Slots, Working};

verus! {

/// The resolvents of clause `p` with the clauses in the slots `ns`, but for tautologies.
pub open spec fn resolvent_row(s: Slots, p: int, ns: Seq<usize>, v: int) -> Seq<Seq<Lit>>
    decreases ns.len(),
{
    if ns.len() == 0 {
        Seq::empty()
    } else {
        let row = resolvent_row(s, p, ns.drop_last(), v);
        let r = resolvent(s[p]->0, s[ns.last() as int]->0, v);
        if tautology(r) {
            row
        } else {
            row.push(r)
        }
    }
}

/// The resolvents of the clauses in the slots `ps` with those in `ns`, but for tautologies.
pub open spec fn resolvent_rows(s: Slots, ps: Seq<usize>, ns: Seq<usize>, v: int) -> Seq<Seq<Lit>>
    decreases ps.len(),
{
    if ps.len() == 0 {
        Seq::empty()
    } else {
        resolvent_rows(s, ps.drop_last(), ns, v) + resolvent_row(s, ps.last() as int, ns, v)
    }
}

/// The slots of the clauses with variable `v`: those with the positive literal, then the others.
pub open spec fn slots_on(s: Slots, v: int) -> Seq<usize> {
    occ_of(s, mk_lit(v, true)) + occ_of(s, mk_lit(v, false))
}

/// The resolvents on `v`, but for tautologies.
pub open spec fn resolvents(s: Slots, v: int) -> Seq<Seq<Lit>> {
    resolvent_rows(s, occ_of(s, mk_lit(v, true)), occ_of(s, mk_lit(v, false)), v)
}

/// The clauses with variable `v`.
pub open spec fn clauses_on(s: Slots, v: int) -> Seq<Seq<Lit>> {
    Seq::new(slots_on(s, v).len(), |k: int| s[slots_on(s, v)[k] as int]->0)
}

/// The slots once `v` is eliminated: its clauses are gone, and its resolvents stand at the end.
pub open spec fn eliminated(s: Slots, v: int) -> Slots {
    cleared(s, slots_on(s, v)) + slots_of(resolvents(s, v))
}

/// A resolvent of a clause in `ps` and one in `ns` that is no tautology.
pub open spec fn resolvent_at(s: Slots, ps: Seq<usize>, ns: Seq<usize>, v: int, i: int, j: int, r: Seq<Lit>) -> bool {
    &&& 0 <= i < ps.len()
    &&& 0 <= j < ns.len()
    &&& r == resolvent(s[ps[i] as int]->0, s[ns[j] as int]->0, v)
    &&& !tautology(r)
}

proof fn lemma_row(s: Slots, p: usize, ns: Seq<usize>, v: int)
    ensures
        forall|r: Seq<Lit>| #[trigger]
            resolvent_row(s, p as int, ns, v).contains(r) <==> exists|j: int| #[trigger]
                resolvent_at(s, seq![p], ns, v, 0, j, r),
    decreases ns.len(),
{
    if ns.len() > 0 {
        let q = ns.drop_last();
        lemma_row(s, p, q, v);
        let x = resolvent(s[p as int]->0, s[ns.last() as int]->0, v);
        lemma_push_contains(resolvent_row(s, p as int, q, v), x);
        assert forall|r: Seq<Lit>| #[trigger]
            resolvent_row(s, p as int, ns, v).contains(r) <==> exists|j: int| #[trigger]
                resolvent_at(s, seq![p], ns, v, 0, j, r) by {
            if resolvent_row(s, p as int, ns, v).contains(r) {
                if resolvent_row(s, p as int, q, v).contains(r) {
                    let j = choose|j: int| #[trigger] resolvent_at(s, seq![p], q, v, 0, j, r);
                    assert(resolvent_at(s, seq![p], ns, v, 0, j, r));
                } else {
                    assert(resolvent_at(s, seq![p], ns, v, 0, ns.len() - 1, r));
                }
            }
            if exists|j: int| #[trigger] resolvent_at(s, seq![p], ns, v, 0, j, r) {
                let j = choose|j: int| #[trigger] resolvent_at(s, seq![p], ns, v, 0, j, r);
                if j < q.len() {
                    assert(resolvent_at(s, seq![p], q, v, 0, j, r));
                }
            }
        }
    }
}

/// The list of resolvents holds exactly the resolvents that are no tautologies.
pub proof fn lemma_rows(s: Slots, ps: Seq<usize>, ns: Seq<usize>, v: int)
    ensures
        forall|r: Seq<Lit>| #[trigger]
            resolvent_rows(s, ps, ns, v).contains(r) <==> exists|i: int, j: int| #[trigger]
                resolvent_at(s, ps, ns, v, i, j, r),
    decreases ps.len(),
{
    if ps.len() > 0 {
        let q = ps.drop_last();
        let p = ps.last();
        lemma_rows(s, q, ns, v);
        lemma_row(s, p, ns, v);
        lemma_concat_contains(resolvent_rows(s, q, ns, v), resolvent_row(s, p as int, ns, v));
        assert forall|r: Seq<Lit>| #[trigger]
            resolvent_rows(s, ps, ns, v).contains(r) <==> exists|i: int, j: int| #[trigger]
                resolvent_at(s, ps, ns, v, i, j, r) by {
            if resolvent_rows(s, ps, ns, v).contains(r) {
                if resolvent_rows(s, q, ns, v).contains(r) {
                    let (i, j) = choose|i: int, j: int| #[trigger] resolvent_at(s, q, ns, v, i, j, r);
                    assert(resolvent_at(s, ps, ns, v, i, j, r));
                } else {
                    let j = choose|j: int| #[trigger] resolvent_at(s, seq![p], ns, v, 0, j, r);
                    assert(resolvent_at(s, ps, ns, v, ps.len() - 1, j, r));
                }
            }
            if exists|i: int, j: int| #[trigger] resolvent_at(s, ps, ns, v, i, j, r) {
                let (i, j) = choose|i: int, j: int| #[trigger] resolvent_at(s, ps, ns, v, i, j, r);
                if i < q.len() {
                    assert(resolvent_at(s, q, ns, v, i, j, r));
                } else {
                    assert(resolvent_at(s, seq![p], ns, v, 0, j, r));
                }
            }
        }
    } else {
        assert forall|r: Seq<Lit>| !#[trigger] resolvent_rows(s, ps, ns, v).contains(r) by {}
    }
}

/// The clauses that go are those with the variable.
pub proof fn lemma_slots_on(s: Slots, v: int)
    requires
        s.len() <= usize::MAX,
        0 <= v <= Var::MAX_INDEX,
    ensures
        forall|i: usize| #[trigger]
            slots_on(s, v).contains(i) <==> holds(s, i as int, mk_lit(v, true)) || holds(
                s,
                i as int,
                mk_lit(v, false),
            ),
{
    lemma_occ_of(s, mk_lit(v, true));
    lemma_occ_of(s, mk_lit(v, false));
    lemma_concat_contains(occ_of(s, mk_lit(v, true)), occ_of(s, mk_lit(v, false)));
}

/// A literal over `v` is one of its two literals.
proof fn lemma_literal_of(l: Lit, v: int)
    requires
        0 <= v <= Var::MAX_INDEX,
    ensures
        l.vi() == v <==> l == mk_lit(v, true) || l == mk_lit(v, false),
        mk_lit(v, true).vi() == v && mk_lit(v, false).vi() == v,
        mk_lit(v, true).pos() && !mk_lit(v, false).pos(),
{
    lemma_mk_lit(l);
}

/// A normal clause does not hold a literal and its complement.
proof fn lemma_normal_one_side(c: Seq<Lit>, l: Lit)
    requires
        normal_clause(c),
        c.contains(l),
    ensures
        !c.contains(l.neg()),
{
    if c.contains(l.neg()) {
        let i = choose|i: int| 0 <= i < c.len() && c[i] == l.neg();
        let j = choose|j: int| 0 <= j < c.len() && c[j] == l;
        assert(c[i] == c[j].neg());
    }
}

/// The resolvents stand in normal form, over the variables of the formula but `v`.
pub proof fn lemma_resolvents_normal(s: Slots, v: int, n: int)
    requires
        slots_normal(s, n),
        s.len() <= usize::MAX,
        0 <= v <= Var::MAX_INDEX,
    ensures
        forall|k: int|
            0 <= k < resolvents(s, v).len() ==> normal_clause(#[trigger] resolvents(s, v)[k]) && clause_below(
                resolvents(s, v)[k],
                n,
            ),
        forall|k: int, l: Lit|
            0 <= k < resolvents(s, v).len() && #[trigger] resolvents(s, v)[k].contains(l) ==> l.vi() != v
                && occurs(s, l),
{
    let ps = occ_of(s, mk_lit(v, true));
    let ns = occ_of(s, mk_lit(v, false));
    lemma_rows(s, ps, ns, v);
    lemma_occ_of(s, mk_lit(v, true));
    lemma_occ_of(s, mk_lit(v, false));
    assert forall|k: int| 0 <= k < resolvents(s, v).len() implies normal_clause(#[trigger] resolvents(s, v)[k])
        && clause_below(resolvents(s, v)[k], n) && (forall|l: Lit| #[trigger]
        resolvents(s, v)[k].contains(l) ==> l.vi() != v && occurs(s, l)) by {
        let r = resolvents(s, v)[k];
        assert(resolvent_rows(s, ps, ns, v).contains(r));
        let (i, j) = choose|i: int, j: int| #[trigger] resolvent_at(s, ps, ns, v, i, j, r);
        assert(ps.contains(ps[i]));
        assert(ns.contains(ns[j]));
        assert(is_live(s, ps[i] as int) && is_live(s, ns[j] as int));
        let a = s[ps[i] as int]->0;
        let b = s[ns[j] as int]->0;
        lemma_resolvent(a, b, v);
        lemma_resolvent_below(a, b, v, n);
        assert forall|l: Lit| #[trigger] r.contains(l) implies l.vi() != v && occurs(s, l) by {
            if a.contains(l) {
                assert(holds(s, ps[i] as int, l));
            } else {
                assert(holds(s, ns[j] as int, l));
            }
        }
    }
}

/// Elimination leaves the slots normal, removes the variable and brings no other in.
pub proof fn lemma_eliminated(s: Slots, v: int, n: int)
    requires
        slots_normal(s, n),
        s.len() <= usize::MAX,
        0 <= v <= Var::MAX_INDEX,
    ensures
        slots_normal(eliminated(s, v), n),
        forall|l: Lit| #[trigger] occurs(eliminated(s, v), l) ==> l.vi() != v && occurs(s, l),
{
    let t = eliminated(s, v);
    lemma_resolvents_normal(s, v, n);
    lemma_slots_on(s, v);
    assert forall|i: int| #[trigger] is_live(t, i) implies normal_clause(t[i]->0) && clause_below(t[i]->0, n) && (
    forall|l: Lit| #[trigger] t[i]->0.contains(l) ==> l.vi() != v && occurs(s, l)) by {
        if i < s.len() {
            assert(t[i] == cleared(s, slots_on(s, v))[i]);
            assert(is_live(s, i));
            assert forall|l: Lit| #[trigger] t[i]->0.contains(l) implies l.vi() != v && occurs(s, l) by {
                lemma_literal_of(l, v);
                assert(holds(s, i, l));
                assert(!slots_on(s, v).contains(i as usize));
            }
        } else {
            assert(t[i]->0 == resolvents(s, v)[i - s.len()]);
        }
    }
    assert forall|l: Lit| #[trigger] occurs(t, l) implies l.vi() != v && occurs(s, l) by {
        let i = choose|i: int| #[trigger] holds(t, i, l);
        assert(is_live(t, i));
        assert(t[i]->0.contains(l));
    }
}

/// A clause over variables other than `v` does not depend on the value of `v`.
proof fn lemma_value_irrelevant(c: Seq<Lit>, m: Seq<bool>, v: int, b: bool)
    requires
        0 <= v < m.len(),
        forall|l: Lit| #[trigger] c.contains(l) ==> l.vi() != v,
        clause_true(valuation(m), c),
    ensures
        clause_true(valuation(m.update(v, b)), c),
{
    let q = choose|q: int| 0 <= q < c.len() && lit_true(valuation(m), #[trigger] c[q]);
    assert(c.contains(c[q]));
    assert(lit_true(valuation(m.update(v, b)), c[q]));
}

/// The resolvent of two clauses of the formula on `v` holds in every model of what elimination
/// leaves.
proof fn lemma_resolvent_holds(s: Slots, v: int, m: Valuation, p: int, q: int)
    requires
        s.len() <= usize::MAX,
        slots_true(m, eliminated(s, v)),
        holds(s, p, mk_lit(v, true)),
        holds(s, q, mk_lit(v, false)),
    ensures
        clause_true(m, resolvent(s[p]->0, s[q]->0, v)),
{
    let ps = occ_of(s, mk_lit(v, true));
    let ns = occ_of(s, mk_lit(v, false));
    lemma_occ_of(s, mk_lit(v, true));
    lemma_occ_of(s, mk_lit(v, false));
    lemma_rows(s, ps, ns, v);
    let r = resolvent(s[p]->0, s[q]->0, v);
    if tautology(r) {
        lemma_tautology_true(m, r);
    } else {
        assert(ps.contains(p as usize));
        assert(ns.contains(q as usize));
        let i = choose|i: int| 0 <= i < ps.len() && ps[i] == p as usize;
        let j = choose|j: int| 0 <= j < ns.len() && ns[j] == q as usize;
        assert(resolvent_at(s, ps, ns, v, i, j, r));
        assert(resolvents(s, v).contains(r));
        let k = choose|k: int| 0 <= k < resolvents(s, v).len() && resolvents(s, v)[k] == r;
        let t = eliminated(s, v);
        assert(t[s.len() + k] == Some(r));
        assert(is_live(t, (s.len() + k) as int));
    }
}

/// Where making `v` false leaves a clause with `v` false, making it true satisfies them all.
proof fn lemma_true_works(s: Slots, v: int, n: int, m: Seq<bool>, i: int)
    requires
        slots_normal(s, n),
        s.len() <= usize::MAX,
        0 <= v < n,
        v <= Var::MAX_INDEX,
        m.len() == n,
        slots_true(valuation(m), eliminated(s, v)),
        slots_on(s, v).contains(i as usize),
        0 <= i < s.len(),
        exists|k: int| #![trigger is_live(s, k)]
            is_live(s, k) && slots_on(s, v).contains(k as usize) && !clause_true(
                valuation(m.update(v, false)),
                s[k]->0,
            ),
    ensures
        clause_true(valuation(m.update(v, true)), s[i]->0),
{
    lemma_slots_on(s, v);
    let pos = mk_lit(v, true);
    let neg = mk_lit(v, false);
    lemma_literal_of(pos, v);
    let m0 = valuation(m.update(v, false));
    let m1 = valuation(m.update(v, true));
    let k = choose|k: int| #![trigger is_live(s, k)]
        is_live(s, k) && slots_on(s, v).contains(k as usize) && !clause_true(m0, s[k]->0);
    let c = s[k]->0;
    let d = s[i]->0;
    assert(holds(s, k, pos) || holds(s, k, neg));
    if c.contains(neg) {
        assert(lit_true(m0, neg));
        lemma_clause_true_by(m0, c, neg);
    }
    assert(holds(s, k, pos));
    assert(holds(s, i, pos) || holds(s, i, neg));
    if d.contains(pos) {
        assert(lit_true(m1, pos));
        lemma_clause_true_by(m1, d, pos);
    } else {
        assert(holds(s, i, neg));
        lemma_resolvent_holds(s, v, valuation(m), k, i);
        let r = resolvent(c, d, v);
        lemma_resolvent(c, d, v);
        let q = choose|q: int| 0 <= q < r.len() && lit_true(valuation(m), #[trigger] r[q]);
        let x = r[q];
        assert(r.contains(x));
        assert(lit_true(m0, x) && lit_true(m1, x));
        if c.contains(x) {
            lemma_clause_true_by(m0, c, x);
        }
        lemma_clause_true_by(m1, d, x);
    }
}

/// A model of what elimination leaves replays to a model of the formula.
proof fn lemma_elimination_lifts(s: Slots, v: int, n: int, m: Seq<bool>)
    requires
        slots_normal(s, n),
        s.len() <= usize::MAX,
        0 <= v < n,
        v <= Var::MAX_INDEX,
        m.len() == n,
        slots_true(valuation(m), eliminated(s, v)),
    ensures
        undoable(Undo::Eliminated(v, clauses_on(s, v)), m),
        slots_true(valuation(undo(Undo::Eliminated(v, clauses_on(s, v)), m)), s),
{
    lemma_slots_on(s, v);
    let list = slots_on(s, v);
    let cs = clauses_on(s, v);
    let t = eliminated(s, v);
    let m2 = undo(Undo::Eliminated(v, cs), m);
    assert forall|k: int| 0 <= k < cs.len() implies is_live(s, list[k] as int) && #[trigger] cs[k]
        == s[list[k] as int]->0 && list.contains(list[k]) by {
        assert(list.contains(list[k]));
        assert(holds(s, list[k] as int, mk_lit(v, true)) || holds(s, list[k] as int, mk_lit(v, false)));
    }
    if !formula_true(valuation(m.update(v, false)), cs) {
        let k0 = choose|k: int| 0 <= k < cs.len() && !clause_true(valuation(m.update(v, false)), #[trigger] cs[k]);
        assert(is_live(s, list[k0] as int));
        assert forall|k: int| 0 <= k < cs.len() implies clause_true(valuation(m2), #[trigger] cs[k]) by {
            assert(list.contains(list[k]));
            assert(holds(s, list[k] as int, mk_lit(v, true)) || holds(s, list[k] as int, mk_lit(v, false)));
            lemma_true_works(s, v, n, m, list[k] as int);
        }
    }
    assert(formula_true(valuation(m2), cs));
    assert forall|i: int| #[trigger] is_live(s, i) implies clause_true(valuation(m2), s[i]->0) by {
        if list.contains(i as usize) {
            let k = choose|k: int| 0 <= k < list.len() && list[k] == i as usize;
            assert(clause_true(valuation(m2), cs[k]));
        } else {
            assert(t[i] == s[i]);
            assert(is_live(t, i));
            assert forall|l: Lit| #[trigger] s[i]->0.contains(l) implies l.vi() != v by {
                lemma_literal_of(l, v);
                assert(holds(s, i, l));
            }
            lemma_value_irrelevant(s[i]->0, m, v, false);
            lemma_value_irrelevant(s[i]->0, m, v, true);
        }
    }
}

/// What elimination leaves follows from the formula.
proof fn lemma_elimination_implied(s: Slots, v: int, n: int, m: Valuation)
    requires
        slots_normal(s, n),
        s.len() <= usize::MAX,
        0 <= v <= Var::MAX_INDEX,
        slots_true(m, s),
    ensures
        slots_true(m, eliminated(s, v)),
{
    let t = eliminated(s, v);
    let ps = occ_of(s, mk_lit(v, true));
    let ns = occ_of(s, mk_lit(v, false));
    lemma_occ_of(s, mk_lit(v, true));
    lemma_occ_of(s, mk_lit(v, false));
    lemma_rows(s, ps, ns, v);
    assert forall|i: int| #[trigger] is_live(t, i) implies clause_true(m, t[i]->0) by {
        if i < s.len() {
            assert(is_live(s, i));
            assert(t[i] == s[i]);
        } else {
            let r = resolvents(s, v)[i - s.len()];
            assert(resolvents(s, v).contains(r));
            let (x, y) = choose|x: int, y: int| #[trigger] resolvent_at(s, ps, ns, v, x, y, r);
            assert(ps.contains(ps[x]) && ns.contains(ns[y]));
            let a = s[ps[x] as int]->0;
            let b = s[ns[y] as int]->0;
            assert(is_live(s, ps[x] as int) && is_live(s, ns[y] as int));
            lemma_normal_one_side(a, mk_lit(v, true));
            lemma_normal_one_side(b, mk_lit(v, false));
            lemma_literal_of(mk_lit(v, true), v);
            assert forall|l: Lit| a.contains(l) && l.vi() == v implies #[trigger] l.pos() by {
                lemma_literal_of(l, v);
            }
            assert forall|l: Lit| b.contains(l) && l.vi() == v implies !#[trigger] l.pos() by {
                lemma_literal_of(l, v);
            }
            lemma_resolvent_is_implied(m, a, b, v);
        }
    }
}

/// Eliminating a variable loses nothing: a model of the resolvents extends to the variable, and
/// they are satisfiable where the clauses they replace are.
pub proof fn lemma_elimination_simplifies(s: Slots, v: int, n: int)
    requires
        slots_normal(s, n),
        s.len() <= usize::MAX,
        0 <= v < n,
        v <= Var::MAX_INDEX,
    ensures
        simplifies(s, seq![Undo::Eliminated(v, clauses_on(s, v))], eliminated(s, v), n),
{
    let step = Undo::Eliminated(v, clauses_on(s, v));
    let steps = seq![step];
    let t = eliminated(s, v);
    lemma_slots_on(s, v);
    assert(formula_below(clauses_on(s, v), n)) by {
        assert forall|k: int| 0 <= k < clauses_on(s, v).len() implies clause_below(#[trigger] clauses_on(s, v)[k], n) by {
            let i = slots_on(s, v)[k];
            assert(slots_on(s, v).contains(i));
            assert(is_live(s, i as int));
        }
    }
    assert(step_below(step, n));
    assert forall|m: Seq<bool>| m.len() == n && #[trigger] slots_true(valuation(m), t) implies replayable(
        steps,
        m,
    ) && slots_true(valuation(replay(steps, m)), s) by {
        lemma_elimination_lifts(s, v, n, m);
        let m1 = undo(step, m);
        assert(steps.drop_last() =~= Seq::<Undo>::empty());
        assert(replay(steps.drop_last(), m1) == m1 && replayable(steps.drop_last(), m1));
    }
    if slots_sat(s) {
        let m = choose|m: Valuation| slots_true(m, s);
        lemma_elimination_implied(s, v, n, m);
    }
}

/// The resolvents of two lists of clauses, but for tautologies, in order.
fn resolve_all(w: &Working, positives: &Vec<usize>, negatives: &Vec<usize>, var: Var) -> (out: Vec<Vec<Lit>>)
    requires
        w.wf(),
        forall|i: int| 0 <= i < positives@.len() ==> is_live(w.slots(), #[trigger] positives@[i] as int),
        forall|i: int| 0 <= i < negatives@.len() ==> is_live(w.slots(), #[trigger] negatives@[i] as int),
    ensures
        nested(out@) == resolvent_rows(w.slots(), positives@, negatives@, var.vi()),
{
    let ghost s = w.slots();
    let mut out: Vec<Vec<Lit>> = Vec::new();
    assert(positives@.take(0).len() == 0);
    assert(nested(out@) =~= resolvent_rows(s, positives@.take(0), negatives@, var.vi()));
    for i in 0..positives.len()
        invariant
            w.wf(),
            s == w.slots(),
            forall|k: int| 0 <= k < positives@.len() ==> is_live(s, #[trigger] positives@[k] as int),
            forall|k: int| 0 <= k < negatives@.len() ==> is_live(s, #[trigger] negatives@[k] as int),
            nested(out@) == resolvent_rows(s, positives@.take(i as int), negatives@, var.vi()),
    {
        let p: usize = positives[i];
        let ghost before = nested(out@);
        proof {
            w.lemma_wf();
            assert(is_live(s, positives@[i as int] as int));
        }
        let a: &[Lit] = match w.clause(p) {
            Some(c) => c,
            None => &[],
        };
        assert(negatives@.take(0).len() == 0);
        assert(nested(out@) =~= before + resolvent_row(s, p as int, negatives@.take(0), var.vi()));
        for j in 0..negatives.len()
            invariant
                w.wf(),
                s == w.slots(),
                is_live(s, p as int),
                a@ == s[p as int]->0,
                slots_normal(s, w.nv()),
                forall|k: int| 0 <= k < negatives@.len() ==> is_live(s, #[trigger] negatives@[k] as int),
                nested(out@) == before + resolvent_row(s, p as int, negatives@.take(j as int), var.vi()),
        {
            let q: usize = negatives[j];
            let ghost mid = out@;
            proof {
                assert(is_live(s, negatives@[j as int] as int));
                assert(negatives@.take(j + 1).drop_last() =~= negatives@.take(j as int));
                assert(negatives@.take(j + 1).last() == q);
            }
            let b: &[Lit] = match w.clause(q) {
                Some(c) => c,
                None => &[],
            };
            if let Some(r) = resolve_normal(a, b, var) {
                let ghost lits = r@;
                out.push(r);
                assert(nested(out@) =~= nested(mid).push(lits));
            }
            assert(nested(out@) =~= before + resolvent_row(s, p as int, negatives@.take(j + 1), var.vi()));
        }
        proof {
            assert(negatives@.take(negatives@.len() as int) =~= negatives@);
            assert(positives@.take(i + 1).drop_last() =~= positives@.take(i as int));
            assert(positives@.take(i + 1).last() == p);
        }
    }
    assert(positives@.take(positives@.len() as int) =~= positives@);
    out
}

/// The slots that hold a literal are in use.
proof fn lemma_occ_live(s: Slots, l: Lit)
    requires
        s.len() <= usize::MAX,
    ensures
        forall|i: int| 0 <= i < occ_of(s, l).len() ==> is_live(s, #[trigger] occ_of(s, l)[i] as int),
{
    lemma_occ_of(s, l);
    assert forall|i: int| 0 <= i < occ_of(s, l).len() implies is_live(s, #[trigger] occ_of(s, l)[i] as int) by {
        assert(occ_of(s, l).contains(occ_of(s, l)[i]));
        assert(holds(s, occ_of(s, l)[i] as int, l));
    }
}

/// No slot is listed twice among those with a variable.
proof fn lemma_slots_on_distinct(s: Slots, v: int, n: int)
    requires
        slots_normal(s, n),
        s.len() <= usize::MAX,
        0 <= v <= Var::MAX_INDEX,
    ensures
        slots_on(s, v).no_duplicates(),
{
    let a = occ_of(s, mk_lit(v, true));
    let b = occ_of(s, mk_lit(v, false));
    lemma_occ_of(s, mk_lit(v, true));
    lemma_occ_of(s, mk_lit(v, false));
    let list = slots_on(s, v);
    assert forall|i: int, j: int| 0 <= i < list.len() && 0 <= j < list.len() && i != j implies list[i] != list[j] by {
        if i < a.len() && j < a.len() {
            assert(a[i] < a[j] || a[j] < a[i]);
        } else if i >= a.len() && j >= a.len() {
            assert(b[i - a.len()] < b[j - a.len()] || b[j - a.len()] < b[i - a.len()]);
        } else {
            let x = if i < a.len() { i } else { j };
            let y = if i < a.len() { j } else { i };
            assert(a.contains(a[x]));
            assert(b.contains(b[y - a.len()]));
            if list[i] == list[j] {
                let k = a[x] as int;
                assert(holds(s, k, mk_lit(v, true)) && holds(s, k, mk_lit(v, false)));
                assert(is_live(s, k));
                lemma_normal_one_side(s[k]->0, mk_lit(v, true));
                assert(mk_lit(v, true).neg() == mk_lit(v, false));
            }
        }
    }
}

/// Eliminates `var` by resolution, unconditionally.
///
/// Every clause containing the variable is replaced by the non-tautological resolvents. Returns
/// the number of resolvents added.
pub fn eliminate_var(w: &mut Working, var: Var, trail: &mut Reconstruction) -> (added: usize)
    requires
        old(w).wf(),
        var.vi() < old(w).nv(),
    ensures
        final(w).wf(),
        final(w).nv() == old(w).nv(),
        final(w).slots() == eliminated(old(w).slots(), var.vi()),
        final(trail)@ == old(trail)@.push(
            Undo::Eliminated(var.vi(), clauses_on(old(w).slots(), var.vi())),
        ),
        added == resolvents(old(w).slots(), var.vi()).len(),
        live_count(final(w).slots()) == live_count(old(w).slots()) - slots_on(
            old(w).slots(),
            var.vi(),
        ).len() + added,
{
    let ghost s = w.slots();
    let ghost n = w.nv();
    let ghost v = var.vi();
    proof {
        w.lemma_wf();
        lemma_occ_live(s, mk_lit(v, true));
        lemma_occ_live(s, mk_lit(v, false));
        lemma_slots_on(s, v);
        lemma_slots_on_distinct(s, v, n);
        lemma_resolvents_normal(s, v, n);
    }
    let positives = w.occurrences(var.positive());
    let negatives = w.occurrences(var.negative());
    let ghost news = resolvents(s, v);
    let added: usize = add_resolvents(w, &positives, &negatives, var);
    let ghost full = s + slots_of(news);
    let list = concat(&positives, &negatives);
    let mut removed: Vec<Vec<Lit>> = Vec::new();
    proof {
        w.lemma_wf();
        lemma_cleared_none(full, list@);
        assert(nested(removed@) =~= clauses_on(s, v).take(0));
    }
    for k in 0..list.len()
        invariant
            w.wf(),
            w.nv() == n,
            full == s + slots_of(news),
            full.len() <= usize::MAX,
            list@ == slots_on(s, v),
            list@.no_duplicates(),
            forall|i: usize| #[trigger]
                slots_on(s, v).contains(i) <==> holds(s, i as int, mk_lit(v, true)) || holds(
                    s,
                    i as int,
                    mk_lit(v, false),
                ),
            w.slots() == cleared(full, list@.take(k as int)),
            live_count(w.slots()) == live_count(full) - k,
            nested(removed@) == clauses_on(s, v).take(k as int),
    {
        let c: usize = list[k];
        proof {
            assert(slots_on(s, v).contains(c));
            assert(is_live(s, c as int));
            assert(!list@.take(k as int).contains(c)) by {
                if list@.take(k as int).contains(c) {
                    let q = choose|q: int| 0 <= q < k && list@.take(k as int)[q] == c;
                    assert(list@[q] == list@[k as int]);
                }
            }
            assert(full[c as int] == s[c as int]);
            assert(w.slots()[c as int] == s[c as int]);
            lemma_cleared_push(full, list@, k as int);
        }
        let ghost before = removed@;
        if let Some(lits) = w.clause(c) {
            removed.push(copy_of(lits));
        }
        proof {
            assert(nested(removed@) =~= nested(before).push(s[c as int]->0));
            assert(clauses_on(s, v)[k as int] == s[c as int]->0);
            assert(nested(removed@) =~= clauses_on(s, v).take(k + 1));
        }
        w.remove(c);
    }
    proof {
        assert(list@.take(list@.len() as int) =~= list@);
        assert(clauses_on(s, v).take(list@.len() as int) =~= clauses_on(s, v));
        assert forall|i: usize| #[trigger] list@.contains(i) implies i < s.len() by {
            assert(holds(s, i as int, mk_lit(v, true)) || holds(s, i as int, mk_lit(v, false)));
        }
        assert(cleared(full, list@) =~= eliminated(s, v));
    }
    trail.eliminate(var, removed);
    added
}

/// Adds the resolvents of two lists of clauses, but for tautologies, in order.
fn add_resolvents(w: &mut Working, positives: &Vec<usize>, negatives: &Vec<usize>, var: Var) -> (added: usize)
    requires
        old(w).wf(),
        var.vi() < old(w).nv(),
        positives@ == occ_of(old(w).slots(), mk_lit(var.vi(), true)),
        negatives@ == occ_of(old(w).slots(), mk_lit(var.vi(), false)),
    ensures
        final(w).wf(),
        final(w).nv() == old(w).nv(),
        final(w).slots() == old(w).slots() + slots_of(resolvents(old(w).slots(), var.vi())),
        added == resolvents(old(w).slots(), var.vi()).len(),
        live_count(final(w).slots()) == live_count(old(w).slots()) + added,
{
    let ghost s = w.slots();
    let ghost n = w.nv();
    let ghost v = var.vi();
    let start: usize = w.num_slots();
    proof {
        w.lemma_wf();
        lemma_occ_live(s, mk_lit(v, true));
        lemma_occ_live(s, mk_lit(v, false));
        assert(positives@.take(0).len() == 0);
        assert(s + slots_of(Seq::<Seq<Lit>>::empty()) =~= s);
    }
    for i in 0..positives.len()
        invariant
            w.wf(),
            w.nv() == n,
            slots_normal(s, n),
            forall|k: int| 0 <= k < positives@.len() ==> is_live(s, #[trigger] positives@[k] as int),
            forall|k: int| 0 <= k < negatives@.len() ==> is_live(s, #[trigger] negatives@[k] as int),
            w.slots() == s + slots_of(resolvent_rows(s, positives@.take(i as int), negatives@, v)),
            live_count(w.slots()) == live_count(s) + resolvent_rows(
                s,
                positives@.take(i as int),
                negatives@,
                v,
            ).len(),
            v == var.vi(),
    {
        let p: usize = positives[i];
        let ghost before = resolvent_rows(s, positives@.take(i as int), negatives@, v);
        proof {
            assert(is_live(s, positives@[i as int] as int));
            assert(negatives@.take(0).len() == 0);
            assert(before + resolvent_row(s, p as int, negatives@.take(0), v) =~= before);
        }
        for j in 0..negatives.len()
            invariant
                w.wf(),
                w.nv() == n,
                slots_normal(s, n),
                is_live(s, p as int),
                forall|k: int| 0 <= k < negatives@.len() ==> is_live(s, #[trigger] negatives@[k] as int),
                w.slots() == s + slots_of(before + resolvent_row(s, p as int, negatives@.take(j as int), v)),
                live_count(w.slots()) == live_count(s) + (before + resolvent_row(
                    s,
                    p as int,
                    negatives@.take(j as int),
                    v,
                )).len(),
                v == var.vi(),
        {
            let q: usize = negatives[j];
            let ghost done = before + resolvent_row(s, p as int, negatives@.take(j as int), v);
            proof {
                assert(is_live(s, negatives@[j as int] as int));
                assert(negatives@.take(j + 1).drop_last() =~= negatives@.take(j as int));
                assert(negatives@.take(j + 1).last() == q);
                assert(w.slots()[p as int] == s[p as int] && w.slots()[q as int] == s[q as int]);
                assert(is_live(w.slots(), p as int) && is_live(w.slots(), q as int));
            }
            let r = match (w.clause(p), w.clause(q)) {
                (Some(a), Some(b)) => resolve_normal(a, b, var),
                _ => None,
            };
            if let Some(c) = r {
                let ghost old_slots = w.slots();
                let ghost lits = c@;
                proof {
                    lemma_resolvent(s[p as int]->0, s[q as int]->0, v);
                    lemma_resolvent_below(s[p as int]->0, s[q as int]->0, v, n);
                }
                w.add(c);
                proof {
                    assert(old_slots.push(Some(lits)).drop_last() =~= old_slots);
                    assert(w.slots() =~= s + slots_of(done.push(lits)));
                    assert(done.push(lits) =~= before + resolvent_row(s, p as int, negatives@.take(j + 1), v));
                }
            }
        }
        proof {
            assert(negatives@.take(negatives@.len() as int) =~= negatives@);
            assert(positives@.take(i + 1).drop_last() =~= positives@.take(i as int));
            assert(positives@.take(i + 1).last() == p);
        }
    }
    assert(positives@.take(positives@.len() as int) =~= positives@);
    let end: usize = w.num_slots();
    end - start
}

/// One list after another.
fn concat(a: &Vec<usize>, b: &Vec<usize>) -> (out: Vec<usize>)
    ensures
        out@ == a@ + b@,
{
    let mut out: Vec<usize> = Vec::new();
    for i in 0..a.len()
        invariant
            out@ == a@.take(i as int),
    {
        out.push(a[i]);
        assert(a@.take(i + 1) =~= a@.take(i as int).push(a@[i as int]));
    }
    assert(out@ =~= a@ + b@.take(0));
    for i in 0..b.len()
        invariant
            out@ == a@ + b@.take(i as int),
    {
        out.push(b[i]);
        assert(out@ =~= a@ + b@.take(i + 1));
    }
    assert(b@.take(b@.len() as int) =~= b@);
    out
}

/// Counts the non-tautological resolvents eliminating `var` would produce, without doing it.
///
/// This is the test bounded variable elimination gates on.
pub fn resolvent_count(w: &Working, var: Var) -> (count: usize)
    requires
        w.wf(),
        var.vi() < w.nv(),
    ensures
        count == resolvents(w.slots(), var.vi()).len(),
{
    match counted_resolvents(w, var) {
        Some(n) => n,
        None => all_resolvents(w, var).len(),
    }
}

/// The resolvents of a prefix of the pairs are no more than those of all pairs.
proof fn lemma_rows_bound(s: Slots, ps: Seq<usize>, ns: Seq<usize>, v: int, i: int, j: int)
    requires
        0 <= i < ps.len(),
        0 <= j <= ns.len(),
    ensures
        resolvent_rows(s, ps.take(i), ns, v).len() + resolvent_row(s, ps[i] as int, ns.take(j), v).len()
            <= resolvent_rows(s, ps, ns, v).len(),
    decreases ps.len(), ns.len() - j,
{
    if j < ns.len() {
        assert(ns.take(j + 1).drop_last() =~= ns.take(j));
        lemma_rows_bound(s, ps, ns, v, i, j + 1);
    } else {
        assert(ns.take(j) =~= ns);
        if i + 1 == ps.len() {
            assert(ps.drop_last() =~= ps.take(i));
        } else {
            let p = ps.drop_last();
            lemma_rows_bound(s, p, ns, v, i, j);
            assert(p.take(i) =~= ps.take(i));
        }
    }
}

/// The number of non-tautological resolvents on `var`; `None` where it does not fit.
fn counted_resolvents(w: &Working, var: Var) -> (count: Option<usize>)
    requires
        w.wf(),
        var.vi() < w.nv(),
    ensures
        count is Some <==> resolvents(w.slots(), var.vi()).len() <= usize::MAX,
        count is Some ==> count->0 == resolvents(w.slots(), var.vi()).len(),
{
    let ghost s = w.slots();
    let ghost v = var.vi();
    proof {
        w.lemma_wf();
        lemma_occ_live(s, mk_lit(v, true));
        lemma_occ_live(s, mk_lit(v, false));
    }
    let positives = w.occurrences(var.positive());
    let negatives = w.occurrences(var.negative());
    let mut count: usize = 0;
    assert(positives@.take(0).len() == 0);
    for i in 0..positives.len()
        invariant
            w.wf(),
            s == w.slots(),
            slots_normal(s, w.nv()),
            forall|k: int| 0 <= k < positives@.len() ==> is_live(s, #[trigger] positives@[k] as int),
            forall|k: int| 0 <= k < negatives@.len() ==> is_live(s, #[trigger] negatives@[k] as int),
            count == resolvent_rows(s, positives@.take(i as int), negatives@, v).len(),
            v == var.vi(),
            resolvents(s, v) == resolvent_rows(s, positives@, negatives@, v),
    {
        let p: usize = positives[i];
        let ghost before = count as int;
        assert(is_live(s, positives@[i as int] as int));
        assert(negatives@.take(0).len() == 0);
        let a: &[Lit] = match w.clause(p) {
            Some(c) => c,
            None => &[],
        };
        for j in 0..negatives.len()
            invariant
                w.wf(),
                s == w.slots(),
                slots_normal(s, w.nv()),
                is_live(s, p as int),
                a@ == s[p as int]->0,
                forall|k: int| 0 <= k < negatives@.len() ==> is_live(s, #[trigger] negatives@[k] as int),
                count == before + resolvent_row(s, p as int, negatives@.take(j as int), v).len(),
                v == var.vi(),
                i < positives@.len(),
                p == positives@[i as int],
                before == resolvent_rows(s, positives@.take(i as int), negatives@, v).len(),
                resolvents(s, v) == resolvent_rows(s, positives@, negatives@, v),
        {
            let q: usize = negatives[j];
            proof {
                assert(is_live(s, negatives@[j as int] as int));
                assert(negatives@.take(j + 1).drop_last() =~= negatives@.take(j as int));
                assert(negatives@.take(j + 1).last() == q);
            }
            let b: &[Lit] = match w.clause(q) {
                Some(c) => c,
                None => &[],
            };
            if !clashes(a, b, var) {
                if count == usize::MAX {
                    proof {
                        lemma_rows_bound(s, positives@, negatives@, v, i as int, j + 1);
                    }
                    return None;
                }
                count = count + 1;
            }
        }
        proof {
            assert(negatives@.take(negatives@.len() as int) =~= negatives@);
            assert(positives@.take(i + 1).drop_last() =~= positives@.take(i as int));
            assert(positives@.take(i + 1).last() == p);
        }
    }
    assert(positives@.take(positives@.len() as int) =~= positives@);
    Some(count)
}

/// Appending clauses adds as many.
proof fn lemma_live_count_append(s: Slots, f: Seq<Seq<Lit>>)
    ensures
        live_count(s + slots_of(f)) == live_count(s) + f.len(),
    decreases f.len(),
{
    if f.len() == 0 {
        assert(s + slots_of(f) =~= s);
    } else {
        lemma_live_count_append(s, f.drop_last());
        assert((s + slots_of(f)).drop_last() =~= s + slots_of(f.drop_last()));
    }
}

/// Clearing distinct slots in use takes away as many.
proof fn lemma_live_count_cleared(s: Slots, list: Seq<usize>, k: int)
    requires
        0 <= k <= list.len(),
        s.len() <= usize::MAX,
        list.no_duplicates(),
        forall|i: int| 0 <= i < list.len() ==> is_live(s, #[trigger] list[i] as int),
    ensures
        live_count(cleared(s, list.take(k))) == live_count(s) - k,
    decreases k,
{
    if k == 0 {
        lemma_cleared_none(s, list);
    } else {
        lemma_live_count_cleared(s, list, k - 1);
        let c = list[k - 1];
        assert(is_live(s, list[k - 1] as int));
        let p = list.take(k - 1);
        assert(!p.contains(c)) by {
            if p.contains(c) {
                let q = choose|q: int| 0 <= q < p.len() && p[q] == c;
                assert(list[q] == list[k - 1]);
            }
        }
        lemma_cleared_push(s, list, k - 1);
    }
}

/// Eliminating a variable takes its clauses away and adds its resolvents.
pub proof fn lemma_eliminated_count(s: Slots, v: int, n: int)
    requires
        slots_normal(s, n),
        s.len() <= usize::MAX,
        0 <= v <= Var::MAX_INDEX,
    ensures
        slots_on(s, v).len() <= live_count(s),
        live_count(eliminated(s, v)) == live_count(s) - slots_on(s, v).len() + resolvents(s, v).len(),
{
    let list = slots_on(s, v);
    lemma_slots_on(s, v);
    lemma_slots_on_distinct(s, v, n);
    assert forall|i: int| 0 <= i < list.len() implies is_live(s, #[trigger] list[i] as int) by {
        assert(list.contains(list[i]));
    }
    lemma_live_count_cleared(s, list, list.len() as int);
    assert(list.take(list.len() as int) =~= list);
    lemma_live_count_append(cleared(s, list), resolvents(s, v));
}

/// The non-tautological resolvents on `var`.
pub fn all_resolvents(w: &Working, var: Var) -> (out: Vec<Vec<Lit>>)
    requires
        w.wf(),
        var.vi() < w.nv(),
    ensures
        nested(out@) == resolvents(w.slots(), var.vi()),
        out@.len() == resolvents(w.slots(), var.vi()).len(),
{
    proof {
        w.lemma_wf();
        lemma_occ_live(w.slots(), mk_lit(var.vi(), true));
        lemma_occ_live(w.slots(), mk_lit(var.vi(), false));
    }
    let positives = w.occurrences(var.positive());
    let negatives = w.occurrences(var.negative());
    let out = resolve_all(w, &positives, &negatives, var);
    assert(nested(out@).len() == out@.len());
    out
}

} // verus!
