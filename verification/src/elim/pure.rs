//! Pure literals: those whose complement never occurs.

use vstd::prelude::*;
use crate::lit::{lemma_mk_lit, mk_lit, Lit, Var};
use crate::semantics::{clause_below, clause_true, lit_true, valuation, lemma_clause_true_by, Valuation};
use super::reconstruction::{lemma_simplifications_compose, lemma_simplifies_refl, replay, replayable, simplifies, slots_sat, Reconstruction, Undo};
use super::units::{drop_satisfied, fixes, without};
use super::working::{capped_count, holds, is_live, lemma_occ_of, live_count, occ_of, occurs, slots_normal, slots_true, Slots, Working};

verus! {

/// The literal occurs and its complement does not.
pub open spec fn is_pure(s: Slots, l: Lit) -> bool {
    occurs(s, l) && !occurs(s, l.neg())
}

/// The pure literals over the variables below `n`, in variable order.
pub open spec fn pure_lits(s: Slots, n: int) -> Seq<Lit>
    decreases n,
{
    if n <= 0 {
        Seq::empty()
    } else {
        let p = pure_lits(s, n - 1);
        if is_pure(s, mk_lit(n - 1, true)) {
            p.push(mk_lit(n - 1, true))
        } else if is_pure(s, mk_lit(n - 1, false)) {
            p.push(mk_lit(n - 1, false))
        } else {
            p
        }
    }
}

/// The slots without the clauses that contain any of the literals.
pub open spec fn without_each(s: Slots, u: Seq<Lit>) -> Slots
    decreases u.len(),
{
    if u.len() == 0 {
        s
    } else {
        without(without_each(s, u.drop_last()), u.last())
    }
}

/// The literals that pure literal elimination fixes: those that are pure now, then those that
/// become pure once the clauses of these are gone, and so on.
pub open spec fn pure_rounds(s: Slots, n: int) -> Seq<Lit>
    decreases live_count(s),
{
    let p = pure_lits(s, n);
    let t = without_each(s, p);
    if p.len() == 0 || live_count(t) >= live_count(s) {
        p
    } else {
        p + pure_rounds(t, n)
    }
}

/// What occurs once clauses are gone occurred before.
pub proof fn lemma_without_occurs(s: Slots, u: Seq<Lit>, l: Lit)
    ensures
        occurs(without_each(s, u), l) ==> occurs(s, l),
        without_each(s, u).len() == s.len(),
        forall|i: int| #[trigger]
            is_live(without_each(s, u), i) ==> is_live(s, i) && without_each(s, u)[i] == s[i],
    decreases u.len(),
{
    if u.len() > 0 {
        let t = without_each(s, u.drop_last());
        lemma_without_occurs(s, u.drop_last(), l);
        assert forall|i: int| #[trigger] is_live(without(t, u.last()), i) implies is_live(s, i) && without(
            t,
            u.last(),
        )[i] == s[i] by {
            assert(is_live(t, i));
        }
        if occurs(without(t, u.last()), l) {
            let i = choose|i: int| #[trigger] holds(without(t, u.last()), i, l);
            assert(holds(t, i, l));
        }
    }
}

/// Removing clauses for literals one after another.
pub proof fn lemma_without_concat(s: Slots, a: Seq<Lit>, b: Seq<Lit>)
    ensures
        without_each(s, a + b) == without_each(without_each(s, a), b),
    decreases b.len(),
{
    if b.len() == 0 {
        assert(a + b =~= a);
    } else {
        assert((a + b).drop_last() =~= a + b.drop_last());
        lemma_without_concat(s, a, b.drop_last());
    }
}

/// Each pure literal that is listed is pure, in range, and listed by its variable.
pub proof fn lemma_pure_lits(s: Slots, n: int)
    requires
        n <= Var::MAX_INDEX + 1,
    ensures
        forall|k: int|
            0 <= k < pure_lits(s, n).len() ==> is_pure(s, #[trigger] pure_lits(s, n)[k]) && pure_lits(s, n)[k].vi()
                < n,
        pure_lits(s, n).len() == 0 ==> forall|l: Lit| l.vi() < n ==> !#[trigger] is_pure(s, l),
    decreases n,
{
    if n > 0 {
        lemma_pure_lits(s, n - 1);
        let p = pure_lits(s, n - 1);
        assert forall|k: int| 0 <= k < pure_lits(s, n).len() implies is_pure(s, #[trigger] pure_lits(s, n)[k])
            && pure_lits(s, n)[k].vi() < n by {
            if k < p.len() {
                assert(is_pure(s, p[k]));
            }
        }
        if pure_lits(s, n).len() == 0 {
            assert forall|l: Lit| l.vi() < n implies !#[trigger] is_pure(s, l) by {
                lemma_mk_lit(l);
            }
        }
    }
}

/// Making true a literal whose complement never occurs loses nothing.
pub proof fn lemma_pure_literal_simplifies(s: Slots, l: Lit, n: int)
    requires
        !occurs(s, l.neg()),
        l.vi() < n,
        slots_normal(s, n),
    ensures
        simplifies(s, seq![Undo::Fixed(l)], without(s, l), n),
{
    let t = without(s, l);
    let steps = seq![Undo::Fixed(l)];
    assert forall|m: Seq<bool>| m.len() == n && #[trigger] slots_true(valuation(m), t) implies replayable(
        steps,
        m,
    ) && slots_true(valuation(replay(steps, m)), s) by {
        let m1 = m.update(l.vi(), l.pos());
        assert(steps.drop_last() =~= Seq::<Undo>::empty());
        assert(replay(steps.drop_last(), m1) == m1 && replayable(steps.drop_last(), m1));
        assert(replay(steps, m) == m1);
        assert forall|i: int| #[trigger] is_live(s, i) implies clause_true(valuation(m1), s[i]->0) by {
            let c = s[i]->0;
            if c.contains(l) {
                assert(lit_true(valuation(m1), l));
                lemma_clause_true_by(valuation(m1), c, l);
            } else {
                assert(!holds(s, i, l));
                assert(is_live(t, i));
                let q = choose|q: int| 0 <= q < c.len() && lit_true(valuation(m), #[trigger] c[q]);
                assert(c.contains(c[q]));
                assert(c[q] != l.neg()) by {
                    assert(!holds(s, i, l.neg()));
                }
                assert(c[q].vi() != l.vi());
                assert(lit_true(valuation(m1), c[q]));
            }
        }
    }
    if slots_sat(s) {
        let m = choose|m: Valuation| slots_true(m, s);
        assert forall|i: int| #[trigger] is_live(t, i) implies clause_true(m, t[i]->0) by {
            assert(is_live(s, i));
        }
        assert(slots_true(m, t));
    }
}

/// Making literals true whose complements never occur loses nothing.
pub proof fn lemma_pure_literals_simplify(s: Slots, u: Seq<Lit>, n: int)
    requires
        forall|k: int| 0 <= k < u.len() ==> !occurs(s, (#[trigger] u[k]).neg()) && u[k].vi() < n,
        slots_normal(s, n),
    ensures
        simplifies(s, fixes(u), without_each(s, u), n),
    decreases u.len(),
{
    if u.len() == 0 {
        assert(fixes(u) =~= Seq::<Undo>::empty());
        lemma_simplifies_refl(s, n);
    } else {
        let p = u.drop_last();
        let l = u.last();
        let t = without_each(s, p);
        assert forall|k: int| 0 <= k < p.len() implies !occurs(s, (#[trigger] p[k]).neg()) && p[k].vi() < n by {
            assert(p[k] == u[k]);
        }
        lemma_pure_literals_simplify(s, p, n);
        assert(!occurs(s, u[u.len() - 1].neg()));
        lemma_without_occurs(s, p, l.neg());
        assert(slots_normal(t, n)) by {
            assert forall|i: int| #[trigger] is_live(t, i) implies crate::semantics::normal_clause(t[i]->0)
                && clause_below(t[i]->0, n) by {
                assert(is_live(s, i));
            }
        }
        lemma_pure_literal_simplifies(t, l, n);
        lemma_simplifications_compose(s, fixes(p), t, seq![Undo::Fixed(l)], without(t, l), n);
        assert(fixes(u) =~= fixes(p) + seq![Undo::Fixed(l)]);
    }
}

/// Slots that lose clauses stay normal.
pub proof fn lemma_without_normal(s: Slots, u: Seq<Lit>, n: int)
    requires
        slots_normal(s, n),
    ensures
        slots_normal(without_each(s, u), n),
{
    let t = without_each(s, u);
    lemma_without_occurs(s, u, Lit { code: 0 });
    assert forall|i: int| #[trigger] is_live(t, i) implies crate::semantics::normal_clause(t[i]->0)
        && clause_below(t[i]->0, n) by {
        assert(is_live(s, i));
    }
}

/// Pure literal elimination loses nothing.
pub proof fn lemma_pure_elimination_simplifies(s: Slots, n: int)
    requires
        slots_normal(s, n),
        n <= Var::MAX_INDEX + 1,
    ensures
        simplifies(s, fixes(pure_rounds(s, n)), without_each(s, pure_rounds(s, n)), n),
    decreases live_count(s),
{
    let p = pure_lits(s, n);
    let t = without_each(s, p);
    lemma_pure_lits(s, n);
    lemma_pure_literals_simplify(s, p, n);
    if p.len() == 0 || live_count(t) >= live_count(s) {
    } else {
        lemma_without_normal(s, p, n);
        lemma_pure_elimination_simplifies(t, n);
        let q = pure_rounds(t, n);
        lemma_simplifications_compose(s, fixes(p), t, fixes(q), without_each(t, q), n);
        assert(fixes(p) + fixes(q) =~= fixes(p + q));
        lemma_without_concat(s, p, q);
    }
}

/// Assigns every pure literal.
///
/// Sound for satisfiability — a literal whose complement never occurs can always be set true —
/// but not for model counting. Returns the number of variables fixed.
pub fn eliminate_pure_literals(w: &mut Working, trail: &mut Reconstruction) -> (fixed: usize)
    requires
        old(w).wf(),
    ensures
        final(w).wf(),
        final(w).nv() == old(w).nv(),
        final(trail)@ == old(trail)@ + fixes(pure_rounds(old(w).slots(), old(w).nv())),
        final(w).slots() == without_each(old(w).slots(), pure_rounds(old(w).slots(), old(w).nv())),
        fixed == pure_rounds(old(w).slots(), old(w).nv()).len(),
        live_count(final(w).slots()) <= live_count(old(w).slots()),
        forall|l: Lit| l.vi() < old(w).nv() ==> !#[trigger] is_pure(final(w).slots(), l),
{
    let ghost s = w.slots();
    let ghost n = w.nv();
    let ghost start = trail@;
    let ghost mut done = Seq::<Lit>::empty();
    let before: usize = trail.len();
    proof {
        w.lemma_wf();
        assert(trail@ =~= start + fixes(done));
        assert(done + pure_rounds(s, n) =~= pure_rounds(s, n));
    }
    loop
        invariant
            w.wf(),
            w.nv() == n,
            n == old(w).nv(),
            s == old(w).slots(),
            start == old(trail)@,
            before == start.len(),
            w.slots() == without_each(s, done),
            trail@ == start + fixes(done),
            done + pure_rounds(w.slots(), n) == pure_rounds(s, n),
            live_count(w.slots()) <= live_count(s),
        decreases live_count(w.slots()),
    {
        // One counting pass finds every pure literal at once, and removing them can only create
        // more, so the round repeats until a pass finds none.
        let ghost t = w.slots();
        let found = find_pure(w);
        proof {
            w.lemma_wf();
            lemma_pure_lits(t, n);
        }
        if found.len() == 0 {
            proof {
                assert(done + pure_rounds(t, n) =~= done);
            }
            let after: usize = trail.len();
            return after - before;
        }
        for k in 0..found.len()
            invariant
                w.wf(),
                w.nv() == n,
                found@ == pure_lits(t, n),
                forall|j: int| 0 <= j < found@.len() ==> is_pure(t, #[trigger] found@[j]) && found@[j].vi() < n,
                w.slots() == without_each(t, found@.take(k as int)),
                trail@ == start + fixes(done) + fixes(found@.take(k as int)),
                live_count(w.slots()) <= live_count(t),
                k > 0 ==> live_count(w.slots()) < live_count(t),
        {
            let lit = found[k];
            proof {
                assert(is_pure(t, found@[k as int]));
                assert(found@.take(k + 1).drop_last() =~= found@.take(k as int));
                assert(found@.take(k + 1).last() == lit);
            }
            trail.fix(lit);
            drop_satisfied(w, lit);
            proof {
                assert(trail@ =~= start + fixes(done) + fixes(found@.take(k + 1)));
                if k == 0 {
                    assert(found@.take(0) =~= Seq::<Lit>::empty());
                    assert(occurs(t, lit));
                }
            }
        }
        proof {
            assert(found@.take(found@.len() as int) =~= found@);
            lemma_without_concat(s, done, found@);
            assert(fixes(done) + fixes(found@) =~= fixes(done + found@));
            assert(trail@ =~= start + fixes(done + found@));
            assert(done + (found@ + pure_rounds(w.slots(), n)) =~= (done + found@) + pure_rounds(w.slots(), n));
            done = done + found@;
        }
    }
}

/// The pure literals, in variable order.
fn find_pure(w: &Working) -> (found: Vec<Lit>)
    requires
        w.wf(),
    ensures
        found@ == pure_lits(w.slots(), w.nv()),
{
    let counts = w.literal_counts();
    let mut found: Vec<Lit> = Vec::new();
    let n: usize = w.num_vars();
    proof {
        w.lemma_wf();
        w.lemma_in_order();
    }
    for v in 0..n
        invariant
            w.wf(),
            n == w.nv(),
            n <= Var::MAX_INDEX + 1,
            w.slots().len() <= usize::MAX,
            counts@.len() == 2 * n,
            forall|k: int|
                0 <= k < counts@.len() ==> #[trigger] counts@[k] == capped_count(
                    w.slots(),
                    Lit { code: k as u32 },
                ),
            found@ == pure_lits(w.slots(), v as int),
    {
        let var = Var::from_index(v);
        let p = var.positive();
        let q = var.negative();
        let pos: u32 = counts[p.index()];
        let neg: u32 = counts[q.index()];
        proof {
            assert(p == mk_lit(v as int, true) && q == mk_lit(v as int, false));
            assert(p.neg() == q && q.neg() == p);
            assert(counts@[p.code as int] == capped_count(w.slots(), Lit { code: p.code }));
            assert(counts@[q.code as int] == capped_count(w.slots(), Lit { code: q.code }));
            lemma_count_occurs(w.slots(), p);
            lemma_count_occurs(w.slots(), q);
            assert(pure_lits(w.slots(), v + 1) == ({
                let r = pure_lits(w.slots(), v as int);
                if is_pure(w.slots(), mk_lit(v as int, true)) {
                    r.push(mk_lit(v as int, true))
                } else if is_pure(w.slots(), mk_lit(v as int, false)) {
                    r.push(mk_lit(v as int, false))
                } else {
                    r
                }
            }));
        }
        if pos > 0 && neg == 0 {
            found.push(p);
        } else if neg > 0 && pos == 0 {
            found.push(q);
        }
    }
    found
}

/// A literal occurs exactly when its tally is not zero.
pub proof fn lemma_count_occurs(s: Slots, l: Lit)
    requires
        s.len() <= usize::MAX,
    ensures
        occurs(s, l) <==> occ_of(s, l).len() > 0,
        occurs(s, l) <==> capped_count(s, l) > 0,
{
    lemma_occ_of(s, l);
    if occurs(s, l) {
        let i = choose|i: int| #[trigger] holds(s, i, l);
        assert(occ_of(s, l).contains(i as usize));
    }
    if occ_of(s, l).len() > 0 {
        let i = occ_of(s, l)[0];
        assert(occ_of(s, l).contains(i));
        assert(holds(s, i as int, l));
    }
}

} // verus!
