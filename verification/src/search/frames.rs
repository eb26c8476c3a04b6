//! Why the search is sound.
//!
//! Each component being solved is a *frame*: the trail it was entered with, its variables and its
//! clauses. While the search works below a frame it only assigns variables of the frame, and every
//! clause that takes part, learned ones included, follows from the clauses of the frame under the
//! trail it was entered with.

use vstd::prelude::*;
use crate::lit::{Lit, Var};
use crate::search::component::{apart, comp_shape, in_comps, is_component, is_whole, lit_active, occurs_active, seeded, splits, var_set, Comp};
use crate::search::state::{agrees, at_level, closed_under, forces, inside, lemma_max_level, lemma_trail_grows, listed_inside, t_false, t_has, t_sat, touches, SearchState, NO_REASON};
use crate::semantics::{clause_below, clause_true, lit_true, Valuation};

verus! {

/// A component under way.
pub struct Frame {
    /// The trail when it was entered.
    pub base: Seq<Lit>,
    /// Its variables.
    pub vars: Set<int>,
    /// Its clauses.
    pub clauses: Set<int>,
}

/// The assignment satisfies every clause of the set.
pub open spec fn sat_all(db: Seq<Seq<Lit>>, m: Valuation, cs: Set<int>) -> bool {
    forall|c: int| #[trigger] cs.contains(c) ==> clause_true(m, db[c])
}

/// The clause takes part in the frame: its base does not satisfy it, and it has an open variable of
/// the frame.
pub open spec fn takes_part(f: Frame, c: Seq<Lit>) -> bool {
    !t_sat(f.base, c) && touches(f.base, c, f.vars)
}

/// Every clause that takes part follows from the frame's clauses under its base.
pub open spec fn sound(db: Seq<Seq<Lit>>, f: Frame) -> bool {
    forall|m: Valuation, c: int|
        #![trigger agrees(m, f.base), db[c]]
        0 <= c < db.len() && agrees(m, f.base) && sat_all(db, m, f.clauses) && takes_part(f, db[c])
            ==> clause_true(m, db[c])
}

/// The state is at or below the frame.
pub open spec fn frame_ok(s: &SearchState, f: Frame) -> bool {
    &&& f.base.len() <= s.trail().len()
    &&& s.trail().take(f.base.len() as int) == f.base
    &&& forall|i: int|
        f.base.len() <= i < s.trail().len() ==> f.vars.contains((#[trigger] s.trail()[i]).vi())
    &&& forall|i: int|
        0 <= i < s.trail().len() && s.levels()[(#[trigger] s.trail()[i]).vi()] == 0 ==> i < f.base.len()
    &&& forall|v: int| #[trigger] f.vars.contains(v) ==> 0 <= v < s.nv() && !t_has(f.base, v)
    &&& closed_under(s.db(), f.base, f.vars)
    &&& forall|c: int| #[trigger] f.clauses.contains(c) ==> 0 <= c < s.db().len()
    &&& sound(s.db(), f)
}

/// The state is at or below every frame.
pub open spec fn frames_ok(s: &SearchState, fs: Seq<Frame>) -> bool {
    forall|i: int| 0 <= i < fs.len() ==> frame_ok(s, #[trigger] fs[i])
}

/// No clause is falsified by what was assigned before any open decision level.
pub open spec fn clean(s: &SearchState) -> bool {
    forall|k: int, c: int|
        0 <= k < s.lims().len() && 0 <= c < s.db().len() ==> !t_false(
            s.trail().take(#[trigger] s.lims()[k] as int),
            #[trigger] s.db()[c],
        )
}

/// The frame of a component entered now.
pub open spec fn frame_of(t: Seq<Lit>, comp: Comp) -> Frame {
    Frame {
        base: t,
        vars: var_set(comp.vars),
        clauses: Set::new(|c: int| 0 <= c <= u32::MAX && comp.clauses.contains(c as u32)),
    }
}

/// A literal is not both true and false on a valid trail.
pub proof fn lemma_not_both(s: &SearchState, l: Lit)
    requires
        s.trail_ok(),
    ensures
        !(s.trail().contains(l) && s.trail().contains(l.neg())),
{
    let t = s.trail();
    if t.contains(l) && t.contains(l.neg()) {
        let i = choose|i: int| 0 <= i < t.len() && t[i] == l;
        let j = choose|j: int| 0 <= j < t.len() && t[j] == l.neg();
        crate::lit::lemma_negation_is_involutive(l);
        assert(t[i].vi() == t[j].vi());
        assert(s.vals()[t[i].vi()] == Some(t[i].pos()));
        assert(s.vals()[t[j].vi()] == Some(t[j].pos()));
    }
}

/// The base of a frame, as part of the trail.
pub proof fn lemma_base(s: &SearchState, f: Frame)
    requires
        s.trail_ok(),
        frame_ok(s, f),
    ensures
        forall|l: Lit| f.base.contains(l) ==> #[trigger] s.trail().contains(l),
        forall|i: int| 0 <= i < f.base.len() ==> #[trigger] f.base[i] == s.trail()[i],
        forall|i: int|
            f.base.len() <= i < s.trail().len() ==> !t_has(f.base, (#[trigger] s.trail()[i]).vi()),
{
    lemma_trail_grows(f.base, s.trail());
    assert forall|i: int| 0 <= i < f.base.len() implies #[trigger] f.base[i] == s.trail()[i] by {
        assert(s.trail().take(f.base.len() as int)[i] == s.trail()[i]);
    }
    assert forall|i: int| f.base.len() <= i < s.trail().len() implies !t_has(
        f.base,
        (#[trigger] s.trail()[i]).vi(),
    ) by {
        if t_has(f.base, s.trail()[i].vi()) {
            let j = choose|j: int| 0 <= j < f.base.len() && (#[trigger] f.base[j]).vi() == s.trail()[i].vi();
            assert(f.base[j] == s.trail()[j]);
            assert(s.trail()[j].vi() != s.trail()[i].vi());
        }
    }
}

/// A clause with a literal assigned below the frame, and none of whose literals was true when that
/// happened, takes part in the frame.
proof fn lemma_part(s: &SearchState, f: Frame, c: Seq<Lit>, q: int, i: int)
    requires
        s.trail_ok(),
        frame_ok(s, f),
        0 <= q < c.len(),
        f.base.len() <= i < s.trail().len(),
        c[q].vi() == s.trail()[i].vi(),
        forall|k: int| 0 <= k < c.len() ==> !f.base.contains(#[trigger] c[k]),
    ensures
        takes_part(f, c),
{
    lemma_base(s, f);
    assert(!t_has(f.base, c[q].vi()));
    assert(f.vars.contains(s.trail()[i].vi()));
    assert(touches(f.base, c, f.vars));
}

/// The reason of a literal assigned below the frame holds wherever the frame's clauses do.
pub proof fn lemma_reason_holds(s: &SearchState, f: Frame, m: Valuation, i: int)
    requires
        s.wf(),
        frame_ok(s, f),
        agrees(m, f.base),
        sat_all(s.db(), m, f.clauses),
        f.base.len() <= i < s.trail().len(),
        s.reasons()[s.trail()[i].vi()] != NO_REASON,
    ensures
        clause_true(m, s.db()[s.reasons()[s.trail()[i].vi()] as int]),
{
    let t = s.trail();
    let r = s.reasons()[t[i].vi()] as int;
    let c = s.db()[r];
    lemma_base(s, f);
    assert(s.reason_ok(t[i], i));
    assert(forces(c, t[i], t.take(i)));
    let p = choose|p: int|
        0 <= p < c.len() && #[trigger] c[p] == t[i] && forall|q: int|
            0 <= q < c.len() && q != p ==> t.take(i).contains((#[trigger] c[q]).neg());
    assert forall|k: int| 0 <= k < c.len() implies !f.base.contains(#[trigger] c[k]) by {
        if f.base.contains(c[k]) {
            if k == p {
                let j = choose|j: int| 0 <= j < f.base.len() && f.base[j] == c[k];
                assert(t[j] == t[i]);
                assert(t[j].vi() != t[i].vi());
            } else {
                assert(t.take(i).contains(c[k].neg()));
                let j = choose|j: int| 0 <= j < t.take(i).len() && t.take(i)[j] == c[k].neg();
                assert(t[j] == c[k].neg());
                assert(t.contains(c[k].neg()));
                assert(t.contains(c[k]));
                lemma_not_both(s, c[k]);
            }
        }
    }
    lemma_part(s, f, c, p, i);
}

/// What was assigned before is satisfied by its reasons: agreement is enough.
proof fn lemma_old_reason_holds(s: &SearchState, m: Valuation, i: int)
    requires
        s.wf(),
        0 <= i < s.trail().len(),
        lit_true(m, s.trail()[i]),
        s.reasons()[s.trail()[i].vi()] != NO_REASON,
    ensures
        clause_true(m, s.db()[s.reasons()[s.trail()[i].vi()] as int]),
{
    let t = s.trail();
    let c = s.db()[s.reasons()[t[i].vi()] as int];
    assert(s.reason_ok(t[i], i));
    let p = choose|p: int|
        0 <= p < c.len() && #[trigger] c[p] == t[i] && forall|q: int|
            0 <= q < c.len() && q != p ==> t.take(i).contains((#[trigger] c[q]).neg());
    assert(lit_true(m, c[p]));
}

/// A conflict has a literal of the innermost decision level.
pub proof fn lemma_conflict_recent(s: &SearchState) -> (r: (int, int))
    requires
        s.wf(),
        s.conflicting(),
        clean(s),
        s.lims().len() > 0,
    ensures
        0 <= r.0 < s.db()[s.conflict_at()].len(),
        s.lims().last() <= r.1 < s.trail().len(),
        s.trail()[r.1] == s.db()[s.conflict_at()][r.0].neg(),
        s.conflict_level() == s.lims().len(),
{
    let t = s.trail();
    let k = s.lims().len() - 1;
    let n = s.lims()[k] as int;
    let c = s.db()[s.conflict_at()];
    assert(!t_false(t.take(n), c));
    let q = choose|q: int| 0 <= q < c.len() && !t.take(n).contains((#[trigger] c[q]).neg());
    assert(t.contains(c[q].neg()));
    let j = choose|j: int| 0 <= j < t.len() && t[j] == c[q].neg();
    if j < n {
        assert(t.take(n)[j] == c[q].neg());
    }
    assert(t[j].vi() == c[q].vi());
    let lv = s.levels();
    assert(at_level(s.lims(), j, lv[t[j].vi()] as int));
    assert(lv[c[q].vi()] == s.lims().len()) by {
        let a = lv[t[j].vi()] as int;
        if a < s.lims().len() {
            assert(s.lims()[a] <= s.lims()[k]);
        }
    }
    lemma_max_level(lv, c);
    assert forall|i: int| 0 <= i < c.len() implies lv[(#[trigger] c[i]).vi()] <= s.lims().len() by {
        assert(t.contains(c[i].neg()));
        let x = choose|x: int| 0 <= x < t.len() && t[x] == c[i].neg();
        assert(t[x].vi() == c[i].vi());
        assert(at_level(s.lims(), x, lv[t[x].vi()] as int));
    }
    (q, j)
}

/// Under a conflict below the frame, the frame's clauses give every premise of the derived clause.
pub proof fn lemma_premises(s: &SearchState, f: Frame, m: Valuation)
    requires
        s.wf(),
        s.conflicting(),
        clean(s),
        s.lims().len() > 0,
        frame_ok(s, f),
        f.base.len() <= s.lims().last(),
        agrees(m, f.base),
        sat_all(s.db(), m, f.clauses),
    ensures
        s.premises(m),
{
    let t = s.trail();
    let (q, j) = lemma_conflict_recent(s);
    let c = s.db()[s.conflict_at()];
    lemma_base(s, f);
    assert forall|k: int| 0 <= k < c.len() implies !f.base.contains(#[trigger] c[k]) by {
        if f.base.contains(c[k]) {
            assert(t.contains(c[k].neg()));
            assert(t.contains(c[k]));
            lemma_not_both(s, c[k]);
        }
    }
    lemma_part(s, f, c, q, j);
    assert forall|i: int| 0 <= i < t.len() && s.levels()[(#[trigger] t[i]).vi()] == 0 implies lit_true(m, t[i]) by {
        assert(f.base[i] == t[i]);
    }
    assert forall|i: int| 0 <= i < t.len() && s.reasons()[(#[trigger] t[i]).vi()] != NO_REASON implies clause_true(
        m,
        s.db()[s.reasons()[t[i].vi()] as int],
    ) by {
        if i < f.base.len() {
            assert(f.base[i] == t[i]);
            lemma_old_reason_holds(s, m, i);
        } else {
            lemma_reason_holds(s, f, m, i);
        }
    }
}

/// Sets of clauses that were in the database keep their meaning when clauses are appended.
pub proof fn lemma_sat_all_grows(db: Seq<Seq<Lit>>, db2: Seq<Seq<Lit>>, m: Valuation, cs: Set<int>)
    requires
        db.len() <= db2.len(),
        db2.take(db.len() as int) == db,
        forall|c: int| #[trigger] cs.contains(c) ==> 0 <= c < db.len(),
    ensures
        sat_all(db, m, cs) == sat_all(db2, m, cs),
{
    assert forall|c: int| 0 <= c < db.len() implies #[trigger] db[c] == db2[c] by {
        assert(db2.take(db.len() as int)[c] == db2[c]);
    }
    if sat_all(db, m, cs) {
        assert forall|c: int| #[trigger] cs.contains(c) implies clause_true(m, db2[c]) by {
            assert(db[c] == db2[c]);
        }
    }
    if sat_all(db2, m, cs) {
        assert forall|c: int| #[trigger] cs.contains(c) implies clause_true(m, db[c]) by {
            assert(db[c] == db2[c]);
        }
    }
}

/// A derived clause, seen from a frame above the conflict: it takes part, its open variables are
/// the frame's, and it follows from the frame's clauses. So adding it keeps the frame.
pub proof fn lemma_learned_frame(s: &SearchState, s2: &SearchState, f: Frame, d: Seq<Lit>)
    requires
        s.wf(),
        s.conflicting(),
        clean(s),
        s.lims().len() > 0,
        frame_ok(s, f),
        f.base.len() <= s.lims().last(),
        s.derives(d),
        s2.db() == s.db().push(d),
        s2.same_assignment(s),
    ensures
        frame_ok(s2, f),
        takes_part(f, d),
        inside(f.base, d, f.vars),
{
    let t = s.trail();
    let (q, j) = lemma_conflict_recent(s);
    lemma_base(s, f);
    // The first literal belongs to the innermost level, hence to the frame.
    assert(t.contains(d[0].neg()));
    let p = choose|p: int| 0 <= p < t.len() && t[p] == d[0].neg();
    assert(t[p].vi() == d[0].vi());
    assert(at_level(s.lims(), p, s.levels()[t[p].vi()] as int));
    assert(p >= s.lims().last());
    assert forall|k: int| 0 <= k < d.len() implies !f.base.contains(#[trigger] d[k]) by {
        if f.base.contains(d[k]) {
            assert(t.contains(d[k].neg()));
            assert(t.contains(d[k]));
            lemma_not_both(s, d[k]);
        }
    }
    lemma_part(s, f, d, 0, p);
    assert(inside(f.base, d, f.vars)) by {
        assert forall|k: int| 0 <= k < d.len() implies t_has(f.base, (#[trigger] d[k]).vi()) || f.vars.contains(
            d[k].vi(),
        ) by {
            assert(t.contains(d[k].neg()));
            let x = choose|x: int| 0 <= x < t.len() && t[x] == d[k].neg();
            assert(t[x].vi() == d[k].vi());
            if x < f.base.len() {
                assert(f.base[x] == t[x]);
                assert(f.base[x].vi() == d[k].vi());
            }
        }
    }
    let db = s.db();
    let db2 = s2.db();
    assert(db2.take(db.len() as int) =~= db);
    assert(closed_under(db2, f.base, f.vars)) by {
        assert forall|c: int| 0 <= c < db2.len() && !t_sat(f.base, #[trigger] db2[c]) && touches(
            f.base,
            db2[c],
            f.vars,
        ) implies inside(f.base, db2[c], f.vars) by {
            if c < db.len() {
                assert(db2[c] == db[c]);
            }
        }
    }
    assert(sound(db2, f)) by {
        assert forall|m: Valuation, c: int|
            #![trigger agrees(m, f.base), db2[c]]
            0 <= c < db2.len() && agrees(m, f.base) && sat_all(db2, m, f.clauses) && takes_part(f, db2[c]) implies clause_true(
            m,
            db2[c],
        ) by {
            lemma_sat_all_grows(db, db2, m, f.clauses);
            if c < db.len() {
                assert(db2[c] == db[c]);
            } else {
                lemma_premises(s, f, m);
                assert(clause_true(m, d));
            }
        }
    }
}

/// A derived clause is not falsified by what was assigned before the innermost level.
pub proof fn lemma_learned_clean(s: &SearchState, s2: &SearchState, d: Seq<Lit>)
    requires
        s.wf(),
        s.conflicting(),
        clean(s),
        s.lims().len() > 0,
        s.derives(d),
        s2.db() == s.db().push(d),
        s2.same_assignment(s),
    ensures
        clean(s2),
{
    let t = s.trail();
    let (q, j) = lemma_conflict_recent(s);
    assert forall|k: int, c: int| 0 <= k < s2.lims().len() && 0 <= c < s2.db().len() implies !t_false(
        s2.trail().take(#[trigger] s2.lims()[k] as int),
        #[trigger] s2.db()[c],
    ) by {
        let n = s.lims()[k] as int;
        if c < s.db().len() {
            assert(s2.db()[c] == s.db()[c]);
            assert(!t_false(s.trail().take(n), s.db()[c]));
        } else if t_false(t.take(n), d) {
            assert(t.take(n).contains(d[0].neg()));
            let p = choose|p: int| 0 <= p < t.take(n).len() && t.take(n)[p] == d[0].neg();
            assert(t[p].vi() == d[0].vi());
            assert(at_level(s.lims(), p, s.levels()[t[p].vi()] as int));
            assert(s.lims()[k] <= s.lims()[s.lims().len() - 1]);
        }
    }
}

/// Assigning variables of the frame keeps it.
pub proof fn lemma_frame_extends(o: &SearchState, s: &SearchState, f: Frame)
    requires
        frame_ok(o, f),
        s.db() == o.db(),
        s.nv() == o.nv(),
        o.trail().len() <= s.trail().len(),
        s.trail().take(o.trail().len() as int) == o.trail(),
        forall|i: int|
            o.trail().len() <= i < s.trail().len() ==> f.vars.contains((#[trigger] s.trail()[i]).vi())
                && s.levels()[s.trail()[i].vi()] > 0,
        forall|i: int|
            0 <= i < o.trail().len() ==> s.levels()[(#[trigger] o.trail()[i]).vi()]
                == o.levels()[o.trail()[i].vi()],
    ensures
        frame_ok(s, f),
{
    assert forall|i: int| 0 <= i < o.trail().len() implies #[trigger] s.trail()[i] == o.trail()[i] by {
        assert(s.trail().take(o.trail().len() as int)[i] == s.trail()[i]);
    }
    assert(s.trail().take(f.base.len() as int) =~= o.trail().take(f.base.len() as int));
    assert forall|i: int| f.base.len() <= i < s.trail().len() implies f.vars.contains(
        (#[trigger] s.trail()[i]).vi(),
    ) by {
        if i < o.trail().len() {
            assert(s.trail()[i] == o.trail()[i]);
        }
    }
    assert forall|i: int| 0 <= i < s.trail().len() && s.levels()[(#[trigger] s.trail()[i]).vi()] == 0 implies i
        < f.base.len() by {
        if i < o.trail().len() {
            assert(s.trail()[i] == o.trail()[i]);
        }
    }
}

/// Closing a level opened below the frame keeps it.
pub proof fn lemma_frame_pops(o: &SearchState, s: &SearchState, f: Frame)
    requires
        frame_ok(o, f),
        s.popped_from(o),
        f.base.len() <= o.lims().last() <= o.trail().len(),
    ensures
        frame_ok(s, f),
{
    let n = o.lims().last() as int;
    assert(s.trail().take(f.base.len() as int) =~= o.trail().take(f.base.len() as int));
    assert forall|i: int| 0 <= i < s.trail().len() implies #[trigger] s.trail()[i] == o.trail()[i] by {}
}

/// Below the frame, no active clause leaves its variables.
pub proof fn lemma_closed_now(s: &SearchState, f: Frame)
    requires
        s.trail_ok(),
        frame_ok(s, f),
    ensures
        closed_under(s.db(), s.trail(), f.vars),
{
    let t = s.trail();
    lemma_trail_grows(f.base, t);
    assert forall|c: int| 0 <= c < s.db().len() && !t_sat(t, #[trigger] s.db()[c]) && touches(
        t,
        s.db()[c],
        f.vars,
    ) implies inside(t, s.db()[c], f.vars) by {
        let cl = s.db()[c];
        let i = choose|i: int|
            0 <= i < cl.len() && !t_has(t, (#[trigger] cl[i]).vi()) && f.vars.contains(cl[i].vi());
        assert(!t_has(f.base, cl[i].vi()));
        assert(touches(f.base, cl, f.vars));
        assert(inside(f.base, cl, f.vars));
    }
}

/// Clauses that take part keep their open variables inside the frame.
pub proof fn lemma_listed(s: &SearchState, f: Frame, q: Seq<u32>)
    requires
        s.trail_ok(),
        frame_ok(s, f),
        forall|k: int|
            0 <= k < q.len() ==> #[trigger] q[k] < s.db().len() && takes_part(f, s.db()[q[k] as int]),
    ensures
        listed_inside(s.db(), s.trail(), q, f.vars),
{
    lemma_trail_grows(f.base, s.trail());
    assert forall|k: int| 0 <= k < q.len() implies t_sat(s.trail(), s.db()[#[trigger] q[k] as int]) || inside(
        s.trail(),
        s.db()[q[k] as int],
        f.vars,
    ) by {
        assert(inside(f.base, s.db()[q[k] as int], f.vars));
    }
}

/// A true clause with all other literals false makes its remaining literal true.
pub proof fn lemma_forced_true(c: Seq<Lit>, l: Lit, t: Seq<Lit>, m: Valuation)
    requires
        forces(c, l, t),
        agrees(m, t),
        clause_true(m, c),
    ensures
        lit_true(m, l),
{
    let x = choose|x: int| 0 <= x < c.len() && lit_true(m, #[trigger] c[x]);
    let p = choose|p: int|
        0 <= p < c.len() && #[trigger] c[p] == l && forall|q: int|
            0 <= q < c.len() && q != p ==> t.contains((#[trigger] c[q]).neg());
    if x != p {
        assert(t.contains(c[x].neg()));
        let y = choose|y: int| 0 <= y < t.len() && t[y] == c[x].neg();
        assert(lit_true(m, t[y]));
    }
}

/// Propagation below the frame loses no assignment that satisfies the frame's clauses.
pub proof fn lemma_propagation_forced(o: &SearchState, s: &SearchState, f: Frame, m: Valuation, n: int)
    requires
        s.wf(),
        s.propagated_from(o),
        frame_ok(s, f),
        f.base.len() <= o.trail().len(),
        agrees(m, o.trail()),
        sat_all(s.db(), m, f.clauses),
        o.trail().len() <= n <= s.trail().len(),
    ensures
        agrees(m, s.trail().take(n)),
    decreases n,
{
    let t = s.trail();
    if n == o.trail().len() {
        assert(t.take(n) == o.trail());
    } else {
        lemma_propagation_forced(o, s, f, m, n - 1);
        let i = n - 1;
        let r = s.reasons()[t[i].vi()] as int;
        let c = s.db()[r];
        assert(agrees(m, f.base)) by {
            assert forall|k: int| 0 <= k < f.base.len() implies lit_true(m, #[trigger] f.base[k]) by {
                assert(t.take(f.base.len() as int)[k] == t[k]);
                assert(t.take(o.trail().len() as int)[k] == t[k]);
                assert(lit_true(m, o.trail()[k]));
            }
        }
        lemma_reason_holds(s, f, m, i);
        assert(s.reason_ok(t[i], i));
        lemma_forced_true(c, t[i], t.take(i), m);
        assert forall|k: int| 0 <= k < t.take(n).len() implies lit_true(m, #[trigger] t.take(n)[k]) by {
            if k < i {
                assert(t.take(i)[k] == t.take(n)[k]);
            }
        }
    }
}

/// Agreement with the trail is agreement with the base of a frame.
pub proof fn lemma_agrees_base(s: &SearchState, f: Frame, m: Valuation)
    requires
        f.base.len() <= s.trail().len(),
        s.trail().take(f.base.len() as int) == f.base,
        agrees(m, s.trail()),
    ensures
        agrees(m, f.base),
{
    assert forall|i: int| 0 <= i < f.base.len() implies lit_true(m, #[trigger] f.base[i]) by {
        assert(s.trail().take(f.base.len() as int)[i] == s.trail()[i]);
        assert(lit_true(m, s.trail()[i]));
    }
}

/// A clause that the trail makes false is false wherever the trail is agreed with.
pub proof fn lemma_falsified(t: Seq<Lit>, c: Seq<Lit>, m: Valuation)
    requires
        t_false(t, c),
        agrees(m, t),
    ensures
        !clause_true(m, c),
{
    if clause_true(m, c) {
        let x = choose|x: int| 0 <= x < c.len() && lit_true(m, #[trigger] c[x]);
        assert(t.contains(c[x].neg()));
        let y = choose|y: int| 0 <= y < t.len() && t[y] == c[x].neg();
        assert(lit_true(m, t[y]));
    }
}

/// A conflict below the frame leaves no assignment that satisfies the frame's clauses.
pub proof fn lemma_conflict_refutes(s: &SearchState, f: Frame, m: Valuation)
    requires
        s.wf(),
        s.conflicting(),
        clean(s),
        s.lims().len() > 0,
        frame_ok(s, f),
        f.base.len() <= s.lims().last(),
        agrees(m, s.trail()),
    ensures
        !sat_all(s.db(), m, f.clauses),
{
    lemma_agrees_base(s, f, m);
    if sat_all(s.db(), m, f.clauses) {
        lemma_premises(s, f, m);
        lemma_falsified(s.trail(), s.db()[s.conflict_at()], m);
    }
}

/// A component of the residual formula makes a frame.
pub proof fn lemma_new_frame(s: &SearchState, comp: Comp)
    requires
        s.wf(),
        comp_shape(s.db(), s.trail(), s.nv(), comp),
    ensures
        frame_ok(s, frame_of(s.trail(), comp)),
{
    let f = frame_of(s.trail(), comp);
    assert(s.trail().take(s.trail().len() as int) =~= s.trail());
    assert forall|v: int| #[trigger] f.vars.contains(v) implies 0 <= v < s.nv() && !t_has(f.base, v) by {
        let k = choose|k: int| 0 <= k < comp.vars.len() && comp.vars[k] == v as u32;
        assert(comp.vars[k] < s.nv());
    }
    assert forall|c: int| #[trigger] f.clauses.contains(c) implies 0 <= c < s.db().len() by {
        assert(comp.clauses.contains(c as u32));
    }
    assert forall|m: Valuation, c: int|
        #![trigger agrees(m, f.base), s.db()[c]]
        0 <= c < s.db().len() && agrees(m, f.base) && sat_all(s.db(), m, f.clauses) && takes_part(
            f,
            s.db()[c],
        ) implies clause_true(m, s.db()[c]) by {
        assert(comp.clauses.contains(c as u32));
        assert(f.clauses.contains(c));
    }
}

/// Some literal of the clause over the listed variables is true.
pub open spec fn resid_clause(c: Seq<Lit>, vars: Seq<u32>, m: Valuation) -> bool {
    exists|i: int| 0 <= i < c.len() && vars.contains((#[trigger] c[i]).vi() as u32) && lit_true(m, c[i])
}

/// The assignment solves the component: every clause has a true literal over its variables.
pub open spec fn solves(db: Seq<Seq<Lit>>, comp: Comp, m: Valuation) -> bool {
    forall|k: int|
        0 <= k < comp.clauses.len() ==> resid_clause(db[#[trigger] comp.clauses[k] as int], comp.vars, m)
}

/// An assignment that agrees with the trail and satisfies the component's clauses solves it.
pub proof fn lemma_solves_if_true(s: &SearchState, comp: Comp, m: Valuation)
    requires
        s.wf(),
        comp_shape(s.db(), s.trail(), s.nv(), comp),
        agrees(m, s.trail()),
        forall|k: int|
            0 <= k < comp.clauses.len() ==> clause_true(m, s.db()[#[trigger] comp.clauses[k] as int]),
    ensures
        solves(s.db(), comp, m),
{
    let t = s.trail();
    assert forall|k: int| 0 <= k < comp.clauses.len() implies resid_clause(
        s.db()[#[trigger] comp.clauses[k] as int],
        comp.vars,
        m,
    ) by {
        let c = s.db()[comp.clauses[k] as int];
        assert(comp.clauses.contains(comp.clauses[k]));
        assert(inside(t, c, var_set(comp.vars)));
        assert(clause_true(m, c));
        let i = choose|i: int| 0 <= i < c.len() && lit_true(m, #[trigger] c[i]);
        assert(clause_below(s.db()[comp.clauses[k] as int], s.nv()));
        s.lemma_vals_lit(c[i]);
        if t_has(t, c[i].vi()) {
            if t.contains(c[i]) {
                assert(t_sat(t, c));
            } else {
                let j = choose|j: int| 0 <= j < t.len() && t[j] == c[i].neg();
                assert(lit_true(m, t[j]));
            }
        }
        assert(var_set(comp.vars).contains(c[i].vi()));
    }
}

/// What solves a component can be laid over the trail.
pub open spec fn overlay(m: Valuation, vals: Seq<Option<bool>>) -> Valuation {
    |v: int| if 0 <= v < vals.len() && vals[v] is Some {
        vals[v]->0
    } else {
        m(v)
    }
}

/// If no assignment agrees with the trail and satisfies the component's clauses, none solves it.
pub proof fn lemma_unsolvable(s: &SearchState, comp: Comp, m: Valuation)
    requires
        s.wf(),
        comp_shape(s.db(), s.trail(), s.nv(), comp),
        solves(s.db(), comp, m),
    ensures
        agrees(overlay(m, s.vals()), s.trail()),
        sat_all(s.db(), overlay(m, s.vals()), frame_of(s.trail(), comp).clauses),
{
    let t = s.trail();
    let o = overlay(m, s.vals());
    assert forall|i: int| 0 <= i < t.len() implies lit_true(o, #[trigger] t[i]) by {
        assert(s.vals()[t[i].vi()] == Some(t[i].pos()));
    }
    let f = frame_of(t, comp);
    assert forall|c: int| #[trigger] f.clauses.contains(c) implies clause_true(o, s.db()[c]) by {
        assert(comp.clauses.contains(c as u32));
        let k = choose|k: int| 0 <= k < comp.clauses.len() && comp.clauses[k] == c as u32;
        let cl = s.db()[comp.clauses[k] as int];
        assert(resid_clause(s.db()[comp.clauses[k] as int], comp.vars, m));
        let i = choose|i: int|
            0 <= i < cl.len() && comp.vars.contains((#[trigger] cl[i]).vi() as u32) && lit_true(m, cl[i]);
        assert(clause_below(s.db()[comp.clauses[k] as int], s.nv()));
        let j = choose|j: int| 0 <= j < comp.vars.len() && comp.vars[j] == cl[i].vi() as u32;
        assert(!t_has(t, comp.vars[j] as int));
        s.lemma_vals(cl[i].vi());
        assert(lit_true(o, cl[i]));
    }
}

/// From trail `t` to trail `u` no satisfied clause need be lost: an assignment that agrees with `t`
/// can be changed to agree with `u` and keep every clause it satisfies.
pub open spec fn keeps_models(db: Seq<Seq<Lit>>, t: Seq<Lit>, u: Seq<Lit>) -> bool {
    forall|m: Valuation| #[trigger] agrees(m, t) ==> carried_over(db, m, u)
}

/// Some assignment agrees with `u` and satisfies every clause that `m` does.
pub open spec fn carried_over(db: Seq<Seq<Lit>>, m: Valuation, u: Seq<Lit>) -> bool {
    exists|m2: Valuation| #[trigger] agrees(m2, u) && keeps_clauses(db, m, m2)
}

/// Every clause that `m` satisfies is satisfied by `m2`.
pub open spec fn keeps_clauses(db: Seq<Seq<Lit>>, m: Valuation, m2: Valuation) -> bool {
    forall|c: int| 0 <= c < db.len() && clause_true(m, #[trigger] db[c]) ==> clause_true(m2, db[c])
}

pub proof fn lemma_keeps_models_refl(db: Seq<Seq<Lit>>, t: Seq<Lit>)
    ensures
        keeps_models(db, t, t),
{
    assert forall|m: Valuation| #[trigger] agrees(m, t) implies carried_over(db, m, t) by {
        assert(agrees(m, t) && keeps_clauses(db, m, m));
    }
}

pub proof fn lemma_keeps_models_trans(db: Seq<Seq<Lit>>, t: Seq<Lit>, u: Seq<Lit>, w: Seq<Lit>)
    requires
        keeps_models(db, t, u),
        keeps_models(db, u, w),
    ensures
        keeps_models(db, t, w),
{
    assert forall|m: Valuation| #[trigger] agrees(m, t) implies carried_over(db, m, w) by {
        assert(carried_over(db, m, u));
        let m2 = choose|m2: Valuation| #[trigger] agrees(m2, u) && keeps_clauses(db, m, m2);
        assert(carried_over(db, m2, w));
        let m3 = choose|m3: Valuation| #[trigger] agrees(m3, w) && keeps_clauses(db, m2, m3);
        assert(keeps_clauses(db, m, m3)) by {
            assert forall|c: int| 0 <= c < db.len() && clause_true(m, #[trigger] db[c]) implies clause_true(
                m3,
                db[c],
            ) by {
                assert(clause_true(m2, db[c]));
            }
        }
    }
}

/// Assigning a pure literal loses no satisfied clause.
pub proof fn lemma_pure_keeps_models(s: &SearchState, l: Lit)
    requires
        s.wf(),
        !t_has(s.trail(), l.vi()),
        !lit_active(s.db(), s.trail(), l.neg()),
    ensures
        keeps_models(s.db(), s.trail(), s.trail().push(l)),
{
    let t = s.trail();
    let db = s.db();
    assert forall|m: Valuation| #[trigger] agrees(m, t) implies carried_over(db, m, t.push(l)) by {
        let m2: Valuation = |v: int| if v == l.vi() {
            l.pos()
        } else {
            m(v)
        };
        assert(agrees(m2, t.push(l))) by {
            assert forall|i: int| 0 <= i < t.push(l).len() implies lit_true(m2, #[trigger] t.push(l)[i]) by {
                if i < t.len() {
                    assert(t[i].vi() != l.vi());
                    assert(lit_true(m, t[i]));
                }
            }
        }
        assert(keeps_clauses(db, m, m2)) by {
            assert forall|c: int| 0 <= c < db.len() && clause_true(m, #[trigger] db[c]) implies clause_true(
                m2,
                db[c],
            ) by {
                let cl = db[c];
                if t_sat(t, cl) {
                    let i = choose|i: int| 0 <= i < cl.len() && t.contains(#[trigger] cl[i]);
                    let j = choose|j: int| 0 <= j < t.len() && t[j] == cl[i];
                    assert(lit_true(m, t[j]));
                    assert(t[j].vi() != l.vi());
                    assert(lit_true(m2, cl[i]));
                } else {
                    let i = choose|i: int| 0 <= i < cl.len() && lit_true(m, #[trigger] cl[i]);
                    if cl[i].vi() == l.vi() {
                        assert(cl.contains(cl[i]));
                        if cl[i] == l.neg() {
                            assert(lit_active(db, t, l.neg()));
                        }
                        crate::lit::lemma_lit_ext(cl[i], l);
                        crate::lit::lemma_lit_ext(cl[i], l.neg());
                        crate::lit::lemma_negation_is_involutive(l);
                    }
                    assert(lit_true(m2, cl[i]));
                }
            }
        }
    }
}

/// A pure literal stays pure while other literals are assigned.
pub proof fn lemma_stays_pure(db: Seq<Seq<Lit>>, t: Seq<Lit>, u: Seq<Lit>, l: Lit)
    requires
        !lit_active(db, t, l),
        t.len() <= u.len(),
        u.take(t.len() as int) == t,
    ensures
        !lit_active(db, u, l),
{
    lemma_trail_grows(t, u);
    if lit_active(db, u, l) {
        let c = choose|c: int| 0 <= c < db.len() && !t_sat(u, #[trigger] db[c]) && db[c].contains(l);
        assert(!t_sat(t, db[c]));
    }
}

/// The components found below the frame with variables `w`: each is one, they share no variable and
/// lie within `w`, and every active clause that touches `w` belongs to one.
pub open spec fn divides(s: &SearchState, w: Set<int>, comps: Seq<Comp>) -> bool {
    &&& forall|k: int| 0 <= k < comps.len() ==> comp_within(s, w, #[trigger] comps[k])
    &&& forall|i: int, j: int|
        0 <= i < j < comps.len() ==> apart(#[trigger] comps[i], #[trigger] comps[j])
    &&& forall|c: int|
        0 <= c < s.db().len() && !t_sat(s.trail(), #[trigger] s.db()[c]) && touches(
            s.trail(),
            s.db()[c],
            w,
        ) ==> claimed(comps, c)
}

/// A component of the residual formula within `w`.
pub open spec fn comp_within(s: &SearchState, w: Set<int>, comp: Comp) -> bool {
    comp_shape(s.db(), s.trail(), s.nv(), comp) && var_set(comp.vars).subset_of(w)
}

/// Some component has the clause.
pub open spec fn claimed(comps: Seq<Comp>, c: int) -> bool {
    exists|j: int| 0 <= j < comps.len() && (#[trigger] comps[j]).clauses.contains(c as u32)
}

/// The connected components of a closed scope divide it.
pub proof fn lemma_splits_divide(s: &SearchState, scope: Seq<u32>, w: Set<int>, comps: Seq<Comp>)
    requires
        s.wf(),
        closed_under(s.db(), s.trail(), w),
        forall|v: int| #[trigger] w.contains(v) ==> 0 <= v <= u32::MAX && scope.contains(v as u32),
        forall|k: int| 0 <= k < scope.len() ==> w.contains(#[trigger] scope[k] as int) || t_has(s.trail(), scope[k] as int),
        splits(s.db(), s.trail(), s.nv(), scope, comps),
    ensures
        divides(s, w, comps),
{
    let t = s.trail();
    let db = s.db();
    assert forall|k: int| 0 <= k < comps.len() implies comp_within(s, w, #[trigger] comps[k]) by {
        assert(seeded(db, t, s.nv(), scope, comps[k]));
        let q = choose|q: int| 0 <= q < scope.len() && is_component(db, t, s.nv(), #[trigger] scope[q], comps[k]);
        assert(comps[k].vars.contains(scope[q]));
        let z = choose|z: int| 0 <= z < comps[k].vars.len() && comps[k].vars[z] == scope[q];
        assert(!t_has(t, comps[k].vars[z] as int));
        assert(w.contains(scope[q] as int));
    }
    assert forall|c: int| 0 <= c < db.len() && !t_sat(t, #[trigger] db[c]) && touches(t, db[c], w) implies claimed(
        comps,
        c,
    ) by {
        let i = choose|i: int| 0 <= i < db[c].len() && !t_has(t, (#[trigger] db[c][i]).vi()) && w.contains(
            db[c][i].vi(),
        );
        let v = db[c][i].vi() as u32;
        assert(scope.contains(v));
        let k = choose|k: int| 0 <= k < scope.len() && scope[k] == v;
        assert(occurs_active(db, t, scope[k] as int));
        assert(in_comps(comps, scope[k]));
        let j = choose|j: int| 0 <= j < comps.len() && (#[trigger] comps[j]).vars.contains(v);
        assert(comp_within(s, w, comps[j]));
        assert(var_set(comps[j].vars).contains(db[c][i].vi()));
        assert(touches(t, db[c], var_set(comps[j].vars)));
        assert(comps[j].clauses.contains(c as u32));
    }
}

/// The premises of the two lemmas below: a closed set `w`, a scope that lists it, and the one
/// component gathered from the scope, if any.
spec fn gathered(db: Seq<Seq<Lit>>, t: Seq<Lit>, scope: Seq<u32>, w: Set<int>, comps: Seq<Comp>) -> bool {
    &&& closed_under(db, t, w)
    &&& db.len() <= u32::MAX
    &&& forall|v: int| #[trigger] w.contains(v) ==> 0 <= v <= u32::MAX && scope.contains(v as u32)
    &&& forall|k: int| 0 <= k < scope.len() ==> w.contains(#[trigger] scope[k] as int) || t_has(t, scope[k] as int)
    &&& comps.len() <= 1
    &&& comps.len() == 1 <==> exists|k: int|
        0 <= k < scope.len() && !t_has(t, #[trigger] scope[k] as int) && occurs_active(db, t, scope[k] as int)
    &&& comps.len() == 1 ==> is_whole(db, t, scope, comps[0]) && comps[0].clauses.len() > 0
}

/// An active clause with an open variable of `w` belongs to the component, and so does the variable.
proof fn lemma_gathers(db: Seq<Seq<Lit>>, t: Seq<Lit>, scope: Seq<u32>, w: Set<int>, comps: Seq<Comp>, c: int, i: int)
    requires
        gathered(db, t, scope, w, comps),
        0 <= c < db.len(),
        0 <= i < db[c].len(),
        !t_sat(t, db[c]),
        !t_has(t, db[c][i].vi()),
        w.contains(db[c][i].vi()),
    ensures
        comps.len() == 1,
        comps[0].vars.contains(db[c][i].vi() as u32),
        comps[0].clauses.contains(c as u32),
{
    let v = db[c][i].vi() as u32;
    assert(scope.contains(v));
    let k = choose|k: int| 0 <= k < scope.len() && scope[k] == v;
    assert(occurs_active(db, t, scope[k] as int));
    assert(comps[0].vars.contains(v));
    assert(var_set(scope).contains(db[c][i].vi()));
    assert(touches(t, db[c], var_set(scope)));
    assert(comps[0].clauses.contains(c as u32));
}

/// The gathered component is one of the residual formula.
proof fn lemma_gathered_shape(db: Seq<Seq<Lit>>, t: Seq<Lit>, n: int, scope: Seq<u32>, w: Set<int>, comps: Seq<Comp>)
    requires
        gathered(db, t, scope, w, comps),
        comps.len() == 1,
        forall|k: int| 0 <= k < scope.len() ==> #[trigger] scope[k] < n,
    ensures
        comp_shape(db, t, n, comps[0]),
        var_set(comps[0].vars).subset_of(w),
{
    let comp = comps[0];
    let vs = var_set(comp.vars);
    assert forall|v: int| #[trigger] vs.contains(v) implies w.contains(v) by {
        assert(comp.vars.contains(v as u32));
        let k = choose|k: int| 0 <= k < scope.len() && scope[k] == v as u32;
        assert(w.contains(scope[k] as int));
    }
    assert forall|c: int| 0 <= c < db.len() && !t_sat(t, #[trigger] db[c]) && touches(t, db[c], vs) implies inside(
        t,
        db[c],
        vs,
    ) && comp.clauses.contains(c as u32) by {
        let i = choose|i: int| 0 <= i < db[c].len() && !t_has(t, (#[trigger] db[c][i]).vi()) && vs.contains(
            db[c][i].vi(),
        );
        assert(w.contains(db[c][i].vi()));
        assert(touches(t, db[c], w));
        assert(inside(t, db[c], w));
        lemma_gathers(db, t, scope, w, comps, c, i);
        assert forall|j: int| 0 <= j < db[c].len() implies t_has(t, (#[trigger] db[c][j]).vi()) || vs.contains(
            db[c][j].vi(),
        ) by {
            if !t_has(t, db[c][j].vi()) {
                assert(w.contains(db[c][j].vi()));
                lemma_gathers(db, t, scope, w, comps, c, j);
            }
        }
    }
    assert forall|c: u32| #[trigger] comp.clauses.contains(c) implies c < db.len() && !t_sat(t, db[c as int])
        && touches(t, db[c as int], vs) by {
        let cl = db[c as int];
        let i = choose|i: int| 0 <= i < cl.len() && !t_has(t, (#[trigger] cl[i]).vi()) && var_set(scope).contains(
            cl[i].vi(),
        );
        let k = choose|k: int| 0 <= k < scope.len() && scope[k] == cl[i].vi() as u32;
        assert(w.contains(scope[k] as int));
        lemma_gathers(db, t, scope, w, comps, c as int, i);
        assert(vs.contains(cl[i].vi()));
    }
    assert forall|c: u32|
        c < db.len() && !t_sat(t, db[c as int]) && touches(t, db[c as int], vs) implies #[trigger] comp.clauses.contains(c) by {
        assert(db[c as int] == db[c as int]);
    }
    assert forall|k: int| 0 <= k < comp.vars.len() implies #[trigger] comp.vars[k] < n && !t_has(
        t,
        comp.vars[k] as int,
    ) by {
        assert(comp.vars.contains(comp.vars[k]));
        let q = choose|q: int| 0 <= q < scope.len() && scope[q] == comp.vars[k];
    }
}

/// The one component of an undivided closed scope divides it.
pub proof fn lemma_whole_divides(s: &SearchState, scope: Seq<u32>, w: Set<int>, comps: Seq<Comp>)
    requires
        s.db().len() <= u32::MAX,
        closed_under(s.db(), s.trail(), w),
        forall|v: int| #[trigger] w.contains(v) ==> 0 <= v <= u32::MAX && scope.contains(v as u32),
        forall|k: int| 0 <= k < scope.len() ==> w.contains(#[trigger] scope[k] as int) || t_has(s.trail(), scope[k] as int),
        forall|k: int| 0 <= k < scope.len() ==> #[trigger] scope[k] < s.nv(),
        comps.len() <= 1,
        comps.len() == 1 <==> exists|k: int|
            0 <= k < scope.len() && !t_has(s.trail(), #[trigger] scope[k] as int) && occurs_active(
                s.db(),
                s.trail(),
                scope[k] as int,
            ),
        comps.len() == 1 ==> is_whole(s.db(), s.trail(), scope, comps[0]) && comps[0].clauses.len() > 0,
    ensures
        divides(s, w, comps),
{
    let t = s.trail();
    let db = s.db();
    assert(gathered(db, t, scope, w, comps));
    assert forall|c: int| 0 <= c < db.len() && !t_sat(t, #[trigger] db[c]) && touches(t, db[c], w) implies claimed(
        comps,
        c,
    ) by {
        let i = choose|i: int| 0 <= i < db[c].len() && !t_has(t, (#[trigger] db[c][i]).vi()) && w.contains(
            db[c][i].vi(),
        );
        lemma_gathers(db, t, scope, w, comps, c, i);
        assert(comps[0].clauses.contains(c as u32));
    }
    if comps.len() == 1 {
        lemma_gathered_shape(db, t, s.nv(), scope, w, comps);
        assert(comp_within(s, w, comps[0]));
    }
}

/// Clauses were appended to the database of `o`, and nothing else in it changed.
pub open spec fn grown(o: Seq<Seq<Lit>>, db: Seq<Seq<Lit>>) -> bool {
    o.len() <= db.len() && db.take(o.len() as int) == o
}

pub proof fn lemma_grown_trans(a: Seq<Seq<Lit>>, b: Seq<Seq<Lit>>, c: Seq<Seq<Lit>>)
    requires
        grown(a, b),
        grown(b, c),
    ensures
        grown(a, c),
{
    assert(c.take(a.len() as int) =~= b.take(a.len() as int)) by {
        assert forall|i: int| 0 <= i < a.len() implies c.take(a.len() as int)[i] == b.take(a.len() as int)[i] by {
            assert(c.take(b.len() as int)[i] == c[i]);
        }
    }
}

/// The state is back where `o` was, with possibly more clauses.
pub open spec fn back_at(o: &SearchState, s: &SearchState) -> bool {
    &&& s.nv() == o.nv()
    &&& s.n_orig() == o.n_orig()
    &&& s.trail() == o.trail()
    &&& s.lims() == o.lims()
    &&& grown(o.db(), s.db())
    &&& s.learned_size() >= o.learned_size()
}

/// Every clause from `n` on takes part in the frame.
pub open spec fn new_parts(n: int, db: Seq<Seq<Lit>>, f: Frame) -> bool {
    forall|c: int| n <= c < db.len() ==> takes_part(f, #[trigger] db[c])
}

/// No assignment that agrees with the trail satisfies the clauses.
pub open spec fn refuted(db: Seq<Seq<Lit>>, t: Seq<Lit>, cs: Set<int>) -> bool {
    forall|m: Valuation| #[trigger] agrees(m, t) ==> !sat_all(db, m, cs)
}

pub proof fn lemma_refuted_grows(db: Seq<Seq<Lit>>, db2: Seq<Seq<Lit>>, t: Seq<Lit>, cs: Set<int>)
    requires
        grown(db, db2),
        forall|c: int| #[trigger] cs.contains(c) ==> 0 <= c < db.len(),
    ensures
        refuted(db, t, cs) == refuted(db2, t, cs),
{
    assert forall|m: Valuation| sat_all(db, m, cs) == #[trigger] sat_all(db2, m, cs) by {
        lemma_sat_all_grows(db, db2, m, cs);
    }
    if refuted(db, t, cs) {
        assert forall|m: Valuation| #[trigger] agrees(m, t) implies !sat_all(db2, m, cs) by {
            assert(sat_all(db, m, cs) == sat_all(db2, m, cs));
        }
    }
    if refuted(db2, t, cs) {
        assert forall|m: Valuation| #[trigger] agrees(m, t) implies !sat_all(db, m, cs) by {
            assert(sat_all(db, m, cs) == sat_all(db2, m, cs));
        }
    }
}

/// States with the same trail have the same assignment.
pub proof fn lemma_same_vals(a: &SearchState, b: &SearchState)
    requires
        a.trail_ok(),
        b.trail_ok(),
        a.nv() == b.nv(),
        a.nv() <= Var::MAX_INDEX + 1,
        a.trail() == b.trail(),
    ensures
        a.vals() == b.vals(),
{
    assert forall|v: int| 0 <= v < a.nv() implies a.vals()[v] == b.vals()[v] by {
        a.lemma_vals(v);
        b.lemma_vals(v);
    }
    assert(a.vals() =~= b.vals());
}

/// Learning within one component leaves the others as they are.
pub proof fn lemma_sibling(o: &SearchState, s: &SearchState, w: Set<int>, c1: Comp, c2: Comp)
    requires
        grown(o.db(), s.db()),
        s.trail() == o.trail(),
        s.nv() == o.nv(),
        s.db().len() <= u32::MAX,
        comp_within(o, w, c2),
        forall|v: u32| #[trigger] c2.vars.contains(v) ==> !c1.vars.contains(v),
        frame_ok(s, frame_of(o.trail(), c1)),
        new_parts(o.db().len() as int, s.db(), frame_of(o.trail(), c1)),
    ensures
        comp_within(s, w, c2),
{
    let t = o.trail();
    let f = frame_of(t, c1);
    let v2 = var_set(c2.vars);
    let db = o.db();
    let db2 = s.db();
    assert forall|c: int| 0 <= c < db.len() implies #[trigger] db2[c] == db[c] by {
        assert(db2.take(db.len() as int)[c] == db2[c]);
    }
    assert forall|c: int| db.len() <= c < db2.len() implies !touches(t, #[trigger] db2[c], v2) by {
        assert(takes_part(f, db2[c]));
        assert(inside(t, db2[c], f.vars));
        if touches(t, db2[c], v2) {
            let i = choose|i: int|
                0 <= i < db2[c].len() && !t_has(t, (#[trigger] db2[c][i]).vi()) && v2.contains(db2[c][i].vi());
            assert(f.vars.contains(db2[c][i].vi()));
            assert(c2.vars.contains(db2[c][i].vi() as u32));
        }
    }
    assert(closed_under(db2, t, v2)) by {
        assert forall|c: int| 0 <= c < db2.len() && !t_sat(t, #[trigger] db2[c]) && touches(t, db2[c], v2) implies inside(
            t,
            db2[c],
            v2,
        ) by {
            assert(c < db.len());
            assert(db2[c] == db[c]);
        }
    }
    assert forall|c: u32| #[trigger] c2.clauses.contains(c) <==> c < db2.len() && !t_sat(t, db2[c as int])
        && touches(t, db2[c as int], v2) by {
        if c < db.len() {
            assert(db2[c as int] == db[c as int]);
        } else if c < db2.len() {
            assert(!touches(t, db2[c as int], v2));
        }
    }
}

/// What solves a component still solves it when variables elsewhere change and clauses are added.
pub proof fn lemma_still_solves(o: Seq<Seq<Lit>>, db: Seq<Seq<Lit>>, comp: Comp, m: Valuation, m2: Valuation)
    requires
        grown(o, db),
        forall|k: int| 0 <= k < comp.clauses.len() ==> #[trigger] comp.clauses[k] < o.len(),
        solves(o, comp, m),
        forall|v: int|
            0 <= v <= u32::MAX && #[trigger] comp.vars.contains(v as u32) ==> m2(v) == m(v),
    ensures
        solves(db, comp, m2),
{
    assert forall|k: int| 0 <= k < comp.clauses.len() implies resid_clause(
        db[#[trigger] comp.clauses[k] as int],
        comp.vars,
        m2,
    ) by {
        let c = comp.clauses[k] as int;
        assert(db.take(o.len() as int)[c] == db[c]);
        assert(resid_clause(o[comp.clauses[k] as int], comp.vars, m));
        let i = choose|i: int|
            0 <= i < o[c].len() && comp.vars.contains((#[trigger] o[c][i]).vi() as u32) && lit_true(m, o[c][i]);
        assert(db[c][i] == o[c][i]);
        assert(comp.vars.contains(db[c][i].vi() as u32));
    }
}

/// An unsolvable component below the frame refutes the frame's clauses under the trail.
pub proof fn lemma_sub_refutes(s: &SearchState, f: Frame, comp: Comp)
    requires
        s.wf(),
        frame_ok(s, f),
        comp_within(s, f.vars, comp),
        forall|m: Valuation| !#[trigger] solves(s.db(), comp, m),
    ensures
        refuted(s.db(), s.trail(), f.clauses),
{
    let t = s.trail();
    assert forall|m: Valuation| #[trigger] agrees(m, t) implies !sat_all(s.db(), m, f.clauses) by {
        if sat_all(s.db(), m, f.clauses) {
            lemma_agrees_base(s, f, m);
            assert forall|k: int| 0 <= k < comp.clauses.len() implies clause_true(
                m,
                s.db()[#[trigger] comp.clauses[k] as int],
            ) by {
                assert(comp.clauses.contains(comp.clauses[k]));
                lemma_takes_part_below(s, f, s.db()[comp.clauses[k] as int], var_set(comp.vars));
            }
            lemma_solves_if_true(s, comp, m);
            assert(!solves(s.db(), comp, m));
        }
    }
}

/// What is active and touches part of the frame's variables now takes part in the frame.
pub proof fn lemma_takes_part_below(s: &SearchState, f: Frame, c: Seq<Lit>, w: Set<int>)
    requires
        f.base.len() <= s.trail().len(),
        s.trail().take(f.base.len() as int) == f.base,
        !t_sat(s.trail(), c),
        touches(s.trail(), c, w),
        w.subset_of(f.vars),
    ensures
        takes_part(f, c),
{
    lemma_trail_grows(f.base, s.trail());
    let i = choose|i: int| 0 <= i < c.len() && !t_has(s.trail(), (#[trigger] c[i]).vi()) && w.contains(c[i].vi());
    assert(!t_has(f.base, c[i].vi()) && f.vars.contains(c[i].vi()));
}

/// Propagation below the frame: what is refuted after it was refuted before.
pub proof fn lemma_refuted_before_propagation(o: &SearchState, s: &SearchState, f: Frame)
    requires
        s.wf(),
        s.propagated_from(o),
        frame_ok(s, f),
        f.base.len() <= o.trail().len(),
        refuted(s.db(), s.trail(), f.clauses),
    ensures
        refuted(s.db(), o.trail(), f.clauses),
{
    assert forall|m: Valuation| #[trigger] agrees(m, o.trail()) implies !sat_all(s.db(), m, f.clauses) by {
        if sat_all(s.db(), m, f.clauses) {
            lemma_propagation_forced(o, s, f, m, s.trail().len() as int);
            assert(s.trail().take(s.trail().len() as int) =~= s.trail());
        }
    }
}

/// Pure literals: what is refuted after assigning them was refuted before.
pub proof fn lemma_refuted_before_pure(db: Seq<Seq<Lit>>, t: Seq<Lit>, u: Seq<Lit>, cs: Set<int>)
    requires
        keeps_models(db, t, u),
        refuted(db, u, cs),
        forall|c: int| #[trigger] cs.contains(c) ==> 0 <= c < db.len(),
    ensures
        refuted(db, t, cs),
{
    assert forall|m: Valuation| #[trigger] agrees(m, t) implies !sat_all(db, m, cs) by {
        if sat_all(db, m, cs) {
            assert(carried_over(db, m, u));
            let m2 = choose|m2: Valuation| #[trigger] agrees(m2, u) && keeps_clauses(db, m, m2);
            assert(sat_all(db, m2, cs)) by {
                assert forall|c: int| #[trigger] cs.contains(c) implies clause_true(m2, db[c]) by {
                    assert(clause_true(m, db[c]));
                }
            }
        }
    }
}

/// If both polarities are refuted, nothing solves the component.
pub proof fn lemma_both_refuted(s: &SearchState, comp: Comp, l: Lit)
    requires
        s.wf(),
        comp_shape(s.db(), s.trail(), s.nv(), comp),
        refuted(s.db(), s.trail().push(l), frame_of(s.trail(), comp).clauses),
        refuted(s.db(), s.trail().push(l.neg()), frame_of(s.trail(), comp).clauses),
    ensures
        forall|m: Valuation| !#[trigger] solves(s.db(), comp, m),
{
    let t = s.trail();
    assert forall|m: Valuation| !#[trigger] solves(s.db(), comp, m) by {
        if solves(s.db(), comp, m) {
            lemma_unsolvable(s, comp, m);
            let o = overlay(m, s.vals());
            crate::lit::lemma_negation_is_involutive(l);
            if lit_true(o, l) {
                assert(agrees(o, t.push(l))) by {
                    assert forall|i: int| 0 <= i < t.push(l).len() implies lit_true(o, #[trigger] t.push(l)[i]) by {
                        if i < t.len() {
                            assert(lit_true(o, t[i]));
                        }
                    }
                }
            } else {
                assert(agrees(o, t.push(l.neg()))) by {
                    assert forall|i: int| 0 <= i < t.push(l.neg()).len() implies lit_true(
                        o,
                        #[trigger] t.push(l.neg())[i],
                    ) by {
                        if i < t.len() {
                            assert(lit_true(o, t[i]));
                        }
                    }
                }
            }
        }
    }
}

} // verus!
