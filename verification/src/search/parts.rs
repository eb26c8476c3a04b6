//! What a split into components means.

use vstd::prelude::*;
use crate::config::{Algorithm, Config};
use crate::lit::Lit;
use super::component::{splits, var_set, Comp};
use super::state::{closed_under, inside, t_has, t_sat, touches, SearchState};
use super::trace::divided;

verus! {

/// An active clause joins the two sets: it has an open variable in each.
pub open spec fn joins(db: Seq<Seq<Lit>>, t: Seq<Lit>, c: int, v: Set<int>, w: Set<int>) -> bool {
    0 <= c < db.len() && !t_sat(t, db[c]) && touches(t, db[c], v) && touches(t, db[c], w)
}

/// A component is connected: however its variables are divided in two, some clause that is not
/// satisfied joins the two parts.
pub proof fn lemma_components_are_connected(
    db: Seq<Seq<Lit>>,
    t: Seq<Lit>,
    n: int,
    scope: Seq<u32>,
    comps: Seq<Comp>,
    j: int,
    part: Set<int>,
    v: int,
    w: int,
)
    requires
        splits(db, t, n, scope, comps),
        0 <= j < comps.len(),
        part.contains(v),
        !part.contains(w),
        var_set(comps[j].vars).contains(v),
        var_set(comps[j].vars).contains(w),
    ensures
        exists|c: int| #[trigger]
            joins(db, t, c, var_set(comps[j].vars).intersect(part), var_set(comps[j].vars).difference(part)),
{
    let all = var_set(comps[j].vars);
    let a = all.intersect(part);
    let b = all.difference(part);
    if !(exists|c: int| #[trigger] joins(db, t, c, a, b)) {
        let k = choose|k: int|
            0 <= k < scope.len() && super::component::is_component(db, t, n, #[trigger] scope[k], comps[j]);
        let seed = scope[k] as int;
        assert(all.contains(seed)) by {
            assert(comps[j].vars.contains(scope[k]));
        }
        lemma_closed_part(db, t, all, a, b);
        lemma_closed_part(db, t, all, b, a);
        if part.contains(seed) {
            assert(a.contains(seed));
            assert(all.subset_of(a));
            assert(a.contains(w));
        } else {
            assert(b.contains(seed));
            assert(all.subset_of(b));
            assert(b.contains(v));
        }
    }
}

proof fn lemma_closed_part(db: Seq<Seq<Lit>>, t: Seq<Lit>, all: Set<int>, a: Set<int>, b: Set<int>)
    requires
        closed_under(db, t, all),
        forall|x: int| #[trigger] all.contains(x) <==> a.contains(x) || b.contains(x),
        forall|c: int| !(#[trigger] joins(db, t, c, a, b)) || !joins(db, t, c, b, a),
    ensures
        closed_under(db, t, a),
{
    assert forall|c: int| 0 <= c < db.len() && !t_sat(t, #[trigger] db[c]) && touches(t, db[c], a) implies inside(
        t,
        db[c],
        a,
    ) by {
        let i = choose|i: int|
            0 <= i < db[c].len() && !t_has(t, (#[trigger] db[c][i]).vi()) && a.contains(db[c][i].vi());
        assert(all.contains(db[c][i].vi()));
        assert(touches(t, db[c], all));
        assert(inside(t, db[c], all));
        assert forall|m: int| 0 <= m < db[c].len() && !t_has(t, (#[trigger] db[c][m]).vi()) implies a.contains(
            db[c][m].vi(),
        ) by {
            assert(all.contains(db[c][m].vi()));
            if !a.contains(db[c][m].vi()) {
                assert(touches(t, db[c], b));
                assert(joins(db, t, c, a, b));
                assert(joins(db, t, c, b, a));
            }
        }
    }
}

/// Components have nothing to do with each other: they share no variable, and no clause that is not
/// satisfied joins two of them.
pub proof fn lemma_components_are_independent(
    db: Seq<Seq<Lit>>,
    t: Seq<Lit>,
    n: int,
    scope: Seq<u32>,
    comps: Seq<Comp>,
    i: int,
    j: int,
    c: int,
)
    requires
        splits(db, t, n, scope, comps),
        0 <= i < j < comps.len(),
    ensures
        var_set(comps[i].vars).disjoint(var_set(comps[j].vars)),
        !joins(db, t, c, var_set(comps[i].vars), var_set(comps[j].vars)),
{
    let (a, b) = (var_set(comps[i].vars), var_set(comps[j].vars));
    assert forall|v: int| a.contains(v) implies !b.contains(v) by {
        assert(super::component::apart(comps[i], comps[j]));
        assert(comps[i].vars.contains(v as u32));
    }
    assert(super::component::seeded(db, t, n, scope, comps[i]));
    if joins(db, t, c, a, b) {
        assert(inside(t, db[c], a));
        let m = choose|m: int|
            0 <= m < db[c].len() && !t_has(t, (#[trigger] db[c][m]).vi()) && b.contains(db[c][m].vi());
        assert(a.contains(db[c][m].vi()));
    }
}

/// Nothing is left out: a variable of the scope with no value that occurs in a clause that is not
/// satisfied is in some component, and that clause is one of the component's.
pub proof fn lemma_components_leave_nothing_out(
    db: Seq<Seq<Lit>>,
    t: Seq<Lit>,
    n: int,
    scope: Seq<u32>,
    comps: Seq<Comp>,
    k: int,
    c: int,
    i: int,
)
    requires
        splits(db, t, n, scope, comps),
        0 <= k < scope.len(),
        !t_has(t, scope[k] as int),
        0 <= c < db.len() <= u32::MAX,
        0 <= i < db[c].len(),
        db[c][i].vi() == scope[k],
        !t_sat(t, db[c]),
    ensures
        exists|j: int|
            0 <= j < comps.len() && (#[trigger] comps[j]).vars.contains(scope[k]) && comps[j].clauses.contains(c as u32),
{
    assert(super::component::occurs_active(db, t, scope[k] as int)) by {
        assert(db[c][i].vi() == scope[k] as int);
    }
    assert(super::component::in_comps(comps, scope[k]));
    let j = choose|j: int| 0 <= j < comps.len() && (#[trigger] comps[j]).vars.contains(scope[k]);
    assert(super::component::seeded(db, t, n, scope, comps[j]));
    assert(var_set(comps[j].vars).contains(scope[k] as int));
    assert(touches(t, db[c], var_set(comps[j].vars)));
    assert(comps[j].clauses.contains(c as u32));
}

/// Plain search divides nothing: there is at most one component, and it has every variable of the scope
/// with no value that occurs in a clause that is not satisfied.
pub proof fn lemma_plain_search_divides_nothing(
    cfg: Config,
    s: SearchState,
    scope: Seq<u32>,
    comps: Seq<Comp>,
    k: int,
    c: int,
    i: int,
)
    requires
        cfg.algorithm == Algorithm::Dpll,
        divided(cfg, s, scope, comps),
        0 <= k < scope.len(),
        !t_has(s.trail(), scope[k] as int),
        0 <= c < s.db().len(),
        0 <= i < s.db()[c].len(),
        s.db()[c][i].vi() == scope[k],
        !t_sat(s.trail(), s.db()[c]),
    ensures
        comps.len() == 1,
        comps[0].vars.contains(scope[k]),
{
    reveal(divided);
    assert(super::component::occurs_active(s.db(), s.trail(), scope[k] as int)) by {
        assert(s.db()[c][i].vi() == scope[k] as int);
    }
    assert(scope.contains(scope[k]));
}

} // verus!
