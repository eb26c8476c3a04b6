//! The trail that turns a model of a simplified formula into a model of the formula it came from.

use vstd::prelude::*;
use crate::cnf::Model;
use crate::lit::{Lit, Var};
use crate::semantics::{clause_below, clause_true, formula_below, formula_true, lemma_clause_true_agree, valuation, Valuation};
use super::working::{is_live, slots_normal, slots_true, Slots};

verus! {

/// One undoable simplification.
#[derive(Debug, Clone)]
pub enum Step {
    /// A variable was forced, by a unit clause or by being pure.
    Fixed(Lit),
    /// A variable was eliminated by resolution; the listed clauses were removed with it.
    Eliminated {
        /// The variable.
        var: Var,
        /// The clauses that mentioned it.
        clauses: Vec<Vec<Lit>>,
    },
}

/// What a step records.
pub enum Undo {
    /// The literal that was forced.
    Fixed(Lit),
    /// The variable that was eliminated, and the clauses that went with it.
    Eliminated(int, Seq<Seq<Lit>>),
}

/// The clauses of a list of lists.
pub open spec fn nested(clauses: Seq<Vec<Lit>>) -> Seq<Seq<Lit>> {
    Seq::new(clauses.len(), |i: int| clauses[i]@)
}

impl View for Step {
    type V = Undo;

    open spec fn view(&self) -> Undo {
        match *self {
            Step::Fixed(lit) => Undo::Fixed(lit),
            Step::Eliminated { var, clauses } => Undo::Eliminated(var.vi(), nested(clauses@)),
        }
    }
}

/// The step speaks of variables below `n` only.
pub open spec fn step_below(s: Undo, n: int) -> bool {
    match s {
        Undo::Fixed(lit) => lit.vi() < n,
        Undo::Eliminated(v, clauses) => 0 <= v < n && formula_below(clauses, n),
    }
}

/// Every step speaks of variables below `n` only.
pub open spec fn steps_below(steps: Seq<Undo>, n: int) -> bool {
    forall|i: int| 0 <= i < steps.len() ==> step_below(#[trigger] steps[i], n)
}

/// The model after undoing one step: a forced variable takes its forced value, an eliminated one
/// is false where that satisfies the clauses removed with it, and true otherwise.
pub open spec fn undo(s: Undo, m: Seq<bool>) -> Seq<bool> {
    match s {
        Undo::Fixed(lit) => m.update(lit.vi(), lit.pos()),
        Undo::Eliminated(v, clauses) => if formula_true(valuation(m.update(v, false)), clauses) {
            m.update(v, false)
        } else {
            m.update(v, true)
        },
    }
}

/// Some value of an eliminated variable satisfies the clauses removed with it.
pub open spec fn undoable(s: Undo, m: Seq<bool>) -> bool {
    match s {
        Undo::Fixed(_) => true,
        Undo::Eliminated(v, clauses) => formula_true(valuation(undo(s, m)), clauses),
    }
}

/// The model after undoing every step, the last one first.
pub open spec fn replay(steps: Seq<Undo>, m: Seq<bool>) -> Seq<bool>
    decreases steps.len(),
{
    if steps.len() == 0 {
        m
    } else {
        replay(steps.drop_last(), undo(steps.last(), m))
    }
}

/// Every step, when its turn comes, can be undone.
pub open spec fn replayable(steps: Seq<Undo>, m: Seq<bool>) -> bool
    decreases steps.len(),
{
    steps.len() > 0 ==> undoable(steps.last(), m) && replayable(
        steps.drop_last(),
        undo(steps.last(), m),
    )
}

/// Undoing steps keeps the number of variables.
pub proof fn lemma_replay_len(steps: Seq<Undo>, m: Seq<bool>)
    requires
        steps_below(steps, m.len() as int),
    ensures
        replay(steps, m).len() == m.len(),
    decreases steps.len(),
{
    if steps.len() > 0 {
        assert(step_below(steps[steps.len() - 1], m.len() as int));
        let p = steps.drop_last();
        assert forall|i: int| 0 <= i < p.len() implies step_below(#[trigger] p[i], m.len() as int) by {
            assert(p[i] == steps[i]);
        }
        lemma_replay_len(p, undo(steps.last(), m));
    }
}

/// Undoing a trail undoes its later part first, then its earlier part.
pub proof fn lemma_replay_concat(a: Seq<Undo>, b: Seq<Undo>, m: Seq<bool>)
    ensures
        replay(a + b, m) == replay(a, replay(b, m)),
        replayable(a + b, m) <==> replayable(b, m) && replayable(a, replay(b, m)),
    decreases b.len(),
{
    if b.len() == 0 {
        assert(a + b =~= a);
    } else {
        assert((a + b).drop_last() =~= a + b.drop_last());
        assert((a + b).last() == b.last());
        lemma_replay_concat(a, b.drop_last(), undo(b.last(), m));
    }
}

/// Some assignment makes every clause in the slots true.
pub open spec fn slots_sat(s: Slots) -> bool {
    exists|m: Valuation| slots_true(m, s)
}

/// Every model of `t` replays, through the steps, to a model of `s`.
pub open spec fn lifts(s: Slots, steps: Seq<Undo>, t: Slots, n: int) -> bool {
    forall|m: Seq<bool>|
        m.len() == n && #[trigger] slots_true(valuation(m), t) ==> replayable(steps, m) && slots_true(
            valuation(replay(steps, m)),
            s,
        )
}

/// The steps lead from `s` to `t` without loss: models of `t` replay to models of `s`, and `t` is
/// satisfiable where `s` is.
pub open spec fn simplifies(s: Slots, steps: Seq<Undo>, t: Slots, n: int) -> bool {
    &&& steps_below(steps, n)
    &&& lifts(s, steps, t, n)
    &&& slots_sat(s) ==> slots_sat(t)
}

/// Doing nothing loses nothing.
pub proof fn lemma_simplifies_refl(s: Slots, n: int)
    ensures
        simplifies(s, Seq::empty(), s, n),
{
}

/// Simplifications in sequence make one simplification.
pub proof fn lemma_simplifications_compose(
    s: Slots,
    a: Seq<Undo>,
    t: Slots,
    b: Seq<Undo>,
    u: Slots,
    n: int,
)
    requires
        simplifies(s, a, t, n),
        simplifies(t, b, u, n),
    ensures
        simplifies(s, a + b, u, n),
{
    assert forall|i: int| 0 <= i < (a + b).len() implies step_below(#[trigger] (a + b)[i], n) by {
        if i < a.len() {
            assert(step_below(a[i], n));
        } else {
            assert(step_below(b[i - a.len()], n));
        }
    }
    assert forall|m: Seq<bool>| m.len() == n && #[trigger] slots_true(valuation(m), u) implies replayable(
        a + b,
        m,
    ) && slots_true(valuation(replay(a + b, m)), s) by {
        lemma_replay_concat(a, b, m);
        lemma_replay_len(b, m);
        assert(slots_true(valuation(replay(b, m)), t));
    }
}

/// A simplification keeps whether a formula is satisfiable.
pub proof fn lemma_simplification_is_equisatisfiable(s: Slots, steps: Seq<Undo>, t: Slots, n: int)
    requires
        simplifies(s, steps, t, n),
        slots_normal(t, n),
        n >= 0,
    ensures
        slots_sat(s) <==> slots_sat(t),
{
    if slots_sat(t) {
        let m = choose|m: Valuation| slots_true(m, t);
        let values = Seq::new(n as nat, |v: int| m(v));
        assert forall|i: int| #[trigger] is_live(t, i) implies clause_true(valuation(values), t[i]->0) by {
            lemma_clause_true_agree(m, valuation(values), t[i]->0, n);
        }
        assert(slots_true(valuation(values), t));
        assert(slots_true(valuation(replay(steps, values)), s));
    }
}

/// The trail of simplifications, in the order in which they were made.
#[derive(Debug, Clone)]
pub struct Reconstruction {
    steps: Vec<Step>,
}

impl View for Reconstruction {
    type V = Seq<Undo>;

    /// The recorded steps.
    closed spec fn view(&self) -> Seq<Undo> {
        Seq::new(self.steps@.len(), |i: int| self.steps@[i]@)
    }
}

impl Default for Reconstruction {
    fn default() -> (r: Self)
        ensures
            r@ == Seq::<Undo>::empty(),
    {
        Reconstruction::new()
    }
}

impl Reconstruction {
    /// Creates an empty trail.
    pub fn new() -> (r: Self)
        ensures
            r@ == Seq::<Undo>::empty(),
    {
        let r = Reconstruction { steps: Vec::new() };
        assert(r@ =~= Seq::<Undo>::empty());
        r
    }

    /// Records that `lit` was forced true.
    pub fn fix(&mut self, lit: Lit)
        ensures
            final(self)@ == old(self)@.push(Undo::Fixed(lit)),
    {
        self.steps.push(Step::Fixed(lit));
        assert(self@ =~= old(self)@.push(Undo::Fixed(lit)));
    }

    /// Records that `var` was eliminated, along with every clause that mentioned it.
    pub fn eliminate(&mut self, var: Var, clauses: Vec<Vec<Lit>>)
        ensures
            final(self)@ == old(self)@.push(Undo::Eliminated(var.vi(), nested(clauses@))),
    {
        self.steps.push(Step::Eliminated { var, clauses });
        assert(self@ =~= old(self)@.push(Undo::Eliminated(var.vi(), nested(clauses@))));
    }

    /// Number of recorded steps.
    pub fn len(&self) -> (n: usize)
        ensures
            n == self@.len(),
    {
        self.steps.len()
    }

    /// Whether nothing was recorded.
    pub fn is_empty(&self) -> (b: bool)
        ensures
            b == (self@.len() == 0),
    {
        self.steps.is_empty()
    }

    /// Extends a model of the simplified formula to the original.
    ///
    /// Steps are replayed in reverse. A forced variable takes its forced value. An eliminated
    /// variable is given whichever polarity satisfies every clause that was removed with it,
    /// false where both do; at least one polarity always does, because the resolvents that
    /// replaced those clauses are satisfied by the model already in hand.
    pub fn extend(&self, model: &mut Model)
        requires
            steps_below(self@, old(model)@.len() as int),
            replayable(self@, old(model)@),
        ensures
            final(model)@ == replay(self@, old(model)@),
    {
        let ghost goal = replay(self@, model@);
        let ghost n = model@.len() as int;
        let mut i: usize = self.steps.len();
        assert(self@.take(i as int) =~= self@);
        while i > 0
            invariant
                i <= self@.len(),
                model@.len() == n,
                steps_below(self@, n),
                replayable(self@.take(i as int), model@),
                goal == replay(self@.take(i as int), model@),
            decreases i,
        {
            i = i - 1;
            let ghost before = model@;
            let ghost step = self@[i as int];
            proof {
                assert(self@.take(i + 1).drop_last() =~= self@.take(i as int));
                assert(self@.take(i + 1).last() == step);
                assert(step_below(step, n));
                assert(step == self.steps@[i as int]@);
            }
            match &self.steps[i] {
                Step::Fixed(lit) => {
                    model.set(lit.var(), lit.is_positive());
                },
                Step::Eliminated { var, clauses } => {
                    model.set(*var, false);
                    if !satisfies_all(model, clauses) {
                        model.set(*var, true);
                        assert(model@ =~= before.update(var.vi(), true));
                    }
                },
            }
            assert(model@ == undo(step, before));
        }
    }
}

/// Whether the model satisfies every clause of the list.
fn satisfies_all(model: &Model, clauses: &Vec<Vec<Lit>>) -> (b: bool)
    requires
        formula_below(nested(clauses@), model@.len() as int),
    ensures
        b == formula_true(valuation(model@), nested(clauses@)),
{
    for i in 0..clauses.len()
        invariant
            formula_below(nested(clauses@), model@.len() as int),
            forall|k: int| 0 <= k < i ==> clause_true(valuation(model@), #[trigger] nested(clauses@)[k]),
    {
        assert(clause_below(nested(clauses@)[i as int], model@.len() as int));
        if !model.satisfies(&clauses[i]) {
            assert(!clause_true(valuation(model@), nested(clauses@)[i as int]));
            return false;
        }
    }
    true
}

/// Undoing one step changes the value of its variable only. A variable that was fixed gets the value
/// that it was fixed to. One that was eliminated is false where that satisfies the clauses that went
/// with it, and true otherwise.
pub proof fn lemma_undoing_sets_one_variable(v: int, clauses: Seq<Seq<Lit>>, l: Lit, m: Seq<bool>, w: int)
    requires
        0 <= v < m.len(),
        0 <= l.vi() < m.len(),
        0 <= w < m.len(),
    ensures
        w != v ==> replay(seq![Undo::Eliminated(v, clauses)], m)[w] == m[w],
        replay(seq![Undo::Eliminated(v, clauses)], m)[v] == !(forall|i: int|
            0 <= i < clauses.len() ==> clause_true(valuation(m.update(v, false)), #[trigger] clauses[i])),
        w != l.vi() ==> replay(seq![Undo::Fixed(l)], m)[w] == m[w],
        replay(seq![Undo::Fixed(l)], m)[l.vi()] == l.pos(),
{
    let a = seq![Undo::Eliminated(v, clauses)];
    let b = seq![Undo::Fixed(l)];
    assert(a.drop_last() =~= Seq::<Undo>::empty());
    assert(b.drop_last() =~= Seq::<Undo>::empty());
    reveal_with_fuel(replay, 2);
    assert(replay(a, m) == undo(a.last(), m));
    assert(replay(b, m) == undo(b.last(), m));
}

} // verus!
