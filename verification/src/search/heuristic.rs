//! Choosing the next variable to branch on.
//!
//! Every heuristic here scores literals by counting their occurrences in the *active* clauses of
//! the component being solved. That is affordable precisely because component analysis has
//! already walked those clauses; the scan is over a subproblem, not the whole formula.
//!
//! Scores are whole numbers, so ranking is exact and runs are reproducible.

use vstd::prelude::*;
use crate::count::{cnt, lemma_cnt_take};
use crate::lit::{mk_lit, Lit, Var};
use super::wide::{add_power, exceeds, sum_of, two_to, value};
use crate::search::component::{Comp, ComponentRef, ComponentStore};
use crate::search::state::{n_free, t_sat, SearchState};
use crate::semantics::clause_below;
use crate::text::{same_text, unknown_name, unknown_text};

verus! {

/// Which branching rule to use.
#[derive(Copy, Clone, PartialEq, Eq, Debug, Structural)]
pub enum Heuristic {
    /// Jeroslow–Wang: weight each occurrence by `2^-len`, so short clauses dominate.
    JeroslowWang,
    /// Dynamic Largest Individual Sum: pick the single literal occurring most often.
    Dlis,
    /// Dynamic Largest Combined Sum: pick the variable whose two literals occur most often.
    Dlcs,
    /// Maximum Occurrences in clauses of Minimum Size.
    Mom,
    /// Lowest unassigned index, positive first. Deterministic and heuristic-free; used to
    /// isolate data-structure effects in benchmarks.
    Static,
}

impl Default for Heuristic {
    /// Jeroslow–Wang.
    fn default() -> (h: Self)
        ensures
            h == Heuristic::JeroslowWang,
    {
        Heuristic::JeroslowWang
    }
}

impl Heuristic {
    /// The name as text.
    pub open spec fn spec_name(self) -> Seq<char> {
        match self {
            Heuristic::JeroslowWang => "jw"@,
            Heuristic::Dlis => "dlis"@,
            Heuristic::Dlcs => "dlcs"@,
            Heuristic::Mom => "mom"@,
            Heuristic::Static => "static"@,
        }
    }

    /// Every heuristic, in a stable order for benchmark tables.
    pub fn all() -> (a: [Heuristic; 5])
        ensures
            a@ == seq![
                Heuristic::JeroslowWang,
                Heuristic::Dlis,
                Heuristic::Dlcs,
                Heuristic::Mom,
                Heuristic::Static,
            ],
            forall|h: Heuristic| a@.contains(h),
    {
        let a = [
            Heuristic::JeroslowWang,
            Heuristic::Dlis,
            Heuristic::Dlcs,
            Heuristic::Mom,
            Heuristic::Static,
        ];
        proof {
            let s = seq![
                Heuristic::JeroslowWang,
                Heuristic::Dlis,
                Heuristic::Dlcs,
                Heuristic::Mom,
                Heuristic::Static,
            ];
            assert(a@ =~= s);
            assert forall|h: Heuristic| a@.contains(h) by {
                match h {
                    Heuristic::JeroslowWang => assert(a@[0] == h),
                    Heuristic::Dlis => assert(a@[1] == h),
                    Heuristic::Dlcs => assert(a@[2] == h),
                    Heuristic::Mom => assert(a@[3] == h),
                    Heuristic::Static => assert(a@[4] == h),
                }
            }
        }
        a
    }

    /// The heuristic's command-line name.
    pub fn name(self) -> (s: &'static str)
        ensures
            s@ == self.spec_name(),
    {
        match self {
            Heuristic::JeroslowWang => "jw",
            Heuristic::Dlis => "dlis",
            Heuristic::Dlcs => "dlcs",
            Heuristic::Mom => "mom",
            Heuristic::Static => "static",
        }
    }

    /// Distinct heuristics have distinct names.
    pub proof fn lemma_names_distinct(a: Heuristic, b: Heuristic)
        ensures
            a.spec_name() == b.spec_name() ==> a == b,
    {
        reveal_strlit("jw");
        reveal_strlit("dlis");
        reveal_strlit("dlcs");
        reveal_strlit("mom");
        reveal_strlit("static");
        assert("jw"@.len() == 2 && "mom"@.len() == 3 && "static"@.len() == 6);
        assert("dlis"@.len() == 4 && "dlcs"@.len() == 4);
        assert("dlis"@[2] == 'i' && "dlcs"@[2] == 'c');
    }

    /// The heuristic with the given command-line name, or a message that names the unknown one.
    pub fn from_name(s: &str) -> (r: Result<Heuristic, String>)
        ensures
            forall|h: Heuristic| r == Ok::<Heuristic, String>(h) <==> s@ == #[trigger] h.spec_name(),
            r matches Err(e) ==> e@ == unknown_text("heuristic"@, s@),
    {
        proof {
            assert forall|a: Heuristic, b: Heuristic|
                #[trigger] a.spec_name() == #[trigger] b.spec_name() implies a == b by {
                Heuristic::lemma_names_distinct(a, b);
            }
        }
        if same_text(s, "jw") {
            assert(s@ == Heuristic::JeroslowWang.spec_name());
            Ok(Heuristic::JeroslowWang)
        } else if same_text(s, "dlis") {
            assert(s@ == Heuristic::Dlis.spec_name());
            Ok(Heuristic::Dlis)
        } else if same_text(s, "dlcs") {
            assert(s@ == Heuristic::Dlcs.spec_name());
            Ok(Heuristic::Dlcs)
        } else if same_text(s, "mom") {
            assert(s@ == Heuristic::Mom.spec_name());
            Ok(Heuristic::Mom)
        } else if same_text(s, "static") {
            assert(s@ == Heuristic::Static.spec_name());
            Ok(Heuristic::Static)
        } else {
            Err(unknown_name("heuristic", s))
        }
    }
}

impl core::str::FromStr for Heuristic {
    type Err = String;

    fn from_str(s: &str) -> (r: Result<Self, String>)
        ensures
            forall|h: Heuristic| r == Ok::<Heuristic, String>(h) <==> s@ == #[trigger] h.spec_name(),
            r matches Err(e) ==> e@ == unknown_text("heuristic"@, s@),
    {
        Heuristic::from_name(s)
    }
}

/// Weight applied to the product term in the MOM score.
pub const MOM_PRODUCT_WEIGHT: u128 = 1024;

/// A number cut to 128 bits.
pub open spec fn cut(n: nat) -> u128 {
    if n > u128::MAX {
        u128::MAX
    } else {
        n as u128
    }
}

/// The length of the longest active clause of the list; zero if there is none.
pub open spec fn longest(s: &SearchState, clauses: Seq<u32>) -> nat
    decreases clauses.len(),
{
    if clauses.len() == 0 {
        0
    } else {
        let m = longest(s, clauses.drop_last());
        let c = s.db()[clauses.last() as int];
        let n = n_free(c, s.vals());
        if t_sat(s.trail(), c) || n < m {
            m
        } else {
            n
        }
    }
}

/// The longest active length bounds the others.
proof fn lemma_longest(s: &SearchState, clauses: Seq<u32>, k: int)
    requires
        0 <= k < clauses.len(),
        !t_sat(s.trail(), s.db()[clauses[k] as int]),
    ensures
        n_free(s.db()[clauses[k] as int], s.vals()) <= longest(s, clauses),
    decreases clauses.len(),
{
    if k < clauses.len() - 1 {
        lemma_longest(s, clauses.drop_last(), k);
    }
}

/// The length of the shortest active clause of the list with at least `least` open literals; zero
/// if there is none.
pub open spec fn shortest(s: &SearchState, clauses: Seq<u32>, least: nat) -> nat
    decreases clauses.len(),
{
    if clauses.len() == 0 {
        0
    } else {
        let m = shortest(s, clauses.drop_last(), least);
        let c = s.db()[clauses.last() as int];
        let n = n_free(c, s.vals());
        if t_sat(s.trail(), c) || n < least {
            m
        } else if any_active(s, clauses.drop_last(), least) && m <= n {
            m
        } else {
            n
        }
    }
}

/// Some clause of the list is active with at least `least` open literals.
pub open spec fn any_active(s: &SearchState, clauses: Seq<u32>, least: nat) -> bool {
    exists|k: int|
        0 <= k < clauses.len() && !t_sat(s.trail(), s.db()[#[trigger] clauses[k] as int]) && n_free(
            s.db()[clauses[k] as int],
            s.vals(),
        ) >= least
}

/// The weight of one occurrence in a clause with `n` open literals. For Jeroslow-Wang that is `2^-n`,
/// scaled by `2^m` to whole numbers, where the longest clause has `m`; for MOM it counts the clauses
/// with `m`, the shortest.
pub open spec fn weight(h: Heuristic, n: nat, m: nat) -> nat {
    match h {
        Heuristic::JeroslowWang => two_to((m - n) as nat),
        Heuristic::Mom => if n == m {
            1
        } else {
            0
        },
        _ => 1,
    }
}

/// What clause `c` adds to the score of `l`.
pub open spec fn contribution(s: &SearchState, h: Heuristic, m: nat, c: Seq<Lit>, l: Lit) -> nat {
    if t_sat(s.trail(), c) || n_free(c, s.vals()) == 0 || s.vals()[l.vi()] is Some {
        0
    } else {
        weight(h, n_free(c, s.vals()), m) * cnt(c, l)
    }
}

/// The contributions of the listed clauses to the score of `l`, added up.
pub open spec fn raw_score(s: &SearchState, h: Heuristic, m: nat, clauses: Seq<u32>, l: Lit) -> nat
    decreases clauses.len(),
{
    if clauses.len() == 0 {
        0
    } else {
        raw_score(s, h, m, clauses.drop_last(), l) + contribution(
            s,
            h,
            m,
            s.db()[clauses.last() as int],
            l,
        )
    }
}

/// The score of a literal within a component: exact for Jeroslow-Wang, and otherwise a count of at
/// most 128 bits.
pub open spec fn score(s: &SearchState, h: Heuristic, clauses: Seq<u32>, l: Lit) -> nat {
    let raw = raw_score(s, h, yardstick(s, h, clauses), clauses, l);
    match h {
        Heuristic::JeroslowWang => raw,
        _ => cut(raw) as nat,
    }
}

/// The clause length that weights are measured against.
pub open spec fn yardstick(s: &SearchState, h: Heuristic, clauses: Seq<u32>) -> nat {
    match h {
        Heuristic::JeroslowWang => longest(s, clauses),
        Heuristic::Mom => shortest(s, clauses, 0),
        _ => 0,
    }
}

/// The rank of a variable, from the scores of its two literals.
pub open spec fn rank(h: Heuristic, pos: nat, neg: nat) -> nat {
    match h {
        Heuristic::JeroslowWang => pos + neg,
        Heuristic::Dlis => if pos > neg {
            pos
        } else {
            neg
        },
        Heuristic::Mom => cut(pos * neg * 1024 + pos + neg) as nat,
        _ => cut(pos + neg) as nat,
    }
}

/// The rank of variable `v` within a component.
pub open spec fn var_rank(s: &SearchState, h: Heuristic, clauses: Seq<u32>, v: int) -> nat {
    rank(h, score(s, h, clauses, mk_lit(v, true)), score(s, h, clauses, mk_lit(v, false)))
}

/// The branching literal: the first open variable, positive, under the static rule; otherwise the
/// first open variable of greatest rank, with the polarity of greater score, ties going positive.
pub open spec fn is_pick(s: &SearchState, comp: Comp, h: Heuristic, l: Lit) -> bool {
    exists|k: int|
        0 <= k < comp.vars.len() && #[trigger] comp.vars[k] as int == l.vi() && s.vals()[l.vi()] is None
            && if h == Heuristic::Static {
            l.pos() && forall|j: int| 0 <= j < k ==> s.vals()[#[trigger] comp.vars[j] as int] is Some
        } else {
            &&& l.pos() == (score(s, h, comp.clauses, mk_lit(l.vi(), true)) >= score(
                s,
                h,
                comp.clauses,
                mk_lit(l.vi(), false),
            ))
            &&& forall|j: int|
                0 <= j < comp.vars.len() && s.vals()[#[trigger] comp.vars[j] as int] is None ==> var_rank(
                    s,
                    h,
                    comp.clauses,
                    comp.vars[j] as int,
                ) <= var_rank(s, h, comp.clauses, l.vi())
            &&& forall|j: int|
                0 <= j < k && s.vals()[#[trigger] comp.vars[j] as int] is None ==> var_rank(
                    s,
                    h,
                    comp.clauses,
                    comp.vars[j] as int,
                ) < var_rank(s, h, comp.clauses, l.vi())
        }
}

proof fn lemma_cut_add(a: nat, b: nat)
    ensures
        cut(a + b) == cut((cut(a) + b) as nat),
{
}

/// Reusable scratch for scoring a component's literals.
#[derive(Debug)]
pub struct DecisionMaker {
    /// Score per literal index; zero between calls.
    scores: Vec<u128>,
    /// Score per literal index where it is a sum of powers of two; empty between calls.
    wide: Vec<Vec<u32>>,
}

/// A list has two places for each of `n` variables, and no more than can be numbered.
spec fn room_for(len: nat, n: int) -> bool {
    2 * n <= len <= 2 * (Var::MAX_INDEX + 1) && len % 2 == 0
}

impl DecisionMaker {
    /// How many variables the scratch space covers.
    pub closed spec fn nv(&self) -> int {
        self.scores@.len() as int / 2
    }

    /// Validity: two slots per variable, all cleared.
    pub closed spec fn wf(&self) -> bool {
        &&& self.scores@.len() % 2 == 0
        &&& self.scores@.len() <= 2 * (Var::MAX_INDEX + 1)
        &&& forall|k: int| 0 <= k < self.scores@.len() ==> #[trigger] self.scores@[k] == 0
        &&& self.wide@.len() == self.scores@.len()
        &&& forall|k: int| 0 <= k < self.wide@.len() ==> (#[trigger] self.wide@[k])@.len() == 0
    }

    /// Allocates scratch for a formula with `num_vars` variables.
    pub fn new(num_vars: usize) -> (d: Self)
        requires
            num_vars <= Var::MAX_INDEX + 1,
        ensures
            d.wf(),
            d.nv() == num_vars,
    {
        let mut wide: Vec<Vec<u32>> = Vec::new();
        for i in 0..2 * num_vars
            invariant
                num_vars <= Var::MAX_INDEX + 1,
                wide@.len() == i,
                forall|k: int| 0 <= k < i ==> (#[trigger] wide@[k])@.len() == 0,
        {
            wide.push(Vec::new());
        }
        DecisionMaker { scores: vec![0; 2 * num_vars], wide }
    }

    /// The shortest active clause of the list with at least `least` open literals.
    fn shortest_active(state: &SearchState, clauses: &[u32], least: usize) -> (m: usize)
        requires
            state.wf(),
            forall|k: int| 0 <= k < clauses@.len() ==> #[trigger] clauses@[k] < state.db().len(),
        ensures
            m == shortest(state, clauses@, least as nat),
    {
        let mut m: usize = 0;
        let mut found = false;
        for i in 0..clauses.len()
            invariant
                state.wf(),
                forall|k: int| 0 <= k < clauses@.len() ==> #[trigger] clauses@[k] < state.db().len(),
                m == shortest(state, clauses@.take(i as int), least as nat),
                found == any_active(state, clauses@.take(i as int), least as nat),
        {
            let c: usize = clauses[i] as usize;
            let ghost part = clauses@.take(i as int);
            proof {
                assert(clauses@.take(i + 1).drop_last() =~= part);
                assert(clauses@.take(i + 1) =~= part.push(clauses@[i as int]));
                lemma_any_active_push(state, part, clauses@[i as int], least as nat);
            }
            if state.is_active(c) {
                let n: usize = state.unassigned_literals(c);
                if n >= least {
                    if !found || n < m {
                        m = n;
                    }
                    found = true;
                }
            }
        }
        assert(clauses@.take(clauses@.len() as int) =~= clauses@);
        m
    }

    /// Adds the weight of clause `c` to the scores of its open literals.
    fn add_clause(&mut self, state: &SearchState, c: usize, w: u128, Ghost(base): Ghost<spec_fn(Lit) -> nat>)
        requires
            state.wf(),
            c < state.db().len(),
            room_for(old(self).scores@.len(), state.nv()),
            forall|k: int|
                0 <= k < old(self).scores@.len() ==> #[trigger] old(self).scores@[k] == cut(
                    base(Lit { code: k as u32 }),
                ),
        ensures
            final(self).wide == old(self).wide,
            final(self).scores@.len() == old(self).scores@.len(),
            forall|k: int|
                0 <= k < final(self).scores@.len() ==> #[trigger] final(self).scores@[k] == cut(
                    base(Lit { code: k as u32 }) + if state.vals()[(Lit { code: k as u32 }).vi()] is Some {
                        0nat
                    } else {
                        w as nat * cnt(state.db()[c as int], Lit { code: k as u32 })
                    },
                ),
    {
        let clause = state.clause(c);
        let ghost cs = state.db()[c as int];
        assert(clause_below(state.db()[c as int], state.nv()));
        proof {
            assert forall|k: int| 0 <= k < self.scores@.len() implies #[trigger] self.scores@[k] == cut(
                base(Lit { code: k as u32 }) + if state.vals()[(Lit { code: k as u32 }).vi()] is Some {
                    0nat
                } else {
                    w as nat * cnt(cs.take(0), Lit { code: k as u32 })
                },
            ) by {
                assert(w as nat * 0 == 0) by (nonlinear_arith);
            }
        }
        for i in 0..clause.len()
            invariant
                state.wf(),
                clause@ == cs,
                clause_below(cs, state.nv()),
                self.wide == old(self).wide,
                room_for(self.scores@.len(), state.nv()),
                self.scores@.len() == old(self).scores@.len(),
                forall|k: int|
                    0 <= k < self.scores@.len() ==> #[trigger] self.scores@[k] == cut(
                        base(Lit { code: k as u32 }) + if state.vals()[(Lit { code: k as u32 }).vi()] is Some {
                            0nat
                        } else {
                            w as nat * cnt(cs.take(i as int), Lit { code: k as u32 })
                        },
                    ),
        {
            let l = clause[i];
            let ghost before = self.scores@;
            assert(cs[i as int].vi() < state.nv());
            if state.value_of_index(l.var().index()).is_none() {
                let li: usize = l.index();
                self.scores[li] = self.scores[li].saturating_add(w);
            }
            proof {
                assert forall|k: int| 0 <= k < self.scores@.len() implies #[trigger] self.scores@[k] == cut(
                    base(Lit { code: k as u32 }) + if state.vals()[(Lit { code: k as u32 }).vi()] is Some {
                        0nat
                    } else {
                        w as nat * cnt(cs.take(i + 1), Lit { code: k as u32 })
                    },
                ) by {
                    let x = Lit { code: k as u32 };
                    lemma_cnt_take(cs, i as int, x);
                    let n = cnt(cs.take(i as int), x);
                    assert(before[k] == cut(base(x) + if state.vals()[x.vi()] is Some {
                        0nat
                    } else {
                        w as nat * n
                    }));
                    if x == l && state.vals()[x.vi()] is None {
                        assert(w as nat * (n + 1) == w as nat * n + w as nat) by (nonlinear_arith);
                        lemma_cut_add(base(x) + w as nat * n, w as nat);
                    } else if x == l {
                    } else {
                        assert(k != l.code);
                    }
                }
            }
        }
        assert(cs.take(cs.len() as int) =~= cs);
    }

    /// Clears the scores of the literals of the listed clauses.
    fn clear_scores(&mut self, state: &SearchState, clauses: &[u32])
        requires
            state.wf(),
            old(self).wide@.len() == old(self).scores@.len(),
            forall|k: int| 0 <= k < old(self).wide@.len() ==> (#[trigger] old(self).wide@[k])@.len() == 0,
            room_for(old(self).scores@.len(), state.nv()),
            forall|k: int| 0 <= k < clauses@.len() ==> #[trigger] clauses@[k] < state.db().len(),
            forall|k: int|
                0 <= k < old(self).scores@.len() && #[trigger] old(self).scores@[k] != 0 ==> exists|j: int|
                    0 <= j < clauses@.len() && state.db()[#[trigger] clauses@[j] as int].contains(
                        Lit { code: k as u32 },
                    ),
        ensures
            final(self).wf(),
            final(self).scores@.len() == old(self).scores@.len(),
    {
        let ghost s0 = self.scores@;
        for j in 0..clauses.len()
            invariant
                state.wf(),
                self.wide == old(self).wide,
                room_for(self.scores@.len(), state.nv()),
                self.scores@.len() == old(self).scores@.len(),
                self.scores@.len() == s0.len(),
                forall|k: int| 0 <= k < clauses@.len() ==> #[trigger] clauses@[k] < state.db().len(),
                forall|k: int|
                    0 <= k < self.scores@.len() && #[trigger] self.scores@[k] != 0 ==> s0[k] != 0 && forall|q: int|
                        0 <= q < j ==> !state.db()[#[trigger] clauses@[q] as int].contains(
                            Lit { code: k as u32 },
                        ),
        {
            let clause = state.clause(clauses[j] as usize);
            let ghost cs = state.db()[clauses@[j as int] as int];
            let ghost before = self.scores@;
            assert(clause_below(cs, state.nv()));
            for i in 0..clause.len()
                invariant
                    clause@ == cs,
                    clause_below(cs, state.nv()),
                    self.wide == old(self).wide,
                    room_for(self.scores@.len(), state.nv()),
                    self.scores@.len() == old(self).scores@.len(),
                    before.len() == self.scores@.len(),
                    forall|k: int|
                        0 <= k < self.scores@.len() && #[trigger] self.scores@[k] != 0 ==> before[k] != 0
                            && forall|q: int| 0 <= q < i ==> (#[trigger] cs[q]).code != k,
            {
                assert(cs[i as int].vi() < state.nv());
                let li: usize = clause[i].index();
                self.scores[li] = 0;
            }
            proof {
                assert forall|k: int| 0 <= k < self.scores@.len() && #[trigger] self.scores@[k] != 0 implies s0[k] != 0
                    && forall|q: int|
                    0 <= q < j + 1 ==> !state.db()[#[trigger] clauses@[q] as int].contains(
                        Lit { code: k as u32 },
                    ) by {
                    assert(before[k] != 0);
                    assert forall|q: int| 0 <= q < j + 1 implies !state.db()[#[trigger] clauses@[q] as int].contains(
                        Lit { code: k as u32 },
                    ) by {
                        if q == j {
                            if cs.contains(Lit { code: k as u32 }) {
                                let z = choose|z: int| 0 <= z < cs.len() && cs[z] == (Lit { code: k as u32 });
                                assert(cs[z].code == k);
                            }
                        }
                    }
                }
            }
        }
        proof {
            assert forall|k: int| 0 <= k < self.scores@.len() implies #[trigger] self.scores@[k] == 0 by {
                if self.scores@[k] != 0 {
                    assert(s0[k] != 0);
                    let j = choose|j: int|
                        0 <= j < clauses@.len() && state.db()[#[trigger] clauses@[j] as int].contains(
                            Lit { code: k as u32 },
                        );
                    assert(!state.db()[clauses@[j] as int].contains(Lit { code: k as u32 }));
                }
            }
        }
    }
}

proof fn lemma_any_active_push(s: &SearchState, part: Seq<u32>, c: u32, least: nat)
    ensures
        any_active(s, part.push(c), least) <==> any_active(s, part, least) || (!t_sat(
            s.trail(),
            s.db()[c as int],
        ) && n_free(s.db()[c as int], s.vals()) >= least),
{
    let all = part.push(c);
    if any_active(s, part, least) {
        let k = choose|k: int|
            0 <= k < part.len() && !t_sat(s.trail(), s.db()[#[trigger] part[k] as int]) && n_free(
                s.db()[part[k] as int],
                s.vals(),
            ) >= least;
        assert(all[k] == part[k]);
    }
    if any_active(s, all, least) {
        let k = choose|k: int|
            0 <= k < all.len() && !t_sat(s.trail(), s.db()[#[trigger] all[k] as int]) && n_free(
                s.db()[all[k] as int],
                s.vals(),
            ) >= least;
        if k < part.len() {
            assert(all[k] == part[k]);
        }
    }
    assert(all[part.len() as int] == c);
}

/// The product, cut to 128 bits.
fn cut_product(a: u128, b: u128) -> (r: u128)
    ensures
        r == cut((a * b) as nat),
{
    match a.checked_mul(b) {
        Some(r) => r,
        None => u128::MAX,
    }
}

/// Cutting in between makes no difference to the MOM rank.
proof fn lemma_mom(q: nat, both: u128, product: u128, pos: u128, neg: u128)
    requires
        both == cut(q),
        product == cut((both * 1024) as nat),
    ensures
        cut((cut((product + pos) as nat) + neg) as nat) == cut(q * 1024 + pos as nat + neg as nat),
{
}

/// The rank of a variable, from the scores of its two literals.
fn rank_of(h: Heuristic, pos: u128, neg: u128) -> (r: u128)
    requires
        h != Heuristic::JeroslowWang,
    ensures
        r == rank(h, pos as nat, neg as nat),
{
    match h {
        // DLIS ranks by the best single literal; the others by the variable as a whole.
        Heuristic::Dlis => if pos > neg {
            pos
        } else {
            neg
        },
        // MOM rewards variables that are active on *both* sides, because branching on
        // them is what actually shrinks the minimum-size clauses.
        Heuristic::Mom => {
            let both: u128 = cut_product(pos, neg);
            let product: u128 = cut_product(both, MOM_PRODUCT_WEIGHT);
            proof {
                vstd::arithmetic::mul::lemma_mul_nonnegative(pos as int, neg as int);
                lemma_mom((pos * neg) as nat, both, product, pos, neg);
            }
            product.saturating_add(pos).saturating_add(neg)
        },
        _ => pos.saturating_add(neg),
    }
}

impl DecisionMaker {
    /// Scores the open literals of a component.
    #[verifier::rlimit(100)]
    fn score_clauses(&mut self, state: &SearchState, clauses: &[u32], h: Heuristic)
        requires
            old(self).wf(),
            old(self).nv() >= state.nv(),
            state.wf(),
            h != Heuristic::JeroslowWang,
            forall|k: int| 0 <= k < clauses@.len() ==> #[trigger] clauses@[k] < state.db().len(),
        ensures
            final(self).wide == old(self).wide,
            final(self).scores@.len() == old(self).scores@.len(),
            room_for(final(self).scores@.len(), state.nv()),
            forall|k: int|
                0 <= k < final(self).scores@.len() ==> #[trigger] final(self).scores@[k] == score(
                    state,
                    h,
                    clauses@,
                    Lit { code: k as u32 },
                ),
    {
        let m: usize = match h {
            // MOM needs the minimum active clause length before it can score anything.
            Heuristic::Mom => DecisionMaker::shortest_active(state, clauses, 0),
            _ => 0,
        };
        proof {
            assert(clauses@.take(0) =~= Seq::<u32>::empty());
        }
        for i in 0..clauses.len()
            invariant
                state.wf(),
                forall|k: int| 0 <= k < clauses@.len() ==> #[trigger] clauses@[k] < state.db().len(),
                m == yardstick(state, h, clauses@),
                h != Heuristic::JeroslowWang,
                self.wide == old(self).wide,
                room_for(self.scores@.len(), state.nv()),
                self.scores@.len() == old(self).scores@.len(),
                forall|k: int|
                    0 <= k < self.scores@.len() ==> #[trigger] self.scores@[k] == cut(
                        raw_score(state, h, m as nat, clauses@.take(i as int), Lit { code: k as u32 }),
                    ),
        {
            let c: usize = clauses[i] as usize;
            let ghost part = clauses@.take(i as int);
            let ghost cs = state.db()[c as int];
            let ghost base = |l: Lit| raw_score(state, h, m as nat, part, l);
            let ghost before = self.scores@;
            proof {
                assert(clauses@.take(i + 1).drop_last() =~= part);
                assert(clause_below(state.db()[c as int], state.nv()));
                state.lemma_clause_counts(cs);
            }
            let mut w: u128 = 0;
            if state.is_active(c) {
                let n: usize = state.unassigned_literals(c);
                if n > 0 {
                    w = match h {
                        Heuristic::Mom => if n == m {
                            1
                        } else {
                            0
                        },
                        _ => 1,
                    };
                    self.add_clause(state, c, w, Ghost(base));
                }
            }
            proof {
                assert forall|k: int| 0 <= k < self.scores@.len() implies #[trigger] self.scores@[k] == cut(
                    raw_score(state, h, m as nat, clauses@.take(i + 1), Lit { code: k as u32 }),
                ) by {
                    let x = Lit { code: k as u32 };
                    assert(before[k] == cut(base(x)));
                    assert(clauses@.take(i + 1).last() == clauses@[i as int]);
                    assert(raw_score(state, h, m as nat, clauses@.take(i + 1), x) == base(x) + contribution(
                        state,
                        h,
                        m as nat,
                        cs,
                        x,
                    ));
                }
            }
        }
        assert(clauses@.take(clauses@.len() as int) =~= clauses@);
    }

    /// The longest active clause of the list.
    fn longest_active(state: &SearchState, clauses: &[u32]) -> (m: usize)
        requires
            state.wf(),
            forall|k: int| 0 <= k < clauses@.len() ==> #[trigger] clauses@[k] < state.db().len(),
        ensures
            m == longest(state, clauses@),
    {
        let mut m: usize = 0;
        for i in 0..clauses.len()
            invariant
                state.wf(),
                forall|k: int| 0 <= k < clauses@.len() ==> #[trigger] clauses@[k] < state.db().len(),
                m == longest(state, clauses@.take(i as int)),
        {
            let c: usize = clauses[i] as usize;
            proof {
                assert(clauses@.take(i + 1).drop_last() =~= clauses@.take(i as int));
            }
            if state.is_active(c) {
                let n: usize = state.unassigned_literals(c);
                if n >= m {
                    m = n;
                }
            }
        }
        assert(clauses@.take(clauses@.len() as int) =~= clauses@);
        m
    }

    /// Adds the weight `2^k` of clause `c` to the wide scores of its open literals.
    fn add_wide(&mut self, state: &SearchState, c: usize, k: usize, Ghost(base): Ghost<spec_fn(Lit) -> nat>)
        requires
            state.wf(),
            c < state.db().len(),
            room_for(old(self).wide@.len(), state.nv()),
            forall|x: int|
                0 <= x < old(self).wide@.len() ==> value((#[trigger] old(self).wide@[x])@) == base(
                    Lit { code: x as u32 },
                ),
            forall|x: int|
                0 <= x < old(self).wide@.len() && (#[trigger] old(self).wide@[x])@.len() != 0 ==> value(
                    old(self).wide@[x]@,
                ) > 0,
        ensures
            final(self).scores == old(self).scores,
            forall|x: int|
                0 <= x < final(self).wide@.len() && (#[trigger] final(self).wide@[x])@.len() != 0 ==> value(
                    final(self).wide@[x]@,
                ) > 0,
            final(self).wide@.len() == old(self).wide@.len(),
            forall|x: int|
                0 <= x < final(self).wide@.len() ==> value((#[trigger] final(self).wide@[x])@) == base(
                    Lit { code: x as u32 },
                ) + if state.vals()[(Lit { code: x as u32 }).vi()] is Some {
                    0nat
                } else {
                    two_to(k as nat) * cnt(state.db()[c as int], Lit { code: x as u32 })
                },
    {
        let clause = state.clause(c);
        let ghost cs = state.db()[c as int];
        let ghost w = two_to(k as nat);
        assert(clause_below(state.db()[c as int], state.nv()));
        assert(w * 0 == 0) by (nonlinear_arith);
        for i in 0..clause.len()
            invariant
                state.wf(),
                clause@ == cs,
                clause_below(cs, state.nv()),
                w == two_to(k as nat),
                self.scores == old(self).scores,
                forall|x: int|
                    0 <= x < self.wide@.len() && (#[trigger] self.wide@[x])@.len() != 0 ==> value(self.wide@[x]@) > 0,
                room_for(self.wide@.len(), state.nv()),
                self.wide@.len() == old(self).wide@.len(),
                forall|x: int|
                    0 <= x < self.wide@.len() ==> value((#[trigger] self.wide@[x])@) == base(
                        Lit { code: x as u32 },
                    ) + if state.vals()[(Lit { code: x as u32 }).vi()] is Some {
                        0nat
                    } else {
                        w * cnt(cs.take(i as int), Lit { code: x as u32 })
                    },
        {
            let l = clause[i];
            let ghost before = self.wide@;
            assert(cs[i as int].vi() < state.nv());
            if state.value_of_index(l.var().index()).is_none() {
                let li: usize = l.index();
                add_power(&mut self.wide[li], k);
            }
            proof {
                assert forall|x: int| 0 <= x < self.wide@.len() implies value((#[trigger] self.wide@[x])@) == base(
                    Lit { code: x as u32 },
                ) + if state.vals()[(Lit { code: x as u32 }).vi()] is Some {
                    0nat
                } else {
                    w * cnt(cs.take(i + 1), Lit { code: x as u32 })
                } by {
                    let y = Lit { code: x as u32 };
                    lemma_cnt_take(cs, i as int, y);
                    let n = cnt(cs.take(i as int), y);
                    assert(value(before[x]@) == base(y) + if state.vals()[y.vi()] is Some {
                        0nat
                    } else {
                        w * n
                    });
                    if y == l && state.vals()[y.vi()] is None {
                        assert(w * (n + 1) == w * n + w) by (nonlinear_arith);
                    } else if y != l {
                        assert(x != l.code);
                    }
                }
            }
        }
        assert(cs.take(cs.len() as int) =~= cs);
    }

    /// Scores the open literals of a component by the lengths of their clauses.
    #[verifier::rlimit(100)]
    fn score_wide(&mut self, state: &SearchState, clauses: &[u32])
        requires
            old(self).wf(),
            old(self).nv() >= state.nv(),
            state.wf(),
            forall|k: int| 0 <= k < clauses@.len() ==> #[trigger] clauses@[k] < state.db().len(),
        ensures
            final(self).scores == old(self).scores,
            final(self).wide@.len() == old(self).wide@.len(),
            room_for(final(self).wide@.len(), state.nv()),
            forall|x: int|
                0 <= x < final(self).wide@.len() && (#[trigger] final(self).wide@[x])@.len() != 0 ==> value(
                    final(self).wide@[x]@,
                ) > 0,
            forall|k: int|
                0 <= k < final(self).wide@.len() ==> value((#[trigger] final(self).wide@[k])@) == score(
                    state,
                    Heuristic::JeroslowWang,
                    clauses@,
                    Lit { code: k as u32 },
                ),
    {
        let ghost h = Heuristic::JeroslowWang;
        assert forall|x: int| 0 <= x < self.wide@.len() implies value((#[trigger] self.wide@[x])@) == 0 by {}
        let m: usize = DecisionMaker::longest_active(state, clauses);
        proof {
            assert(clauses@.take(0) =~= Seq::<u32>::empty());
        }
        for i in 0..clauses.len()
            invariant
                state.wf(),
                forall|k: int| 0 <= k < clauses@.len() ==> #[trigger] clauses@[k] < state.db().len(),
                h == Heuristic::JeroslowWang,
                m == longest(state, clauses@),
                self.scores == old(self).scores,
                forall|x: int|
                    0 <= x < self.wide@.len() && (#[trigger] self.wide@[x])@.len() != 0 ==> value(self.wide@[x]@) > 0,
                room_for(self.wide@.len(), state.nv()),
                self.wide@.len() == old(self).wide@.len(),
                forall|k: int|
                    0 <= k < self.wide@.len() ==> value((#[trigger] self.wide@[k])@) == raw_score(
                        state,
                        h,
                        m as nat,
                        clauses@.take(i as int),
                        Lit { code: k as u32 },
                    ),
        {
            let c: usize = clauses[i] as usize;
            let ghost part = clauses@.take(i as int);
            let ghost cs = state.db()[c as int];
            let ghost base = |l: Lit| raw_score(state, h, m as nat, part, l);
            let ghost before = self.wide@;
            proof {
                assert(clauses@.take(i + 1).drop_last() =~= part);
                assert(clause_below(state.db()[c as int], state.nv()));
                state.lemma_clause_counts(cs);
                assert forall|k: int| 0 <= k < before.len() implies value((#[trigger] before[k])@) == base(
                    Lit { code: k as u32 },
                ) by {}
            }
            if state.is_active(c) {
                let n: usize = state.unassigned_literals(c);
                if n > 0 {
                    proof {
                        lemma_longest(state, clauses@, i as int);
                    }
                    // 2^-len: a binary clause counts four times a quaternary one.
                    self.add_wide(state, c, m - n, Ghost(base));
                }
            }
            proof {
                assert forall|k: int| 0 <= k < self.wide@.len() implies value((#[trigger] self.wide@[k])@) == raw_score(
                    state,
                    h,
                    m as nat,
                    clauses@.take(i + 1),
                    Lit { code: k as u32 },
                ) by {
                    let x = Lit { code: k as u32 };
                    assert(value(before[k]@) == base(x));
                    assert(clauses@.take(i + 1).last() == clauses@[i as int]);
                    assert(raw_score(state, h, m as nat, clauses@.take(i + 1), x) == base(x) + contribution(
                        state,
                        h,
                        m as nat,
                        cs,
                        x,
                    ));
                }
            }
        }
        assert(clauses@.take(clauses@.len() as int) =~= clauses@);
    }

    /// Clears the wide scores of the listed variables and of every literal that has one.
    fn clear_wide(&mut self, state: &SearchState, clauses: &[u32])
        requires
            state.wf(),
            room_for(old(self).scores@.len(), state.nv()),
            old(self).wide@.len() == old(self).scores@.len(),
            forall|k: int| 0 <= k < old(self).scores@.len() ==> #[trigger] old(self).scores@[k] == 0,
            room_for(old(self).wide@.len(), state.nv()),
            forall|k: int| 0 <= k < clauses@.len() ==> #[trigger] clauses@[k] < state.db().len(),
            forall|k: int|
                0 <= k < old(self).wide@.len() && (#[trigger] old(self).wide@[k])@.len() != 0 ==> exists|j: int|
                    0 <= j < clauses@.len() && state.db()[#[trigger] clauses@[j] as int].contains(
                        Lit { code: k as u32 },
                    ),
        ensures
            final(self).wf(),
            final(self).nv() == old(self).nv(),
    {
        let ghost s0 = self.wide@;
        for j in 0..clauses.len()
            invariant
                state.wf(),
                self.scores == old(self).scores,
                room_for(self.wide@.len(), state.nv()),
                self.wide@.len() == old(self).wide@.len(),
                self.wide@.len() == s0.len(),
                forall|k: int| 0 <= k < clauses@.len() ==> #[trigger] clauses@[k] < state.db().len(),
                forall|k: int|
                    0 <= k < self.wide@.len() && (#[trigger] self.wide@[k])@.len() != 0 ==> s0[k]@.len() != 0
                        && forall|q: int|
                        0 <= q < j ==> !state.db()[#[trigger] clauses@[q] as int].contains(
                            Lit { code: k as u32 },
                        ),
        {
            let clause = state.clause(clauses[j] as usize);
            let ghost cs = state.db()[clauses@[j as int] as int];
            let ghost before = self.wide@;
            assert(clause_below(cs, state.nv()));
            for i in 0..clause.len()
                invariant
                    clause@ == cs,
                    clause_below(cs, state.nv()),
                    self.scores == old(self).scores,
                    room_for(self.wide@.len(), state.nv()),
                    self.wide@.len() == old(self).wide@.len(),
                    before.len() == self.wide@.len(),
                    forall|k: int|
                        0 <= k < self.wide@.len() && (#[trigger] self.wide@[k])@.len() != 0 ==> before[k]@.len() != 0
                            && forall|q: int| 0 <= q < i ==> (#[trigger] cs[q]).code != k,
            {
                assert(cs[i as int].vi() < state.nv());
                let li: usize = clause[i].index();
                self.wide[li].clear();
            }
            proof {
                assert forall|k: int| 0 <= k < self.wide@.len() && (#[trigger] self.wide@[k])@.len() != 0 implies s0[k]@.len()
                    != 0 && forall|q: int|
                    0 <= q < j + 1 ==> !state.db()[#[trigger] clauses@[q] as int].contains(
                        Lit { code: k as u32 },
                    ) by {
                    assert(before[k]@.len() != 0);
                    assert forall|q: int| 0 <= q < j + 1 implies !state.db()[#[trigger] clauses@[q] as int].contains(
                        Lit { code: k as u32 },
                    ) by {
                        if q == j {
                            if cs.contains(Lit { code: k as u32 }) {
                                let z = choose|z: int| 0 <= z < cs.len() && cs[z] == (Lit { code: k as u32 });
                                assert(cs[z].code == k);
                            }
                        }
                    }
                }
            }
        }
        proof {
            assert forall|k: int| 0 <= k < self.wide@.len() implies (#[trigger] self.wide@[k])@.len() == 0 by {
                if self.wide@[k]@.len() != 0 {
                    assert(s0[k]@.len() != 0);
                    let j = choose|j: int|
                        0 <= j < clauses@.len() && state.db()[#[trigger] clauses@[j] as int].contains(
                            Lit { code: k as u32 },
                        );
                    assert(!state.db()[clauses@[j] as int].contains(Lit { code: k as u32 }));
                }
            }
        }
    }

    /// Chooses by the lengths of clauses, see [`DecisionMaker::pick`].
    #[verifier::rlimit(100)]
    fn pick_weighted(&mut self, state: &SearchState, store: &ComponentStore, component: ComponentRef) -> (r: Option<
        Lit,
    >)
        requires
            old(self).wf(),
            old(self).nv() >= state.nv(),
            state.wf(),
            store.wf(),
            component.at() < store.comps().len(),
            forall|k: int|
                0 <= k < store.comps()[component.at()].vars.len()
                    ==> #[trigger] store.comps()[component.at()].vars[k] < state.nv(),
            forall|k: int|
                0 <= k < store.comps()[component.at()].clauses.len()
                    ==> #[trigger] store.comps()[component.at()].clauses[k] < state.db().len(),
        ensures
            final(self).wf(),
            final(self).nv() == old(self).nv(),
            r is None <==> forall|k: int|
                0 <= k < store.comps()[component.at()].vars.len()
                    ==> state.vals()[#[trigger] store.comps()[component.at()].vars[k] as int] is Some,
            r matches Some(l) ==> is_pick(state, store.comps()[component.at()], Heuristic::JeroslowWang, l),
    {
        let ghost h = Heuristic::JeroslowWang;
        let ghost comp = store.comps()[component.at()];
        let vars = store.vars(component);
        let clauses = store.clauses(component);
        self.score_wide(state, clauses);
        let mut best: Option<Lit> = None;
        let mut best_rank: Vec<u32> = Vec::new();
        let ghost mut at: int = 0;
        for i in 0..vars.len()
            invariant
                state.wf(),
                vars@ == comp.vars,
                h == Heuristic::JeroslowWang,
                self.scores == old(self).scores,
                forall|x: int|
                    0 <= x < self.wide@.len() && (#[trigger] self.wide@[x])@.len() != 0 ==> value(self.wide@[x]@) > 0,
                forall|k: int| 0 <= k < comp.vars.len() ==> #[trigger] comp.vars[k] < state.nv(),
                room_for(self.wide@.len(), state.nv()),
                self.wide@.len() == old(self).wide@.len(),
                forall|k: int|
                    0 <= k < self.wide@.len() ==> value((#[trigger] self.wide@[k])@) == score(
                        state,
                        h,
                        comp.clauses,
                        Lit { code: k as u32 },
                    ),
                best is None ==> forall|j: int|
                    0 <= j < i ==> state.vals()[#[trigger] comp.vars[j] as int] is Some,
                best matches Some(l) ==> {
                    &&& 0 <= at < i
                    &&& comp.vars[at] as int == l.vi()
                    &&& state.vals()[l.vi()] is None
                    &&& l.pos() == (score(state, h, comp.clauses, mk_lit(l.vi(), true)) >= score(
                        state,
                        h,
                        comp.clauses,
                        mk_lit(l.vi(), false),
                    ))
                    &&& value(best_rank@) == var_rank(state, h, comp.clauses, l.vi())
                    &&& forall|j: int|
                        0 <= j < i && state.vals()[#[trigger] comp.vars[j] as int] is None ==> var_rank(
                            state,
                            h,
                            comp.clauses,
                            comp.vars[j] as int,
                        ) <= value(best_rank@)
                    &&& forall|j: int|
                        0 <= j < at && state.vals()[#[trigger] comp.vars[j] as int] is None ==> var_rank(
                            state,
                            h,
                            comp.clauses,
                            comp.vars[j] as int,
                        ) < value(best_rank@)
                },
        {
            let v: usize = vars[i] as usize;
            assert(comp.vars[i as int] < state.nv());
            if state.value_of_index(v).is_none() {
                let var = Var::from_index(v);
                let pl = var.positive();
                let nl = var.negative();
                let pi: usize = pl.index();
                let ni: usize = nl.index();
                let r = sum_of(self.wide[pi].as_slice(), self.wide[ni].as_slice());
                // Branch toward the polarity that satisfies more of what is left; ties go positive
                // so that runs are reproducible.
                let lit = var.lit(!exceeds(self.wide[ni].as_slice(), self.wide[pi].as_slice()));
                proof {
                    assert(Lit { code: pl.code } == pl);
                    assert(Lit { code: nl.code } == nl);
                    assert(value(self.wide@[pi as int]@) == score(state, h, comp.clauses, pl));
                    assert(value(self.wide@[ni as int]@) == score(state, h, comp.clauses, nl));
                    assert(value(r@) == var_rank(state, h, comp.clauses, v as int));
                }
                let better = match best {
                    Some(_) => exceeds(r.as_slice(), best_rank.as_slice()),
                    None => true,
                };
                if better {
                    best = Some(lit);
                    best_rank = r;
                    proof {
                        at = i as int;
                    }
                }
            }
        }
        proof {
            assert forall|k: int| 0 <= k < self.wide@.len() && (#[trigger] self.wide@[k])@.len() != 0 implies exists|j: int|
                0 <= j < clauses@.len() && state.db()[#[trigger] clauses@[j] as int].contains(
                    Lit { code: k as u32 },
                ) by {
                assert(value(self.wide@[k]@) > 0);
                lemma_score_source(state, h, yardstick(state, h, comp.clauses), comp.clauses, Lit { code: k as u32 });
            }
        }
        self.clear_wide(state, clauses);
        best
    }

    /// Chooses a literal to branch on within `component`.
    ///
    /// Returns `None` only if the component has no unassigned variables, which the search treats
    /// as an already-solved component.
    #[verifier::rlimit(100)]
    pub fn pick(
        &mut self,
        state: &SearchState,
        store: &ComponentStore,
        component: ComponentRef,
        heuristic: Heuristic,
    ) -> (r: Option<Lit>)
        requires
            old(self).wf(),
            old(self).nv() >= state.nv(),
            state.wf(),
            store.wf(),
            component.at() < store.comps().len(),
            forall|k: int|
                0 <= k < store.comps()[component.at()].vars.len()
                    ==> #[trigger] store.comps()[component.at()].vars[k] < state.nv(),
            forall|k: int|
                0 <= k < store.comps()[component.at()].clauses.len()
                    ==> #[trigger] store.comps()[component.at()].clauses[k] < state.db().len(),
        ensures
            final(self).wf(),
            final(self).nv() == old(self).nv(),
            r is None <==> forall|k: int|
                0 <= k < store.comps()[component.at()].vars.len()
                    ==> state.vals()[#[trigger] store.comps()[component.at()].vars[k] as int] is Some,
            r matches Some(l) ==> is_pick(state, store.comps()[component.at()], heuristic, l),
    {
        let ghost comp = store.comps()[component.at()];
        let vars = store.vars(component);
        if heuristic == Heuristic::Static {
            for i in 0..vars.len()
                invariant
                    state.wf(),
                    vars@ == comp.vars,
                    comp == store.comps()[component.at()],
                    forall|k: int| 0 <= k < comp.vars.len() ==> #[trigger] comp.vars[k] < state.nv(),
                    forall|j: int| 0 <= j < i ==> state.vals()[#[trigger] comp.vars[j] as int] is Some,
                    self.wf(),
                    self.nv() == old(self).nv(),
                    heuristic == Heuristic::Static,
            {
                let v: usize = vars[i] as usize;
                assert(comp.vars[i as int] < state.nv());
                if state.value_of_index(v).is_none() {
                    let l = Var::from_index(v).positive();
                    assert(store.comps()[component.at()].vars[i as int] as int == v);
                    assert(is_pick(state, comp, heuristic, l)) by {
                        assert(comp.vars[i as int] as int == l.vi());
                    }
                    return Some(l);
                }
            }
            return None;
        }
        if heuristic == Heuristic::JeroslowWang {
            return self.pick_weighted(state, store, component);
        }
        let clauses = store.clauses(component);
        self.score_clauses(state, clauses, heuristic);
        let mut best: Option<Lit> = None;
        let mut best_rank: u128 = 0;
        let ghost mut at: int = 0;
        for i in 0..vars.len()
            invariant
                state.wf(),
                vars@ == comp.vars,
                heuristic != Heuristic::JeroslowWang,
                self.wide == old(self).wide,
                forall|k: int| 0 <= k < comp.vars.len() ==> #[trigger] comp.vars[k] < state.nv(),
                room_for(self.scores@.len(), state.nv()),
                self.scores@.len() == old(self).scores@.len(),
                forall|k: int|
                    0 <= k < self.scores@.len() ==> #[trigger] self.scores@[k] == score(
                        state,
                        heuristic,
                        comp.clauses,
                        Lit { code: k as u32 },
                    ),
                best is None ==> forall|j: int|
                    0 <= j < i ==> state.vals()[#[trigger] comp.vars[j] as int] is Some,
                best matches Some(l) ==> {
                    &&& 0 <= at < i
                    &&& comp.vars[at] as int == l.vi()
                    &&& state.vals()[l.vi()] is None
                    &&& l.pos() == (score(state, heuristic, comp.clauses, mk_lit(l.vi(), true)) >= score(
                        state,
                        heuristic,
                        comp.clauses,
                        mk_lit(l.vi(), false),
                    ))
                    &&& best_rank == var_rank(state, heuristic, comp.clauses, l.vi())
                    &&& forall|j: int|
                        0 <= j < i && state.vals()[#[trigger] comp.vars[j] as int] is None ==> var_rank(
                            state,
                            heuristic,
                            comp.clauses,
                            comp.vars[j] as int,
                        ) <= best_rank
                    &&& forall|j: int|
                        0 <= j < at && state.vals()[#[trigger] comp.vars[j] as int] is None ==> var_rank(
                            state,
                            heuristic,
                            comp.clauses,
                            comp.vars[j] as int,
                        ) < best_rank
                },
        {
            let v: usize = vars[i] as usize;
            assert(comp.vars[i as int] < state.nv());
            if state.value_of_index(v).is_none() {
                let var = Var::from_index(v);
                let pl = var.positive();
                let nl = var.negative();
                let pos: u128 = self.scores[pl.index()];
                let neg: u128 = self.scores[nl.index()];
                let r: u128 = rank_of(heuristic, pos, neg);
                // Branch toward the polarity that satisfies more of what is left; ties go positive
                // so that runs are reproducible.
                let lit = var.lit(pos >= neg);
                proof {
                    assert(Lit { code: pl.code } == pl);
                    assert(Lit { code: nl.code } == nl);
                    assert(r == var_rank(state, heuristic, comp.clauses, v as int));
                }
                let better = match best {
                    Some(_) => r > best_rank,
                    None => true,
                };
                if better {
                    best = Some(lit);
                    best_rank = r;
                    proof {
                        at = i as int;
                    }
                }
            }
        }
        proof {
            assert forall|k: int| 0 <= k < self.scores@.len() && #[trigger] self.scores@[k] != 0 implies exists|j: int|
                0 <= j < clauses@.len() && state.db()[#[trigger] clauses@[j] as int].contains(
                    Lit { code: k as u32 },
                ) by {
                lemma_score_source(
                    state,
                    heuristic,
                    yardstick(state, heuristic, comp.clauses),
                    comp.clauses,
                    Lit { code: k as u32 },
                );
            }
        }
        self.clear_scores(state, clauses);
        best
    }
}

/// A literal with a score occurs in some clause of the list.
proof fn lemma_score_source(s: &SearchState, h: Heuristic, m: nat, clauses: Seq<u32>, l: Lit)
    requires
        raw_score(s, h, m, clauses, l) > 0,
    ensures
        exists|j: int| 0 <= j < clauses.len() && s.db()[#[trigger] clauses[j] as int].contains(l),
    decreases clauses.len(),
{
    let p = clauses.drop_last();
    let c = s.db()[clauses.last() as int];
    if raw_score(s, h, m, p, l) > 0 {
        lemma_score_source(s, h, m, p, l);
        let j = choose|j: int| 0 <= j < p.len() && s.db()[#[trigger] p[j] as int].contains(l);
        assert(clauses[j] == p[j]);
    } else {
        let w = weight(h, n_free(c, s.vals()), m);
        assert(cnt(c, l) > 0) by {
            if cnt(c, l) == 0 {
                assert(w * 0 == 0) by (nonlinear_arith);
            }
        }
        crate::count::lemma_cnt_contains(c, l);
        assert(s.db()[clauses[clauses.len() - 1] as int].contains(l));
    }
}

} // verus!
