//! Bounded variable elimination: resolution where it does not make the formula bigger.

use vstd::prelude::*;
use crate::elim::{eliminate_var, Reconstruction, Working};
use crate::elim::elimination::{all_resolvents, clauses_on, eliminated, lemma_elimination_simplifies, resolvents, slots_on};
use crate::elim::reconstruction::{lemma_simplifications_compose, lemma_simplifies_refl, nested, simplifies, Undo};
use crate::elim::working::{live_count, occ_of, Slots};
use crate::lit::{mk_lit, Var};
use crate::sorting::{ascending, sorted_set, lemma_push_contains};

verus! {

/// Limits on how much work the preprocessor may do.
#[derive(Copy, Clone, Debug)]
pub struct Limits {
    /// Longest resolvent bounded variable elimination will accept.
    pub max_resolvent_len: usize,
    /// Skip variables with more occurrences than this; they are where the quadratic blowup lives.
    pub max_occurrences: usize,
    /// Rough cap on resolution attempts, so preprocessing cannot dominate the solve.
    pub work_budget: u64,
    /// Number of full simplification rounds.
    pub rounds: usize,
}

impl Default for Limits {
    fn default() -> (l: Self)
        ensures
            l.max_resolvent_len == 16,
            l.max_occurrences == 64,
            l.work_budget == 20_000_000,
            l.rounds == 4,
    {
        Limits { max_resolvent_len: 16, max_occurrences: 64, work_budget: 20_000_000, rounds: 4 }
    }
}

/// Both literals of the variable occur, neither more often than the limit allows.
pub open spec fn in_bounds(s: Slots, v: int, limits: Limits) -> bool {
    &&& 0 < occ_of(s, mk_lit(v, true)).len() <= limits.max_occurrences
    &&& 0 < occ_of(s, mk_lit(v, false)).len() <= limits.max_occurrences
}

/// The acceptance test of Eén and Biere: the resolvents are short enough, and number no more than
/// the clauses they replace.
pub open spec fn accepted(s: Slots, v: int, limits: Limits) -> bool {
    &&& in_bounds(s, v, limits)
    &&& forall|k: int|
        0 <= k < resolvents(s, v).len() ==> (#[trigger] resolvents(s, v)[k]).len() <= limits.max_resolvent_len
    &&& resolvents(s, v).len() <= slots_on(s, v).len()
}

/// How many resolution attempts eliminating the variable takes, as far as it can be counted.
pub open spec fn effort(s: Slots, v: int) -> int {
    let n = occ_of(s, mk_lit(v, true)).len() * occ_of(s, mk_lit(v, false)).len();
    if n > usize::MAX {
        usize::MAX as int
    } else {
        n as int
    }
}

/// A number that orders candidates by effort, then by variable.
pub open spec fn rank(s: Slots, v: int) -> int {
    effort(s, v) * 0x1_0000_0000 + v
}

/// The ranks of the variables below `n` that are in bounds, in order.
pub open spec fn is_ranking(s: Slots, n: int, limits: Limits, ranks: Seq<u128>) -> bool {
    &&& ascending(ranks)
    &&& forall|x: u128| #[trigger]
        ranks.contains(x) <==> exists|v: int| 0 <= v < n && #[trigger] in_bounds(s, v, limits) && x == rank(s, v)
}

/// What bounded elimination has done so far.
pub struct Pass {
    /// The clauses.
    pub clauses: Slots,
    /// The eliminations, in order.
    pub steps: Seq<Undo>,
    /// The resolution attempts accounted for.
    pub work: int,
}

/// Trying one candidate: nothing happens once the work budget is used up; else its effort is
/// accounted for, and the variable goes where the formula of the moment passes the test.
pub open spec fn attempt(a: Pass, x: u128, limits: Limits) -> Pass {
    let v = x as int % 0x1_0000_0000;
    let work = a.work + x as int / 0x1_0000_0000;
    if a.work >= limits.work_budget {
        a
    } else {
        let b = Pass { work: if work < u64::MAX { work } else { u64::MAX as int }, ..a };
        if accepted(a.clauses, v, limits) {
            Pass {
                clauses: eliminated(a.clauses, v),
                steps: a.steps.push(Undo::Eliminated(v, clauses_on(a.clauses, v))),
                ..b
            }
        } else {
            b
        }
    }
}

/// Trying the candidates in order.
pub open spec fn attempts(a: Pass, ranks: Seq<u128>, limits: Limits) -> Pass
    decreases ranks.len(),
{
    if ranks.len() == 0 {
        a
    } else {
        attempt(attempts(a, ranks.drop_last(), limits), ranks.last(), limits)
    }
}

/// Once the budget is used up, further candidates change nothing.
proof fn lemma_attempts_stop(a: Pass, ranks: Seq<u128>, k: int, limits: Limits)
    requires
        0 <= k <= ranks.len(),
        attempts(a, ranks.take(k), limits).work >= limits.work_budget,
    ensures
        attempts(a, ranks, limits) == attempts(a, ranks.take(k), limits),
    decreases ranks.len() - k,
{
    if k == ranks.len() {
        assert(ranks.take(k) =~= ranks);
    } else {
        assert(ranks.take(k + 1).drop_last() =~= ranks.take(k));
        lemma_attempts_stop(a, ranks, k + 1, limits);
    }
}

/// A rank tells its effort and its variable.
proof fn lemma_rank(s: Slots, v: int)
    requires
        0 <= v <= Var::MAX_INDEX,
    ensures
        0 <= rank(s, v) <= u128::MAX,
        rank(s, v) / 0x1_0000_0000 == effort(s, v),
        rank(s, v) % 0x1_0000_0000 == v,
        0 <= effort(s, v) <= u64::MAX,
{
}

/// The candidates for elimination, cheapest first.
fn candidates(w: &Working, limits: &Limits) -> (ranks: Vec<u128>)
    requires
        w.wf(),
    ensures
        is_ranking(w.slots(), w.nv(), *limits, ranks@),
{
    let ghost s = w.slots();
    let n: usize = w.num_vars();
    let mut keys: Vec<u128> = Vec::new();
    proof {
        w.lemma_wf();
    }
    for i in 0..n
        invariant
            w.wf(),
            s == w.slots(),
            n == w.nv(),
            n <= Var::MAX_INDEX + 1,
            forall|x: u128| #[trigger]
                keys@.contains(x) <==> exists|v: int|
                    0 <= v < i && #[trigger] in_bounds(s, v, *limits) && x == rank(s, v),
    {
        let var = Var::from_index(i);
        let pos: usize = w.count(var.positive());
        let neg: usize = w.count(var.negative());
        let ghost before = keys@;
        // A variable occurring on only one side is pure, and handled elsewhere.
        if pos > 0 && neg > 0 && pos <= limits.max_occurrences && neg <= limits.max_occurrences {
            proof {
                lemma_rank(s, i as int);
                assert(in_bounds(s, i as int, *limits));
            }
            let c: usize = match pos.checked_mul(neg) {
                Some(c) => c,
                None => usize::MAX,
            };
            assert(c == effort(s, i as int));
            let key: u128 = c as u128 * 0x1_0000_0000 + i as u128;
            proof {
                lemma_push_contains(before, key);
            }
            keys.push(key);
            proof {
                assert(key == rank(s, i as int));
                assert forall|x: u128| #[trigger]
                    keys@.contains(x) <==> exists|v: int|
                        0 <= v < i + 1 && #[trigger] in_bounds(s, v, *limits) && x == rank(s, v) by {
                    lemma_known(s, *limits, before, x, i as int, key);
                }
            }
        } else {
            proof {
                assert(!in_bounds(s, i as int, *limits));
                assert forall|x: u128| #[trigger]
                    keys@.contains(x) <==> exists|v: int|
                        0 <= v < i + 1 && #[trigger] in_bounds(s, v, *limits) && x == rank(s, v) by {
                    if exists|v: int| 0 <= v < i + 1 && #[trigger] in_bounds(s, v, *limits) && x == rank(s, v) {
                        let v = choose|v: int|
                            0 <= v < i + 1 && #[trigger] in_bounds(s, v, *limits) && x == rank(s, v);
                        assert(v < i);
                    }
                    if before.contains(x) {
                        let v = choose|v: int| 0 <= v < i && #[trigger] in_bounds(s, v, *limits) && x == rank(s, v);
                        assert(v < i + 1);
                    }
                }
            }
        }
    }
    let ranks = sorted_set(&keys);
    ranks
}

/// The ranks known so far grow by that of the next variable.
proof fn lemma_known(s: Slots, limits: Limits, before: Seq<u128>, x: u128, i: int, key: u128)
    requires
        before.contains(x) <==> exists|v: int| 0 <= v < i && #[trigger] in_bounds(s, v, limits) && x == rank(s, v),
        in_bounds(s, i, limits),
        key == rank(s, i),
        i >= 0,
    ensures
        before.contains(x) || x == key <==> exists|v: int|
            0 <= v < i + 1 && #[trigger] in_bounds(s, v, limits) && x == rank(s, v),
{
    if before.contains(x) {
        let v = choose|v: int| 0 <= v < i && #[trigger] in_bounds(s, v, limits) && x == rank(s, v);
        assert(v < i + 1);
    }
    if exists|v: int| 0 <= v < i + 1 && #[trigger] in_bounds(s, v, limits) && x == rank(s, v) {
        let v = choose|v: int| 0 <= v < i + 1 && #[trigger] in_bounds(s, v, limits) && x == rank(s, v);
        if v < i {
            assert(before.contains(x));
        }
    }
}

/// Length of the longest resolvent eliminating `var` would produce.
fn longest_resolvent(w: &Working, var: Var) -> (longest: usize)
    requires
        w.wf(),
        var.vi() < w.nv(),
    ensures
        forall|k: int|
            0 <= k < resolvents(w.slots(), var.vi()).len() ==> (#[trigger] resolvents(w.slots(), var.vi())[k]).len()
                <= longest,
        longest > 0 ==> exists|k: int|
            0 <= k < resolvents(w.slots(), var.vi()).len() && (#[trigger] resolvents(w.slots(), var.vi())[k]).len()
                == longest,
{
    let all = all_resolvents(w, var);
    let ghost f = resolvents(w.slots(), var.vi());
    let mut longest: usize = 0;
    for i in 0..all.len()
        invariant
            nested(all@) == f,
            all@.len() == f.len(),
            forall|k: int| 0 <= k < i ==> (#[trigger] f[k]).len() <= longest,
            longest > 0 ==> exists|k: int| 0 <= k < f.len() && (#[trigger] f[k]).len() == longest,
    {
        assert(f[i as int] == all@[i as int]@);
        if all[i].len() > longest {
            longest = all[i].len();
        }
    }
    longest
}

/// Bounded elimination leads from the clauses `s`, with `work` accounted for, to `p`.
pub open spec fn bounded_pass(s: Slots, n: int, limits: Limits, work: int, p: Pass) -> bool {
    exists|ranks: Seq<u128>| #[trigger]
        is_ranking(s, n, limits, ranks) && p == attempts(Pass { clauses: s, steps: Seq::empty(), work }, ranks, limits)
}

/// The test that gates an elimination.
fn test(w: &Working, var: Var, limits: &Limits) -> (b: bool)
    requires
        w.wf(),
        var.vi() < w.nv(),
    ensures
        b == accepted(w.slots(), var.vi(), *limits),
{
    proof {
        w.lemma_wf();
    }
    let pos: usize = w.count(var.positive());
    let neg: usize = w.count(var.negative());
    if pos == 0 || neg == 0 {
        return false;
    }
    if pos > limits.max_occurrences || neg > limits.max_occurrences {
        return false;
    }
    if longest_resolvent(w, var) > limits.max_resolvent_len {
        return false;
    }
    let count: usize = crate::elim::resolvent_count(w, var);
    count <= pos || count - pos <= neg
}

/// Eliminates variables whose removal does not grow the formula.
///
/// The acceptance test is Eén and Biere's: a variable goes if its non-tautological resolvents
/// number no more than the clauses they replace. Variables are tried cheapest-first, measured by
/// the product of their occurrence counts, because that product bounds the resolution work.
pub fn bounded_variable_elimination(
    w: &mut Working,
    trail: &mut Reconstruction,
    limits: &Limits,
    work: &mut u64,
) -> (eliminated: usize)
    requires
        old(w).wf(),
    ensures
        final(w).wf(),
        final(w).nv() == old(w).nv(),
        live_count(final(w).slots()) <= live_count(old(w).slots()),
        ({
            let steps = final(trail)@.skip(old(trail)@.len() as int);
            &&& final(trail)@ == old(trail)@ + steps
            &&& eliminated == steps.len()
            &&& simplifies(old(w).slots(), steps, final(w).slots(), old(w).nv())
            &&& bounded_pass(
                old(w).slots(),
                old(w).nv(),
                *limits,
                *old(work) as int,
                Pass { clauses: final(w).slots(), steps, work: *final(work) as int },
            )
        }),
{
    let ghost s = w.slots();
    let ghost n = w.nv();
    let ghost t0 = trail@;
    let ranks = candidates(w, limits);
    let ghost a = Pass { clauses: s, steps: Seq::empty(), work: *work as int };
    let before: usize = trail.len();
    let ghost mut steps = Seq::<Undo>::empty();
    proof {
        lemma_simplifies_refl(s, n);
        w.lemma_wf();
        assert(trail@ =~= t0 + steps);
        assert(ranks@.take(0).len() == 0);
    }
    let mut i: usize = 0;
    while i < ranks.len() && *work < limits.work_budget
        invariant
            i <= ranks@.len(),
            w.wf(),
            w.nv() == n,
            n <= Var::MAX_INDEX + 1,
            s == old(w).slots(),
            n == old(w).nv(),
            t0 == old(trail)@,
            is_ranking(s, n, *limits, ranks@),
            a == (Pass { clauses: s, steps: Seq::empty(), work: *old(work) as int }),
            (Pass { clauses: w.slots(), steps, work: *work as int }) == attempts(
                a,
                ranks@.take(i as int),
                *limits,
            ),
            trail@ == t0 + steps,
            simplifies(s, steps, w.slots(), n),
            live_count(w.slots()) <= live_count(s),
        decreases ranks.len() - i,
    {
        let x: u128 = ranks[i];
        proof {
            assert(ranks@.contains(x));
            let v = choose|v: int| 0 <= v < n && #[trigger] in_bounds(s, v, *limits) && x == rank(s, v);
            lemma_rank(s, v);
            assert(ranks@.take(i + 1).drop_last() =~= ranks@.take(i as int));
            assert(ranks@.take(i + 1).last() == x);
            w.lemma_wf();
        }
        let c: u64 = (x / 0x1_0000_0000) as u64;
        let v: usize = (x % 0x1_0000_0000) as usize;
        let var = Var::from_index(v);
        if *work > u64::MAX - c {
            *work = u64::MAX;
        } else {
            *work = *work + c;
        }
        // Test against the formula of the moment: earlier eliminations move the goalposts.
        if test(w, var, limits) {
            let ghost h = w.slots();
            let ghost done = seq![Undo::Eliminated(v as int, clauses_on(h, v as int))];
            proof {
                lemma_elimination_simplifies(h, v as int, n);
            }
            eliminate_var(w, var, trail);
            proof {
                lemma_simplifications_compose(s, steps, h, done, w.slots(), n);
                assert(steps + done =~= steps.push(done[0]));
                steps = steps + done;
                assert(trail@ =~= t0 + steps);
            }
        }
        i = i + 1;
    }
    proof {
        if i < ranks@.len() {
            lemma_attempts_stop(a, ranks@, i as int, *limits);
        } else {
            assert(ranks@.take(i as int) =~= ranks@);
        }
        assert(trail@.skip(t0.len() as int) =~= steps);
    }
    let after: usize = trail.len();
    after - before
}

} // verus!
