//! What the branching rules promise.
//!
//! Each rule picks by how often literals occur in the clauses of a component that are not satisfied
//! yet. The counts here are taken clause by clause, with no regard to how the scores are kept.

use vstd::prelude::*;
use crate::count::cnt;
use crate::lit::{mk_lit, Lit};
use crate::sorting::ascending32;
use super::component::Comp;
use super::heuristic::{any_active, contribution, is_pick, longest, raw_score, score, shortest, var_rank, Heuristic};
use super::state::{n_free, t_sat, SearchState};
use super::wide::two_to;

verus! {

/// How often `l` occurs in the listed clauses that are not satisfied.
pub open spec fn occurs(s: &SearchState, clauses: Seq<u32>, l: Lit) -> nat
    decreases clauses.len(),
{
    if clauses.len() == 0 {
        0
    } else {
        let c = s.db()[clauses.last() as int];
        occurs(s, clauses.drop_last(), l) + if t_sat(s.trail(), c) {
            0
        } else {
            cnt(c, l)
        }
    }
}

/// How often `l` occurs in the listed clauses that are not satisfied and have `n` open literals.
pub open spec fn occurs_in_size(s: &SearchState, clauses: Seq<u32>, n: nat, l: Lit) -> nat
    decreases clauses.len(),
{
    if clauses.len() == 0 {
        0
    } else {
        let c = s.db()[clauses.last() as int];
        occurs_in_size(s, clauses.drop_last(), n, l) + if t_sat(s.trail(), c) || n_free(c, s.vals()) != n {
            0
        } else {
            cnt(c, l)
        }
    }
}

/// The occurrences of `l` in the listed clauses that are not satisfied, each weighted by two to the
/// minus the number of open literals, in units of two to the minus `unit`.
pub open spec fn weight_of(s: &SearchState, clauses: Seq<u32>, unit: nat, l: Lit) -> nat
    decreases clauses.len(),
{
    if clauses.len() == 0 {
        0
    } else {
        let c = s.db()[clauses.last() as int];
        weight_of(s, clauses.drop_last(), unit, l) + if t_sat(s.trail(), c) {
            0
        } else {
            two_to((unit - n_free(c, s.vals())) as nat) * cnt(c, l)
        }
    }
}

/// Each listed clause that is not satisfied has at most `n` open literals.
pub open spec fn none_longer(s: &SearchState, clauses: Seq<u32>, n: nat) -> bool {
    forall|k: int|
        0 <= k < clauses.len() && !t_sat(s.trail(), s.db()[#[trigger] clauses[k] as int]) ==> n_free(
            s.db()[clauses[k] as int],
            s.vals(),
        ) <= n
}

/// Some listed clause that is not satisfied has `n` open literals, and none has fewer.
pub open spec fn least_size(s: &SearchState, clauses: Seq<u32>, n: nat) -> bool {
    &&& forall|k: int|
        0 <= k < clauses.len() && !t_sat(s.trail(), s.db()[#[trigger] clauses[k] as int]) ==> n_free(
            s.db()[clauses[k] as int],
            s.vals(),
        ) >= n
    &&& exists|k: int|
        0 <= k < clauses.len() && !t_sat(s.trail(), s.db()[#[trigger] clauses[k] as int]) && n_free(
            s.db()[clauses[k] as int],
            s.vals(),
        ) == n
}

/// The component lists clauses of the state, and as many as memory can hold.
pub open spec fn listed(s: &SearchState, comp: Comp) -> bool {
    &&& s.wf()
    &&& comp.clauses.len() <= usize::MAX
    &&& forall|k: int| 0 <= k < comp.clauses.len() ==> #[trigger] comp.clauses[k] < s.db().len()
    &&& forall|k: int| 0 <= k < comp.vars.len() ==> #[trigger] comp.vars[k] < s.nv()
}

/// `v` is a variable of the component and has no value.
pub open spec fn is_open(s: &SearchState, comp: Comp, v: int) -> bool {
    0 <= v <= u32::MAX && comp.vars.contains(v as u32) && s.vals()[v] is None
}

/// `v` stands before `w` in the component.
pub open spec fn comes_before(comp: Comp, v: int, w: int) -> bool {
    exists|i: int, j: int|
        0 <= i < j < comp.vars.len() && #[trigger] comp.vars[i] as int == v && #[trigger] comp.vars[j] as int == w
            && forall|k: int| 0 <= k < j ==> #[trigger] comp.vars[k] as int != w
}

/// A clause in which an open literal occurs has an open literal.
proof fn lemma_open_counts(c: Seq<Lit>, vals: Seq<Option<bool>>, l: Lit)
    requires
        vals[l.vi()] is None,
    ensures
        cnt(c, l) <= n_free(c, vals),
        cnt(c, l) + cnt(c, l.neg()) <= c.len(),
    decreases c.len(),
{
    if c.len() > 0 {
        lemma_open_counts(c.drop_last(), vals, l);
    }
}

/// Without weights the score is the count.
proof fn lemma_counted(s: &SearchState, h: Heuristic, clauses: Seq<u32>, l: Lit)
    requires
        h == Heuristic::Dlis || h == Heuristic::Dlcs,
        s.vals()[l.vi()] is None,
    ensures
        raw_score(s, h, 0, clauses, l) == occurs(s, clauses, l),
    decreases clauses.len(),
{
    if clauses.len() > 0 {
        lemma_counted(s, h, clauses.drop_last(), l);
        let c = s.db()[clauses.last() as int];
        lemma_open_counts(c, s.vals(), l);
        assert(1 * cnt(c, l) == cnt(c, l));
    }
}

/// The counts of a variable's two literals fit into 128 bits together.
proof fn lemma_occurs_fits(s: &SearchState, clauses: Seq<u32>, l: Lit)
    requires
        s.wf(),
        forall|k: int| 0 <= k < clauses.len() ==> #[trigger] clauses[k] < s.db().len(),
        s.vals()[l.vi()] is None,
    ensures
        occurs(s, clauses, l) + occurs(s, clauses, l.neg()) <= clauses.len() * usize::MAX,
    decreases clauses.len(),
{
    if clauses.len() > 0 {
        let p = clauses.drop_last();
        assert forall|k: int| 0 <= k < p.len() implies #[trigger] p[k] < s.db().len() by {
            assert(p[k] == clauses[k]);
        }
        lemma_occurs_fits(s, p, l);
        let x = clauses.last() as int;
        assert(clauses[clauses.len() - 1] < s.db().len());
        s.lemma_clause_fits(x);
        lemma_open_counts(s.db()[x], s.vals(), l);
        assert(p.len() * usize::MAX + usize::MAX == clauses.len() * usize::MAX) by (nonlinear_arith)
            requires
                p.len() + 1 == clauses.len(),
        ;
    }
}

/// The score is the count.
proof fn lemma_score_counts(s: &SearchState, h: Heuristic, comp: Comp, l: Lit)
    requires
        h == Heuristic::Dlis || h == Heuristic::Dlcs,
        listed(s, comp),
        s.vals()[l.vi()] is None,
    ensures
        score(s, h, comp.clauses, l) == occurs(s, comp.clauses, l),
        occurs(s, comp.clauses, l) + occurs(s, comp.clauses, l.neg()) <= u128::MAX,
{
    lemma_counted(s, h, comp.clauses, l);
    lemma_occurs_fits(s, comp.clauses, l);
    let n = comp.clauses.len() as int;
    let m = usize::MAX as int;
    assert(n * m <= m * m) by (nonlinear_arith)
        requires
            0 <= n <= m,
    ;
    assert(m * m <= u128::MAX) by (nonlinear_arith)
        requires
            0 <= m <= 0xffff_ffff_ffff_ffff,
    ;
}

/// The literals of a variable.
proof fn lemma_literals(l: Lit)
    ensures
        l == mk_lit(l.vi(), l.pos()),
        l.neg() == mk_lit(l.vi(), !l.pos()),
        l.neg().vi() == l.vi(),
        mk_lit(l.vi(), true).vi() == l.vi(),
        mk_lit(l.vi(), false).vi() == l.vi(),
{
}

/// DLIS picks the single literal that occurs most often: no literal of an open variable of the
/// component occurs more often in the clauses left. Among equals it is the one of the variable that
/// comes first, and the positive one of the two.
pub proof fn lemma_dlis_picks_the_most_frequent_literal(s: &SearchState, comp: Comp, l: Lit, other: Lit)
    requires
        listed(s, comp),
        is_pick(s, comp, Heuristic::Dlis, l),
        is_open(s, comp, other.vi()),
    ensures
        is_open(s, comp, l.vi()),
        occurs(s, comp.clauses, other) <= occurs(s, comp.clauses, l),
        comes_before(comp, other.vi(), l.vi()) ==> occurs(s, comp.clauses, other) < occurs(s, comp.clauses, l),
        !l.pos() ==> occurs(s, comp.clauses, l.neg()) < occurs(s, comp.clauses, l),
{
    let h = Heuristic::Dlis;
    lemma_best(s, comp, h, l, other.vi());
    lemma_literals(l);
    lemma_literals(other);
    lemma_score_counts(s, h, comp, l);
    lemma_score_counts(s, h, comp, l.neg());
    lemma_score_counts(s, h, comp, other);
    lemma_score_counts(s, h, comp, other.neg());
}

/// DLCS picks a variable whose two literals together occur most often, the first of them, and the
/// literal of it that occurs more often, or else the positive one.
pub proof fn lemma_dlcs_picks_the_most_frequent_variable(s: &SearchState, comp: Comp, l: Lit, other: Lit)
    requires
        listed(s, comp),
        is_pick(s, comp, Heuristic::Dlcs, l),
        is_open(s, comp, other.vi()),
    ensures
        is_open(s, comp, l.vi()),
        occurs(s, comp.clauses, other) + occurs(s, comp.clauses, other.neg()) <= occurs(s, comp.clauses, l) + occurs(
            s,
            comp.clauses,
            l.neg(),
        ),
        comes_before(comp, other.vi(), l.vi()) ==> occurs(s, comp.clauses, other) + occurs(
            s,
            comp.clauses,
            other.neg(),
        ) < occurs(s, comp.clauses, l) + occurs(s, comp.clauses, l.neg()),
        occurs(s, comp.clauses, l.neg()) <= occurs(s, comp.clauses, l),
        !l.pos() ==> occurs(s, comp.clauses, l.neg()) < occurs(s, comp.clauses, l),
{
    let h = Heuristic::Dlcs;
    lemma_best(s, comp, h, l, other.vi());
    lemma_literals(l);
    lemma_literals(other);
    lemma_score_counts(s, h, comp, l);
    lemma_score_counts(s, h, comp, l.neg());
    lemma_score_counts(s, h, comp, other);
    lemma_score_counts(s, h, comp, other.neg());
}

/// Under MOM the score is the count in the shortest clauses.
proof fn lemma_counted_in_size(s: &SearchState, clauses: Seq<u32>, n: nat, l: Lit)
    requires
        s.vals()[l.vi()] is None,
    ensures
        raw_score(s, Heuristic::Mom, n, clauses, l) == occurs_in_size(s, clauses, n, l),
        occurs_in_size(s, clauses, n, l) <= occurs(s, clauses, l),
    decreases clauses.len(),
{
    if clauses.len() > 0 {
        lemma_counted_in_size(s, clauses.drop_last(), n, l);
        let c = s.db()[clauses.last() as int];
        lemma_open_counts(c, s.vals(), l);
        assert(1 * cnt(c, l) == cnt(c, l));
        assert(0 * cnt(c, l) == 0);
    }
}

/// The least size is the one that MOM looks at.
proof fn lemma_shortest(s: &SearchState, clauses: Seq<u32>)
    ensures
        any_active(s, clauses, 0) ==> least_size(s, clauses, shortest(s, clauses, 0)),
    decreases clauses.len(),
{
    if clauses.len() > 0 {
        let p = clauses.drop_last();
        lemma_shortest(s, p);
        let m = shortest(s, clauses, 0);
        let x = clauses.len() - 1;
        assert(clauses[x] == clauses.last());
        assert forall|k: int| 0 <= k < p.len() implies #[trigger] p[k] == clauses[k] by {}
        if any_active(s, clauses, 0) {
            if any_active(s, p, 0) {
                let k = choose|k: int|
                    0 <= k < p.len() && !t_sat(s.trail(), s.db()[#[trigger] p[k] as int]) && n_free(
                        s.db()[p[k] as int],
                        s.vals(),
                    ) == shortest(s, p, 0);
                assert(clauses[k] == p[k]);
            } else {
                let k = choose|k: int|
                    0 <= k < clauses.len() && !t_sat(s.trail(), s.db()[#[trigger] clauses[k] as int]) && n_free(
                        s.db()[clauses[k] as int],
                        s.vals(),
                    ) >= 0;
                assert(k == x) by {
                    if k < x {
                        assert(p[k] == clauses[k]);
                    }
                }
            }
            assert forall|k: int|
                0 <= k < clauses.len() && !t_sat(s.trail(), s.db()[#[trigger] clauses[k] as int]) implies n_free(
                s.db()[clauses[k] as int],
                s.vals(),
            ) >= m by {
                if k < x {
                    assert(p[k] == clauses[k]);
                }
            }
        }
    }
}

/// The rank of MOM: a thousand times the product and more, and the sum.
pub open spec fn mom_rank(p: nat, n: nat) -> nat {
    1024 * (p * n) + p + n
}

proof fn lemma_mom_score(s: &SearchState, comp: Comp, n: nat, l: Lit)
    requires
        listed(s, comp),
        least_size(s, comp.clauses, n),
        s.vals()[l.vi()] is None,
    ensures
        score(s, Heuristic::Mom, comp.clauses, l) == occurs_in_size(s, comp.clauses, n, l),
{
    let cs = comp.clauses;
    let k = choose|k: int|
        0 <= k < cs.len() && !t_sat(s.trail(), s.db()[#[trigger] cs[k] as int]) && n_free(
            s.db()[cs[k] as int],
            s.vals(),
        ) == n;
    assert(any_active(s, cs, 0)) by {
        assert(n_free(s.db()[cs[k] as int], s.vals()) >= 0);
    }
    lemma_shortest(s, cs);
    let m = shortest(s, cs, 0);
    let j = choose|j: int|
        0 <= j < cs.len() && !t_sat(s.trail(), s.db()[#[trigger] cs[j] as int]) && n_free(
            s.db()[cs[j] as int],
            s.vals(),
        ) == m;
    assert(n_free(s.db()[cs[j] as int], s.vals()) >= n);
    assert(n_free(s.db()[cs[k] as int], s.vals()) >= m);
    lemma_counted_in_size(s, cs, n, l);
    lemma_score_counts(s, Heuristic::Dlis, comp, l);
}

/// MOM counts occurrences in the shortest clauses left, those with `n` open literals. It picks the
/// first variable of greatest rank, where a variable that occurs there with both signs ranks high,
/// and the literal of it that occurs there more often, or else the positive one.
pub proof fn lemma_mom_picks_from_the_shortest_clauses(s: &SearchState, comp: Comp, n: nat, l: Lit, other: Lit)
    requires
        listed(s, comp),
        least_size(s, comp.clauses, n),
        is_pick(s, comp, Heuristic::Mom, l),
        is_open(s, comp, other.vi()),
    ensures
        is_open(s, comp, l.vi()),
        ({
            let mine = mom_rank(
                occurs_in_size(s, comp.clauses, n, l),
                occurs_in_size(s, comp.clauses, n, l.neg()),
            );
            let theirs = mom_rank(
                occurs_in_size(s, comp.clauses, n, other),
                occurs_in_size(s, comp.clauses, n, other.neg()),
            );
            &&& mine < u128::MAX ==> theirs <= mine
            &&& comes_before(comp, other.vi(), l.vi()) ==> theirs < mine
        }),
        occurs_in_size(s, comp.clauses, n, l.neg()) <= occurs_in_size(s, comp.clauses, n, l),
        !l.pos() ==> occurs_in_size(s, comp.clauses, n, l.neg()) < occurs_in_size(s, comp.clauses, n, l),
{
    let h = Heuristic::Mom;
    lemma_best(s, comp, h, l, other.vi());
    lemma_literals(l);
    lemma_literals(other);
    lemma_mom_score(s, comp, n, l);
    lemma_mom_score(s, comp, n, l.neg());
    lemma_mom_score(s, comp, n, other);
    lemma_mom_score(s, comp, n, other.neg());
    let (a, b) = (occurs_in_size(s, comp.clauses, n, l), occurs_in_size(s, comp.clauses, n, l.neg()));
    let (c, d) = (occurs_in_size(s, comp.clauses, n, other), occurs_in_size(s, comp.clauses, n, other.neg()));
    assert(a * b * 1024 == 1024 * (a * b) && b * a * 1024 == 1024 * (a * b) && b * a == a * b) by (nonlinear_arith);
    assert(c * d * 1024 == 1024 * (c * d) && d * c * 1024 == 1024 * (c * d) && d * c == c * d) by (nonlinear_arith);
    assert(a * b >= 0 && c * d >= 0) by (nonlinear_arith)
        requires
            a >= 0,
            b >= 0,
            c >= 0,
            d >= 0,
    ;
}

proof fn lemma_power_sum(a: nat, b: nat)
    ensures
        two_to(a + b) == two_to(a) * two_to(b),
        two_to(b) >= 1,
    decreases b,
{
    if b == 0 {
        assert(two_to(a) * 1 == two_to(a));
    } else {
        lemma_power_sum(a, (b - 1) as nat);
        let (x, y) = (two_to(a), two_to((b - 1) as nat));
        assert(2 * (x * y) == x * (2 * y)) by (nonlinear_arith);
        assert(two_to(a + b) == 2 * two_to((a + b - 1) as nat));
    }
}

proof fn lemma_none_longer(s: &SearchState, clauses: Seq<u32>)
    ensures
        none_longer(s, clauses, longest(s, clauses)),
    decreases clauses.len(),
{
    if clauses.len() > 0 {
        let p = clauses.drop_last();
        lemma_none_longer(s, p);
        let m = longest(s, clauses);
        assert forall|k: int|
            0 <= k < clauses.len() && !t_sat(s.trail(), s.db()[#[trigger] clauses[k] as int]) implies n_free(
            s.db()[clauses[k] as int],
            s.vals(),
        ) <= m by {
            if k < p.len() {
                assert(p[k] == clauses[k]);
            }
        }
    }
}

/// The longest length is at most any bound.
proof fn lemma_longest_is_least(s: &SearchState, clauses: Seq<u32>, unit: nat)
    requires
        none_longer(s, clauses, unit),
    ensures
        longest(s, clauses) <= unit,
    decreases clauses.len(),
{
    if clauses.len() > 0 {
        let p = clauses.drop_last();
        assert forall|k: int|
            0 <= k < p.len() && !t_sat(s.trail(), s.db()[#[trigger] p[k] as int]) implies n_free(
            s.db()[p[k] as int],
            s.vals(),
        ) <= unit by {
            assert(p[k] == clauses[k]);
        }
        lemma_longest_is_least(s, p, unit);
        assert(clauses[clauses.len() - 1] == clauses.last());
    }
}

/// The score measures the weight in its own unit.
proof fn lemma_weighed(s: &SearchState, clauses: Seq<u32>, m: nat, unit: nat, l: Lit)
    requires
        s.vals()[l.vi()] is None,
        none_longer(s, clauses, m),
        m <= unit,
    ensures
        weight_of(s, clauses, unit, l) == two_to((unit - m) as nat) * raw_score(
            s,
            Heuristic::JeroslowWang,
            m,
            clauses,
            l,
        ),
    decreases clauses.len(),
{
    let h = Heuristic::JeroslowWang;
    let f = two_to((unit - m) as nat);
    if clauses.len() > 0 {
        let p = clauses.drop_last();
        assert forall|k: int|
            0 <= k < p.len() && !t_sat(s.trail(), s.db()[#[trigger] p[k] as int]) implies n_free(
            s.db()[p[k] as int],
            s.vals(),
        ) <= m by {
            assert(p[k] == clauses[k]);
        }
        lemma_weighed(s, p, m, unit, l);
        let c = s.db()[clauses.last() as int];
        assert(clauses[clauses.len() - 1] == clauses.last());
        lemma_open_counts(c, s.vals(), l);
        let n = n_free(c, s.vals());
        let x = raw_score(s, h, m, p, l);
        let y = contribution(s, h, m, c, l);
        assert(f * (x + y) == f * x + f * y) by (nonlinear_arith);
        let k = cnt(c, l);
        if t_sat(s.trail(), c) {
            assert(f * 0 == 0);
        } else if n == 0 {
            assert(two_to((unit - n) as nat) * 0 == 0);
            assert(f * 0 == 0);
        } else {
            lemma_power_sum((unit - m) as nat, (m - n) as nat);
            assert((unit - m) as nat + (m - n) as nat == (unit - n) as nat);
            let g = two_to((m - n) as nat);
            assert((f * g) * k == f * (g * k)) by (nonlinear_arith);
        }
    } else {
        assert(f * 0 == 0);
    }
}

/// Jeroslow-Wang weights each occurrence by two to the minus the length of its clause, so that short
/// clauses dominate. It picks the first variable of greatest weight, both literals together, and the
/// literal of it that weighs more, or else the positive one. In whatever unit the weights are
/// measured, as long as it makes them whole, the order is the same.
pub proof fn lemma_jeroslow_wang_picks_the_greatest_weight(
    s: &SearchState,
    comp: Comp,
    unit: nat,
    l: Lit,
    other: Lit,
)
    requires
        listed(s, comp),
        none_longer(s, comp.clauses, unit),
        is_pick(s, comp, Heuristic::JeroslowWang, l),
        is_open(s, comp, other.vi()),
    ensures
        is_open(s, comp, l.vi()),
        weight_of(s, comp.clauses, unit, other) + weight_of(s, comp.clauses, unit, other.neg()) <= weight_of(
            s,
            comp.clauses,
            unit,
            l,
        ) + weight_of(s, comp.clauses, unit, l.neg()),
        comes_before(comp, other.vi(), l.vi()) ==> weight_of(s, comp.clauses, unit, other) + weight_of(
            s,
            comp.clauses,
            unit,
            other.neg(),
        ) < weight_of(s, comp.clauses, unit, l) + weight_of(s, comp.clauses, unit, l.neg()),
        weight_of(s, comp.clauses, unit, l.neg()) <= weight_of(s, comp.clauses, unit, l),
        !l.pos() ==> weight_of(s, comp.clauses, unit, l.neg()) < weight_of(s, comp.clauses, unit, l),
{
    let h = Heuristic::JeroslowWang;
    let cs = comp.clauses;
    lemma_best(s, comp, h, l, other.vi());
    lemma_literals(l);
    lemma_literals(other);
    let m = longest(s, cs);
    lemma_none_longer(s, cs);
    lemma_longest_is_least(s, cs, unit);
    lemma_weighed(s, cs, m, unit, l);
    lemma_weighed(s, cs, m, unit, l.neg());
    lemma_weighed(s, cs, m, unit, other);
    lemma_weighed(s, cs, m, unit, other.neg());
    lemma_power_sum(0, (unit - m) as nat);
    let f = two_to((unit - m) as nat);
    let (a, b) = (raw_score(s, h, m, cs, l), raw_score(s, h, m, cs, l.neg()));
    let (c, d) = (raw_score(s, h, m, cs, other), raw_score(s, h, m, cs, other.neg()));
    assert(c + d <= a + b ==> f * c + f * d <= f * a + f * b) by (nonlinear_arith)
        requires
            f >= 1,
    ;
    assert(c + d < a + b ==> f * c + f * d < f * a + f * b) by (nonlinear_arith)
        requires
            f >= 1,
    ;
    assert(b <= a ==> f * b <= f * a) by (nonlinear_arith)
        requires
            f >= 1,
    ;
    assert(b < a ==> f * b < f * a) by (nonlinear_arith)
        requires
            f >= 1,
    ;
}

/// The static rule picks the open variable of lowest index, and makes it true.
pub proof fn lemma_static_picks_the_lowest_variable(s: &SearchState, comp: Comp, l: Lit, v: int)
    requires
        ascending32(comp.vars),
        is_pick(s, comp, Heuristic::Static, l),
        is_open(s, comp, v),
    ensures
        is_open(s, comp, l.vi()),
        l.vi() <= v,
        l.pos(),
{
    let x = choose|k: int| 0 <= k < comp.vars.len() && #[trigger] comp.vars[k] == v as u32;
    let at = choose|k: int|
        0 <= k < comp.vars.len() && #[trigger] comp.vars[k] as int == l.vi() && s.vals()[l.vi()] is None && l.pos()
            && forall|j: int| 0 <= j < k ==> s.vals()[#[trigger] comp.vars[j] as int] is Some;
    assert(comp.vars[at] as int == l.vi());
    assert(comp.vars.contains(l.vi() as u32));
    assert(comp.vars[x] as int == v);
    if x < at {
        assert(s.vals()[comp.vars[x] as int] is Some);
    }
}

/// What a pick under a rule that ranks says of one more variable.
proof fn lemma_best(s: &SearchState, comp: Comp, h: Heuristic, l: Lit, v: int)
    requires
        is_pick(s, comp, h, l),
        h != Heuristic::Static,
        is_open(s, comp, v),
    ensures
        is_open(s, comp, l.vi()),
        var_rank(s, h, comp.clauses, v) <= var_rank(s, h, comp.clauses, l.vi()),
        comes_before(comp, v, l.vi()) ==> var_rank(s, h, comp.clauses, v) < var_rank(s, h, comp.clauses, l.vi()),
        l.pos() == (score(s, h, comp.clauses, mk_lit(l.vi(), true)) >= score(
            s,
            h,
            comp.clauses,
            mk_lit(l.vi(), false),
        )),
{
    let x = choose|k: int| 0 <= k < comp.vars.len() && #[trigger] comp.vars[k] == v as u32;
    let at = choose|k: int|
        0 <= k < comp.vars.len() && #[trigger] comp.vars[k] as int == l.vi() && s.vals()[l.vi()] is None && {
            &&& l.pos() == (score(s, h, comp.clauses, mk_lit(l.vi(), true)) >= score(
                s,
                h,
                comp.clauses,
                mk_lit(l.vi(), false),
            ))
            &&& forall|j: int|
                0 <= j < comp.vars.len() && s.vals()[#[trigger] comp.vars[j] as int] is None ==> var_rank(
                    s,
                    h,
                    comp.clauses,
                    comp.vars[j] as int,
                ) <= var_rank(s, h, comp.clauses, l.vi())
            &&& forall|j: int|
                0 <= j < k && s.vals()[#[trigger] comp.vars[j] as int] is None ==> var_rank(
                    s,
                    h,
                    comp.clauses,
                    comp.vars[j] as int,
                ) < var_rank(s, h, comp.clauses, l.vi())
        };
    assert(comp.vars[at] as int == l.vi());
    assert(comp.vars.contains(l.vi() as u32));
    assert(comp.vars[x] as int == v);
    if comes_before(comp, v, l.vi()) {
        let (i, j) = choose|i: int, j: int|
            0 <= i < j < comp.vars.len() && #[trigger] comp.vars[i] as int == v && #[trigger] comp.vars[j] as int
                == l.vi() && forall|k: int| 0 <= k < j ==> #[trigger] comp.vars[k] as int != l.vi();
        assert(at >= j);
        assert(comp.vars[i] as int == v);
    }
}

} // verus!
