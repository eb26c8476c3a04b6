//! The mutable search state: assignment, trail, clause counters, and conflict analysis.
//!
//! # Why counters instead of watched literals
//!
//! Component analysis runs at every search node and must enumerate the clauses that are still
//! active, which means asking of every clause whether it is *satisfied*. Watched literals cannot
//! answer that, so the state maintains, per clause, how many literals are currently true and how
//! many range over a variable that is still unassigned. Satisfied, active, unit and conflicting
//! all fall out in constant time, and the counters undo exactly on backtracking.
//!
//! # Conflict analysis
//!
//! [`SearchState::analyze_conflict`] implements first-UIP learning: resolve the conflicting
//! clause against the reasons of the literals that caused it, most recent first, until one
//! literal from the conflict level remains.
//!
//! Pure literals are assigned *without* a reason: purity preserves satisfiability but is no
//! implication. So there can be several reason-less assignments on one decision level. Resolution
//! stops at each of them and keeps the literal, exactly as it stops at a decision. The derived
//! clause is still a resolvent; it is simply not always asserting, and the `asserting` flag of
//! [`Conflict::Learned`] says so.

use vstd::prelude::*;
use crate::cnf::{lemma_cover, Cnf};
use crate::count::{cnt, copies, lemma_cnt_concat, lemma_cnt_contains, lemma_cnt_copies, lemma_cnt_prefix, lemma_cnt_take, lemma_cnt_two, lemma_cnt_update};
use crate::lit::{mk_lit, Lit, Var};
use crate::semantics::{clause_below, clause_true, formula_below, lit_true, Valuation};

verus! {

/// Marks a variable that was assigned by a decision or by pure literal elimination, neither of
/// which has a reason clause.
pub const NO_REASON: u32 = 0xffff_ffff;

/// The partial assignment makes the literal true.
pub open spec fn val_true(vals: Seq<Option<bool>>, l: Lit) -> bool {
    vals[l.vi()] == Some(l.pos())
}

/// The partial assignment makes the literal false.
pub open spec fn val_false(vals: Seq<Option<bool>>, l: Lit) -> bool {
    vals[l.vi()] == Some(!l.pos())
}

/// How many literals of the clause are true.
pub open spec fn n_true(c: Seq<Lit>, vals: Seq<Option<bool>>) -> nat
    decreases c.len(),
{
    if c.len() == 0 {
        0
    } else {
        n_true(c.drop_last(), vals) + if val_true(vals, c.last()) {
            1nat
        } else {
            0nat
        }
    }
}

/// How many literals of the clause are over unassigned variables.
pub open spec fn n_free(c: Seq<Lit>, vals: Seq<Option<bool>>) -> nat
    decreases c.len(),
{
    if c.len() == 0 {
        0
    } else {
        n_free(c.drop_last(), vals) + if vals[c.last().vi()] is None {
            1nat
        } else {
            0nat
        }
    }
}

/// The indices of the clauses that contain `l`, ascending, one entry per occurrence.
pub open spec fn occ_list(db: Seq<Seq<Lit>>, l: Lit) -> Seq<u32>
    decreases db.len(),
{
    if db.len() == 0 {
        Seq::empty()
    } else {
        occ_list(db.drop_last(), l) + copies((db.len() - 1) as u32, cnt(db.last(), l))
    }
}

/// The trail makes some literal of the clause true.
pub open spec fn t_sat(t: Seq<Lit>, c: Seq<Lit>) -> bool {
    exists|i: int| 0 <= i < c.len() && t.contains(#[trigger] c[i])
}

/// The trail makes every literal of the clause false.
pub open spec fn t_false(t: Seq<Lit>, c: Seq<Lit>) -> bool {
    forall|i: int| 0 <= i < c.len() ==> t.contains((#[trigger] c[i]).neg())
}

/// The trail assigns the variable.
pub open spec fn t_has(t: Seq<Lit>, v: int) -> bool {
    exists|i: int| 0 <= i < t.len() && (#[trigger] t[i]).vi() == v
}

/// The assignment agrees with every literal of the trail.
pub open spec fn agrees(m: Valuation, t: Seq<Lit>) -> bool {
    forall|i: int| 0 <= i < t.len() ==> lit_true(m, #[trigger] t[i])
}

/// Clause `c` forces `l` once the literals of `t` are assigned: it contains `l`, and every other
/// literal is false.
pub open spec fn forces(c: Seq<Lit>, l: Lit, t: Seq<Lit>) -> bool {
    exists|p: int|
        0 <= p < c.len() && #[trigger] c[p] == l && forall|q: int|
            0 <= q < c.len() && q != p ==> t.contains((#[trigger] c[q]).neg())
}

/// Position `i` of the trail lies in decision level `k`.
pub open spec fn at_level(lims: Seq<usize>, i: int, k: int) -> bool {
    &&& 0 <= k <= lims.len()
    &&& k > 0 ==> lims[k - 1] <= i
    &&& k < lims.len() ==> i < lims[k]
}

proof fn lemma_counts_bounded(c: Seq<Lit>, vals: Seq<Option<bool>>)
    ensures
        n_true(c, vals) <= c.len(),
        n_free(c, vals) <= c.len(),
    decreases c.len(),
{
    if c.len() > 0 {
        lemma_counts_bounded(c.drop_last(), vals);
    }
}

/// Assigning `l` moves the counters of every clause by its occurrences of `l` and its complement.
proof fn lemma_assign_counts(c: Seq<Lit>, vals: Seq<Option<bool>>, l: Lit)
    requires
        clause_below(c, vals.len() as int),
        l.vi() < vals.len(),
        vals[l.vi()] is None,
    ensures
        n_true(c, vals.update(l.vi(), Some(l.pos()))) == n_true(c, vals) + cnt(c, l),
        n_free(c, vals.update(l.vi(), Some(l.pos()))) + cnt(c, l) + cnt(c, l.neg()) == n_free(c, vals),
    decreases c.len(),
{
    if c.len() > 0 {
        let p = c.drop_last();
        assert(clause_below(p, vals.len() as int)) by {
            assert forall|i: int| 0 <= i < p.len() implies (#[trigger] p[i]).vi() < vals.len() by {
                assert(c[i].vi() < vals.len());
            }
        }
        lemma_assign_counts(p, vals, l);
        assert(c[c.len() - 1].vi() < vals.len());
    }
}

/// A clause without a true literal has a zero count, and conversely.
pub proof fn lemma_n_true_zero(c: Seq<Lit>, vals: Seq<Option<bool>>)
    ensures
        n_true(c, vals) == 0 <==> forall|i: int| 0 <= i < c.len() ==> !val_true(vals, #[trigger] c[i]),
    decreases c.len(),
{
    if c.len() > 0 {
        let p = c.drop_last();
        lemma_n_true_zero(p, vals);
        if n_true(c, vals) == 0 {
            assert forall|i: int| 0 <= i < c.len() implies !val_true(vals, #[trigger] c[i]) by {
                if i < p.len() {
                    assert(!val_true(vals, p[i]));
                }
            }
        }
        if forall|i: int| 0 <= i < c.len() ==> !val_true(vals, #[trigger] c[i]) {
            assert forall|i: int| 0 <= i < p.len() implies !val_true(vals, #[trigger] p[i]) by {
                assert(!val_true(vals, c[i]));
            }
            assert(!val_true(vals, c[c.len() - 1]));
        }
    }
}

/// A clause with no free literal has a zero count, and conversely; with two free literals the
/// count is at least two.
pub proof fn lemma_n_free_zero(c: Seq<Lit>, vals: Seq<Option<bool>>)
    ensures
        n_free(c, vals) == 0 <==> forall|i: int|
            0 <= i < c.len() ==> vals[(#[trigger] c[i]).vi()] is Some,
        forall|i: int, j: int|
            0 <= i < j < c.len() && vals[(#[trigger] c[i]).vi()] is None && vals[(
            #[trigger] c[j]).vi()] is None ==> n_free(c, vals) >= 2,
    decreases c.len(),
{
    if c.len() > 0 {
        let p = c.drop_last();
        lemma_n_free_zero(p, vals);
        if n_free(c, vals) == 0 {
            assert forall|i: int| 0 <= i < c.len() implies vals[(#[trigger] c[i]).vi()] is Some by {
                if i < p.len() {
                    assert(vals[p[i].vi()] is Some);
                }
            }
        }
        if forall|i: int| 0 <= i < c.len() ==> vals[(#[trigger] c[i]).vi()] is Some {
            assert forall|i: int| 0 <= i < p.len() implies vals[(#[trigger] p[i]).vi()] is Some by {
                assert(vals[c[i].vi()] is Some);
            }
            assert(vals[c[c.len() - 1].vi()] is Some);
        }
        assert forall|i: int, j: int|
            0 <= i < j < c.len() && vals[(#[trigger] c[i]).vi()] is None && vals[(
            #[trigger] c[j]).vi()] is None implies n_free(c, vals) >= 2 by {
            assert(p[i] == c[i]);
            assert(n_free(p, vals) != 0);
            if j < p.len() {
                assert(p[j] == c[j]);
            }
        }
    }
}

proof fn lemma_occ_list(db: Seq<Seq<Lit>>, l: Lit, c: int)
    requires
        0 <= c < db.len() <= u32::MAX,
    ensures
        cnt(occ_list(db, l), c as u32) == cnt(db[c], l),
    decreases db.len(),
{
    let p = db.drop_last();
    let n = (db.len() - 1) as u32;
    lemma_cnt_concat(occ_list(p, l), copies(n, cnt(db.last(), l)), c as u32);
    lemma_cnt_copies(n, cnt(db.last(), l), c as u32);
    if c < db.len() - 1 {
        lemma_occ_list(p, l, c);
    } else {
        lemma_occ_list_below(p, l);
        lemma_cnt_contains(occ_list(p, l), c as u32);
    }
}

/// Every entry of an occurrence list names a clause that contains the literal.
pub proof fn lemma_occ_list_below(db: Seq<Seq<Lit>>, l: Lit)
    requires
        db.len() <= u32::MAX,
    ensures
        forall|k: int|
            0 <= k < occ_list(db, l).len() ==> #[trigger] occ_list(db, l)[k] < db.len() && db[occ_list(
                db,
                l,
            )[k] as int].contains(l),
    decreases db.len(),
{
    if db.len() > 0 {
        let p = db.drop_last();
        lemma_occ_list_below(p, l);
        lemma_cnt_contains(db.last(), l);
        let s = occ_list(db, l);
        assert forall|k: int| 0 <= k < s.len() implies #[trigger] s[k] < db.len() && db[s[k] as int].contains(l) by {
            if k < occ_list(p, l).len() {
                assert(s[k] == occ_list(p, l)[k]);
                assert(p[s[k] as int] == db[s[k] as int]);
            } else {
                assert(db.last() == db[s[k] as int]);
            }
        }
    }
}

/// A clause that contains the literal is listed.
pub proof fn lemma_occ_list_complete(db: Seq<Seq<Lit>>, l: Lit, c: int)
    requires
        0 <= c < db.len() <= u32::MAX,
        db[c].contains(l),
    ensures
        occ_list(db, l).contains(c as u32),
{
    lemma_occ_list(db, l, c);
    lemma_cnt_contains(db[c], l);
    lemma_cnt_contains(occ_list(db, l), c as u32);
}

/// Occurrence lists never descend.
proof fn lemma_occ_list_sorted(db: Seq<Seq<Lit>>, l: Lit)
    requires
        db.len() <= u32::MAX,
    ensures
        forall|i: int, j: int|
            0 <= i <= j < occ_list(db, l).len() ==> #[trigger] occ_list(db, l)[i] <= #[trigger] occ_list(db, l)[j],
    decreases db.len(),
{
    if db.len() > 0 {
        let p = db.drop_last();
        lemma_occ_list_sorted(p, l);
        lemma_occ_list_below(p, l);
        let a = occ_list(p, l);
        let s = occ_list(db, l);
        assert forall|i: int, j: int| 0 <= i <= j < s.len() implies #[trigger] s[i] <= #[trigger] s[j] by {
            if j < a.len() {
                assert(a[i] <= a[j]);
            } else if i < a.len() {
                assert(a[i] < p.len());
            }
        }
    }
}

/// Past an entry of a list that never descends, nothing smaller comes.
proof fn lemma_smaller_before(s: Seq<u32>, k: int, d: u32)
    requires
        forall|i: int, j: int| 0 <= i <= j < s.len() ==> #[trigger] s[i] <= #[trigger] s[j],
        0 <= k < s.len(),
        d < s[k],
    ensures
        cnt(s.take(k), d) == cnt(s, d),
{
    let a = s.take(k);
    let b = s.skip(k);
    assert(s =~= a + b);
    lemma_cnt_concat(a, b, d);
    lemma_cnt_contains(b, d);
    if b.contains(d) {
        let i = b.index_of(d);
        assert(s[k] <= s[k + i]);
    }
}

/// Falsifying literal `l` of the clause queues it: it is left with no true literal and with one that
/// is open. A clause that has `l` more than once passes through that on its way to falsehood.
pub open spec fn wakes(c: Seq<Lit>, vals: Seq<Option<bool>>, l: Lit) -> bool {
    &&& cnt(c, l) > 0
    &&& n_true(c, vals) == 0
    &&& n_free(c, vals) == 1 || (n_free(c, vals) == 0 && cnt(c, l) >= 2)
}

/// The clauses among the first `n` that falsifying literal `l` queues, in order.
pub open spec fn woken(db: Seq<Seq<Lit>>, vals: Seq<Option<bool>>, l: Lit, n: int) -> Seq<u32>
    decreases n,
{
    if n <= 0 {
        Seq::empty()
    } else if wakes(db[n - 1], vals, l) {
        woken(db, vals, l, n - 1).push((n - 1) as u32)
    } else {
        woken(db, vals, l, n - 1)
    }
}

/// What going through the first `k` entries of the occurrence list queues.
spec fn pushed(db: Seq<Seq<Lit>>, vals: Seq<Option<bool>>, l: Lit, list: Seq<u32>, k: int) -> Seq<u32>
    decreases k,
{
    if k <= 0 {
        Seq::empty()
    } else {
        let before = pushed(db, vals, l, list, k - 1);
        let c = db[list[k - 1] as int];
        if n_true(c, vals) == 0 && n_free(c, vals) + cnt(c, l) - cnt(list.take(k), list[k - 1]) == 1 {
            before.push(list[k - 1])
        } else {
            before
        }
    }
}

/// The entries of the first clauses come first.
proof fn lemma_occ_list_prefix(db: Seq<Seq<Lit>>, l: Lit, n: int)
    requires
        0 <= n <= db.len(),
    ensures
        occ_list(db.take(n), l).len() <= occ_list(db, l).len(),
        occ_list(db, l).take(occ_list(db.take(n), l).len() as int) == occ_list(db.take(n), l),
    decreases db.len(),
{
    let a = occ_list(db.take(n), l);
    if n == db.len() {
        assert(db.take(n) =~= db);
        assert(a.take(a.len() as int) =~= a);
    } else {
        let p = db.drop_last();
        lemma_occ_list_prefix(p, l, n);
        assert(p.take(n) =~= db.take(n));
        assert(occ_list(db, l).take(a.len() as int) =~= occ_list(p, l).take(a.len() as int));
    }
}

/// Going through the entries of clause `n`.
proof fn lemma_pushed_block(db: Seq<Seq<Lit>>, vals: Seq<Option<bool>>, l: Lit, n: int, j: int)
    requires
        0 <= n < db.len() <= u32::MAX,
        0 <= j <= cnt(db[n], l),
        pushed(db, vals, l, occ_list(db, l), occ_list(db.take(n), l).len() as int) == woken(db, vals, l, n),
    ensures
        pushed(db, vals, l, occ_list(db, l), occ_list(db.take(n), l).len() + j) == (if n_true(db[n], vals) == 0 && 1
            <= n_free(db[n], vals) + cnt(db[n], l) - 1 <= j {
            woken(db, vals, l, n).push(n as u32)
        } else {
            woken(db, vals, l, n)
        }),
    decreases j,
{
    if j > 0 {
        lemma_pushed_block(db, vals, l, n, j - 1);
        let list = occ_list(db, l);
        let a = occ_list(db.take(n), l);
        let b = occ_list(db.take(n + 1), l);
        lemma_occ_list_prefix(db, l, n + 1);
        assert(db.take(n + 1).drop_last() =~= db.take(n));
        assert(b == a + copies(n as u32, cnt(db[n], l)));
        let k = a.len() + j;
        assert(list.take(b.len() as int)[k - 1] == list[k - 1]);
        assert(list[k - 1] == n as u32);
        assert(list.take(k) =~= a + copies(n as u32, j as nat)) by {
            assert forall|i: int| 0 <= i < k implies list.take(k)[i] == (a + copies(n as u32, j as nat))[i] by {
                assert(list.take(b.len() as int)[i] == list[i]);
            }
        }
        lemma_cnt_concat(a, copies(n as u32, j as nat), n as u32);
        lemma_cnt_copies(n as u32, j as nat, n as u32);
        lemma_occ_list_below(db.take(n), l);
        lemma_cnt_contains(a, n as u32);
        if a.contains(n as u32) {
            let i = a.index_of(n as u32);
            assert(a[i] < n);
        }
        assert(cnt(list.take(k), n as u32) == j);
    }
}

/// Going through the whole occurrence list queues the clauses that are woken.
proof fn lemma_pushed(db: Seq<Seq<Lit>>, vals: Seq<Option<bool>>, l: Lit, n: int)
    requires
        0 <= n <= db.len() <= u32::MAX,
    ensures
        pushed(db, vals, l, occ_list(db, l), occ_list(db.take(n), l).len() as int) == woken(db, vals, l, n),
    decreases n,
{
    if n > 0 {
        lemma_pushed(db, vals, l, n - 1);
        lemma_pushed_block(db, vals, l, n - 1, cnt(db[n - 1], l) as int);
        assert(db.take(n).drop_last() =~= db.take(n - 1));
        assert(occ_list(db.take(n), l).len() == occ_list(db.take(n - 1), l).len() + cnt(db[n - 1], l));
    } else {
        assert(db.take(0).len() == 0);
    }
}

/// What conflict analysis concluded.
#[derive(Copy, Clone, PartialEq, Eq, Debug, Structural)]
pub enum Conflict {
    /// Every literal of the conflicting clause is false at the root. Nothing can undo that, so
    /// the formula is unsatisfiable outright.
    Root,
    /// A clause was derived, but it was longer than the caller was willing to keep, so it was
    /// discarded. Nothing was added and no backjump is justified.
    TooLong(usize),
    /// A clause was derived and added to the database.
    Learned {
        /// Index of the derived clause.
        clause: u32,
        /// The decision level the search must return to for the clause to do any work. When the
        /// clause is asserting this is where its remaining literal becomes unit; otherwise it is
        /// simply the conflict level, meaning "no backjump is justified".
        assert_level: usize,
        /// Whether exactly one literal of the derived clause sits at the conflict level. Only
        /// then does backtracking to `assert_level` force an assignment; see the module notes on
        /// pure literals for why this is not always the case here.
        asserting: bool,
    },
}

/// Assignment, trail, clause counters and conflict analysis for one solve.
#[derive(Debug)]
pub struct SearchState {
    num_vars: usize,
    /// Clauses `0..num_original` came from the input; the rest were learned.
    num_original: usize,
    /// Literal occurrences in the input clauses.
    original_lits: usize,
    /// The clause database, input clauses first.
    clauses: Cnf,
    /// The clauses containing each literal, one entry per occurrence, input clauses first.
    occ: Vec<Vec<u32>>,
    /// How many entries of each occurrence list name input clauses.
    occ_split: Vec<usize>,
    /// True literals per clause. Zero means the clause is still active.
    sat_count: Vec<usize>,
    /// Unassigned literals per clause.
    unassigned_count: Vec<usize>,
    value: Vec<Option<bool>>,
    /// Decision level at which each variable was assigned; meaningless while unassigned.
    level: Vec<usize>,
    /// The clause that forced each variable, or [`NO_REASON`] for a decision or a pure literal.
    reason: Vec<u32>,
    trail: Vec<Lit>,
    trail_lim: Vec<usize>,
    /// Clauses observed to have become unit, to be drained by [`SearchState::propagate`].
    unit_queue: Vec<u32>,
    conflict: bool,
    /// The clause that went empty, valid while `conflict` is set.
    conflict_clause: u32,
    /// Stamp per variable, marking membership of the clause being derived. Zero is "not marked",
    /// so a pass costs a counter bump rather than a clear.
    seen: Vec<u32>,
    seen_stamp: u32,
    propagations: u64,
}

impl SearchState {
    /// The clause database.
    pub closed spec fn db(&self) -> Seq<Seq<Lit>> {
        self.clauses@
    }

    /// The number of variables.
    pub closed spec fn nv(&self) -> int {
        self.num_vars as int
    }

    /// How many clauses came from the input.
    pub closed spec fn n_orig(&self) -> int {
        self.num_original as int
    }

    /// The partial assignment, by variable index.
    pub closed spec fn vals(&self) -> Seq<Option<bool>> {
        self.value@
    }

    /// The assigned literals, oldest first.
    pub closed spec fn trail(&self) -> Seq<Lit> {
        self.trail@
    }

    /// Where each open decision level starts on the trail.
    pub closed spec fn lims(&self) -> Seq<usize> {
        self.trail_lim@
    }

    /// The decision level of each variable; meaningless while unassigned.
    pub closed spec fn levels(&self) -> Seq<usize> {
        self.level@
    }

    /// The reason clause of each variable, or [`NO_REASON`].
    pub closed spec fn reasons(&self) -> Seq<u32> {
        self.reason@
    }

    /// The clauses waiting to be examined by propagation.
    pub closed spec fn queue(&self) -> Seq<u32> {
        self.unit_queue@
    }

    /// Whether a falsified clause has been seen.
    pub closed spec fn conflicting(&self) -> bool {
        self.conflict
    }

    /// The falsified clause that was seen.
    pub closed spec fn conflict_at(&self) -> int {
        self.conflict_clause as int
    }

    /// The counters of true literals, by clause.
    pub closed spec fn true_counts(&self) -> Seq<usize> {
        self.sat_count@
    }

    /// The counters of unassigned literals, by clause.
    pub closed spec fn free_counts(&self) -> Seq<usize> {
        self.unassigned_count@
    }

    /// Every counter tells what the assignment makes of its clause.
    pub open spec fn counters_agree(&self) -> bool {
        forall|c: int| 0 <= c < self.db().len() ==> #[trigger] self.counter_agrees(c)
    }

    /// The counters of clause `c` tell what the assignment makes of it.
    pub open spec fn counter_agrees(&self, c: int) -> bool {
        &&& self.true_counts()[c] == n_true(self.db()[c], self.vals())
        &&& self.free_counts()[c] == n_free(self.db()[c], self.vals())
    }

    /// There is a value for each variable and a pair of counters for each clause, whatever they
    /// say.
    pub closed spec fn laid_out(&self) -> bool {
        &&& self.clauses.wf()
        &&& self.clauses.nv() == self.num_vars
        &&& self.value@.len() == self.num_vars
        &&& self.sat_count@.len() == self.db().len()
        &&& self.unassigned_count@.len() == self.db().len()
    }

    /// The total length of the learned clauses.
    pub closed spec fn learned_size(&self) -> int {
        self.clauses.size() - self.original_lits
    }

    /// How many assignments were made.
    pub closed spec fn propagation_count(&self) -> u64 {
        self.propagations
    }

    /// The counters and occurrence lists agree with the database and the assignment.
    #[verifier::opaque]
    pub closed spec fn rep(&self) -> bool {
        &&& self.clauses.wf()
        &&& self.clauses.nv() == self.num_vars
        &&& self.num_vars <= Var::MAX_INDEX + 1
        &&& self.num_original <= self.db().len() < u32::MAX
        &&& self.original_lits <= self.clauses.size()
        &&& self.occ@.len() == 2 * self.num_vars
        &&& self.occ_split@.len() == 2 * self.num_vars
        &&& forall|k: int|
            0 <= k < self.occ@.len() ==> (#[trigger] self.occ@[k])@ == occ_list(
                self.db(),
                Lit { code: k as u32 },
            )
        &&& forall|k: int|
            0 <= k < self.occ@.len() ==> #[trigger] self.occ_split@[k] == occ_list(
                self.db().take(self.n_orig()),
                Lit { code: k as u32 },
            ).len()
        &&& forall|k: int|
            0 <= k < self.occ@.len() ==> self.occ_split@[k] <= (#[trigger] self.occ@[k])@.len()
                && self.occ@[k]@.take(self.occ_split@[k] as int) == occ_list(
                self.db().take(self.n_orig()),
                Lit { code: k as u32 },
            )
        &&& self.sat_count@.len() == self.db().len()
        &&& self.unassigned_count@.len() == self.db().len()
        &&& self.counted()
        &&& self.seen@.len() == self.num_vars
        &&& forall|v: int| 0 <= v < self.num_vars ==> #[trigger] self.seen@[v] <= self.seen_stamp
    }

    spec fn counted(&self) -> bool {
        forall|c: int|
            0 <= c < self.db().len() ==> #[trigger] self.sat_count@[c] == n_true(self.db()[c], self.value@)
                && self.unassigned_count@[c] == n_free(self.db()[c], self.value@)
    }

    /// The trail, the assignment, the levels and the reasons fit together.
    pub open spec fn trail_ok(&self) -> bool {
        &&& self.vals().len() == self.nv()
        &&& self.levels().len() == self.nv()
        &&& self.reasons().len() == self.nv()
        &&& formula_below(self.db(), self.nv())
        &&& forall|i: int|
            0 <= i < self.trail().len() ==> (#[trigger] self.trail()[i]).vi() < self.nv()
                && self.vals()[self.trail()[i].vi()] == Some(self.trail()[i].pos())
        &&& forall|i: int, j: int|
            0 <= i < j < self.trail().len() ==> (#[trigger] self.trail()[i]).vi() != (
            #[trigger] self.trail()[j]).vi()
        &&& forall|v: int|
            0 <= v < self.nv() && #[trigger] self.vals()[v] is Some ==> t_has(self.trail(), v)
        &&& forall|i: int, j: int|
            0 <= i <= j < self.lims().len() ==> #[trigger] self.lims()[i] <= #[trigger] self.lims()[j]
        &&& forall|i: int| 0 <= i < self.lims().len() ==> #[trigger] self.lims()[i] <= self.trail().len()
        &&& forall|i: int|
            0 <= i < self.trail().len() ==> at_level(
                self.lims(),
                i,
                self.levels()[(#[trigger] self.trail()[i]).vi()] as int,
            )
        &&& forall|i: int|
            0 <= i < self.trail().len() ==> self.reason_ok(#[trigger] self.trail()[i], i)
    }

    /// The literal at position `i` of the trail has no reason, or a clause that forces it.
    pub open spec fn reason_ok(&self, l: Lit, i: int) -> bool {
        let r = self.reasons()[l.vi()];
        r != NO_REASON ==> r < self.db().len() && forces(self.db()[r as int], l, self.trail().take(i))
    }

    /// Validity of the state.
    pub open spec fn wf(&self) -> bool {
        &&& self.rep()
        &&& self.trail_ok()
        &&& self.nv() <= Var::MAX_INDEX + 1
        &&& 0 <= self.n_orig() <= self.db().len() < u32::MAX
        &&& self.learned_size() >= 0
        &&& forall|k: int| 0 <= k < self.queue().len() ==> #[trigger] self.queue()[k] < self.db().len()
        &&& self.conflicting() ==> 0 <= self.conflict_at() < self.db().len() && t_false(
            self.trail(),
            self.db()[self.conflict_at()],
        )
    }

    /// Nothing was missed, with the possible exception of clause `x`: a falsified clause is known
    /// as a conflict, and a unit clause is known as one or waits in the queue.
    pub open spec fn covered_except(&self, x: int) -> bool {
        !self.conflicting() ==> forall|c: int|
            0 <= c < self.db().len() && c != x && n_true(#[trigger] self.db()[c], self.vals()) == 0 && n_free(
                self.db()[c],
                self.vals(),
            ) <= 1 ==> n_free(self.db()[c], self.vals()) == 1 && self.queue().contains(c as u32)
    }

    /// Nothing was missed.
    pub open spec fn covered(&self) -> bool {
        self.covered_except(-1)
    }

    /// A falsified clause is known as a conflict.
    pub open spec fn noted(&self) -> bool {
        !self.conflicting() ==> forall|c: int|
            0 <= c < self.db().len() ==> !t_false(self.trail(), #[trigger] self.db()[c])
    }

    /// Everything but the clause database, the counters and the queue is as in `o`.
    pub open spec fn same_assignment(&self, o: &SearchState) -> bool {
        &&& self.nv() == o.nv()
        &&& self.n_orig() == o.n_orig()
        &&& self.vals() == o.vals()
        &&& self.trail() == o.trail()
        &&& self.lims() == o.lims()
        &&& self.levels() == o.levels()
        &&& self.reasons() == o.reasons()
    }
}

/// Appends `index` to the occurrence list of every literal of the clause.
fn index_clause(occ: &mut Vec<Vec<u32>>, clause: &[Lit], index: u32)
    requires
        forall|k: int| 0 <= k < clause@.len() ==> (#[trigger] clause@[k]).code < old(occ)@.len(),
        old(occ)@.len() <= u32::MAX,
    ensures
        final(occ)@.len() == old(occ)@.len(),
        forall|k: int|
            0 <= k < final(occ)@.len() ==> (#[trigger] final(occ)@[k])@ == old(occ)@[k]@ + copies(
                index,
                cnt(clause@, Lit { code: k as u32 }),
            ),
{
    let ghost before = occ@;
    proof {
        assert forall|k: int| 0 <= k < before.len() implies (#[trigger] before[k])@ =~= before[k]@
            + copies(index, cnt(clause@.take(0), Lit { code: k as u32 })) by {}
    }
    for i in 0..clause.len()
        invariant
            occ@.len() == before.len(),
            before.len() <= u32::MAX,
            forall|k: int| 0 <= k < clause@.len() ==> (#[trigger] clause@[k]).code < before.len(),
            forall|k: int|
                0 <= k < occ@.len() ==> (#[trigger] occ@[k])@ == before[k]@ + copies(
                    index,
                    cnt(clause@.take(i as int), Lit { code: k as u32 }),
                ),
    {
        let ghost prev = occ@;
        let li: usize = clause[i].index();
        occ[li].push(index);
        proof {
            assert forall|k: int| 0 <= k < occ@.len() implies (#[trigger] occ@[k])@ == before[k]@ + copies(
                index,
                cnt(clause@.take(i + 1), Lit { code: k as u32 }),
            ) by {
                lemma_cnt_take(clause@, i as int, Lit { code: k as u32 });
                if k == li {
                    assert(occ@[k]@ =~= prev[k]@.push(index));
                    assert(occ@[k]@ =~= before[k]@ + copies(
                        index,
                        cnt(clause@.take(i + 1), Lit { code: k as u32 }),
                    ));
                } else {
                    assert(occ@[k] == prev[k]);
                }
            }
        }
    }
    assert(clause@.take(clause@.len() as int) =~= clause@);
}

/// Occurrence lists extended by one clause.
proof fn lemma_occ_push(db: Seq<Seq<Lit>>, c: Seq<Lit>, l: Lit)
    ensures
        occ_list(db.push(c), l) == occ_list(db, l) + copies(db.len() as u32, cnt(c, l)),
{
    assert(db.push(c).drop_last() =~= db);
}

/// Before anything is assigned every literal is free.
proof fn lemma_counts_unassigned(c: Seq<Lit>, vals: Seq<Option<bool>>)
    requires
        forall|v: int| 0 <= v < vals.len() ==> #[trigger] vals[v] is None,
        clause_below(c, vals.len() as int),
    ensures
        n_true(c, vals) == 0,
        n_free(c, vals) == c.len(),
    decreases c.len(),
{
    if c.len() > 0 {
        let p = c.drop_last();
        assert forall|i: int| 0 <= i < p.len() implies (#[trigger] p[i]).vi() < vals.len() by {
            assert(c[i].vi() < vals.len());
        }
        lemma_counts_unassigned(p, vals);
        assert(c[c.len() - 1].vi() < vals.len());
    }
}

/// The indices below `n` of the clauses with exactly one literal, ascending.
pub open spec fn unit_indices(db: Seq<Seq<Lit>>, n: int) -> Seq<u32>
    decreases n,
{
    if n <= 0 {
        Seq::empty()
    } else if db[n - 1].len() == 1 {
        unit_indices(db, n - 1).push((n - 1) as u32)
    } else {
        unit_indices(db, n - 1)
    }
}

proof fn lemma_unit_indices(db: Seq<Seq<Lit>>, n: int)
    requires
        0 <= n <= db.len() <= u32::MAX,
    ensures
        forall|c: int|
            0 <= c < n && (#[trigger] db[c]).len() == 1 ==> unit_indices(db, n).contains(c as u32),
        forall|k: int|
            0 <= k < unit_indices(db, n).len() ==> #[trigger] unit_indices(db, n)[k] < n
                && db[unit_indices(db, n)[k] as int].len() == 1,
    decreases n,
{
    if n > 0 {
        lemma_unit_indices(db, n - 1);
        let q = unit_indices(db, n - 1);
        crate::sorting::lemma_push_contains(q, (n - 1) as u32);
    }
}

impl SearchState {
    /// Builds the state for a formula, seeding the propagation queue with its unit clauses.
    ///
    /// An empty clause in the input puts the state into conflict immediately.
    pub fn new(cnf: &Cnf) -> (s: Self)
        requires
            cnf.wf(),
            cnf.nv() <= Var::MAX_INDEX + 1,
            cnf@.len() < u32::MAX,
        ensures
            s.wf(),
            s.covered(),
            s.db() == cnf@,
            s.nv() == cnf.nv(),
            s.n_orig() == cnf@.len(),
            s.learned_size() == 0,
            s.trail() == Seq::<Lit>::empty(),
            s.lims() == Seq::<usize>::empty(),
            s.propagation_count() == 0,
            s.queue() == unit_indices(cnf@, cnf@.len() as int),
            s.conflicting() == (exists|c: int| 0 <= c < cnf@.len() && (#[trigger] cnf@[c]).len() == 0),
            s.conflicting() ==> cnf@[s.conflict_at()].len() == 0 && forall|c: int|
                0 <= c < s.conflict_at() ==> (#[trigger] cnf@[c]).len() > 0,
    {
        proof {
            reveal(SearchState::rep);
        }
        let num_vars: usize = cnf.num_vars();
        let num_clauses: usize = cnf.num_clauses();
        proof {
            cnf.lemma_wf();
        }
        let mut clauses = Cnf::new(num_vars);
        let mut occ: Vec<Vec<u32>> = Vec::new();
        let mut occ_split: Vec<usize> = Vec::new();
        for k in 0..2 * num_vars
            invariant
                num_vars <= Var::MAX_INDEX + 1,
                occ@.len() == k,
                forall|j: int| 0 <= j < k ==> (#[trigger] occ@[j])@ == Seq::<u32>::empty(),
        {
            occ.push(Vec::new());
        }
        let mut unassigned_count: Vec<usize> = Vec::new();
        let mut sat_count: Vec<usize> = Vec::new();
        let mut unit_queue: Vec<u32> = Vec::new();
        let mut conflict = false;
        let mut conflict_clause: u32 = NO_REASON;
        proof {
            assert(clauses@ =~= cnf@.take(0));
        }
        for c in 0..num_clauses
            invariant
                cnf.wf(),
                num_vars == cnf.nv(),
                num_vars <= Var::MAX_INDEX + 1,
                num_clauses == cnf@.len(),
                num_clauses < u32::MAX,
                formula_below(cnf@, cnf.nv()),
                clauses.wf(),
                clauses@ == cnf@.take(c as int),
                clauses.nv() == num_vars,
                occ@.len() == 2 * num_vars,
                forall|k: int|
                    0 <= k < occ@.len() ==> (#[trigger] occ@[k])@ == occ_list(
                        clauses@,
                        Lit { code: k as u32 },
                    ),
                sat_count@.len() == c,
                unassigned_count@.len() == c,
                forall|k: int| 0 <= k < c ==> #[trigger] sat_count@[k] == 0,
                forall|k: int| 0 <= k < c ==> #[trigger] unassigned_count@[k] == cnf@[k].len(),
                unit_queue@ == unit_indices(cnf@, c as int),
                conflict == (exists|k: int| 0 <= k < c && (#[trigger] cnf@[k]).len() == 0),
                conflict ==> conflict_clause < c && cnf@[conflict_clause as int].len() == 0
                    && forall|k: int| 0 <= k < conflict_clause ==> (#[trigger] cnf@[k]).len() > 0,
        {
            let clause = cnf.clause(c);
            let ghost occ0 = occ@;
            proof {
                assert(clause_below(cnf@[c as int], cnf.nv()));
                lemma_cover(num_vars as int, clause@);
                assert forall|k: int| 0 <= k < clause@.len() implies (#[trigger] clause@[k]).code < occ@.len() by {
                    assert(clause@[k].vi() < num_vars);
                }
                assert(cnf@.take(c + 1) =~= cnf@.take(c as int).push(cnf@[c as int]));
            }
            clauses.add_clause(clause);
            index_clause(&mut occ, clause, c as u32);
            proof {
                assert forall|k: int| 0 <= k < occ@.len() implies (#[trigger] occ@[k])@ == occ_list(
                    clauses@,
                    Lit { code: k as u32 },
                ) by {
                    assert(occ0[k]@ == occ_list(cnf@.take(c as int), Lit { code: k as u32 }));
                    lemma_occ_push(cnf@.take(c as int), cnf@[c as int], Lit { code: k as u32 });
                }
            }
            let n: usize = clause.len();
            sat_count.push(0);
            unassigned_count.push(n);
            if n == 0 {
                if !conflict {
                    conflict = true;
                    conflict_clause = c as u32;
                }
            } else if n == 1 {
                unit_queue.push(c as u32);
            }
        }
        assert(cnf@.take(num_clauses as int) =~= cnf@);
        for k in 0..2 * num_vars
            invariant
                num_vars <= Var::MAX_INDEX + 1,
                occ@.len() == 2 * num_vars,
                occ_split@.len() == k,
                forall|j: int| 0 <= j < k ==> #[trigger] occ_split@[j] == occ@[j]@.len(),
        {
            let n: usize = occ[k].len();
            occ_split.push(n);
        }
        let original_lits: usize = clauses.num_lits();
        let s = SearchState {
            num_vars,
            num_original: num_clauses,
            original_lits,
            clauses,
            occ,
            occ_split,
            sat_count,
            unassigned_count,
            value: vec![None; num_vars],
            level: vec![0; num_vars],
            reason: vec![NO_REASON; num_vars],
            trail: Vec::new(),
            trail_lim: Vec::new(),
            unit_queue,
            conflict,
            conflict_clause,
            seen: vec![0; num_vars],
            seen_stamp: 0,
            propagations: 0,
        };
        proof {
            assert(s.db().take(s.n_orig()) =~= s.db());
            assert forall|c: int| 0 <= c < s.db().len() implies #[trigger] s.sat_count@[c] == n_true(
                s.db()[c],
                s.value@,
            ) && s.unassigned_count@[c] == n_free(s.db()[c], s.value@) by {
                assert(clause_below(cnf@[c], cnf.nv()));
                lemma_counts_unassigned(s.db()[c], s.value@);
            }
            assert forall|k: int| 0 <= k < s.occ@.len() implies s.occ_split@[k] <= (#[trigger] s.occ@[k])@.len()
                && s.occ@[k]@.take(s.occ_split@[k] as int) == occ_list(
                s.db().take(s.n_orig()),
                Lit { code: k as u32 },
            ) by {
                assert(s.occ_split@[k] == s.occ@[k]@.len());
                assert(s.occ@[k]@.take(s.occ_split@[k] as int) =~= s.occ@[k]@);
            }
            assert(s.rep());
            lemma_unit_indices(cnf@, cnf@.len() as int);
            assert(s.covered()) by {
                assert forall|c: int|
                    !s.conflicting() && 0 <= c < s.db().len() && n_true(#[trigger] s.db()[c], s.vals()) == 0
                        && n_free(s.db()[c], s.vals()) <= 1 implies n_free(s.db()[c], s.vals()) == 1
                    && s.queue().contains(c as u32) by {
                    assert(s.unassigned_count@[c] == s.db()[c].len());
                    assert(s.sat_count@[c] == 0);
                }
            }
        }
        s
    }
}

impl SearchState {
    /// Validity of the trail ties it to the assignment: a variable has a value exactly when the
    /// literal with that value is on the trail.
    pub proof fn lemma_vals(&self, v: int)
        requires
            self.trail_ok(),
            0 <= v < self.nv() <= Var::MAX_INDEX + 1,
        ensures
            self.vals()[v] == Some(true) <==> self.trail().contains(mk_lit(v, true)),
            self.vals()[v] == Some(false) <==> self.trail().contains(mk_lit(v, false)),
            self.vals()[v] is Some <==> t_has(self.trail(), v),
    {
        let t = self.trail();
        if self.vals()[v] is Some {
            let i = choose|i: int| 0 <= i < t.len() && (#[trigger] t[i]).vi() == v;
            crate::lit::lemma_mk_lit(t[i]);
            assert(t[i] == mk_lit(v, self.vals()[v]->0));
        }
        if t.contains(mk_lit(v, true)) {
            let i = choose|i: int| 0 <= i < t.len() && t[i] == mk_lit(v, true);
            assert(t[i].vi() == v && t[i].pos());
        }
        if t.contains(mk_lit(v, false)) {
            let i = choose|i: int| 0 <= i < t.len() && t[i] == mk_lit(v, false);
            assert(t[i].vi() == v && !t[i].pos());
        }
        if t_has(t, v) {
            let i = choose|i: int| 0 <= i < t.len() && (#[trigger] t[i]).vi() == v;
            assert(self.vals()[t[i].vi()] is Some);
        }
    }

    /// The same for a literal.
    pub proof fn lemma_vals_lit(&self, l: Lit)
        requires
            self.trail_ok(),
            l.vi() < self.nv() <= Var::MAX_INDEX + 1,
        ensures
            val_true(self.vals(), l) <==> self.trail().contains(l),
            val_false(self.vals(), l) <==> self.trail().contains(l.neg()),
            self.vals()[l.vi()] is Some <==> t_has(self.trail(), l.vi()),
            self.vals()[l.vi()] is Some <==> self.trail().contains(l) || self.trail().contains(l.neg()),
    {
        self.lemma_vals(l.vi());
        crate::lit::lemma_mk_lit(l);
    }

    /// The counters of a clause in terms of the trail.
    pub proof fn lemma_clause_counts(&self, c: Seq<Lit>)
        requires
            self.trail_ok(),
            self.nv() <= Var::MAX_INDEX + 1,
            clause_below(c, self.nv()),
        ensures
            n_true(c, self.vals()) > 0 <==> t_sat(self.trail(), c),
            (n_true(c, self.vals()) == 0 && n_free(c, self.vals()) == 0) <==> t_false(self.trail(), c),
            n_free(c, self.vals()) == 0 <==> forall|i: int|
                0 <= i < c.len() ==> t_has(self.trail(), (#[trigger] c[i]).vi()),
    {
        lemma_n_true_zero(c, self.vals());
        lemma_n_free_zero(c, self.vals());
        assert forall|i: int| 0 <= i < c.len() implies (val_true(self.vals(), #[trigger] c[i])
            <==> self.trail().contains(c[i])) && (val_false(self.vals(), c[i])
            <==> self.trail().contains(c[i].neg())) && (self.vals()[c[i].vi()] is Some <==> t_has(
            self.trail(),
            c[i].vi(),
        )) by {
            self.lemma_vals_lit(c[i]);
        }
        if n_true(c, self.vals()) > 0 {
            let i = choose|i: int| 0 <= i < c.len() && val_true(self.vals(), #[trigger] c[i]);
            assert(self.trail().contains(c[i]));
        }
        if t_sat(self.trail(), c) {
            let i = choose|i: int| 0 <= i < c.len() && self.trail().contains(#[trigger] c[i]);
            assert(val_true(self.vals(), c[i]));
        }
        if n_true(c, self.vals()) == 0 && n_free(c, self.vals()) == 0 {
            assert forall|i: int| 0 <= i < c.len() implies self.trail().contains((#[trigger] c[i]).neg()) by {
                assert(!val_true(self.vals(), c[i]));
                assert(self.vals()[c[i].vi()] is Some);
            }
        }
        if t_false(self.trail(), c) {
            assert forall|i: int| 0 <= i < c.len() implies !val_true(self.vals(), #[trigger] c[i])
                && self.vals()[c[i].vi()] is Some by {
                assert(self.trail().contains(c[i].neg()));
            }
        }
    }

    /// The trail is no longer than a list can be.
    pub proof fn lemma_trail_fits(&self)
        requires
            self.wf(),
        ensures
            self.trail().len() <= usize::MAX,
            self.lims().len() <= usize::MAX,
            forall|k: int| 0 <= k < self.lims().len() ==> #[trigger] self.lims()[k] <= self.trail().len(),
    {
        assert(self.trail.len() == self.trail@.len());
        assert(self.trail_lim.len() == self.trail_lim@.len());
    }

    /// Number of variables.
    pub fn num_vars(&self) -> (n: usize)
        ensures
            n == self.nv(),
    {
        self.num_vars
    }

    /// Number of clauses, learned ones included.
    pub fn num_clauses(&self) -> (n: usize)
        requires
            self.wf(),
        ensures
            n == self.db().len(),
    {
        proof {
            reveal(SearchState::rep);
        }
        self.clauses.num_clauses()
    }

    /// Number of clauses that came from the input.
    pub fn num_original_clauses(&self) -> (n: usize)
        ensures
            n == self.n_orig(),
    {
        self.num_original
    }

    /// Number of clauses derived from conflicts.
    pub fn num_learned_clauses(&self) -> (n: usize)
        requires
            self.wf(),
        ensures
            n == self.db().len() - self.n_orig(),
    {
        self.num_clauses() - self.num_original
    }

    /// The literals of learned clauses can be counted.
    pub proof fn lemma_learned_fits(&self)
        requires
            self.wf(),
        ensures
            0 <= self.learned_size() <= u64::MAX,
    {
        reveal(SearchState::rep);
        self.clauses.lemma_wf();
    }

    /// Total literals across all learned clauses, which is what bounds their memory.
    pub fn learned_literals(&self) -> (n: u64)
        requires
            self.wf(),
        ensures
            n == self.learned_size(),
    {
        proof {
            reveal(SearchState::rep);
        }
        (self.clauses.num_lits() - self.original_lits) as u64
    }

    /// Unit propagations performed so far.
    pub fn propagations(&self) -> (n: u64)
        ensures
            n == self.propagation_count(),
    {
        self.propagations
    }

    /// The literals of clause `c`.
    pub fn clause(&self, c: usize) -> (r: &[Lit])
        requires
            self.wf(),
            c < self.db().len(),
        ensures
            r@ == self.db()[c as int],
    {
        proof {
            reveal(SearchState::rep);
        }
        self.clauses.clause(c)
    }

    /// The input clauses containing literal `l`, one entry per occurrence.
    pub fn original_occurrences(&self, l: Lit) -> (r: &[u32])
        requires
            self.wf(),
            l.vi() < self.nv(),
        ensures
            r@ == occ_list(self.db().take(self.n_orig()), l),
    {
        proof {
            reveal(SearchState::rep);
        }
        let list = &self.occ[l.index()];
        vstd::slice::slice_subrange(list.as_slice(), 0, self.occ_split[l.index()])
    }

    /// The learned clauses containing literal `l`, one entry per occurrence.
    pub fn learned_occurrences(&self, l: Lit) -> (r: &[u32])
        requires
            self.wf(),
            l.vi() < self.nv(),
        ensures
            occ_list(self.db().take(self.n_orig()), l) + r@ == occ_list(self.db(), l),
    {
        proof {
            reveal(SearchState::rep);
        }
        let list = &self.occ[l.index()];
        let split: usize = self.occ_split[l.index()];
        let r = vstd::slice::slice_subrange(list.as_slice(), split, list.len());
        proof {
            assert(list@ == self.occ@[l.code as int]@);
            assert(list@.take(split as int) + r@ =~= list@);
        }
        r
    }

    /// Every clause containing literal `l`, input clauses first.
    ///
    /// Component analysis and the branching heuristics walk this, so a learned clause takes part
    /// in decomposition exactly as an input clause does. That is not an accident: propagation
    /// inside a component must stay inside it, and a learned clause hidden from the split would
    /// break that, and with it the memo.
    pub fn occurrences(&self, l: Lit) -> (r: &[u32])
        requires
            self.wf(),
            l.vi() < self.nv(),
        ensures
            r@ == occ_list(self.db(), l),
    {
        proof {
            reveal(SearchState::rep);
        }
        self.occ[l.index()].as_slice()
    }

    /// The value of a variable, if assigned.
    pub fn value(&self, var: Var) -> (r: Option<bool>)
        requires
            self.wf(),
            var.vi() < self.nv(),
        ensures
            r == self.vals()[var.vi()],
    {
        self.value[var.index()]
    }

    /// The value of a variable by raw index, if assigned.
    pub fn value_of_index(&self, var: usize) -> (r: Option<bool>)
        requires
            self.wf(),
            var < self.nv(),
        ensures
            r == self.vals()[var as int],
    {
        self.value[var]
    }

    /// Whether clause `c` is satisfied under the current assignment.
    pub fn is_satisfied(&self, c: usize) -> (b: bool)
        requires
            self.wf(),
            c < self.db().len(),
        ensures
            b == t_sat(self.trail(), self.db()[c as int]),
    {
        proof {
            reveal(SearchState::rep);
        }
        proof {
            assert(clause_below(self.db()[c as int], self.nv()));
            self.lemma_clause_counts(self.db()[c as int]);
        }
        self.sat_count[c] > 0
    }

    /// Whether clause `c` is still part of the residual formula.
    pub fn is_active(&self, c: usize) -> (b: bool)
        requires
            self.wf(),
            c < self.db().len(),
        ensures
            b == !t_sat(self.trail(), self.db()[c as int]),
    {
        !self.is_satisfied(c)
    }

    /// How many literals of clause `c` are true.
    pub fn true_literals(&self, c: usize) -> (n: usize)
        requires
            self.wf(),
            c < self.db().len(),
        ensures
            n == n_true(self.db()[c as int], self.vals()),
    {
        proof {
            reveal(SearchState::rep);
        }
        self.sat_count[c]
    }

    /// How many literals of clause `c` are over unassigned variables.
    pub fn unassigned_literals(&self, c: usize) -> (n: usize)
        requires
            self.wf(),
            c < self.db().len(),
        ensures
            n == n_free(self.db()[c as int], self.vals()),
    {
        proof {
            reveal(SearchState::rep);
        }
        assert(self.sat_count@[c as int] == n_true(self.db()[c as int], self.value@));
        self.unassigned_count[c]
    }

    /// Whether the state is in conflict.
    pub fn in_conflict(&self) -> (b: bool)
        ensures
            b == self.conflicting(),
    {
        self.conflict
    }

    /// The current decision level.
    pub fn decision_level(&self) -> (n: usize)
        ensures
            n == self.lims().len(),
    {
        self.trail_lim.len()
    }

    /// Number of assigned variables.
    pub fn trail_len(&self) -> (n: usize)
        ensures
            n == self.trail().len(),
    {
        self.trail.len()
    }

    /// Everything but the counters, the queue and the conflict is as in `o`.
    spec fn same_frame(&self, o: &SearchState) -> bool {
        &&& self.num_vars == o.num_vars
        &&& self.num_original == o.num_original
        &&& self.original_lits == o.original_lits
        &&& self.clauses == o.clauses
        &&& self.occ == o.occ
        &&& self.occ_split == o.occ_split
        &&& self.value == o.value
        &&& self.level == o.level
        &&& self.reason == o.reason
        &&& self.trail == o.trail
        &&& self.trail_lim == o.trail_lim
        &&& self.seen == o.seen
        &&& self.seen_stamp == o.seen_stamp
        &&& self.propagations == o.propagations
        &&& self.sat_count@.len() == o.sat_count@.len()
        &&& self.unassigned_count@.len() == o.unassigned_count@.len()
    }

    /// Records that clause `c` has no literal left to satisfy it.
    ///
    /// The *first* such clause is kept: assignment carries on after a conflict so that the undo
    /// stays exact, and it is the clause that actually failed which conflict analysis needs.
    fn record_conflict(&mut self, c: usize)
        requires
            c < u32::MAX,
        ensures
            final(self).same_frame(old(self)),
            final(self).sat_count == old(self).sat_count,
            final(self).unassigned_count == old(self).unassigned_count,
            final(self).unit_queue == old(self).unit_queue,
            final(self).conflict,
            final(self).conflict_clause == (if old(self).conflict {
                old(self).conflict_clause
            } else {
                c as u32
            }),
    {
        if !self.conflict {
            self.conflict = true;
            self.conflict_clause = c as u32;
        }
    }

    /// Accounts for one literal of clause `c` becoming false.
    fn shorten(&mut self, c: usize)
        requires
            c < old(self).unassigned_count@.len(),
            c < old(self).sat_count@.len(),
            old(self).unassigned_count@[c as int] > 0,
            c < u32::MAX,
        ensures
            final(self).same_frame(old(self)),
            final(self).sat_count == old(self).sat_count,
            final(self).unassigned_count@ == old(self).unassigned_count@.update(
                c as int,
                (old(self).unassigned_count@[c as int] - 1) as usize,
            ),
            final(self).unit_queue@ == (if old(self).sat_count@[c as int] == 0
                && old(self).unassigned_count@[c as int] == 2 {
                old(self).unit_queue@.push(c as u32)
            } else {
                old(self).unit_queue@
            }),
            final(self).conflict == (old(self).conflict || (old(self).sat_count@[c as int] == 0 && old(self).unassigned_count@[c as int] == 1)),
            final(self).conflict_clause == (if !old(self).conflict && final(self).conflict {
                c as u32
            } else {
                old(self).conflict_clause
            }),
    {
        self.unassigned_count[c] = self.unassigned_count[c] - 1;
        if self.sat_count[c] == 0 {
            let n: usize = self.unassigned_count[c];
            if n == 0 {
                self.record_conflict(c);
            } else if n == 1 {
                self.unit_queue.push(c as u32);
            }
        }
    }
}

impl SearchState {
    /// The state after `lit` was put on the trail of `o` with the given reason.
    pub open spec fn assigned_from(&self, o: &SearchState, lit: Lit, reason: u32) -> bool {
        &&& self.db() == o.db()
        &&& self.nv() == o.nv()
        &&& self.n_orig() == o.n_orig()
        &&& self.learned_size() == o.learned_size()
        &&& self.lims() == o.lims()
        &&& self.trail() == o.trail().push(lit)
        &&& self.vals() == o.vals().update(lit.vi(), Some(lit.pos()))
        &&& self.levels() == o.levels().update(lit.vi(), o.lims().len() as usize)
        &&& self.reasons() == o.reasons().update(lit.vi(), reason)
        &&& self.propagation_count() == o.propagation_count().saturating_add(1)
        &&& self.queue().len() >= o.queue().len()
        &&& self.queue().take(o.queue().len() as int) == o.queue()
        &&& forall|k: int|
            o.queue().len() <= k < self.queue().len() ==> self.db()[#[trigger] self.queue()[k] as int].contains(
                lit.neg(),
            ) && !t_sat(self.trail(), self.db()[self.queue()[k] as int])
        &&& o.conflicting() ==> self.conflicting() && self.conflict_at() == o.conflict_at()
        &&& self.conflicting() == (o.conflicting() || exists|c: int|
            0 <= c < self.db().len() && (#[trigger] self.db()[c]).contains(lit.neg()) && t_false(
                self.trail(),
                self.db()[c],
            ))
        &&& forall|x: int| #[trigger] o.covered_except(x) ==> self.covered_except(x)
        &&& self.queue() == o.queue() + woken(self.db(), self.vals(), lit.neg(), self.db().len() as int)
        &&& self.conflicting() && !o.conflicting() ==> self.first_falsified(lit.neg())
    }

    /// The known conflict is the first clause with the literal that is falsified.
    pub open spec fn first_falsified(&self, l: Lit) -> bool {
        let c = self.conflict_at();
        &&& 0 <= c < self.db().len()
        &&& self.db()[c].contains(l)
        &&& t_false(self.trail(), self.db()[c])
        &&& forall|d: int| 0 <= d < c && (#[trigger] self.db()[d]).contains(l) ==> !t_false(self.trail(), self.db()[d])
    }

    /// Extending the trail keeps it in order.
    proof fn lemma_assign_trail(&self, o: &SearchState, lit: Lit, reason: u32)
        requires
            o.wf(),
            lit.vi() < o.nv(),
            o.vals()[lit.vi()] is None,
            reason == NO_REASON || (reason < o.db().len() && forces(
                o.db()[reason as int],
                lit,
                o.trail(),
            )),
            self.db() == o.db(),
            self.nv() == o.nv(),
            self.lims() == o.lims(),
            self.trail() == o.trail().push(lit),
            self.vals() == o.vals().update(lit.vi(), Some(lit.pos())),
            self.levels() == o.levels().update(lit.vi(), o.lims().len() as usize),
            self.reasons() == o.reasons().update(lit.vi(), reason),
            o.lims().len() <= usize::MAX,
        ensures
            self.trail_ok(),
    {
        let n = o.trail().len() as int;
        assert forall|i: int| 0 <= i < n implies (#[trigger] self.trail()[i]) == o.trail()[i]
            && self.trail()[i].vi() != lit.vi() by {
            assert(o.vals()[o.trail()[i].vi()] is Some);
        }
        assert forall|v: int| 0 <= v < self.nv() && #[trigger] self.vals()[v] is Some implies t_has(
            self.trail(),
            v,
        ) by {
            if v == lit.vi() {
                assert(self.trail()[n].vi() == v);
            } else {
                assert(o.vals()[v] is Some);
                assert(t_has(o.trail(), v));
                let i = choose|i: int| 0 <= i < n && (#[trigger] o.trail()[i]).vi() == v;
                assert(self.trail()[i].vi() == v);
            }
        }
        assert forall|i: int| 0 <= i < self.trail().len() implies at_level(
            self.lims(),
            i,
            self.levels()[(#[trigger] self.trail()[i]).vi()] as int,
        ) by {
            if i < n {
                assert(self.trail()[i] == o.trail()[i]);
            }
        }
        assert forall|i: int| 0 <= i < self.trail().len() implies self.reason_ok(
            #[trigger] self.trail()[i],
            i,
        ) by {
            assert(self.trail().take(i) =~= o.trail().take(i));
            if i < n {
                assert(self.trail()[i] == o.trail()[i]);
                assert(o.reason_ok(o.trail()[i], i));
            } else {
                assert(o.trail().take(i) =~= o.trail());
            }
        }
    }

    /// Assigns `lit` to true and updates every clause it occurs in.
    ///
    /// Clauses that become unit are queued; a clause that becomes empty sets the conflict flag.
    /// Counters are always brought fully up to date even when a conflict is detected part way,
    /// so that [`SearchState::pop_level`] can undo the assignment exactly.
    #[verifier::rlimit(100)]
    fn assign(&mut self, lit: Lit, reason: u32)
        requires
            old(self).wf(),
            lit.vi() < old(self).nv(),
            old(self).vals()[lit.vi()] is None,
            reason == NO_REASON || (reason < old(self).db().len() && forces(
                old(self).db()[reason as int],
                lit,
                old(self).trail(),
            )),
        ensures
            final(self).wf(),
            final(self).assigned_from(old(self), lit, reason),
    {
        proof {
            reveal(SearchState::rep);
        }
        let ghost s0 = *self;
        let var: usize = lit.var().index();
        let opposite = lit.negated();
        let li: usize = lit.index();
        let ni: usize = opposite.index();
        self.value[var] = Some(lit.is_positive());
        let depth: usize = self.trail_lim.len();
        self.level[var] = depth;
        self.reason[var] = reason;
        self.trail.push(lit);
        self.propagations = self.propagations.saturating_add(1);
        let ghost s1 = *self;
        let ghost db = s0.db();
        let ghost pl = occ_list(db, lit);
        let ghost nl = occ_list(db, opposite);
        proof {
            s1.lemma_assign_trail(&s0, lit, reason);
            assert(Lit { code: li as u32 } == lit);
            assert(Lit { code: ni as u32 } == opposite);
            assert(s0.occ@[li as int]@ == pl);
            assert(s0.occ@[ni as int]@ == nl);
            lemma_occ_list_below(db, lit);
            lemma_occ_list_below(db, opposite);
            assert forall|c: int| 0 <= c < db.len() implies #[trigger] s0.unassigned_count@[c] == n_free(
                db[c],
                s1.value@,
            ) + cnt(pl, c as u32) + cnt(nl, c as u32) && s0.sat_count@[c] + cnt(pl, c as u32) == n_true(
                db[c],
                s1.value@,
            ) by {
                assert(s0.sat_count@[c] == n_true(s0.db()[c], s0.value@));
                assert(clause_below(db[c], s0.nv()));
                lemma_assign_counts(db[c], s0.value@, lit);
                lemma_occ_list(db, lit, c);
                lemma_occ_list(db, opposite, c);
            }
        }
        // Clauses this literal satisfies.
        let n_pos: usize = self.occ[li].len();
        for k in 0..n_pos
            invariant
                self.same_frame(&s1),
                s0.wf(),
                s1.clauses == s0.clauses,
                s1.occ == s0.occ,
                db == s0.db(),
                db.len() < u32::MAX,
                self.sat_count@.len() == db.len(),
                self.unassigned_count@.len() == db.len(),
                self.unit_queue == s0.unit_queue,
                self.conflict == s0.conflict,
                self.conflict_clause == s0.conflict_clause,
                li < self.occ@.len(),
                self.occ@[li as int]@ == pl,
                n_pos == pl.len(),
                forall|j: int| 0 <= j < pl.len() ==> #[trigger] pl[j] < db.len(),
                forall|c: int|
                    0 <= c < db.len() ==> #[trigger] s0.unassigned_count@[c] == n_free(db[c], s1.value@)
                        + cnt(pl, c as u32) + cnt(nl, c as u32) && s0.sat_count@[c] + cnt(
                        pl,
                        c as u32,
                    ) == n_true(db[c], s1.value@),
                forall|c: int|
                    0 <= c < db.len() ==> #[trigger] self.sat_count@[c] == s0.sat_count@[c] + cnt(
                        pl.take(k as int),
                        c as u32,
                    ),
                forall|c: int|
                    0 <= c < db.len() ==> #[trigger] self.unassigned_count@[c] + cnt(
                        pl.take(k as int),
                        c as u32,
                    ) == s0.unassigned_count@[c],
        {
            proof {
                reveal(SearchState::rep);
            }
            let c: usize = self.occ[li][k] as usize;
            let ghost before = *self;
            proof {
                let u = c as int;
                assert(s0.unassigned_count@[u] >= 0);
                assert(self.sat_count@[u] >= 0);
                assert(self.unassigned_count@[u] >= 0);
                lemma_cnt_take(pl, k as int, c as u32);
                lemma_cnt_prefix(pl, k + 1, c as u32);
                self.clauses.lemma_wf();
                lemma_counts_bounded(db[u], s1.value@);
                assert(self.clauses@[u].len() <= usize::MAX);
            }
            self.sat_count[c] = self.sat_count[c] + 1;
            self.unassigned_count[c] = self.unassigned_count[c] - 1;
            proof {
                assert forall|d: int| 0 <= d < db.len() implies #[trigger] self.sat_count@[d]
                    == s0.sat_count@[d] + cnt(pl.take(k + 1), d as u32) by {
                    assert(before.sat_count@[d] >= 0);
                    lemma_cnt_take(pl, k as int, d as u32);
                }
                assert forall|d: int| 0 <= d < db.len() implies #[trigger] self.unassigned_count@[d] + cnt(
                    pl.take(k + 1),
                    d as u32,
                ) == s0.unassigned_count@[d] by {
                    assert(before.unassigned_count@[d] >= 0);
                    lemma_cnt_take(pl, k as int, d as u32);
                }
            }
        }
        proof {
            assert(pl.take(pl.len() as int) =~= pl);
            assert(self.unit_queue@.take(s0.queue().len() as int) =~= s0.queue());
        }
        proof {
            lemma_occ_list_sorted(db, opposite);
            assert(s0.queue() + pushed(db, s1.value@, opposite, nl, 0) =~= s0.queue());
            assert forall|c: int| 0 <= c < db.len() implies cnt(nl, c as u32) == cnt(#[trigger] db[c], opposite) by {
                lemma_occ_list(db, opposite, c);
            }
        }
        // Clauses this literal shortens.
        let n_neg: usize = self.occ[ni].len();
        for k in 0..n_neg
            invariant
                self.same_frame(&s1),
                s0.wf(),
                s1.clauses == s0.clauses,
                s1.occ == s0.occ,
                db == s0.db(),
                db.len() < u32::MAX,
                self.sat_count@.len() == db.len(),
                self.unassigned_count@.len() == db.len(),
                ni < self.occ@.len(),
                self.occ@[ni as int]@ == nl,
                n_neg == nl.len(),
                forall|j: int| 0 <= j < nl.len() ==> #[trigger] nl[j] < db.len() && db[nl[j] as int].contains(opposite),
                forall|c: int|
                    0 <= c < db.len() ==> #[trigger] s0.unassigned_count@[c] == n_free(db[c], s1.value@)
                        + cnt(pl, c as u32) + cnt(nl, c as u32),
                forall|c: int| 0 <= c < db.len() ==> #[trigger] self.sat_count@[c] == n_true(db[c], s1.value@),
                forall|c: int|
                    0 <= c < db.len() ==> #[trigger] self.unassigned_count@[c] + cnt(pl, c as u32) + cnt(
                        nl.take(k as int),
                        c as u32,
                    ) == s0.unassigned_count@[c],
                self.unit_queue@.len() >= s0.queue().len(),
                self.unit_queue@.take(s0.queue().len() as int) == s0.queue(),
                forall|j: int|
                    s0.queue().len() <= j < self.unit_queue@.len() ==> #[trigger] self.unit_queue@[j]
                        < db.len() && db[self.unit_queue@[j] as int].contains(opposite)
                        && self.sat_count@[self.unit_queue@[j] as int] == 0,
                forall|c: int|
                    0 <= c < db.len() && #[trigger] self.unassigned_count@[c] == 1 && self.sat_count@[c] == 0
                        && cnt(nl.take(k as int), c as u32) > 0 ==> self.unit_queue@.contains(c as u32),
                forall|c: int|
                    0 <= c < db.len() && #[trigger] self.unassigned_count@[c] == 0 && self.sat_count@[c] == 0
                        && cnt(nl.take(k as int), c as u32) > 0 ==> self.conflict,
                s0.conflict ==> self.conflict && self.conflict_clause == s0.conflict_clause,
                self.conflict && !s0.conflict ==> {
                    &&& self.conflict_clause < db.len()
                    &&& self.unassigned_count@[self.conflict_clause as int] == 0
                    &&& self.sat_count@[self.conflict_clause as int] == 0
                    &&& db[self.conflict_clause as int].contains(opposite)
                    &&& forall|d: int|
                        0 <= d < self.conflict_clause && cnt(#[trigger] db[d], opposite) > 0 ==> n_true(
                            db[d],
                            s1.value@,
                        ) > 0 || n_free(db[d], s1.value@) > 0
                },
                forall|i: int, j: int| 0 <= i <= j < nl.len() ==> #[trigger] nl[i] <= #[trigger] nl[j],
                forall|c: int| 0 <= c < db.len() ==> cnt(nl, c as u32) == cnt(#[trigger] db[c], opposite),
                self.unit_queue@ == s0.queue() + pushed(db, s1.value@, opposite, nl, k as int),
        {
            let c: usize = self.occ[ni][k] as usize;
            let ghost before = *self;
            proof {
                let u = c as int;
                assert(nl[k as int] < db.len());
                assert(s0.unassigned_count@[u] >= 0);
                assert(self.sat_count@[u] >= 0);
                assert(self.unassigned_count@[u] >= 0);
                lemma_cnt_take(nl, k as int, c as u32);
                lemma_cnt_prefix(nl, k + 1, c as u32);
            }
            self.shorten(c);
            proof {
                crate::sorting::lemma_push_contains(before.unit_queue@, c as u32);
                assert forall|d: int| 0 <= d < db.len() implies #[trigger] self.unassigned_count@[d] + cnt(
                    pl,
                    d as u32,
                ) + cnt(nl.take(k + 1), d as u32) == s0.unassigned_count@[d] by {
                    assert(before.unassigned_count@[d] >= 0);
                    lemma_cnt_take(nl, k as int, d as u32);
                }
                assert(self.unit_queue@.take(s0.queue().len() as int) =~= s0.queue());
                assert forall|d: int|
                    0 <= d < db.len() && #[trigger] self.unassigned_count@[d] == 1 && self.sat_count@[d] == 0
                        && cnt(nl.take(k + 1), d as u32) > 0 implies self.unit_queue@.contains(d as u32) by {
                    lemma_cnt_take(nl, k as int, d as u32);
                    assert(before.unassigned_count@[d] >= 0);
                }
                assert forall|d: int|
                    0 <= d < db.len() && #[trigger] self.unassigned_count@[d] == 0 && self.sat_count@[d] == 0
                        && cnt(nl.take(k + 1), d as u32) > 0 implies self.conflict by {
                    lemma_cnt_take(nl, k as int, d as u32);
                    assert(before.unassigned_count@[d] >= 0);
                }
                if before.conflict && !s0.conflict {
                    let cc = before.conflict_clause as int;
                    assert(before.unassigned_count@[cc] == 0);
                    assert(cc != c);
                }
                assert(cnt(nl, c as u32) == cnt(db[c as int], opposite));
                assert(self.unit_queue@ =~= s0.queue() + pushed(db, s1.value@, opposite, nl, k + 1));
                if self.conflict && !before.conflict {
                    assert forall|d: int| 0 <= d < c && cnt(#[trigger] db[d], opposite) > 0 implies n_true(
                        db[d],
                        s1.value@,
                    ) > 0 || n_free(db[d], s1.value@) > 0 by {
                        lemma_smaller_before(nl, k as int, d as u32);
                        assert(cnt(nl, d as u32) == cnt(db[d], opposite));
                        assert(before.unassigned_count@[d] >= 0);
                        assert(s0.unassigned_count@[d] >= 0);
                        assert(before.sat_count@[d] == n_true(db[d], s1.value@));
                    }
                }
            }
        }
        proof {
            assert(nl.take(nl.len() as int) =~= nl);
            lemma_pushed(db, s1.value@, opposite, db.len() as int);
            assert(db.take(db.len() as int) =~= db);
            let s2 = *self;
            assert forall|c: int| 0 <= c < db.len() implies #[trigger] s2.sat_count@[c] == n_true(
                s2.db()[c],
                s2.value@,
            ) && s2.unassigned_count@[c] == n_free(s2.db()[c], s2.value@) by {
                assert(s0.unassigned_count@[c] >= 0);
                assert(s2.unassigned_count@[c] >= 0);
            }
            assert(s2.counted());
            assert(s2.rep());
            assert(s2.trail_ok()) by {
                s2.lemma_assign_trail(&s0, lit, reason);
            }
            assert forall|c: int| 0 <= c < db.len() implies (#[trigger] s2.sat_count@[c] == 0
                && s2.unassigned_count@[c] == 0) == t_false(s2.trail(), db[c]) && (s2.sat_count@[c] == 0)
                == !t_sat(s2.trail(), db[c]) by {
                assert(clause_below(s2.db()[c], s2.nv()));
                s2.lemma_clause_counts(db[c]);
            }
            assert forall|j: int| 0 <= j < s2.queue().len() implies #[trigger] s2.queue()[j] < s2.db().len() by {
                if j < s0.queue().len() {
                    assert(s2.queue()[j] == s2.queue().take(s0.queue().len() as int)[j]);
                    assert(s0.queue()[j] < s0.db().len());
                }
            }
            if s0.conflict {
                let cc = s0.conflict_at();
                assert forall|i: int| 0 <= i < db[cc].len() implies s2.trail().contains(
                    (#[trigger] db[cc][i]).neg(),
                ) by {
                    assert(s0.trail().contains(db[cc][i].neg()));
                    crate::sorting::lemma_push_contains(s0.trail(), lit);
                }
            } else if s2.conflict {
                assert(s2.sat_count@[s2.conflict_at()] == 0);
                assert forall|d: int| 0 <= d < s2.conflict_at() && (#[trigger] s2.db()[d]).contains(opposite) implies !t_false(
                    s2.trail(),
                    s2.db()[d],
                ) by {
                    lemma_cnt_contains(db[d], opposite);
                    assert(s2.sat_count@[d] == n_true(s2.db()[d], s2.value@));
                }
            }
            if exists|c: int|
                0 <= c < s2.db().len() && (#[trigger] s2.db()[c]).contains(opposite) && t_false(
                    s2.trail(),
                    s2.db()[c],
                ) {
                let c = choose|c: int|
                    0 <= c < s2.db().len() && (#[trigger] s2.db()[c]).contains(opposite) && t_false(
                        s2.trail(),
                        s2.db()[c],
                    );
                assert(s2.sat_count@[c] == 0);
                assert(s2.unassigned_count@[c] == 0);
                lemma_occ_list(db, opposite, c);
                lemma_cnt_contains(db[c], opposite);
                assert(s2.conflict);
            }
            assert forall|x: int| #[trigger] s0.covered_except(x) implies s2.covered_except(x) by {
                if !s2.conflicting() {
                    assert forall|c: int|
                        0 <= c < s2.db().len() && c != x && n_true(#[trigger] s2.db()[c], s2.vals()) == 0
                            && n_free(s2.db()[c], s2.vals()) <= 1 implies n_free(s2.db()[c], s2.vals())
                        == 1 && s2.queue().contains(c as u32) by {
                        assert(s2.sat_count@[c] == 0);
                        assert(s2.unassigned_count@[c] <= 1);
                        lemma_occ_list(db, lit, c);
                        assert(s0.sat_count@[c] == n_true(s0.db()[c], s0.value@));
                        assert(clause_below(db[c], s0.nv()));
                        lemma_assign_counts(db[c], s0.value@, lit);
                        lemma_occ_list(db, opposite, c);
                        if cnt(nl, c as u32) == 0 {
                            assert(n_free(s0.db()[c], s0.vals()) <= 1);
                            assert(s0.queue().contains(c as u32));
                            let j = choose|j: int| 0 <= j < s0.queue().len() && s0.queue()[j] == c as u32;
                            assert(s2.queue()[j] == s2.queue().take(s0.queue().len() as int)[j]);
                        }
                    }
                }
            }
        }
    }
}

/// Every variable of the clause that the trail leaves open lies in `w`.
pub open spec fn inside(t: Seq<Lit>, c: Seq<Lit>, w: Set<int>) -> bool {
    forall|i: int| 0 <= i < c.len() ==> t_has(t, (#[trigger] c[i]).vi()) || w.contains(c[i].vi())
}

/// Some variable of the clause is open and lies in `w`.
pub open spec fn touches(t: Seq<Lit>, c: Seq<Lit>, w: Set<int>) -> bool {
    exists|i: int| 0 <= i < c.len() && !t_has(t, (#[trigger] c[i]).vi()) && w.contains(c[i].vi())
}

/// No active clause joins a variable of `w` to an open variable outside it.
pub open spec fn closed_under(db: Seq<Seq<Lit>>, t: Seq<Lit>, w: Set<int>) -> bool {
    forall|c: int|
        0 <= c < db.len() && !t_sat(t, #[trigger] db[c]) && touches(t, db[c], w) ==> inside(t, db[c], w)
}

/// Every active clause of the list keeps its open variables inside `w`.
pub open spec fn listed_inside(db: Seq<Seq<Lit>>, t: Seq<Lit>, q: Seq<u32>, w: Set<int>) -> bool {
    forall|k: int|
        0 <= k < q.len() ==> t_sat(t, db[#[trigger] q[k] as int]) || inside(t, db[q[k] as int], w)
}

/// Assigning literals on top of a trail keeps what the trail satisfied and assigned.
pub proof fn lemma_trail_grows(t: Seq<Lit>, u: Seq<Lit>)
    requires
        t.len() <= u.len(),
        u.take(t.len() as int) == t,
    ensures
        forall|l: Lit| t.contains(l) ==> #[trigger] u.contains(l),
        forall|v: int| t_has(t, v) ==> #[trigger] t_has(u, v),
        forall|c: Seq<Lit>| t_sat(t, c) ==> #[trigger] t_sat(u, c),
        forall|c: Seq<Lit>| t_false(t, c) ==> #[trigger] t_false(u, c),
        forall|c: Seq<Lit>, w: Set<int>| inside(t, c, w) ==> #[trigger] inside(u, c, w),
        forall|m: Valuation| agrees(m, u) ==> #[trigger] agrees(m, t),
{
    assert forall|i: int| 0 <= i < t.len() implies #[trigger] t[i] == u[i] by {
        assert(u.take(t.len() as int)[i] == u[i]);
    }
    assert forall|l: Lit| t.contains(l) implies #[trigger] u.contains(l) by {
        let i = choose|i: int| 0 <= i < t.len() && t[i] == l;
        assert(u[i] == l);
    }
    assert forall|v: int| t_has(t, v) implies #[trigger] t_has(u, v) by {
        let i = choose|i: int| 0 <= i < t.len() && (#[trigger] t[i]).vi() == v;
        assert(u[i].vi() == v);
    }
    assert forall|c: Seq<Lit>| t_sat(t, c) implies #[trigger] t_sat(u, c) by {
        let i = choose|i: int| 0 <= i < c.len() && t.contains(#[trigger] c[i]);
        assert(u.contains(c[i]));
    }
    assert forall|c: Seq<Lit>| t_false(t, c) implies #[trigger] t_false(u, c) by {
        assert forall|i: int| 0 <= i < c.len() implies u.contains((#[trigger] c[i]).neg()) by {
            assert(t.contains(c[i].neg()));
        }
    }
    assert forall|c: Seq<Lit>, w: Set<int>| inside(t, c, w) implies #[trigger] inside(u, c, w) by {
        assert forall|i: int| 0 <= i < c.len() implies t_has(u, (#[trigger] c[i]).vi()) || w.contains(
            c[i].vi(),
        ) by {
            assert(t_has(t, c[i].vi()) || w.contains(c[i].vi()));
        }
    }
    assert forall|m: Valuation| agrees(m, u) implies #[trigger] agrees(m, t) by {
        assert forall|i: int| 0 <= i < t.len() implies lit_true(m, #[trigger] t[i]) by {
            assert(lit_true(m, u[i]));
        }
    }
}

impl SearchState {
    /// Assigns `lit` to true with no reason: a decision, or a pure literal.
    pub fn enqueue(&mut self, lit: Lit)
        requires
            old(self).wf(),
            lit.vi() < old(self).nv(),
            old(self).vals()[lit.vi()] is None,
        ensures
            final(self).wf(),
            final(self).assigned_from(old(self), lit, NO_REASON),
    {
        self.assign(lit, NO_REASON);
    }

    /// Assigns `lit` to true because clause `reason` forced it.
    pub fn enqueue_implied(&mut self, lit: Lit, reason: u32)
        requires
            old(self).wf(),
            lit.vi() < old(self).nv(),
            old(self).vals()[lit.vi()] is None,
            reason < old(self).db().len(),
            forces(old(self).db()[reason as int], lit, old(self).trail()),
        ensures
            final(self).wf(),
            final(self).assigned_from(old(self), lit, reason),
    {
        self.assign(lit, reason);
    }

    /// The trail stays in order when clauses are appended to the database.
    pub proof fn lemma_trail_ok_same(&self, o: &SearchState)
        requires
            o.trail_ok(),
            self.same_assignment(o),
            o.db().len() <= self.db().len(),
            self.db().take(o.db().len() as int) == o.db(),
            formula_below(self.db(), self.nv()),
        ensures
            self.trail_ok(),
    {
        assert forall|c: int| 0 <= c < o.db().len() implies #[trigger] o.db()[c] == self.db()[c] by {
            assert(self.db().take(o.db().len() as int)[c] == self.db()[c]);
        }
        assert forall|i: int| 0 <= i < self.trail().len() implies self.reason_ok(
            #[trigger] self.trail()[i],
            i,
        ) && at_level(self.lims(), i, self.levels()[self.trail()[i].vi()] as int) by {
            assert(o.reason_ok(o.trail()[i], i));
            assert(at_level(o.lims(), i, o.levels()[o.trail()[i].vi()] as int));
        }
        assert forall|v: int| 0 <= v < self.nv() && #[trigger] self.vals()[v] is Some implies t_has(
            self.trail(),
            v,
        ) by {
            assert(o.vals()[v] is Some);
        }
        assert forall|i: int, j: int| 0 <= i <= j < self.lims().len() implies #[trigger] self.lims()[i]
            <= #[trigger] self.lims()[j] by {
            assert(o.lims()[i] <= o.lims()[j]);
        }
        assert forall|i: int, j: int| 0 <= i < j < self.trail().len() implies (#[trigger] self.trail()[i]).vi()
            != (#[trigger] self.trail()[j]).vi() by {
            assert(o.trail()[i].vi() != o.trail()[j].vi());
        }
    }

    /// Everything but the queue is as in `o`.
    pub open spec fn same_but_queue(&self, o: &SearchState) -> bool {
        &&& self.same_assignment(o)
        &&& self.db() == o.db()
        &&& self.learned_size() == o.learned_size()
        &&& self.propagation_count() == o.propagation_count()
    }

    /// Queues clause `c` to be re-examined by the next [`SearchState::propagate`].
    ///
    /// Backtracking cannot make a clause unit by itself, as it only unassigns, so a clause that
    /// became unit as a *consequence* of backtracking past the conflict that derived it is never
    /// noticed by the ordinary path. The search hands those here.
    pub fn queue_clause(&mut self, c: u32)
        requires
            old(self).wf(),
            c < old(self).db().len(),
        ensures
            final(self).wf(),
            final(self).same_but_queue(old(self)),
            final(self).queue() == old(self).queue().push(c),
            final(self).conflicting() == old(self).conflicting(),
            final(self).conflict_at() == old(self).conflict_at(),
            old(self).covered() ==> final(self).covered(),
    {
        proof {
            reveal(SearchState::rep);
        }
        self.unit_queue.push(c);
        proof {
            assert(self.rep());
            assert(self.db().take(old(self).db().len() as int) =~= old(self).db());
            self.lemma_trail_ok_same(old(self));
            crate::sorting::lemma_push_contains(old(self).queue(), c);
        }
    }

    /// The one literal of a unit clause that is still open.
    fn open_literal(&self, c: usize) -> (l: Lit)
        requires
            self.wf(),
            c < self.db().len(),
            n_true(self.db()[c as int], self.vals()) == 0,
            n_free(self.db()[c as int], self.vals()) == 1,
        ensures
            l.vi() < self.nv(),
            self.db()[c as int].contains(l),
            self.vals()[l.vi()] is None,
            forces(self.db()[c as int], l, self.trail()),
            l == first_open(self.db()[c as int], self.vals()),
    {
        proof {
            reveal(SearchState::rep);
        }
        let clause = self.clauses.clause(c);
        let mut k: usize = 0;
        proof {
            assert(clause@.skip(0) =~= clause@);
            assert(clause_below(self.db()[c as int], self.nv()));
            lemma_n_free_zero(clause@, self.vals());
            lemma_n_true_zero(clause@, self.vals());
        }
        while k < clause.len()
            invariant
                self.wf(),
                c < self.db().len(),
                clause@ == self.db()[c as int],
                clause_below(clause@, self.nv()),
                n_true(clause@, self.vals()) == 0,
                n_free(clause@, self.vals()) == 1,
                k <= clause@.len(),
                forall|i: int| 0 <= i < clause@.len() ==> !val_true(self.vals(), #[trigger] clause@[i]),
                exists|i: int|
                    k <= i < clause@.len() && self.vals()[(#[trigger] clause@[i]).vi()] is None,
                first_open(clause@, self.vals()) == first_open(clause@.skip(k as int), self.vals()),
            decreases clause@.len() - k,
        {
            let l = clause[k];
            proof {
                assert(clause@.skip(k as int)[0] == clause@[k as int]);
                assert(clause@.skip(k as int).skip(1) =~= clause@.skip(k + 1));
            }
            if self.value[l.var().index()].is_none() {
                proof {
                    lemma_n_free_zero(clause@, self.vals());
                    assert(clause@.contains(clause@[k as int]));
                    assert forall|q: int| 0 <= q < clause@.len() && q != k implies self.trail().contains(
                        (#[trigger] clause@[q]).neg(),
                    ) by {
                        assert(!val_true(self.vals(), clause@[q]));
                        assert(self.vals()[clause@[q].vi()] is None ==> n_free(clause@, self.vals()) >= 2);
                        self.lemma_vals_lit(clause@[q]);
                    }
                }
                return l;
            }
            k = k + 1;
        }
        clause[0]
    }
}

/// Where propagation stands.
pub struct Wave {
    /// What is assigned, in order.
    pub trail: Seq<Lit>,
    /// The value of each variable.
    pub vals: Seq<Option<bool>>,
    /// The clause that forced each variable.
    pub reasons: Seq<u32>,
    /// The clauses still to be looked at; the last one comes next.
    pub queue: Seq<u32>,
    /// The falsified clause, once there is one.
    pub conflict: Option<int>,
}

/// The first literal of the clause that is open.
pub open spec fn first_open(c: Seq<Lit>, vals: Seq<Option<bool>>) -> Lit
    decreases c.len(),
{
    if c.len() == 0 || vals[c[0].vi()] is None {
        c[0]
    } else {
        first_open(c.skip(1), vals)
    }
}

/// The first of the clauses with literal `l` that is falsified.
pub open spec fn first_falsified_of(db: Seq<Seq<Lit>>, vals: Seq<Option<bool>>, l: Lit, n: int) -> Option<int>
    decreases n,
{
    if n <= 0 {
        None
    } else {
        match first_falsified_of(db, vals, l, n - 1) {
            Some(c) => Some(c),
            None => if db[n - 1].contains(l) && n_true(db[n - 1], vals) == 0 && n_free(db[n - 1], vals) == 0 {
                Some(n - 1)
            } else {
                None
            },
        }
    }
}

impl Wave {
    /// Nothing is left to be done.
    pub open spec fn at_rest(self) -> bool {
        self.conflict is Some || self.queue.len() == 0
    }

    /// The wave once `l` was forced by clause `c`: the clauses that this wakes are queued, and the
    /// first one that it falsifies is the conflict.
    pub open spec fn forced(self, db: Seq<Seq<Lit>>, l: Lit, c: u32) -> Wave {
        let vals = self.vals.update(l.vi(), Some(l.pos()));
        Wave {
            trail: self.trail.push(l),
            vals,
            reasons: self.reasons.update(l.vi(), c),
            queue: self.queue + woken(db, vals, l.neg(), db.len() as int),
            conflict: first_falsified_of(db, vals, l.neg(), db.len() as int),
        }
    }

    /// One step: the last clause of the queue is taken off. If it is unit its open literal is forced,
    /// and if it is falsified it is the conflict.
    pub open spec fn step(self, db: Seq<Seq<Lit>>) -> Wave {
        if self.at_rest() {
            self
        } else {
            let c = self.queue.last();
            let cl = db[c as int];
            let next = Wave { queue: self.queue.drop_last(), ..self };
            if n_true(cl, self.vals) > 0 || n_free(cl, self.vals) > 1 {
                next
            } else if n_free(cl, self.vals) == 0 {
                Wave { conflict: Some(c as int), ..next }
            } else {
                next.forced(db, first_open(cl, self.vals), c)
            }
        }
    }

    /// A number of steps.
    pub open spec fn steps(self, db: Seq<Seq<Lit>>, n: nat) -> Wave
        decreases n,
    {
        if n == 0 {
            self
        } else {
            self.steps(db, (n - 1) as nat).step(db)
        }
    }
}

/// Where propagation comes to rest does not depend on how many steps it is given.
pub proof fn lemma_one_rest(w: Wave, db: Seq<Seq<Lit>>, a: nat, b: nat)
    requires
        w.steps(db, a).at_rest(),
        w.steps(db, b).at_rest(),
    ensures
        w.steps(db, a) == w.steps(db, b),
    decreases a + b,
{
    if a < b {
        lemma_rest_stays(w, db, a, b);
    } else {
        lemma_rest_stays(w, db, b, a);
    }
}

/// At rest, further steps change nothing.
proof fn lemma_rest_stays(w: Wave, db: Seq<Seq<Lit>>, a: nat, b: nat)
    requires
        w.steps(db, a).at_rest(),
        a <= b,
    ensures
        w.steps(db, b) == w.steps(db, a),
    decreases b,
{
    if a < b {
        lemma_rest_stays(w, db, a, (b - 1) as nat);
    }
}

/// The first falsified clause, found by looking through them in order.
proof fn lemma_first_falsified(db: Seq<Seq<Lit>>, vals: Seq<Option<bool>>, l: Lit, n: int)
    requires
        0 <= n <= db.len(),
    ensures
        match first_falsified_of(db, vals, l, n) {
            Some(c) => 0 <= c < n && db[c].contains(l) && n_true(db[c], vals) == 0 && n_free(db[c], vals) == 0
                && forall|d: int|
                0 <= d < c && (#[trigger] db[d]).contains(l) ==> n_true(db[d], vals) > 0 || n_free(db[d], vals) > 0,
            None => forall|d: int|
                0 <= d < n && (#[trigger] db[d]).contains(l) ==> n_true(db[d], vals) > 0 || n_free(db[d], vals) > 0,
        },
    decreases n,
{
    if n > 0 {
        lemma_first_falsified(db, vals, l, n - 1);
    }
}

/// A counter after `n` more events; it stops at the largest number it can hold.
pub open spec fn counted_up(count: u64, n: int) -> int {
    if count + n <= u64::MAX {
        count + n
    } else {
        u64::MAX as int
    }
}

impl SearchState {
    /// Where propagation stands in this state.
    pub open spec fn wave(&self) -> Wave {
        Wave {
            trail: self.trail(),
            vals: self.vals(),
            reasons: self.reasons(),
            queue: self.queue(),
            conflict: if self.conflicting() {
                Some(self.conflict_at())
            } else {
                None
            },
        }
    }

    /// The wave of the state, after `n` steps, with the queue emptied.
    pub open spec fn settled_after(&self, o: &SearchState, n: nat) -> bool {
        let end = o.wave().steps(o.db(), n);
        end.at_rest() && self.wave() == (Wave { queue: Seq::empty(), ..end })
    }

    /// Forcing a literal is a step of the wave.
    proof fn lemma_forced_wave(&self, o: &SearchState, l: Lit, c: u32)
        requires
            o.wf(),
            self.wf(),
            self.assigned_from(o, l, c),
            !o.conflicting(),
            l.vi() < o.nv(),
        ensures
            self.wave() == o.wave().forced(o.db(), l, c),
    {
        let db = self.db();
        let vals = self.vals();
        lemma_first_falsified(db, vals, l.neg(), db.len() as int);
        assert forall|d: int| 0 <= d < db.len() implies (n_true(#[trigger] db[d], vals) == 0 && n_free(db[d], vals) == 0)
            == t_false(self.trail(), db[d]) by {
            assert(clause_below(db[d], self.nv()));
            self.lemma_clause_counts(db[d]);
        }
        assert(self.wave().conflict == first_falsified_of(db, vals, l.neg(), db.len() as int)) by {
            match first_falsified_of(db, vals, l.neg(), db.len() as int) {
                Some(x) => {
                    assert(t_false(self.trail(), db[x]));
                    assert(self.conflicting());
                    let y = self.conflict_at();
                    if x < y {
                        assert(!t_false(self.trail(), db[x]));
                    }
                    if y < x {
                        assert(db[y].contains(l.neg()));
                    }
                },
                None => {
                    if self.conflicting() {
                        assert(db[self.conflict_at()].contains(l.neg()));
                    }
                },
            }
        }
    }

    /// The state after some literals were forced on top of the trail of `o`.
    pub open spec fn propagated_from(&self, o: &SearchState) -> bool {
        &&& self.propagation_count() == counted_up(
            o.propagation_count(),
            self.trail().len() - o.trail().len(),
        )
        &&& self.db() == o.db()
        &&& self.nv() == o.nv()
        &&& self.n_orig() == o.n_orig()
        &&& self.learned_size() == o.learned_size()
        &&& self.lims() == o.lims()
        &&& o.trail().len() <= self.trail().len()
        &&& self.trail().take(o.trail().len() as int) == o.trail()
        &&& forall|v: int|
            0 <= v < self.nv() && #[trigger] o.vals()[v] is Some ==> self.vals()[v] == o.vals()[v]
                && self.levels()[v] == o.levels()[v] && self.reasons()[v] == o.reasons()[v]
        &&& forall|i: int|
            o.trail().len() <= i < self.trail().len() ==> self.reasons()[(
            #[trigger] self.trail()[i]).vi()] != NO_REASON
    }

    /// New assignments stay inside every closed set of variables that holds the queued clauses.
    pub open spec fn stays_inside(&self, o: &SearchState) -> bool {
        forall|w: Set<int>|
            #![trigger closed_under(o.db(), o.trail(), w)]
            closed_under(o.db(), o.trail(), w) && listed_inside(o.db(), o.trail(), o.queue(), w)
                ==> forall|i: int|
                o.trail().len() <= i < self.trail().len() ==> w.contains((#[trigger] self.trail()[i]).vi())
    }

    proof fn lemma_step_inside(o: &SearchState, a: &SearchState, b: &SearchState, l: Lit, c: u32, w: Set<int>)
        requires
            a.wf(),
            b.wf(),
            a.propagated_from(o),
            b.assigned_from(a, l, c),
            l.vi() < a.nv(),
            a.vals()[l.vi()] is None,
            c < a.db().len(),
            a.db()[c as int].contains(l),
            !t_sat(a.trail(), a.db()[c as int]),
            inside(a.trail(), a.db()[c as int], w),
            closed_under(o.db(), o.trail(), w),
            listed_inside(a.db(), a.trail(), a.queue(), w),
        ensures
            w.contains(l.vi()),
            listed_inside(b.db(), b.trail(), b.queue(), w),
    {
        let cl = a.db()[c as int];
        let i = choose|i: int| 0 <= i < cl.len() && cl[i] == l;
        a.lemma_vals(l.vi());
        assert(w.contains(cl[i].vi()));
        assert(b.trail().take(a.trail().len() as int) =~= a.trail());
        assert(b.trail().take(o.trail().len() as int) =~= a.trail().take(o.trail().len() as int));
        lemma_trail_grows(a.trail(), b.trail());
        lemma_trail_grows(o.trail(), b.trail());
        lemma_trail_grows(o.trail(), a.trail());
        assert forall|k: int| 0 <= k < b.queue().len() implies t_sat(
            b.trail(),
            b.db()[#[trigger] b.queue()[k] as int],
        ) || inside(b.trail(), b.db()[b.queue()[k] as int], w) by {
            let d = b.queue()[k] as int;
            if k < a.queue().len() {
                assert(b.queue().take(a.queue().len() as int)[k] == a.queue()[k]);
                assert(t_sat(a.trail(), a.db()[d]) || inside(a.trail(), a.db()[d], w));
            } else if !t_sat(b.trail(), b.db()[d]) {
                assert(b.db()[d].contains(l.neg()));
                let j = choose|j: int| 0 <= j < b.db()[d].len() && b.db()[d][j] == l.neg();
                assert(b.db()[d][j].vi() == l.vi());
                assert(!t_has(o.trail(), l.vi()));
                assert(touches(o.trail(), o.db()[d], w));
                assert(inside(o.trail(), o.db()[d], w));
            }
        }
    }

    /// An assignment notices every clause that it falsifies.
    pub proof fn lemma_assign_noted(&self, o: &SearchState, lit: Lit, reason: u32)
        requires
            self.assigned_from(o, lit, reason),
            o.noted(),
        ensures
            self.noted(),
    {
        if !self.conflicting() {
            assert forall|c: int| 0 <= c < self.db().len() implies !t_false(self.trail(), #[trigger] self.db()[c]) by {
                if t_false(self.trail(), self.db()[c]) {
                    let cl = self.db()[c];
                    assert(!cl.contains(lit.neg()));
                    assert(t_false(o.trail(), cl)) by {
                        assert forall|i: int| 0 <= i < cl.len() implies o.trail().contains((#[trigger] cl[i]).neg()) by {
                            assert(self.trail().contains(cl[i].neg()));
                            crate::sorting::lemma_push_contains(o.trail(), lit);
                            if cl[i].neg() == lit {
                                crate::lit::lemma_negation_is_involutive(cl[i]);
                                assert(cl.contains(cl[i]));
                            }
                        }
                    }
                    assert(!t_false(o.trail(), o.db()[c]));
                }
            }
        }
    }

    /// Runs unit propagation to fixpoint.
    ///
    /// Returns `false` on conflict, in which case the caller must analyse or
    /// [`SearchState::pop_level`] before doing anything else.
    #[verifier::rlimit(100)]
    pub fn propagate(&mut self) -> (ok: bool)
        requires
            old(self).wf(),
        ensures
            final(self).wf(),
            ok == !final(self).conflicting(),
            final(self).queue() == Seq::<u32>::empty(),
            final(self).propagated_from(old(self)),
            final(self).stays_inside(old(self)),
            old(self).covered() ==> final(self).covered(),
            old(self).noted() ==> final(self).noted(),
            old(self).conflicting() ==> final(self).trail() == old(self).trail()
                && final(self).conflict_at() == old(self).conflict_at(),
            exists|n: nat| #[trigger] final(self).settled_after(old(self), n),
    {
        proof {
            reveal(SearchState::rep);
        }
        let ghost s0 = *self;
        let ghost mut steps: nat = 0;
        proof {
            assert(s0.trail().take(s0.trail().len() as int) =~= s0.trail());
        }
        while !self.conflict && self.unit_queue.len() > 0
            invariant
                self.wave() == s0.wave().steps(s0.db(), steps),
                self.wf(),
                self.propagated_from(&s0),
                s0.wf(),
                s0.covered() ==> self.covered(),
                s0.noted() ==> self.noted(),
                s0.conflicting() ==> *self == s0,
                forall|w: Set<int>|
                    #![trigger closed_under(s0.db(), s0.trail(), w)]
                    closed_under(s0.db(), s0.trail(), w) && listed_inside(
                        s0.db(),
                        s0.trail(),
                        s0.queue(),
                        w,
                    ) ==> listed_inside(self.db(), self.trail(), self.queue(), w) && forall|i: int|
                        s0.trail().len() <= i < self.trail().len() ==> w.contains(
                            (#[trigger] self.trail()[i]).vi(),
                        ),
            decreases cnt(self.vals(), None::<bool>), self.queue().len(),
        {
            proof {
                reveal(SearchState::rep);
            }
            let ghost top = *self;
            let popped = self.unit_queue.pop();
            let c: usize = match popped {
                Some(c) => c as usize,
                None => 0,
            };
            let ghost mid = *self;
            proof {
                assert(top.queue()[top.queue().len() - 1] == c as u32);
                assert(top.queue() =~= mid.queue().push(c as u32));
                assert(mid.db().take(top.db().len() as int) =~= top.db());
                mid.lemma_trail_ok_same(&top);
                assert(mid.counted()) by {
                    assert forall|d: int| 0 <= d < mid.db().len() implies #[trigger] mid.sat_count@[d]
                        == n_true(mid.db()[d], mid.value@) && mid.unassigned_count@[d] == n_free(
                        mid.db()[d],
                        mid.value@,
                    ) by {
                        assert(top.sat_count@[d] == n_true(top.db()[d], top.value@));
                    }
                }
                assert(mid.rep());
                assert forall|k: int| 0 <= k < mid.queue().len() implies #[trigger] mid.queue()[k] < mid.db().len() by {
                    assert(mid.queue()[k] == top.queue()[k]);
                }
                assert(mid.wf());
                assert(clause_below(mid.db()[c as int], mid.nv()));
                mid.lemma_clause_counts(mid.db()[c as int]);
                assert(mid.sat_count@[c as int] == n_true(mid.db()[c as int], mid.vals()));
                crate::sorting::lemma_push_contains(mid.queue(), c as u32);
                assert(top.db() == mid.db() && top.vals() == mid.vals());
                assert forall|w: Set<int>|
                    listed_inside(top.db(), top.trail(), top.queue(), w) implies #[trigger] listed_inside(
                    mid.db(),
                    mid.trail(),
                    mid.queue(),
                    w,
                ) && (t_sat(mid.trail(), mid.db()[c as int]) || inside(
                    mid.trail(),
                    mid.db()[c as int],
                    w,
                )) by {
                    assert forall|k: int| 0 <= k < mid.queue().len() implies t_sat(
                        mid.trail(),
                        mid.db()[#[trigger] mid.queue()[k] as int],
                    ) || inside(mid.trail(), mid.db()[mid.queue()[k] as int], w) by {
                        assert(mid.queue()[k] == top.queue()[k]);
                    }
                    let last = top.queue().len() - 1;
                    assert(top.queue()[last] == c as u32);
                }
            }
            proof {
                steps = steps + 1;
                assert(!top.wave().at_rest());
                assert(top.queue().drop_last() =~= mid.queue());
                assert(mid.unassigned_count@[c as int] == n_free(mid.db()[c as int], mid.vals()));
            }
            // The queue records clauses that *were* unit; by the time one is drained it may have
            // been satisfied or shortened further, so re-check rather than trust the entry.
            if self.sat_count[c] > 0 {
                continue;
            }
            if self.unassigned_count[c] == 0 {
                self.record_conflict(c);
                proof {
                    assert(self.db().take(mid.db().len() as int) =~= mid.db());
                    self.lemma_trail_ok_same(&mid);
                    assert(self.counted()) by {
                        assert forall|d: int| 0 <= d < self.db().len() implies #[trigger] self.sat_count@[d]
                            == n_true(self.db()[d], self.value@) && self.unassigned_count@[d] == n_free(
                            self.db()[d],
                            self.value@,
                        ) by {
                            assert(mid.sat_count@[d] == n_true(mid.db()[d], mid.value@));
                        }
                    }
                    assert(self.rep());
                    assert(self.wf());
                }
                continue;
            }
            if self.unassigned_count[c] != 1 {
                continue;
            }
            let implied = self.open_literal(c);
            self.enqueue_implied(implied, c as u32);
            proof {
                self.lemma_forced_wave(&mid, implied, c as u32);
                if s0.noted() {
                    assert(mid.noted());
                    self.lemma_assign_noted(&mid, implied, c as u32);
                }
                if s0.covered() {
                    assert(mid.covered_except(c as int)) by {
                        assert forall|d: int|
                            0 <= d < mid.db().len() && d != c && n_true(#[trigger] mid.db()[d], mid.vals()) == 0
                                && n_free(mid.db()[d], mid.vals()) <= 1 implies n_free(
                            mid.db()[d],
                            mid.vals(),
                        ) == 1 && mid.queue().contains(d as u32) by {
                            assert(top.db()[d] == mid.db()[d]);
                            assert(top.queue().contains(d as u32));
                        }
                    }
                    assert(self.covered_except(c as int));
                    crate::sorting::lemma_push_contains(mid.trail(), implied);
                    let cl = self.db()[c as int];
                    let i = choose|i: int| 0 <= i < cl.len() && cl[i] == implied;
                    assert(self.trail().contains(cl[i]));
                    assert(t_sat(self.trail(), cl));
                    self.lemma_clause_counts(cl);
                    assert(self.covered());
                }
                lemma_cnt_update(mid.vals(), implied.vi(), Some(implied.pos()), None::<bool>);
                assert(self.trail().take(s0.trail().len() as int) =~= mid.trail().take(s0.trail().len() as int));
                assert forall|w: Set<int>|
                    #![trigger closed_under(s0.db(), s0.trail(), w)]
                    closed_under(s0.db(), s0.trail(), w) && listed_inside(
                        s0.db(),
                        s0.trail(),
                        s0.queue(),
                        w,
                    ) implies listed_inside(self.db(), self.trail(), self.queue(), w) && forall|i: int|
                    s0.trail().len() <= i < self.trail().len() ==> w.contains((#[trigger] self.trail()[i]).vi()) by {
                    assert(listed_inside(mid.db(), mid.trail(), mid.queue(), w));
                    SearchState::lemma_step_inside(&s0, &mid, self, implied, c as u32, w);
                    assert forall|i: int| s0.trail().len() <= i < self.trail().len() implies w.contains(
                        (#[trigger] self.trail()[i]).vi(),
                    ) by {
                        if i < mid.trail().len() {
                            assert(self.trail()[i] == mid.trail()[i]);
                        }
                    }
                }
                assert forall|i: int| s0.trail().len() <= i < self.trail().len() implies self.reasons()[(
                #[trigger] self.trail()[i]).vi()] != NO_REASON by {
                    if i < mid.trail().len() {
                        assert(self.trail()[i] == mid.trail()[i]);
                        assert(mid.trail()[i].vi() != implied.vi()) by {
                            assert(mid.vals()[mid.trail()[i].vi()] is Some);
                        }
                    }
                }
            }
        }
        let ghost end = *self;
        assert(end.wave().at_rest());
        if self.conflict {
            self.unit_queue.clear();
            proof {
                assert(self.db().take(end.db().len() as int) =~= end.db());
                self.lemma_trail_ok_same(&end);
                assert(self.rep());
                assert(self.queue() =~= Seq::<u32>::empty());
                assert(self.settled_after(&s0, steps));
            }
            return false;
        }
        assert(self.queue() =~= Seq::<u32>::empty());
        assert(self.settled_after(&s0, steps));
        true
    }

    /// Opens a new decision level.
    pub fn push_level(&mut self)
        requires
            old(self).wf(),
        ensures
            final(self).wf(),
            final(self).db() == old(self).db(),
            final(self).nv() == old(self).nv(),
            final(self).n_orig() == old(self).n_orig(),
            final(self).learned_size() == old(self).learned_size(),
            final(self).propagation_count() == old(self).propagation_count(),
            final(self).lims() == old(self).lims().push(old(self).trail().len() as usize),
            final(self).trail() == old(self).trail(),
            final(self).vals() == old(self).vals(),
            final(self).levels() == old(self).levels(),
            final(self).reasons() == old(self).reasons(),
            final(self).queue() == old(self).queue(),
            final(self).conflicting() == old(self).conflicting(),
            final(self).conflict_at() == old(self).conflict_at(),
    {
        proof {
            reveal(SearchState::rep);
        }
        let n: usize = self.trail.len();
        self.trail_lim.push(n);
        proof {
            let o = *old(self);
            assert forall|i: int| 0 <= i < self.trail().len() implies at_level(
                self.lims(),
                i,
                self.levels()[(#[trigger] self.trail()[i]).vi()] as int,
            ) && self.reason_ok(self.trail()[i], i) by {
                assert(at_level(o.lims(), i, o.levels()[o.trail()[i].vi()] as int));
                assert(o.reason_ok(o.trail()[i], i));
            }
            assert forall|v: int| 0 <= v < self.nv() && #[trigger] self.vals()[v] is Some implies t_has(
                self.trail(),
                v,
            ) by {
                assert(o.vals()[v] is Some);
            }
            assert(self.trail_ok());
            assert(self.counted()) by {
                assert forall|d: int| 0 <= d < self.db().len() implies #[trigger] self.sat_count@[d] == n_true(
                    self.db()[d],
                    self.value@,
                ) && self.unassigned_count@[d] == n_free(self.db()[d], self.value@) by {
                    assert(o.sat_count@[d] == n_true(o.db()[d], o.value@));
                }
            }
            assert(self.rep());
            assert forall|k: int| 0 <= k < self.queue().len() implies #[trigger] self.queue()[k]
                < self.db().len() by {
                assert(o.queue()[k] < o.db().len());
            }
        }
    }
}

impl SearchState {
    /// Takes the last literal off the trail, putting every counter back.
    #[verifier::rlimit(100)]
    fn unassign_last(&mut self)
        requires
            old(self).wf(),
            !old(self).conflicting(),
            old(self).queue().len() == 0,
            old(self).trail().len() > 0,
            old(self).lims().len() > 0,
            old(self).lims().last() < old(self).trail().len(),
        ensures
            final(self).wf(),
            final(self).db() == old(self).db(),
            final(self).nv() == old(self).nv(),
            final(self).n_orig() == old(self).n_orig(),
            final(self).learned_size() == old(self).learned_size(),
            final(self).propagation_count() == old(self).propagation_count(),
            final(self).lims() == old(self).lims(),
            final(self).trail() == old(self).trail().drop_last(),
            final(self).vals() == old(self).vals().update(old(self).trail().last().vi(), None),
            final(self).levels() == old(self).levels(),
            final(self).reasons() == old(self).reasons().update(old(self).trail().last().vi(), NO_REASON),
            final(self).queue().len() == 0,
            !final(self).conflicting(),
            final(self).conflict_at() == old(self).conflict_at(),
    {
        proof {
            reveal(SearchState::rep);
        }
        let ghost s0 = *self;
        let n: usize = self.trail.len();
        let lit = self.trail[n - 1];
        self.trail.truncate(n - 1);
        let opposite = lit.negated();
        let li: usize = lit.index();
        let ni: usize = opposite.index();
        let var: usize = lit.var().index();
        let ghost db = s0.db();
        let ghost pl = occ_list(db, lit);
        let ghost nl = occ_list(db, opposite);
        proof {
            assert(s0.trail()[n - 1] == lit);
            assert(lit.vi() < s0.nv());
        }
        self.value[var] = None;
        self.reason[var] = NO_REASON;
        let ghost s1 = *self;
        proof {
            assert(Lit { code: li as u32 } == lit);
            assert(Lit { code: ni as u32 } == opposite);
            assert(s0.occ@[li as int]@ == pl);
            assert(s0.occ@[ni as int]@ == nl);
            lemma_occ_list_below(db, lit);
            lemma_occ_list_below(db, opposite);
            assert(s1.value@.update(lit.vi(), Some(lit.pos())) =~= s0.value@);
            assert forall|c: int| 0 <= c < db.len() implies n_free(db[c], s1.value@)
                == #[trigger] s0.unassigned_count@[c] + cnt(pl, c as u32) + cnt(nl, c as u32)
                && s0.sat_count@[c] == n_true(db[c], s1.value@) + cnt(pl, c as u32) && n_free(
                db[c],
                s1.value@,
            ) <= usize::MAX by {
                assert(s0.sat_count@[c] == n_true(s0.db()[c], s0.value@));
                assert(clause_below(db[c], s0.nv()));
                lemma_assign_counts(db[c], s1.value@, lit);
                lemma_occ_list(db, lit, c);
                lemma_occ_list(db, opposite, c);
                lemma_counts_bounded(db[c], s1.value@);
                s0.clauses.lemma_wf();
            }
        }
        let n_pos: usize = self.occ[li].len();
        for k in 0..n_pos
            invariant
                self.same_frame(&s1),
                db.len() < u32::MAX,
                s1.clauses == s0.clauses,
                s1.occ == s0.occ,
                self.sat_count@.len() == db.len(),
                self.unassigned_count@.len() == db.len(),
                self.unit_queue == s0.unit_queue,
                self.conflict == s0.conflict,
                self.conflict_clause == s0.conflict_clause,
                li < self.occ@.len(),
                self.occ@[li as int]@ == pl,
                n_pos == pl.len(),
                forall|j: int| 0 <= j < pl.len() ==> #[trigger] pl[j] < db.len(),
                forall|c: int|
                    0 <= c < db.len() ==> n_free(db[c], s1.value@) == #[trigger] s0.unassigned_count@[c]
                        + cnt(pl, c as u32) + cnt(nl, c as u32) && s0.sat_count@[c] == n_true(
                        db[c],
                        s1.value@,
                    ) + cnt(pl, c as u32) && n_free(db[c], s1.value@) <= usize::MAX,
                forall|c: int|
                    0 <= c < db.len() ==> #[trigger] self.sat_count@[c] + cnt(
                        pl.take(k as int),
                        c as u32,
                    ) == s0.sat_count@[c],
                forall|c: int|
                    0 <= c < db.len() ==> #[trigger] self.unassigned_count@[c] == s0.unassigned_count@[c]
                        + cnt(pl.take(k as int), c as u32),
        {
            let c: usize = self.occ[li][k] as usize;
            let ghost before = *self;
            proof {
                let u = c as int;
                assert(pl[k as int] < db.len());
                assert(s0.unassigned_count@[u] >= 0);
                assert(self.sat_count@[u] >= 0);
                assert(self.unassigned_count@[u] >= 0);
                lemma_cnt_take(pl, k as int, c as u32);
                lemma_cnt_prefix(pl, k + 1, c as u32);
            }
            self.sat_count[c] = self.sat_count[c] - 1;
            self.unassigned_count[c] = self.unassigned_count[c] + 1;
            proof {
                assert forall|d: int| 0 <= d < db.len() implies #[trigger] self.sat_count@[d] + cnt(
                    pl.take(k + 1),
                    d as u32,
                ) == s0.sat_count@[d] by {
                    assert(before.sat_count@[d] >= 0);
                    lemma_cnt_take(pl, k as int, d as u32);
                }
                assert forall|d: int| 0 <= d < db.len() implies #[trigger] self.unassigned_count@[d]
                    == s0.unassigned_count@[d] + cnt(pl.take(k + 1), d as u32) by {
                    assert(before.unassigned_count@[d] >= 0);
                    lemma_cnt_take(pl, k as int, d as u32);
                }
            }
        }
        assert(pl.take(pl.len() as int) =~= pl);
        let n_neg: usize = self.occ[ni].len();
        for k in 0..n_neg
            invariant
                self.same_frame(&s1),
                db.len() < u32::MAX,
                s1.clauses == s0.clauses,
                s1.occ == s0.occ,
                self.sat_count@.len() == db.len(),
                self.unassigned_count@.len() == db.len(),
                self.unit_queue == s0.unit_queue,
                self.conflict == s0.conflict,
                self.conflict_clause == s0.conflict_clause,
                ni < self.occ@.len(),
                self.occ@[ni as int]@ == nl,
                n_neg == nl.len(),
                forall|j: int| 0 <= j < nl.len() ==> #[trigger] nl[j] < db.len(),
                forall|c: int|
                    0 <= c < db.len() ==> n_free(db[c], s1.value@) == #[trigger] s0.unassigned_count@[c]
                        + cnt(pl, c as u32) + cnt(nl, c as u32) && n_free(db[c], s1.value@) <= usize::MAX,
                forall|c: int|
                    0 <= c < db.len() ==> #[trigger] self.sat_count@[c] == n_true(db[c], s1.value@),
                forall|c: int|
                    0 <= c < db.len() ==> #[trigger] self.unassigned_count@[c] == s0.unassigned_count@[c]
                        + cnt(pl, c as u32) + cnt(nl.take(k as int), c as u32),
        {
            let c: usize = self.occ[ni][k] as usize;
            let ghost before = *self;
            proof {
                let u = c as int;
                assert(nl[k as int] < db.len());
                assert(s0.unassigned_count@[u] >= 0);
                assert(self.unassigned_count@[u] >= 0);
                lemma_cnt_take(nl, k as int, c as u32);
                lemma_cnt_prefix(nl, k + 1, c as u32);
            }
            self.unassigned_count[c] = self.unassigned_count[c] + 1;
            proof {
                assert forall|d: int| 0 <= d < db.len() implies #[trigger] self.unassigned_count@[d]
                    == s0.unassigned_count@[d] + cnt(pl, d as u32) + cnt(nl.take(k + 1), d as u32) by {
                    assert(before.unassigned_count@[d] >= 0);
                    lemma_cnt_take(nl, k as int, d as u32);
                }
            }
        }
        proof {
            assert(nl.take(nl.len() as int) =~= nl);
            let s2 = *self;
            assert(s2.counted()) by {
                assert forall|c: int| 0 <= c < db.len() implies #[trigger] s2.sat_count@[c] == n_true(
                    s2.db()[c],
                    s2.value@,
                ) && s2.unassigned_count@[c] == n_free(s2.db()[c], s2.value@) by {
                    assert(s0.unassigned_count@[c] >= 0);
                    assert(s2.unassigned_count@[c] >= 0);
                }
            }
            assert(s2.rep());
            let t = s0.trail().drop_last();
            assert(s2.trail() =~= t);
            assert forall|i: int| 0 <= i < t.len() implies (#[trigger] s2.trail()[i]) == s0.trail()[i]
                && s2.trail()[i].vi() != lit.vi() by {
                assert(s0.trail()[i].vi() != s0.trail()[n - 1].vi());
            }
            assert forall|v: int| 0 <= v < s2.nv() && #[trigger] s2.vals()[v] is Some implies t_has(
                s2.trail(),
                v,
            ) by {
                assert(s0.vals()[v] is Some);
                let i = choose|i: int| 0 <= i < s0.trail().len() && (#[trigger] s0.trail()[i]).vi() == v;
                assert(i != n - 1);
                assert(s2.trail()[i].vi() == v);
            }
            assert forall|i: int| 0 <= i < s2.trail().len() implies at_level(
                s2.lims(),
                i,
                s2.levels()[(#[trigger] s2.trail()[i]).vi()] as int,
            ) && s2.reason_ok(s2.trail()[i], i) by {
                assert(s2.trail()[i] == s0.trail()[i]);
                assert(s0.reason_ok(s0.trail()[i], i));
                assert(s2.trail().take(i) =~= s0.trail().take(i));
            }
            assert forall|i: int| 0 <= i < s2.lims().len() implies #[trigger] s2.lims()[i] <= s2.trail().len() by {
                assert(s0.lims()[i] <= s0.lims()[s0.lims().len() - 1]);
            }
            assert(s2.trail_ok());
        }
    }

    /// The state of `o` after its innermost decision level was closed.
    pub open spec fn popped_from(&self, o: &SearchState) -> bool {
        &&& self.db() == o.db()
        &&& self.nv() == o.nv()
        &&& self.n_orig() == o.n_orig()
        &&& self.learned_size() == o.learned_size()
        &&& self.propagation_count() == o.propagation_count()
        &&& self.lims() == o.lims().drop_last()
        &&& self.trail() == o.trail().take(o.lims().last() as int)
        &&& forall|v: int|
            0 <= v < self.nv() ==> #[trigger] self.vals()[v] == (if t_has(self.trail(), v) {
                o.vals()[v]
            } else {
                None
            })
        &&& self.levels() == o.levels()
        &&& forall|v: int|
            0 <= v < self.nv() && self.vals()[v] is Some ==> #[trigger] self.reasons()[v]
                == o.reasons()[v]
        &&& self.queue() == Seq::<u32>::empty()
        &&& !self.conflicting()
    }

    /// Closes the innermost decision level, undoing every assignment made within it.
    pub fn pop_level(&mut self)
        requires
            old(self).wf(),
            old(self).lims().len() > 0,
        ensures
            final(self).wf(),
            final(self).popped_from(old(self)),
    {
        proof {
            reveal(SearchState::rep);
        }
        let ghost s0 = *self;
        let depth: usize = self.trail_lim.len();
        let target: usize = self.trail_lim[depth - 1];
        self.conflict = false;
        self.conflict_clause = NO_REASON;
        self.unit_queue.clear();
        proof {
            assert(self.db().take(s0.db().len() as int) =~= s0.db());
            self.lemma_trail_ok_same(&s0);
            assert(self.rep());
            assert(s0.trail().take(s0.trail().len() as int) =~= s0.trail());
            assert(s0.lims()[depth - 1] == target);
        }
        while self.trail.len() > target
            invariant
                self.wf(),
                s0.wf(),
                depth == s0.lims().len(),
                depth > 0,
                target == s0.lims()[depth - 1],
                self.db() == s0.db(),
                self.nv() == s0.nv(),
                self.n_orig() == s0.n_orig(),
                self.learned_size() == s0.learned_size(),
                self.propagation_count() == s0.propagation_count(),
                self.lims() == s0.lims(),
                target <= self.trail().len() <= s0.trail().len(),
                self.trail() == s0.trail().take(self.trail().len() as int),
                forall|v: int|
                    0 <= v < self.nv() && #[trigger] self.vals()[v] is Some ==> self.vals()[v]
                        == s0.vals()[v] && self.reasons()[v] == s0.reasons()[v],
                self.levels() == s0.levels(),
                self.queue().len() == 0,
                !self.conflicting(),
            decreases self.trail().len(),
        {
            proof {
                reveal(SearchState::rep);
            }
            let ghost before = *self;
            self.unassign_last();
            proof {
                assert(self.trail() =~= s0.trail().take(self.trail().len() as int));
                assert forall|v: int| 0 <= v < self.nv() && #[trigger] self.vals()[v] is Some implies self.vals()[v]
                    == s0.vals()[v] && self.reasons()[v] == s0.reasons()[v] by {
                    assert(before.vals()[v] is Some);
                }
            }
        }
        let ghost s1 = *self;
        self.trail_lim.truncate(depth - 1);
        proof {
            assert(self.lims() =~= s0.lims().drop_last());
            assert forall|i: int| 0 <= i < self.trail().len() implies at_level(
                self.lims(),
                i,
                self.levels()[(#[trigger] self.trail()[i]).vi()] as int,
            ) && self.reason_ok(self.trail()[i], i) by {
                assert(at_level(s1.lims(), i, s1.levels()[s1.trail()[i].vi()] as int));
                assert(s1.reason_ok(s1.trail()[i], i));
            }
            assert forall|i: int, j: int| 0 <= i <= j < self.lims().len() implies #[trigger] self.lims()[i]
                <= #[trigger] self.lims()[j] by {
                assert(s1.lims()[i] <= s1.lims()[j]);
            }
            assert forall|i: int| 0 <= i < self.lims().len() implies #[trigger] self.lims()[i]
                <= self.trail().len() by {
                assert(s1.lims()[i] <= s1.trail().len());
            }
            assert forall|v: int| 0 <= v < self.nv() && #[trigger] self.vals()[v] is Some implies t_has(
                self.trail(),
                v,
            ) by {
                assert(s1.vals()[v] is Some);
            }
            assert forall|i: int, j: int| 0 <= i < j < self.trail().len() implies (
            #[trigger] self.trail()[i]).vi() != (#[trigger] self.trail()[j]).vi() by {
                assert(s1.trail()[i].vi() != s1.trail()[j].vi());
            }
            assert(self.trail_ok());
            assert(self.counted()) by {
                assert forall|d: int| 0 <= d < self.db().len() implies #[trigger] self.sat_count@[d] == n_true(
                    self.db()[d],
                    self.value@,
                ) && self.unassigned_count@[d] == n_free(self.db()[d], self.value@) by {
                    assert(s1.sat_count@[d] == n_true(s1.db()[d], s1.value@));
                }
            }
            assert(self.rep());
            assert(self.queue() =~= Seq::<u32>::empty());
            assert forall|v: int| 0 <= v < self.nv() implies #[trigger] self.vals()[v] == (if t_has(
                self.trail(),
                v,
            ) {
                s0.vals()[v]
            } else {
                None
            }) by {
                self.lemma_vals(v);
            }
        }
    }

    /// Appends a clause to the database, returning its index.
    ///
    /// Counters are computed against the assignment in force right now and maintained
    /// incrementally from then on, so a clause added mid-search stays consistent through every
    /// later assignment and undo. Clauses are never removed, which is what lets the component
    /// memo key itself on clause indices.
    pub fn add_clause(&mut self, clause: &[Lit]) -> (index: u32)
        requires
            old(self).wf(),
            clause@.len() > 0,
            clause_below(clause@, old(self).nv()),
            old(self).db().len() + 1 < u32::MAX,
        ensures
            final(self).wf(),
            index == old(self).db().len(),
            final(self).db() == old(self).db().push(clause@),
            final(self).same_assignment(old(self)),
            final(self).learned_size() == old(self).learned_size() + clause@.len(),
            final(self).propagation_count() == old(self).propagation_count(),
            final(self).queue() == old(self).queue(),
            final(self).conflicting() == old(self).conflicting(),
            final(self).conflict_at() == old(self).conflict_at(),
    {
        proof {
            reveal(SearchState::rep);
        }
        let ghost s0 = *self;
        let index: u32 = self.clauses.num_clauses() as u32;
        let mut sat: usize = 0;
        let mut free: usize = 0;
        for i in 0..clause.len()
            invariant
                self.wf(),
                *self == s0,
                clause_below(clause@, self.nv()),
                sat == n_true(clause@.take(i as int), self.vals()),
                free == n_free(clause@.take(i as int), self.vals()),
                sat <= i,
                free <= i,
        {
            proof {
                reveal(SearchState::rep);
            }
            let l = clause[i];
            let v = self.value[l.var().index()];
            proof {
                assert(clause@.take(i + 1).drop_last() =~= clause@.take(i as int));
                assert(clause@[i as int].vi() < self.nv());
            }
            match v {
                Some(b) => {
                    if b == l.is_positive() {
                        sat = sat + 1;
                    }
                },
                None => {
                    free = free + 1;
                },
            }
        }
        assert(clause@.take(clause@.len() as int) =~= clause@);
        proof {
            assert forall|k: int| 0 <= k < clause@.len() implies (#[trigger] clause@[k]).code < self.occ@.len() by {
                assert(clause@[k].vi() < self.nv());
            }
            lemma_cover(self.nv(), clause@);
        }
        index_clause(&mut self.occ, clause, index);
        self.clauses.add_clause(clause);
        self.sat_count.push(sat);
        self.unassigned_count.push(free);
        proof {
            let s1 = *self;
            assert(s1.db().take(s0.db().len() as int) =~= s0.db());
            assert(s1.db().take(s1.n_orig()) =~= s0.db().take(s0.n_orig()));
            assert forall|k: int| 0 <= k < s1.occ@.len() implies (#[trigger] s1.occ@[k])@ == occ_list(
                s1.db(),
                Lit { code: k as u32 },
            ) && s1.occ_split@[k] <= s1.occ@[k]@.len() && s1.occ@[k]@.take(s1.occ_split@[k] as int)
                == occ_list(s1.db().take(s1.n_orig()), Lit { code: k as u32 }) by {
                assert(s0.occ@[k]@ == occ_list(s0.db(), Lit { code: k as u32 }));
                lemma_occ_push(s0.db(), clause@, Lit { code: k as u32 });
                assert(s1.occ@[k]@.take(s1.occ_split@[k] as int) =~= s0.occ@[k]@.take(
                    s0.occ_split@[k] as int,
                ));
            }
            assert forall|k: int| 0 <= k < s1.occ@.len() implies #[trigger] s1.occ_split@[k] == occ_list(
                s1.db().take(s1.n_orig()),
                Lit { code: k as u32 },
            ).len() by {
                assert(s0.occ_split@[k] == occ_list(s0.db().take(s0.n_orig()), Lit { code: k as u32 }).len());
            }
            assert(s1.counted()) by {
                assert forall|c: int| 0 <= c < s1.db().len() implies #[trigger] s1.sat_count@[c] == n_true(
                    s1.db()[c],
                    s1.value@,
                ) && s1.unassigned_count@[c] == n_free(s1.db()[c], s1.value@) by {
                    if c < s0.db().len() {
                        assert(s0.sat_count@[c] == n_true(s0.db()[c], s0.value@));
                    }
                }
            }
            assert(s1.rep());
            s1.clauses.lemma_wf();
            s1.lemma_trail_ok_same(&s0);
            assert forall|k: int| 0 <= k < s1.queue().len() implies #[trigger] s1.queue()[k] < s1.db().len() by {
                assert(s0.queue()[k] < s0.db().len());
            }
        }
        index
    }

    /// Audit that the counters agree with the assignment.
    ///
    /// Every counter here is maintained incrementally across millions of assign/undo pairs, so a
    /// single missed decrement would silently corrupt the search. This recomputes them from
    /// scratch, for any state that is laid out like one; on a valid state it always succeeds.
    pub fn counters_are_consistent(&self) -> (b: bool)
        requires
            self.wf() || self.laid_out(),
        ensures
            b == self.counters_agree(),
            self.wf() ==> b,
    {
        proof {
            reveal(SearchState::rep);
            if self.wf() {
                assert forall|c: int| 0 <= c < self.db().len() implies #[trigger] self.counter_agrees(c) by {
                    assert(self.sat_count@[c] == n_true(self.db()[c], self.value@));
                }
            }
            self.clauses.lemma_wf();
        }
        let n: usize = self.clauses.num_clauses();
        for c in 0..n
            invariant
                self.laid_out(),
                n == self.db().len(),
                formula_below(self.db(), self.nv()),
                self.wf() ==> self.counters_agree(),
                forall|k: int| 0 <= k < c ==> #[trigger] self.counter_agrees(k),
        {
            let clause = self.clauses.clause(c);
            let mut sat: usize = 0;
            let mut free: usize = 0;
            assert(clause_below(self.db()[c as int], self.nv()));
            for i in 0..clause.len()
                invariant
                    self.laid_out(),
                    clause_below(clause@, self.nv()),
                    sat == n_true(clause@.take(i as int), self.vals()),
                    free == n_free(clause@.take(i as int), self.vals()),
                    sat <= i,
                    free <= i,
            {
                let l = clause[i];
                assert(clause@.take(i + 1).drop_last() =~= clause@.take(i as int));
                assert(clause@[i as int].vi() < self.nv());
                match self.value[l.var().index()] {
                    Some(b) => {
                        if b == l.is_positive() {
                            sat = sat + 1;
                        }
                    },
                    None => {
                        free = free + 1;
                    },
                }
            }
            assert(clause@.take(clause@.len() as int) =~= clause@);
            assert(self.counter_agrees(c as int) == (sat == self.sat_count@[c as int] && free
                == self.unassigned_count@[c as int]));
            if sat != self.sat_count[c] || free != self.unassigned_count[c] {
                return false;
            }
        }
        true
    }
}

/// The deepest decision level among the literals of a clause; zero for the empty clause.
pub open spec fn max_level(levels: Seq<usize>, c: Seq<Lit>) -> int
    decreases c.len(),
{
    if c.len() == 0 {
        0
    } else {
        let m = max_level(levels, c.drop_last());
        if levels[c.last().vi()] > m {
            levels[c.last().vi()] as int
        } else {
            m
        }
    }
}

/// The deepest level bounds every literal's, and is reached unless it is zero.
pub proof fn lemma_max_level(levels: Seq<usize>, c: Seq<Lit>)
    ensures
        0 <= max_level(levels, c),
        forall|i: int| 0 <= i < c.len() ==> levels[(#[trigger] c[i]).vi()] <= max_level(levels, c),
        max_level(levels, c) > 0 ==> exists|i: int|
            0 <= i < c.len() && levels[(#[trigger] c[i]).vi()] == max_level(levels, c),
    decreases c.len(),
{
    if c.len() > 0 {
        let p = c.drop_last();
        lemma_max_level(levels, p);
        assert forall|i: int| 0 <= i < c.len() implies levels[(#[trigger] c[i]).vi()] <= max_level(
            levels,
            c,
        ) by {
            if i < p.len() {
                assert(p[i] == c[i]);
            }
        }
        if max_level(levels, c) > 0 {
            if levels[c.last().vi()] > max_level(levels, p) {
                assert(levels[c[c.len() - 1].vi()] == max_level(levels, c));
            } else {
                let i = choose|i: int|
                    0 <= i < p.len() && levels[(#[trigger] p[i]).vi()] == max_level(levels, p);
                assert(c[i] == p[i]);
            }
        }
    }
}

impl SearchState {
    /// What a derived clause rests on: the conflicting clause, the reasons of the assigned
    /// literals, and the literals assigned at the root.
    pub open spec fn premises(&self, m: Valuation) -> bool {
        &&& clause_true(m, self.db()[self.conflict_at()])
        &&& forall|i: int|
            0 <= i < self.trail().len() && self.levels()[(#[trigger] self.trail()[i]).vi()] == 0
                ==> lit_true(m, self.trail()[i])
        &&& forall|i: int|
            0 <= i < self.trail().len() && self.reasons()[(#[trigger] self.trail()[i]).vi()]
                != NO_REASON ==> clause_true(
                m,
                self.db()[self.reasons()[self.trail()[i].vi()] as int],
            )
    }

    /// The level the conflict belongs to: the deepest level of the conflicting clause's literals.
    pub open spec fn conflict_level(&self) -> int {
        max_level(self.levels(), self.db()[self.conflict_at()])
    }

    /// Levels never decrease along the trail.
    pub proof fn lemma_levels_monotone(&self, i: int, j: int)
        requires
            self.trail_ok(),
            0 <= i <= j < self.trail().len(),
        ensures
            self.levels()[self.trail()[i].vi()] <= self.levels()[self.trail()[j].vi()] <= self.lims().len(),
    {
        let a = self.levels()[self.trail()[i].vi()] as int;
        let b = self.levels()[self.trail()[j].vi()] as int;
        assert(at_level(self.lims(), i, a));
        assert(at_level(self.lims(), j, b));
        if b < a {
            assert(self.lims()[b] <= self.lims()[a - 1]);
        }
    }

    /// A variable is marked as belonging to the clause being derived.
    spec fn marked(&self, v: int) -> bool {
        self.seen@[v] == self.seen_stamp
    }

    /// Which positions of the trail are marked and lie at level `cl`.
    spec fn flags(&self, cl: int) -> Seq<bool> {
        Seq::new(
            self.trail@.len(),
            |j: int|
                self.marked(self.trail@[j].vi()) && self.level@[self.trail@[j].vi()] == cl,
        )
    }

    /// Everything but the marks is as in `o`.
    spec fn same_but_seen(&self, o: &SearchState) -> bool {
        &&& self.num_vars == o.num_vars
        &&& self.num_original == o.num_original
        &&& self.original_lits == o.original_lits
        &&& self.clauses == o.clauses
        &&& self.occ == o.occ
        &&& self.occ_split == o.occ_split
        &&& self.sat_count == o.sat_count
        &&& self.unassigned_count == o.unassigned_count
        &&& self.value == o.value
        &&& self.level == o.level
        &&& self.reason == o.reason
        &&& self.trail == o.trail
        &&& self.trail_lim == o.trail_lim
        &&& self.unit_queue == o.unit_queue
        &&& self.conflict == o.conflict
        &&& self.conflict_clause == o.conflict_clause
        &&& self.seen@.len() == o.seen@.len()
        &&& self.propagations == o.propagations
    }

    /// What the representation gives to conflict analysis.
    proof fn lemma_rep_basic(&self)
        requires
            self.rep(),
        ensures
            self.clauses.wf(),
            self.seen@.len() == self.num_vars,
            forall|v: int| 0 <= v < self.num_vars ==> #[trigger] self.seen@[v] <= self.seen_stamp,
    {
        reveal(SearchState::rep);
    }

    proof fn lemma_wf_seen(&self, o: &SearchState)
        requires
            o.wf(),
            self.same_but_seen(o),
            forall|v: int| 0 <= v < self.num_vars ==> #[trigger] self.seen@[v] <= self.seen_stamp,
        ensures
            self.wf(),
            self.same_but_queue(o),
            self.queue() == o.queue(),
            self.conflicting() == o.conflicting(),
            self.conflict_at() == o.conflict_at(),
            self.conflict_level() == o.conflict_level(),
    {
        reveal(SearchState::rep);
        assert(self.db().take(o.db().len() as int) =~= o.db());
        self.lemma_trail_ok_same(o);
        assert(self.counted()) by {
            assert forall|d: int| 0 <= d < self.db().len() implies #[trigger] self.sat_count@[d] == n_true(
                self.db()[d],
                self.value@,
            ) && self.unassigned_count@[d] == n_free(self.db()[d], self.value@) by {
                assert(o.sat_count@[d] == n_true(o.db()[d], o.value@));
            }
        }
        assert(self.rep());
        assert forall|k: int| 0 <= k < self.queue().len() implies #[trigger] self.queue()[k] < self.db().len() by {
            assert(o.queue()[k] < o.db().len());
        }
    }

    /// Two false literals over the same variable are the same literal.
    proof fn lemma_false_unique(&self, a: Lit, b: Lit)
        requires
            self.trail_ok(),
            self.trail().contains(a.neg()),
            self.trail().contains(b.neg()),
            a.vi() == b.vi(),
        ensures
            a == b,
    {
        let i = choose|i: int| 0 <= i < self.trail().len() && self.trail()[i] == a.neg();
        let j = choose|j: int| 0 <= j < self.trail().len() && self.trail()[j] == b.neg();
        assert(self.trail()[i].vi() == self.trail()[j].vi());
        if i != j {
            if i < j {
                assert(self.trail()[i].vi() != self.trail()[j].vi());
            } else {
                assert(self.trail()[j].vi() != self.trail()[i].vi());
            }
        }
        crate::lit::lemma_negation_is_involutive(a);
        crate::lit::lemma_negation_is_involutive(b);
    }

    /// What marking the literals of clause `c` does to the marks and to the derived clause.
    spec fn absorbed(
        o: &SearchState,
        f: &SearchState,
        c: int,
        pivot: Option<usize>,
        cl: int,
        d0: Seq<Lit>,
        d1: Seq<Lit>,
    ) -> bool {
        &&& forall|v: int| 0 <= v < f.nv() && o.marked(v) ==> #[trigger] f.marked(v)
        &&& forall|v: int|
            0 <= v < f.nv() && #[trigger] f.marked(v) ==> o.marked(v) || exists|q: int|
                0 <= q < o.db()[c].len() && (#[trigger] o.db()[c][q]).vi() == v && pivot != Some(
                    v as usize,
                ) && o.levels()[v] != 0
        &&& forall|q: int|
            0 <= q < o.db()[c].len() && pivot != Some((#[trigger] o.db()[c][q]).vi() as usize)
                && o.levels()[o.db()[c][q].vi()] != 0 ==> f.marked(o.db()[c][q].vi())
        &&& d1.len() >= d0.len()
        &&& d1.take(d0.len() as int) == d0
        &&& forall|k: int|
            d0.len() <= k < d1.len() ==> o.db()[c].contains(#[trigger] d1[k]) && pivot != Some(
                d1[k].vi() as usize,
            ) && 0 < o.levels()[d1[k].vi()] < cl
        &&& forall|v: int|
            0 <= v < f.nv() && #[trigger] f.marked(v) && !o.marked(v) && o.levels()[v] != cl ==> exists|k: int|
                d0.len() <= k < d1.len() && (#[trigger] d1[k]).vi() == v
        &&& forall|k: int|
            d0.len() <= k < d1.len() ==> !o.marked((#[trigger] d1[k]).vi()) && f.marked(d1[k].vi())
        &&& forall|j: int, k: int|
            d0.len() <= j < k < d1.len() ==> (#[trigger] d1[j]).vi() != (#[trigger] d1[k]).vi()
        &&& o.marks_listed(d0, cl) ==> vars_of(d1) == brought_in(
            vars_of(d0),
            o.db()[c],
            o.levels(),
            cl,
            pivot_var(pivot),
            o.db()[c].len() as int,
        )
    }

    /// Below the conflict level, what is marked is what was derived.
    spec fn marks_listed(&self, derived: Seq<Lit>, cl: int) -> bool {
        forall|v: int|
            0 <= v < self.nv() && self.levels()[v] != cl ==> (#[trigger] self.marked(v) <==> mentions(derived, v))
    }

    /// One more mark, with its literal derived where it is below the conflict level.
    proof fn lemma_marks_listed(&self, f: &SearchState, d0: Seq<Lit>, d1: Seq<Lit>, l: Lit, cl: int)
        requires
            self.marks_listed(d0, cl),
            f.nv() == self.nv(),
            f.levels() == self.levels(),
            0 <= l.vi() < self.nv(),
            forall|v: int| 0 <= v < self.nv() && v != l.vi() ==> #[trigger] f.marked(v) == self.marked(v),
            self.levels()[l.vi()] != cl ==> if f.marked(l.vi()) == self.marked(l.vi()) {
                d1 == d0
            } else {
                f.marked(l.vi()) && d1 == d0.push(l)
            },
            self.levels()[l.vi()] == cl ==> d1 == d0,
        ensures
            f.marks_listed(d1, cl),
    {
        assert forall|v: int| 0 <= v < f.nv() && f.levels()[v] != cl implies (#[trigger] f.marked(v) <==> mentions(d1, v)) by {
            assert(self.marked(v) <==> mentions(d0, v));
            if d1 != d0 {
                assert(d1[d0.len() as int] == l);
                if mentions(d0, v) {
                    let k = choose|k: int| 0 <= k < d0.len() && (#[trigger] d0[k]).vi() == v;
                    assert(d1[k] == d0[k]);
                }
                if mentions(d1, v) && v != l.vi() {
                    let k = choose|k: int| 0 <= k < d1.len() && (#[trigger] d1[k]).vi() == v;
                    assert(d1[k] == d0[k]);
                }
            }
        }
    }

    /// Marks the literals of clause `c`, leaving out the variable just resolved away and what is
    /// fixed at the root. Literals below the conflict level join the derived clause; the number of
    /// marked literals at the conflict level is returned.
    #[verifier::rlimit(100)]
    fn absorb(
        &mut self,
        c: usize,
        pivot: Option<usize>,
        cl: usize,
        derived: &mut Vec<Lit>,
        pending: usize,
    ) -> (n: usize)
        requires
            old(self).wf(),
            c < old(self).db().len(),
            cl > 0,
            old(self).seen_stamp > 0,
            pending == cnt(old(self).flags(cl as int), true),
            forall|q: int|
                0 <= q < old(self).db()[c as int].len() && pivot != Some(
                    (#[trigger] old(self).db()[c as int][q]).vi() as usize,
                ) ==> old(self).trail().contains(old(self).db()[c as int][q].neg()) && old(self).levels()[old(self).db()[c as int][q].vi()] <= cl,
        ensures
            final(self).same_but_seen(old(self)),
            final(self).seen_stamp == old(self).seen_stamp,
            final(self).wf(),
            n == cnt(final(self).flags(cl as int), true),
            SearchState::absorbed(old(self), final(self), c as int, pivot, cl as int, old(derived)@, final(derived)@),
    {
        proof {
            reveal(SearchState::rep);
        }
        let ghost s0 = *self;
        let ghost d0 = derived@;
        let ghost cs = s0.db()[c as int];
        let len: usize = self.clauses.clause(c).len();
        let mut n: usize = pending;
        proof {
            assert(clause_below(s0.db()[c as int], s0.nv()));
            assert(derived@.take(d0.len() as int) =~= d0);
        }
        for k in 0..len
            invariant
                s0.wf(),
                self.same_but_seen(&s0),
                self.seen_stamp == s0.seen_stamp,
                self.seen_stamp > 0,
                self.wf(),
                c < s0.db().len(),
                cl > 0,
                cs == s0.db()[c as int],
                len == cs.len(),
                clause_below(cs, s0.nv()),
                n == cnt(self.flags(cl as int), true),
                forall|q: int|
                    0 <= q < cs.len() && pivot != Some((#[trigger] cs[q]).vi() as usize)
                        ==> s0.trail().contains(cs[q].neg()) && s0.levels()[cs[q].vi()] <= cl,
                forall|v: int| 0 <= v < s0.nv() && s0.marked(v) ==> #[trigger] self.marked(v),
                forall|v: int|
                    0 <= v < s0.nv() && #[trigger] self.marked(v) ==> s0.marked(v) || exists|q: int|
                        0 <= q < cs.len() && (#[trigger] cs[q]).vi() == v && pivot != Some(v as usize)
                            && s0.levels()[v] != 0,
                forall|q: int|
                    0 <= q < k && pivot != Some((#[trigger] cs[q]).vi() as usize)
                        && s0.levels()[cs[q].vi()] != 0 ==> self.marked(cs[q].vi()),
                derived@.len() >= d0.len(),
                derived@.take(d0.len() as int) == d0,
                forall|j: int|
                    d0.len() <= j < derived@.len() ==> cs.contains(#[trigger] derived@[j])
                        && pivot != Some(derived@[j].vi() as usize) && 0 < s0.levels()[derived@[j].vi()]
                        < cl,
                forall|v: int|
                    0 <= v < s0.nv() && #[trigger] self.marked(v) && !s0.marked(v) && s0.levels()[v] != cl
                        ==> exists|j: int|
                        d0.len() <= j < derived@.len() && (#[trigger] derived@[j]).vi() == v,
                forall|j: int|
                    d0.len() <= j < derived@.len() ==> !s0.marked((#[trigger] derived@[j]).vi())
                        && self.marked(derived@[j].vi()),
                forall|i: int, j: int|
                    d0.len() <= i < j < derived@.len() ==> (#[trigger] derived@[i]).vi()
                        != (#[trigger] derived@[j]).vi(),
                s0.marks_listed(d0, cl as int) ==> self.marks_listed(derived@, cl as int) && vars_of(derived@)
                    == brought_in(vars_of(d0), cs, s0.levels(), cl as int, pivot_var(pivot), k as int),
        {
            proof {
                reveal(SearchState::rep);
                lemma_vars_of(derived@, cs[k as int].vi());
            }
            let ghost d_in = derived@;
            let ghost s_in = *self;
            let l = self.clauses.clause(c)[k];
            let var: usize = l.var().index();
            let is_pivot = match pivot {
                Some(p) => p == var,
                None => false,
            };
            proof {
                assert(l == cs[k as int]);
                assert(cs.contains(cs[k as int]));
                assert(l.vi() < s0.nv());
            }
            if !is_pivot && self.seen[var] != self.seen_stamp && self.level[var] != 0 {
                let ghost before = *self;
                let ghost d1 = derived@;
                self.seen[var] = self.seen_stamp;
                proof {
                    self.lemma_wf_seen(&before);
                    // The trail position of this variable.
                    let t = s0.trail();
                    assert(t.contains(l.neg()));
                    let pos = choose|pos: int| 0 <= pos < t.len() && t[pos] == l.neg();
                    assert(t[pos].vi() == l.vi());
                    let f0 = before.flags(cl as int);
                    let f1 = self.flags(cl as int);
                    assert(f1 =~= f0.update(pos, s0.level@[l.vi()] == cl)) by {
                        assert forall|j: int| 0 <= j < f1.len() implies f1[j] == f0.update(
                            pos,
                            s0.level@[l.vi()] == cl,
                        )[j] by {
                            if j < pos {
                                assert(t[j].vi() != t[pos].vi());
                            } else if j > pos {
                                assert(t[pos].vi() != t[j].vi());
                            }
                        }
                    }
                    assert(!f0[pos]);
                    lemma_cnt_update(f0, pos, s0.level@[l.vi()] == cl, true);
                    lemma_cnt_contains(f1, true);
                    assert(self.trail@.len() == self.trail.len());
                    assert forall|v: int| 0 <= v < s0.nv() && s0.marked(v) implies #[trigger] self.marked(v) by {
                        assert(before.marked(v));
                    }
                    assert forall|v: int| 0 <= v < s0.nv() && #[trigger] self.marked(v) implies s0.marked(v)
                        || exists|q: int|
                        0 <= q < cs.len() && (#[trigger] cs[q]).vi() == v && pivot != Some(v as usize)
                            && s0.levels()[v] != 0 by {
                        if v == var {
                            assert(cs[k as int].vi() == v);
                        } else {
                            assert(before.marked(v));
                        }
                    }
                    assert forall|q: int|
                        0 <= q < k + 1 && pivot != Some((#[trigger] cs[q]).vi() as usize)
                            && s0.levels()[cs[q].vi()] != 0 implies self.marked(cs[q].vi()) by {
                        if q < k {
                            assert(before.marked(cs[q].vi()));
                        }
                    }
                }
                if self.level[var] == cl {
                    n = n + 1;
                } else {
                    derived.push(l);
                    assert(derived@.take(d0.len() as int) =~= d1.take(d0.len() as int));
                }
                proof {
                    assert forall|v: int|
                        0 <= v < s0.nv() && #[trigger] self.marked(v) && !s0.marked(v) && s0.levels()[v] != cl implies exists|
                        j: int,
                    |
                        d0.len() <= j < derived@.len() && (#[trigger] derived@[j]).vi() == v by {
                        if v == var {
                            assert(derived@[derived@.len() - 1].vi() == v);
                        } else {
                            assert(before.marked(v));
                            let j = choose|j: int| d0.len() <= j < d1.len() && (#[trigger] d1[j]).vi() == v;
                            assert(derived@[j] == d1[j]);
                        }
                    }
                    assert(!before.marked(var as int));
                    assert(!s0.marked(var as int));
                    assert forall|j: int| d0.len() <= j < derived@.len() implies !s0.marked(
                        (#[trigger] derived@[j]).vi(),
                    ) && self.marked(derived@[j].vi()) by {
                        if j < d1.len() {
                            assert(derived@[j] == d1[j]);
                            assert(cs.contains(d1[j]));
                            let q = choose|q: int| 0 <= q < cs.len() && cs[q] == d1[j];
                            assert(cs[q].vi() < s0.nv());
                            assert(before.marked(d1[j].vi()));
                        }
                    }
                    assert forall|i: int, j: int| d0.len() <= i < j < derived@.len() implies (#[trigger] derived@[i]).vi()
                        != (#[trigger] derived@[j]).vi() by {
                        assert(derived@[i] == d1[i]);
                        if j < d1.len() {
                            assert(derived@[j] == d1[j]);
                            assert(d1[i].vi() != d1[j].vi());
                        } else {
                            assert(before.marked(d1[i].vi()));
                        }
                    }
                }
            }
            proof {
                if s0.marks_listed(d0, cl as int) {
                    s_in.lemma_marks_listed(self, d_in, derived@, l, cl as int);
                    assert(s_in.marked(l.vi()) == (self.seen_stamp == s_in.seen@[l.vi()]));
                    if derived@ != d_in {
                        assert(vars_of(derived@) =~= vars_of(d_in).push(l.vi()));
                    }
                }
            }
        }
        n
    }
}

/// The variable resolved away, or none.
spec fn pivot_var(pivot: Option<usize>) -> int {
    match pivot {
        Some(v) => v as int,
        None => -1,
    }
}

impl SearchState {
    /// Some literal of the clause under construction holds: one already derived, or the
    /// complement of one still to be resolved.
    spec fn holds(&self, derived: Seq<Lit>, cl: int, m: Valuation) -> bool {
        ||| exists|k: int| 0 <= k < derived.len() && lit_true(m, #[trigger] derived[k])
        ||| exists|j: int|
            0 <= j < self.trail().len() && #[trigger] self.flags(cl)[j] && !lit_true(m, self.trail()[j])
    }

    /// The clause under construction follows from the premises.
    spec fn derivable(&self, derived: Seq<Lit>, cl: int) -> bool {
        forall|m: Valuation| #[trigger] self.premises(m) ==> self.holds(derived, cl, m)
    }

    /// Every derived literal is false and was assigned between the root and the conflict level.
    spec fn derived_ok(&self, derived: Seq<Lit>, cl: int) -> bool {
        forall|k: int|
            0 <= k < derived.len() ==> self.trail().contains((#[trigger] derived[k]).neg()) && 0
                < self.levels()[derived[k].vi()] <= cl
    }

    /// Marks below the conflict level are exactly accounted for by derived literals, and nothing
    /// fixed at the root is marked.
    spec fn marks_ok(&self, derived: Seq<Lit>, cl: int) -> bool {
        forall|v: int|
            0 <= v < self.nv() && #[trigger] self.marked(v) ==> t_has(self.trail(), v) && self.levels()[v]
                != 0 && (self.levels()[v] == cl || exists|k: int|
                0 <= k < derived.len() && (#[trigger] derived[k]).vi() == v)
    }

    /// A true literal of an absorbed clause is accounted for.
    proof fn lemma_absorbed(&self, derived: Seq<Lit>, cl: int, m: Valuation, x: Lit, jx: int)
        requires
            self.wf(),
            self.premises(m),
            self.derived_ok(derived, cl),
            self.marks_ok(derived, cl),
            0 <= jx < self.trail().len(),
            self.trail()[jx] == x.neg(),
            lit_true(m, x),
            self.levels()[x.vi()] != 0 ==> self.marked(x.vi()),
        ensures
            self.holds(derived, cl, m),
    {
        assert(!lit_true(m, self.trail()[jx]));
        assert(self.trail()[jx].vi() == x.vi());
        assert(self.levels()[x.vi()] != 0);
        assert(self.trail().contains(x.neg()));
        if self.levels()[x.vi()] == cl {
            assert(self.flags(cl)[jx]);
        } else {
            let k = choose|k: int| 0 <= k < derived.len() && (#[trigger] derived[k]).vi() == x.vi();
            self.lemma_false_unique(derived[k], x);
            assert(lit_true(m, derived[k]));
        }
    }

    /// The literal is implied by the rest of the marked ones: every other literal of its reason is
    /// marked or fixed at the root.
    spec fn redundant(&self, l: Lit) -> bool {
        let r = self.reasons()[l.vi()];
        r != NO_REASON && forall|q: int|
            0 <= q < self.db()[r as int].len() ==> (#[trigger] self.db()[r as int][q]).vi() == l.vi()
                || self.levels()[self.db()[r as int][q].vi()] == 0 || self.marked(
                self.db()[r as int][q].vi(),
            )
    }

    /// The first `n` literals without the redundant ones.
    spec fn unredundant(&self, d: Seq<Lit>, n: int) -> Seq<Lit>
        decreases n,
    {
        if n <= 0 {
            Seq::empty()
        } else if self.redundant(d[n - 1]) {
            self.unredundant(d, n - 1)
        } else {
            self.unredundant(d, n - 1).push(d[n - 1])
        }
    }

    /// Drops literals that the rest of the clause already implies.
    ///
    /// A literal is redundant when every literal of the clause that forced it is itself in the
    /// clause: resolving it away shortens the clause without weakening it.
    fn minimize(&self, derived: &Vec<Lit>) -> (kept: Vec<Lit>)
        requires
            self.wf(),
            forall|k: int|
                0 <= k < derived@.len() ==> self.trail().contains((#[trigger] derived@[k]).neg()),
        ensures
            kept@.len() <= derived@.len(),
            forall|k: int|
                0 <= k < kept@.len() ==> derived@.contains(#[trigger] kept@[k]) && !self.redundant(kept@[k]),
            forall|k: int|
                0 <= k < derived@.len() ==> self.redundant(#[trigger] derived@[k]) || kept@.contains(
                    derived@[k],
                ),
            one_each(derived@) ==> one_each(kept@),
            kept@ == self.unredundant(derived@, derived@.len() as int),
    {
        let mut kept: Vec<Lit> = Vec::new();
        for i in 0..derived.len()
            invariant
                self.wf(),
                forall|k: int|
                    0 <= k < derived@.len() ==> self.trail().contains((#[trigger] derived@[k]).neg()),
                kept@.len() <= i,
                forall|k: int|
                    0 <= k < kept@.len() ==> derived@.contains(#[trigger] kept@[k]) && !self.redundant(
                        kept@[k],
                    ),
                forall|k: int|
                    0 <= k < i ==> self.redundant(#[trigger] derived@[k]) || kept@.contains(derived@[k]),
                forall|k: int| 0 <= k < kept@.len() ==> derived@.take(i as int).contains(#[trigger] kept@[k]),
                one_each(derived@) ==> one_each(kept@),
                kept@ == self.unredundant(derived@, i as int),
        {
            let l = derived[i];
            proof {
                assert(self.trail().contains(derived@[i as int].neg()));
                let p = choose|p: int| 0 <= p < self.trail().len() && self.trail()[p] == l.neg();
                assert(self.trail()[p].vi() == l.vi());
                assert(self.reason_ok(self.trail()[p], p));
            }
            let reason: u32 = self.reason[l.var().index()];
            let mut keep = true;
            if reason != NO_REASON {
                let clause = self.clause(reason as usize);
                keep = false;
                let mut q: usize = 0;
                assert(clause_below(self.db()[reason as int], self.nv()));
                while q < clause.len() && !keep
                    invariant
                        self.wf(),
                        l.vi() < self.nv(),
                        reason == self.reasons()[l.vi()],
                        reason != NO_REASON,
                        clause@ == self.db()[reason as int],
                        clause_below(clause@, self.nv()),
                        q <= clause@.len(),
                        !keep ==> forall|j: int|
                            0 <= j < q ==> (#[trigger] clause@[j]).vi() == l.vi() || self.levels()[clause@[j].vi()]
                                == 0 || self.marked(clause@[j].vi()),
                        keep ==> exists|j: int|
                            0 <= j < clause@.len() && !((#[trigger] clause@[j]).vi() == l.vi()
                                || self.levels()[clause@[j].vi()] == 0 || self.marked(clause@[j].vi())),
                    decreases clause@.len() - q + if keep {
                        0int
                    } else {
                        1int
                    },
                {
                    let r = clause[q];
                    proof {
                        self.lemma_rep_basic();
                    }
                    assert(clause@[q as int].vi() < self.nv());
                    let rv: usize = r.var().index();
                    if !(rv == l.var().index() || self.level[rv] == 0 || self.seen[rv] == self.seen_stamp) {
                        assert(!(clause@[q as int].vi() == l.vi() || self.levels()[clause@[q as int].vi()] == 0
                            || self.marked(clause@[q as int].vi())));
                        keep = true;
                    } else {
                        q = q + 1;
                    }
                }
                assert(keep == !self.redundant(l));
            }
            proof {
                crate::sorting::lemma_push_contains(kept@, l);
                assert(derived@.contains(derived@[i as int]));
            }
            let ghost before = kept@;
            if keep {
                kept.push(l);
            }
            proof {
                let t = derived@.take(i as int);
                assert(derived@.take(i + 1) =~= t.push(l));
                crate::sorting::lemma_push_contains(t, l);
                assert forall|k: int| 0 <= k < kept@.len() implies derived@.take(i + 1).contains(#[trigger] kept@[k]) by {
                    if k < before.len() {
                        assert(t.contains(before[k]));
                    }
                }
                if one_each(derived@) {
                    assert forall|x: int, y: int| 0 <= x < y < kept@.len() implies (#[trigger] kept@[x]).vi()
                        != (#[trigger] kept@[y]).vi() by {
                        assert(kept@[x] == before[x]);
                        if y < before.len() {
                            assert(before[x].vi() != before[y].vi());
                        } else {
                            assert(t.contains(before[x]));
                            let z = choose|z: int| 0 <= z < t.len() && t[z] == before[x];
                            assert(derived@[z].vi() != derived@[i as int].vi());
                        }
                    }
                }
            }
        }
        kept
    }

    /// If the premises hold and every kept literal and the asserting literal are false, then every
    /// marked variable has the value that the trail gives it.
    proof fn lemma_minimized(
        &self,
        derived: Seq<Lit>,
        kept: Seq<Lit>,
        uip: Lit,
        m: Valuation,
        j: int,
    )
        requires
            self.wf(),
            self.premises(m),
            0 <= j < self.trail().len(),
            self.marked(self.trail()[j].vi()),
            forall|v: int|
                0 <= v < self.nv() && #[trigger] self.marked(v) ==> v == uip.vi() || exists|k: int|
                    0 <= k < derived.len() && (#[trigger] derived[k]).vi() == v,
            forall|k: int|
                0 <= k < derived.len() ==> self.trail().contains((#[trigger] derived[k]).neg()),
            self.trail().contains(uip.neg()),
            forall|k: int|
                0 <= k < derived.len() ==> self.redundant(#[trigger] derived[k]) || kept.contains(
                    derived[k],
                ),
            forall|k: int| 0 <= k < kept.len() ==> !lit_true(m, #[trigger] kept[k]),
            !lit_true(m, uip),
        ensures
            lit_true(m, self.trail()[j]),
        decreases j,
    {
        let v = self.trail()[j].vi();
        let tj = self.trail()[j];
        if v == uip.vi() {
            crate::lit::lemma_negation_is_involutive(tj);
            assert(self.trail().contains(tj.neg().neg()));
            self.lemma_false_unique(tj.neg(), uip);
        } else {
            let k = choose|k: int| 0 <= k < derived.len() && (#[trigger] derived[k]).vi() == v;
            let l = derived[k];
            crate::lit::lemma_negation_is_involutive(tj);
            assert(self.trail().contains(tj.neg().neg()));
            self.lemma_false_unique(tj.neg(), l);
            if kept.contains(l) {
                let q = choose|q: int| 0 <= q < kept.len() && kept[q] == l;
                assert(!lit_true(m, kept[q]));
            } else {
                assert(self.redundant(l));
                let r = self.reasons()[v] as int;
                let c = self.db()[r];
                assert(self.reason_ok(self.trail()[j], j));
                assert(clause_true(m, c));
                assert(forces(c, tj, self.trail().take(j)));
                let x = choose|x: int| 0 <= x < c.len() && lit_true(m, #[trigger] c[x]);
                let p = choose|p: int|
                    0 <= p < c.len() && #[trigger] c[p] == tj && forall|q: int|
                        0 <= q < c.len() && q != p ==> self.trail().take(j).contains((#[trigger] c[q]).neg());
                if x != p {
                    assert(self.trail().take(j).contains(c[x].neg()));
                    let i = choose|i: int|
                        0 <= i < self.trail().take(j).len() && self.trail().take(j)[i] == c[x].neg();
                    assert(self.trail()[i] == c[x].neg());
                    assert(self.trail()[i].vi() == c[x].vi());
                    assert(self.trail()[i].vi() != self.trail()[j].vi());
                    if self.levels()[c[x].vi()] != 0 {
                        assert(self.marked(c[x].vi()));
                        self.lemma_minimized(derived, kept, uip, m, i);
                    }
                    assert(lit_true(m, self.trail()[i]));
                    assert(false);
                }
            }
        }
    }

    /// Advances the analysis stamp, clearing the marks wholesale on wrap-around.
    ///
    /// Stamps start at one so that zero always means "not marked", which is what lets resolution
    /// unmark a literal by writing a zero.
    fn bump_seen(&mut self)
        requires
            old(self).wf(),
        ensures
            final(self).wf(),
            final(self).same_but_seen(old(self)),
            final(self).seen_stamp > 0,
            forall|v: int| 0 <= v < final(self).nv() ==> !#[trigger] final(self).marked(v),
    {
        proof {
            reveal(SearchState::rep);
        }
        let ghost s0 = *self;
        if self.seen_stamp == u32::MAX {
            let n: usize = self.num_vars;
            self.seen = vec![0; n];
            self.seen_stamp = 0;
        }
        self.seen_stamp = self.seen_stamp + 1;
        proof {
            self.lemma_wf_seen(&s0);
            assert forall|v: int| 0 <= v < self.nv() implies !#[trigger] self.marked(v) by {
                assert(s0.seen@[v] <= s0.seen_stamp);
            }
        }
    }

    /// The deepest level among the literals of a list of assigned literals.
    fn deepest(&self, c: &[Lit]) -> (n: usize)
        requires
            self.wf(),
            clause_below(c@, self.nv()),
        ensures
            n == max_level(self.levels(), c@),
    {
        let mut n: usize = 0;
        for i in 0..c.len()
            invariant
                self.wf(),
                clause_below(c@, self.nv()),
                n == max_level(self.levels(), c@.take(i as int)),
        {
            assert(c@.take(i + 1).drop_last() =~= c@.take(i as int));
            assert(c@[i as int].vi() < self.nv());
            let k: usize = self.level[c[i].var().index()];
            if k > n {
                n = k;
            }
        }
        assert(c@.take(c@.len() as int) =~= c@);
        n
    }
}

/// How far resolution of a conflict has come: the variables of the conflict level still to be
/// resolved, and those that stay in the clause.
pub struct Cut {
    /// Variables of the conflict level in the clause.
    pub open: Set<int>,
    /// Other variables in the clause, in the order in which they came.
    pub kept: Seq<int>,
}

/// The variables of the literals, in order.
pub open spec fn vars_of(c: Seq<Lit>) -> Seq<int> {
    Seq::new(c.len(), |i: int| c[i].vi())
}

/// The list `kept` after the first `n` literals of a clause that is resolved on `pivot`: variables
/// that are new, neither fixed at the root nor of level `cl`, join it at the end.
pub open spec fn brought_in(kept: Seq<int>, c: Seq<Lit>, levels: Seq<usize>, cl: int, pivot: int, n: int) -> Seq<int>
    decreases n,
{
    if n <= 0 {
        kept
    } else {
        let before = brought_in(kept, c, levels, cl, pivot, n - 1);
        let v = c[n - 1].vi();
        if v != pivot && levels[v] != 0 && levels[v] != cl && !before.contains(v) {
            before.push(v)
        } else {
            before
        }
    }
}

/// The list of variables holds what the list of literals mentions.
proof fn lemma_vars_of(c: Seq<Lit>, v: int)
    ensures
        vars_of(c).contains(v) <==> mentions(c, v),
{
    if mentions(c, v) {
        let k = choose|k: int| 0 <= k < c.len() && (#[trigger] c[k]).vi() == v;
        assert(vars_of(c)[k] == v);
    }
    if vars_of(c).contains(v) {
        let k = vars_of(c).index_of(v);
        assert(c[k].vi() == v);
    }
}

/// Some literal of the list is over variable `v`.
pub open spec fn mentions(c: Seq<Lit>, v: int) -> bool {
    exists|k: int| 0 <= k < c.len() && (#[trigger] c[k]).vi() == v
}

/// No two literals of the list are over one variable.
pub open spec fn one_each(c: Seq<Lit>) -> bool {
    forall|i: int, j: int| 0 <= i < j < c.len() ==> (#[trigger] c[i]).vi() != (#[trigger] c[j]).vi()
}

impl SearchState {
    /// Clause `c` brings variable `v` into a resolvent on `pivot`: what is fixed at the root is
    /// left out.
    pub open spec fn brings(&self, c: int, pivot: int, v: int) -> bool {
        mentions(self.db()[c], v) && v != pivot && self.levels()[v] != 0
    }

    /// The cut after taking in clause `c`, resolved on `pivot`.
    pub open spec fn take_in(&self, cut: Cut, c: int, pivot: int) -> Cut {
        let cl = self.conflict_level();
        Cut {
            open: cut.open.union(Set::new(|v: int| self.brings(c, pivot, v) && self.levels()[v] == cl)),
            kept: brought_in(cut.kept, self.db()[c], self.levels(), cl, pivot, self.db()[c].len() as int),
        }
    }

    /// The cut that the conflicting clause makes.
    pub open spec fn first_cut(&self) -> Cut {
        self.take_in(Cut { open: Set::empty(), kept: Seq::empty() }, self.conflict_at(), -1)
    }

    /// The cut after resolving variable `v` away, or keeping it where it has no reason.
    pub open spec fn resolved(&self, cut: Cut, v: int) -> Cut {
        if self.reasons()[v] == NO_REASON {
            Cut { open: cut.open.remove(v), kept: cut.kept.push(v) }
        } else {
            self.take_in(
                Cut { open: cut.open.remove(v), kept: cut.kept },
                self.reasons()[v] as int,
                v,
            )
        }
    }

    /// Where resolution leads, going down the trail from position `i`: each open variable is
    /// resolved against its reason, or stays where it has none, until a single one is left open.
    /// That one, the first unique implication point, comes beside the variables that stay.
    pub open spec fn uip_below(&self, i: int, cut: Cut) -> (int, Seq<int>)
        decreases i,
    {
        if i <= 0 {
            (0, cut.kept)
        } else {
            let v = self.trail()[i - 1].vi();
            if !cut.open.contains(v) {
                self.uip_below(i - 1, cut)
            } else if forall|w: int| #[trigger] cut.open.contains(w) ==> w == v {
                (v, cut.kept)
            } else {
                self.uip_below(i - 1, self.resolved(cut, v))
            }
        }
    }

    /// The first unique implication point of the conflict, and the variables beside it.
    pub open spec fn uip_cut(&self) -> (int, Seq<int>) {
        self.uip_below(self.trail().len() as int, self.first_cut())
    }

    /// The reason of `v` mentions nothing but `v`, the variables of the cut, and what is fixed at
    /// the root: the rest of the clause implies its literal over `v`.
    pub open spec fn spared(&self, cut: (int, Seq<int>), v: int) -> bool {
        let r = self.reasons()[v];
        r != NO_REASON && forall|q: int|
            0 <= q < self.db()[r as int].len() ==> ({
                let w = (#[trigger] self.db()[r as int][q]).vi();
                w == v || self.levels()[w] == 0 || w == cut.0 || cut.1.contains(w)
            })
    }

    /// The first `n` variables beside the implication point, without those that the others imply.
    pub open spec fn unspared(&self, cut: (int, Seq<int>), n: int) -> Seq<int>
        decreases n,
    {
        if n <= 0 {
            Seq::empty()
        } else if self.spared(cut, cut.1[n - 1]) {
            self.unspared(cut, n - 1)
        } else {
            self.unspared(cut, n - 1).push(cut.1[n - 1])
        }
    }

    /// The clause is the one that the conflict teaches: over the first unique implication point,
    /// which comes first, and over the variables beside it that the others do not imply; each once,
    /// in the order in which they came, but for the first, which made room and stands last.
    pub open spec fn learns(&self, d: Seq<Lit>) -> bool {
        let cut = self.uip_cut();
        let rest = self.unspared(cut, cut.1.len() as int);
        &&& vars_of(d) == if rest.len() > 0 {
            rest.update(0, cut.0).push(rest[0])
        } else {
            seq![cut.0]
        }
        &&& d.len() > 0
        &&& d[0].vi() == cut.0
        &&& one_each(d)
        &&& forall|v: int| #[trigger]
            mentions(d, v) <==> v == cut.0 || (cut.1.contains(v) && !self.spared(cut, v))
    }

    /// Marks and derived literals stand for the cut.
    spec fn tracks(&self, cut: Cut, derived: Seq<Lit>, cl: int) -> bool {
        &&& forall|v: int| #[trigger] cut.open.contains(v) <==> 0 <= v < self.nv() && self.marked(v) && self.levels()[v] == cl
        &&& cut.kept == vars_of(derived)
        &&& forall|k: int|
            0 <= k < derived.len() && self.levels()[(#[trigger] derived[k]).vi()] != cl ==> self.marked(derived[k].vi())
        &&& one_each(derived)
        &&& clause_below(derived, self.nv())
    }

    /// Derived literals of the conflict level were passed on the way down to position `i`.
    spec fn passed(&self, derived: Seq<Lit>, cl: int, i: int) -> bool {
        forall|k: int, j: int|
            0 <= k < derived.len() && 0 <= j < self.trail().len() && (#[trigger] derived[k]).vi() == (
            #[trigger] self.trail()[j]).vi() && self.levels()[derived[k].vi()] == cl ==> j >= i
    }

    /// Taking in a clause moves marks and derived literals as it moves the cut.
    proof fn lemma_tracks_absorb(
        o: &SearchState,
        f: &SearchState,
        c: int,
        pivot: Option<usize>,
        pv: int,
        cl: int,
        d0: Seq<Lit>,
        d1: Seq<Lit>,
        cut: Cut,
    )
        requires
            o.wf(),
            f.same_but_seen(o),
            f.wf(),
            0 <= c < o.db().len(),
            cl == o.conflict_level(),
            pivot == (if pv < 0 { None } else { Some(pv as usize) }),
            pv >= -1,
            pv < o.nv(),
            o.tracks(cut, d0, cl),
            o.marks_ok(d0, cl),
            SearchState::absorbed(o, f, c, pivot, cl, d0, d1),
        ensures
            f.tracks(o.take_in(cut, c, pv), d1, cl),
    {
        let cs = o.db()[c];
        let next = o.take_in(cut, c, pv);
        assert(clause_below(cs, o.nv()));
        assert forall|v: int| o.brings(c, pv, v) implies 0 <= v < o.nv() && pivot != Some(v as usize) && #[trigger] f.marked(v) by {
            let q = choose|q: int| 0 <= q < cs.len() && (#[trigger] cs[q]).vi() == v;
            assert(cs[q].vi() < o.nv());
            assert(f.marked(o.db()[c][q].vi()));
        }
        assert forall|v: int| 0 <= v < f.nv() && #[trigger] f.marked(v) && !o.marked(v) implies o.brings(c, pv, v) by {
            let q = choose|q: int|
                0 <= q < cs.len() && (#[trigger] cs[q]).vi() == v && pivot != Some(v as usize) && o.levels()[v] != 0;
            assert(mentions(cs, v));
        }
        assert forall|v: int| #[trigger] next.open.contains(v) <==> 0 <= v < f.nv() && f.marked(v) && f.levels()[v] == cl by {
            if o.brings(c, pv, v) {
                assert(f.marked(v));
            }
            if cut.open.contains(v) {
                assert(o.marked(v));
                assert(f.marked(v));
            }
        }
        assert forall|k: int| 0 <= k < d0.len() implies #[trigger] d1[k] == d0[k] by {
            assert(d1.take(d0.len() as int)[k] == d0[k]);
        }
        assert forall|k: int| d0.len() <= k < d1.len() implies o.brings(c, pv, (#[trigger] d1[k]).vi()) && d1[k].vi()
            < o.nv() && o.levels()[d1[k].vi()] != cl by {
            assert(cs.contains(d1[k]));
            let q = choose|q: int| 0 <= q < cs.len() && cs[q] == d1[k];
            assert(cs[q].vi() == d1[k].vi());
            assert(mentions(cs, d1[k].vi()));
        }
        assert(o.marks_listed(d0, cl)) by {
            assert forall|v: int| 0 <= v < o.nv() && o.levels()[v] != cl implies (#[trigger] o.marked(v) <==> mentions(d0, v)) by {
                if o.marked(v) {
                    let k = choose|k: int| 0 <= k < d0.len() && (#[trigger] d0[k]).vi() == v;
                }
                if mentions(d0, v) {
                    let k = choose|k: int| 0 <= k < d0.len() && (#[trigger] d0[k]).vi() == v;
                    assert(o.marked(d0[k].vi()));
                }
            }
        }
        assert(pivot_var(pivot) == pv || (pivot_var(pivot) == -1 && pv < 0));
        assert forall|k: int| 0 <= k < d1.len() && f.levels()[(#[trigger] d1[k]).vi()] != cl implies f.marked(d1[k].vi()) by {
            if k < d0.len() {
                assert(o.marked(d0[k].vi()));
                assert(d0[k].vi() < o.nv());
            }
        }
        assert forall|i: int, j: int| 0 <= i < j < d1.len() implies (#[trigger] d1[i]).vi() != (#[trigger] d1[j]).vi() by {
            if j < d0.len() {
                assert(d0[i].vi() != d0[j].vi());
            } else if i < d0.len() {
                assert(o.brings(c, pv, d1[j].vi()));
                if d0[i].vi() == d1[j].vi() {
                    assert(o.marked(d0[i].vi()));
                }
            }
        }
    }

    /// What a clause adds below the conflict level does not count as passed.
    proof fn lemma_passed_absorb(
        o: &SearchState,
        f: &SearchState,
        c: int,
        pivot: Option<usize>,
        cl: int,
        d0: Seq<Lit>,
        d1: Seq<Lit>,
        i: int,
    )
        requires
            f.same_but_seen(o),
            o.passed(d0, cl, i + 1),
            SearchState::absorbed(o, f, c, pivot, cl, d0, d1),
        ensures
            f.passed(d1, cl, i),
    {
        assert forall|k: int, j: int|
            0 <= k < d1.len() && 0 <= j < f.trail().len() && (#[trigger] d1[k]).vi() == (#[trigger] f.trail()[j]).vi()
                && f.levels()[d1[k].vi()] == cl implies j >= i by {
            if k < d0.len() {
                assert(d1.take(d0.len() as int)[k] == d0[k]);
                assert(d0[k].vi() == o.trail()[j].vi());
            }
        }
    }

    /// Cuts do not depend on the marks.
    proof fn lemma_take_in_same(&self, o: &SearchState, cut: Cut, c: int, pivot: int)
        requires
            self.same_but_seen(o),
        ensures
            self.take_in(cut, c, pivot) == o.take_in(cut, c, pivot),
    {
        let a = self.take_in(cut, c, pivot);
        let b = o.take_in(cut, c, pivot);
        assert forall|v: int| self.brings(c, pivot, v) == o.brings(c, pivot, v) by {}
        assert(a.open =~= b.open);
        assert(a.kept =~= b.kept);
    }

    /// Unmarking an open variable takes it out of the cut.
    proof fn lemma_tracks_unmark(s1: &SearchState, s2: &SearchState, d: Seq<Lit>, cl: int, v0: int, cut: Cut)
        requires
            s1.wf(),
            s2.same_but_seen(s1),
            s1.tracks(cut, d, cl),
            0 <= v0 < s1.nv(),
            s1.levels()[v0] == cl,
            forall|v: int| 0 <= v < s1.nv() ==> #[trigger] s2.marked(v) == (s1.marked(v) && v != v0),
        ensures
            s2.tracks(Cut { open: cut.open.remove(v0), kept: cut.kept }, d, cl),
    {
        assert forall|k: int| 0 <= k < d.len() && s2.levels()[(#[trigger] d[k]).vi()] != cl implies s2.marked(d[k].vi()) by {
            assert(d[k].vi() < s1.nv());
            assert(s1.marked(d[k].vi()));
        }
    }

    /// Stopping at a literal without a reason moves it to those that stay.
    proof fn lemma_tracks_keep(s1: &SearchState, s2: &SearchState, d: Seq<Lit>, cl: int, pi: int, cut: Cut)
        requires
            s1.wf(),
            s2.same_but_seen(s1),
            s1.tracks(cut, d, cl),
            s1.passed(d, cl, pi + 1),
            0 <= pi < s1.trail().len(),
            s1.levels()[s1.trail()[pi].vi()] == cl,
            forall|v: int|
                0 <= v < s1.nv() ==> #[trigger] s2.marked(v) == (s1.marked(v) && v != s1.trail()[pi].vi()),
        ensures
            s2.tracks(
                Cut { open: cut.open.remove(s1.trail()[pi].vi()), kept: cut.kept.push(s1.trail()[pi].vi()) },
                d.push(s1.trail()[pi].neg()),
                cl,
            ),
            s2.passed(d.push(s1.trail()[pi].neg()), cl, pi),
    {
        let v0 = s1.trail()[pi].vi();
        let l = s1.trail()[pi].neg();
        let e = d.push(l);
        let next = Cut { open: cut.open.remove(v0), kept: cut.kept.push(v0) };
        assert(s1.trail()[pi].vi() < s1.nv());
        assert(l.vi() == v0);
        assert(next.kept =~= vars_of(e));
        assert forall|k: int| 0 <= k < d.len() implies (#[trigger] d[k]).vi() != v0 by {
            if d[k].vi() == v0 {
                assert(s1.trail()[pi].vi() == d[k].vi());
            }
        }
        assert forall|k: int| 0 <= k < e.len() && s2.levels()[(#[trigger] e[k]).vi()] != cl implies s2.marked(e[k].vi()) by {
            assert(e[k] == d[k]);
            assert(d[k].vi() < s1.nv());
            assert(s1.marked(d[k].vi()));
        }
        assert forall|i: int, j: int| 0 <= i < j < e.len() implies (#[trigger] e[i]).vi() != (#[trigger] e[j]).vi() by {
            assert(e[i] == d[i]);
            if j < d.len() {
                assert(d[i].vi() != d[j].vi());
            }
        }
        assert forall|k: int| 0 <= k < e.len() implies (#[trigger] e[k]).vi() < s2.nv() by {
            if k < d.len() {
                assert(d[k].vi() < s1.nv());
            }
        }
        assert forall|k: int, j: int|
            0 <= k < e.len() && 0 <= j < s2.trail().len() && (#[trigger] e[k]).vi() == (#[trigger] s2.trail()[j]).vi()
                && s2.levels()[e[k].vi()] == cl implies j >= pi by {
            if k < d.len() {
                assert(d[k].vi() == s1.trail()[j].vi());
            } else {
                let t = s1.trail();
                if j < pi {
                    assert(t[j].vi() != t[pi].vi());
                }
            }
        }
    }
}

impl SearchState {
    /// Apart from the first literal of level `k`, every assignment on that level has a reason.
    pub open spec fn lone_decision(&self, k: int) -> bool {
        forall|i: int|
            0 <= i < self.trail().len() && self.levels()[(#[trigger] self.trail()[i]).vi()] == k
                && self.lims()[k - 1] < i ==> self.reasons()[self.trail()[i].vi()] != NO_REASON
    }

    /// Stopping at a literal without a reason keeps the clause under construction derivable.
    proof fn lemma_keep_step(s1: &SearchState, s2: &SearchState, d2: Seq<Lit>, cl: int, pi: int)
        requires
            s1.wf(),
            s2.wf(),
            s2.same_but_seen(s1),
            0 <= pi < s1.trail().len(),
            s1.flags(cl)[pi],
            s2.flags(cl) == s1.flags(cl).update(pi, false),
            s1.derivable(d2, cl),
            s2.derived_ok(d2, cl),
            s2.marks_ok(d2, cl),
            cl > 0,
        ensures
            s2.derived_ok(d2.push(s1.trail()[pi].neg()), cl),
            s2.marks_ok(d2.push(s1.trail()[pi].neg()), cl),
            s2.derivable(d2.push(s1.trail()[pi].neg()), cl),
    {
        let t = s1.trail();
        let p = t[pi];
        let d3 = d2.push(p.neg());
        crate::lit::lemma_negation_is_involutive(p);
        assert forall|k: int| 0 <= k < d3.len() implies s2.trail().contains((#[trigger] d3[k]).neg()) && 0
            < s2.levels()[d3[k].vi()] <= cl by {
            if k < d2.len() {
                assert(d3[k] == d2[k]);
            } else {
                assert(t[pi] == d3[k].neg());
            }
        }
        assert forall|v: int| 0 <= v < s2.nv() && #[trigger] s2.marked(v) implies t_has(s2.trail(), v)
            && s2.levels()[v] != 0 && (s2.levels()[v] == cl || exists|k: int|
            0 <= k < d3.len() && (#[trigger] d3[k]).vi() == v) by {
            if s2.levels()[v] != cl {
                let k = choose|k: int| 0 <= k < d2.len() && (#[trigger] d2[k]).vi() == v;
                assert(d3[k].vi() == v);
            }
        }
        assert forall|m: Valuation| #[trigger] s2.premises(m) implies s2.holds(d3, cl, m) by {
            assert(s1.premises(m));
            assert(s1.holds(d2, cl, m));
            if exists|k: int| 0 <= k < d2.len() && lit_true(m, #[trigger] d2[k]) {
                let k = choose|k: int| 0 <= k < d2.len() && lit_true(m, #[trigger] d2[k]);
                assert(lit_true(m, d3[k]));
            } else {
                let j = choose|j: int|
                    0 <= j < t.len() && #[trigger] s1.flags(cl)[j] && !lit_true(m, t[j]);
                if j == pi {
                    assert(lit_true(m, d3[d3.len() - 1]));
                } else {
                    assert(s2.flags(cl)[j]);
                }
            }
        }
    }

    /// A reason mentions its own literal, and otherwise only literals falsified earlier.
    proof fn lemma_reason_earlier(&self, pi: int, q: int)
        requires
            self.wf(),
            0 <= pi < self.trail().len(),
            self.reasons()[self.trail()[pi].vi()] != NO_REASON,
            0 <= q < self.db()[self.reasons()[self.trail()[pi].vi()] as int].len(),
        ensures
            ({
                let x = self.db()[self.reasons()[self.trail()[pi].vi()] as int][q];
                ||| x == self.trail()[pi]
                ||| x.vi() != self.trail()[pi].vi() && exists|i: int|
                    0 <= i < pi && #[trigger] self.trail()[i] == x.neg()
            }),
    {
        let t = self.trail();
        let p = t[pi];
        let cs = self.db()[self.reasons()[p.vi()] as int];
        assert(self.reason_ok(t[pi], pi));
        assert(forces(cs, p, t.take(pi)));
        let p0 = choose|p0: int|
            0 <= p0 < cs.len() && #[trigger] cs[p0] == p && forall|q: int|
                0 <= q < cs.len() && q != p0 ==> t.take(pi).contains((#[trigger] cs[q]).neg());
        if q != p0 {
            assert(t.take(pi).contains(cs[q].neg()));
            let i = choose|i: int| 0 <= i < t.take(pi).len() && t.take(pi)[i] == cs[q].neg();
            assert(t[i] == cs[q].neg());
            assert(t[i].vi() != t[pi].vi());
        }
    }

    /// The three states of a resolution step: before it, with the literal at `pi` unmarked, and with
    /// the literals of its reason marked.
    spec fn resolving(
        s1: &SearchState,
        s2: &SearchState,
        s3: &SearchState,
        d2: Seq<Lit>,
        d3: Seq<Lit>,
        cl: int,
        pi: int,
    ) -> bool {
        &&& s1.wf()
        &&& s2.same_but_seen(s1)
        &&& s3.same_but_seen(s2)
        &&& s3.wf()
        &&& 0 <= pi < s1.trail().len()
        &&& s1.flags(cl)[pi]
        &&& s2.flags(cl) == s1.flags(cl).update(pi, false)
        &&& forall|j: int| 0 <= j < s1.trail().len() && #[trigger] s1.flags(cl)[j] ==> j <= pi
        &&& s1.derivable(d2, cl)
        &&& s2.derived_ok(d2, cl)
        &&& s2.marks_ok(d2, cl)
        &&& cl > 0
        &&& s1.reasons()[s1.trail()[pi].vi()] != NO_REASON
        &&& SearchState::absorbed(
            s2,
            s3,
            s1.reasons()[s1.trail()[pi].vi()] as int,
            Some(s1.trail()[pi].vi() as usize),
            cl,
            d2,
            d3,
        )
    }

    proof fn lemma_resolve_marks(
        s1: &SearchState,
        s2: &SearchState,
        s3: &SearchState,
        d2: Seq<Lit>,
        d3: Seq<Lit>,
        cl: int,
        pi: int,
    )
        requires
            SearchState::resolving(s1, s2, s3, d2, d3, cl, pi),
        ensures
            s3.derived_ok(d3, cl),
            s3.marks_ok(d3, cl),
    {
        let t = s1.trail();
        let p = t[pi];
        let pv = p.vi() as usize;
        let reason = s1.reasons()[p.vi()];
        let cs = s1.db()[reason as int];
        assert(p.vi() < s1.nv());
        assert forall|k: int| 0 <= k < d2.len() implies d3[k] == #[trigger] d2[k] by {
            assert(d3.take(d2.len() as int)[k] == d2[k]);
        }
        assert(s3.derived_ok(d3, cl)) by {
            assert forall|k: int| 0 <= k < d3.len() implies s3.trail().contains((#[trigger] d3[k]).neg()) && 0
                < s3.levels()[d3[k].vi()] <= cl by {
                if k < d2.len() {
                    assert(d3[k] == d2[k]);
                    assert(s2.trail().contains(d2[k].neg()));
                } else {
                    assert(cs.contains(d3[k]));
                    let q = choose|q: int| 0 <= q < cs.len() && cs[q] == d3[k];
                    s1.lemma_reason_earlier(pi, q);
                    let i = choose|i: int| 0 <= i < pi && #[trigger] t[i] == cs[q].neg();
                    assert(t.contains(d3[k].neg()));
                }
            }
        }
        assert forall|v: int| 0 <= v < s3.nv() && #[trigger] s3.marked(v) implies t_has(s3.trail(), v)
            && s3.levels()[v] != 0 && (s3.levels()[v] == cl || exists|k: int|
            0 <= k < d3.len() && (#[trigger] d3[k]).vi() == v) by {
            if s2.marked(v) {
                if s3.levels()[v] != cl {
                    let k = choose|k: int| 0 <= k < d2.len() && (#[trigger] d2[k]).vi() == v;
                    assert(d3[k].vi() == v);
                }
            } else {
                let q = choose|q: int|
                    0 <= q < cs.len() && (#[trigger] cs[q]).vi() == v && Some(pv) != Some(v as usize)
                        && s2.levels()[v] != 0;
                s1.lemma_reason_earlier(pi, q);
                let i = choose|i: int| 0 <= i < pi && #[trigger] t[i] == cs[q].neg();
                assert(t[i].vi() == v);
                if s3.levels()[v] != cl {
                    let k = choose|k: int| d2.len() <= k < d3.len() && (#[trigger] d3[k]).vi() == v;
                    assert(d3[k].vi() == v);
                }
            }
        }
    }

    proof fn lemma_resolve_flags(
        s1: &SearchState,
        s2: &SearchState,
        s3: &SearchState,
        d2: Seq<Lit>,
        d3: Seq<Lit>,
        cl: int,
        pi: int,
    )
        requires
            SearchState::resolving(s1, s2, s3, d2, d3, cl, pi),
        ensures
            forall|j: int| 0 <= j < s1.trail().len() && #[trigger] s3.flags(cl)[j] ==> j < pi,
            forall|j: int|
                0 <= j < s1.trail().len() && #[trigger] s2.flags(cl)[j] ==> s3.flags(cl)[j],
    {
        let t = s1.trail();
        let p = t[pi];
        let pv = p.vi() as usize;
        let cs = s1.db()[s1.reasons()[p.vi()] as int];
        let f1 = s1.flags(cl);
        let f2 = s2.flags(cl);
        let f3 = s3.flags(cl);
        assert forall|j: int| 0 <= j < t.len() && #[trigger] f2[j] implies f3[j] by {
            assert(t[j].vi() < s1.nv());
            assert(s2.marked(t[j].vi()));
            assert(s3.marked(t[j].vi()));
        }
        assert forall|j: int| 0 <= j < t.len() && #[trigger] f3[j] implies j < pi by {
            let v = t[j].vi();
            assert(v < s1.nv());
            if s2.marked(v) {
                assert(f2[j]);
                assert(f1[j]);
            } else {
                assert(s3.marked(v));
                let q = choose|q: int|
                    0 <= q < cs.len() && (#[trigger] cs[q]).vi() == v && Some(pv) != Some(v as usize)
                        && s2.levels()[v] != 0;
                s1.lemma_reason_earlier(pi, q);
                let i = choose|i: int| 0 <= i < pi && #[trigger] t[i] == cs[q].neg();
                assert(t[i].vi() == v);
                if i < j {
                    assert(t[i].vi() != t[j].vi());
                } else if j < i {
                    assert(t[j].vi() != t[i].vi());
                }
            }
        }
    }

    /// Resolving a literal away against its reason keeps the clause under construction derivable,
    /// and leaves only earlier literals pending.
    proof fn lemma_resolve_step(
        s1: &SearchState,
        s2: &SearchState,
        s3: &SearchState,
        d2: Seq<Lit>,
        d3: Seq<Lit>,
        cl: int,
        pi: int,
    )
        requires
            SearchState::resolving(s1, s2, s3, d2, d3, cl, pi),
        ensures
            s3.derived_ok(d3, cl),
            s3.marks_ok(d3, cl),
            s3.derivable(d3, cl),
            forall|j: int| 0 <= j < s1.trail().len() && #[trigger] s3.flags(cl)[j] ==> j < pi,
            forall|j: int|
                0 <= j < s1.trail().len() && #[trigger] s2.flags(cl)[j] ==> s3.flags(cl)[j],
    {
        SearchState::lemma_resolve_marks(s1, s2, s3, d2, d3, cl, pi);
        SearchState::lemma_resolve_flags(s1, s2, s3, d2, d3, cl, pi);
        let t = s1.trail();
        let cs = s1.db()[s1.reasons()[t[pi].vi()] as int];
        assert forall|m: Valuation| #[trigger] s3.premises(m) implies s3.holds(d3, cl, m) by {
            assert(s1.premises(m));
            assert(s1.holds(d2, cl, m));
            if exists|k: int| 0 <= k < d2.len() && lit_true(m, #[trigger] d2[k]) {
                let k = choose|k: int| 0 <= k < d2.len() && lit_true(m, #[trigger] d2[k]);
                assert(d3.take(d2.len() as int)[k] == d2[k]);
                assert(lit_true(m, d3[k]));
            } else {
                let j = choose|j: int|
                    0 <= j < t.len() && #[trigger] s1.flags(cl)[j] && !lit_true(m, t[j]);
                if j == pi {
                    assert(clause_true(m, cs));
                    let x = choose|x: int| 0 <= x < cs.len() && lit_true(m, #[trigger] cs[x]);
                    s1.lemma_reason_earlier(pi, x);
                    let jx = choose|jx: int| 0 <= jx < pi && #[trigger] t[jx] == cs[x].neg();
                    assert(t[jx].vi() == cs[x].vi());
                    assert(t[pi].vi() < s1.nv());
                    assert(s2.db()[s1.reasons()[t[pi].vi()] as int][x] == cs[x]);
                    s3.lemma_absorbed(d3, cl, m, cs[x], jx);
                } else {
                    assert(s2.flags(cl)[j]);
                    assert(s3.flags(cl)[j]);
                }
            }
        }
    }

    /// Takes the marked literal at position `index` of the trail out of the pending ones: resolves
    /// it against its reason, or moves it to the derived clause where it has none. Returns how many
    /// are pending now.
    #[verifier::rlimit(100)]
    fn resolve_away(
        &mut self,
        index: usize,
        cl: usize,
        derived: &mut Vec<Lit>,
        pending: usize,
        Ghost(cut): Ghost<Cut>,
    ) -> (n: usize)
        requires
            old(self).wf(),
            old(self).seen_stamp > 0,
            cl > 0,
            cl == old(self).conflict_level(),
            old(self).tracks(cut, old(derived)@, cl as int),
            old(self).passed(old(derived)@, cl as int, index + 1),
            index < old(self).trail().len(),
            old(self).flags(cl as int)[index as int],
            forall|j: int|
                0 <= j < old(self).trail().len() && #[trigger] old(self).flags(cl as int)[j] ==> j <= index,
            pending == cnt(old(self).flags(cl as int), true),
            pending >= 2,
            old(self).derived_ok(old(derived)@, cl as int),
            old(self).marks_ok(old(derived)@, cl as int),
            old(self).derivable(old(derived)@, cl as int),
        ensures
            final(self).wf(),
            final(self).same_but_seen(old(self)),
            final(self).seen_stamp == old(self).seen_stamp,
            n == cnt(final(self).flags(cl as int), true),
            n >= 1,
            forall|j: int|
                0 <= j < final(self).trail().len() && #[trigger] final(self).flags(cl as int)[j] ==> j < index,
            final(self).derived_ok(final(derived)@, cl as int),
            final(self).marks_ok(final(derived)@, cl as int),
            final(self).derivable(final(derived)@, cl as int),
            final(self).tracks(
                old(self).resolved(cut, old(self).trail()[index as int].vi()),
                final(derived)@,
                cl as int,
            ),
            final(self).passed(final(derived)@, cl as int, index as int),
            old(self).lone_decision(cl as int) && (forall|k: int|
                0 <= k < old(derived)@.len() ==> old(self).levels()[(#[trigger] old(derived)@[k]).vi()]
                    < cl) ==> forall|k: int|
                0 <= k < final(derived)@.len() ==> old(self).levels()[(#[trigger] final(derived)@[k]).vi()] < cl,
    {
        let ghost s1 = *self;
        let ghost t = s1.trail();
        let ghost lv = s1.levels();
        let ghost pi = index as int;
        let ghost f1 = s1.flags(cl as int);
        let ghost d2 = derived@;
        let p = self.trail[index];
        let pv: usize = p.var().index();
        proof {
            assert(t[pi].vi() < s1.nv());
            s1.lemma_rep_basic();
        }
        self.seen[pv] = 0;
        let ghost s2 = *self;
        let ghost f2 = s2.flags(cl as int);
        proof {
            s2.lemma_wf_seen(&s1);
            assert(f2 =~= f1.update(pi, false)) by {
                assert forall|j: int| 0 <= j < f2.len() implies f2[j] == f1.update(pi, false)[j] by {
                    if j < pi {
                        assert(t[j].vi() != t[pi].vi());
                    } else if j > pi {
                        assert(t[pi].vi() != t[j].vi());
                    }
                }
            }
            lemma_cnt_update(f1, pi, false, true);
            lemma_cnt_contains(f2, true);
            // Something else is pending, and it was assigned earlier on the same level.
            let j0 = choose|j: int| 0 <= j < f2.len() && f2[j] == true;
            assert(f1[j0]);
            assert(j0 < pi);
            assert(at_level(s1.lims(), j0, lv[t[j0].vi()] as int));
            assert(s1.lone_decision(cl as int) ==> s1.reasons()[t[pi].vi()] != NO_REASON);
            assert forall|j: int| 0 <= j < t.len() && #[trigger] f2[j] implies j < pi by {
                assert(f1[j]);
            }
            assert(s2.marks_ok(d2, cl as int)) by {
                assert forall|v: int| 0 <= v < s2.nv() && #[trigger] s2.marked(v) implies t_has(
                    s2.trail(),
                    v,
                ) && s2.levels()[v] != 0 && (s2.levels()[v] == cl || exists|k: int|
                    0 <= k < d2.len() && (#[trigger] d2[k]).vi() == v) by {
                    assert(s1.marked(v));
                }
            }
            assert(s2.derived_ok(d2, cl as int)) by {
                assert(s1.derived_ok(d2, cl as int));
            }
        }
        proof {
            assert forall|v: int| 0 <= v < s1.nv() implies #[trigger] s2.marked(v) == (s1.marked(v) && v != pv) by {}
        }
        let reason: u32 = self.reason[pv];
        if reason == NO_REASON {
            // A decision or a pure literal: there is no clause to resolve against, so the
            // literal stays in the derived clause and resolution moves on.
            derived.push(p.negated());
            proof {
                SearchState::lemma_keep_step(&s1, &s2, d2, cl as int, pi);
                SearchState::lemma_tracks_keep(&s1, &s2, d2, cl as int, pi, cut);
            }
            pending - 1
        } else {
            proof {
                let cs = s1.db()[reason as int];
                assert(s1.reason_ok(t[pi], pi));
                assert(forces(cs, p, t.take(pi)));
                let p0 = choose|p0: int|
                    0 <= p0 < cs.len() && #[trigger] cs[p0] == p && forall|q: int|
                        0 <= q < cs.len() && q != p0 ==> t.take(pi).contains((#[trigger] cs[q]).neg());
                assert(clause_below(cs, s1.nv()));
                assert forall|q: int|
                    0 <= q < cs.len() && Some(pv) != Some((#[trigger] cs[q]).vi() as usize) implies t.contains(
                    cs[q].neg(),
                ) && lv[cs[q].vi()] <= cl by {
                    assert(q != p0);
                    assert(t.take(pi).contains(cs[q].neg()));
                    let i = choose|i: int| 0 <= i < t.take(pi).len() && t.take(pi)[i] == cs[q].neg();
                    assert(t[i] == cs[q].neg());
                    assert(t[i].vi() == cs[q].vi());
                    s1.lemma_levels_monotone(i, pi);
                }
            }
            let n: usize = self.absorb(reason as usize, Some(pv), cl, derived, pending - 1);
            proof {
                let s3 = *self;
                SearchState::lemma_resolve_step(&s1, &s2, &s3, d2, derived@, cl as int, pi);
                SearchState::lemma_tracks_unmark(&s1, &s2, d2, cl as int, pv as int, cut);
                let opened = Cut { open: cut.open.remove(pv as int), kept: cut.kept };
                SearchState::lemma_tracks_absorb(
                    &s2,
                    &s3,
                    reason as int,
                    Some(pv),
                    pv as int,
                    cl as int,
                    d2,
                    derived@,
                    opened,
                );
                s2.lemma_take_in_same(&s1, opened, reason as int, pv as int);
                SearchState::lemma_passed_absorb(&s2, &s3, reason as int, Some(pv), cl as int, d2, derived@, pi);
                let j0 = choose|j: int| 0 <= j < f2.len() && f2[j] == true;
                assert(f2[j0]);
                assert(s3.flags(cl as int)[j0]);
                lemma_cnt_contains(s3.flags(cl as int), true);
                if s1.lone_decision(cl as int) && (forall|k: int|
                    0 <= k < d2.len() ==> lv[(#[trigger] d2[k]).vi()] < cl) {
                    assert forall|k: int| 0 <= k < derived@.len() implies lv[(#[trigger] derived@[k]).vi()]
                        < cl by {
                        if k < d2.len() {
                            assert(derived@.take(d2.len() as int)[k] == d2[k]);
                        }
                    }
                }
            }
            n
        }
    }

    /// Marks the literals of the conflicting clause. Returns the ones below the conflict level, and
    /// how many are pending at it.
    #[verifier::rlimit(100)]
    fn start_resolution(&mut self, cl: usize) -> (r: (Vec<Lit>, usize))
        requires
            old(self).wf(),
            old(self).conflicting(),
            cl == old(self).conflict_level(),
            cl > 0,
        ensures
            final(self).wf(),
            final(self).same_but_seen(old(self)),
            final(self).seen_stamp > 0,
            final(self).derived_ok(r.0@, cl as int),
            final(self).marks_ok(r.0@, cl as int),
            final(self).derivable(r.0@, cl as int),
            r.1 == cnt(final(self).flags(cl as int), true),
            r.1 >= 1,
            forall|k: int| 0 <= k < r.0@.len() ==> old(self).levels()[(#[trigger] r.0@[k]).vi()] < cl,
            final(self).tracks(old(self).first_cut(), r.0@, cl as int),
    {
        let ghost s0 = *self;
        let ghost t = s0.trail();
        let ghost lv = s0.levels();
        let conflict_clause: usize = self.conflict_clause as usize;
        self.bump_seen();
        let mut derived: Vec<Lit> = Vec::new();
        proof {
            let f = self.flags(cl as int);
            assert(cnt(f, true) == 0) by {
                lemma_cnt_contains(f, true);
                if f.contains(true) {
                    let j = choose|j: int| 0 <= j < f.len() && f[j] == true;
                    assert(t[j].vi() < s0.nv());
                    assert(self.marked(t[j].vi()));
                }
            }
            let cs = s0.db()[conflict_clause as int];
            lemma_max_level(lv, cs);
            assert(clause_below(cs, s0.nv()));
            assert forall|q: int| 0 <= q < cs.len() implies t.contains((#[trigger] cs[q]).neg()) && lv[cs[q].vi()]
                <= cl by {}
        }
        let ghost sb = *self;
        let pending: usize = self.absorb(conflict_clause, None, cl, &mut derived, 0);
        proof {
            let none = Cut { open: Set::empty(), kept: Seq::empty() };
            assert(sb.tracks(none, Seq::empty(), cl as int)) by {
                assert(none.kept =~= vars_of(Seq::<Lit>::empty()));
            }
            assert(sb.marks_ok(Seq::empty(), cl as int));
            SearchState::lemma_tracks_absorb(
                &sb,
                &*self,
                conflict_clause as int,
                None,
                -1,
                cl as int,
                Seq::empty(),
                derived@,
                none,
            );
            sb.lemma_take_in_same(&s0, none, conflict_clause as int, -1);
            let cs = s0.db()[conflict_clause as int];
            // The clause reaches the conflict level, so something is pending.
            let q = choose|q: int| 0 <= q < cs.len() && lv[(#[trigger] cs[q]).vi()] == cl;
            assert(self.marked(cs[q].vi()));
            assert(t.contains(cs[q].neg()));
            let j = choose|j: int| 0 <= j < t.len() && t[j] == cs[q].neg();
            assert(t[j].vi() == cs[q].vi());
            assert(self.flags(cl as int)[j]);
            assert(self.flags(cl as int).contains(true));
            lemma_cnt_contains(self.flags(cl as int), true);
            assert(self.derived_ok(derived@, cl as int)) by {
                assert forall|k: int| 0 <= k < derived@.len() implies self.trail().contains(
                    (#[trigger] derived@[k]).neg(),
                ) && 0 < self.levels()[derived@[k].vi()] <= cl by {
                    assert(cs.contains(derived@[k]));
                    let p = choose|p: int| 0 <= p < cs.len() && cs[p] == derived@[k];
                    assert(t.contains(cs[p].neg()));
                }
            }
            assert(self.marks_ok(derived@, cl as int)) by {
                assert forall|v: int| 0 <= v < self.nv() && #[trigger] self.marked(v) implies t_has(
                    self.trail(),
                    v,
                ) && self.levels()[v] != 0 && (self.levels()[v] == cl || exists|k: int|
                    0 <= k < derived@.len() && (#[trigger] derived@[k]).vi() == v) by {
                    assert(!sb.marked(v));
                    let p = choose|p: int|
                        0 <= p < cs.len() && (#[trigger] cs[p]).vi() == v && s0.levels()[v] != 0;
                    assert(t.contains(cs[p].neg()));
                    let j2 = choose|j2: int| 0 <= j2 < t.len() && t[j2] == cs[p].neg();
                    assert(t[j2].vi() == v);
                }
            }
            assert(self.derivable(derived@, cl as int)) by {
                assert forall|m: Valuation| #[trigger] self.premises(m) implies self.holds(
                    derived@,
                    cl as int,
                    m,
                ) by {
                    let x = choose|x: int| 0 <= x < cs.len() && lit_true(m, #[trigger] cs[x]);
                    assert(t.contains(cs[x].neg()));
                    let jx = choose|jx: int| 0 <= jx < t.len() && t[jx] == cs[x].neg();
                    self.lemma_absorbed(derived@, cl as int, m, cs[x], jx);
                }
            }
        }
        (derived, pending)
    }

    /// Marks every literal of the derived clause, the asserting one included.
    fn mark_derived(&mut self, derived: &Vec<Lit>, uip: Lit)
        requires
            old(self).wf(),
            forall|k: int|
                0 <= k < derived@.len() ==> old(self).trail().contains((#[trigger] derived@[k]).neg()),
            old(self).trail().contains(uip.neg()),
            forall|v: int|
                0 <= v < old(self).nv() && #[trigger] old(self).marked(v) ==> v == uip.vi() || exists|k: int|
                    0 <= k < derived@.len() && (#[trigger] derived@[k]).vi() == v,
        ensures
            final(self).wf(),
            final(self).same_but_seen(old(self)),
            forall|v: int|
                0 <= v < final(self).nv() && #[trigger] final(self).marked(v) ==> v == uip.vi()
                    || exists|k: int| 0 <= k < derived@.len() && (#[trigger] derived@[k]).vi() == v,
            final(self).marked(uip.vi()),
            forall|k: int| 0 <= k < derived@.len() ==> final(self).marked((#[trigger] derived@[k]).vi()),
    {
        let ghost s0 = *self;
        for i in 0..derived.len()
            invariant
                self.wf(),
                self.same_but_seen(&s0),
                forall|k: int|
                    0 <= k < derived@.len() ==> self.trail().contains((#[trigger] derived@[k]).neg()),
                self.trail().contains(uip.neg()),
                forall|v: int|
                    0 <= v < self.nv() && #[trigger] self.marked(v) ==> v == uip.vi() || exists|k: int|
                        0 <= k < derived@.len() && (#[trigger] derived@[k]).vi() == v,
                forall|k: int| 0 <= k < i ==> self.marked((#[trigger] derived@[k]).vi()),
        {
            let ghost before = *self;
            let l = derived[i];
            proof {
                assert(self.trail().contains(derived@[i as int].neg()));
                let j = choose|j: int| 0 <= j < self.trail().len() && self.trail()[j] == l.neg();
                assert(self.trail()[j].vi() == l.vi());
                self.lemma_rep_basic();
            }
            let v: usize = l.var().index();
            self.seen[v] = self.seen_stamp;
            proof {
                self.lemma_wf_seen(&before);
                assert forall|w: int| 0 <= w < self.nv() && #[trigger] self.marked(w) implies w == uip.vi()
                    || exists|k: int| 0 <= k < derived@.len() && (#[trigger] derived@[k]).vi() == w by {
                    if w == v {
                        assert(derived@[i as int].vi() == w);
                    } else {
                        assert(before.marked(w));
                    }
                }
            }
        }
        let ghost s5 = *self;
        proof {
            let j = choose|j: int| 0 <= j < self.trail().len() && self.trail()[j] == uip.neg();
            assert(self.trail()[j].vi() == uip.vi());
            self.lemma_rep_basic();
        }
        let v: usize = uip.var().index();
        self.seen[v] = self.seen_stamp;
        proof {
            self.lemma_wf_seen(&s5);
            assert forall|w: int| 0 <= w < self.nv() && #[trigger] self.marked(w) implies w == uip.vi()
                || exists|k: int| 0 <= k < derived@.len() && (#[trigger] derived@[k]).vi() == w by {
                if w != v {
                    assert(s5.marked(w));
                }
            }
        }
    }

    /// With a single literal pending, the clause under construction is complete.
    proof fn lemma_single_pending(&self, derived: Seq<Lit>, cl: int, pi: int)
        requires
            self.wf(),
            0 <= pi < self.trail().len(),
            self.flags(cl)[pi],
            cnt(self.flags(cl), true) == 1,
            self.derivable(derived, cl),
            self.marks_ok(derived, cl),
        ensures
            self.trail().contains(self.trail()[pi]),
            forall|m: Valuation| #[trigger]
                self.premises(m) ==> !lit_true(m, self.trail()[pi]) || exists|k: int|
                    0 <= k < derived.len() && lit_true(m, #[trigger] derived[k]),
            forall|v: int|
                0 <= v < self.nv() && #[trigger] self.marked(v) ==> v == self.trail()[pi].vi() || exists|k: int|
                    0 <= k < derived.len() && (#[trigger] derived[k]).vi() == v,
    {
        let f1 = self.flags(cl);
        let t = self.trail();
        assert forall|j: int| 0 <= j < t.len() && f1[j] implies j == pi by {
            if j < pi {
                lemma_cnt_two(f1, j, pi, true);
            } else if j > pi {
                lemma_cnt_two(f1, pi, j, true);
            }
        }
        assert forall|m: Valuation| #[trigger] self.premises(m) implies !lit_true(m, t[pi]) || exists|k: int|
            0 <= k < derived.len() && lit_true(m, #[trigger] derived[k]) by {
            assert(self.holds(derived, cl, m));
        }
        assert forall|v: int| 0 <= v < self.nv() && #[trigger] self.marked(v) implies v == t[pi].vi()
            || exists|k: int| 0 <= k < derived.len() && (#[trigger] derived[k]).vi() == v by {
            assert(t_has(self.trail(), v));
            if self.levels()[v] == cl {
                let j = choose|j: int| 0 <= j < t.len() && (#[trigger] t[j]).vi() == v;
                assert(f1[j]);
            }
        }
    }

    /// With a single literal pending, a single variable is open.
    proof fn lemma_alone(&self, cut: Cut, derived: Seq<Lit>, cl: int, pi: int)
        requires
            self.wf(),
            0 <= pi < self.trail().len(),
            self.flags(cl)[pi],
            cnt(self.flags(cl), true) == 1,
            self.tracks(cut, derived, cl),
            self.marks_ok(derived, cl),
        ensures
            cut.open.contains(self.trail()[pi].vi()),
            forall|w: int| #[trigger] cut.open.contains(w) ==> w == self.trail()[pi].vi(),
    {
        let f = self.flags(cl);
        let t = self.trail();
        assert(t[pi].vi() < self.nv());
        assert forall|w: int| #[trigger] cut.open.contains(w) implies w == t[pi].vi() by {
            assert(self.marked(w));
            assert(t_has(t, w));
            let j = choose|j: int| 0 <= j < t.len() && (#[trigger] t[j]).vi() == w;
            assert(f[j]);
            if j < pi {
                lemma_cnt_two(f, j, pi, true);
            } else if j > pi {
                lemma_cnt_two(f, pi, j, true);
            }
        }
    }

    /// With more than one literal pending, more than one variable is open.
    proof fn lemma_not_alone(&self, cut: Cut, derived: Seq<Lit>, cl: int, pi: int)
        requires
            self.wf(),
            0 <= pi < self.trail().len(),
            self.flags(cl)[pi],
            cnt(self.flags(cl), true) >= 2,
            self.tracks(cut, derived, cl),
        ensures
            cut.open.contains(self.trail()[pi].vi()),
            !(forall|w: int| #[trigger] cut.open.contains(w) ==> w == self.trail()[pi].vi()),
    {
        let f = self.flags(cl);
        let t = self.trail();
        assert(t[pi].vi() < self.nv());
        let g = f.update(pi, false);
        lemma_cnt_update(f, pi, false, true);
        lemma_cnt_contains(g, true);
        let j = choose|j: int| 0 <= j < g.len() && g[j] == true;
        assert(j != pi);
        assert(f[j]);
        assert(t[j].vi() < self.nv());
        assert(cut.open.contains(t[j].vi()));
        if j < pi {
            assert(t[j].vi() != t[pi].vi());
        } else {
            assert(t[pi].vi() != t[j].vi());
        }
    }

    /// Resolves the conflicting clause against reasons, most recent literal first, until a single
    /// literal of the conflict level is left to resolve. That literal is returned beside the rest.
    #[verifier::rlimit(100)]
    fn resolve_conflict(&mut self, cl: usize) -> (r: (Vec<Lit>, Lit))
        requires
            old(self).wf(),
            old(self).conflicting(),
            cl == old(self).conflict_level(),
            cl > 0,
        ensures
            final(self).wf(),
            final(self).same_but_seen(old(self)),
            final(self).derived_ok(r.0@, cl as int),
            final(self).trail().contains(r.1.neg()),
            final(self).levels()[r.1.vi()] == cl,
            forall|m: Valuation| #[trigger]
                final(self).premises(m) ==> lit_true(m, r.1) || exists|k: int|
                    0 <= k < r.0@.len() && lit_true(m, #[trigger] r.0@[k]),
            forall|v: int|
                0 <= v < final(self).nv() && #[trigger] final(self).marked(v) ==> v == r.1.vi()
                    || exists|k: int| 0 <= k < r.0@.len() && (#[trigger] r.0@[k]).vi() == v,
            old(self).lone_decision(cl as int) ==> forall|k: int|
                0 <= k < r.0@.len() ==> old(self).levels()[(#[trigger] r.0@[k]).vi()] < cl,
            old(self).uip_cut().0 == r.1.vi(),
            old(self).uip_cut().1 == vars_of(r.0@),
            one_each(r.0@),
            clause_below(r.0@, old(self).nv()),
            !mentions(r.0@, r.1.vi()),
            final(self).marked(r.1.vi()),
            forall|k: int| 0 <= k < r.0@.len() ==> final(self).marked((#[trigger] r.0@[k]).vi()),
    {
        let ghost s0 = *self;
        let (mut derived, mut pending) = self.start_resolution(cl);
        let ghost mut cut = s0.first_cut();
        let mut index: usize = self.trail.len();
        let mut uip: Lit = Lit { code: 0 };
        let mut found = false;
        while !found
            invariant
                self.wf(),
                self.same_but_seen(&s0),
                self.seen_stamp > 0,
                cl > 0,
                index <= self.trail().len(),
                self.derived_ok(derived@, cl as int),
                s0.lone_decision(cl as int) ==> forall|k: int|
                    0 <= k < derived@.len() ==> s0.levels()[(#[trigger] derived@[k]).vi()] < cl,
                !found ==> {
                    &&& self.marks_ok(derived@, cl as int)
                    &&& pending == cnt(self.flags(cl as int), true)
                    &&& pending >= 1
                    &&& forall|j: int|
                        0 <= j < self.trail().len() && #[trigger] self.flags(cl as int)[j] ==> j < index
                    &&& self.derivable(derived@, cl as int)
                    &&& self.tracks(cut, derived@, cl as int)
                    &&& self.passed(derived@, cl as int, index as int)
                    &&& s0.uip_below(index as int, cut) == s0.uip_cut()
                },
                cl == s0.conflict_level(),
                found ==> {
                    &&& s0.uip_cut().0 == uip.vi()
                    &&& s0.uip_cut().1 == vars_of(derived@)
                    &&& one_each(derived@)
                    &&& clause_below(derived@, s0.nv())
                    &&& !mentions(derived@, uip.vi())
                    &&& self.trail().contains(uip.neg())
                    &&& self.levels()[uip.vi()] == cl
                    &&& forall|m: Valuation| #[trigger]
                        self.premises(m) ==> lit_true(m, uip) || exists|k: int|
                            0 <= k < derived@.len() && lit_true(m, #[trigger] derived@[k])
                    &&& forall|v: int|
                        0 <= v < self.nv() && #[trigger] self.marked(v) ==> v == uip.vi() || exists|k: int|
                            0 <= k < derived@.len() && (#[trigger] derived@[k]).vi() == v
                },
            decreases index,
        {
            // The most recently assigned literal still awaiting resolution. Reasons only ever
            // mention literals assigned earlier, so this scan never has to go back up.
            proof {
                let f = self.flags(cl as int);
                lemma_cnt_contains(f, true);
                let j = choose|j: int| 0 <= j < f.len() && f[j] == true;
                assert(f[j]);
                self.lemma_rep_basic();
            }
            index = index - 1;
            while !(self.seen[self.trail[index].var().index()] == self.seen_stamp
                && self.level[self.trail[index].var().index()] == cl)
                invariant
                    self.wf(),
                    self.seen@.len() == self.num_vars,
                    index < self.trail().len(),
                    self.flags(cl as int).contains(true),
                    forall|j: int|
                        0 <= j < self.trail().len() && #[trigger] self.flags(cl as int)[j] ==> j <= index,
                    self.same_but_seen(&s0),
                    self.tracks(cut, derived@, cl as int),
                    self.passed(derived@, cl as int, index + 1),
                    s0.uip_below(index + 1, cut) == s0.uip_cut(),
                decreases index,
            {
                proof {
                    assert(!cut.open.contains(self.trail()[index as int].vi()));
                    assert(s0.uip_below(index + 1, cut) == s0.uip_below(index as int, cut));
                    let f = self.flags(cl as int);
                    assert(!f[index as int]);
                    let j = choose|j: int| 0 <= j < f.len() && f[j] == true;
                    assert(f[j]);
                    assert(self.trail()[index as int].vi() < self.nv());
                }
                index = index - 1;
            }
            let p = self.trail[index];
            proof {
                assert(self.flags(cl as int)[index as int]);
                crate::lit::lemma_negation_is_involutive(p);
            }
            if pending == 1 {
                found = true;
                uip = p.negated();
                proof {
                    self.lemma_single_pending(derived@, cl as int, index as int);
                    self.lemma_alone(cut, derived@, cl as int, index as int);
                    if mentions(derived@, uip.vi()) {
                        let k = choose|k: int| 0 <= k < derived@.len() && (#[trigger] derived@[k]).vi() == uip.vi();
                        assert(derived@[k].vi() == self.trail()[index as int].vi());
                    }
                }
            } else {
                let ghost d1 = derived@;
                let ghost s1 = *self;
                proof {
                    s1.lemma_not_alone(cut, d1, cl as int, index as int);
                    let v = s1.trail()[index as int].vi();
                    if s1.reasons()[v] != NO_REASON {
                        s1.lemma_take_in_same(
                            &s0,
                            Cut { open: cut.open.remove(v), kept: cut.kept },
                            s1.reasons()[v] as int,
                            v,
                        );
                    }
                    assert(s1.resolved(cut, v) == s0.resolved(cut, v));
                }
                pending = self.resolve_away(index, cl, &mut derived, pending, Ghost(cut));
                proof {
                    cut = s0.resolved(cut, s0.trail()[index as int].vi());
                }
                assert(s0.lone_decision(cl as int) ==> s1.lone_decision(cl as int));
            }
        }
        let ghost s4 = *self;
        // Minimisation wants every literal of the derived clause marked, and resolution cleared
        // the marks of the ones it stopped at.
        self.mark_derived(&derived, uip);
        proof {
            assert(s4.derived_ok(derived@, cl as int));
            assert forall|m: Valuation| #[trigger] self.premises(m) implies s4.premises(m) by {}
        }
        (derived, uip)
    }
}

impl SearchState {
    /// The clause `d` is what conflict analysis may derive from the state: it follows from the
    /// premises, all its literals are false, and its first literal is at the conflict level.
    pub open spec fn derives(&self, d: Seq<Lit>) -> bool {
        &&& d.len() > 0
        &&& clause_below(d, self.nv())
        &&& t_false(self.trail(), d)
        &&& forall|m: Valuation| #[trigger] self.premises(m) ==> clause_true(m, d)
        &&& forall|i: int|
            0 <= i < d.len() ==> 0 < self.levels()[(#[trigger] d[i]).vi()] <= self.conflict_level()
        &&& self.levels()[d[0].vi()] == self.conflict_level()
        &&& self.lone_decision(self.conflict_level()) ==> forall|i: int|
            1 <= i < d.len() ==> self.levels()[(#[trigger] d[i]).vi()] < self.conflict_level()
    }

    /// Redundant literals are those over variables that the others imply.
    proof fn lemma_unspared(&self, o: &SearchState, derived: Seq<Lit>, n: int)
        requires
            0 <= n <= derived.len(),
            o.uip_cut().1 == vars_of(derived),
            forall|k: int|
                0 <= k < derived.len() ==> self.redundant(#[trigger] derived[k]) == o.spared(o.uip_cut(), derived[k].vi()),
        ensures
            vars_of(self.unredundant(derived, n)) == o.unspared(o.uip_cut(), n),
        decreases n,
    {
        if n > 0 {
            self.lemma_unspared(o, derived, n - 1);
            assert(self.redundant(derived[n - 1]) == o.spared(o.uip_cut(), derived[n - 1].vi()));
            assert(o.uip_cut().1[n - 1] == derived[n - 1].vi());
            assert(vars_of(self.unredundant(derived, n)) =~= o.unspared(o.uip_cut(), n));
        } else {
            assert(vars_of(self.unredundant(derived, n)) =~= o.unspared(o.uip_cut(), n));
        }
    }

    /// The assembled clause is the one that the conflict teaches.
    #[verifier::rlimit(100)]
    proof fn lemma_learned(&self, o: &SearchState, derived: Seq<Lit>, kept: Seq<Lit>, uip: Lit, d: Seq<Lit>)
        requires
            o.wf(),
            self.wf(),
            self.same_but_seen(o),
            o.uip_cut().0 == uip.vi(),
            o.uip_cut().1 == vars_of(derived),
            kept == self.unredundant(derived, derived.len() as int),
            one_each(kept),
            clause_below(derived, o.nv()),
            !mentions(derived, uip.vi()),
            self.marked(uip.vi()),
            forall|k: int| 0 <= k < derived.len() ==> self.marked((#[trigger] derived[k]).vi()),
            forall|v: int|
                0 <= v < self.nv() && #[trigger] self.marked(v) ==> v == uip.vi() || exists|k: int|
                    0 <= k < derived.len() && (#[trigger] derived[k]).vi() == v,
            forall|k: int|
                0 <= k < kept.len() ==> derived.contains(#[trigger] kept[k]) && !self.redundant(kept[k]),
            forall|k: int|
                0 <= k < derived.len() ==> self.redundant(#[trigger] derived[k]) || kept.contains(derived[k]),
            d == (if kept.len() > 0 {
                kept.update(0, uip).push(kept[0])
            } else {
                seq![uip]
            }),
            forall|k: int| 0 <= k < derived.len() ==> self.trail().contains((#[trigger] derived[k]).neg()),
        ensures
            o.learns(d),
    {
        let cut = o.uip_cut();
        assert forall|v: int| #[trigger] cut.1.contains(v) <==> mentions(derived, v) by {
            lemma_vars_of(derived, v);
        }
        assert forall|w: int| 0 <= w < o.nv() implies (#[trigger] self.marked(w) <==> w == cut.0 || cut.1.contains(w)) by {
            if cut.1.contains(w) {
                assert(mentions(derived, w));
                let k = choose|k: int| 0 <= k < derived.len() && (#[trigger] derived[k]).vi() == w;
                assert(self.marked(derived[k].vi()));
            }
            if self.marked(w) && w != uip.vi() {
                let k = choose|k: int| 0 <= k < derived.len() && (#[trigger] derived[k]).vi() == w;
                assert(mentions(derived, w));
            }
        }
        assert forall|k: int| 0 <= k < derived.len() implies self.redundant(#[trigger] derived[k]) == o.spared(
            cut,
            derived[k].vi(),
        ) by {
            let v = derived[k].vi();
            let r = o.reasons()[v];
            if r != NO_REASON {
                let t = o.trail();
                assert(self.trail().contains(derived[k].neg()));
                let j = choose|j: int| 0 <= j < t.len() && t[j] == derived[k].neg();
                assert(t[j].vi() == v);
                assert(o.reason_ok(t[j], j));
                let c = o.db()[r as int];
                assert(clause_below(c, o.nv()));
                assert forall|q: int| 0 <= q < c.len() implies (self.marked((#[trigger] c[q]).vi()) <==> c[q].vi() == cut.0
                    || cut.1.contains(c[q].vi())) by {
                    assert(c[q].vi() < o.nv());
                }
            }
        }
        self.lemma_unspared(o, derived, derived.len() as int);
        let rest = o.unspared(cut, cut.1.len() as int);
        assert(vars_of(d) =~= if rest.len() > 0 {
            rest.update(0, cut.0).push(rest[0])
        } else {
            seq![cut.0]
        });
        assert forall|k: int| 0 <= k < kept.len() implies mentions(derived, (#[trigger] kept[k]).vi()) && !o.spared(
            cut,
            kept[k].vi(),
        ) by {
            assert(derived.contains(kept[k]));
            let z = choose|z: int| 0 <= z < derived.len() && derived[z] == kept[k];
            assert(derived[z].vi() == kept[k].vi());
        }
        assert forall|i: int, j: int| 0 <= i < j < d.len() implies (#[trigger] d[i]).vi() != (#[trigger] d[j]).vi() by {
            let n = kept.len() as int;
            // The kept literal that stands at each place.
            let x = if i == 0 { -1 } else if i == n { 0 } else { i };
            let y = if j == n { 0 } else { j };
            assert(d[j] == kept[y]);
            assert(mentions(derived, kept[y].vi()));
            if x >= 0 {
                assert(d[i] == kept[x]);
                if x < y {
                    assert(kept[x].vi() != kept[y].vi());
                } else {
                    assert(kept[y].vi() != kept[x].vi());
                }
            }
        }
        assert forall|v: int| #[trigger] mentions(d, v) <==> v == cut.0 || (cut.1.contains(v) && !o.spared(cut, v)) by {
            if mentions(d, v) {
                let k = choose|k: int| 0 <= k < d.len() && (#[trigger] d[k]).vi() == v;
                if k > 0 {
                    let y = if k == kept.len() { 0 } else { k };
                    assert(d[k] == kept[y]);
                    assert(mentions(derived, kept[y].vi()));
                }
            }
            if v == cut.0 {
                assert(d[0].vi() == v);
            }
            if cut.1.contains(v) && !o.spared(cut, v) {
                assert(mentions(derived, v));
                let z = choose|z: int| 0 <= z < derived.len() && (#[trigger] derived[z]).vi() == v;
                assert(!self.redundant(derived[z]));
                assert(kept.contains(derived[z]));
                let y = choose|y: int| 0 <= y < kept.len() && kept[y] == derived[z];
                let k = if y == 0 { kept.len() as int } else { y };
                assert(d[k] == kept[y]);
                assert(d[k].vi() == v);
            }
        }
    }

    /// What minimisation keeps is still derivable, false and within the conflict level.
    proof fn lemma_kept(&self, derived: Seq<Lit>, k0: Seq<Lit>, uip: Lit, cl: int)
        requires
            self.wf(),
            self.derived_ok(derived, cl),
            self.trail().contains(uip.neg()),
            forall|m: Valuation| #[trigger]
                self.premises(m) ==> lit_true(m, uip) || exists|k: int|
                    0 <= k < derived.len() && lit_true(m, #[trigger] derived[k]),
            forall|v: int|
                0 <= v < self.nv() && #[trigger] self.marked(v) ==> v == uip.vi() || exists|k: int|
                    0 <= k < derived.len() && (#[trigger] derived[k]).vi() == v,
            forall|k: int| 0 <= k < k0.len() ==> derived.contains(#[trigger] k0[k]),
            forall|k: int|
                0 <= k < derived.len() ==> self.redundant(#[trigger] derived[k]) || k0.contains(derived[k]),
            self.lone_decision(cl) ==> forall|k: int|
                0 <= k < derived.len() ==> self.levels()[(#[trigger] derived[k]).vi()] < cl,
        ensures
            uip.vi() < self.nv(),
            clause_below(k0, self.nv()),
            self.derived_ok(k0, cl),
            forall|m: Valuation| #[trigger]
                self.premises(m) ==> lit_true(m, uip) || exists|k: int|
                    0 <= k < k0.len() && lit_true(m, #[trigger] k0[k]),
            self.lone_decision(cl) ==> forall|k: int|
                0 <= k < k0.len() ==> self.levels()[(#[trigger] k0[k]).vi()] < cl,
    {
        let t = self.trail();
        assert forall|k: int| 0 <= k < k0.len() implies t.contains((#[trigger] k0[k]).neg()) && 0
            < self.levels()[k0[k].vi()] <= cl && k0[k].vi() < self.nv() && (self.lone_decision(cl)
            ==> self.levels()[k0[k].vi()] < cl) by {
            assert(derived.contains(k0[k]));
            let q = choose|q: int| 0 <= q < derived.len() && derived[q] == k0[k];
            assert(t.contains(derived[q].neg()));
            let j = choose|j: int| 0 <= j < t.len() && t[j] == k0[k].neg();
            assert(t[j].vi() == k0[k].vi());
        }
        let j = choose|j: int| 0 <= j < t.len() && t[j] == uip.neg();
        assert(t[j].vi() == uip.vi());
        assert forall|m: Valuation| #[trigger] self.premises(m) implies lit_true(m, uip) || exists|k: int|
            0 <= k < k0.len() && lit_true(m, #[trigger] k0[k]) by {
            if !lit_true(m, uip) && forall|k: int| 0 <= k < k0.len() ==> !lit_true(m, #[trigger] k0[k]) {
                let k = choose|k: int| 0 <= k < derived.len() && lit_true(m, #[trigger] derived[k]);
                let l = derived[k];
                if k0.contains(l) {
                    let q = choose|q: int| 0 <= q < k0.len() && k0[q] == l;
                    assert(!lit_true(m, k0[q]));
                } else {
                    self.lemma_redundant_false(derived, k0, uip, m, l);
                }
            }
        }
    }

    /// A redundant literal is false once the kept ones are.
    proof fn lemma_redundant_false(&self, derived: Seq<Lit>, k0: Seq<Lit>, uip: Lit, m: Valuation, l: Lit)
        requires
            self.wf(),
            self.premises(m),
            self.redundant(l),
            self.trail().contains(l.neg()),
            self.trail().contains(uip.neg()),
            forall|v: int|
                0 <= v < self.nv() && #[trigger] self.marked(v) ==> v == uip.vi() || exists|k: int|
                    0 <= k < derived.len() && (#[trigger] derived[k]).vi() == v,
            forall|k: int|
                0 <= k < derived.len() ==> self.trail().contains((#[trigger] derived[k]).neg()),
            forall|k: int|
                0 <= k < derived.len() ==> self.redundant(#[trigger] derived[k]) || k0.contains(derived[k]),
            forall|k: int| 0 <= k < k0.len() ==> !lit_true(m, #[trigger] k0[k]),
            !lit_true(m, uip),
        ensures
            !lit_true(m, l),
    {
        let t = self.trail();
        let p = choose|p: int| 0 <= p < t.len() && t[p] == l.neg();
        let tp = t[p];
        assert(tp.vi() == l.vi());
        let c = self.db()[self.reasons()[l.vi()] as int];
        assert(self.reason_ok(t[p], p));
        assert(clause_true(m, c));
        assert(forces(c, tp, t.take(p)));
        let x = choose|x: int| 0 <= x < c.len() && lit_true(m, #[trigger] c[x]);
        let p0 = choose|p0: int|
            0 <= p0 < c.len() && #[trigger] c[p0] == tp && forall|q: int|
                0 <= q < c.len() && q != p0 ==> t.take(p).contains((#[trigger] c[q]).neg());
        if lit_true(m, l) {
            assert(!lit_true(m, tp));
            assert(x != p0);
            assert(t.take(p).contains(c[x].neg()));
            let i = choose|i: int| 0 <= i < t.take(p).len() && t.take(p)[i] == c[x].neg();
            assert(t[i] == c[x].neg());
            assert(t[i].vi() == c[x].vi());
            assert(t[i].vi() != t[p].vi());
            if self.levels()[c[x].vi()] != 0 {
                assert(self.marked(c[x].vi()));
                self.lemma_minimized(derived, k0, uip, m, i);
            }
            assert(lit_true(m, t[i]));
            assert(false);
        }
    }

    /// The finished clause: the asserting literal first, then the kept ones with the first moved to
    /// the end.
    proof fn lemma_assemble(&self, k0: Seq<Lit>, uip: Lit, d: Seq<Lit>)
        requires
            self.wf(),
            self.conflict_level() > 0,
            uip.vi() < self.nv(),
            clause_below(k0, self.nv()),
            self.derived_ok(k0, self.conflict_level()),
            self.trail().contains(uip.neg()),
            self.levels()[uip.vi()] == self.conflict_level(),
            forall|m: Valuation| #[trigger]
                self.premises(m) ==> lit_true(m, uip) || exists|k: int|
                    0 <= k < k0.len() && lit_true(m, #[trigger] k0[k]),
            self.lone_decision(self.conflict_level()) ==> forall|k: int|
                0 <= k < k0.len() ==> self.levels()[(#[trigger] k0[k]).vi()] < self.conflict_level(),
            d == (if k0.len() > 0 {
                k0.update(0, uip).push(k0[0])
            } else {
                k0.push(uip)
            }),
        ensures
            self.derives(d),
            max_level(self.levels(), d.skip(1)) == max_level(self.levels(), k0),
    {
        let cl = self.conflict_level();
        let lv = self.levels();
        assert forall|k: int| 0 <= k < k0.len() implies d.contains(#[trigger] k0[k]) by {
            if k == 0 {
                assert(d[d.len() - 1] == k0[0]);
            } else {
                assert(d[k] == k0[k]);
            }
        }
        assert(d[0] == uip);
        assert forall|i: int| 1 <= i < d.len() implies exists|k: int|
            0 <= k < k0.len() && #[trigger] k0[k] == #[trigger] d[i] by {
            if i == d.len() - 1 {
                assert(k0[0] == d[i]);
            } else {
                assert(k0[i] == d[i]);
            }
        }
        assert forall|i: int| 0 <= i < d.len() implies self.trail().contains((#[trigger] d[i]).neg()) && 0
            < lv[d[i].vi()] <= cl && d[i].vi() < self.nv() by {
            if i > 0 {
                let k = choose|k: int| 0 <= k < k0.len() && #[trigger] k0[k] == d[i];
                assert(self.trail().contains(k0[k].neg()));
            }
        }
        assert forall|m: Valuation| #[trigger] self.premises(m) implies clause_true(m, d) by {
            if lit_true(m, uip) {
                assert(lit_true(m, d[0]));
            } else {
                let k = choose|k: int| 0 <= k < k0.len() && lit_true(m, #[trigger] k0[k]);
                assert(d.contains(k0[k]));
                crate::semantics::lemma_clause_true_by(m, d, k0[k]);
            }
        }
        if self.lone_decision(cl) {
            assert forall|i: int| 1 <= i < d.len() implies lv[(#[trigger] d[i]).vi()] < cl by {
                let k = choose|k: int| 0 <= k < k0.len() && #[trigger] k0[k] == d[i];
            }
        }
        // The order of the remaining literals does not matter to their deepest level.
        let rest = d.skip(1);
        lemma_max_level(lv, rest);
        lemma_max_level(lv, k0);
        assert forall|k: int| 0 <= k < k0.len() implies lv[(#[trigger] k0[k]).vi()] <= max_level(lv, rest) by {
            if k == 0 {
                assert(rest[rest.len() - 1] == k0[0]);
            } else {
                assert(rest[k - 1] == k0[k]);
            }
        }
        assert forall|i: int| 0 <= i < rest.len() implies lv[(#[trigger] rest[i]).vi()] <= max_level(lv, k0) by {
            assert(rest[i] == d[i + 1]);
            let k = choose|k: int| 0 <= k < k0.len() && #[trigger] k0[k] == d[i + 1];
        }
    }

    /// Derives a clause from the current conflict by first-UIP resolution and adds it.
    ///
    /// A derived clause longer than `max_size` is thrown away rather than stored, and reported as
    /// [`Conflict::TooLong`]. That is a concession to this solver's propagation: a clause costs
    /// work on every assignment to every variable it mentions, where a watched-literal solver
    /// would leave it alone until one of two literals is touched. A `max_size` of zero keeps
    /// clauses of every length.
    #[verifier::spinoff_prover]
    #[verifier::rlimit(100)]
    pub fn analyze_conflict(&mut self, max_size: usize) -> (r: Conflict)
        requires
            old(self).wf(),
            old(self).conflicting(),
            old(self).db().len() + 1 < u32::MAX,
        ensures
            final(self).wf(),
            final(self).same_assignment(old(self)),
            final(self).queue() == old(self).queue(),
            final(self).conflicting(),
            final(self).conflict_at() == old(self).conflict_at(),
            final(self).propagation_count() == old(self).propagation_count(),
            r == Conflict::Root <==> old(self).conflict_level() == 0,
            !(r is Learned) ==> final(self).db() == old(self).db() && final(self).learned_size() == old(self).learned_size(),
            r matches Conflict::TooLong(n) ==> max_size != 0 && n > max_size && exists|d: Seq<Lit>|
                d.len() == n && #[trigger] old(self).derives(d) && old(self).learns(d),
            r matches Conflict::Learned { clause, assert_level, asserting } ==> {
                let d = final(self).db().last();
                &&& clause == old(self).db().len()
                &&& final(self).db() == old(self).db().push(d)
                &&& final(self).learned_size() == old(self).learned_size() + d.len()
                &&& old(self).derives(d)
                &&& old(self).learns(d)
                &&& max_size == 0 || d.len() <= max_size
                &&& assert_level == max_level(old(self).levels(), d.skip(1))
                &&& asserting == (assert_level < old(self).conflict_level())
            },
    {
        let ghost s0 = *self;
        let cc: usize = self.conflict_clause as usize;
        assert(clause_below(self.db()[cc as int], self.nv()));
        let cl: usize = self.deepest(self.clause(cc));
        if cl == 0 {
            return Conflict::Root;
        }
        let (derived, uip) = self.resolve_conflict(cl);
        let ghost s1 = *self;
        let mut kept = self.minimize(&derived);
        let ghost k0 = kept@;
        proof {
            s1.lemma_rep_basic();
            s1.lemma_wf_seen(&s0);
            s1.lemma_kept(derived@, k0, uip, cl as int);
            assert forall|m: Valuation| #[trigger] s0.premises(m) implies s1.premises(m) by {}
        }
        let assert_level: usize = self.deepest(&kept);
        let asserting = assert_level < cl;
        // The kept literals are still one short of the finished clause, which is the asserting one.
        // It goes first: propagation scans a clause front to back looking for its one unassigned
        // literal, and this is it.
        if kept.len() > 0 {
            let first = kept[0];
            kept[0] = uip;
            kept.push(first);
        } else {
            kept.push(uip);
        }
        let length: usize = kept.len();
        let ghost d = kept@;
        proof {
            s1.lemma_assemble(k0, uip, d);
            assert(s0.derives(d)) by {
                assert(s1.derives(d));
            }
            assert(d =~= if k0.len() > 0 {
                k0.update(0, uip).push(k0[0])
            } else {
                seq![uip]
            });
            s1.lemma_learned(&s0, derived@, k0, uip, d);
        }
        if max_size != 0 && length > max_size {
            return Conflict::TooLong(length);
        }
        let clause: u32 = self.add_clause(&kept);
        Conflict::Learned { clause, assert_level, asserting }
    }
}

/// A learned clause is implied by the database together with what is assigned at the root: an
/// assignment that satisfies every clause and agrees with the root literals satisfies it.
pub proof fn lemma_learned_clauses_are_implied(s: SearchState, d: Seq<Lit>, m: Valuation)
    requires
        s.wf(),
        s.conflicting(),
        s.derives(d),
        forall|c: int| 0 <= c < s.db().len() ==> clause_true(m, #[trigger] s.db()[c]),
        forall|i: int|
            0 <= i < s.trail().len() && s.levels()[(#[trigger] s.trail()[i]).vi()] == 0 ==> lit_true(
                m,
                s.trail()[i],
            ),
    ensures
        clause_true(m, d),
{
    assert forall|i: int|
        0 <= i < s.trail().len() && s.reasons()[(#[trigger] s.trail()[i]).vi()] != NO_REASON implies clause_true(
        m,
        s.db()[s.reasons()[s.trail()[i].vi()] as int],
    ) by {
        assert(s.reason_ok(s.trail()[i], i));
    }
    assert(s.premises(m));
}

/// A conflict teaches one clause only: two that qualify are over the same variables in the same
/// order, and as all their literals are false they are the same clause.
pub proof fn lemma_conflict_teaches_one_clause(s: SearchState, d: Seq<Lit>, e: Seq<Lit>)
    requires
        s.learns(d),
        s.learns(e),
    ensures
        d.len() == e.len(),
        s.wf() && s.derives(d) && s.derives(e) ==> d == e,
{
    assert(vars_of(d).len() == vars_of(e).len());
    if s.wf() && s.derives(d) && s.derives(e) {
        assert forall|i: int| 0 <= i < d.len() implies d[i] == e[i] by {
            assert(vars_of(d)[i] == vars_of(e)[i]);
            assert(d[i].vi() < s.nv());
            s.lemma_false_unique(d[i], e[i]);
        }
        assert(d =~= e);
    }
}

/// Backtracking restores: closing a level that was opened in `before`, whatever was assigned and
/// learned inside it, gives back the trail, the levels and the assignment, and with it the number
/// of true and of unassigned literals of every clause.
pub proof fn lemma_backtracking_restores(before: SearchState, inside: SearchState, after: SearchState)
    requires
        before.wf(),
        inside.wf(),
        after.wf(),
        before.nv() == inside.nv(),
        inside.lims() == before.lims().push(before.trail().len() as usize),
        inside.trail().len() >= before.trail().len(),
        inside.trail().take(before.trail().len() as int) == before.trail(),
        after.popped_from(&inside),
    ensures
        after.trail() == before.trail(),
        after.lims() == before.lims(),
        after.vals() == before.vals(),
        forall|c: Seq<Lit>| #[trigger] n_true(c, after.vals()) == n_true(c, before.vals()),
        forall|c: Seq<Lit>| #[trigger] n_free(c, after.vals()) == n_free(c, before.vals()),
{
    before.lemma_trail_fits();
    assert(after.lims() =~= before.lims());
    assert(after.trail() == before.trail());
    assert forall|v: int| 0 <= v < before.nv() implies after.vals()[v] == before.vals()[v] by {
        if t_has(before.trail(), v) {
            let i = choose|i: int| 0 <= i < before.trail().len() && (#[trigger] before.trail()[i]).vi() == v;
            assert(after.vals()[after.trail()[i].vi()] == Some(after.trail()[i].pos()));
            assert(before.vals()[before.trail()[i].vi()] == Some(before.trail()[i].pos()));
        } else {
            assert(!(before.vals()[v] is Some));
            assert(!(after.vals()[v] is Some));
        }
    }
    assert(after.vals() =~= before.vals());
}

impl SearchState {
    /// A clause is no longer than what memory can hold.
    pub proof fn lemma_clause_fits(&self, c: int)
        requires
            self.rep(),
            0 <= c < self.db().len(),
        ensures
            self.db()[c].len() <= usize::MAX,
    {
        self.lemma_rep_basic();
        self.clauses.lemma_wf();
    }
}

} // verus!
