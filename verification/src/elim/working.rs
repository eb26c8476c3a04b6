//! The clause store that elimination works on.

use vstd::prelude::*;
use crate::cnf::{lemma_cover, Cnf};
use crate::count::{cnt, copies, lemma_cnt_contains, lemma_cnt_no_duplicates, lemma_cnt_take};
use crate::lit::{Lit, Var};
use crate::semantics::{clause_below, clause_true, formula_true, normal_clause, normal_formula, Valuation};

verus! {

/// A list of clause slots; a removed clause leaves its slot empty.
pub type Slots = Seq<Option<Seq<Lit>>>;

/// Slot `i` holds a clause.
pub open spec fn is_live(s: Slots, i: int) -> bool {
    0 <= i < s.len() && s[i] is Some
}

/// Slot `i` holds a clause with the literal `l` in it.
pub open spec fn holds(s: Slots, i: int, l: Lit) -> bool {
    is_live(s, i) && s[i]->0.contains(l)
}

/// Some live clause contains `l`.
pub open spec fn occurs(s: Slots, l: Lit) -> bool {
    exists|i: int| #[trigger] holds(s, i, l)
}

/// The live slots, in order.
pub open spec fn live_of(s: Slots) -> Seq<usize>
    decreases s.len(),
{
    if s.len() == 0 {
        Seq::empty()
    } else {
        let p = live_of(s.drop_last());
        if s.last() is Some {
            p.push((s.len() - 1) as usize)
        } else {
            p
        }
    }
}

/// How many clauses are left.
pub open spec fn live_count(s: Slots) -> nat {
    live_of(s).len()
}

/// The clauses that are left, in order.
pub open spec fn live_clauses(s: Slots) -> Seq<Seq<Lit>>
    decreases s.len(),
{
    if s.len() == 0 {
        Seq::empty()
    } else {
        let p = live_clauses(s.drop_last());
        if s.last() is Some {
            p.push(s.last()->0)
        } else {
            p
        }
    }
}

/// The live slots whose clause contains `l`, in order.
pub open spec fn occ_of(s: Slots, l: Lit) -> Seq<usize>
    decreases s.len(),
{
    if s.len() == 0 {
        Seq::empty()
    } else {
        let p = occ_of(s.drop_last(), l);
        if holds(s, s.len() - 1, l) {
            p.push((s.len() - 1) as usize)
        } else {
            p
        }
    }
}

/// Some clause that is left has no literals.
pub open spec fn has_empty(s: Slots) -> bool {
    exists|i: int| #[trigger] is_live(s, i) && s[i]->0.len() == 0
}

/// Every clause that is left holds under `m`.
pub open spec fn slots_true(m: Valuation, s: Slots) -> bool {
    forall|i: int| #[trigger] is_live(s, i) ==> clause_true(m, s[i]->0)
}

/// Every clause that is left is in normal form and ranges over variables below `n`.
pub open spec fn slots_normal(s: Slots, n: int) -> bool {
    forall|i: int| #[trigger] is_live(s, i) ==> normal_clause(s[i]->0) && clause_below(s[i]->0, n)
}

/// Every clause that is left ranges over variables below `n`.
pub open spec fn slots_below(s: Slots, n: int) -> bool {
    forall|i: int| #[trigger] is_live(s, i) ==> clause_below(s[i]->0, n)
}

/// No clause that is left has a literal twice.
pub open spec fn slots_distinct(s: Slots) -> bool {
    forall|i: int| #[trigger] is_live(s, i) ==> s[i]->0.no_duplicates()
}

/// How often a literal occurs in the clauses that are left.
pub open spec fn tally_of(s: Slots, l: Lit) -> nat
    decreases s.len(),
{
    if s.len() == 0 {
        0
    } else {
        tally_of(s.drop_last(), l) + match s.last() {
            Some(c) => cnt(c, l),
            None => 0,
        }
    }
}

/// Where no clause has a literal twice, it occurs as often as there are clauses with it.
pub proof fn lemma_tally(s: Slots, l: Lit)
    requires
        slots_distinct(s),
    ensures
        tally_of(s, l) == occ_of(s, l).len(),
    decreases s.len(),
{
    if s.len() > 0 {
        let p = s.drop_last();
        let n = s.len() - 1;
        assert forall|i: int| #[trigger] is_live(p, i) implies p[i]->0.no_duplicates() by {
            assert(is_live(s, i));
        }
        lemma_tally(p, l);
        if s[n] is Some {
            assert(is_live(s, n));
            lemma_cnt_no_duplicates(s[n]->0);
            assert(cnt(s[n]->0, l) <= 1);
            lemma_cnt_contains(s[n]->0, l);
        }
    }
}

/// A strictly sorted clause has no literal twice.
proof fn lemma_normal_distinct(c: Seq<Lit>)
    requires
        normal_clause(c),
    ensures
        c.no_duplicates(),
{
    assert forall|i: int, j: int| 0 <= i < c.len() && 0 <= j < c.len() && i != j implies c[i] != c[j] by {
        if i < j {
            assert(c[i].code < c[j].code);
        } else {
            assert(c[j].code < c[i].code);
        }
    }
}

/// The slots of a list whose clause still contains `l`.
pub open spec fn standing(s: Slots, list: Seq<usize>, l: Lit) -> Seq<usize>
    decreases list.len(),
{
    if list.len() == 0 {
        Seq::empty()
    } else {
        let p = standing(s, list.drop_last(), l);
        if holds(s, list.last() as int, l) {
            p.push(list.last())
        } else {
            p
        }
    }
}

/// What is standing is in the list, and in its order.
proof fn lemma_standing(s: Slots, list: Seq<usize>, l: Lit)
    ensures
        standing(s, list, l).len() <= list.len(),
        forall|x: usize| #[trigger]
            standing(s, list, l).contains(x) <==> list.contains(x) && holds(s, x as int, l),
        ascending_slots(list) ==> ascending_slots(standing(s, list, l)),
    decreases list.len(),
{
    if list.len() > 0 {
        let q = list.drop_last();
        let x = list.last();
        lemma_standing(s, q, l);
        let p = standing(s, q, l);
        assert(list =~= q.push(x));
        crate::sorting::lemma_push_contains(q, x);
        crate::sorting::lemma_push_contains(p, x);
        if ascending_slots(list) {
            assert forall|i: int, j: int| 0 <= i < j < q.len() implies #[trigger] q[i] < #[trigger] q[j] by {
                assert(list[i] < list[j]);
            }
            assert forall|i: int| 0 <= i < p.len() implies #[trigger] p[i] < x by {
                assert(p.contains(p[i]));
                let j = q.index_of(p[i]);
                assert(list[j] < list[list.len() - 1]);
            }
        }
    }
}

/// One slot for each clause of a formula.
pub open spec fn slots_of(f: Seq<Seq<Lit>>) -> Slots {
    Seq::new(f.len(), |i: int| Some(f[i]))
}

/// Strictly ascending slot numbers.
pub open spec fn ascending_slots(s: Seq<usize>) -> bool {
    forall|i: int, j: int| 0 <= i < j < s.len() ==> #[trigger] s[i] < #[trigger] s[j]
}

/// An ascending list is determined by its elements.
pub proof fn lemma_ascending_slots_unique(a: Seq<usize>, b: Seq<usize>)
    requires
        ascending_slots(a),
        ascending_slots(b),
        forall|x: usize| #[trigger] a.contains(x) <==> b.contains(x),
    ensures
        a == b,
{
    let wa = a.map_values(|x: usize| x as u128);
    let wb = b.map_values(|x: usize| x as u128);
    assert forall|x: u128| #[trigger] wa.contains(x) <==> wb.contains(x) by {
        if wa.contains(x) {
            let i = choose|i: int| 0 <= i < wa.len() && wa[i] == x;
            assert(a.contains(a[i]));
            assert(b.contains(a[i]));
            let j = choose|j: int| 0 <= j < b.len() && b[j] == a[i];
            assert(wb[j] == x);
        }
        if wb.contains(x) {
            let i = choose|i: int| 0 <= i < wb.len() && wb[i] == x;
            assert(b.contains(b[i]));
            assert(a.contains(b[i]));
            let j = choose|j: int| 0 <= j < a.len() && a[j] == b[i];
            assert(wa[j] == x);
        }
    }
    crate::sorting::lemma_ascending_unique(wa, wb);
    assert forall|i: int| 0 <= i < a.len() implies a[i] == b[i] by {
        assert(wa[i] == wb[i]);
    }
    assert(wa.len() == a.len() && wb.len() == b.len());
    assert(a =~= b);
}

/// `occ_of` lists, in order, exactly the slots that hold the literal.
pub proof fn lemma_occ_of(s: Slots, l: Lit)
    requires
        s.len() <= usize::MAX,
    ensures
        ascending_slots(occ_of(s, l)),
        forall|i: usize| #[trigger] occ_of(s, l).contains(i) <==> holds(s, i as int, l),
        occ_of(s, l).len() <= s.len(),
    decreases s.len(),
{
    if s.len() > 0 {
        let p = s.drop_last();
        let q = occ_of(p, l);
        lemma_occ_of(p, l);
        let n = (s.len() - 1) as usize;
        assert forall|i: int| 0 <= i < q.len() implies #[trigger] q[i] < n by {
            assert(q.contains(q[i]));
        }
        crate::sorting::lemma_push_contains(q, n);
        assert forall|i: usize| #[trigger] occ_of(s, l).contains(i) <==> holds(s, i as int, l) by {
            if holds(s, i as int, l) && i < n {
                assert(holds(p, i as int, l));
            }
            if q.contains(i) {
                assert(holds(p, i as int, l));
            }
        }
    }
}

/// `live_of` lists, in order, exactly the slots in use.
pub proof fn lemma_live_of(s: Slots)
    requires
        s.len() <= usize::MAX,
    ensures
        ascending_slots(live_of(s)),
        forall|i: usize| #[trigger] live_of(s).contains(i) <==> is_live(s, i as int),
        live_of(s).len() <= s.len(),
    decreases s.len(),
{
    if s.len() > 0 {
        let p = s.drop_last();
        let q = live_of(p);
        lemma_live_of(p);
        let n = (s.len() - 1) as usize;
        assert forall|i: int| 0 <= i < q.len() implies #[trigger] q[i] < n by {
            assert(q.contains(q[i]));
        }
        crate::sorting::lemma_push_contains(q, n);
        assert forall|i: usize| #[trigger] live_of(s).contains(i) <==> is_live(s, i as int) by {
            if is_live(s, i as int) && i < n {
                assert(is_live(p, i as int));
            }
            if q.contains(i) {
                assert(is_live(p, i as int));
            }
        }
    }
}

/// Emptying a slot in use leaves one clause less; emptying an empty one changes nothing.
pub proof fn lemma_live_count_remove(s: Slots, i: int)
    requires
        0 <= i < s.len(),
    ensures
        live_count(s.update(i, None)) == live_count(s) - (if s[i] is Some {
            1int
        } else {
            0int
        }),
    decreases s.len(),
{
    let p = s.drop_last();
    if i == s.len() - 1 {
        assert(s.update(i, None).drop_last() =~= p);
    } else {
        assert(s.update(i, None).drop_last() =~= p.update(i, None));
        lemma_live_count_remove(p, i);
    }
}

/// Nothing is left exactly when no slot is in use.
pub proof fn lemma_live_count_zero(s: Slots)
    ensures
        live_count(s) == 0 <==> (forall|i: int| !#[trigger] is_live(s, i)),
    decreases s.len(),
{
    if s.len() > 0 {
        let p = s.drop_last();
        lemma_live_count_zero(p);
        if s.last() is Some {
            assert(is_live(s, s.len() - 1));
        } else if live_count(p) == 0 {
            assert forall|i: int| !#[trigger] is_live(s, i) by {
                assert(!is_live(p, i));
            }
        } else {
            let i = choose|i: int| #[trigger] is_live(p, i);
            assert(is_live(s, i));
        }
    }
}

/// The clauses that are left are those in the live slots.
pub proof fn lemma_live_clauses(s: Slots)
    ensures
        live_clauses(s).len() == live_count(s),
        forall|c: Seq<Lit>|
            #[trigger] live_clauses(s).contains(c) <==> exists|i: int|
                #[trigger] is_live(s, i) && s[i]->0 == c,
    decreases s.len(),
{
    if s.len() > 0 {
        let p = s.drop_last();
        lemma_live_clauses(p);
        let n = s.len() - 1;
        crate::sorting::lemma_push_contains(live_clauses(p), s.last()->0);
        assert forall|c: Seq<Lit>|
            #[trigger] live_clauses(s).contains(c) <==> exists|i: int|
                #[trigger] is_live(s, i) && s[i]->0 == c by {
            if live_clauses(s).contains(c) {
                if live_clauses(p).contains(c) {
                    let i = choose|i: int| #[trigger] is_live(p, i) && p[i]->0 == c;
                    assert(is_live(s, i) && s[i]->0 == c);
                } else {
                    assert(is_live(s, n) && s[n]->0 == c);
                }
            }
            if exists|i: int| #[trigger] is_live(s, i) && s[i]->0 == c {
                let i = choose|i: int| #[trigger] is_live(s, i) && s[i]->0 == c;
                if i < n {
                    assert(is_live(p, i) && p[i]->0 == c);
                }
            }
        }
    }
}

/// The slots and the list of the clauses in them hold under the same assignments.
pub proof fn lemma_slots_true(m: Valuation, s: Slots)
    ensures
        slots_true(m, s) == formula_true(m, live_clauses(s)),
{
    lemma_live_clauses(s);
    let f = live_clauses(s);
    if slots_true(m, s) {
        assert forall|k: int| 0 <= k < f.len() implies clause_true(m, #[trigger] f[k]) by {
            assert(f.contains(f[k]));
            let i = choose|i: int| #[trigger] is_live(s, i) && s[i]->0 == f[k];
            assert(clause_true(m, s[i]->0));
        }
    }
    if formula_true(m, f) {
        assert forall|i: int| #[trigger] is_live(s, i) implies clause_true(m, s[i]->0) by {
            assert(f.contains(s[i]->0));
            let k = choose|k: int| 0 <= k < f.len() && f[k] == s[i]->0;
            assert(clause_true(m, f[k]));
        }
    }
}

/// A formula laid out in slots is left as it was.
pub proof fn lemma_slots_of(f: Seq<Seq<Lit>>)
    ensures
        live_clauses(slots_of(f)) == f,
        live_count(slots_of(f)) == f.len(),
    decreases f.len(),
{
    if f.len() > 0 {
        lemma_slots_of(f.drop_last());
        assert(slots_of(f).drop_last() =~= slots_of(f.drop_last()));
        assert(live_clauses(slots_of(f)) =~= f);
    } else {
        assert(live_clauses(slots_of(f)) =~= f);
    }
}

/// Normal slots give a normal formula over the same variables.
pub proof fn lemma_live_normal(s: Slots, n: int)
    requires
        slots_normal(s, n),
    ensures
        normal_formula(live_clauses(s)),
        crate::semantics::formula_below(live_clauses(s), n),
{
    lemma_live_clauses(s);
    let f = live_clauses(s);
    assert forall|k: int| 0 <= k < f.len() implies normal_clause(#[trigger] f[k]) && clause_below(f[k], n) by {
        assert(f.contains(f[k]));
        let i = choose|i: int| #[trigger] is_live(s, i) && s[i]->0 == f[k];
    }
}

/// A mutable clause store with occurrence lists, used during elimination.
///
/// Deletion is by tombstone: clauses become `None` and occurrence lists keep stale entries, which
/// readers skip. Compaction happens once, when the formula is handed back.
#[derive(Debug)]
pub struct Working {
    clauses: Vec<Option<Vec<Lit>>>,
    /// Clause slots per literal. May name removed clauses, which are filtered on read.
    occ: Vec<Vec<usize>>,
    num_vars: usize,
    live: usize,
}

/// What a slot of the store holds.
pub open spec fn slot_view(c: Option<Vec<Lit>>) -> Option<Seq<Lit>> {
    match c {
        Some(c) => Some(c@),
        None => None,
    }
}

impl Working {
    /// The clause slots.
    pub closed spec fn slots(&self) -> Slots {
        Seq::new(self.clauses@.len(), |i: int| slot_view(self.clauses@[i]))
    }

    /// The number of variables.
    pub closed spec fn nv(&self) -> int {
        self.num_vars as int
    }

    /// The occurrence lists, by literal; they may name slots that are empty by now.
    pub closed spec fn lists(&self) -> Seq<Seq<usize>> {
        Seq::new(self.occ@.len(), |i: int| self.occ@[i]@)
    }

    /// The occurrence lists name every live occurrence.
    spec fn listed(&self) -> bool {
        &&& self.lists().len() == 2 * self.nv()
        &&& forall|k: int, p: int|
            0 <= k < self.lists().len() && 0 <= p < self.lists()[k].len()
                ==> #[trigger] self.lists()[k][p] < self.slots().len()
        &&& forall|i: int, l: Lit| #[trigger]
            holds(self.slots(), i, l) ==> self.lists()[l.code as int].contains(i as usize)
    }

    /// The store holds together: its clauses range over its variables, its lists name them, and its
    /// counter counts them.
    pub closed spec fn kept(&self) -> bool {
        &&& self.num_vars <= Var::MAX_INDEX + 1
        &&& slots_below(self.slots(), self.nv())
        &&& self.live == live_count(self.slots())
        &&& self.listed()
    }

    /// No clause has a literal twice, and so no list names a clause twice.
    pub closed spec fn listed_once(&self) -> bool {
        &&& slots_distinct(self.slots())
        &&& forall|k: int| 0 <= k < self.lists().len() ==> ascending_slots(#[trigger] self.lists()[k])
    }

    /// The clauses are in normal form, and the lists name none of them twice.
    pub closed spec fn in_order(&self) -> bool {
        slots_normal(self.slots(), self.nv()) && self.listed_once()
    }

    /// Clauses in normal form have no literal twice.
    pub proof fn lemma_in_order(&self)
        ensures
            self.in_order() ==> self.listed_once(),
    {
    }

    /// The store is consistent: it holds together, and its clauses are in normal form.
    pub open spec fn wf(&self) -> bool {
        self.kept() && self.in_order()
    }

    /// What consistency gives to readers.
    pub proof fn lemma_wf(&self)
        requires
            self.wf(),
        ensures
            0 <= self.nv() <= Var::MAX_INDEX + 1,
            slots_normal(self.slots(), self.nv()),
            self.slots().len() <= usize::MAX,
            live_count(self.slots()) <= usize::MAX,
    {
        assert(self.clauses.len() == self.clauses@.len());
    }

    /// Builds a working store from a normalised formula.
    pub fn new(cnf: &Cnf) -> (w: Self)
        requires
            cnf.wf(),
            cnf.nv() <= Var::MAX_INDEX + 1,
        ensures
            w.kept(),
            (forall|i: int| 0 <= i < cnf@.len() ==> (#[trigger] cnf@[i]).no_duplicates()) ==> w.listed_once(),
            normal_formula(cnf@) ==> w.wf(),
            w.nv() == cnf.nv(),
            w.slots() == slots_of(cnf@),
    {
        let num_vars: usize = cnf.num_vars();
        let mut occ: Vec<Vec<usize>> = Vec::new();
        for i in 0..2 * num_vars
            invariant
                num_vars <= Var::MAX_INDEX + 1,
                occ@.len() == i,
                forall|k: int| 0 <= k < i ==> (#[trigger] occ@[k])@.len() == 0,
        {
            occ.push(Vec::new());
        }
        let mut w = Working { clauses: Vec::new(), occ, num_vars, live: 0 };
        proof {
            assert(w.slots() =~= slots_of(cnf@.take(0)));
            assert forall|k: int| 0 <= k < w.lists().len() implies ascending_slots(#[trigger] w.lists()[k]) by {
                assert(w.occ@[k]@.len() == 0);
            }
        }
        let n: usize = cnf.num_clauses();
        for i in 0..n
            invariant
                n == cnf@.len(),
                cnf.wf(),
                w.kept(),
                (forall|k: int| 0 <= k < cnf@.len() ==> (#[trigger] cnf@[k]).no_duplicates()) ==> w.listed_once(),
                normal_formula(cnf@) ==> w.wf(),
                w.nv() == cnf.nv(),
                w.slots() == slots_of(cnf@.take(i as int)),
        {
            let clause = copy_of(cnf.clause(i));
            proof {
                cnf.lemma_wf();
                assert(normal_formula(cnf@) ==> normal_clause(cnf@[i as int]));
                assert(clause_below(cnf@[i as int], cnf.nv()));
            }
            w.add(clause);
            assert(slots_of(cnf@.take(i as int)).push(Some(cnf@[i as int])) =~= slots_of(
                cnf@.take(i + 1),
            ));
        }
        assert(cnf@.take(n as int) =~= cnf@);
        w
    }

    /// Number of variables.
    pub fn num_vars(&self) -> (n: usize)
        ensures
            n == self.nv(),
    {
        self.num_vars
    }

    /// Number of clauses still present.
    pub fn live_clauses(&self) -> (n: usize)
        requires
            self.kept(),
        ensures
            n == live_count(self.slots()),
    {
        self.live
    }

    /// Whether every clause has been removed, which makes the formula satisfiable.
    pub fn is_empty(&self) -> (b: bool)
        requires
            self.kept(),
        ensures
            b == (live_count(self.slots()) == 0),
    {
        self.live == 0
    }

    /// Number of slots, in use or not.
    pub fn num_slots(&self) -> (n: usize)
        ensures
            n == self.slots().len(),
    {
        self.clauses.len()
    }

    /// Adds a clause, returning its slot.
    pub fn add(&mut self, clause: Vec<Lit>) -> (index: usize)
        requires
            old(self).kept(),
            clause_below(clause@, old(self).nv()),
        ensures
            final(self).kept(),
            old(self).listed_once() && clause@.no_duplicates() ==> final(self).listed_once(),
            old(self).in_order() && normal_clause(clause@) ==> final(self).in_order(),
            final(self).nv() == old(self).nv(),
            final(self).slots() == old(self).slots().push(Some(clause@)),
            forall|k: int|
                0 <= k < final(self).lists().len() ==> #[trigger] final(self).lists()[k] == old(self).lists()[k]
                    + copies(index, cnt(clause@, Lit { code: k as u32 })),
            index == old(self).slots().len(),
    {
        let ghost before = *self;
        let ghost lits = clause@;
        let index: usize = self.clauses.len();
        proof {
            assert forall|c: int| 0 <= c < self.occ@.len() implies (#[trigger] self.occ@[c])@ == before.occ@[c]@ + copies(
                index,
                cnt(lits.take(0), Lit { code: c as u32 }),
            ) by {
                assert(self.occ@[c]@ =~= before.occ@[c]@ + copies(index, 0));
            }
        }
        for k in 0..clause.len()
            invariant
                lits == clause@,
                clause_below(lits, before.nv()),
                before.kept(),
                self.clauses == before.clauses,
                self.num_vars == before.num_vars,
                self.live == before.live,
                self.occ@.len() == before.occ@.len(),
                index == before.slots().len(),
                forall|c: int|
                    0 <= c < self.occ@.len() ==> (#[trigger] self.occ@[c])@ == before.occ@[c]@ + copies(
                        index,
                        cnt(lits.take(k as int), Lit { code: c as u32 }),
                    ),
        {
            let code: usize = clause[k].index();
            assert(lits[k as int].vi() < before.nv());
            assert(before.lists().len() == 2 * before.nv());
            let ghost mid = self.occ@;
            self.occ[code].push(index);
            proof {
                let now = self.occ@;
                assert forall|c: int| 0 <= c < now.len() implies (#[trigger] now[c])@ == before.occ@[c]@ + copies(
                    index,
                    cnt(lits.take(k + 1), Lit { code: c as u32 }),
                ) by {
                    let x = Lit { code: c as u32 };
                    lemma_cnt_take(lits, k as int, x);
                    assert(mid[c]@ == before.occ@[c]@ + copies(index, cnt(lits.take(k as int), x)));
                    assert((lits[k as int] == x) == (c == code));
                    if c == code {
                        assert(now[c]@ =~= before.occ@[c]@ + copies(index, cnt(lits.take(k as int), x) + 1));
                    }
                }
            }
        }
        self.clauses.push(Some(clause));
        let total: usize = self.clauses.len();
        proof {
            assert(lits.take(lits.len() as int) =~= lits);
            assert(self.slots() =~= before.slots().push(Some(lits)));
            assert(self.slots().drop_last() =~= before.slots());
            lemma_live_of(before.slots());
        }
        self.live = self.live + 1;
        proof {
            self.lemma_added(&before, lits, index);
        }
        index
    }

    /// A clause was put in a new slot, and the slot in the list of each of its literals.
    proof fn lemma_added(&self, before: &Working, lits: Seq<Lit>, index: usize)
        requires
            before.kept(),
            clause_below(lits, before.nv()),
            self.slots() == before.slots().push(Some(lits)),
            self.num_vars == before.num_vars,
            self.live == live_count(self.slots()),
            self.lists().len() == before.lists().len(),
            index == before.slots().len(),
            forall|k: int|
                0 <= k < self.lists().len() ==> #[trigger] self.lists()[k] == before.lists()[k] + copies(
                    index,
                    cnt(lits, Lit { code: k as u32 }),
                ),
        ensures
            self.kept(),
            before.listed_once() && lits.no_duplicates() ==> self.listed_once(),
            before.in_order() && normal_clause(lits) ==> self.in_order(),
    {
        let s = self.slots();
        let n = before.slots().len() as int;
        assert forall|i: int| #[trigger] is_live(s, i) implies clause_below(s[i]->0, self.nv()) by {
            if i < n {
                assert(is_live(before.slots(), i));
            }
        }
        assert forall|k: int, p: int| 0 <= k < self.lists().len() && 0 <= p < self.lists()[k].len()
            implies #[trigger] self.lists()[k][p] < s.len() by {
            if p < before.lists()[k].len() {
                assert(self.lists()[k][p] == before.lists()[k][p]);
                assert(before.lists()[k][p] < before.slots().len());
            } else {
                assert(self.lists()[k][p] == index);
            }
        }
        assert forall|i: int, l: Lit| #[trigger] holds(s, i, l) implies self.lists()[l.code as int].contains(
            i as usize,
        ) by {
            let k = l.code as int;
            let q = choose|q: int| 0 <= q < s[i]->0.len() && s[i]->0[q] == l;
            assert(is_live(s, i));
            assert(s[i]->0[q].vi() < self.nv());
            assert(self.lists()[k] == before.lists()[k] + copies(index, cnt(lits, Lit { code: k as u32 })));
            if i < n {
                assert(holds(before.slots(), i, l));
                let old_list = before.lists()[k];
                let p = choose|p: int| 0 <= p < old_list.len() && old_list[p] == i as usize;
                assert(self.lists()[k][p] == i as usize);
            } else {
                lemma_cnt_contains(lits, l);
                assert(self.lists()[k][before.lists()[k].len() as int] == index);
            }
        }
        if before.listed_once() && lits.no_duplicates() {
            assert forall|i: int| #[trigger] is_live(s, i) implies s[i]->0.no_duplicates() by {
                if i < n {
                    assert(is_live(before.slots(), i));
                }
            }
            lemma_cnt_no_duplicates(lits);
            assert forall|k: int| 0 <= k < self.lists().len() implies ascending_slots(#[trigger] self.lists()[k]) by {
                let old_list = before.lists()[k];
                let m = cnt(lits, Lit { code: k as u32 });
                assert(m <= 1);
                assert(ascending_slots(old_list));
                assert(self.lists()[k] == old_list + copies(index, m));
                assert forall|i: int, j: int| 0 <= i < j < self.lists()[k].len() implies #[trigger] self.lists()[k][i]
                    < #[trigger] self.lists()[k][j] by {
                    assert(self.lists()[k][i] == old_list[i]);
                    if j < old_list.len() {
                        assert(self.lists()[k][j] == old_list[j]);
                    } else {
                        assert(before.lists()[k][i] < before.slots().len());
                    }
                }
            }
        }
        if before.in_order() && normal_clause(lits) {
            lemma_normal_distinct(lits);
            assert forall|i: int| #[trigger] is_live(s, i) implies normal_clause(s[i]->0) && clause_below(
                s[i]->0,
                self.nv(),
            ) by {
                if i < n {
                    assert(is_live(before.slots(), i));
                }
            }
        }
    }

    /// Removes a clause.
    pub fn remove(&mut self, index: usize)
        requires
            old(self).kept(),
            index < old(self).slots().len(),
        ensures
            final(self).kept(),
            old(self).listed_once() ==> final(self).listed_once(),
            old(self).in_order() ==> final(self).in_order(),
            final(self).lists() == old(self).lists(),
            final(self).nv() == old(self).nv(),
            final(self).slots() == old(self).slots().update(index as int, None),
    {
        let ghost before = *self;
        proof {
            lemma_live_count_remove(before.slots(), index as int);
        }
        if self.clauses[index].is_some() {
            self.live = self.live - 1;
        }
        self.clauses[index] = None;
        proof {
            let s = self.slots();
            assert(s =~= before.slots().update(index as int, None));
            assert forall|i: int| #[trigger] is_live(s, i) implies is_live(before.slots(), i) && s[i]
                == before.slots()[i] by {}
            assert(self.lists() =~= before.lists());
            assert forall|i: int, l: Lit| #[trigger] holds(s, i, l) implies self.lists()[l.code as int].contains(
                i as usize,
            ) by {
                assert(holds(before.slots(), i, l));
            }
        }
    }

    /// Borrows a clause, if it is still present.
    pub fn clause(&self, index: usize) -> (c: Option<&[Lit]>)
        requires
            index < self.slots().len(),
        ensures
            c is Some <==> is_live(self.slots(), index as int),
            c is Some ==> c->0@ == self.slots()[index as int]->0,
    {
        match &self.clauses[index] {
            Some(c) => Some(c.as_slice()),
            None => None,
        }
    }

    /// Whether a slot holds a clause with the literal in it.
    fn slot_has(&self, index: usize, lit: Lit) -> (b: bool)
        requires
            index < self.slots().len(),
        ensures
            b == holds(self.slots(), index as int, lit),
    {
        match self.clause(index) {
            Some(c) => has_lit(c, lit),
            None => false,
        }
    }

    /// The live slots among those that the occurrence list of `lit` names.
    ///
    /// Filters the occurrence list, which may hold stale entries.
    pub fn occurrences(&self, lit: Lit) -> (out: Vec<usize>)
        requires
            self.kept(),
            lit.vi() < self.nv(),
        ensures
            out@ == standing(self.slots(), self.lists()[lit.code as int], lit),
            self.listed_once() ==> out@ == occ_of(self.slots(), lit),
            self.in_order() ==> out@ == occ_of(self.slots(), lit),
    {
        let code: usize = lit.index();
        let ghost list = self.lists()[code as int];
        let mut out: Vec<usize> = Vec::new();
        let n: usize = self.occ[code].len();
        for i in 0..n
            invariant
                self.kept(),
                code == lit.code,
                lit.vi() < self.nv(),
                list == self.lists()[code as int],
                n == list.len(),
                out@ == standing(self.slots(), list.take(i as int), lit),
        {
            let c: usize = self.occ[code][i];
            proof {
                assert(c == list[i as int]);
                assert(self.lists()[code as int][i as int] < self.slots().len());
                assert(list.take(i + 1).drop_last() =~= list.take(i as int));
            }
            if self.slot_has(c, lit) {
                out.push(c);
            }
        }
        proof {
            assert(list.take(n as int) =~= list);
            if self.listed_once() {
                self.lemma_all_standing(lit);
            }
        }
        out
    }

    /// Where no clause has a literal twice, what stands of a literal's list are its occurrences.
    proof fn lemma_all_standing(&self, lit: Lit)
        requires
            self.kept(),
            self.listed_once(),
            lit.vi() < self.nv(),
        ensures
            standing(self.slots(), self.lists()[lit.code as int], lit) == occ_of(self.slots(), lit),
    {
        let list = self.lists()[lit.code as int];
        let out = standing(self.slots(), list, lit);
        assert(self.clauses.len() == self.clauses@.len());
        lemma_occ_of(self.slots(), lit);
        assert(ascending_slots(self.lists()[lit.code as int]));
        lemma_standing(self.slots(), list, lit);
        assert forall|x: usize| #[trigger] out.contains(x) <==> occ_of(self.slots(), lit).contains(x) by {
            if holds(self.slots(), x as int, lit) {
                assert(self.lists()[lit.code as int].contains(x));
            }
        }
        lemma_ascending_slots_unique(out, occ_of(self.slots(), lit));
    }

    /// Number of live clauses containing `lit`.
    ///
    /// Deliberately does not build the list: this runs once per variable per elimination round,
    /// and allocating there would dominate the whole procedure.
    pub fn count(&self, lit: Lit) -> (n: usize)
        requires
            self.kept(),
            lit.vi() < self.nv(),
        ensures
            n == standing(self.slots(), self.lists()[lit.code as int], lit).len(),
            self.listed_once() ==> n == occ_of(self.slots(), lit).len(),
            self.in_order() ==> n == occ_of(self.slots(), lit).len(),
    {
        let code: usize = lit.index();
        let ghost list = self.lists()[code as int];
        let mut count: usize = 0;
        let n: usize = self.occ[code].len();
        for i in 0..n
            invariant
                self.kept(),
                code == lit.code,
                lit.vi() < self.nv(),
                list == self.lists()[code as int],
                n == list.len(),
                count <= i,
                count == standing(self.slots(), list.take(i as int), lit).len(),
        {
            let c: usize = self.occ[code][i];
            proof {
                assert(c == list[i as int]);
                assert(self.lists()[code as int][i as int] < self.slots().len());
                assert(list.take(i + 1).drop_last() =~= list.take(i as int));
            }
            if self.slot_has(c, lit) {
                count = count + 1;
            }
        }
        proof {
            assert(list.take(n as int) =~= list);
            if self.listed_once() {
                self.lemma_all_standing(lit);
            }
        }
        count
    }

    /// Counting, listing and tallying agree, as long as no clause has a literal twice: each gives the
    /// clauses that are left with the literal, and the list names them once each, in order.
    pub proof fn lemma_counts_agree(&self, lit: Lit)
        requires
            self.kept(),
            self.listed_once(),
            lit.vi() < self.nv(),
        ensures
            standing(self.slots(), self.lists()[lit.code as int], lit) == occ_of(self.slots(), lit),
            tally_of(self.slots(), lit) == occ_of(self.slots(), lit).len(),
            ascending_slots(occ_of(self.slots(), lit)),
            forall|x: usize| #[trigger]
                occ_of(self.slots(), lit).contains(x) <==> holds(self.slots(), x as int, lit),
    {
        assert(self.clauses.len() == self.clauses@.len());
        self.lemma_all_standing(lit);
        lemma_tally(self.slots(), lit);
        lemma_occ_of(self.slots(), lit);
    }

    /// Tally of live occurrences for every literal, in one pass over the formula.
    ///
    /// Indexed by [`Lit::index`]. Computing all of them together takes one look at each literal,
    /// where asking per literal looks at each literal once per variable. A tally that would not
    /// fit stops at the largest number that does.
    pub fn literal_counts(&self) -> (counts: Vec<u32>)
        requires
            self.kept(),
        ensures
            counts@.len() == 2 * self.nv(),
            forall|k: int|
                0 <= k < counts@.len() ==> #[trigger] counts@[k] == cut_tally(
                    tally_of(self.slots(), Lit { code: k as u32 }),
                ),
            self.listed_once() ==> forall|k: int|
                0 <= k < counts@.len() ==> #[trigger] counts@[k] == capped_count(
                    self.slots(),
                    Lit { code: k as u32 },
                ),
    {
        let mut counts: Vec<u32> = vec![0; 2 * self.num_vars];
        proof {
            assert(self.slots().take(0).len() == 0);
        }
        for i in 0..self.clauses.len()
            invariant
                self.kept(),
                counts@.len() == 2 * self.nv(),
                forall|k: int|
                    0 <= k < counts@.len() ==> #[trigger] counts@[k] == cut_tally(
                        tally_of(self.slots().take(i as int), Lit { code: k as u32 }),
                    ),
        {
            let ghost s = self.slots();
            let ghost before = counts@;
            let ghost part = s.take(i as int);
            proof {
                assert(s.take(i + 1).drop_last() =~= part);
                assert(s.take(i + 1).last() == s[i as int]);
            }
            if let Some(clause) = self.clause(i) {
                proof {
                    assert(is_live(s, i as int));
                    assert forall|k: int| 0 <= k < counts@.len() implies #[trigger] counts@[k] == cut_tally(
                        tally_of(part, Lit { code: k as u32 }) + cnt(clause@.take(0), Lit { code: k as u32 }),
                    ) by {}
                }
                for j in 0..clause.len()
                    invariant
                        self.kept(),
                        clause_below(clause@, self.nv()),
                        counts@.len() == 2 * self.nv(),
                        forall|k: int|
                            0 <= k < counts@.len() ==> #[trigger] counts@[k] == cut_tally(
                                tally_of(part, Lit { code: k as u32 }) + cnt(
                                    clause@.take(j as int),
                                    Lit { code: k as u32 },
                                ),
                            ),
                {
                    let k: usize = clause[j].index();
                    assert(clause@[j as int].vi() < self.nv());
                    let ghost mid = counts@;
                    if counts[k] < u32::MAX {
                        counts[k] = counts[k] + 1;
                    }
                    proof {
                        assert forall|x: int| 0 <= x < counts@.len() implies #[trigger] counts@[x] == cut_tally(
                            tally_of(part, Lit { code: x as u32 }) + cnt(
                                clause@.take(j + 1),
                                Lit { code: x as u32 },
                            ),
                        ) by {
                            let l = Lit { code: x as u32 };
                            lemma_cnt_take(clause@, j as int, l);
                            assert(mid[x] == cut_tally(tally_of(part, l) + cnt(clause@.take(j as int), l)));
                            assert((clause@[j as int] == l) == (x == k));
                        }
                    }
                }
                proof {
                    assert(clause@.take(clause@.len() as int) =~= clause@);
                }
            }
        }
        proof {
            assert(self.slots().take(self.slots().len() as int) =~= self.slots());
            if self.listed_once() {
                assert forall|k: int| 0 <= k < counts@.len() implies #[trigger] counts@[k] == capped_count(
                    self.slots(),
                    Lit { code: k as u32 },
                ) by {
                    lemma_tally(self.slots(), Lit { code: k as u32 });
                }
            }
        }
        counts
    }

    /// The slots of the clauses still present, in order.
    pub fn live_indices(&self) -> (out: Vec<usize>)
        ensures
            out@ == live_of(self.slots()),
    {
        let mut out: Vec<usize> = Vec::new();
        assert(self.slots().take(0).len() == 0);
        for i in 0..self.clauses.len()
            invariant
                out@ == live_of(self.slots().take(i as int)),
        {
            proof {
                assert(self.slots().take(i + 1).drop_last() =~= self.slots().take(i as int));
            }
            if self.clauses[i].is_some() {
                out.push(i);
            }
        }
        assert(self.slots().take(self.slots().len() as int) =~= self.slots());
        out
    }

    /// Whether the empty clause is present, which makes the formula unsatisfiable.
    pub fn has_empty_clause(&self) -> (b: bool)
        ensures
            b == has_empty(self.slots()),
    {
        for i in 0..self.clauses.len()
            invariant
                forall|k: int| #![trigger is_live(self.slots(), k)]
                    0 <= k < i && is_live(self.slots(), k) ==> self.slots()[k]->0.len() > 0,
        {
            if let Some(clause) = self.clause(i) {
                if clause.len() == 0 {
                    assert(is_live(self.slots(), i as int));
                    return true;
                }
            }
        }
        false
    }

    /// Rebuilds a compact [`Cnf`] from the surviving clauses.
    pub fn to_cnf(&self) -> (f: Cnf)
        requires
            self.kept(),
        ensures
            f.wf(),
            f.nv() == self.nv(),
            f@ == live_clauses(self.slots()),
    {
        let mut out = Cnf::new(self.num_vars);
        assert(self.slots().take(0).len() == 0);
        for i in 0..self.clauses.len()
            invariant
                self.kept(),
                out.wf(),
                out.nv() == self.nv(),
                out@ == live_clauses(self.slots().take(i as int)),
        {
            proof {
                assert(self.slots().take(i + 1).drop_last() =~= self.slots().take(i as int));
            }
            if let Some(clause) = self.clause(i) {
                proof {
                    assert(is_live(self.slots(), i as int));
                    lemma_cover(self.nv(), clause@);
                }
                out.add_clause(clause);
            }
        }
        assert(self.slots().take(self.slots().len() as int) =~= self.slots());
        out
    }

    /// How many entries of the occurrence lists name an empty slot, and how many there are.
    ///
    /// Compaction looks at every literal of every clause that the lists name, so it is worth
    /// doing only once the lists are mostly rubbish.
    pub fn tombstones(&self) -> (r: (u128, u128))
        requires
            self.kept(),
        ensures
            r.0 == dead_entries(self.slots(), self.lists()),
            r.1 == all_entries(self.lists()),
            r.0 <= r.1,
    {
        let mut dead: u128 = 0;
        let mut total: u128 = 0;
        assert(self.lists().take(0).len() == 0);
        for i in 0..self.occ.len()
            invariant
                self.kept(),
                total == all_entries(self.lists().take(i as int)),
                dead == dead_entries(self.slots(), self.lists().take(i as int)),
                dead <= total <= i * 0x1_0000_0000_0000_0000,
                self.occ@.len() <= u32::MAX,
        {
            let n: usize = self.occ[i].len();
            let mut stale: u128 = 0;
            let ghost list = self.lists()[i as int];
            assert(list.take(0).len() == 0);
            for j in 0..n
                invariant
                    self.kept(),
                    i < self.lists().len(),
                    list == self.lists()[i as int],
                    n == list.len(),
                    list == self.occ@[i as int]@,
                    stale == dead_in(self.slots(), list.take(j as int)),
                    stale <= j,
            {
                let c: usize = self.occ[i][j];
                assert(self.lists()[i as int][j as int] < self.slots().len());
                assert(list.take(j + 1).drop_last() =~= list.take(j as int));
                if self.clauses[c].is_none() {
                    stale = stale + 1;
                }
            }
            proof {
                assert(list.take(n as int) =~= list);
                assert(self.lists().take(i + 1).drop_last() =~= self.lists().take(i as int));
            }
            total = total + n as u128;
            dead = dead + stale;
        }
        assert(self.lists().take(self.lists().len() as int) =~= self.lists());
        (dead, total)
    }

    /// Drops the occurrence lists' stale entries, bounding their growth over a long run.
    pub fn compact_occurrences(&mut self)
        requires
            old(self).kept(),
        ensures
            final(self).kept(),
            old(self).listed_once() ==> final(self).listed_once(),
            old(self).in_order() ==> final(self).in_order(),
            final(self).nv() == old(self).nv(),
            final(self).slots() == old(self).slots(),
            final(self).lists().len() == old(self).lists().len(),
            forall|k: int|
                0 <= k < final(self).lists().len() ==> #[trigger] final(self).lists()[k] == standing(
                    old(self).slots(),
                    old(self).lists()[k],
                    Lit { code: k as u32 },
                ),
            old(self).listed_once() ==> forall|k: int|
                0 <= k < final(self).lists().len() ==> #[trigger] final(self).lists()[k] == occ_of(
                    final(self).slots(),
                    Lit { code: k as u32 },
                ),
    {
        let ghost before = *self;
        let n: usize = self.occ.len();
        for i in 0..n
            invariant
                self.kept(),
                before.kept(),
                before.listed_once() ==> self.listed_once(),
                before.in_order() ==> self.in_order(),
                self.slots() == before.slots(),
                self.nv() == before.nv(),
                n == self.lists().len(),
                n == before.lists().len(),
                n == self.occ@.len(),
                forall|k: int|
                    0 <= k < n ==> #[trigger] self.lists()[k] == (if k < i {
                        standing(before.slots(), before.lists()[k], Lit { code: k as u32 })
                    } else {
                        before.lists()[k]
                    }),
        {
            let ghost mid = *self;
            let lit = Lit::from_index(i);
            assert(lit == Lit { code: i as u32 });
            let kept = self.occurrences(lit);
            self.occ[i] = kept;
            proof {
                assert(mid.lists()[i as int] == before.lists()[i as int]);
                self.lemma_relisted(mid, i as int, lit);
            }
        }
        proof {
            if before.listed_once() {
                assert forall|k: int| 0 <= k < self.lists().len() implies #[trigger] self.lists()[k] == occ_of(
                    self.slots(),
                    Lit { code: k as u32 },
                ) by {
                    before.lemma_all_standing(Lit { code: k as u32 });
                }
            }
        }
    }

    /// Putting what stands of a literal's list in its place keeps the store together.
    proof fn lemma_relisted(&self, before: Working, i: int, lit: Lit)
        requires
            before.kept(),
            0 <= i < before.occ@.len(),
            lit.code == i,
            self.clauses == before.clauses,
            self.num_vars == before.num_vars,
            self.live == before.live,
            self.occ@.len() == before.occ@.len(),
            self.occ@[i]@ == standing(before.slots(), before.lists()[i], lit),
            forall|k: int| 0 <= k < self.occ@.len() && k != i ==> (#[trigger] self.occ@[k])@ == before.occ@[k]@,
        ensures
            self.kept(),
            before.listed_once() ==> self.listed_once(),
            before.in_order() ==> self.in_order(),
            self.slots() == before.slots(),
            self.lists() == before.lists().update(i, standing(before.slots(), before.lists()[i], lit)),
    {
        let kept = standing(before.slots(), before.lists()[i], lit);
        assert(self.clauses.len() == self.clauses@.len());
        assert(self.slots() =~= before.slots());
        assert(self.lists() =~= before.lists().update(i, kept));
        lemma_standing(before.slots(), before.lists()[i], lit);
        assert forall|p: int| 0 <= p < kept.len() implies #[trigger] kept[p] < before.slots().len() by {
            assert(kept.contains(kept[p]));
        }
        assert forall|k: int, p: int| 0 <= k < self.lists().len() && 0 <= p < self.lists()[k].len()
            implies #[trigger] self.lists()[k][p] < self.slots().len() by {
            if k != i {
                assert(before.lists()[k][p] < before.slots().len());
            }
        }
        assert forall|j: int, l: Lit| #[trigger] holds(self.slots(), j, l) implies self.lists()[l.code as int].contains(
            j as usize,
        ) by {
            assert(before.lists()[l.code as int].contains(j as usize));
            assert(is_live(before.slots(), j));
            let q = choose|q: int| 0 <= q < before.slots()[j]->0.len() && before.slots()[j]->0[q] == l;
            assert(before.slots()[j]->0[q].vi() < before.nv());
            if l.code == i {
                assert(l == lit);
                assert(kept.contains(j as usize));
            }
        }
        if before.listed_once() {
            assert forall|k: int| 0 <= k < self.lists().len() implies ascending_slots(#[trigger] self.lists()[k]) by {
                assert(ascending_slots(before.lists()[k]));
            }
        }
    }
}

/// A number, as far as it fits a tally.
pub open spec fn cut_tally(n: nat) -> int {
    if n < u32::MAX {
        n as int
    } else {
        u32::MAX as int
    }
}

/// The number of live clauses with the literal, as far as it fits a tally.
pub open spec fn capped_count(s: Slots, l: Lit) -> int {
    if occ_of(s, l).len() < u32::MAX {
        occ_of(s, l).len() as int
    } else {
        u32::MAX as int
    }
}

/// How many of the listed slots are empty.
pub open spec fn dead_in(s: Slots, list: Seq<usize>) -> nat
    decreases list.len(),
{
    if list.len() == 0 {
        0
    } else {
        dead_in(s, list.drop_last()) + if is_live(s, list.last() as int) {
            0nat
        } else {
            1nat
        }
    }
}

/// How many entries of the lists name an empty slot.
pub open spec fn dead_entries(s: Slots, lists: Seq<Seq<usize>>) -> nat
    decreases lists.len(),
{
    if lists.len() == 0 {
        0
    } else {
        dead_entries(s, lists.drop_last()) + dead_in(s, lists.last())
    }
}

/// How many entries the lists have.
pub open spec fn all_entries(lists: Seq<Seq<usize>>) -> nat
    decreases lists.len(),
{
    if lists.len() == 0 {
        0
    } else {
        all_entries(lists.drop_last()) + lists.last().len()
    }
}

/// A copy of a clause.
pub fn copy_of(clause: &[Lit]) -> (out: Vec<Lit>)
    ensures
        out@ == clause@,
{
    let mut out: Vec<Lit> = Vec::with_capacity(clause.len());
    for i in 0..clause.len()
        invariant
            out@ == clause@.take(i as int),
    {
        out.push(clause[i]);
        assert(clause@.take(i + 1) =~= clause@.take(i as int).push(clause@[i as int]));
    }
    assert(clause@.take(clause@.len() as int) =~= clause@);
    out
}

/// Whether the clause contains the literal.
pub fn has_lit(clause: &[Lit], lit: Lit) -> (b: bool)
    ensures
        b == clause@.contains(lit),
{
    for i in 0..clause.len()
        invariant
            forall|k: int| 0 <= k < i ==> clause@[k] != lit,
    {
        if clause[i] == lit {
            return true;
        }
    }
    false
}

} // verus!
