//! Splitting the residual formula into independent subproblems, and naming them canonically.
//!
//! After some variables are assigned, the clauses that remain active often fall into groups that
//! share no variables. Those groups can be solved independently, and the *same* group tends to
//! reappear under many different decision orders, so a group solved once need never be solved
//! again.
//!
//! # The key
//!
//! A component is identified by its unassigned variables and its active clauses, both as sorted
//! index sets. That pair determines the residual formula exactly. A clause is active only if none
//! of its literals is true, so every *assigned* variable occurring in an active clause occurs
//! falsely; the residual of a clause is therefore precisely its literals over the variables of the
//! component.
//!
//! Keys are stored delta-encoded as varints, which for the dense index sets a component
//! produces is close to one byte per element. The variable count is written *first* so that an
//! entry of the memo describes the length of its own satisfying witness.

use vstd::prelude::*;
use vstd::layout::size_of;
use core::ops::Range;
use crate::cache::hash::{hash_key, key_hash};
use crate::count::{cnt, lemma_cnt_contains, lemma_cnt_update};
use crate::lit::{mk_lit, Lit, Var};
use crate::memory::{capacity_of, capped_bytes, room_bytes, room_of};
use crate::search::state::{closed_under, inside, lemma_occ_list_below, lemma_occ_list_complete, occ_list, t_has, t_sat, touches, SearchState};
use crate::semantics::clause_below;
use crate::sorting::{ascending32, lemma_ascending_len, lemma_push_contains, sorted_indices};
use crate::varint::{encode, lemma_prefix_free, write_u32};

verus! {

/// The gaps of an ascending list, each encoded, the first measured from zero.
pub open spec fn deltas(s: Seq<u32>) -> Seq<u8>
    decreases s.len(),
{
    if s.len() == 0 {
        Seq::empty()
    } else {
        let previous = if s.len() == 1 {
            0
        } else {
            s[s.len() - 2] as int
        };
        deltas(s.drop_last()) + encode((s.last() - previous) as nat)
    }
}

/// The canonical key of a component: both lengths, then both lists as gaps.
pub open spec fn key_bytes(vars: Seq<u32>, clauses: Seq<u32>) -> Seq<u8> {
    encode(vars.len()) + encode(clauses.len()) + deltas(vars) + deltas(clauses)
}

proof fn lemma_deltas_injective(s: Seq<u32>, t: Seq<u32>, x: Seq<u8>, y: Seq<u8>)
    requires
        ascending32(s),
        ascending32(t),
        s.len() == t.len(),
        deltas(s) + x == deltas(t) + y,
    ensures
        s == t,
        x == y,
    decreases s.len(),
{
    if s.len() == 0 {
        assert(deltas(s) + x =~= x);
        assert(deltas(t) + y =~= y);
        assert(s =~= t);
    } else {
        let s1 = s.drop_last();
        let t1 = t.drop_last();
        let ps = if s.len() == 1 {
            0
        } else {
            s[s.len() - 2] as int
        };
        let pt = if t.len() == 1 {
            0
        } else {
            t[t.len() - 2] as int
        };
        if s.len() > 1 {
            assert(s[s.len() - 2] < s[s.len() - 1]);
            assert(t[t.len() - 2] < t[t.len() - 1]);
        }
        let ds = encode((s.last() - ps) as nat);
        let dt = encode((t.last() - pt) as nat);
        assert(deltas(s) + x =~= deltas(s1) + (ds + x));
        assert(deltas(t) + y =~= deltas(t1) + (dt + y));
        assert(ascending32(s1)) by {
            assert forall|i: int, j: int| 0 <= i < j < s1.len() implies #[trigger] s1[i] < #[trigger] s1[j] by {
                assert(s[i] < s[j]);
            }
        }
        assert(ascending32(t1)) by {
            assert forall|i: int, j: int| 0 <= i < j < t1.len() implies #[trigger] t1[i] < #[trigger] t1[j] by {
                assert(t[i] < t[j]);
            }
        }
        lemma_deltas_injective(s1, t1, ds + x, dt + y);
        lemma_prefix_free((s.last() - ps) as nat, (t.last() - pt) as nat, x, y);
        if s.len() > 1 {
            assert(s1[s.len() - 2] == t1[s.len() - 2]);
        }
        assert(s =~= s1.push(s.last()));
        assert(t =~= t1.push(t.last()));
    }
}

/// The key determines the component: equal keys name the same variables and the same clauses.
pub proof fn lemma_key_determines_component(
    v1: Seq<u32>,
    c1: Seq<u32>,
    v2: Seq<u32>,
    c2: Seq<u32>,
)
    requires
        ascending32(v1),
        ascending32(c1),
        ascending32(v2),
        ascending32(c2),
        key_bytes(v1, c1) == key_bytes(v2, c2),
    ensures
        v1 == v2,
        c1 == c2,
{
    let r1 = deltas(v1) + deltas(c1);
    let r2 = deltas(v2) + deltas(c2);
    assert(key_bytes(v1, c1) =~= encode(v1.len()) + (encode(c1.len()) + r1));
    assert(key_bytes(v2, c2) =~= encode(v2.len()) + (encode(c2.len()) + r2));
    lemma_prefix_free(v1.len(), v2.len(), encode(c1.len()) + r1, encode(c2.len()) + r2);
    lemma_prefix_free(c1.len(), c2.len(), r1, r2);
    lemma_deltas_injective(v1, v2, deltas(c1), deltas(c2));
    assert(deltas(c1) + Seq::<u8>::empty() =~= deltas(c1));
    assert(deltas(c2) + Seq::<u8>::empty() =~= deltas(c2));
    lemma_deltas_injective(c1, c2, Seq::empty(), Seq::empty());
}

/// A component: its unassigned variables and its active clauses, both ascending.
pub struct Comp {
    /// The variables.
    pub vars: Seq<u32>,
    /// The clauses.
    pub clauses: Seq<u32>,
}

/// The variables of a list, as a set.
pub open spec fn var_set(vars: Seq<u32>) -> Set<int> {
    Set::new(|v: int| 0 <= v <= u32::MAX && vars.contains(v as u32))
}

/// A handle to a component held in a [`ComponentStore`].
#[derive(Copy, Clone, PartialEq, Eq, Debug, Structural)]
pub struct ComponentRef {
    ix: usize,
}

impl ComponentRef {
    /// The underlying index.
    pub closed spec fn at(self) -> int {
        self.ix as int
    }

    /// Indices start at zero.
    pub proof fn lemma_at(self)
        ensures
            0 <= self.at() <= usize::MAX,
    {
    }

    /// Wraps a raw index, as returned in the range from [`ComponentAnalyzer::analyze`].
    pub fn new(index: usize) -> (r: Self)
        ensures
            r.at() == index,
    {
        ComponentRef { ix: index }
    }

    /// The underlying index.
    pub fn index(self) -> (i: usize)
        ensures
            i == self.at(),
    {
        self.ix
    }
}

#[derive(Copy, Clone, Debug)]
struct Entry {
    var_start: usize,
    clause_start: usize,
    key_start: usize,
    hash: u64,
}

/// A stack of components, laid out in flat arenas.
///
/// Search is depth first, so components obey a stack discipline: everything a node pushes is
/// dropped when that node returns. [`ComponentStore::mark`] and [`ComponentStore::truncate`]
/// implement that, which keeps the whole structure to four lists that never shrink their storage
/// and so stop allocating almost immediately.
#[derive(Debug)]
pub struct ComponentStore {
    entries: Vec<Entry>,
    vars: Vec<u32>,
    clauses: Vec<u32>,
    keys: Vec<u8>,
}

/// A saved position in a [`ComponentStore`].
#[derive(Copy, Clone, Debug)]
pub struct StoreMark {
    entries: usize,
}

impl StoreMark {
    /// How many components the store held.
    pub closed spec fn at(self) -> int {
        self.entries as int
    }
}

impl ComponentStore {
    spec fn var_end(&self, k: int) -> int {
        if k + 1 < self.entries@.len() {
            self.entries@[k + 1].var_start as int
        } else {
            self.vars@.len() as int
        }
    }

    spec fn clause_end(&self, k: int) -> int {
        if k + 1 < self.entries@.len() {
            self.entries@[k + 1].clause_start as int
        } else {
            self.clauses@.len() as int
        }
    }

    spec fn key_end(&self, k: int) -> int {
        if k + 1 < self.entries@.len() {
            self.entries@[k + 1].key_start as int
        } else {
            self.keys@.len() as int
        }
    }

    spec fn comp_at(&self, k: int) -> Comp {
        Comp {
            vars: self.vars@.subrange(self.entries@[k].var_start as int, self.var_end(k)),
            clauses: self.clauses@.subrange(self.entries@[k].clause_start as int, self.clause_end(k)),
        }
    }

    spec fn key_at(&self, k: int) -> Seq<u8> {
        self.keys@.subrange(self.entries@[k].key_start as int, self.key_end(k))
    }

    /// The components held, oldest first.
    pub closed spec fn comps(&self) -> Seq<Comp> {
        Seq::new(self.entries@.len(), |k: int| self.comp_at(k))
    }

    spec fn entry_ok(&self, k: int) -> bool {
        &&& self.entries@[k].var_start <= self.var_end(k) <= self.vars@.len()
        &&& self.entries@[k].clause_start <= self.clause_end(k) <= self.clauses@.len()
        &&& self.entries@[k].key_start <= self.key_end(k) <= self.keys@.len()
        &&& self.key_at(k) == key_bytes(self.comp_at(k).vars, self.comp_at(k).clauses)
        &&& self.entries@[k].hash == key_hash(self.key_at(k))
    }

    /// The slices delimit each other, and every entry holds the key of its component.
    pub closed spec fn wf(&self) -> bool {
        forall|k: int| 0 <= k < self.entries@.len() ==> #[trigger] self.entry_ok(k)
    }

    /// Creates an empty store.
    pub fn new() -> (s: Self)
        ensures
            s.wf(),
            s.comps() == Seq::<Comp>::empty(),
    {
        let s = ComponentStore { entries: Vec::new(), vars: Vec::new(), clauses: Vec::new(), keys: Vec::new() };
        assert(s.comps() =~= Seq::<Comp>::empty());
        s
    }

    /// How many components the store holds.
    pub fn len(&self) -> (n: usize)
        ensures
            n == self.comps().len(),
    {
        self.entries.len()
    }

    /// Whether the store holds no component.
    pub fn is_empty(&self) -> (b: bool)
        ensures
            b == (self.comps().len() == 0),
    {
        self.entries.is_empty()
    }

    /// Records the current position so it can be restored later.
    pub fn mark(&self) -> (m: StoreMark)
        ensures
            m.at() == self.comps().len(),
    {
        StoreMark { entries: self.entries.len() }
    }

    /// Discards everything pushed since `mark`.
    pub fn truncate(&mut self, mark: StoreMark)
        requires
            old(self).wf(),
        ensures
            final(self).wf(),
            mark.at() <= old(self).comps().len() ==> final(self).comps() == old(self).comps().take(mark.at()),
            mark.at() > old(self).comps().len() ==> final(self).comps() == old(self).comps(),
    {
        let ghost s0 = *self;
        if mark.entries < self.entries.len() {
            let e = self.entries[mark.entries];
            self.entries.truncate(mark.entries);
            self.vars.truncate(e.var_start);
            self.clauses.truncate(e.clause_start);
            self.keys.truncate(e.key_start);
            proof {
                let n = mark.at();
                assert(s0.entry_ok(n));
                assert forall|k: int| 0 <= k < self.entries@.len() implies self.comp_at(k) == s0.comp_at(k)
                    && #[trigger] self.entry_ok(k) by {
                    lemma_ends(&s0, k, n);
                    assert(s0.entry_ok(k));
                    assert(self.entries@[k] == s0.entries@[k]);
                    if k + 1 < n {
                        assert(self.entries@[k + 1] == s0.entries@[k + 1]);
                    }
                    assert(self.comp_at(k).vars =~= s0.comp_at(k).vars);
                    assert(self.comp_at(k).clauses =~= s0.comp_at(k).clauses);
                    assert(self.key_at(k) =~= s0.key_at(k));
                }
                assert(self.comps() =~= s0.comps().take(n)) by {
                    assert forall|k: int| 0 <= k < n implies self.comps()[k] == s0.comps().take(n)[k] by {
                        assert(self.entry_ok(k));
                    }
                }
            }
        } else {
            assert(self.comps().take(self.comps().len() as int) =~= self.comps());
        }
    }

    /// The unassigned variables of a component, ascending.
    pub fn vars(&self, r: ComponentRef) -> (v: &[u32])
        requires
            self.wf(),
            r.at() < self.comps().len(),
        ensures
            v@ == self.comps()[r.at()].vars,
    {
        let i: usize = r.ix;
        assert(self.entry_ok(i as int));
        let end: usize = if self.entries.len() - i > 1 {
            self.entries[i + 1].var_start
        } else {
            self.vars.len()
        };
        vstd::slice::slice_subrange(self.vars.as_slice(), self.entries[i].var_start, end)
    }

    /// The active clauses of a component, ascending.
    pub fn clauses(&self, r: ComponentRef) -> (c: &[u32])
        requires
            self.wf(),
            r.at() < self.comps().len(),
        ensures
            c@ == self.comps()[r.at()].clauses,
    {
        let i: usize = r.ix;
        assert(self.entry_ok(i as int));
        let end: usize = if self.entries.len() - i > 1 {
            self.entries[i + 1].clause_start
        } else {
            self.clauses.len()
        };
        vstd::slice::slice_subrange(self.clauses.as_slice(), self.entries[i].clause_start, end)
    }

    /// The component's canonical key.
    pub fn key(&self, r: ComponentRef) -> (k: &[u8])
        requires
            self.wf(),
            r.at() < self.comps().len(),
        ensures
            k@ == key_bytes(self.comps()[r.at()].vars, self.comps()[r.at()].clauses),
    {
        let i: usize = r.ix;
        assert(self.entry_ok(i as int));
        let end: usize = if self.entries.len() - i > 1 {
            self.entries[i + 1].key_start
        } else {
            self.keys.len()
        };
        vstd::slice::slice_subrange(self.keys.as_slice(), self.entries[i].key_start, end)
    }

    /// The component key's 64-bit hash.
    pub fn hash(&self, r: ComponentRef) -> (h: u64)
        requires
            self.wf(),
            r.at() < self.comps().len(),
        ensures
            h == key_hash(key_bytes(self.comps()[r.at()].vars, self.comps()[r.at()].clauses)),
    {
        let i: usize = r.ix;
        assert(self.entry_ok(i as int));
        self.entries[i].hash
    }
}

/// Appends the gaps of an ascending list.
fn write_deltas(out: &mut Vec<u8>, list: &[u32])
    requires
        ascending32(list@),
    ensures
        final(out)@ == old(out)@ + deltas(list@),
{
    let ghost before = out@;
    let mut previous: u32 = 0;
    assert(list@.take(0) =~= Seq::<u32>::empty());
    assert(out@ =~= before + deltas(list@.take(0)));
    for i in 0..list.len()
        invariant
            ascending32(list@),
            i == 0 ==> previous == 0,
            i > 0 ==> previous == list@[i - 1],
            out@ == before + deltas(list@.take(i as int)),
    {
        let x: u32 = list[i];
        proof {
            if i > 0 {
                assert(list@[i - 1] < list@[i as int]);
            }
            let s = list@.take(i + 1);
            assert(s.drop_last() =~= list@.take(i as int));
            if i > 0 {
                assert(s[s.len() - 2] == list@[i - 1]);
            }
        }
        let ghost mid = out@;
        write_u32(out, x - previous);
        assert(out@ =~= before + deltas(list@.take(i + 1)));
        previous = x;
    }
    assert(list@.take(list@.len() as int) =~= list@);
}

impl ComponentStore {
    /// Appends a component built from sorted variable and clause lists.
    fn push(&mut self, vars: &[u32], clauses: &[u32]) -> (r: ComponentRef)
        requires
            old(self).wf(),
            ascending32(vars@),
            ascending32(clauses@),
            vars@.len() <= u32::MAX,
            clauses@.len() <= u32::MAX,
        ensures
            final(self).wf(),
            final(self).comps() == old(self).comps().push(Comp { vars: vars@, clauses: clauses@ }),
            r.at() == old(self).comps().len(),
    {
        let ghost s0 = *self;
        let var_start: usize = self.vars.len();
        let clause_start: usize = self.clauses.len();
        let key_start: usize = self.keys.len();
        for i in 0..vars.len()
            invariant
                self.entries == s0.entries,
                self.clauses == s0.clauses,
                self.keys == s0.keys,
                self.vars@ =~= s0.vars@ + vars@.take(i as int),
        {
            self.vars.push(vars[i]);
        }
        for i in 0..clauses.len()
            invariant
                self.entries == s0.entries,
                self.vars@ =~= s0.vars@ + vars@,
                self.keys == s0.keys,
                self.clauses@ =~= s0.clauses@ + clauses@.take(i as int),
        {
            self.clauses.push(clauses[i]);
        }
        assert(clauses@.take(clauses@.len() as int) =~= clauses@);
        write_u32(&mut self.keys, vars.len() as u32);
        write_u32(&mut self.keys, clauses.len() as u32);
        write_deltas(&mut self.keys, vars);
        write_deltas(&mut self.keys, clauses);
        let ghost kb = key_bytes(vars@, clauses@);
        assert(self.keys@ =~= s0.keys@ + kb);
        let hash: u64 = hash_key(vstd::slice::slice_subrange(self.keys.as_slice(), key_start, self.keys.len()));
        self.entries.push(Entry { var_start, clause_start, key_start, hash });
        proof {
            let n = s0.entries@.len() as int;
            assert(self.keys@.subrange(key_start as int, self.keys@.len() as int) =~= kb);
            assert(self.comp_at(n).vars =~= vars@);
            assert(self.comp_at(n).clauses =~= clauses@);
            assert(self.key_at(n) =~= kb);
            assert forall|k: int| 0 <= k < self.entries@.len() implies #[trigger] self.entry_ok(k) && (k < n
                ==> self.comp_at(k) == s0.comp_at(k)) by {
                if k < n {
                    assert(s0.entry_ok(k));
                    assert(self.entries@[k] == s0.entries@[k]);
                    if k + 1 < n {
                        assert(self.entries@[k + 1] == s0.entries@[k + 1]);
                    }
                    assert(self.comp_at(k).vars =~= s0.comp_at(k).vars);
                    assert(self.comp_at(k).clauses =~= s0.comp_at(k).clauses);
                    assert(self.key_at(k) =~= s0.key_at(k));
                }
            }
            assert(self.comps() =~= s0.comps().push(Comp { vars: vars@, clauses: clauses@ })) by {
                assert forall|k: int| 0 <= k < self.comps().len() implies self.comps()[k] == s0.comps().push(
                    Comp { vars: vars@, clauses: clauses@ },
                )[k] by {
                    assert(self.entry_ok(k));
                }
            }
        }
        ComponentRef { ix: self.entries.len() - 1 }
    }
}

impl ComponentStore {
    /// How many variables, clause indices and key bytes the components take.
    pub closed spec fn held(&self) -> (int, int, int) {
        (self.vars@.len() as int, self.clauses@.len() as int, self.keys@.len() as int)
    }

    /// The bytes of one component's entry.
    pub closed spec fn entry_size() -> nat {
        size_of::<Entry>()
    }

    /// The store can hold `n` bytes: some room for the entries, for the variables, for the clause
    /// indices and for the key bytes adds up to it.
    pub open spec fn can_hold(&self, n: int) -> bool {
        exists|entry_room: usize, var_room: usize, clause_room: usize, key_room: usize|
            #![trigger store_total(Self::entry_size(), entry_room, var_room, clause_room, key_room)]
            self.comps().len() <= entry_room && entry_room * Self::entry_size() <= isize::MAX && room_of::<u32>(
                self.held().0 as nat,
                var_room,
            ) && room_of::<u32>(self.held().1 as nat, clause_room) && room_of::<u8>(
                self.held().2 as nat,
                key_room,
            ) && n == store_total(Self::entry_size(), entry_room, var_room, clause_room, key_room)
    }

    /// Bytes held by the store's arenas.
    ///
    /// How much room the lists have beyond what they hold is up to the allocator.
    pub fn memory_bytes(&self) -> (n: usize)
        ensures
            self.can_hold(n as int),
    {
        let entry_room: usize = capacity_of(&self.entries);
        let var_room: usize = capacity_of(&self.vars);
        let clause_room: usize = capacity_of(&self.clauses);
        let key_room: usize = capacity_of(&self.keys);
        let size: usize = core::mem::size_of::<Entry>();
        let n: usize = store_bytes(size, entry_room, var_room, clause_room, key_room);
        proof {
            assert(room_of::<u32>(self.held().0 as nat, var_room));
            assert(room_of::<u32>(self.held().1 as nat, clause_room));
            assert(room_of::<u8>(self.held().2 as nat, key_room));
            assert(room_of::<Entry>(self.entries@.len(), entry_room));
            assert(n == store_total(Self::entry_size(), entry_room, var_room, clause_room, key_room));
        }
        n
    }
}

/// The bytes of a store with the given room, at `size` bytes an entry.
pub open spec fn store_total(size: nat, entry_room: usize, var_room: usize, clause_room: usize, key_room: usize) -> int {
    capped_bytes(entry_room * size + var_room * 4 + clause_room * 4 + key_room)
}

/// The bytes of a store with the given room, at `size` bytes an entry.
pub fn store_bytes(size: usize, entry_room: usize, var_room: usize, clause_room: usize, key_room: usize) -> (n: usize)
    ensures
        n == store_total(size as nat, entry_room, var_room, clause_room, key_room),
{
    room_bytes(entry_room, size).saturating_add(room_bytes(var_room, 4)).saturating_add(
        room_bytes(clause_room, 4),
    ).saturating_add(key_room)
}

/// The slices of an entry end before those of any later entry start.
proof fn lemma_ends(s: &ComponentStore, k: int, n: int)
    requires
        s.wf(),
        0 <= k < n < s.entries@.len(),
    ensures
        s.var_end(k) <= s.entries@[n].var_start,
        s.clause_end(k) <= s.entries@[n].clause_start,
        s.key_end(k) <= s.entries@[n].key_start,
    decreases n - k,
{
    if k + 1 < n {
        assert(s.entry_ok(k + 1));
        lemma_ends(s, k + 1, n);
    }
}

impl Default for ComponentStore {
    /// The empty store.
    fn default() -> (s: Self)
        ensures
            s.wf(),
            s.comps() == Seq::<Comp>::empty(),
    {
        ComponentStore::new()
    }
}

/// The variable is open and occurs in some active clause.
pub open spec fn occurs_active(db: Seq<Seq<Lit>>, t: Seq<Lit>, v: int) -> bool {
    exists|c: int, i: int|
        0 <= c < db.len() && 0 <= i < db[c].len() && !t_sat(t, db[c]) && (#[trigger] db[c][i]).vi() == v
}

/// The literal occurs in some active clause.
pub open spec fn lit_active(db: Seq<Seq<Lit>>, t: Seq<Lit>, l: Lit) -> bool {
    exists|c: int| 0 <= c < db.len() && !t_sat(t, #[trigger] db[c]) && db[c].contains(l)
}

/// `comp` is the connected component of `seed` in the residual formula: the least set of open
/// variables that holds the seed and that no active clause leaves, with the active clauses that
/// touch it.
pub open spec fn is_component(db: Seq<Seq<Lit>>, t: Seq<Lit>, n: int, seed: u32, comp: Comp) -> bool {
    &&& comp_shape(db, t, n, comp)
    &&& comp.vars.contains(seed)
    &&& forall|w: Set<int>| #[trigger]
        closed_under(db, t, w) && w.contains(seed as int) ==> var_set(comp.vars).subset_of(w)
}

/// Both lists are ascending and in range; the variables are open and closed under the active
/// clauses, and the clauses are the active ones that touch them, of which there is at least one.
pub open spec fn comp_shape(db: Seq<Seq<Lit>>, t: Seq<Lit>, n: int, comp: Comp) -> bool {
    &&& ascending32(comp.vars)
    &&& ascending32(comp.clauses)
    &&& forall|k: int|
        0 <= k < comp.vars.len() ==> #[trigger] comp.vars[k] < n && !t_has(t, comp.vars[k] as int)
    &&& closed_under(db, t, var_set(comp.vars))
    &&& forall|c: u32| #[trigger]
        comp.clauses.contains(c) <==> c < db.len() && !t_sat(t, db[c as int]) && touches(
            t,
            db[c as int],
            var_set(comp.vars),
        )
    &&& comp.clauses.len() > 0
}

/// Scratch space for splitting a scope into components.
///
/// Reused across the whole solve. Visited marks are stamps rather than booleans, so a pass costs
/// nothing to start: bumping a counter invalidates every mark from the previous pass.
#[derive(Debug)]
pub struct ComponentAnalyzer {
    var_stamp: Vec<u32>,
    clause_stamp: Vec<u32>,
    stamp: u32,
    /// Which literals occur in the clauses of the pass, used for purity.
    occurs: Vec<bool>,
    /// Literals found pure during the last analysis.
    pure: Vec<Lit>,
}

impl ComponentAnalyzer {
    /// How many variables the scratch space covers.
    pub closed spec fn nv(&self) -> int {
        self.var_stamp@.len() as int
    }

    /// The literals that the last analysis found pure.
    pub closed spec fn pure(&self) -> Seq<Lit> {
        self.pure@
    }

    /// Validity: stamps never run ahead of the counter, and no occurrence mark is left set.
    pub closed spec fn wf(&self) -> bool {
        &&& self.var_stamp@.len() <= Var::MAX_INDEX + 1
        &&& self.occurs@.len() == 2 * self.var_stamp@.len()
        &&& self.stamps_ok()
        &&& forall|k: int| 0 <= k < self.occurs@.len() ==> !#[trigger] self.occurs@[k]
    }

    spec fn stamps_ok(&self) -> bool {
        &&& forall|v: int| 0 <= v < self.var_stamp@.len() ==> #[trigger] self.var_stamp@[v] <= self.stamp
        &&& forall|c: int|
            0 <= c < self.clause_stamp@.len() ==> #[trigger] self.clause_stamp@[c] <= self.stamp
    }

    /// The variables visited in this pass.
    spec fn visited(&self) -> Set<int> {
        Set::new(|v: int| 0 <= v < self.var_stamp@.len() && self.var_stamp@[v] == self.stamp)
    }

    spec fn clause_visited(&self, c: int) -> bool {
        self.clause_stamp@[c] == self.stamp
    }

    /// Allocates scratch space for a formula of the given size.
    pub fn new(num_vars: usize, num_clauses: usize) -> (a: Self)
        requires
            num_vars <= Var::MAX_INDEX + 1,
        ensures
            a.wf(),
            a.nv() == num_vars,
            a.pure() == Seq::<Lit>::empty(),
    {
        ComponentAnalyzer {
            var_stamp: vec![0; num_vars],
            clause_stamp: vec![0; num_clauses],
            stamp: 0,
            occurs: vec![false; 2 * num_vars],
            pure: Vec::new(),
        }
    }

    /// Literals found pure by the most recent analysis.
    ///
    /// A literal is pure when its complement occurs in no active clause. Assigning it cannot
    /// falsify anything, so it can never cause a conflict or a propagation, which is why the
    /// caller may simply assign the whole batch and re-analyse.
    ///
    /// Pure literal elimination preserves satisfiability but *not* the number of models, so this
    /// is sound here and would not be in a model counter.
    pub fn pure_literals(&self) -> (p: &[Lit])
        ensures
            p@ == self.pure(),
    {
        self.pure.as_slice()
    }

    /// Starts a pass: makes room for every clause of the state, advances the stamp, clearing the
    /// marks wholesale on wrap-around, and forgets the pure literals of the last pass.
    fn begin(&mut self, num_clauses: usize)
        requires
            old(self).wf(),
        ensures
            final(self).wf(),
            final(self).nv() == old(self).nv(),
            final(self).pure@ == Seq::<Lit>::empty(),
            final(self).stamp > 0,
            final(self).clause_stamp@.len() >= num_clauses,
            forall|v: int|
                0 <= v < final(self).var_stamp@.len() ==> #[trigger] final(self).var_stamp@[v]
                    != final(self).stamp,
            forall|c: int|
                0 <= c < final(self).clause_stamp@.len() ==> !#[trigger] final(self).clause_visited(c),
    {
        let ghost s0 = *self;
        if self.stamp == u32::MAX {
            let n: usize = self.var_stamp.len();
            let m: usize = self.clause_stamp.len();
            self.var_stamp = vec![0; n];
            self.clause_stamp = vec![0; m];
            self.stamp = 0;
        }
        while self.clause_stamp.len() < num_clauses
            invariant
                self.stamps_ok(),
                self.stamp < u32::MAX,
                self.var_stamp@.len() == s0.var_stamp@.len(),
                self.occurs == s0.occurs,
            decreases num_clauses - self.clause_stamp.len(),
        {
            self.clause_stamp.push(0);
        }
        proof {
            assert forall|v: int| 0 <= v < self.var_stamp@.len() implies #[trigger] self.var_stamp@[v]
                <= self.stamp by {}
        }
        self.stamp = self.stamp + 1;
        self.pure.clear();
    }
}

impl ComponentAnalyzer {
    /// The scratch space fits the state.
    spec fn fits(&self, state: &SearchState) -> bool {
        &&& state.wf()
        &&& state.nv() <= self.var_stamp@.len() <= Var::MAX_INDEX + 1
        &&& self.clause_stamp@.len() >= state.db().len()
        &&& self.occurs@.len() == 2 * self.var_stamp@.len()
        &&& self.stamps_ok()
        &&& self.stamp > 0
    }

    /// Before a component is explored: what was visited is closed, and the visited clauses are
    /// active and lie within it.
    spec fn settled(&self, state: &SearchState) -> bool {
        &&& self.fits(state)
        &&& closed_under(state.db(), state.trail(), self.visited())
        &&& forall|c: int|
            0 <= c < state.db().len() && #[trigger] self.clause_visited(c) ==> !t_sat(
                state.trail(),
                state.db()[c],
            ) && inside(state.trail(), state.db()[c], self.visited())
    }

    /// While the component of `seed` is explored from the settled `o`: what is newly visited is
    /// either waiting on the stack or listed, lies in every closed set that holds the seed, and
    /// holds every open variable of the listed clauses.
    spec fn exploring(
        &self,
        o: &ComponentAnalyzer,
        state: &SearchState,
        seed: u32,
        stack: Seq<u32>,
        vars: Seq<u32>,
        clauses: Seq<u32>,
    ) -> bool {
        let t = state.trail();
        let db = state.db();
        &&& o.settled(state)
        &&& self.fits(state)
        &&& self.stamp == o.stamp
        &&& self.pure == o.pure
        &&& self.clause_stamp@.len() == o.clause_stamp@.len()
        &&& self.var_stamp@.len() == o.var_stamp@.len()
        &&& forall|v: int| o.visited().contains(v) ==> #[trigger] self.visited().contains(v)
        &&& forall|k: int| 0 <= k < stack.len() ==> self.fresh(o, state, #[trigger] stack[k])
        &&& forall|k: int| 0 <= k < vars.len() ==> self.fresh(o, state, #[trigger] vars[k])
        &&& forall|v: int| #[trigger]
            self.visited().contains(v) ==> o.visited().contains(v) || stack.contains(v as u32)
                || vars.contains(v as u32)
        &&& forall|w: Set<int>, v: int|
            closed_under(db, t, w) && w.contains(seed as int) && #[trigger] self.visited().contains(v)
                && !o.visited().contains(v) ==> #[trigger] w.contains(v)
        &&& self.visited().contains(seed as int)
        &&& !o.visited().contains(seed as int)
        &&& forall|k: int| 0 <= k < clauses.len() ==> self.listed(o, state, #[trigger] clauses[k])
        &&& forall|c: int|
            0 <= c < db.len() && #[trigger] self.clause_visited(c) ==> o.clause_visited(c)
                || clauses.contains(c as u32)
        &&& forall|c: int|
            0 <= c < db.len() && o.clause_visited(c) ==> #[trigger] self.clause_visited(c)
    }

    /// A variable reached by the exploration.
    spec fn fresh(&self, o: &ComponentAnalyzer, state: &SearchState, v: u32) -> bool {
        &&& v < state.nv()
        &&& !t_has(state.trail(), v as int)
        &&& self.visited().contains(v as int)
        &&& !o.visited().contains(v as int)
    }

    /// An active clause reached by the exploration, with all its open variables.
    spec fn listed(&self, o: &ComponentAnalyzer, state: &SearchState, c: u32) -> bool {
        let t = state.trail();
        &&& c < state.db().len()
        &&& !t_sat(t, state.db()[c as int])
        &&& self.clause_visited(c as int)
        &&& inside(t, state.db()[c as int], self.visited().difference(o.visited()))
        &&& touches(t, state.db()[c as int], self.visited().difference(o.visited()))
    }

    /// Visiting more variables keeps what is known of the ones already listed.
    proof fn lemma_listed_grows(&self, n: &ComponentAnalyzer, o: &ComponentAnalyzer, state: &SearchState, c: u32)
        requires
            self.listed(o, state, c),
            n.clause_stamp == self.clause_stamp,
            n.stamp == self.stamp,
            forall|v: int| self.visited().contains(v) ==> #[trigger] n.visited().contains(v),
        ensures
            n.listed(o, state, c),
    {
        let t = state.trail();
        let cl = state.db()[c as int];
        let a = self.visited().difference(o.visited());
        let b = n.visited().difference(o.visited());
        assert forall|i: int| 0 <= i < cl.len() implies t_has(t, (#[trigger] cl[i]).vi()) || b.contains(
            cl[i].vi(),
        ) by {
            assert(t_has(t, cl[i].vi()) || a.contains(cl[i].vi()));
        }
        let i = choose|i: int| 0 <= i < cl.len() && !t_has(t, (#[trigger] cl[i]).vi()) && a.contains(cl[i].vi());
        assert(b.contains(cl[i].vi()));
    }

    /// Visits an active clause reached from a fresh variable: its open variables not yet visited go
    /// on the stack, and the clause is listed.
    #[verifier::rlimit(100)]
    fn visit_clause(
        &mut self,
        state: &SearchState,
        c: u32,
        detect_pure: bool,
        stack: &mut Vec<u32>,
        clauses: &mut Vec<u32>,
        Ghost(o): Ghost<&ComponentAnalyzer>,
        Ghost(seed): Ghost<u32>,
        Ghost(vars): Ghost<Seq<u32>>,
        Ghost(via): Ghost<int>,
    )
        requires
            old(self).exploring(o, state, seed, old(stack)@, vars, old(clauses)@),
            c < state.db().len(),
            !t_sat(state.trail(), state.db()[c as int]),
            !old(self).clause_visited(c as int),
            0 <= via < state.db()[c as int].len(),
            old(self).fresh(o, state, state.db()[c as int][via].vi() as u32),
        ensures
            final(self).exploring(o, state, seed, final(stack)@, vars, final(clauses)@),
            final(clauses)@ == old(clauses)@.push(c),
            final(self).clause_visited(c as int),
            forall|d: int|
                0 <= d < state.db().len() && old(self).clause_visited(d) ==> #[trigger] final(self).clause_visited(d),
            forall|v: int|
                old(self).visited().contains(v) ==> #[trigger] final(self).visited().contains(v),
            cnt(final(self).var_stamp@, final(self).stamp) - cnt(old(self).var_stamp@, old(self).stamp)
                == final(stack)@.len() - old(stack)@.len(),
            final(stack)@.len() >= old(stack)@.len(),
            !detect_pure ==> final(self).occurs == old(self).occurs,
            detect_pure ==> forall|k: int|
                0 <= k < final(self).occurs@.len() ==> (#[trigger] final(self).occurs@[k] <==> old(self).occurs@[k] || (state.db()[c as int].contains(Lit { code: k as u32 }) && !t_has(
                    state.trail(),
                    (Lit { code: k as u32 }).vi(),
                ))),
    {
        let ghost s0 = *self;
        let ghost st0 = stack@;
        let ghost cls = clauses@;
        let clause = state.clause(c as usize);
        let ghost t = state.trail();
        let ghost db = state.db();
        let ghost cs = db[c as int];
        assert(clause_below(db[c as int], state.nv()));
        for i in 0..clause.len()
            invariant
                clause@ == cs,
                cs == db[c as int],
                db == state.db(),
                t == state.trail(),
                c < db.len(),
                !t_sat(t, cs),
                clause_below(cs, state.nv()),
                s0.exploring(o, state, seed, st0, vars, cls),
                self.exploring(o, state, seed, stack@, vars, cls),
                !s0.clause_visited(c as int),
                self.clause_stamp == s0.clause_stamp,
                0 <= via < cs.len(),
                s0.fresh(o, state, cs[via].vi() as u32),
                forall|v: int| s0.visited().contains(v) ==> #[trigger] self.visited().contains(v),
                forall|k: int|
                    0 <= k < i ==> t_has(t, (#[trigger] cs[k]).vi()) || self.visited().contains(cs[k].vi()),
                cnt(self.var_stamp@, self.stamp) - cnt(s0.var_stamp@, s0.stamp) == stack@.len() - st0.len(),
                stack@.len() >= st0.len(),
                !detect_pure ==> self.occurs == s0.occurs,
                self.occurs@.len() == s0.occurs@.len(),
                detect_pure ==> forall|k: int|
                    0 <= k < self.occurs@.len() ==> (#[trigger] self.occurs@[k] <==> s0.occurs@[k] || (
                    cs.take(i as int).contains(Lit { code: k as u32 }) && !t_has(
                        t,
                        (Lit { code: k as u32 }).vi(),
                    ))),
        {
            let l = clause[i];
            let w: usize = l.var().index();
            let ghost before = *self;
            let ghost stb = stack@;
            proof {
                assert(cs[i as int].vi() < state.nv());
                state.lemma_vals(l.vi());
                assert(cs.take(i + 1) =~= cs.take(i as int).push(cs[i as int]));
                lemma_push_contains(cs.take(i as int), cs[i as int]);
            }
            if state.value_of_index(w).is_none() {
                if detect_pure {
                    let li: usize = l.index();
                    self.occurs[li] = true;
                }
                if self.var_stamp[w] != self.stamp {
                    self.var_stamp[w] = self.stamp;
                    stack.push(w as u32);
                    proof {
                        lemma_cnt_update(before.var_stamp@, w as int, self.stamp, self.stamp);
                        let vs = self.visited();
                        assert(vs =~= before.visited().insert(w as int));
                        lemma_push_contains(stb, w as u32);
                        // The new variable is not part of an earlier component.
                        assert(!o.visited().contains(w as int));
                        assert forall|x: Set<int>, v: int|
                            closed_under(db, t, x) && x.contains(seed as int)
                                && #[trigger] self.visited().contains(v) && !o.visited().contains(v) implies #[trigger] x.contains(
                            v,
                        ) by {
                            if v == w {
                                let u = cs[via].vi();
                                assert(s0.visited().contains(u));
                                assert(before.visited().contains(u));
                                assert(x.contains(u));
                                assert(touches(t, db[c as int], x));
                                assert(inside(t, db[c as int], x));
                                assert(t_has(t, cs[i as int].vi()) || x.contains(cs[i as int].vi()));
                            }
                        }
                        assert forall|k: int| 0 <= k < stack@.len() implies self.fresh(
                            o,
                            state,
                            #[trigger] stack@[k],
                        ) by {
                            if k < stb.len() {
                                assert(before.fresh(o, state, stb[k]));
                            }
                        }
                        assert forall|k: int| 0 <= k < vars.len() implies self.fresh(o, state, #[trigger] vars[k]) by {
                            assert(before.fresh(o, state, vars[k]));
                        }
                    }
                }
                proof {
                    assert forall|k: int| 0 <= k < cls.len() implies self.listed(o, state, #[trigger] cls[k]) by {
                        before.lemma_listed_grows(self, o, state, cls[k]);
                    }
                    assert forall|v: int| #[trigger] self.visited().contains(v) implies o.visited().contains(v)
                        || stack@.contains(v as u32) || vars.contains(v as u32) by {
                        if v == w && !before.visited().contains(v) {
                            assert(stack@[stack@.len() - 1] == w as u32);
                        } else {
                            assert(before.visited().contains(v));
                            if stb.contains(v as u32) {
                                let k = choose|k: int| 0 <= k < stb.len() && stb[k] == v as u32;
                                assert(stack@[k] == v as u32);
                            }
                        }
                    }
                    assert forall|d: int|
                        0 <= d < db.len() && #[trigger] self.clause_visited(d) implies o.clause_visited(d)
                        || cls.contains(d as u32) by {
                        assert(before.clause_visited(d));
                    }
                    assert forall|d: int| 0 <= d < db.len() && o.clause_visited(d) implies #[trigger] self.clause_visited(d) by {
                        assert(before.clause_visited(d));
                    }
                    assert(self.exploring(o, state, seed, stack@, vars, cls));
                }
            }
        }
        let ghost s1 = *self;
        let cu: usize = c as usize;
        self.clause_stamp[cu] = self.stamp;
        clauses.push(c);
        proof {
            assert(cs.take(cs.len() as int) =~= cs);
            lemma_push_contains(cls, c);
            assert(self.visited() =~= s1.visited());
            assert forall|k: int| 0 <= k < clauses@.len() implies self.listed(o, state, #[trigger] clauses@[k]) by {
                if k < cls.len() {
                    assert(s1.listed(o, state, cls[k]));
                    assert(clauses@[k] == cls[k]);
                } else {
                    let nw = self.visited().difference(o.visited());
                    assert forall|i: int| 0 <= i < cs.len() implies t_has(t, (#[trigger] cs[i]).vi())
                        || nw.contains(cs[i].vi()) by {
                        if !t_has(t, cs[i].vi()) {
                            assert(self.visited().contains(cs[i].vi()));
                            if o.visited().contains(cs[i].vi()) {
                                // Then the whole clause would lie in what was settled before.
                                assert(touches(t, db[c as int], o.visited()));
                                assert(inside(t, db[c as int], o.visited()));
                                assert(t_has(t, cs[via].vi()) || o.visited().contains(cs[via].vi()));
                            }
                        }
                    }
                    assert(s0.visited().contains(cs[via].vi()));
                    assert(self.visited().contains(cs[via].vi()));
                    assert(nw.contains(cs[via].vi()));
                    assert(!t_has(t, cs[via].vi()));
                }
            }
            assert forall|d: int|
                0 <= d < db.len() && #[trigger] self.clause_visited(d) implies o.clause_visited(d)
                || clauses@.contains(d as u32) by {
                if d != c {
                    assert(s1.clause_visited(d));
                }
            }
            assert forall|d: int| 0 <= d < db.len() && o.clause_visited(d) implies #[trigger] self.clause_visited(d) by {
                assert(s1.clause_visited(d));
            }
            assert forall|d: int| 0 <= d < db.len() && s0.clause_visited(d) implies #[trigger] self.clause_visited(d) by {
                assert(s1.clause_visited(d));
            }
            assert forall|k: int| 0 <= k < stack@.len() implies self.fresh(o, state, #[trigger] stack@[k]) by {
                assert(s1.fresh(o, state, stack@[k]));
            }
            assert forall|k: int| 0 <= k < vars.len() implies self.fresh(o, state, #[trigger] vars[k]) by {
                assert(s1.fresh(o, state, vars[k]));
            }
        }
    }
}

impl ComponentAnalyzer {
    /// The literals marked as occurring are the ones marked before and the open ones of the listed
    /// clauses.
    spec fn occurrences_marked(
        &self,
        o: &ComponentAnalyzer,
        state: &SearchState,
        clauses: Seq<u32>,
        detect_pure: bool,
    ) -> bool {
        &&& self.occurs@.len() == o.occurs@.len()
        &&& !detect_pure ==> self.occurs == o.occurs
        &&& detect_pure ==> forall|k: int|
            0 <= k < self.occurs@.len() ==> (#[trigger] self.occurs@[k] <==> o.occurs@[k] || (!t_has(
                state.trail(),
                (Lit { code: k as u32 }).vi(),
            ) && in_clauses(state.db(), clauses, Lit { code: k as u32 })))
    }

    /// Every active clause with the variable has been visited.
    spec fn exhausted(&self, state: &SearchState, v: u32) -> bool {
        forall|c: int, i: int|
            0 <= c < state.db().len() && 0 <= i < state.db()[c].len() && !t_sat(
                state.trail(),
                state.db()[c],
            ) && (#[trigger] state.db()[c][i]).vi() == v ==> self.clause_visited(c)
    }

    /// Visits every active clause that contains `lit`, a literal over a listed variable.
    #[verifier::rlimit(100)]
    fn visit_literal(
        &mut self,
        state: &SearchState,
        lit: Lit,
        detect_pure: bool,
        stack: &mut Vec<u32>,
        clauses: &mut Vec<u32>,
        Ghost(o): Ghost<&ComponentAnalyzer>,
        Ghost(seed): Ghost<u32>,
        Ghost(vars): Ghost<Seq<u32>>,
    )
        requires
            old(self).exploring(o, state, seed, old(stack)@, vars, old(clauses)@),
            old(self).occurrences_marked(o, state, old(clauses)@, detect_pure),
            vars.contains(lit.vi() as u32),
            lit.vi() < state.nv(),
        ensures
            final(self).exploring(o, state, seed, final(stack)@, vars, final(clauses)@),
            final(self).occurrences_marked(o, state, final(clauses)@, detect_pure),
            forall|d: int|
                0 <= d < state.db().len() && old(self).clause_visited(d) ==> #[trigger] final(self).clause_visited(d),
            forall|c: int|
                0 <= c < state.db().len() && !t_sat(state.trail(), #[trigger] state.db()[c])
                    && state.db()[c].contains(lit) ==> final(self).clause_visited(c),
            cnt(final(self).var_stamp@, final(self).stamp) - cnt(old(self).var_stamp@, old(self).stamp)
                == final(stack)@.len() - old(stack)@.len(),
            final(stack)@.len() >= old(stack)@.len(),
    {
        let ghost s0 = *self;
        let ghost st0 = stack@;
        let ghost db = state.db();
        let occ = state.occurrences(lit);
        proof {
            lemma_occ_list_below(db, lit);
        }
        for k in 0..occ.len()
            invariant
                db == state.db(),
                occ@ == occ_list(db, lit),
                vars.contains(lit.vi() as u32),
                lit.vi() < state.nv(),
                forall|j: int|
                    0 <= j < occ@.len() ==> #[trigger] occ@[j] < db.len() && db[occ@[j] as int].contains(lit),
                self.exploring(o, state, seed, stack@, vars, clauses@),
                self.occurrences_marked(o, state, clauses@, detect_pure),
                forall|d: int| 0 <= d < db.len() && s0.clause_visited(d) ==> #[trigger] self.clause_visited(d),
                forall|j: int|
                    0 <= j < k ==> t_sat(state.trail(), db[#[trigger] occ@[j] as int]) || self.clause_visited(
                        occ@[j] as int,
                    ),
                cnt(self.var_stamp@, self.stamp) - cnt(s0.var_stamp@, s0.stamp) == stack@.len() - st0.len(),
                stack@.len() >= st0.len(),
        {
            let c: u32 = occ[k];
            if state.is_active(c as usize) && self.clause_stamp[c as usize] != self.stamp {
                let ghost before = *self;
                let ghost cls = clauses@;
                let ghost via = choose|i: int| 0 <= i < db[c as int].len() && db[c as int][i] == lit;
                proof {
                    assert(db[occ@[k as int] as int].contains(lit));
                    let j = choose|j: int| 0 <= j < vars.len() && vars[j] == lit.vi() as u32;
                    assert(self.fresh(o, state, vars[j]));
                }
                self.visit_clause(
                    state,
                    c,
                    detect_pure,
                    stack,
                    clauses,
                    Ghost(o),
                    Ghost(seed),
                    Ghost(vars),
                    Ghost(via),
                );
                proof {
                    if detect_pure {
                        assert forall|q: int| 0 <= q < self.occurs@.len() implies (#[trigger] self.occurs@[q]
                            <==> o.occurs@[q] || (!t_has(state.trail(), (Lit { code: q as u32 }).vi())
                            && in_clauses(db, clauses@, Lit { code: q as u32 }))) by {
                            let x = Lit { code: q as u32 };
                            assert(before.occurs@[q] <==> o.occurs@[q] || (!t_has(state.trail(), x.vi())
                                && in_clauses(db, cls, x)));
                            if in_clauses(db, cls, x) {
                                let j = choose|j: int|
                                    0 <= j < cls.len() && db[#[trigger] cls[j] as int].contains(x);
                                assert(clauses@[j] == cls[j]);
                            }
                            if db[c as int].contains(x) {
                                assert(clauses@[cls.len() as int] == c);
                            }
                            if in_clauses(db, clauses@, x) {
                                let j = choose|j: int|
                                    0 <= j < clauses@.len() && db[#[trigger] clauses@[j] as int].contains(x);
                                if j < cls.len() {
                                    assert(cls[j] == clauses@[j]);
                                }
                            }
                        }
                    }
                    assert forall|j: int| 0 <= j < k + 1 implies t_sat(
                        state.trail(),
                        db[#[trigger] occ@[j] as int],
                    ) || self.clause_visited(occ@[j] as int) by {
                        if j < k {
                            assert(t_sat(state.trail(), db[occ@[j] as int]) || before.clause_visited(
                                occ@[j] as int,
                            ));
                        }
                    }
                }
            }
        }
        proof {
            assert forall|c: int|
                0 <= c < db.len() && !t_sat(state.trail(), #[trigger] db[c]) && db[c].contains(lit) implies self.clause_visited(
                c,
            ) by {
                lemma_occ_list_complete(db, lit, c);
                let j = choose|j: int| 0 <= j < occ@.len() && occ@[j] == c as u32;
                assert(occ@[j] == c);
            }
        }
    }

    /// Explores the component of `seed`, returning its variables and its active clauses, unsorted.
    #[verifier::rlimit(100)]
    fn explore(&mut self, state: &SearchState, seed: u32, detect_pure: bool) -> (r: (Vec<u32>, Vec<u32>))
        requires
            old(self).settled(state),
            seed < state.nv(),
            !t_has(state.trail(), seed as int),
            !old(self).visited().contains(seed as int),
        ensures
            final(self).exploring(old(self), state, seed, Seq::<u32>::empty(), r.0@, r.1@),
            final(self).occurrences_marked(old(self), state, r.1@, detect_pure),
            r.0@.contains(seed),
            forall|k: int| 0 <= k < r.0@.len() ==> final(self).exhausted(state, #[trigger] r.0@[k]),
    {
        let ghost o = *self;
        let ghost db = state.db();
        let ghost t = state.trail();
        let mut vars: Vec<u32> = Vec::new();
        let mut clauses: Vec<u32> = Vec::new();
        let mut stack: Vec<u32> = Vec::new();
        let su: usize = seed as usize;
        self.var_stamp[su] = self.stamp;
        stack.push(seed);
        proof {
            assert(self.visited() =~= o.visited().insert(seed as int));
            assert(stack@[0] == seed);
            lemma_push_contains(Seq::<u32>::empty(), seed);
            assert forall|c: int| 0 <= c < db.len() && o.clause_visited(c) implies #[trigger] self.clause_visited(c) by {}
            assert forall|c: int|
                0 <= c < db.len() && #[trigger] self.clause_visited(c) implies o.clause_visited(c)
                || clauses@.contains(c as u32) by {
                assert(o.clause_visited(c));
            }
            assert(self.exploring(&o, state, seed, stack@, vars@, clauses@));
            lemma_cnt_contains(self.var_stamp@, self.stamp);
        }
        while stack.len() > 0
            invariant
                db == state.db(),
                t == state.trail(),
                self.exploring(&o, state, seed, stack@, vars@, clauses@),
                self.occurrences_marked(&o, state, clauses@, detect_pure),
                forall|k: int| 0 <= k < vars@.len() ==> self.exhausted(state, #[trigger] vars@[k]),
            decreases self.var_stamp@.len() - cnt(self.var_stamp@, self.stamp), stack@.len(),
        {
            let ghost before = *self;
            let ghost stb = stack@;
            let ghost vb = vars@;
            let popped = stack.pop();
            let v: u32 = match popped {
                Some(v) => v,
                None => 0,
            };
            assert(stb[stb.len() - 1] == v);
            assert(self.fresh(&o, state, stb[stb.len() - 1]));
            vars.push(v);
            proof {
                lemma_push_contains(vb, v);
                assert(stb =~= stack@.push(v));
                lemma_push_contains(stack@, v);
                assert forall|k: int| 0 <= k < stack@.len() implies self.fresh(&o, state, #[trigger] stack@[k]) by {
                    assert(stack@[k] == stb[k]);
                }
                assert forall|k: int| 0 <= k < vars@.len() implies self.fresh(&o, state, #[trigger] vars@[k]) by {
                    if k < vb.len() {
                        assert(vars@[k] == vb[k]);
                    }
                }
                assert(self.exploring(&o, state, seed, stack@, vars@, clauses@));
                assert(vars@[vb.len() as int] == v);
            }
            let var = Var::from_index(v as usize);
            let pos = var.positive();
            let neg = var.negative();
            self.visit_literal(
                state,
                pos,
                detect_pure,
                &mut stack,
                &mut clauses,
                Ghost(&o),
                Ghost(seed),
                Ghost(vars@),
            );
            let ghost mid = *self;
            self.visit_literal(
                state,
                neg,
                detect_pure,
                &mut stack,
                &mut clauses,
                Ghost(&o),
                Ghost(seed),
                Ghost(vars@),
            );
            proof {
                assert forall|k: int| 0 <= k < vars@.len() implies self.exhausted(state, #[trigger] vars@[k]) by {
                    assert forall|c: int, i: int|
                        0 <= c < db.len() && 0 <= i < db[c].len() && !t_sat(t, db[c]) && (
                        #[trigger] db[c][i]).vi() == vars@[k] implies self.clause_visited(c) by {
                        if k < vb.len() {
                            assert(before.exhausted(state, vb[k]));
                            assert(before.clause_visited(c));
                            assert(mid.clause_visited(c));
                        } else {
                            let x = db[c][i];
                            crate::lit::lemma_mk_lit(x);
                            assert(db[c].contains(x));
                            if x.pos() {
                                assert(x == pos);
                                assert(mid.clause_visited(c));
                            } else {
                                assert(x == neg);
                            }
                        }
                    }
                }
                lemma_cnt_contains(self.var_stamp@, self.stamp);
            }
        }
        proof {
            assert(stack@ =~= Seq::<u32>::empty());
            assert(self.visited().contains(seed as int));
        }
        (vars, clauses)
    }
}

/// Some clause of the list contains the literal.
pub open spec fn in_clauses(db: Seq<Seq<Lit>>, clauses: Seq<u32>, l: Lit) -> bool {
    exists|j: int| 0 <= j < clauses.len() && db[#[trigger] clauses[j] as int].contains(l)
}

/// The literals over `vars` that are marked while their complements are not, in order.
spec fn marked_pure(occurs: Seq<bool>, vars: Seq<u32>) -> Seq<Lit>
    decreases vars.len(),
{
    if vars.len() == 0 {
        Seq::empty()
    } else {
        let p = marked_pure(occurs, vars.drop_last());
        let pos = mk_lit(vars.last() as int, true);
        let neg = mk_lit(vars.last() as int, false);
        if occurs[pos.code as int] && !occurs[neg.code as int] {
            p.push(pos)
        } else if occurs[neg.code as int] && !occurs[pos.code as int] {
            p.push(neg)
        } else {
            p
        }
    }
}

/// The pure literals over `vars`, in order: each occurs in an active clause, and its complement
/// does not.
pub open spec fn pure_over(db: Seq<Seq<Lit>>, t: Seq<Lit>, vars: Seq<u32>) -> Seq<Lit>
    decreases vars.len(),
{
    if vars.len() == 0 {
        Seq::empty()
    } else {
        let p = pure_over(db, t, vars.drop_last());
        let pos = mk_lit(vars.last() as int, true);
        let neg = mk_lit(vars.last() as int, false);
        if lit_active(db, t, pos) && !lit_active(db, t, neg) {
            p.push(pos)
        } else if lit_active(db, t, neg) && !lit_active(db, t, pos) {
            p.push(neg)
        } else {
            p
        }
    }
}

/// The pure literals of the components, component by component, in the order of their variables.
pub open spec fn pure_list(db: Seq<Seq<Lit>>, t: Seq<Lit>, comps: Seq<Comp>) -> Seq<Lit>
    decreases comps.len(),
{
    if comps.len() == 0 {
        Seq::empty()
    } else {
        pure_list(db, t, comps.drop_last()) + pure_over(db, t, comps.last().vars)
    }
}

/// Where no literal is pure, an active literal has an active complement.
pub proof fn lemma_none_pure(db: Seq<Seq<Lit>>, t: Seq<Lit>, comps: Seq<Comp>, j: int, k: int)
    requires
        pure_list(db, t, comps).len() == 0,
        0 <= j < comps.len(),
        0 <= k < comps[j].vars.len(),
    ensures
        lit_active(db, t, mk_lit(comps[j].vars[k] as int, true)) == lit_active(
            db,
            t,
            mk_lit(comps[j].vars[k] as int, false),
        ),
    decreases comps.len(),
{
    if j < comps.len() - 1 {
        lemma_none_pure(db, t, comps.drop_last(), j, k);
    } else {
        lemma_none_pure_over(db, t, comps.last().vars, k);
    }
}

proof fn lemma_none_pure_over(db: Seq<Seq<Lit>>, t: Seq<Lit>, vars: Seq<u32>, k: int)
    requires
        pure_over(db, t, vars).len() == 0,
        0 <= k < vars.len(),
    ensures
        lit_active(db, t, mk_lit(vars[k] as int, true)) == lit_active(db, t, mk_lit(vars[k] as int, false)),
    decreases vars.len(),
{
    if k < vars.len() - 1 {
        lemma_none_pure_over(db, t, vars.drop_last(), k);
    }
}

/// Marks that tell which literals are active tell which are pure.
proof fn lemma_marked_pure(db: Seq<Seq<Lit>>, t: Seq<Lit>, occurs: Seq<bool>, vars: Seq<u32>)
    requires
        forall|k: int| 0 <= k < vars.len() ==> #[trigger] vars[k] <= Var::MAX_INDEX,
        forall|l: Lit|
            vars.contains(l.vi() as u32) ==> #[trigger] occurs[l.code as int] == lit_active(db, t, l),
    ensures
        marked_pure(occurs, vars) == pure_over(db, t, vars),
    decreases vars.len(),
{
    if vars.len() > 0 {
        let p = vars.drop_last();
        let v = vars.last();
        assert(vars[vars.len() - 1] == v);
        assert forall|k: int| 0 <= k < p.len() implies #[trigger] p[k] <= Var::MAX_INDEX by {
            assert(p[k] == vars[k]);
        }
        assert forall|l: Lit| p.contains(l.vi() as u32) implies #[trigger] occurs[l.code as int] == lit_active(
            db,
            t,
            l,
        ) by {
            let k = choose|k: int| 0 <= k < p.len() && p[k] == l.vi() as u32;
            assert(vars[k] == l.vi() as u32);
        }
        lemma_marked_pure(db, t, occurs, p);
        let pos = mk_lit(v as int, true);
        let neg = mk_lit(v as int, false);
        assert(pos.vi() == v && neg.vi() == v);
        assert(vars.contains(v));
        assert(occurs[pos.code as int] == lit_active(db, t, pos));
        assert(occurs[neg.code as int] == lit_active(db, t, neg));
    }
}

impl ComponentAnalyzer {
    /// Lists the literals over `vars` that are marked while their complements are not, and clears
    /// the marks over `vars`.
    #[verifier::rlimit(100)]
    fn collect_pure(&mut self, vars: &Vec<u32>)
        requires
            old(self).occurs@.len() == 2 * old(self).var_stamp@.len(),
            old(self).var_stamp@.len() <= Var::MAX_INDEX + 1,
            forall|k: int| 0 <= k < vars@.len() ==> #[trigger] vars@[k] < old(self).var_stamp@.len(),
            ascending32(vars@),
        ensures
            final(self).var_stamp == old(self).var_stamp,
            final(self).clause_stamp == old(self).clause_stamp,
            final(self).stamp == old(self).stamp,
            final(self).occurs@.len() == old(self).occurs@.len(),
            forall|k: int|
                0 <= k < final(self).occurs@.len() ==> #[trigger] final(self).occurs@[k] == (old(self).occurs@[k]
                    && !vars@.contains((Lit { code: k as u32 }).vi() as u32)),
            forall|l: Lit| #[trigger]
                final(self).pure@.contains(l) <==> old(self).pure@.contains(l) || (vars@.contains(
                    l.vi() as u32,
                ) && old(self).occurs@[l.code as int] && !old(self).occurs@[l.neg().code as int]),
            final(self).pure@ == old(self).pure@ + marked_pure(old(self).occurs@, vars@),
    {
        let ghost s0 = *self;
        assert(vars@.take(0).len() == 0);
        assert(s0.pure@ + marked_pure(s0.occurs@, vars@.take(0)) =~= s0.pure@);
        proof {
            assert forall|l: Lit| #[trigger] self.pure@.contains(l) <==> s0.pure@.contains(l) || (
            vars@.take(0).contains(l.vi() as u32) && s0.occurs@[l.code as int]
                && !s0.occurs@[l.neg().code as int]) by {}
        }
        for i in 0..vars.len()
            invariant
                s0.occurs@.len() == 2 * s0.var_stamp@.len(),
                s0.var_stamp@.len() <= Var::MAX_INDEX + 1,
                ascending32(vars@),
                forall|k: int| 0 <= k < vars@.len() ==> #[trigger] vars@[k] < s0.var_stamp@.len(),
                self.var_stamp == s0.var_stamp,
                self.clause_stamp == s0.clause_stamp,
                self.stamp == s0.stamp,
                self.occurs@.len() == s0.occurs@.len(),
                forall|k: int|
                    0 <= k < self.occurs@.len() ==> #[trigger] self.occurs@[k] == (s0.occurs@[k]
                        && !vars@.take(i as int).contains((Lit { code: k as u32 }).vi() as u32)),
                forall|l: Lit| #[trigger]
                    self.pure@.contains(l) <==> s0.pure@.contains(l) || (vars@.take(i as int).contains(
                        l.vi() as u32,
                    ) && s0.occurs@[l.code as int] && !s0.occurs@[l.neg().code as int]),
                self.pure@ == s0.pure@ + marked_pure(s0.occurs@, vars@.take(i as int)),
        {
            let v: u32 = vars[i];
            let ghost pb = self.pure@;
            let ghost ob = self.occurs@;
            let var = Var::from_index(v as usize);
            let pi: usize = var.positive().index();
            let ni: usize = var.negative().index();
            proof {
                assert(vars@.take(i + 1) =~= vars@.take(i as int).push(v));
                lemma_push_contains(vars@.take(i as int), v);
                assert(!vars@.take(i as int).contains(v)) by {
                    if vars@.take(i as int).contains(v) {
                        let q = choose|q: int| 0 <= q < i && vars@.take(i as int)[q] == v;
                        assert(vars@[q] < vars@[i as int]);
                    }
                }
                assert((Lit { code: pi as u32 }).vi() == v);
                assert((Lit { code: ni as u32 }).vi() == v);
                lemma_push_contains(pb, mk_lit(v as int, true));
                lemma_push_contains(pb, mk_lit(v as int, false));
            }
            let pos = self.occurs[pi];
            let neg = self.occurs[ni];
            if pos && !neg {
                self.pure.push(var.positive());
            } else if neg && !pos {
                self.pure.push(var.negative());
            }
            self.occurs[pi] = false;
            self.occurs[ni] = false;
            proof {
                assert(ob[pi as int] == s0.occurs@[pi as int]);
                assert(ob[ni as int] == s0.occurs@[ni as int]);
                assert(vars@.take(i + 1).drop_last() =~= vars@.take(i as int));
                assert(vars@.take(i + 1).last() == v);
                assert(self.pure@ =~= s0.pure@ + marked_pure(s0.occurs@, vars@.take(i + 1)));
                assert forall|l: Lit| #[trigger] self.pure@.contains(l) <==> s0.pure@.contains(l) || (
                vars@.take(i + 1).contains(l.vi() as u32) && s0.occurs@[l.code as int]
                    && !s0.occurs@[l.neg().code as int]) by {
                    crate::lit::lemma_mk_lit(l);
                    assert(pb.contains(l) <==> s0.pure@.contains(l) || (vars@.take(i as int).contains(
                        l.vi() as u32,
                    ) && s0.occurs@[l.code as int] && !s0.occurs@[l.neg().code as int]));
                    if l.vi() == v {
                        assert(l == mk_lit(v as int, true) || l == mk_lit(v as int, false));
                        assert(l.code == pi || l.code == ni);
                        assert(ob[pi as int] == s0.occurs@[pi as int]);
                        assert(ob[ni as int] == s0.occurs@[ni as int]);
                    }
                }
            }
        }
        assert(vars@.take(vars@.len() as int) =~= vars@);
    }

    /// What an exploration found, once sorted, is the component of its seed.
    proof fn lemma_explored(
        &self,
        o: &ComponentAnalyzer,
        state: &SearchState,
        seed: u32,
        uv: Seq<u32>,
        uc: Seq<u32>,
        comp: Comp,
    )
        requires
            self.exploring(o, state, seed, Seq::<u32>::empty(), uv, uc),
            uv.contains(seed),
            forall|k: int| 0 <= k < uv.len() ==> self.exhausted(state, #[trigger] uv[k]),
            ascending32(comp.vars),
            ascending32(comp.clauses),
            forall|x: u32| #[trigger] comp.vars.contains(x) <==> uv.contains(x),
            forall|x: u32| #[trigger] comp.clauses.contains(x) <==> uc.contains(x),
        ensures
            self.settled(state),
            comp.clauses.len() > 0 ==> is_component(state.db(), state.trail(), state.nv(), seed, comp),
            comp.clauses.len() == 0 ==> forall|k: int|
                0 <= k < uv.len() ==> !occurs_active(state.db(), state.trail(), #[trigger] uv[k] as int),
            forall|l: Lit|
                #![trigger in_clauses(state.db(), uc, l)]
                comp.vars.contains(l.vi() as u32) ==> (in_clauses(state.db(), uc, l) <==> lit_active(
                    state.db(),
                    state.trail(),
                    l,
                )),
            forall|l: Lit| #[trigger]
                in_clauses(state.db(), uc, l) && !t_has(state.trail(), l.vi()) ==> comp.vars.contains(
                    l.vi() as u32,
                ),
    {
        let t = state.trail();
        let db = state.db();
        let nw = self.visited().difference(o.visited());
        let vs = var_set(comp.vars);
        assert forall|v: int| #[trigger] nw.contains(v) <==> vs.contains(v) by {
            if nw.contains(v) {
                assert(self.visited().contains(v));
                assert(uv.contains(v as u32));
                assert(comp.vars.contains(v as u32));
            }
            if vs.contains(v) {
                assert(uv.contains(v as u32));
                let k = choose|k: int| 0 <= k < uv.len() && uv[k] == v as u32;
                assert(self.fresh(o, state, uv[k]));
            }
        }
        assert(nw =~= vs);
        // Every active clause with a new variable is listed.
        assert forall|c: int, i: int|
            0 <= c < db.len() && 0 <= i < db[c].len() && !t_sat(t, db[c]) && nw.contains(
                (#[trigger] db[c][i]).vi(),
            ) implies uc.contains(c as u32) by {
            let v = db[c][i].vi();
            assert(self.visited().contains(v));
            assert(uv.contains(v as u32));
            let k = choose|k: int| 0 <= k < uv.len() && uv[k] == v as u32;
            assert(self.exhausted(state, uv[k]));
            assert(self.fresh(o, state, uv[k]));
            assert(self.clause_visited(c));
            if o.clause_visited(c) {
                assert(inside(t, db[c], o.visited()));
                assert(t_has(t, db[c][i].vi()) || o.visited().contains(db[c][i].vi()));
            }
        }
        assert forall|c: int| 0 <= c < db.len() && !t_sat(t, #[trigger] db[c]) && touches(t, db[c], vs) implies uc.contains(
            c as u32,
        ) && inside(t, db[c], vs) by {
            let i = choose|i: int|
                0 <= i < db[c].len() && !t_has(t, (#[trigger] db[c][i]).vi()) && vs.contains(db[c][i].vi());
            assert(nw.contains(db[c][i].vi()));
            assert(uc.contains(c as u32));
            let k = choose|k: int| 0 <= k < uc.len() && uc[k] == c as u32;
            assert(self.listed(o, state, uc[k]));
        }
        assert(closed_under(db, t, vs));
        assert forall|c: u32| #[trigger] comp.clauses.contains(c) <==> c < db.len() && !t_sat(t, db[c as int])
            && touches(t, db[c as int], vs) by {
            if comp.clauses.contains(c) {
                assert(uc.contains(c));
                let k = choose|k: int| 0 <= k < uc.len() && uc[k] == c;
                assert(self.listed(o, state, uc[k]));
            }
            if c < db.len() && !t_sat(t, db[c as int]) && touches(t, db[c as int], vs) {
                assert(uc.contains(c));
            }
        }
        assert forall|k: int| 0 <= k < comp.vars.len() implies #[trigger] comp.vars[k] < state.nv() && !t_has(
            t,
            comp.vars[k] as int,
        ) by {
            assert(comp.vars.contains(comp.vars[k]));
            assert(uv.contains(comp.vars[k]));
            let j = choose|j: int| 0 <= j < uv.len() && uv[j] == comp.vars[k];
            assert(self.fresh(o, state, uv[j]));
        }
        assert forall|w: Set<int>| #[trigger] closed_under(db, t, w) && w.contains(seed as int) implies vs.subset_of(w) by {
            assert forall|v: int| vs.contains(v) implies w.contains(v) by {
                assert(nw.contains(v));
                assert(self.visited().contains(v));
            }
        }
        assert(closed_under(db, t, self.visited())) by {
            assert forall|c: int|
                0 <= c < db.len() && !t_sat(t, #[trigger] db[c]) && touches(t, db[c], self.visited()) implies inside(
                t,
                db[c],
                self.visited(),
            ) by {
                let i = choose|i: int|
                    0 <= i < db[c].len() && !t_has(t, (#[trigger] db[c][i]).vi()) && self.visited().contains(
                        db[c][i].vi(),
                    );
                if o.visited().contains(db[c][i].vi()) {
                    assert(touches(t, db[c], o.visited()));
                    assert(inside(t, db[c], o.visited()));
                    assert forall|j: int| 0 <= j < db[c].len() implies t_has(t, (#[trigger] db[c][j]).vi())
                        || self.visited().contains(db[c][j].vi()) by {
                        assert(t_has(t, db[c][j].vi()) || o.visited().contains(db[c][j].vi()));
                    }
                } else {
                    assert(nw.contains(db[c][i].vi()));
                    assert(touches(t, db[c], vs));
                    assert(inside(t, db[c], vs));
                    assert forall|j: int| 0 <= j < db[c].len() implies t_has(t, (#[trigger] db[c][j]).vi())
                        || self.visited().contains(db[c][j].vi()) by {
                        assert(t_has(t, db[c][j].vi()) || vs.contains(db[c][j].vi()));
                    }
                }
            }
        }
        assert forall|c: int| 0 <= c < db.len() && #[trigger] self.clause_visited(c) implies !t_sat(t, db[c])
            && inside(t, db[c], self.visited()) by {
            if o.clause_visited(c) {
                assert(inside(t, db[c], o.visited()));
                assert forall|j: int| 0 <= j < db[c].len() implies t_has(t, (#[trigger] db[c][j]).vi())
                    || self.visited().contains(db[c][j].vi()) by {
                    assert(t_has(t, db[c][j].vi()) || o.visited().contains(db[c][j].vi()));
                }
            } else {
                assert(uc.contains(c as u32));
                let k = choose|k: int| 0 <= k < uc.len() && uc[k] == c as u32;
                assert(self.listed(o, state, uc[k]));
                assert(inside(t, db[c], nw));
                assert forall|j: int| 0 <= j < db[c].len() implies t_has(t, (#[trigger] db[c][j]).vi())
                    || self.visited().contains(db[c][j].vi()) by {
                    assert(t_has(t, db[c][j].vi()) || nw.contains(db[c][j].vi()));
                }
            }
        }
        if comp.clauses.len() == 0 {
            assert forall|k: int| 0 <= k < uv.len() implies !occurs_active(db, t, #[trigger] uv[k] as int) by {
                assert(self.fresh(o, state, uv[k]));
                if occurs_active(db, t, uv[k] as int) {
                    let (c, i) = choose|c: int, i: int|
                        0 <= c < db.len() && 0 <= i < db[c].len() && !t_sat(t, db[c]) && (
                        #[trigger] db[c][i]).vi() == uv[k] as int;
                    assert(nw.contains(db[c][i].vi()));
                    assert(uc.contains(c as u32));
                    assert(comp.clauses.contains(c as u32));
                }
            }
        }
        assert forall|l: Lit|
            #![trigger in_clauses(state.db(), uc, l)]
            comp.vars.contains(l.vi() as u32) implies (in_clauses(db, uc, l) <==> lit_active(db, t, l)) by {
            if in_clauses(db, uc, l) {
                let j = choose|j: int| 0 <= j < uc.len() && db[#[trigger] uc[j] as int].contains(l);
                assert(self.listed(o, state, uc[j]));
                assert(!t_sat(t, db[uc[j] as int]));
            }
            if lit_active(db, t, l) {
                let c = choose|c: int| 0 <= c < db.len() && !t_sat(t, #[trigger] db[c]) && db[c].contains(l);
                let i = choose|i: int| 0 <= i < db[c].len() && db[c][i] == l;
                assert(clause_below(db[c], state.nv()));
                assert(db[c][i].vi() < state.nv());
                assert(vs.contains(db[c][i].vi()));
                assert(nw.contains(db[c][i].vi()));
                assert(uc.contains(c as u32));
                let j = choose|j: int| 0 <= j < uc.len() && uc[j] == c as u32;
                assert(db[uc[j] as int].contains(l));
            }
        }
        assert forall|l: Lit| #[trigger] in_clauses(db, uc, l) && !t_has(t, l.vi()) implies comp.vars.contains(
            l.vi() as u32,
        ) by {
            let j = choose|j: int| 0 <= j < uc.len() && db[#[trigger] uc[j] as int].contains(l);
            assert(self.listed(o, state, uc[j]));
            let cl = db[uc[j] as int];
            let i = choose|i: int| 0 <= i < cl.len() && cl[i] == l;
            assert(t_has(t, cl[i].vi()) || nw.contains(cl[i].vi()));
            assert(vs.contains(l.vi()));
        }
    }
}

/// Some component of the list has the variable.
pub open spec fn in_comps(comps: Seq<Comp>, v: u32) -> bool {
    exists|j: int| 0 <= j < comps.len() && (#[trigger] comps[j]).vars.contains(v)
}

/// The component is that of some variable of the scope.
pub open spec fn seeded(db: Seq<Seq<Lit>>, t: Seq<Lit>, n: int, scope: Seq<u32>, comp: Comp) -> bool {
    exists|k: int| 0 <= k < scope.len() && is_component(db, t, n, #[trigger] scope[k], comp)
}

/// The first `i` variables of the scope meet the component.
spec fn met_by(scope: Seq<u32>, i: int, comp: Comp) -> bool {
    exists|k: int| 0 <= k < i && comp.vars.contains(#[trigger] scope[k])
}

/// The two components share no variable.
pub open spec fn apart(a: Comp, b: Comp) -> bool {
    forall|v: u32| #[trigger] a.vars.contains(v) ==> !b.vars.contains(v)
}

/// Component `a` was met before component `b` when walking the scope.
pub open spec fn met_before(scope: Seq<u32>, a: Comp, b: Comp) -> bool {
    exists|k: int|
        0 <= k < scope.len() && a.vars.contains(#[trigger] scope[k]) && forall|q: int|
            0 <= q <= k ==> !b.vars.contains(#[trigger] scope[q])
}

/// `comps` is the split of the scope: the connected components of its open variables, each once, in
/// the order in which the scope meets them, without variables that occur in no active clause.
pub open spec fn splits(
    db: Seq<Seq<Lit>>,
    t: Seq<Lit>,
    n: int,
    scope: Seq<u32>,
    comps: Seq<Comp>,
) -> bool {
    &&& forall|j: int| 0 <= j < comps.len() ==> seeded(db, t, n, scope, #[trigger] comps[j])
    &&& forall|i: int, j: int|
        0 <= i < j < comps.len() ==> apart(#[trigger] comps[i], #[trigger] comps[j])
    &&& forall|i: int, j: int|
        0 <= i < j < comps.len() ==> met_before(scope, #[trigger] comps[i], #[trigger] comps[j])
    &&& forall|k: int|
        0 <= k < scope.len() && !t_has(t, #[trigger] scope[k] as int) && occurs_active(
            db,
            t,
            scope[k] as int,
        ) ==> in_comps(comps, scope[k])
}

/// The literals over the variables of the components that occur in active clauses while their
/// complements do not.
pub open spec fn pure_in(db: Seq<Seq<Lit>>, t: Seq<Lit>, comps: Seq<Comp>, l: Lit) -> bool {
    in_comps(comps, l.vi() as u32) && lit_active(db, t, l) && !lit_active(db, t, l.neg())
}

/// The one component of an undivided scope: its open variables that occur in active clauses, and
/// the active clauses that touch it.
pub open spec fn is_whole(
    db: Seq<Seq<Lit>>,
    t: Seq<Lit>,
    scope: Seq<u32>,
    comp: Comp,
) -> bool {
    &&& ascending32(comp.vars)
    &&& ascending32(comp.clauses)
    &&& forall|v: u32| #[trigger]
        comp.vars.contains(v) <==> scope.contains(v) && !t_has(t, v as int) && occurs_active(
            db,
            t,
            v as int,
        )
    &&& forall|c: u32| #[trigger]
        comp.clauses.contains(c) <==> c < db.len() && !t_sat(t, db[c as int]) && touches(
            t,
            db[c as int],
            var_set(scope),
        )
}

impl ComponentAnalyzer {
    /// Splits `scope` into connected components, appending them to `store`.
    ///
    /// `scope` lists candidate variables; assigned ones are skipped. Variables whose clauses are
    /// all satisfied are dropped rather than becoming singleton components: they are free, need
    /// no search, and would only pollute the memo.
    ///
    /// Returns the range of newly created components. When `detect_pure` is set, purity is
    /// computed as a side effect of the same scan; see [`Self::pure_literals`].
    #[verifier::rlimit(100)]
    pub fn analyze(
        &mut self,
        state: &SearchState,
        scope: &[u32],
        store: &mut ComponentStore,
        detect_pure: bool,
    ) -> (r: Range<usize>)
        requires
            old(self).wf(),
            old(self).nv() >= state.nv(),
            state.wf(),
            old(store).wf(),
            forall|k: int| 0 <= k < scope@.len() ==> #[trigger] scope@[k] < state.nv(),
        ensures
            final(self).wf(),
            final(self).nv() == old(self).nv(),
            final(store).wf(),
            r.start == old(store).comps().len(),
            r.end == final(store).comps().len(),
            r.start <= r.end,
            final(store).comps().take(r.start as int) == old(store).comps(),
            splits(
                state.db(),
                state.trail(),
                state.nv(),
                scope@,
                final(store).comps().skip(r.start as int),
            ),
            !detect_pure ==> final(self).pure() == Seq::<Lit>::empty(),
            detect_pure ==> forall|l: Lit| #[trigger]
                final(self).pure().contains(l) <==> pure_in(
                    state.db(),
                    state.trail(),
                    final(store).comps().skip(r.start as int),
                    l,
                ),
            detect_pure ==> final(self).pure() == pure_list(
                state.db(),
                state.trail(),
                final(store).comps().skip(r.start as int),
            ),
    {
        let ghost c0 = store.comps();
        let ghost db = state.db();
        let ghost t = state.trail();
        let ghost n = state.nv();
        let first: usize = store.len();
        self.begin(state.num_clauses());
        let ghost mut new: Seq<Comp> = Seq::empty();
        proof {
            assert(self.visited() =~= Set::<int>::empty());
            assert(self.settled(state)) by {
                assert forall|c: int|
                    0 <= c < db.len() && !t_sat(t, #[trigger] db[c]) && touches(t, db[c], self.visited()) implies inside(
                    t,
                    db[c],
                    self.visited(),
                ) by {}
            }
            assert(store.comps() =~= c0 + new);
        }
        for i in 0..scope.len()
            invariant
                db == state.db(),
                t == state.trail(),
                n == state.nv(),
                state.wf(),
                self.settled(state),
                self.nv() == old(self).nv(),
                forall|k: int| 0 <= k < self.occurs@.len() ==> !#[trigger] self.occurs@[k],
                store.wf(),
                first == c0.len(),
                store.comps() == c0 + new,
                forall|k: int| 0 <= k < scope@.len() ==> #[trigger] scope@[k] < n,
                forall|j: int| 0 <= j < new.len() ==> seeded(db, t, n, scope@, #[trigger] new[j]),
                forall|j: int, v: u32|
                    0 <= j < new.len() && #[trigger] new[j].vars.contains(v) ==> self.visited().contains(
                        v as int,
                    ),
                forall|v: int| #[trigger]
                    self.visited().contains(v) ==> in_comps(new, v as u32) || !occurs_active(db, t, v),
                forall|k: int|
                    0 <= k < i ==> t_has(t, #[trigger] scope@[k] as int) || self.visited().contains(
                        scope@[k] as int,
                    ),
                forall|a: int, b: int|
                    0 <= a < b < new.len() ==> apart(#[trigger] new[a], #[trigger] new[b]),
                forall|a: int, b: int|
                    0 <= a < b < new.len() ==> met_before(scope@, #[trigger] new[a], #[trigger] new[b]),
                forall|j: int| 0 <= j < new.len() ==> met_by(scope@, i as int, #[trigger] new[j]),
                !detect_pure ==> self.pure@ == Seq::<Lit>::empty(),
                detect_pure ==> forall|l: Lit| #[trigger] self.pure@.contains(l) <==> pure_in(db, t, new, l),
                detect_pure ==> self.pure@ == pure_list(db, t, new),
        {
            let seed: u32 = scope[i];
            proof {
                state.lemma_vals(seed as int);
            }
            if state.value_of_index(seed as usize).is_none() && self.var_stamp[seed as usize] != self.stamp {
                let ghost o = *self;
                let ghost prev = new;
                let (uv, uc) = self.explore(state, seed, detect_pure);
                let vars = sorted_indices(&uv);
                let clauses = sorted_indices(&uc);
                let ghost e = *self;
                let ghost comp = Comp { vars: vars@, clauses: clauses@ };
                proof {
                    e.lemma_explored(&o, state, seed, uv@, uc@, comp);
                    assert forall|v: int| #[trigger] e.visited().contains(v) implies o.visited().contains(v)
                        || vars@.contains(v as u32) by {
                        if !o.visited().contains(v) {
                            assert(uv@.contains(v as u32));
                        }
                    }
                    assert forall|v: u32| #[trigger] vars@.contains(v) implies e.visited().contains(v as int)
                        && !o.visited().contains(v as int) && v < n && !t_has(t, v as int) by {
                        assert(uv@.contains(v));
                        let k = choose|k: int| 0 <= k < uv@.len() && uv@[k] == v;
                        assert(e.fresh(&o, state, uv@[k]));
                    }
                    assert forall|k: int| 0 <= k < vars@.len() implies #[trigger] vars@[k] < n by {
                        assert(vars@.contains(vars@[k]));
                    }
                    assert forall|k: int| 0 <= k < clauses@.len() implies #[trigger] clauses@[k] < db.len() by {
                        assert(clauses@.contains(clauses@[k]));
                        assert(uc@.contains(clauses@[k]));
                        let j = choose|j: int| 0 <= j < uc@.len() && uc@[j] == clauses@[k];
                        assert(e.listed(&o, state, uc@[j]));
                    }
                    lemma_ascending_len(vars@, n);
                    lemma_ascending_len(clauses@, db.len() as int);
                    assert(vars@.contains(seed));
                }
                if clauses.len() > 0 {
                    if detect_pure {
                        proof {
                            assert forall|k: int| 0 <= k < self.occurs@.len() && #[trigger] self.occurs@[k] implies vars@.contains(
                                (Lit { code: k as u32 }).vi() as u32,
                            ) by {
                                assert(!o.occurs@[k]);
                            }
                        }
                        self.collect_pure(&vars);
                        proof {
                            assert(self.visited() =~= e.visited());
                            assert forall|c: int| 0 <= c < db.len() implies #[trigger] self.clause_visited(c)
                                == e.clause_visited(c) by {}
                            assert(self.settled(state));
                        }
                    }
                    store.push(&vars, &clauses);
                    proof {
                        new = prev.push(comp);
                        assert(store.comps() =~= c0 + new);
                        lemma_scan_step(db, t, n, scope@, prev, comp, i as int, seed);
                        assert forall|j: int, v: u32|
                            0 <= j < new.len() && #[trigger] new[j].vars.contains(v) implies self.visited().contains(
                            v as int,
                        ) by {
                            if j < prev.len() {
                                assert(prev[j].vars.contains(v));
                                assert(o.visited().contains(v as int));
                            }
                        }
                        assert forall|v: int| #[trigger] self.visited().contains(v) implies in_comps(
                            new,
                            v as u32,
                        ) || !occurs_active(db, t, v) by {
                            assert(e.visited().contains(v));
                            if o.visited().contains(v) {
                                if in_comps(prev, v as u32) {
                                    let j = choose|j: int|
                                        0 <= j < prev.len() && (#[trigger] prev[j]).vars.contains(v as u32);
                                    assert(new[j].vars.contains(v as u32));
                                }
                            } else {
                                assert(new[prev.len() as int].vars.contains(v as u32));
                            }
                        }
                        assert forall|a: int, b: int| 0 <= a < b < new.len() implies apart(
                            #[trigger] new[a],
                            #[trigger] new[b],
                        ) by {
                            if b == prev.len() {
                                assert forall|v: u32| #[trigger] new[a].vars.contains(v) implies !new[b].vars.contains(v) by {
                                    assert(prev[a].vars.contains(v));
                                    assert(o.visited().contains(v as int));
                                }
                            } else {
                                assert(apart(prev[a], prev[b]));
                            }
                        }
                        assert forall|a: int, b: int| 0 <= a < b < new.len() implies met_before(
                            scope@,
                            #[trigger] new[a],
                            #[trigger] new[b],
                        ) by {
                            if b == prev.len() {
                                assert(met_by(scope@, i as int, prev[a]));
                                let k = choose|k: int| 0 <= k < i && prev[a].vars.contains(#[trigger] scope@[k]);
                                assert forall|q: int| 0 <= q <= k implies !comp.vars.contains(#[trigger] scope@[q]) by {
                                    assert(t_has(t, scope@[q] as int) || o.visited().contains(scope@[q] as int));
                                }
                                assert(new[a].vars.contains(scope@[k]));
                            } else {
                                assert(met_before(scope@, prev[a], prev[b]));
                            }
                        }
                        if detect_pure {
                            assert forall|l: Lit| vars@.contains(l.vi() as u32) implies #[trigger] e.occurs@[l.code as int]
                                == lit_active(db, t, l) by {
                                assert(in_clauses(db, uc@, l) <==> lit_active(db, t, l));
                                assert(l.code < e.occurs@.len());
                                assert(Lit { code: l.code } == l);
                            }
                            lemma_marked_pure(db, t, e.occurs@, vars@);
                            assert(new.drop_last() =~= prev);
                            assert(self.pure@ == pure_list(db, t, new));
                            assert forall|l: Lit| #[trigger] self.pure@.contains(l) <==> pure_in(db, t, new, l) by {
                                assert(o.pure@.contains(l) <==> pure_in(db, t, prev, l));
                                lemma_in_comps_push(prev, comp, l.vi() as u32);
                                if vars@.contains(l.vi() as u32) {
                                    assert(!in_comps(prev, l.vi() as u32)) by {
                                        if in_comps(prev, l.vi() as u32) {
                                            let j = choose|j: int|
                                                0 <= j < prev.len() && (#[trigger] prev[j]).vars.contains(
                                                    l.vi() as u32,
                                                );
                                            assert(prev[j].vars.contains(l.vi() as u32));
                                            assert(o.visited().contains(l.vi()));
                                        }
                                    }
                                    let nl = l.neg();
                                    assert(nl.vi() == l.vi());
                                    assert(in_clauses(db, uc@, l) <==> lit_active(db, t, l));
                                    assert(in_clauses(db, uc@, nl) <==> lit_active(db, t, nl));
                                    assert(l.code < e.occurs@.len() && nl.code < e.occurs@.len());
                                    assert(Lit { code: l.code } == l);
                                    assert(Lit { code: nl.code } == nl);
                                    assert(e.occurs@[l.code as int] <==> lit_active(db, t, l));
                                    assert(e.occurs@[nl.code as int] <==> lit_active(db, t, nl));
                                }
                            }
                        }
                    }
                } else {
                    proof {
                        if detect_pure {
                            assert forall|k: int| 0 <= k < self.occurs@.len() implies !#[trigger] self.occurs@[k] by {
                                assert(!o.occurs@[k]);
                                if in_clauses(db, uc@, Lit { code: k as u32 }) {
                                    let j = choose|j: int|
                                        0 <= j < uc@.len() && db[#[trigger] uc@[j] as int].contains(
                                            Lit { code: k as u32 },
                                        );
                                    assert(uc@.contains(uc@[j]));
                                    assert(clauses@.contains(uc@[j]));
                                }
                            }
                        }
                        assert forall|v: int| #[trigger] self.visited().contains(v) implies in_comps(
                            new,
                            v as u32,
                        ) || !occurs_active(db, t, v) by {
                            if !o.visited().contains(v) {
                                assert(uv@.contains(v as u32));
                                let k = choose|k: int| 0 <= k < uv@.len() && uv@[k] == v as u32;
                                assert(!occurs_active(db, t, uv@[k] as int));
                            }
                        }
                    }
                }
                proof {
                    assert forall|j: int| 0 <= j < new.len() implies met_by(scope@, i + 1, #[trigger] new[j]) by {
                        if j < prev.len() {
                            assert(new[j] == prev[j]);
                            assert(met_by(scope@, i as int, prev[j]));
                            let k = choose|k: int| 0 <= k < i && prev[j].vars.contains(#[trigger] scope@[k]);
                            assert(new[j].vars.contains(scope@[k]));
                        }
                    }
                    assert forall|k: int| 0 <= k < i + 1 implies t_has(t, #[trigger] scope@[k] as int)
                        || self.visited().contains(scope@[k] as int) by {
                        if k < i {
                            assert(t_has(t, scope@[k] as int) || o.visited().contains(scope@[k] as int));
                        }
                    }
                }
            }
        }
        let end: usize = store.len();
        proof {
            assert(store.comps().take(first as int) =~= c0);
            assert(new.len() == store.comps().len() - first);
            assert(store.comps().skip(first as int) =~= new);
            assert forall|k: int|
                0 <= k < scope@.len() && !t_has(t, #[trigger] scope@[k] as int) && occurs_active(
                    db,
                    t,
                    scope@[k] as int,
                ) implies in_comps(new, scope@[k]) by {
                assert(self.visited().contains(scope@[k] as int));
            }
        }
        first..end
    }
}

/// A new component extends what is known of the list.
proof fn lemma_scan_step(
    db: Seq<Seq<Lit>>,
    t: Seq<Lit>,
    n: int,
    scope: Seq<u32>,
    prev: Seq<Comp>,
    comp: Comp,
    i: int,
    seed: u32,
)
    requires
        0 <= i < scope.len(),
        scope[i] == seed,
        is_component(db, t, n, seed, comp),
        forall|j: int| 0 <= j < prev.len() ==> seeded(db, t, n, scope, #[trigger] prev[j]),
        forall|j: int| 0 <= j < prev.len() ==> met_by(scope, i, #[trigger] prev[j]),
    ensures
        forall|j: int|
            0 <= j < prev.push(comp).len() ==> seeded(db, t, n, scope, #[trigger] prev.push(comp)[j]),
        forall|j: int|
            0 <= j < prev.push(comp).len() ==> met_by(scope, i + 1, #[trigger] prev.push(comp)[j]),
{
    let new = prev.push(comp);
    assert forall|j: int| 0 <= j < new.len() implies seeded(db, t, n, scope, #[trigger] new[j]) && met_by(
        scope,
        i + 1,
        new[j],
    ) by {
        if j < prev.len() {
            assert(new[j] == prev[j]);
            let k = choose|k: int| 0 <= k < i && prev[j].vars.contains(#[trigger] scope[k]);
            assert(new[j].vars.contains(scope[k]));
        } else {
            assert(is_component(db, t, n, scope[i], new[j]));
            assert(new[j].vars.contains(scope[i]));
        }
    }
}

proof fn lemma_in_comps_push(prev: Seq<Comp>, comp: Comp, v: u32)
    ensures
        in_comps(prev.push(comp), v) <==> in_comps(prev, v) || comp.vars.contains(v),
{
    let new = prev.push(comp);
    if in_comps(prev, v) {
        let j = choose|j: int| 0 <= j < prev.len() && (#[trigger] prev[j]).vars.contains(v);
        assert(new[j].vars.contains(v));
    }
    if comp.vars.contains(v) {
        assert(new[prev.len() as int].vars.contains(v));
    }
    if in_comps(new, v) {
        let j = choose|j: int| 0 <= j < new.len() && (#[trigger] new[j]).vars.contains(v);
        if j < prev.len() {
            assert(prev[j].vars.contains(v));
        }
    }
}

impl ComponentAnalyzer {
    /// While a scope is gathered: the listed clauses are the visited ones.
    spec fn gathering(&self, state: &SearchState, clauses: Seq<u32>, detect_pure: bool) -> bool {
        &&& self.fits(state)
        &&& forall|c: int|
            0 <= c < state.db().len() ==> (#[trigger] self.clause_visited(c) <==> clauses.contains(c as u32))
        &&& forall|k: int|
            0 <= k < clauses.len() ==> #[trigger] clauses[k] < state.db().len() && !t_sat(
                state.trail(),
                state.db()[clauses[k] as int],
            )
        &&& !detect_pure ==> forall|k: int| 0 <= k < self.occurs@.len() ==> !#[trigger] self.occurs@[k]
        &&& detect_pure ==> forall|k: int|
            0 <= k < self.occurs@.len() ==> (#[trigger] self.occurs@[k] <==> (!t_has(
                state.trail(),
                (Lit { code: k as u32 }).vi(),
            ) && in_clauses(state.db(), clauses, Lit { code: k as u32 })))
    }

    /// Sets or clears the occurrence mark of every open literal of a clause.
    fn mark_literals(&mut self, state: &SearchState, c: u32, mark: bool)
        requires
            old(self).fits(state),
            c < state.db().len(),
        ensures
            final(self).fits(state),
            final(self).var_stamp == old(self).var_stamp,
            final(self).clause_stamp == old(self).clause_stamp,
            final(self).stamp == old(self).stamp,
            final(self).pure == old(self).pure,
            final(self).occurs@.len() == old(self).occurs@.len(),
            forall|k: int|
                0 <= k < final(self).occurs@.len() ==> #[trigger] final(self).occurs@[k] == (if !t_has(
                    state.trail(),
                    (Lit { code: k as u32 }).vi(),
                ) && state.db()[c as int].contains(Lit { code: k as u32 }) {
                    mark
                } else {
                    old(self).occurs@[k]
                }),
    {
        let ghost s0 = *self;
        let ghost cs = state.db()[c as int];
        let ghost t = state.trail();
        let clause = state.clause(c as usize);
        assert(clause_below(state.db()[c as int], state.nv()));
        for i in 0..clause.len()
            invariant
                self.fits(state),
                clause@ == cs,
                t == state.trail(),
                clause_below(cs, state.nv()),
                self.var_stamp == s0.var_stamp,
                self.clause_stamp == s0.clause_stamp,
                self.stamp == s0.stamp,
                self.pure == s0.pure,
                self.occurs@.len() == s0.occurs@.len(),
                forall|k: int|
                    0 <= k < self.occurs@.len() ==> #[trigger] self.occurs@[k] == (if !t_has(
                        t,
                        (Lit { code: k as u32 }).vi(),
                    ) && cs.take(i as int).contains(Lit { code: k as u32 }) {
                        mark
                    } else {
                        s0.occurs@[k]
                    }),
        {
            let l = clause[i];
            proof {
                assert(cs[i as int].vi() < state.nv());
                state.lemma_vals(l.vi());
                assert(cs.take(i + 1) =~= cs.take(i as int).push(cs[i as int]));
                lemma_push_contains(cs.take(i as int), cs[i as int]);
            }
            if state.value_of_index(l.var().index()).is_none() {
                let li: usize = l.index();
                self.occurs[li] = mark;
            }
        }
        assert(cs.take(cs.len() as int) =~= cs);
    }

    /// Gathers the active clauses that contain `lit`. Returns whether there is any.
    fn gather_literal(
        &mut self,
        state: &SearchState,
        lit: Lit,
        detect_pure: bool,
        clauses: &mut Vec<u32>,
    ) -> (found: bool)
        requires
            old(self).gathering(state, old(clauses)@, detect_pure),
            lit.vi() < state.nv(),
        ensures
            final(self).gathering(state, final(clauses)@, detect_pure),
            final(self).pure == old(self).pure,
            final(self).nv() == old(self).nv(),
            found == lit_active(state.db(), state.trail(), lit),
            forall|c: u32| #[trigger]
                final(clauses)@.contains(c) <==> old(clauses)@.contains(c) || (c < state.db().len() && !t_sat(
                    state.trail(),
                    state.db()[c as int],
                ) && state.db()[c as int].contains(lit)),
    {
        let ghost db = state.db();
        let ghost t = state.trail();
        let ghost p0 = self.pure;
        let ghost c0 = clauses@;
        let occ = state.occurrences(lit);
        let mut found = false;
        proof {
            lemma_occ_list_below(db, lit);
        }
        for k in 0..occ.len()
            invariant
                db == state.db(),
                t == state.trail(),
                occ@ == occ_list(db, lit),
                forall|j: int|
                    0 <= j < occ@.len() ==> #[trigger] occ@[j] < db.len() && db[occ@[j] as int].contains(lit),
                self.gathering(state, clauses@, detect_pure),
                self.pure == p0,
                self.nv() == old(self).nv(),
                found ==> lit_active(db, t, lit),
                forall|j: int|
                    0 <= j < k ==> t_sat(t, db[#[trigger] occ@[j] as int]) || (found && clauses@.contains(
                        occ@[j],
                    )),
                forall|c: u32| #[trigger]
                    clauses@.contains(c) ==> c0.contains(c) || (c < db.len() && !t_sat(t, db[c as int])
                        && db[c as int].contains(lit)),
                forall|c: u32| c0.contains(c) ==> #[trigger] clauses@.contains(c),
        {
            let c: u32 = occ[k];
            let cu: usize = c as usize;
            if state.is_active(cu) {
                found = true;
                assert(db[occ@[k as int] as int].contains(lit));
                assert(self.clause_visited(c as int) <==> clauses@.contains(c));
                if self.clause_stamp[cu] != self.stamp {
                    let ghost before = *self;
                    let ghost cb = clauses@;
                    self.clause_stamp[cu] = self.stamp;
                    clauses.push(c);
                    let ghost mid = *self;
                    if detect_pure {
                        self.mark_literals(state, c, true);
                    }
                    proof {
                        lemma_push_contains(cb, c);
                        assert forall|d: int| 0 <= d < db.len() implies (#[trigger] self.clause_visited(d)
                            <==> clauses@.contains(d as u32)) by {
                            assert(before.clause_visited(d) <==> cb.contains(d as u32));
                        }
                        assert forall|q: int| 0 <= q < self.occurs@.len() && detect_pure implies (
                        #[trigger] self.occurs@[q] <==> (!t_has(t, (Lit { code: q as u32 }).vi())
                            && in_clauses(db, clauses@, Lit { code: q as u32 }))) by {
                            let x = Lit { code: q as u32 };
                            assert(before.occurs@[q] <==> (!t_has(t, x.vi()) && in_clauses(db, cb, x)));
                            lemma_in_clauses_push(db, cb, c, x);
                        }
                    }
                }
            }
        }
        proof {
            assert forall|c: u32|
                c < db.len() && !t_sat(t, db[c as int]) && db[c as int].contains(lit) implies #[trigger] clauses@.contains(
                c,
            ) && found by {
                lemma_occ_list_complete(db, lit, c as int);
                let j = choose|j: int| 0 <= j < occ@.len() && occ@[j] == c;
                assert(occ@[j] == c);
            }
            if lit_active(db, t, lit) {
                let c = choose|c: int| 0 <= c < db.len() && !t_sat(t, #[trigger] db[c]) && db[c].contains(lit);
                assert(clauses@.contains(c as u32));
            }
        }
        found
    }

    /// Collects `scope` into a single component without splitting it.
    ///
    /// Used by the plain-DPLL ablation, so that "with decomposition" and "without" differ in one
    /// thing only and share every other line of the search.
    #[verifier::rlimit(100)]
    pub fn analyze_whole(
        &mut self,
        state: &SearchState,
        scope: &[u32],
        store: &mut ComponentStore,
        detect_pure: bool,
    ) -> (r: Range<usize>)
        requires
            old(self).wf(),
            old(self).nv() >= state.nv(),
            state.wf(),
            old(store).wf(),
            forall|k: int| 0 <= k < scope@.len() ==> #[trigger] scope@[k] < state.nv(),
        ensures
            final(self).wf(),
            final(self).nv() == old(self).nv(),
            final(store).wf(),
            r.start == old(store).comps().len(),
            r.end == final(store).comps().len(),
            r.start <= r.end <= r.start + 1,
            final(store).comps().take(r.start as int) == old(store).comps(),
            r.start < r.end <==> exists|k: int|
                0 <= k < scope@.len() && !t_has(state.trail(), #[trigger] scope@[k] as int)
                    && occurs_active(state.db(), state.trail(), scope@[k] as int),
            r.start < r.end ==> is_whole(
                state.db(),
                state.trail(),
                scope@,
                final(store).comps()[r.start as int],
            ) && final(store).comps()[r.start as int].clauses.len() > 0,
            !detect_pure ==> final(self).pure() == Seq::<Lit>::empty(),
            detect_pure ==> forall|l: Lit| #[trigger]
                final(self).pure().contains(l) <==> pure_in(
                    state.db(),
                    state.trail(),
                    final(store).comps().skip(r.start as int),
                    l,
                ),
            detect_pure ==> final(self).pure() == pure_list(
                state.db(),
                state.trail(),
                final(store).comps().skip(r.start as int),
            ),
    {
        let ghost c0 = store.comps();
        let ghost db = state.db();
        let ghost t = state.trail();
        let ghost n = state.nv();
        let first: usize = store.len();
        self.begin(state.num_clauses());
        let mut uv: Vec<u32> = Vec::new();
        let mut uc: Vec<u32> = Vec::new();
        for i in 0..scope.len()
            invariant
                db == state.db(),
                t == state.trail(),
                n == state.nv(),
                state.wf(),
                self.gathering(state, uc@, detect_pure),
                self.nv() == old(self).nv(),
                self.pure@ == Seq::<Lit>::empty(),
                forall|k: int| 0 <= k < scope@.len() ==> #[trigger] scope@[k] < n,
                forall|v: u32| #[trigger]
                    uv@.contains(v) <==> scope@.take(i as int).contains(v) && !t_has(t, v as int) && occurs_active(
                        db,
                        t,
                        v as int,
                    ),
                forall|c: u32| #[trigger]
                    uc@.contains(c) <==> c < db.len() && !t_sat(t, db[c as int]) && touches(
                        t,
                        db[c as int],
                        var_set(scope@.take(i as int)),
                    ),
        {
            let v: u32 = scope[i];
            let ghost uvb = uv@;
            let ghost ucb = uc@;
            let ghost part = scope@.take(i as int);
            proof {
                state.lemma_vals(v as int);
                assert(scope@.take(i + 1) =~= part.push(v));
                lemma_push_contains(part, v);
            }
            if state.value_of_index(v as usize).is_none() {
                let var = Var::from_index(v as usize);
                let pos = var.positive();
                let neg = var.negative();
                let a = self.gather_literal(state, pos, detect_pure, &mut uc);
                let b = self.gather_literal(state, neg, detect_pure, &mut uc);
                proof {
                    lemma_push_contains(uvb, v);
                    lemma_active_literals(db, t, v as int, pos, neg);
                }
                if a || b {
                    uv.push(v);
                }
                proof {
                    assert forall|c: u32| #[trigger] uc@.contains(c) <==> c < db.len() && !t_sat(
                        t,
                        db[c as int],
                    ) && touches(t, db[c as int], var_set(scope@.take(i + 1))) by {
                        if c < db.len() {
                            lemma_touches_push(t, db[c as int], part, v, pos, neg);
                        }
                    }
                }
            } else {
                proof {
                    assert forall|c: u32| #[trigger] uc@.contains(c) <==> c < db.len() && !t_sat(
                        t,
                        db[c as int],
                    ) && touches(t, db[c as int], var_set(scope@.take(i + 1))) by {
                        if c < db.len() {
                            lemma_touches_skip(t, db[c as int], part, v);
                        }
                    }
                }
            }
        }
        assert(scope@.take(scope@.len() as int) =~= scope@);
        if uc.len() == 0 {
            proof {
                assert(store.comps().take(first as int) =~= c0);
                assert(store.comps().skip(first as int) =~= Seq::<Comp>::empty());
                assert forall|k: int| 0 <= k < self.occurs@.len() implies !#[trigger] self.occurs@[k] by {}
                assert forall|k: int|
                    0 <= k < scope@.len() && !t_has(t, #[trigger] scope@[k] as int) && occurs_active(
                        db,
                        t,
                        scope@[k] as int,
                    ) implies false by {
                    lemma_active_touches(db, t, scope@, k);
                    let c = choose|c: int|
                        0 <= c < db.len() && !t_sat(t, #[trigger] db[c]) && touches(t, db[c], var_set(scope@));
                    assert(uc@.contains(c as u32));
                }
            }
            return first..first;
        }
        let vars = sorted_indices(&uv);
        let clauses = sorted_indices(&uc);
        let ghost g = *self;
        let ghost comp = Comp { vars: vars@, clauses: clauses@ };
        proof {
            assert forall|k: int| 0 <= k < vars@.len() implies #[trigger] vars@[k] < n by {
                assert(vars@.contains(vars@[k]));
                assert(uv@.contains(vars@[k]));
                let j = choose|j: int| 0 <= j < scope@.len() && scope@[j] == vars@[k];
            }
            assert forall|k: int| 0 <= k < clauses@.len() implies #[trigger] clauses@[k] < db.len() by {
                assert(clauses@.contains(clauses@[k]));
                assert(uc@.contains(clauses@[k]));
            }
            lemma_ascending_len(vars@, n);
            lemma_ascending_len(clauses@, db.len() as int);
            assert(uc@.contains(uc@[0]));
            assert(clauses@.contains(uc@[0]));
            let c = uc@[0] as int;
            let i = choose|i: int|
                0 <= i < db[c].len() && !t_has(t, (#[trigger] db[c][i]).vi()) && var_set(scope@).contains(
                    db[c][i].vi(),
                );
            let k = choose|k: int| 0 <= k < scope@.len() && scope@[k] == db[c][i].vi() as u32;
            assert(occurs_active(db, t, scope@[k] as int));
        }
        if detect_pure {
            self.collect_pure(&vars);
            let ghost p = *self;
            assert(uc@.take(0) =~= Seq::<u32>::empty());
            for k in 0..uc.len()
                invariant
                    db == state.db(),
                    t == state.trail(),
                    self.fits(state),
                    self.pure == p.pure,
                    self.var_stamp == p.var_stamp,
                    forall|q: int| 0 <= q < uc@.len() ==> #[trigger] uc@[q] < db.len(),
                    self.occurs@.len() == p.occurs@.len(),
                    forall|q: int|
                        0 <= q < self.occurs@.len() && #[trigger] self.occurs@[q] ==> p.occurs@[q] && !(!t_has(
                            t,
                            (Lit { code: q as u32 }).vi(),
                        ) && in_clauses(db, uc@.take(k as int), Lit { code: q as u32 })),
            {
                let ghost before = *self;
                self.mark_literals(state, uc[k], false);
                proof {
                    assert(uc@.take(k + 1) =~= uc@.take(k as int).push(uc@[k as int]));
                    assert forall|q: int| 0 <= q < self.occurs@.len() && #[trigger] self.occurs@[q] implies p.occurs@[q]
                        && !(!t_has(t, (Lit { code: q as u32 }).vi()) && in_clauses(
                        db,
                        uc@.take(k + 1),
                        Lit { code: q as u32 },
                    )) by {
                        lemma_in_clauses_push(db, uc@.take(k as int), uc@[k as int], Lit { code: q as u32 });
                        assert(before.occurs@[q]);
                    }
                }
            }
            proof {
                assert(uc@.take(uc@.len() as int) =~= uc@);
                assert forall|q: int| 0 <= q < self.occurs@.len() implies !#[trigger] self.occurs@[q] by {
                    if self.occurs@[q] {
                        assert(p.occurs@[q]);
                        assert(g.occurs@[q]);
                    }
                }
                assert forall|l: Lit| #[trigger] self.pure@.contains(l) <==> vars@.contains(l.vi() as u32)
                    && lit_active(db, t, l) && !lit_active(db, t, l.neg()) by {
                    if vars@.contains(l.vi() as u32) {
                        let nl = l.neg();
                        assert(nl.vi() == l.vi());
                        assert(uv@.contains(l.vi() as u32));
                        let k = choose|k: int| 0 <= k < scope@.len() && scope@[k] == l.vi() as u32;
                        assert(scope@[k] < n);
                        assert(Lit { code: l.code } == l);
                        assert(Lit { code: nl.code } == nl);
                        lemma_gathered(db, t, scope@, uc@, l);
                        lemma_gathered(db, t, scope@, uc@, nl);
                        assert(g.occurs@[l.code as int] <==> lit_active(db, t, l));
                        assert(g.occurs@[nl.code as int] <==> lit_active(db, t, nl));
                    }
                }
                assert forall|l: Lit| vars@.contains(l.vi() as u32) implies #[trigger] g.occurs@[l.code as int]
                    == lit_active(db, t, l) by {
                    assert(uv@.contains(l.vi() as u32));
                    let k = choose|k: int| 0 <= k < scope@.len() && scope@[k] == l.vi() as u32;
                    assert(scope@[k] < n);
                    assert(Lit { code: l.code } == l);
                    lemma_gathered(db, t, scope@, uc@, l);
                }
                lemma_marked_pure(db, t, g.occurs@, vars@);
            }
        }
        store.push(&vars, &clauses);
        let end: usize = store.len();
        proof {
            assert(store.comps().take(first as int) =~= c0);
            assert(store.comps().skip(first as int) =~= seq![comp]);
            assert(store.comps()[first as int] == comp);
            if detect_pure {
                assert(seq![comp].drop_last() =~= Seq::<Comp>::empty());
                assert(pure_list(db, t, Seq::<Comp>::empty()) =~= Seq::<Lit>::empty());
                assert(seq![comp].last() == comp);
                assert(self.pure@ =~= pure_list(db, t, seq![comp]));
            }
            assert forall|l: Lit| #[trigger] in_comps(seq![comp], l.vi() as u32) <==> vars@.contains(
                l.vi() as u32,
            ) by {
                let one = seq![comp];
                assert(one[0] == comp);
                if vars@.contains(l.vi() as u32) {
                    assert(one[0].vars.contains(l.vi() as u32));
                }
            }
            if detect_pure {
                assert forall|l: Lit| #[trigger] self.pure@.contains(l) <==> pure_in(db, t, seq![comp], l) by {
                    assert(in_comps(seq![comp], l.vi() as u32) <==> vars@.contains(l.vi() as u32));
                }
            }
        }
        first..end
    }
}

proof fn lemma_in_clauses_push(db: Seq<Seq<Lit>>, cs: Seq<u32>, c: u32, x: Lit)
    ensures
        in_clauses(db, cs.push(c), x) <==> in_clauses(db, cs, x) || db[c as int].contains(x),
{
    let n = cs.push(c);
    if in_clauses(db, cs, x) {
        let j = choose|j: int| 0 <= j < cs.len() && db[#[trigger] cs[j] as int].contains(x);
        assert(n[j] == cs[j]);
    }
    if db[c as int].contains(x) {
        assert(n[cs.len() as int] == c);
    }
    if in_clauses(db, n, x) {
        let j = choose|j: int| 0 <= j < n.len() && db[#[trigger] n[j] as int].contains(x);
        if j < cs.len() {
            assert(cs[j] == n[j]);
        }
    }
}

/// A variable occurs in an active clause exactly when one of its two literals does.
proof fn lemma_active_literals(db: Seq<Seq<Lit>>, t: Seq<Lit>, v: int, pos: Lit, neg: Lit)
    requires
        0 <= v <= Var::MAX_INDEX,
        pos == mk_lit(v, true),
        neg == mk_lit(v, false),
    ensures
        occurs_active(db, t, v) <==> lit_active(db, t, pos) || lit_active(db, t, neg),
{
    if occurs_active(db, t, v) {
        let (c, i) = choose|c: int, i: int|
            0 <= c < db.len() && 0 <= i < db[c].len() && !t_sat(t, db[c]) && (#[trigger] db[c][i]).vi() == v;
        crate::lit::lemma_mk_lit(db[c][i]);
        assert(db[c].contains(db[c][i]));
    }
    if lit_active(db, t, pos) {
        let c = choose|c: int| 0 <= c < db.len() && !t_sat(t, #[trigger] db[c]) && db[c].contains(pos);
        let i = choose|i: int| 0 <= i < db[c].len() && db[c][i] == pos;
        assert(db[c][i].vi() == v);
    }
    if lit_active(db, t, neg) {
        let c = choose|c: int| 0 <= c < db.len() && !t_sat(t, #[trigger] db[c]) && db[c].contains(neg);
        let i = choose|i: int| 0 <= i < db[c].len() && db[c][i] == neg;
        assert(db[c][i].vi() == v);
    }
}

/// A clause touches a longer list when it touched the shorter one or has the new open variable.
proof fn lemma_touches_push(t: Seq<Lit>, c: Seq<Lit>, part: Seq<u32>, v: u32, pos: Lit, neg: Lit)
    requires
        !t_has(t, v as int),
        v <= Var::MAX_INDEX,
        pos == mk_lit(v as int, true),
        neg == mk_lit(v as int, false),
    ensures
        touches(t, c, var_set(part.push(v))) <==> touches(t, c, var_set(part)) || c.contains(pos)
            || c.contains(neg),
{
    let a = var_set(part);
    let b = var_set(part.push(v));
    lemma_push_contains(part, v);
    if touches(t, c, a) {
        let i = choose|i: int| 0 <= i < c.len() && !t_has(t, (#[trigger] c[i]).vi()) && a.contains(c[i].vi());
        assert(b.contains(c[i].vi()));
    }
    if c.contains(pos) {
        let i = choose|i: int| 0 <= i < c.len() && c[i] == pos;
        assert(c[i].vi() == v && b.contains(c[i].vi()));
    }
    if c.contains(neg) {
        let i = choose|i: int| 0 <= i < c.len() && c[i] == neg;
        assert(c[i].vi() == v && b.contains(c[i].vi()));
    }
    if touches(t, c, b) {
        let i = choose|i: int| 0 <= i < c.len() && !t_has(t, (#[trigger] c[i]).vi()) && b.contains(c[i].vi());
        if c[i].vi() == v {
            crate::lit::lemma_mk_lit(c[i]);
            assert(c.contains(c[i]));
        } else {
            assert(a.contains(c[i].vi()));
        }
    }
}

/// An assigned variable adds nothing to what a list touches.
proof fn lemma_touches_skip(t: Seq<Lit>, c: Seq<Lit>, part: Seq<u32>, v: u32)
    requires
        t_has(t, v as int),
    ensures
        touches(t, c, var_set(part.push(v))) <==> touches(t, c, var_set(part)),
{
    let a = var_set(part);
    let b = var_set(part.push(v));
    lemma_push_contains(part, v);
    if touches(t, c, a) {
        let i = choose|i: int| 0 <= i < c.len() && !t_has(t, (#[trigger] c[i]).vi()) && a.contains(c[i].vi());
        assert(b.contains(c[i].vi()));
    }
    if touches(t, c, b) {
        let i = choose|i: int| 0 <= i < c.len() && !t_has(t, (#[trigger] c[i]).vi()) && b.contains(c[i].vi());
        assert(c[i].vi() != v);
        assert(a.contains(c[i].vi()));
    }
}

proof fn lemma_active_touches(db: Seq<Seq<Lit>>, t: Seq<Lit>, scope: Seq<u32>, k: int)
    requires
        0 <= k < scope.len(),
        !t_has(t, scope[k] as int),
        occurs_active(db, t, scope[k] as int),
    ensures
        exists|c: int| 0 <= c < db.len() && !t_sat(t, #[trigger] db[c]) && touches(t, db[c], var_set(scope)),
{
    let (c, i) = choose|c: int, i: int|
        0 <= c < db.len() && 0 <= i < db[c].len() && !t_sat(t, db[c]) && (#[trigger] db[c][i]).vi()
            == scope[k] as int;
    assert(scope.contains(scope[k]));
    assert(var_set(scope).contains(db[c][i].vi()));
    assert(touches(t, db[c], var_set(scope)));
}

/// A literal over an open scope variable is active exactly when a gathered clause has it.
proof fn lemma_gathered(db: Seq<Seq<Lit>>, t: Seq<Lit>, scope: Seq<u32>, uc: Seq<u32>, l: Lit)
    requires
        db.len() <= u32::MAX,
        !t_has(t, l.vi()),
        scope.contains(l.vi() as u32),
        forall|c: u32| #[trigger]
            uc.contains(c) <==> c < db.len() && !t_sat(t, db[c as int]) && touches(
                t,
                db[c as int],
                var_set(scope),
            ),
    ensures
        lit_active(db, t, l) <==> in_clauses(db, uc, l),
{
    if lit_active(db, t, l) {
        let c = choose|c: int| 0 <= c < db.len() && !t_sat(t, #[trigger] db[c]) && db[c].contains(l);
        let i = choose|i: int| 0 <= i < db[c].len() && db[c][i] == l;
        assert(var_set(scope).contains(db[c][i].vi()));
        assert(touches(t, db[c], var_set(scope)));
        assert(uc.contains(c as u32));
        let j = choose|j: int| 0 <= j < uc.len() && uc[j] == c as u32;
        assert(db[uc[j] as int].contains(l));
    }
    if in_clauses(db, uc, l) {
        let j = choose|j: int| 0 <= j < uc.len() && db[#[trigger] uc[j] as int].contains(l);
        assert(uc.contains(uc[j]));
        assert(!t_sat(t, db[uc[j] as int]));
    }
}

/// A component determines its residual formula, however it was reached: of each of its clauses,
/// the literals still open are those over its variables, and every other literal is false.
pub proof fn lemma_component_determines_residual(db: Seq<Seq<Lit>>, t: Seq<Lit>, n: int, comp: Comp, c: u32, l: Lit)
    requires
        comp_shape(db, t, n, comp),
        comp.clauses.contains(c),
        db[c as int].contains(l),
    ensures
        !t_has(t, l.vi()) <==> comp.vars.contains(l.vi() as u32),
        t_has(t, l.vi()) ==> t.contains(l.neg()),
{
    let clause = db[c as int];
    let i = choose|i: int| 0 <= i < clause.len() && clause[i] == l;
    assert(clause[i] == l);
    assert(c < db.len() && !t_sat(t, clause) && touches(t, clause, var_set(comp.vars)));
    assert(closed_under(db, t, var_set(comp.vars)));
    assert(inside(t, clause, var_set(comp.vars)));
    if t_has(t, l.vi()) {
        let j = choose|j: int| 0 <= j < t.len() && (#[trigger] t[j]).vi() == l.vi();
        crate::lit::lemma_lit_ext(t[j], l);
        crate::lit::lemma_lit_ext(t[j], l.neg());
        crate::lit::lemma_negation_is_involutive(l);
        if t[j] == l {
            assert(t.contains(clause[i]));
        }
        assert(t.contains(t[j]));
        if comp.vars.contains(l.vi() as u32) {
            let k = choose|k: int| 0 <= k < comp.vars.len() && comp.vars[k] == l.vi() as u32;
            assert(!t_has(t, comp.vars[k] as int));
        }
    }
}

} // verus!
