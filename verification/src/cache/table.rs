//! The memo: a hash table whose buckets are binary search trees.

use vstd::prelude::*;
use vstd::layout::size_of;
use core::marker::PhantomData;
use vstd::arithmetic::power::pow;
use vstd::arithmetic::power2::{lemma2_to64, lemma_pow2_unfold, pow2};
use crate::cache::arena::{entry_size, flagged_size, in_blob, lemma_entry_size, lemma_flagged_bounds, lemma_flagged_clear, lemma_flagged_same, lemma_packed_is_flagged, live_size, packed_len, node_key, node_witness, witness_len, witness_len_for, Node, NodeArena, NodeId, Verdict};
use crate::cache::links::{entry_key, ids, lemma_ids_in_range, lemma_ids_node, lemma_linked_frame, lemma_tree_unique, linked, relinked, tree_of, Tree};
use crate::cache::tree::{bucket_of, distinct_keys, greater, key_fits, lemma_balanced_height_bound, lemma_distinct_ids_bounded, min_nodes, same_place, same_store, tree_height, Avl, BucketPolicy};
use crate::count::{cnt, lemma_cnt_contains, lemma_cnt_no_duplicates, lemma_cnt_push, lemma_cnt_update};
use crate::memory::{capacity_of, capped_bytes, room_bytes, room_of};
use crate::sorting::lemma_push_contains;

verus! {

/// Counters describing how the memo behaved over a solve.
#[derive(Clone, Copy, Debug, PartialEq, Eq, Structural)]
pub struct CacheStats {
    /// Lookups attempted.
    pub lookups: u64,
    /// Lookups that found a remembered verdict.
    pub hits: u64,
    /// Entries added.
    pub inserts: u64,
    /// Entries dropped by eviction sweeps.
    pub evicted: u64,
    /// Eviction sweeps performed.
    pub sweeps: u64,
    /// Times the bucket array was grown.
    pub resizes: u64,
}

impl CacheStats {
    /// No activity yet.
    pub open spec fn zero() -> CacheStats {
        CacheStats { lookups: 0, hits: 0, inserts: 0, evicted: 0, sweeps: 0, resizes: 0 }
    }
}

impl Default for CacheStats {
    /// No activity yet.
    fn default() -> (s: Self)
        ensures
            s == CacheStats::zero(),
    {
        CacheStats { lookups: 0, hits: 0, inserts: 0, evicted: 0, sweeps: 0, resizes: 0 }
    }
}

/// Default bucket occupancy the table aims for before growing.
///
/// Chaining conventionally targets a load factor near one because a bucket scan is linear. A
/// tree bucket costs `O(log k)`, so it can carry more before it hurts, which is why the value is a
/// knob rather than a constant.
pub const DEFAULT_TARGET_LOAD: usize = 4;

/// Default memory budget for the memo.
pub const DEFAULT_BUDGET_BYTES: usize = 512 * 1024 * 1024;

/// Slots of a new table.
const INITIAL_BUCKETS: usize = 1024;

/// What the memo remembers of a component.
pub struct CacheEntry {
    /// Whether the component is satisfiable.
    pub verdict: Verdict,
    /// The satisfying assignment, one bit per variable; empty for an unsatisfiable component.
    pub witness: Seq<u8>,
    /// How often the entry was used of late.
    pub activity: u16,
}

/// The entries that survive a sweep: every activity is halved, and entries that reach zero go.
pub open spec fn decayed(m: Map<(u64, Seq<u8>), CacheEntry>) -> Map<(u64, Seq<u8>), CacheEntry> {
    Map::new(
        |k: (u64, Seq<u8>)| m.contains_key(k) && m[k].activity / 2 > 0,
        |k: (u64, Seq<u8>)| CacheEntry { activity: m[k].activity / 2, ..m[k] },
    )
}

/// A sweep keeps exactly the entries whose activity is two or more, and keeps what they say. One use
/// is enough for an entry that has just come.
pub proof fn lemma_sweeping_keeps_reused_entries(m: Map<(u64, Seq<u8>), CacheEntry>, k: (u64, Seq<u8>))
    requires
        m.contains_key(k),
    ensures
        decayed(m).contains_key(k) <==> m[k].activity >= 2,
        decayed(m).contains_key(k) ==> decayed(m)[k].verdict == m[k].verdict && decayed(m)[k].witness == m[k].witness
            && decayed(m)[k].activity == m[k].activity / 2,
{
}

/// The bytes that one entry takes in the key blob.
pub open spec fn entry_bytes(k: (u64, Seq<u8>), e: CacheEntry) -> int {
    k.1.len() as int + e.witness.len()
}

/// The bytes that the entries take in the key blob, added up.
#[verifier::opaque]
pub open spec fn entries_bytes(m: Map<(u64, Seq<u8>), CacheEntry>) -> int
    decreases m.dom().len(),
{
    if m.dom().finite() && m.dom().len() > 0 {
        let k = m.dom().choose();
        entry_bytes(k, m[k]) + entries_bytes(m.remove(k))
    } else {
        0
    }
}

/// Any entry can be counted first.
proof fn lemma_entries_bytes(m: Map<(u64, Seq<u8>), CacheEntry>, k: (u64, Seq<u8>))
    requires
        m.dom().finite(),
        m.contains_key(k),
    ensures
        entries_bytes(m) == entry_bytes(k, m[k]) + entries_bytes(m.remove(k)),
    decreases m.dom().len(),
{
    reveal_with_fuel(entries_bytes, 2);
    let c = m.dom().choose();
    assert(m.dom().contains(k));
    assert(m.dom().contains(c));
    if c != k {
        assert(m.remove(c).dom() =~= m.dom().remove(c));
        assert(m.remove(k).dom() =~= m.dom().remove(k));
        lemma_entries_bytes(m.remove(c), k);
        lemma_entries_bytes(m.remove(k), c);
        assert(m.remove(c).remove(k) =~= m.remove(k).remove(c));
    }
}

/// A map that a list of handles spells out has as many entries as the list, and takes as many
/// bytes.
proof fn lemma_spelled_out(nodes: Seq<Node>, blob: Seq<u8>, s: Seq<NodeId>, m: Map<(u64, Seq<u8>), CacheEntry>)
    requires
        forall|i: int, j: int|
            0 <= i < j < s.len() ==> entry_key(nodes, blob, #[trigger] s[i]) != entry_key(nodes, blob, #[trigger] s[j]),
        forall|i: int|
            0 <= i < s.len() ==> in_blob(nodes, blob, #[trigger] s[i]) && m.contains_key(
                entry_key(nodes, blob, s[i]),
            ) && m[entry_key(nodes, blob, s[i])] == entry_at(nodes, blob, s[i]),
        forall|k: (u64, Seq<u8>)| #[trigger]
            m.contains_key(k) ==> exists|i: int| 0 <= i < s.len() && entry_key(nodes, blob, #[trigger] s[i]) == k,
    ensures
        m.dom().finite(),
        m.dom().len() == s.len(),
        entries_bytes(m) == packed_len(nodes, blob, s),
    decreases s.len(),
{
    reveal(entries_bytes);
    if s.len() == 0 {
        assert(m.dom() =~= Set::<(u64, Seq<u8>)>::empty());
    } else {
        let p = s.drop_last();
        let x = s.last();
        let k = entry_key(nodes, blob, x);
        let rest = m.remove(k);
        assert(s[s.len() - 1] == x);
        assert forall|i: int| 0 <= i < p.len() implies in_blob(nodes, blob, #[trigger] p[i]) && rest.contains_key(
            entry_key(nodes, blob, p[i]),
        ) && rest[entry_key(nodes, blob, p[i])] == entry_at(nodes, blob, p[i]) by {
            assert(p[i] == s[i]);
            assert(entry_key(nodes, blob, s[i]) != entry_key(nodes, blob, s[s.len() - 1]));
        }
        assert forall|i: int, j: int| 0 <= i < j < p.len() implies entry_key(nodes, blob, #[trigger] p[i]) != entry_key(
            nodes,
            blob,
            #[trigger] p[j],
        ) by {
            assert(entry_key(nodes, blob, s[i]) != entry_key(nodes, blob, s[j]));
        }
        assert forall|q: (u64, Seq<u8>)| #[trigger] rest.contains_key(q) implies exists|i: int|
            0 <= i < p.len() && entry_key(nodes, blob, #[trigger] p[i]) == q by {
            assert(m.contains_key(q));
            let i = choose|i: int| 0 <= i < s.len() && entry_key(nodes, blob, #[trigger] s[i]) == q;
            assert(p[i] == s[i]);
        }
        lemma_spelled_out(nodes, blob, p, rest);
        assert(m.dom() =~= rest.dom().insert(k));
        assert(!rest.dom().contains(k));
        lemma_entries_bytes(m, k);
        assert(m[k] == entry_at(nodes, blob, x));
        assert(in_blob(nodes, blob, x));
        assert(node_key(nodes, blob, x).len() == nodes[x.ix()].key_len);
    }
}

/// Everything about a memo that decides what it answers and when it grows or sweeps.
pub struct Memo {
    /// The remembered components, by hash and key.
    pub map: Map<(u64, Seq<u8>), CacheEntry>,
    /// Number of entries.
    pub size: int,
    /// Number of bucket slots.
    pub slots: int,
    /// Bucket occupancy aimed for.
    pub load: int,
    /// Byte budget.
    pub budget: int,
    /// Bytes in the key blob.
    pub blob: int,
    /// Node slots made so far, in use or free.
    pub nodes: int,
    /// Counters.
    pub stats: CacheStats,
}

impl Memo {
    /// A memo that remembers nothing.
    pub open spec fn empty(budget: int, load: int) -> Memo {
        Memo {
            map: Map::empty(),
            size: 0,
            slots: 1024,
            load,
            budget,
            blob: 0,
            nodes: 0,
            stats: CacheStats::zero(),
        }
    }

    /// A key and witness of the given lengths still fit: offsets and handles are 32-bit.
    pub open spec fn fits(self, key_len: nat, witness_len: nat) -> bool {
        self.blob + key_len + witness_len <= u32::MAX && self.nodes < u32::MAX
    }

    /// After a lookup that found the key: the entry is more active, and the hit is counted.
    pub open spec fn touched(self, k: (u64, Seq<u8>)) -> Memo {
        Memo {
            map: self.map.insert(
                k,
                CacheEntry { activity: self.map[k].activity.saturating_add(1), ..self.map[k] },
            ),
            stats: CacheStats {
                lookups: self.stats.lookups.saturating_add(1),
                hits: self.stats.hits.saturating_add(1),
                ..self.stats
            },
            ..self
        }
    }

    /// After a lookup that found nothing.
    pub open spec fn missed(self) -> Memo {
        Memo { stats: CacheStats { lookups: self.stats.lookups.saturating_add(1), ..self.stats }, ..self }
    }

    /// The table grows before the next insertion.
    pub open spec fn must_grow(self) -> bool {
        self.size >= self.slots * self.load && self.slots <= usize::MAX / 2
    }

    /// The number of slots that the next insertion leaves.
    pub open spec fn grown_slots(self) -> int {
        if self.must_grow() {
            2 * self.slots
        } else {
            self.slots
        }
    }

    /// The table is swept before the next insertion.
    pub open spec fn must_sweep(self) -> bool {
        table_bytes(self.size, self.blob, self.grown_slots()) >= self.budget
    }

    /// The memo `o` after an entry was stored: swept first where that was due, with the entry added,
    /// the table grown where that was due, and all of it counted.
    pub open spec fn stored_from(self, o: Memo, hash: u64, key: Seq<u8>, verdict: Verdict, witness: Seq<u8>) -> bool {
        &&& self.map == (if o.must_sweep() {
            decayed(o.map)
        } else {
            o.map
        }).insert((hash, key), new_entry(verdict, key, witness))
        &&& self.slots == o.grown_slots()
        &&& self.load == o.load
        &&& self.size <= o.size + 1
        &&& self.size == 1 + if o.must_sweep() {
            decayed(o.map).dom().len() as int
        } else {
            o.size
        }
        &&& self.budget == if o.must_sweep() {
            swept_budget(o.budget, o.size, self.size - 1)
        } else {
            o.budget
        }
        &&& self.blob <= o.blob + key.len() + stored_len(verdict, witness)
        &&& self.blob == (if o.must_sweep() {
            entries_bytes(decayed(o.map))
        } else {
            o.blob
        }) + key.len() + stored_len(verdict, witness)
        &&& self.nodes == if o.nodes >= self.size {
            o.nodes
        } else {
            o.nodes + 1
        }
        &&& self.stats == inserted_stats(o.stats, o.must_grow(), o.must_sweep(), o.size - (self.size - 1))
    }
}

/// A component memo parameterised by its bucket policy.
///
/// A search node hands it a *component key*, a canonical encoding of an independent subproblem,
/// and gets back a remembered verdict, or nothing. The low bits of the key's hash pick a slot; the
/// slot holds a tree ordered by the *full* 64-bit hash with the key bytes as tie-break. Nodes and
/// key bytes both live in flat arenas.
///
/// Correctness never depends on the hash being good, only speed: a full 64-bit collision falls
/// through to a byte-wise key comparison, so distinct subproblems are never confused.
///
/// The table has a byte budget; on overflow it halves every entry's activity counter and drops the
/// entries that reach zero, then rebuilds.
pub struct ComponentCache<P: BucketPolicy> {
    buckets: Vec<NodeId>,
    mask: u64,
    arena: NodeArena,
    len: usize,
    budget_bytes: usize,
    target_load: usize,
    stats: CacheStats,
    policy: PhantomData<P>,
}

/// The number is a power of two.
pub open spec fn power_of_two(n: nat) -> bool {
    exists|k: nat| n == #[trigger] pow2(k)
}

/// The initial number of slots is a power of two, and so is twice any power of two.
proof fn lemma_powers_of_two(n: nat)
    ensures
        power_of_two(INITIAL_BUCKETS as nat),
        power_of_two(n) ==> power_of_two(2 * n),
{
    lemma2_to64();
    assert(INITIAL_BUCKETS as nat == pow2(10));
    if power_of_two(n) {
        let k = choose|k: nat| n == #[trigger] pow2(k);
        lemma_pow2_unfold(k + 1);
        assert(2 * n == pow2(k + 1));
    }
}

/// The slot that a hash falls into.
pub open spec fn slot_of(hash: u64, mask: u64) -> int {
    (hash & mask) as int
}

/// What an arena entry says.
pub open spec fn entry_at(nodes: Seq<Node>, blob: Seq<u8>, id: NodeId) -> CacheEntry {
    CacheEntry {
        verdict: nodes[id.ix()].spec_verdict(),
        witness: node_witness(nodes, blob, id),
        activity: nodes[id.ix()].activity,
    }
}

/// A slot is no larger than the mask.
proof fn lemma_slot(hash: u64, mask: u64)
    ensures
        0 <= slot_of(hash, mask) <= mask,
{
    assert(hash & mask <= mask) by (bit_vector);
}

/// A bucket is kept by any change that leaves its nodes linked and keyed as they were.
proof fn lemma_bucket_kept<P: BucketPolicy>(a0: &NodeArena, a1: &NodeArena, root: NodeId, t: Tree)
    requires
        bucket_of(a0, root, t),
        P::shape(a0.nodes(), a0.blob(), t),
        a1.wf(),
        a0.nodes().len() <= a1.nodes().len(),
        a0.blob().len() <= a1.blob().len(),
        a1.blob().take(a0.blob().len() as int) == a0.blob(),
        forall|id: NodeId| #[trigger]
            ids(t).contains(id) ==> a1.live(id) && a1.nodes()[id.ix()].hash == a0.nodes()[id.ix()].hash
                && a1.nodes()[id.ix()].left == a0.nodes()[id.ix()].left && a1.nodes()[id.ix()].right
                == a0.nodes()[id.ix()].right && a1.nodes()[id.ix()].height
                == a0.nodes()[id.ix()].height && a1.nodes()[id.ix()].key_off
                == a0.nodes()[id.ix()].key_off && a1.nodes()[id.ix()].key_len
                == a0.nodes()[id.ix()].key_len,
    ensures
        bucket_of(a1, root, t),
        tree_of(a1.nodes(), root) == t,
        P::shape(a1.nodes(), a1.blob(), t),
{
    let n0 = a0.nodes();
    let n1 = a1.nodes();
    a1.lemma_wf();
    lemma_linked_frame(n0, n1, root, t);
    lemma_tree_unique(n1, root, t);
    assert forall|id: NodeId| #[trigger] ids(t).contains(id) implies same_place(
        n0,
        a0.blob(),
        n1,
        a1.blob(),
        id,
    ) && entry_key(n1, a1.blob(), id) == entry_key(n0, a0.blob(), id) && key_fits(n1, a1.blob(), id) by {
        assert(key_fits(n0, a0.blob(), id));
        assert(node_key(n1, a1.blob(), id) =~= node_key(n0, a1.blob().take(a0.blob().len() as int), id));
    }
    P::lemma_shape_frame(n0, a0.blob(), n1, a1.blob(), t);
}

impl<P: BucketPolicy> ComponentCache<P> {
    spec fn tree(&self, b: int) -> Tree {
        tree_of(self.arena.nodes(), self.buckets@[b])
    }

    spec fn slot(&self, id: NodeId) -> int {
        slot_of(self.arena.nodes()[id.ix()].hash, self.mask)
    }

    spec fn key_at(&self, id: NodeId) -> (u64, Seq<u8>) {
        entry_key(self.arena.nodes(), self.arena.blob(), id)
    }

    /// The bucket is in the policy's shape and holds only entries of its slot.
    spec fn bucket_fine(&self, b: int) -> bool {
        &&& bucket_of(&self.arena, self.buckets@[b], self.tree(b))
        &&& P::shape(self.arena.nodes(), self.arena.blob(), self.tree(b))
        &&& forall|id: NodeId| #[trigger] ids(self.tree(b)).contains(id) ==> self.slot(id) == b
    }

    spec fn table_ok(&self) -> bool {
        &&& power_of_two(self.buckets@.len())
        &&& self.buckets@.len() >= INITIAL_BUCKETS
        &&& self.mask as int == self.buckets@.len() - 1
        &&& forall|b: int| 0 <= b < self.buckets@.len() ==> #[trigger] self.bucket_fine(b)
        &&& forall|id: NodeId| #[trigger]
            self.arena.live(id) ==> ids(self.tree(self.slot(id))).contains(id)
    }

    spec fn store_ok(&self) -> bool {
        &&& self.arena.wf()
        &&& forall|id: NodeId| #[trigger]
            self.arena.live(id) ==> in_blob(self.arena.nodes(), self.arena.blob(), id)
        &&& self.len == cnt(self.arena.live_flags(), true)
        &&& self.arena.dead() == 0
        &&& flagged_size(self.arena.nodes(), self.arena.blob(), self.arena.live_flags())
            <= self.arena.blob().len() <= u32::MAX
        &&& self.target_load > 0
    }

    /// Every live node sits in the bucket of its hash, every bucket is in its policy's shape, and
    /// the bookkeeping agrees with the arena.
    pub closed spec fn wf(&self) -> bool {
        self.store_ok() && self.table_ok()
    }

    /// Some entry has the key.
    spec fn has_key(&self, k: (u64, Seq<u8>)) -> bool {
        exists|id: NodeId| self.arena.live(id) && #[trigger] self.key_at(id) == k
    }

    spec fn id_of(&self, k: (u64, Seq<u8>)) -> NodeId {
        choose|id: NodeId| self.arena.live(id) && #[trigger] self.key_at(id) == k
    }

    /// The handle names an entry.
    pub closed spec fn has(&self, id: NodeId) -> bool {
        self.arena.live(id)
    }

    /// The hash and key of the entry that the handle names.
    pub closed spec fn key_of(&self, id: NodeId) -> (u64, Seq<u8>) {
        self.key_at(id)
    }

    /// The counters.
    pub closed spec fn counters(&self) -> CacheStats {
        self.stats
    }

    /// The current byte budget.
    pub closed spec fn budget(&self) -> int {
        self.budget_bytes as int
    }

    /// The number of slots.
    pub closed spec fn slots(&self) -> int {
        self.buckets@.len() as int
    }

    /// The bucket occupancy aimed for.
    pub closed spec fn load(&self) -> int {
        self.target_load as int
    }

    /// The number of entries.
    pub closed spec fn size(&self) -> int {
        self.len as int
    }

    /// Bytes in the key blob.
    pub closed spec fn blob_size(&self) -> int {
        self.arena.blob().len() as int
    }

    /// Node slots made so far, in use or free.
    pub closed spec fn node_slots(&self) -> int {
        self.arena.nodes().len() as int
    }

    /// A key and witness of the given lengths still fit: offsets and handles are 32-bit.
    pub open spec fn fits(&self, key_len: nat, witness_len: nat) -> bool {
        self.memo().fits(key_len, witness_len)
    }

    /// What the table amounts to.
    pub open spec fn memo(&self) -> Memo {
        Memo {
            map: self@,
            size: self.size(),
            slots: self.slots(),
            load: self.load(),
            budget: self.budget(),
            blob: self.blob_size(),
            nodes: self.node_slots(),
            stats: self.counters(),
        }
    }

    /// Two live entries with the same key are the same entry.
    proof fn lemma_unique(&self, a: NodeId, b: NodeId)
        requires
            self.wf(),
            self.arena.live(a),
            self.arena.live(b),
            self.key_at(a) == self.key_at(b),
        ensures
            a == b,
    {
        let s = self.slot(a);
        lemma_slot(self.arena.nodes()[a.ix()].hash, self.mask);
        assert(self.bucket_fine(s));
        assert(ids(self.tree(s)).contains(a));
        assert(ids(self.tree(self.slot(b))).contains(b));
    }

    /// What the view says of a live entry.
    proof fn lemma_view(&self, id: NodeId)
        requires
            self.wf(),
            self.arena.live(id),
        ensures
            self@.contains_key(self.key_at(id)),
            self@[self.key_at(id)] == entry_at(self.arena.nodes(), self.arena.blob(), id),
    {
        let k = self.key_at(id);
        assert(self.has_key(k));
        self.lemma_unique(id, self.id_of(k));
    }

    /// The slots of an entry and its bucket.
    proof fn lemma_in_bucket(&self, id: NodeId)
        requires
            self.wf(),
            self.arena.live(id),
        ensures
            0 <= self.slot(id) < self.buckets@.len(),
            ids(self.tree(self.slot(id))).contains(id),
            self.bucket_fine(self.slot(id)),
    {
        lemma_slot(self.arena.nodes()[id.ix()].hash, self.mask);
        assert(self.bucket_fine(self.slot(id)));
    }
}

impl<P: BucketPolicy> View for ComponentCache<P> {
    type V = Map<(u64, Seq<u8>), CacheEntry>;

    /// The remembered components, by hash and key.
    closed spec fn view(&self) -> Map<(u64, Seq<u8>), CacheEntry> {
        Map::new(
            |k: (u64, Seq<u8>)| self.has_key(k),
            |k: (u64, Seq<u8>)| entry_at(self.arena.nodes(), self.arena.blob(), self.id_of(k)),
        )
    }
}

impl<P: BucketPolicy> ComponentCache<P> {
    /// Creates a memo with the given byte budget and target bucket occupancy.
    pub fn new(budget_bytes: usize, target_load: usize) -> (c: Self)
        requires
            target_load > 0,
        ensures
            c.wf(),
            c@ == Map::<(u64, Seq<u8>), CacheEntry>::empty(),
            c.size() == 0,
            c.budget() == budget_bytes,
            c.load() == target_load,
            c.slots() == 1024,
            c.counters() == CacheStats::zero(),
            c.blob_size() == 0,
            c.node_slots() == 0,
            c.memo() == Memo::empty(budget_bytes as int, target_load as int),
    {
        let c = ComponentCache::<P> {
            buckets: vec![NodeId::none(); INITIAL_BUCKETS],
            mask: INITIAL_BUCKETS as u64 - 1,
            arena: NodeArena::new(),
            len: 0,
            budget_bytes,
            target_load,
            stats: CacheStats { lookups: 0, hits: 0, inserts: 0, evicted: 0, sweeps: 0, resizes: 0 },
            policy: PhantomData,
        };
        proof {
            lemma_powers_of_two(0);
            let nodes = c.arena.nodes();
            assert(c.arena.live_flags() =~= Seq::<bool>::empty());
            assert forall|b: int| 0 <= b < c.buckets@.len() implies #[trigger] c.bucket_fine(b) by {
                assert(linked(nodes, c.buckets@[b], Tree::Leaf));
                lemma_tree_unique(nodes, c.buckets@[b], Tree::Leaf);
                P::lemma_shape_empty(nodes, c.arena.blob());
                assert(ids(Tree::Leaf) =~= Seq::<NodeId>::empty());
            }
            assert(c@ =~= Map::<(u64, Seq<u8>), CacheEntry>::empty()) by {
                assert forall|k: (u64, Seq<u8>)| !#[trigger] c@.contains_key(k) by {
                    if c.has_key(k) {
                        let id = choose|id: NodeId| c.arena.live(id) && #[trigger] c.key_at(id) == k;
                    }
                }
            }
        }
        c
    }

    /// The name of the bucket policy in use.
    pub fn policy_name(&self) -> (s: &'static str)
        ensures
            s@ == P::spec_name(),
    {
        P::name()
    }

    /// Entries currently stored.
    pub fn len(&self) -> (n: usize)
        ensures
            n == self.size(),
    {
        self.len
    }

    /// Whether the memo is empty.
    pub fn is_empty(&self) -> (b: bool)
        ensures
            b == (self.size() == 0),
    {
        self.len == 0
    }

    /// Counters for this memo.
    pub fn stats(&self) -> (s: CacheStats)
        ensures
            s == self.counters(),
    {
        self.stats
    }

    /// Whether an entry with a key and a witness of these lengths can still be stored.
    pub fn has_room(&self, key_len: usize, witness_len: usize) -> (b: bool)
        requires
            self.wf(),
        ensures
            b == self.fits(key_len as nat, witness_len as nat),
    {
        proof {
            self.arena.lemma_wf();
        }
        let used: usize = self.arena.blob_len();
        let room: usize = u32::MAX as usize - used;
        key_len <= room && witness_len <= room - key_len && self.arena.capacity() < u32::MAX as usize
    }

    /// The verdict recorded at `id`.
    pub fn verdict(&self, id: NodeId) -> (v: Verdict)
        requires
            self.wf(),
            self.has(id),
        ensures
            self@.contains_key(self.key_of(id)),
            v == self@[self.key_of(id)].verdict,
    {
        proof {
            self.lemma_view(id);
        }
        self.arena.get(id).verdict()
    }

    /// Changing nodes of one bucket only: the rest of the table is kept, and with it the view.
    proof fn lemma_one_bucket(&self, f: &Self, s: int)
        requires
            self.wf(),
            0 <= s < self.buckets@.len(),
            f.mask == self.mask,
            f.len == self.len,
            f.target_load == self.target_load,
            f.buckets@.len() == self.buckets@.len(),
            forall|b: int| 0 <= b < self.buckets@.len() && b != s ==> #[trigger] f.buckets@[b] == self.buckets@[b],
            bucket_of(&f.arena, f.buckets@[s], f.tree(s)),
            P::shape(f.arena.nodes(), f.arena.blob(), f.tree(s)),
            same_store(&self.arena, &f.arena),
            relinked(self.arena.nodes(), f.arena.nodes(), ids(self.tree(s))),
            forall|id: NodeId| #[trigger]
                ids(f.tree(s)).contains(id) <==> ids(self.tree(s)).contains(id),
        ensures
            f.wf(),
            f@ == self@,
    {
        let n0 = self.arena.nodes();
        let n1 = f.arena.nodes();
        let blob = self.arena.blob();
        self.arena.lemma_wf();
        assert forall|id: NodeId| #[trigger] f.arena.live(id) <==> self.arena.live(id) by {}
        assert(f.arena.live_flags() =~= self.arena.live_flags());
        assert forall|id: NodeId| id.ix() < n0.len() implies (#[trigger] n1[id.ix()]).same_entry(n0[id.ix()]) by {}
        assert forall|id: NodeId| id.ix() < n0.len() implies #[trigger] f.key_at(id) == self.key_at(id)
            && f.slot(id) == self.slot(id) && entry_at(n1, blob, id) == entry_at(n0, blob, id) && entry_size(
            n1,
            blob,
            id,
        ) == entry_size(n0, blob, id) by {
            assert(n1[id.ix()].same_entry(n0[id.ix()]));
        }
        assert(flagged_size(n1, blob, f.arena.live_flags()) == flagged_size(n0, blob, self.arena.live_flags()))
            by {
            assert forall|i: int| 0 <= i < n0.len() && #[trigger] f.arena.live_flags()[i] implies entry_size(
                n1,
                blob,
                NodeId { raw: i as u32 },
            ) == entry_size(n0, blob, NodeId { raw: i as u32 }) by {
                let id = NodeId { raw: i as u32 };
                assert(f.key_at(id) == self.key_at(id));
            }
            lemma_flagged_same(n0, blob, n1, blob, f.arena.live_flags());
        }
        assert forall|id: NodeId| #[trigger] f.arena.live(id) implies in_blob(n1, blob, id) by {
            assert(self.arena.live(id));
            assert(f.key_at(id) == self.key_at(id));
        }
        assert forall|b: int| 0 <= b < f.buckets@.len() implies #[trigger] f.bucket_fine(b) && (b != s
            ==> f.tree(b) == self.tree(b)) by {
            assert(self.bucket_fine(b));
            assert(self.bucket_fine(s));
            if b != s {
                let t = self.tree(b);
                assert forall|id: NodeId| #[trigger] ids(t).contains(id) implies f.arena.live(id) && n1[id.ix()]
                    == n0[id.ix()] by {
                    assert(self.slot(id) == b);
                    assert(!ids(self.tree(s)).contains(id));
                    assert(NodeId { raw: id.ix() as u32 } == id);
                }
                assert(f.arena.blob().take(blob.len() as int) =~= blob);
                lemma_bucket_kept::<P>(&self.arena, &f.arena, self.buckets@[b], t);
                assert(f.buckets@[b] == self.buckets@[b]);
                assert forall|id: NodeId| #[trigger] ids(f.tree(b)).contains(id) implies f.slot(id) == b by {
                    assert(ids(t).contains(id));
                    assert(f.key_at(id) == self.key_at(id));
                }
            } else {
                assert forall|id: NodeId| #[trigger] ids(f.tree(b)).contains(id) implies f.slot(id) == b by {
                    assert(ids(self.tree(s)).contains(id));
                    assert(f.key_at(id) == self.key_at(id));
                }
            }
        }
        assert forall|id: NodeId| #[trigger] f.arena.live(id) implies ids(f.tree(f.slot(id))).contains(id) by {
            assert(self.arena.live(id));
            self.lemma_in_bucket(id);
            assert(f.key_at(id) == self.key_at(id));
            assert(f.bucket_fine(f.slot(id)));
        }
        assert(f.wf());
        self.lemma_same_view(f);
    }

    /// Tables with the same live entries have the same view.
    proof fn lemma_same_view(&self, f: &Self)
        requires
            self.wf(),
            f.wf(),
            forall|id: NodeId| #[trigger] f.arena.live(id) <==> self.arena.live(id),
            forall|id: NodeId| #[trigger]
                self.arena.live(id) ==> f.key_at(id) == self.key_at(id) && entry_at(
                    f.arena.nodes(),
                    f.arena.blob(),
                    id,
                ) == entry_at(self.arena.nodes(), self.arena.blob(), id),
        ensures
            f@ == self@,
    {
        assert forall|k: (u64, Seq<u8>)| #[trigger] f@.contains_key(k) <==> self@.contains_key(k) by {
            if f.has_key(k) {
                let id = choose|id: NodeId| f.arena.live(id) && #[trigger] f.key_at(id) == k;
                assert(self.arena.live(id) && self.key_at(id) == k);
            }
            if self.has_key(k) {
                let id = choose|id: NodeId| self.arena.live(id) && #[trigger] self.key_at(id) == k;
                assert(f.arena.live(id) && f.key_at(id) == k);
            }
        }
        assert forall|k: (u64, Seq<u8>)| #[trigger] f@.contains_key(k) implies f@[k] == self@[k] by {
            let id = choose|id: NodeId| f.arena.live(id) && #[trigger] f.key_at(id) == k;
            f.lemma_view(id);
            assert(self.arena.live(id));
            self.lemma_view(id);
        }
        assert(f@ =~= self@);
    }

    /// Bumping the activity of one entry keeps the table and changes only that entry.
    proof fn lemma_touch(&self, f: &Self, id: NodeId, activity: u16)
        requires
            self.wf(),
            self.arena.live(id),
            f.mask == self.mask,
            f.len == self.len,
            f.target_load == self.target_load,
            f.buckets == self.buckets,
            f.arena.wf(),
            same_store(&self.arena, &f.arena),
            f.arena.nodes() == self.arena.nodes().update(
                id.ix(),
                (Node { activity, ..self.arena.nodes()[id.ix()] }),
            ),
        ensures
            f.wf(),
            f.key_at(id) == self.key_at(id),
            f@ == self@.insert(
                self.key_at(id),
                (CacheEntry { activity, ..self@[self.key_at(id)] }),
            ),
    {
        let n0 = self.arena.nodes();
        let n1 = f.arena.nodes();
        let blob = self.arena.blob();
        self.arena.lemma_wf();
        assert forall|x: NodeId| #[trigger] f.arena.live(x) <==> self.arena.live(x) by {}
        assert(f.arena.live_flags() =~= self.arena.live_flags());
        assert forall|x: NodeId| x.ix() < n0.len() implies #[trigger] f.key_at(x) == self.key_at(x) && f.slot(x)
            == self.slot(x) && entry_size(n1, blob, x) == entry_size(n0, blob, x) && node_witness(n1, blob, x)
            == node_witness(n0, blob, x) by {}
        assert(flagged_size(n1, blob, f.arena.live_flags()) == flagged_size(n0, blob, self.arena.live_flags()))
            by {
            assert forall|i: int| 0 <= i < n0.len() && #[trigger] f.arena.live_flags()[i] implies entry_size(
                n1,
                blob,
                NodeId { raw: i as u32 },
            ) == entry_size(n0, blob, NodeId { raw: i as u32 }) by {
                let x = NodeId { raw: i as u32 };
                assert(f.key_at(x) == self.key_at(x));
            }
            lemma_flagged_same(n0, blob, n1, blob, f.arena.live_flags());
        }
        assert forall|x: NodeId| #[trigger] f.arena.live(x) implies in_blob(n1, blob, x) by {
            assert(self.arena.live(x));
            assert(f.key_at(x) == self.key_at(x));
        }
        assert forall|b: int| 0 <= b < f.buckets@.len() implies #[trigger] f.bucket_fine(b) && f.tree(b)
            == self.tree(b) by {
            assert(self.bucket_fine(b));
            let t = self.tree(b);
            assert(f.arena.blob().take(blob.len() as int) =~= blob);
            lemma_bucket_kept::<P>(&self.arena, &f.arena, self.buckets@[b], t);
            assert forall|x: NodeId| #[trigger] ids(f.tree(b)).contains(x) implies f.slot(x) == b by {
                assert(ids(t).contains(x));
                assert(f.key_at(x) == self.key_at(x));
            }
        }
        assert forall|x: NodeId| #[trigger] f.arena.live(x) implies ids(f.tree(f.slot(x))).contains(x) by {
            assert(self.arena.live(x));
            self.lemma_in_bucket(x);
            assert(f.key_at(x) == self.key_at(x));
            assert(f.bucket_fine(f.slot(x)));
        }
        assert(f.wf());
        let k0 = self.key_at(id);
        self.lemma_view(id);
        let m = self@.insert(k0, (CacheEntry { activity, ..self@[k0] }));
        assert forall|k: (u64, Seq<u8>)| #[trigger] f@.contains_key(k) <==> m.contains_key(k) by {
            if f.has_key(k) {
                let x = choose|x: NodeId| f.arena.live(x) && #[trigger] f.key_at(x) == k;
                assert(self.arena.live(x) && self.key_at(x) == k);
            }
            if self.has_key(k) {
                let x = choose|x: NodeId| self.arena.live(x) && #[trigger] self.key_at(x) == k;
                assert(f.arena.live(x) && f.key_at(x) == k);
            }
            if k == k0 {
                assert(f.arena.live(id) && f.key_at(id) == k);
            }
        }
        assert forall|k: (u64, Seq<u8>)| #[trigger] f@.contains_key(k) implies f@[k] == m[k] by {
            let x = choose|x: NodeId| f.arena.live(x) && #[trigger] f.key_at(x) == k;
            f.lemma_view(x);
            assert(self.arena.live(x));
            self.lemma_view(x);
            if k == k0 {
                self.lemma_unique(x, id);
            }
        }
        assert(f@ =~= m);
    }

    /// Looks up a component key.
    ///
    /// On a hit the entry's activity counter is bumped, which is what keeps hot subproblems alive
    /// across eviction sweeps. Read the result with [`Self::verdict`] and [`Self::witness`].
    pub fn lookup(&mut self, hash: u64, key: &[u8]) -> (r: Option<NodeId>)
        requires
            old(self).wf(),
        ensures
            final(self).wf(),
            r is Some <==> old(self)@.contains_key((hash, key@)),
            r matches Some(id) ==> final(self).has(id) && final(self).key_of(id) == (
                hash,
                key@,
            ) && final(self)@ == old(self)@.insert(
                (hash, key@),
                (CacheEntry {
                    activity: old(self)@[(hash, key@)].activity.saturating_add(1),
                    ..old(self)@[(hash, key@)]
                }),
            ),
            r is None ==> final(self)@ == old(self)@,
            final(self).counters() == (CacheStats {
                lookups: old(self).counters().lookups.saturating_add(1),
                hits: if r is Some {
                    old(self).counters().hits.saturating_add(1)
                } else {
                    old(self).counters().hits
                },
                ..old(self).counters()
            }),
            final(self).size() == old(self).size(),
            final(self).budget() == old(self).budget(),
            final(self).slots() == old(self).slots(),
            final(self).load() == old(self).load(),
            final(self).blob_size() == old(self).blob_size(),
            final(self).node_slots() == old(self).node_slots(),
            r is Some ==> final(self).memo() == old(self).memo().touched((hash, key@)),
            r is None ==> final(self).memo() == old(self).memo().missed(),
            forall|id: NodeId| #[trigger] final(self).has(id) <==> old(self).has(id),
            forall|id: NodeId| old(self).has(id) ==> #[trigger] final(self).key_of(id) == old(self).key_of(id),
    {
        let ghost s0 = *self;
        let ghost k = (hash, key@);
        proof {
            self.arena.lemma_wf();
            lemma_slot(hash, self.mask);
            assert(self.bucket_fine(slot_of(hash, self.mask)));
            assert(self.buckets.len() == self.buckets@.len());
        }
        self.stats.lookups = self.stats.lookups.saturating_add(1);
        let slot: usize = (hash & self.mask) as usize;
        let mut root = self.buckets[slot];
        let found = P::lookup(&mut self.arena, &mut root, hash, key);
        self.buckets[slot] = root;
        let ghost s1 = *self;
        proof {
            s0.lemma_one_bucket(&s1, slot as int);
            assert(s0@.contains_key(k) <==> s0.has_key(k));
            if s0.has_key(k) {
                let id = choose|id: NodeId| s0.arena.live(id) && #[trigger] s0.key_at(id) == k;
                s0.lemma_in_bucket(id);
                assert(ids(s0.tree(slot as int)).contains(id));
            }
            s1.arena.lemma_wf();
        }
        if found.is_none() {
            return None;
        }
        self.stats.hits = self.stats.hits.saturating_add(1);
        proof {
            assert(ids(s1.tree(slot as int)).contains(found));
            assert(s1.bucket_fine(slot as int));
            assert(s0.bucket_fine(slot as int));
            assert(s0.arena.live(found) && s0.key_at(found) == k);
            assert(s1.arena.nodes()[found.ix()].same_entry(s0.arena.nodes()[found.ix()]));
            assert(s1.key_at(found) == k);
            s1.lemma_view(found);
        }
        let ghost s2 = *self;
        let node = self.arena.get_mut(found);
        node.activity = node.activity.saturating_add(1);
        proof {
            let act = s1.arena.nodes()[found.ix()].activity.saturating_add(1);
            s1.lemma_touch(self, found, act);
        }
        Some(found)
    }

    /// The witness bitset recorded at `id`, for satisfiable entries.
    ///
    /// Bit `i` is the value of the component's `i`th variable, in the same order the key encodes
    /// them.
    pub fn witness(&self, id: NodeId) -> (w: &[u8])
        requires
            self.wf(),
            self.has(id),
            self@[self.key_of(id)].verdict == Verdict::Sat,
        ensures
            w@ == self@[self.key_of(id)].witness,
            w@.len() == witness_len(self.key_of(id).1),
    {
        proof {
            self.lemma_view(id);
            lemma_entry_size(self.arena.nodes(), self.arena.blob(), id);
            assert(in_blob(self.arena.nodes(), self.arena.blob(), id));
        }
        let n: usize = witness_len_for(self.arena.key(id));
        self.arena.witness(id, n)
    }
}

impl<P: BucketPolicy> ComponentCache<P> {
    /// The listed ids are the live ones, each once.
    spec fn lists_live(&self, s: Seq<NodeId>) -> bool {
        forall|x: NodeId| #[trigger]
            cnt(s, x) == (if self.arena.live(x) {
                1nat
            } else {
                0nat
            })
    }

    /// A list of the live ids has no duplicates and contains exactly them.
    proof fn lemma_lists_live(&self, s: Seq<NodeId>)
        requires
            self.lists_live(s),
        ensures
            s.no_duplicates(),
            forall|x: NodeId| #[trigger] s.contains(x) <==> self.arena.live(x),
    {
        assert forall|x: NodeId| #[trigger] cnt(s, x) <= 1 by {}
        lemma_cnt_no_duplicates(s);
        assert forall|x: NodeId| #[trigger] s.contains(x) <==> self.arena.live(x) by {
            lemma_cnt_contains(s, x);
            assert(cnt(s, x) == (if self.arena.live(x) {
                1nat
            } else {
                0nat
            }));
        }
    }

    /// Walks every bucket and returns the ids of all live entries.
    fn collect_entries(&self) -> (out: Vec<NodeId>)
        requires
            self.wf(),
        ensures
            self.lists_live(out@),
    {
        let mut out: Vec<NodeId> = Vec::new();
        for b in 0..self.buckets.len()
            invariant
                self.wf(),
                forall|x: NodeId| #[trigger]
                    cnt(out@, x) == (if self.arena.live(x) && self.slot(x) < b {
                        1nat
                    } else {
                        0nat
                    }),
        {
            let ghost before = out@;
            let ghost t = self.tree(b as int);
            proof {
                assert(self.bucket_fine(b as int));
            }
            self.arena.collect_subtree(self.buckets[b], &mut out);
            proof {
                assert forall|x: NodeId| #[trigger] cnt(out@, x) == (if self.arena.live(x) && self.slot(x) < b + 1 {
                    1nat
                } else {
                    0nat
                }) by {
                    assert(cnt(before, x) == (if self.arena.live(x) && self.slot(x) < b {
                        1nat
                    } else {
                        0nat
                    }));
                    lemma_cnt_contains(ids(t), x);
                    lemma_cnt_no_duplicates(ids(t));
                    assert(cnt(ids(t), x) <= 1);
                    if ids(t).contains(x) {
                        assert(self.slot(x) == b);
                        assert(self.arena.live(x));
                    }
                    if self.arena.live(x) && self.slot(x) == b {
                        self.lemma_in_bucket(x);
                    }
                }
            }
        }
        proof {
            assert forall|x: NodeId| #[trigger] cnt(out@, x) == (if self.arena.live(x) {
                1nat
            } else {
                0nat
            }) by {
                if self.arena.live(x) {
                    self.lemma_in_bucket(x);
                }
            }
        }
        out
    }

    /// The entries of a table, packed end to end, take what the map says.
    proof fn lemma_packed_bytes(&self, f: &Self, s: Seq<NodeId>)
        requires
            self.loose(),
            self.lists_live(s),
            f.wf(),
            forall|x: NodeId| #[trigger] f.arena.live(x) <==> self.arena.live(x),
            forall|x: NodeId| #[trigger]
                self.arena.live(x) ==> f.key_at(x) == self.key_at(x) && entry_at(
                    f.arena.nodes(),
                    f.arena.blob(),
                    x,
                ) == entry_at(self.arena.nodes(), self.arena.blob(), x),
        ensures
            f@.dom().finite(),
            f@.dom().len() == s.len(),
            flagged_size(self.arena.nodes(), self.arena.blob(), self.arena.live_flags()) == entries_bytes(f@),
            s.len() == self.len,
    {
        let nodes = self.arena.nodes();
        let blob = self.arena.blob();
        let flags = self.arena.live_flags();
        self.lemma_lists_live(s);
        self.arena.lemma_wf();
        assert forall|i: int| 0 <= i < s.len() implies in_blob(nodes, blob, #[trigger] s[i]) && f@.contains_key(
            self.key_at(s[i]),
        ) && f@[self.key_at(s[i])] == entry_at(nodes, blob, s[i]) by {
            assert(s.contains(s[i]));
            assert(self.arena.live(s[i]));
            f.lemma_view(s[i]);
        }
        assert forall|i: int, j: int| 0 <= i < j < s.len() implies self.key_at(#[trigger] s[i]) != self.key_at(
            #[trigger] s[j],
        ) by {
            assert(s.contains(s[i]) && s.contains(s[j]));
            assert(self.arena.live(s[i]) && self.arena.live(s[j]));
        }
        assert forall|k: (u64, Seq<u8>)| #[trigger] f@.contains_key(k) implies exists|i: int|
            0 <= i < s.len() && self.key_at(#[trigger] s[i]) == k by {
            let x = choose|x: NodeId| f.arena.live(x) && #[trigger] f.key_at(x) == k;
            assert(self.arena.live(x));
            assert(s.contains(x));
        }
        lemma_spelled_out(nodes, blob, s, f@);
        assert forall|x: NodeId| #[trigger] s.contains(x) <==> x.ix() < flags.len() && flags[x.ix()] by {
            assert(NodeId { raw: x.ix() as u32 } == x);
            assert(s.contains(x) <==> self.arena.live(x));
        }
        lemma_packed_is_flagged(nodes, blob, s, flags);
        assert forall|i: int| 0 <= i < s.len() implies (#[trigger] s[i]).ix() < flags.len() && flags[s[i].ix()] by {
            assert(s.contains(s[i]));
        }
        lemma_flagged_ids_bounded(s, flags);
        lemma_flagged_ids_all(s, flags);
    }

    /// Live entries are stored and have distinct keys; nothing is said of how they are linked.
    spec fn loose(&self) -> bool {
        &&& self.store_ok()
        &&& power_of_two(self.buckets@.len())
        &&& self.buckets@.len() >= INITIAL_BUCKETS
        &&& self.mask as int == self.buckets@.len() - 1
        &&& forall|a: NodeId, b: NodeId| #[trigger]
            self.arena.live(a) && #[trigger] self.arena.live(b) && self.key_at(a) == self.key_at(b) ==> a == b
    }

    proof fn lemma_wf_loose(&self)
        requires
            self.wf(),
        ensures
            self.loose(),
    {
        assert forall|a: NodeId, b: NodeId| #[trigger]
            self.arena.live(a) && #[trigger] self.arena.live(b) && self.key_at(a) == self.key_at(b) implies a
            == b by {
            self.lemma_unique(a, b);
        }
    }

    /// Relinking keeps everything about the live entries but their links.
    proof fn lemma_relinked_loose(&self, f: &Self, touched: Seq<NodeId>)
        requires
            self.loose(),
            f.mask == self.mask,
            f.len == self.len,
            f.target_load == self.target_load,
            f.buckets@.len() == self.buckets@.len(),
            f.arena.wf(),
            same_store(&self.arena, &f.arena),
            relinked(self.arena.nodes(), f.arena.nodes(), touched),
        ensures
            f.loose(),
            forall|x: NodeId| #[trigger] f.arena.live(x) <==> self.arena.live(x),
            forall|x: NodeId| #[trigger]
                self.arena.live(x) ==> f.key_at(x) == self.key_at(x) && f.slot(x) == self.slot(x) && entry_at(
                    f.arena.nodes(),
                    f.arena.blob(),
                    x,
                ) == entry_at(self.arena.nodes(), self.arena.blob(), x),
    {
        let n0 = self.arena.nodes();
        let n1 = f.arena.nodes();
        let blob = self.arena.blob();
        self.arena.lemma_wf();
        assert forall|x: NodeId| #[trigger] f.arena.live(x) <==> self.arena.live(x) by {}
        assert(f.arena.live_flags() =~= self.arena.live_flags());
        assert forall|x: NodeId| x.ix() < n0.len() implies #[trigger] f.key_at(x) == self.key_at(x) && f.slot(x)
            == self.slot(x) && entry_size(n1, blob, x) == entry_size(n0, blob, x) && entry_at(n1, blob, x)
            == entry_at(n0, blob, x) by {
            assert(n1[x.ix()].same_entry(n0[x.ix()]));
        }
        assert forall|i: int| 0 <= i < n0.len() && #[trigger] f.arena.live_flags()[i] implies entry_size(
            n1,
            blob,
            NodeId { raw: i as u32 },
        ) == entry_size(n0, blob, NodeId { raw: i as u32 }) by {
            let x = NodeId { raw: i as u32 };
            assert(f.key_at(x) == self.key_at(x));
        }
        lemma_flagged_same(n0, blob, n1, blob, f.arena.live_flags());
        assert forall|x: NodeId| #[trigger] f.arena.live(x) implies in_blob(n1, blob, x) by {
            assert(self.arena.live(x));
            assert(f.key_at(x) == self.key_at(x));
            assert(n1[x.ix()].same_entry(n0[x.ix()]));
        }
        assert forall|x: NodeId| #[trigger] self.arena.live(x) implies f.key_at(x) == self.key_at(x) && f.slot(
            x,
        ) == self.slot(x) && entry_at(n1, blob, x) == entry_at(n0, blob, x) by {
            assert(f.key_at(x) == self.key_at(x));
        }
        assert forall|a: NodeId, b: NodeId| #[trigger]
            f.arena.live(a) && #[trigger] f.arena.live(b) && f.key_at(a) == f.key_at(b) implies a == b by {
            assert(self.arena.live(a) && self.arena.live(b));
        }
    }

    /// The first `n` buckets are fine and hold the entries of their slots.
    spec fn filed_below(&self, n: int) -> bool {
        &&& forall|b: int| 0 <= b < n ==> #[trigger] self.bucket_fine(b)
        &&& forall|id: NodeId| #[trigger]
            self.arena.live(id) && self.slot(id) < n ==> ids(self.tree(self.slot(id))).contains(id)
    }

    /// Re-links the live entries into the bucket array, whose length fixes the slots.
    #[verifier::rlimit(100)]
    fn rebuild_from(&mut self, members: &Vec<NodeId>)
        requires
            old(self).loose(),
            old(self).lists_live(members@),
        ensures
            final(self).wf(),
            forall|x: NodeId| #[trigger] final(self).arena.live(x) <==> old(self).arena.live(x),
            forall|x: NodeId| #[trigger]
                old(self).arena.live(x) ==> final(self).key_at(x) == old(self).key_at(x) && entry_at(
                    final(self).arena.nodes(),
                    final(self).arena.blob(),
                    x,
                ) == entry_at(old(self).arena.nodes(), old(self).arena.blob(), x),
            final(self).mask == old(self).mask,
            final(self).buckets@.len() == old(self).buckets@.len(),
            final(self).stats == old(self).stats,
            final(self).budget_bytes == old(self).budget_bytes,
            final(self).target_load == old(self).target_load,
            final(self).len == old(self).len,
            final(self).arena.blob() == old(self).arena.blob(),
            final(self).arena.nodes().len() == old(self).arena.nodes().len(),
    {
        let ghost s0 = *self;
        proof {
            self.lemma_lists_live(members@);
            self.arena.lemma_wf();
            assert(self.buckets.len() == self.buckets@.len());
        }
        let slots: usize = self.buckets.len();
        let mut per_bucket: Vec<Vec<NodeId>> = Vec::new();
        for b in 0..slots
            invariant
                per_bucket@.len() == b,
                forall|j: int| 0 <= j < b ==> (#[trigger] per_bucket@[j])@ == Seq::<NodeId>::empty(),
        {
            per_bucket.push(Vec::new());
        }
        proof {
            assert(members@.take(0) =~= Seq::<NodeId>::empty());
        }
        for i in 0..members.len()
            invariant
                *self == s0,
                s0.loose(),
                slots == s0.buckets@.len(),
                per_bucket@.len() == slots,
                forall|x: NodeId| #[trigger] members@.contains(x) <==> s0.arena.live(x),
                members@.no_duplicates(),
                forall|j: int, x: NodeId|
                    0 <= j < slots ==> (#[trigger] (per_bucket@[j])@.contains(x) <==> members@.take(
                        i as int,
                    ).contains(x) && s0.slot(x) == j),
                forall|j: int| 0 <= j < slots ==> (#[trigger] per_bucket@[j])@.no_duplicates(),
        {
            let id = members[i];
            proof {
                assert(members@.contains(members@[i as int]));
                lemma_slot(s0.arena.nodes()[id.ix()].hash, s0.mask);
                assert(members@.take(i + 1) =~= members@.take(i as int).push(id));
                lemma_push_contains(members@.take(i as int), id);
                assert(!members@.take(i as int).contains(id)) by {
                    if members@.take(i as int).contains(id) {
                        let q = choose|q: int| 0 <= q < i && members@.take(i as int)[q] == id;
                        assert(members@[q] == members@[i as int]);
                    }
                }
            }
            let slot: usize = (self.arena.get(id).hash & self.mask) as usize;
            let ghost before = per_bucket@;
            per_bucket[slot].push(id);
            proof {
                lemma_push_contains(before[slot as int]@, id);
                assert forall|j: int, x: NodeId| 0 <= j < slots implies (#[trigger] (per_bucket@[j])@.contains(x)
                    <==> members@.take(i + 1).contains(x) && s0.slot(x) == j) by {
                    assert(before[j]@.contains(x) <==> members@.take(i as int).contains(x) && s0.slot(x) == j);
                    if j == slot {
                        assert(per_bucket@[j]@ =~= before[j]@.push(id));
                    } else {
                        assert(per_bucket@[j] == before[j]);
                    }
                }
                assert forall|j: int| 0 <= j < slots implies (#[trigger] per_bucket@[j])@.no_duplicates() by {
                    if j == slot {
                        assert(per_bucket@[j]@ =~= before[j]@.push(id));
                        let v = before[j]@;
                        assert(v.no_duplicates());
                        assert(!v.contains(id));
                        assert forall|a: int, b: int|
                            0 <= a < v.push(id).len() && 0 <= b < v.push(id).len() && a != b implies v.push(id)[a]
                            != v.push(id)[b] by {
                            if a == v.len() {
                                assert(v.contains(v[b]));
                            } else if b == v.len() {
                                assert(v.contains(v[a]));
                            }
                        }
                    } else {
                        assert(per_bucket@[j] == before[j]);
                    }
                }
            }
        }
        proof {
            assert(members@.take(members@.len() as int) =~= members@);
            assert(s0.filed_below(0)) by {
                assert forall|id: NodeId| #[trigger] s0.arena.live(id) && s0.slot(id) < 0 implies ids(
                    s0.tree(s0.slot(id)),
                ).contains(id) by {
                    lemma_slot(s0.arena.nodes()[id.ix()].hash, s0.mask);
                }
            }
        }
        let mut scratch: Vec<u8> = Vec::new();
        for b in 0..slots
            invariant
                s0.loose(),
                self.loose(),
                slots == s0.buckets@.len(),
                self.mask == s0.mask,
                self.buckets@.len() == slots,
                self.stats == s0.stats,
                self.budget_bytes == s0.budget_bytes,
                self.target_load == s0.target_load,
                self.len == s0.len,
                same_store(&s0.arena, &self.arena),
                self.arena.nodes().len() == s0.arena.nodes().len(),
                forall|x: NodeId| #[trigger] self.arena.live(x) <==> s0.arena.live(x),
                forall|x: NodeId| #[trigger]
                    s0.arena.live(x) ==> self.key_at(x) == s0.key_at(x) && self.slot(x) == s0.slot(x)
                        && entry_at(self.arena.nodes(), self.arena.blob(), x) == entry_at(
                        s0.arena.nodes(),
                        s0.arena.blob(),
                        x,
                    ),
                per_bucket@.len() == slots,
                forall|j: int, x: NodeId|
                    0 <= j < slots ==> (#[trigger] (per_bucket@[j])@.contains(x) <==> s0.arena.live(x)
                        && s0.slot(x) == j),
                forall|j: int| 0 <= j < slots ==> (#[trigger] per_bucket@[j])@.no_duplicates(),
                self.filed_below(b as int),
        {
            let ghost before = *self;
            let ghost mem = per_bucket@[b as int]@;
            proof {
                assert forall|id: NodeId| #[trigger] mem.contains(id) implies self.arena.live(id) && key_fits(
                    self.arena.nodes(),
                    self.arena.blob(),
                    id,
                ) by {
                    assert(s0.arena.live(id));
                    assert(self.arena.live(id));
                    assert(in_blob(self.arena.nodes(), self.arena.blob(), id));
                }
                assert(distinct_keys(self.arena.nodes(), self.arena.blob(), mem)) by {
                    assert forall|x: NodeId, y: NodeId| #[trigger]
                        mem.contains(x) && #[trigger] mem.contains(y) && entry_key(
                            self.arena.nodes(),
                            self.arena.blob(),
                            x,
                        ) == entry_key(self.arena.nodes(), self.arena.blob(), y) implies x == y by {
                        assert(self.key_at(x) == self.key_at(y));
                    }
                }
            }
            let root = P::rebuild(&mut self.arena, per_bucket[b].as_slice(), &mut scratch);
            self.buckets[b] = root;
            proof {
                before.lemma_relinked_loose(self, mem);
                self.lemma_filed_step(&before, mem, b as int);
                assert forall|x: NodeId| #[trigger] s0.arena.live(x) implies self.key_at(x) == s0.key_at(x)
                    && self.slot(x) == s0.slot(x) && entry_at(self.arena.nodes(), self.arena.blob(), x)
                    == entry_at(s0.arena.nodes(), s0.arena.blob(), x) by {
                    assert(before.arena.live(x));
                }
            }
        }
        proof {
            assert forall|id: NodeId| #[trigger] self.arena.live(id) implies ids(
                self.tree(self.slot(id)),
            ).contains(id) by {
                lemma_slot(self.arena.nodes()[id.ix()].hash, self.mask);
            }
        }
    }

    /// Rebuilding bucket `b` extends the buckets that are in order by one.
    proof fn lemma_filed_step(&self, o: &Self, mem: Seq<NodeId>, b: int)
        requires
            o.loose(),
            self.loose(),
            o.filed_below(b),
            0 <= b < o.buckets@.len(),
            self.mask == o.mask,
            self.buckets@.len() == o.buckets@.len(),
            forall|j: int| 0 <= j < o.buckets@.len() && j != b ==> #[trigger] self.buckets@[j] == o.buckets@[j],
            same_store(&o.arena, &self.arena),
            relinked(o.arena.nodes(), self.arena.nodes(), mem),
            forall|x: NodeId| #[trigger] mem.contains(x) <==> o.arena.live(x) && o.slot(x) == b,
            forall|x: NodeId| #[trigger] self.arena.live(x) <==> o.arena.live(x),
            forall|x: NodeId| #[trigger]
                o.arena.live(x) ==> self.key_at(x) == o.key_at(x) && self.slot(x) == o.slot(x),
            bucket_of(&self.arena, self.buckets@[b], self.tree(b)),
            P::shape(self.arena.nodes(), self.arena.blob(), self.tree(b)),
            forall|x: NodeId| #[trigger] ids(self.tree(b)).contains(x) <==> mem.contains(x),
        ensures
            self.filed_below(b + 1),
    {
        let blob = o.arena.blob();
        assert forall|j: int| 0 <= j < b + 1 implies #[trigger] self.bucket_fine(j) && (j < b ==> self.tree(j)
            == o.tree(j)) by {
            if j < b {
                assert(o.bucket_fine(j));
                let t = o.tree(j);
                assert forall|id: NodeId| #[trigger] ids(t).contains(id) implies self.arena.live(id)
                    && self.arena.nodes()[id.ix()] == o.arena.nodes()[id.ix()] by {
                    assert(o.slot(id) == j);
                    assert(!mem.contains(id));
                    assert(NodeId { raw: id.ix() as u32 } == id);
                    assert(o.arena.live(id));
                }
                assert(self.arena.blob().take(blob.len() as int) =~= blob);
                assert(self.buckets@[j] == o.buckets@[j]);
                lemma_bucket_kept::<P>(&o.arena, &self.arena, o.buckets@[j], t);
                assert forall|id: NodeId| #[trigger] ids(self.tree(j)).contains(id) implies self.slot(id) == j by {
                    assert(ids(t).contains(id));
                    assert(o.arena.live(id));
                }
            } else {
                assert forall|id: NodeId| #[trigger] ids(self.tree(j)).contains(id) implies self.slot(id) == j by {
                    assert(mem.contains(id));
                    assert(o.arena.live(id));
                }
            }
        }
        assert forall|id: NodeId| #[trigger] self.arena.live(id) && self.slot(id) < b + 1 implies ids(
            self.tree(self.slot(id)),
        ).contains(id) by {
            assert(o.arena.live(id));
            lemma_slot(self.arena.nodes()[id.ix()].hash, self.mask);
            if self.slot(id) < b {
                assert(self.bucket_fine(self.slot(id)));
                assert(ids(o.tree(o.slot(id))).contains(id));
            } else {
                assert(mem.contains(id));
            }
        }
    }
}

impl<P: BucketPolicy> ComponentCache<P> {
    /// Doubles the bucket array and redistributes every entry.
    fn resize(&mut self)
        requires
            old(self).wf(),
            old(self).buckets@.len() <= usize::MAX / 2,
        ensures
            final(self).wf(),
            final(self)@ == old(self)@,
            final(self).slots() == 2 * old(self).slots(),
            final(self).counters() == (CacheStats {
                resizes: old(self).counters().resizes.saturating_add(1),
                ..old(self).counters()
            }),
            final(self).size() == old(self).size(),
            final(self).budget() == old(self).budget(),
            final(self).load() == old(self).load(),
            final(self).blob_size() == old(self).blob_size(),
            final(self).arena.nodes().len() == old(self).arena.nodes().len(),
    {
        let ghost s0 = *self;
        proof {
            self.lemma_wf_loose();
            lemma_powers_of_two(self.buckets@.len());
        }
        let new_len: usize = self.buckets.len() * 2;
        let members = self.collect_entries();
        self.buckets = vec![NodeId::none(); new_len];
        self.mask = new_len as u64 - 1;
        self.stats.resizes = self.stats.resizes.saturating_add(1);
        let ghost s1 = *self;
        proof {
            assert(s1.loose()) by {
                assert forall|a: NodeId, b: NodeId| #[trigger]
                    s1.arena.live(a) && #[trigger] s1.arena.live(b) && s1.key_at(a) == s1.key_at(b) implies a
                    == b by {
                    assert(s0.arena.live(a) && s0.arena.live(b));
                    assert(s0.key_at(a) == s0.key_at(b));
                }
            }
            assert(s1.lists_live(members@)) by {
                assert forall|x: NodeId| #[trigger] cnt(members@, x) == (if s1.arena.live(x) {
                    1nat
                } else {
                    0nat
                }) by {
                    assert(s0.lists_live(members@));
                }
            }
        }
        self.rebuild_from(&members);
        proof {
            assert forall|id: NodeId| #[trigger] s0.arena.live(id) implies self.key_at(id) == s0.key_at(id)
                && entry_at(self.arena.nodes(), self.arena.blob(), id) == entry_at(
                s0.arena.nodes(),
                s0.arena.blob(),
                id,
            ) by {
                assert(s1.arena.live(id));
                assert(s1.key_at(id) == s0.key_at(id));
            }
            assert forall|id: NodeId| #[trigger] self.arena.live(id) <==> s0.arena.live(id) by {
                assert(s1.arena.live(id) <==> s0.arena.live(id));
            }
            s0.lemma_same_view(self);
        }
    }

    /// Part of the way through a sweep over `members`: the first `i` have been decayed.
    spec fn sweeping(&self, o: &Self, members: Seq<NodeId>, i: int, survivors: Seq<NodeId>) -> bool {
        let n0 = o.arena.nodes();
        let n1 = self.arena.nodes();
        let blob = o.arena.blob();
        &&& self.arena.wf()
        &&& self.arena.blob() == blob
        &&& n1.len() == n0.len()
        &&& self.buckets == o.buckets
        &&& self.mask == o.mask
        &&& self.target_load == o.target_load
        &&& self.budget_bytes == o.budget_bytes
        &&& self.stats == o.stats
        &&& forall|x: NodeId| #[trigger]
            self.arena.live(x) <==> o.arena.live(x) && !(members.take(i).contains(x) && n0[x.ix()].activity / 2
                == 0)
        &&& forall|x: NodeId| #[trigger]
            self.arena.live(x) ==> n1[x.ix()] == (Node {
                activity: if members.take(i).contains(x) {
                    n0[x.ix()].activity / 2
                } else {
                    n0[x.ix()].activity
                },
                ..n0[x.ix()]
            })
        &&& self.len == cnt(self.arena.live_flags(), true)
        &&& self.arena.dead() + flagged_size(n1, blob, self.arena.live_flags()) == flagged_size(
            n0,
            blob,
            o.arena.live_flags(),
        )
        &&& forall|x: NodeId| #[trigger]
            cnt(survivors, x) == (if members.take(i).contains(x) && self.arena.live(x) {
                1nat
            } else {
                0nat
            })
    }

    /// Freeing an entry takes it out of the counts and moves its bytes to the dead ones.
    proof fn lemma_freed(&self, f: &Self, id: NodeId)
        requires
            self.arena.wf(),
            self.arena.live(id),
            f.arena.wf(),
            f.arena.free_ids() == seq![id] + self.arena.free_ids(),
            f.arena.blob() == self.arena.blob(),
            f.arena.nodes().len() == self.arena.nodes().len(),
            forall|j: int|
                0 <= j < f.arena.nodes().len() && j != id.ix() ==> #[trigger] f.arena.nodes()[j]
                    == self.arena.nodes()[j],
        ensures
            forall|x: NodeId| #[trigger] f.arena.live(x) <==> self.arena.live(x) && x != id,
            cnt(f.arena.live_flags(), true) + 1 == cnt(self.arena.live_flags(), true),
            flagged_size(f.arena.nodes(), f.arena.blob(), f.arena.live_flags()) == flagged_size(
                self.arena.nodes(),
                self.arena.blob(),
                self.arena.live_flags(),
            ) - entry_size(self.arena.nodes(), self.arena.blob(), id),
    {
        let n0 = self.arena.nodes();
        let n1 = f.arena.nodes();
        let blob = self.arena.blob();
        let f0 = self.arena.live_flags();
        let f1 = f.arena.live_flags();
        self.arena.lemma_wf();
        crate::sorting::lemma_concat_contains(seq![id], self.arena.free_ids());
        assert(seq![id][0] == id);
        assert forall|x: NodeId| #[trigger] seq![id].contains(x) <==> x == id by {
            if x == id {
                assert(seq![id][0] == x);
            }
        }
        assert forall|x: NodeId| #[trigger] f.arena.live(x) <==> self.arena.live(x) && x != id by {
            assert(f.arena.free_ids().contains(x) <==> seq![id].contains(x) || self.arena.free_ids().contains(x));
        }
        assert(NodeId { raw: id.ix() as u32 } == id);
        assert(f1 =~= f0.update(id.ix(), false)) by {
            assert forall|j: int| 0 <= j < f1.len() implies f1[j] == f0.update(id.ix(), false)[j] by {
                let x = NodeId { raw: j as u32 };
                assert(f.arena.live(x) <==> self.arena.live(x) && x != id);
            }
        }
        lemma_cnt_update(f0, id.ix(), false, true);
        lemma_flagged_clear(n0, blob, f0, id.ix());
        assert forall|j: int| 0 <= j < f1.len() && #[trigger] f1[j] implies entry_size(
            n1,
            blob,
            NodeId { raw: j as u32 },
        ) == entry_size(n0, blob, NodeId { raw: j as u32 }) by {
            assert(j != id.ix());
            assert(n1[j] == n0[j]);
        }
        lemma_flagged_same(n0, blob, n1, blob, f1);
    }

    /// Halves every activity counter and frees the entries that reach zero. Returns the others.
    #[verifier::rlimit(100)]
    fn decay(&mut self, members: &Vec<NodeId>) -> (survivors: Vec<NodeId>)
        requires
            old(self).wf(),
            old(self).lists_live(members@),
        ensures
            final(self).sweeping(old(self), members@, members@.len() as int, survivors@),
            final(self).len <= old(self).len,
    {
        let ghost s0 = *self;
        let ghost n0 = self.arena.nodes();
        let ghost blob = self.arena.blob();
        let mut survivors: Vec<NodeId> = Vec::new();
        proof {
            self.lemma_lists_live(members@);
            assert(members@.take(0) =~= Seq::<NodeId>::empty());
            self.arena.lemma_wf();
        }
        for i in 0..members.len()
            invariant
                s0.wf(),
                n0 == s0.arena.nodes(),
                blob == s0.arena.blob(),
                members@.no_duplicates(),
                forall|x: NodeId| #[trigger] members@.contains(x) <==> s0.arena.live(x),
                self.sweeping(&s0, members@, i as int, survivors@),
                self.len <= s0.len,
        {
            let id = members[i];
            let ghost before = *self;
            let ghost sb = survivors@;
            let ghost nb = self.arena.nodes();
            let ghost part = members@.take(i as int);
            proof {
                assert(members@.contains(members@[i as int]));
                assert(members@.take(i + 1) =~= part.push(id));
                lemma_push_contains(part, id);
                assert(!part.contains(id)) by {
                    if part.contains(id) {
                        let q = choose|q: int| 0 <= q < i && part[q] == id;
                        assert(members@[q] == members@[i as int]);
                    }
                }
                assert(s0.arena.live(id));
                assert(self.arena.live(id));
                assert(in_blob(n0, blob, id));
                self.arena.lemma_wf();
                assert(NodeId { raw: id.ix() as u32 } == id);
            }
            let half: u16 = self.arena.get(id).activity / 2;
            let node = self.arena.get_mut(id);
            node.activity = half;
            let ghost mid = *self;
            let ghost nm = self.arena.nodes();
            proof {
                assert forall|x: NodeId| #[trigger] mid.arena.live(x) <==> before.arena.live(x) by {}
                assert(mid.arena.live_flags() =~= before.arena.live_flags());
                assert forall|j: int| 0 <= j < nb.len() && #[trigger] mid.arena.live_flags()[j] implies entry_size(
                    nm,
                    blob,
                    NodeId { raw: j as u32 },
                ) == entry_size(nb, blob, NodeId { raw: j as u32 }) by {}
                lemma_flagged_same(nb, blob, nm, blob, mid.arena.live_flags());
                assert(entry_size(nm, blob, id) == entry_size(n0, blob, id));
                lemma_entry_size(nm, blob, id);
                lemma_flagged_bounds(nm, blob, mid.arena.live_flags().update(id.ix(), false));
                lemma_flagged_clear(nm, blob, mid.arena.live_flags(), id.ix());
                lemma_cnt_push(sb, id, id);
            }
            if half == 0 {
                let n: usize = witness_len_for(self.arena.key(id));
                let sat = self.arena.get(id).verdict() == Verdict::Sat;
                self.arena.free(
                    id,
                    if sat {
                        n
                    } else {
                        0
                    },
                );
                proof {
                    mid.lemma_freed(self, id);
                    lemma_cnt_contains(mid.arena.live_flags(), true);
                }
                self.len = self.len - 1;
            } else {
                survivors.push(id);
            }
            proof {
                let n1 = self.arena.nodes();
                assert forall|x: NodeId| #[trigger] self.arena.live(x) <==> s0.arena.live(x) && !(members@.take(
                    i + 1,
                ).contains(x) && n0[x.ix()].activity / 2 == 0) by {
                    assert(before.arena.live(x) <==> s0.arena.live(x) && !(part.contains(x)
                        && n0[x.ix()].activity / 2 == 0));
                    assert(mid.arena.live(x) <==> before.arena.live(x));
                }
                assert forall|x: NodeId| #[trigger] self.arena.live(x) implies n1[x.ix()] == (Node {
                    activity: if members@.take(i + 1).contains(x) {
                        n0[x.ix()].activity / 2
                    } else {
                        n0[x.ix()].activity
                    },
                    ..n0[x.ix()]
                }) by {
                    assert(mid.arena.live(x));
                    assert(before.arena.live(x));
                }
                assert forall|x: NodeId| #[trigger] cnt(survivors@, x) == (if members@.take(i + 1).contains(x)
                    && self.arena.live(x) {
                    1nat
                } else {
                    0nat
                }) by {
                    assert(cnt(sb, x) == (if part.contains(x) && before.arena.live(x) {
                        1nat
                    } else {
                        0nat
                    }));
                    lemma_cnt_push(sb, id, x);
                    assert(mid.arena.live(x) <==> before.arena.live(x));
                }
            }
        }
        survivors
    }
}

impl<P: BucketPolicy> ComponentCache<P> {
    /// Halves every activity counter and drops the entries that reach zero.
    ///
    /// Entries reused since the last sweep survive; entries inserted once and never revisited do
    /// not. Dropping *all* entries would be simpler but throws away the hot working set along
    /// with the cold tail.
    #[verifier::rlimit(100)]
    fn sweep(&mut self)
        requires
            old(self).wf(),
        ensures
            final(self).wf(),
            final(self)@ == decayed(old(self)@),
            final(self).slots() == old(self).slots(),
            final(self).load() == old(self).load(),
            final(self).size() <= old(self).size(),
            final(self).budget() == swept_budget(
                old(self).budget(),
                old(self).size(),
                final(self).size(),
            ),
            final(self).counters() == swept_stats(
                old(self).counters(),
                old(self).size() - final(self).size(),
            ),
            final(self).blob_size() <= old(self).blob_size(),
            final(self).blob_size() == entries_bytes(final(self)@),
            final(self).size() == final(self)@.dom().len(),
            final(self).arena.nodes().len() == old(self).arena.nodes().len(),
    {
        let ghost s0 = *self;
        let ghost n0 = self.arena.nodes();
        let ghost blob = self.arena.blob();
        let before: usize = self.len;
        let members = self.collect_entries();
        proof {
            s0.lemma_lists_live(members@);
            s0.lemma_wf_loose();
            s0.arena.lemma_wf();
        }
        let survivors = self.decay(&members);
        let ghost s1 = *self;
        let ghost n1 = self.arena.nodes();
        let freed: usize = before - self.len;
        proof {
            assert(members@.take(members@.len() as int) =~= members@);
            s1.arena.lemma_wf();
            assert(s1.lists_live(survivors@)) by {
                assert forall|x: NodeId| #[trigger] cnt(survivors@, x) == (if s1.arena.live(x) {
                    1nat
                } else {
                    0nat
                }) by {
                    assert(s1.arena.live(x) ==> s0.arena.live(x));
                }
            }
            s1.lemma_lists_live(survivors@);
            assert forall|id: NodeId| #[trigger] survivors@.contains(id) implies s1.arena.live(id) && in_blob(
                n1,
                blob,
                id,
            ) by {
                assert(s1.arena.live(id));
                assert(s0.arena.live(id));
            }
            let flags = s1.arena.live_flags();
            assert forall|x: NodeId| #[trigger] survivors@.contains(x) <==> x.ix() < flags.len() && flags[x.ix()] by {
                assert(NodeId { raw: x.ix() as u32 } == x);
                assert(survivors@.contains(x) <==> s1.arena.live(x));
            }
            lemma_packed_is_flagged(n1, blob, survivors@, flags);
        }
        // Reclaim the key bytes of everything just dropped; `free` can only mark them dead.
        self.arena.compact_blob(survivors.as_slice());
        // If every entry survived, the table is entirely hot and sweeping again would achieve
        // nothing but another full walk on the next insert. Raising the budget keeps the solver
        // running rather than thrashing. This triggers only when *nothing* was freed.
        if freed == 0 && self.len > 0 {
            self.budget_bytes = if self.budget_bytes > usize::MAX / 2 {
                usize::MAX
            } else {
                self.budget_bytes * 2
            };
        }
        self.stats.evicted = self.stats.evicted.saturating_add(freed as u64);
        self.stats.sweeps = self.stats.sweeps.saturating_add(1);
        let ghost s2 = *self;
        let ghost n2 = self.arena.nodes();
        let ghost blob2 = self.arena.blob();
        proof {
            assert forall|x: NodeId| #[trigger] s2.arena.live(x) <==> s1.arena.live(x) by {}
            assert(s2.arena.live_flags() =~= s1.arena.live_flags());
            assert forall|x: NodeId| #[trigger] s2.arena.live(x) implies s2.arena.keeps(&s1.arena, x)
                && s0.arena.live(x) && s2.key_at(x) == s0.key_at(x) && entry_size(n2, blob2, x) == entry_size(
                n1,
                blob,
                x,
            ) && entry_at(n2, blob2, x) == (CacheEntry {
                activity: entry_at(n0, blob, x).activity / 2,
                ..entry_at(n0, blob, x)
            }) by {
                assert(s1.arena.live(x));
                assert(survivors@.contains(x));
                assert(members@.contains(x));
            }
            assert forall|j: int| 0 <= j < n1.len() && #[trigger] s2.arena.live_flags()[j] implies entry_size(
                n2,
                blob2,
                NodeId { raw: j as u32 },
            ) == entry_size(n1, blob, NodeId { raw: j as u32 }) by {
                assert(s2.arena.live(NodeId { raw: j as u32 }));
            }
            lemma_flagged_same(n1, blob, n2, blob2, s2.arena.live_flags());
            assert(s2.loose()) by {
                assert forall|a: NodeId, b: NodeId| #[trigger]
                    s2.arena.live(a) && #[trigger] s2.arena.live(b) && s2.key_at(a) == s2.key_at(b) implies a
                    == b by {
                    assert(s0.arena.live(a) && s0.arena.live(b));
                }
            }
            assert(s2.lists_live(survivors@)) by {
                assert forall|x: NodeId| #[trigger] cnt(survivors@, x) == (if s2.arena.live(x) {
                    1nat
                } else {
                    0nat
                }) by {
                    assert(s2.arena.live(x) <==> s1.arena.live(x));
                }
            }
        }
        self.rebuild_from(&survivors);
        proof {
            let m = decayed(s0@);
            assert forall|k: (u64, Seq<u8>)| #[trigger] self@.contains_key(k) <==> m.contains_key(k) by {
                if self.has_key(k) {
                    let x = choose|x: NodeId| self.arena.live(x) && #[trigger] self.key_at(x) == k;
                    assert(s2.arena.live(x));
                    assert(s1.arena.live(x));
                    assert(s0.arena.live(x) && members@.contains(x));
                    s0.lemma_view(x);
                }
                if m.contains_key(k) {
                    let x = choose|x: NodeId| s0.arena.live(x) && #[trigger] s0.key_at(x) == k;
                    s0.lemma_view(x);
                    assert(s1.arena.live(x));
                    assert(s2.arena.live(x));
                    assert(self.arena.live(x) && self.key_at(x) == k);
                }
            }
            assert forall|k: (u64, Seq<u8>)| #[trigger] self@.contains_key(k) implies self@[k] == m[k] by {
                let x = choose|x: NodeId| self.arena.live(x) && #[trigger] self.key_at(x) == k;
                self.lemma_view(x);
                assert(s2.arena.live(x));
                assert(s0.arena.live(x));
                s0.lemma_view(x);
            }
            assert(self@ =~= m);
            assert(packed_len(n1, blob, survivors@) == flagged_size(n1, blob, s1.arena.live_flags()));
            s2.lemma_packed_bytes(self, survivors@);
        }
    }

    /// The table can hold `n` bytes: some room for the nodes, for the key bytes and for the slots
    /// adds up to it.
    pub open spec fn can_hold(&self, n: int) -> bool {
        exists|node_room: usize, blob_room: usize, slot_room: usize|
            #![trigger room_of::<Node>(self.node_slots() as nat, node_room), room_of::<u8>(self.blob_size() as nat, blob_room), room_of::<NodeId>(self.slots() as nat, slot_room)]
            room_of::<Node>(self.node_slots() as nat, node_room) && room_of::<u8>(
                self.blob_size() as nat,
                blob_room,
            ) && room_of::<NodeId>(self.slots() as nat, slot_room) && n == capped_bytes(
                node_room * size_of::<Node>() + blob_room + slot_room * size_of::<NodeId>(),
            )
    }

    /// Approximate resident size, in bytes.
    ///
    /// How much room the lists have beyond what they hold is up to the allocator.
    pub fn memory_bytes(&self) -> (n: usize)
        requires
            self.wf(),
        ensures
            self.can_hold(n as int),
    {
        let arena: usize = self.arena.memory_bytes();
        let slot_room: usize = capacity_of(&self.buckets);
        let size: usize = core::mem::size_of::<NodeId>();
        proof {
            let (a, b) = choose|a: usize, b: usize|
                #![trigger room_of::<Node>(self.arena.nodes().len(), a), room_of::<u8>(self.arena.blob().len(), b)]
                room_of::<Node>(self.arena.nodes().len(), a) && room_of::<u8>(self.arena.blob().len(), b) && arena
                    == capped_bytes(a * size_of::<Node>() + b);
            assert(room_of::<Node>(self.node_slots() as nat, a) && room_of::<u8>(self.blob_size() as nat, b));
            assert(room_of::<NodeId>(self.slots() as nat, slot_room));
        }
        with_slots(arena, slot_room, size)
    }

    /// Bytes attributable to entries that are still live.
    ///
    /// The memory budget is enforced against this rather than resident size: list capacity never
    /// shrinks, so a budget checked against resident size could not be satisfied once exceeded,
    /// and every later insert would trigger another full sweep.
    pub fn live_bytes(&self) -> (n: usize)
        requires
            self.wf(),
        ensures
            n == table_bytes(self.size(), self.blob_size(), self.slots()),
    {
        let slots: usize = if self.buckets.len() > usize::MAX / 4 {
            usize::MAX
        } else {
            self.buckets.len() * 4
        };
        self.arena.live_bytes(self.len).saturating_add(slots)
    }

    /// Adding an entry under a fresh id keeps the table apart from the bucket of the entry.
    proof fn lemma_allocated(&self, f: &Self, id: NodeId, hash: u64, key: Seq<u8>, verdict: Verdict, witness: Seq<u8>)
        requires
            self.wf(),
            f.arena.wf(),
            f.arena.live(id),
            !self.arena.live(id),
            f.arena.blob() == self.arena.blob() + key + (if verdict == Verdict::Sat {
                witness
            } else {
                Seq::empty()
            }),
            f.arena.blob().len() <= u32::MAX,
            verdict == Verdict::Sat ==> witness.len() >= witness_len(key),
            f.arena.dead() == 0,
            self.arena.free_ids().len() > 0 ==> id == self.arena.free_ids()[0] && f.arena.free_ids()
                == self.arena.free_ids().skip(1) && f.arena.nodes() == self.arena.nodes().update(
                id.ix(),
                NodeArena::fresh_node(hash, self.arena.blob().len() as int, key.len(), verdict),
            ),
            self.arena.free_ids().len() == 0 ==> id.ix() == self.arena.nodes().len() && f.arena.free_ids()
                == self.arena.free_ids() && f.arena.nodes() == self.arena.nodes().push(
                NodeArena::fresh_node(hash, self.arena.blob().len() as int, key.len(), verdict),
            ),
        ensures
            forall|x: NodeId| #[trigger] f.arena.live(x) <==> self.arena.live(x) || x == id,
            forall|x: NodeId| #[trigger]
                self.arena.live(x) ==> f.arena.nodes()[x.ix()] == self.arena.nodes()[x.ix()] && f.key_at(x)
                    == self.key_at(x) && entry_at(f.arena.nodes(), f.arena.blob(), x) == entry_at(
                    self.arena.nodes(),
                    self.arena.blob(),
                    x,
                ) && in_blob(f.arena.nodes(), f.arena.blob(), x),
            in_blob(f.arena.nodes(), f.arena.blob(), id),
            f.key_at(id) == (hash, key),
            entry_at(f.arena.nodes(), f.arena.blob(), id) == new_entry(verdict, key, witness),
            cnt(f.arena.live_flags(), true) == self.len + 1,
            flagged_size(f.arena.nodes(), f.arena.blob(), f.arena.live_flags()) <= f.arena.blob().len(),
            f.arena.blob().take(self.arena.blob().len() as int) == self.arena.blob(),
            f.arena.nodes().len() >= self.arena.nodes().len(),
            f.arena.nodes()[id.ix()].left == NodeId::none(),
            f.arena.nodes()[id.ix()].right == NodeId::none(),
            f.arena.nodes()[id.ix()].height == 1,
    {
        let n0 = self.arena.nodes();
        let n1 = f.arena.nodes();
        let b0 = self.arena.blob();
        let b1 = f.arena.blob();
        let fr0 = self.arena.free_ids();
        let fr1 = f.arena.free_ids();
        self.arena.lemma_wf();
        f.arena.lemma_wf();
        let tail = if verdict == Verdict::Sat {
            witness
        } else {
            Seq::empty()
        };
        assert(b1.take(b0.len() as int) =~= b0);
        assert forall|x: NodeId| #[trigger] f.arena.live(x) <==> self.arena.live(x) || x == id by {
            if fr0.len() > 0 {
                assert(fr0 =~= seq![fr0[0]] + fr0.skip(1));
                crate::sorting::lemma_concat_contains(seq![fr0[0]], fr0.skip(1));
                assert(fr0.contains(x) <==> seq![fr0[0]].contains(x) || fr1.contains(x));
                if x == id {
                    assert(seq![fr0[0]][0] == x);
                } else {
                    assert(!seq![fr0[0]].contains(x));
                }
            }
        }
        assert(n1[id.ix()] == NodeArena::fresh_node(hash, b0.len() as int, key.len(), verdict));
        assert(node_key(n1, b1, id) =~= key);
        assert(in_blob(n1, b1, id));
        assert(node_witness(n1, b1, id) =~= new_entry(verdict, key, witness).witness);
        assert forall|x: NodeId| #[trigger] self.arena.live(x) implies n1[x.ix()] == n0[x.ix()] && f.key_at(x)
            == self.key_at(x) && entry_at(n1, b1, x) == entry_at(n0, b0, x) && in_blob(n1, b1, x)
            && entry_size(n1, b1, x) == entry_size(n0, b0, x) by {
            assert(x != id);
            assert(in_blob(n0, b0, x));
            lemma_entry_size(n0, b0, x);
            assert(node_key(n1, b1, x) =~= node_key(n0, b1.take(b0.len() as int), x));
            assert(node_witness(n1, b1, x) =~= node_witness(n0, b1.take(b0.len() as int), x));
        }
        let f0 = self.arena.live_flags();
        let f1 = f.arena.live_flags();
        assert(NodeId { raw: id.ix() as u32 } == id);
        if fr0.len() > 0 {
            assert(f1 =~= f0.update(id.ix(), true)) by {
                assert forall|j: int| 0 <= j < f1.len() implies f1[j] == f0.update(id.ix(), true)[j] by {
                    let x = NodeId { raw: j as u32 };
                    assert(f.arena.live(x) <==> self.arena.live(x) || x == id);
                }
            }
            lemma_cnt_update(f0, id.ix(), true, true);
            assert(f0 =~= f1.update(id.ix(), false));
            lemma_flagged_clear(n1, b1, f1, id.ix());
        } else {
            assert(f1 =~= f0.push(true)) by {
                assert forall|j: int| 0 <= j < f1.len() implies f1[j] == f0.push(true)[j] by {
                    let x = NodeId { raw: j as u32 };
                    assert(f.arena.live(x) <==> self.arena.live(x) || x == id);
                }
            }
            lemma_cnt_push(f0, true, true);
            assert(f1.drop_last() =~= f0);
        }
        assert forall|j: int| 0 <= j < f0.len() && #[trigger] f0[j] implies entry_size(
            n1,
            b1,
            NodeId { raw: j as u32 },
        ) == entry_size(n0, b0, NodeId { raw: j as u32 }) by {
            assert(self.arena.live(NodeId { raw: j as u32 }));
        }
        lemma_flagged_same(n0, b0, n1, b1, f0);
    }
}

/// The entry that an insertion records.
pub open spec fn new_entry(verdict: Verdict, key: Seq<u8>, witness: Seq<u8>) -> CacheEntry {
    CacheEntry {
        verdict,
        witness: if verdict == Verdict::Sat {
            witness.take(witness_len(key) as int)
        } else {
            Seq::empty()
        },
        activity: 1,
    }
}

/// How many bytes of a witness are stored.
pub open spec fn stored_len(verdict: Verdict, witness: Seq<u8>) -> int {
    if verdict == Verdict::Sat {
        witness.len() as int
    } else {
        0
    }
}

/// Bytes of `entries` nodes, of the blob and of the slots, saturating.
pub open spec fn table_bytes(entries: int, blob: int, slots: int) -> int {
    let n = live_size(entries, blob, 0) + slots * 4;
    if n > usize::MAX {
        usize::MAX as int
    } else {
        n
    }
}

/// The budget after a sweep: doubled if the table had entries and nothing was freed.
pub open spec fn swept_budget(budget: int, before: int, after: int) -> int {
    if before == after && after > 0 {
        if budget * 2 > usize::MAX {
            usize::MAX as int
        } else {
            budget * 2
        }
    } else {
        budget
    }
}

/// The counters after a sweep that dropped `freed` entries.
pub open spec fn swept_stats(s: CacheStats, freed: int) -> CacheStats {
    CacheStats {
        evicted: s.evicted.saturating_add(freed as u64),
        sweeps: s.sweeps.saturating_add(1),
        ..s
    }
}

impl<P: BucketPolicy> ComponentCache<P> {
    /// The hash and key of every live entry below slot `n` of the arena.
    spec fn keys_below(&self, n: int) -> Set<(u64, Seq<u8>)> {
        Set::new(
            |k: (u64, Seq<u8>)|
                exists|id: NodeId| id.ix() < n && self.arena.live(id) && #[trigger] self.key_at(id) == k,
        )
    }

    proof fn lemma_keys_below(&self, n: int)
        requires
            self.wf(),
            0 <= n <= self.arena.nodes().len(),
        ensures
            self.keys_below(n).finite(),
            self.keys_below(n).len() == cnt(self.arena.live_flags().take(n), true),
        decreases n,
    {
        self.arena.lemma_wf();
        let flags = self.arena.live_flags();
        if n == 0 {
            assert(self.keys_below(0) =~= Set::<(u64, Seq<u8>)>::empty());
        } else {
            self.lemma_keys_below(n - 1);
            crate::count::lemma_cnt_take(flags, n - 1, true);
            let last = NodeId { raw: (n - 1) as u32 };
            let k = self.key_at(last);
            if self.arena.live(last) {
                assert(self.keys_below(n) =~= self.keys_below(n - 1).insert(k)) by {
                    assert forall|q: (u64, Seq<u8>)| #[trigger] self.keys_below(n).contains(q) <==> self.keys_below(
                        n - 1,
                    ).insert(k).contains(q) by {
                        if self.keys_below(n).contains(q) {
                            let id = choose|id: NodeId|
                                id.ix() < n && self.arena.live(id) && #[trigger] self.key_at(id) == q;
                            if id.ix() == n - 1 {
                                assert(id == last);
                            }
                        }
                    }
                }
                assert(!self.keys_below(n - 1).contains(k)) by {
                    if self.keys_below(n - 1).contains(k) {
                        let id = choose|id: NodeId|
                            id.ix() < n - 1 && self.arena.live(id) && #[trigger] self.key_at(id) == k;
                        self.lemma_unique(id, last);
                    }
                }
            } else {
                assert(self.keys_below(n) =~= self.keys_below(n - 1)) by {
                    assert forall|q: (u64, Seq<u8>)| #[trigger] self.keys_below(n).contains(q) implies self.keys_below(
                        n - 1,
                    ).contains(q) by {
                        let id = choose|id: NodeId|
                            id.ix() < n && self.arena.live(id) && #[trigger] self.key_at(id) == q;
                        if id.ix() == n - 1 {
                            assert(id == last);
                        }
                    }
                }
            }
        }
    }

    /// The reported length is the number of remembered components.
    pub proof fn lemma_size(&self)
        requires
            self.wf(),
        ensures
            self@.dom().finite(),
            self.size() == self@.dom().len(),
    {
        let n = self.arena.nodes().len() as int;
        self.lemma_keys_below(n);
        let flags = self.arena.live_flags();
        assert(flags.take(n) =~= flags);
        assert(self@.dom() =~= self.keys_below(n)) by {
            assert forall|k: (u64, Seq<u8>)| #[trigger] self@.dom().contains(k) <==> self.keys_below(n).contains(k) by {
                if self.has_key(k) {
                    let id = choose|id: NodeId| self.arena.live(id) && #[trigger] self.key_at(id) == k;
                    assert(id.ix() < n);
                }
            }
        }
    }

    /// Every node slot is free or holds an entry.
    proof fn lemma_free_count(&self)
        requires
            self.wf(),
        ensures
            self.arena.free_ids().len() + self.len == self.arena.nodes().len(),
    {
        self.arena.lemma_wf();
        let n = self.arena.nodes().len();
        let free = self.arena.free_ids();
        let flags = self.arena.live_flags();
        let spare = Seq::new(n, |j: int| !flags[j]);
        assert forall|i: int| 0 <= i < free.len() implies (#[trigger] free[i]).ix() < spare.len() && spare[free[i].ix()] by {
            assert(free.contains(free[i]));
            assert(NodeId { raw: free[i].ix() as u32 } == free[i]);
        }
        lemma_flagged_ids_bounded(free, spare);
        assert forall|i: int| 0 <= i < spare.len() && #[trigger] spare[i] implies free.contains(
            NodeId { raw: i as u32 },
        ) by {
            assert(!flags[i]);
        }
        lemma_flagged_ids_all(free, spare);
        lemma_cnt_split(flags, spare);
    }

    /// Records a verdict for a component key.
    ///
    /// An unsatisfiable entry stores no witness. A satisfiable one needs at least one bit for each
    /// variable of the component.
    ///
    /// The caller is responsible for not inserting a key that is already present; the search only
    /// inserts after a miss. The entry must fit, see [`Self::has_room`].
    #[verifier::rlimit(100)]
    pub fn insert(&mut self, hash: u64, key: &[u8], verdict: Verdict, witness: &[u8])
        requires
            old(self).wf(),
            !old(self)@.contains_key((hash, key@)),
            old(self).fits(key@.len(), witness@.len()),
            verdict == Verdict::Sat ==> witness@.len() >= witness_len(key@),
        ensures
            final(self).wf(),
            final(self).memo().stored_from(old(self).memo(), hash, key@, verdict, witness@),
    {
        let ghost s0 = *self;
        let ghost k = (hash, key@);
        proof {
            self.arena.lemma_wf();
            assert(self.buckets.len() == self.buckets@.len());
        }
        if self.buckets.len() <= usize::MAX / 2 && at_least_product(
            self.len,
            self.buckets.len(),
            self.target_load,
        ) {
            self.resize();
        }
        let ghost s1 = *self;
        if self.live_bytes() >= self.budget_bytes {
            self.sweep();
        }
        let ghost s2 = *self;
        proof {
            s2.arena.lemma_wf();
            assert(!s2@.contains_key(k));
        }
        proof {
            s2.lemma_free_count();
        }
        let node = self.arena.allocate(hash, key, verdict, witness);
        let ghost s3 = *self;
        let ghost sl = slot_of(hash, s2.mask);
        proof {
            s2.lemma_allocated(&s3, node, hash, key@, verdict, witness@);
            lemma_slot(hash, self.mask);
            assert(self.buckets.len() == self.buckets@.len());
            assert forall|b: int| 0 <= b < s2.buckets@.len() implies #[trigger] s2.bucket_kept(&s3, b) by {
                assert(s2.bucket_fine(b));
                assert forall|id: NodeId| #[trigger] ids(s2.tree(b)).contains(id) implies s3.arena.live(id)
                    && s3.arena.nodes()[id.ix()] == s2.arena.nodes()[id.ix()] by {
                    assert(s2.arena.live(id));
                }
                lemma_bucket_kept::<P>(&s2.arena, &s3.arena, s2.buckets@[b], s2.tree(b));
            }
            assert(s2.bucket_kept(&s3, sl));
            assert forall|id: NodeId| #[trigger] ids(s3.tree(sl)).contains(id) implies id != node && s3.key_at(
                id,
            ) != k by {
                assert(ids(s2.tree(sl)).contains(id));
                assert(s2.arena.live(id));
                if s2.key_at(id) == k {
                    assert(s2.has_key(k));
                }
            }
        }
        let slot: usize = (hash & self.mask) as usize;
        let mut root = self.buckets[slot];
        P::insert(&mut self.arena, &mut root, node, hash, key);
        self.buckets[slot] = root;
        proof {
            lemma_cnt_contains(s3.arena.live_flags(), true);
            self.arena.lemma_wf();
        }
        self.len = self.len + 1;
        self.stats.inserts = self.stats.inserts.saturating_add(1);
        proof {
            s2.lemma_inserted(&s3, self, node, sl);
            let m = s2@.insert(k, new_entry(verdict, key@, witness@));
            assert forall|q: (u64, Seq<u8>)| #[trigger] self@.contains_key(q) <==> m.contains_key(q) by {
                if self.has_key(q) {
                    let x = choose|x: NodeId| self.arena.live(x) && #[trigger] self.key_at(x) == q;
                    if x != node {
                        assert(s2.arena.live(x) && s2.key_at(x) == q);
                    }
                }
                if s2.has_key(q) {
                    let x = choose|x: NodeId| s2.arena.live(x) && #[trigger] s2.key_at(x) == q;
                    assert(self.arena.live(x) && self.key_at(x) == q);
                }
                if q == k {
                    assert(self.arena.live(node) && self.key_at(node) == q);
                }
            }
            assert forall|q: (u64, Seq<u8>)| #[trigger] self@.contains_key(q) implies self@[q] == m[q] by {
                let x = choose|x: NodeId| self.arena.live(x) && #[trigger] self.key_at(x) == q;
                self.lemma_view(x);
                if x != node {
                    assert(s2.arena.live(x) && s2.key_at(x) == q);
                    s2.lemma_view(x);
                }
            }
            assert(self@ =~= m);
        }
    }

    /// The bucket is as fine after an allocation as it was before.
    spec fn bucket_kept(&self, mid: &Self, b: int) -> bool {
        &&& self.bucket_fine(b)
        &&& mid.tree(b) == self.tree(b)
        &&& bucket_of(&mid.arena, mid.buckets@[b], mid.tree(b))
        &&& P::shape(mid.arena.nodes(), mid.arena.blob(), mid.tree(b))
    }

    /// The table after a fresh entry was allocated and linked into its bucket.
    proof fn lemma_inserted(&self, mid: &Self, f: &Self, node: NodeId, s: int)
        requires
            self.wf(),
            mid.arena.wf(),
            mid.mask == self.mask,
            mid.buckets == self.buckets,
            mid.len == self.len,
            mid.target_load == self.target_load,
            mid.arena.dead() == 0,
            mid.arena.blob().len() <= u32::MAX,
            0 <= s < self.buckets@.len(),
            s == slot_of(mid.arena.nodes()[node.ix()].hash, self.mask),
            forall|x: NodeId| #[trigger] mid.arena.live(x) <==> self.arena.live(x) || x == node,
            !self.arena.live(node),
            forall|x: NodeId| #[trigger]
                self.arena.live(x) ==> mid.arena.nodes()[x.ix()] == self.arena.nodes()[x.ix()] && mid.key_at(x)
                    == self.key_at(x) && entry_at(mid.arena.nodes(), mid.arena.blob(), x) == entry_at(
                    self.arena.nodes(),
                    self.arena.blob(),
                    x,
                ) && in_blob(mid.arena.nodes(), mid.arena.blob(), x),
            in_blob(mid.arena.nodes(), mid.arena.blob(), node),
            cnt(mid.arena.live_flags(), true) == self.len + 1,
            flagged_size(mid.arena.nodes(), mid.arena.blob(), mid.arena.live_flags())
                <= mid.arena.blob().len(),
            forall|b: int| 0 <= b < self.buckets@.len() ==> #[trigger] self.bucket_kept(mid, b),
            f.mask == self.mask,
            f.len == self.len + 1,
            f.target_load == self.target_load,
            f.buckets@.len() == self.buckets@.len(),
            forall|b: int| 0 <= b < self.buckets@.len() && b != s ==> #[trigger] f.buckets@[b] == self.buckets@[b],
            bucket_of(&f.arena, f.buckets@[s], f.tree(s)),
            P::shape(f.arena.nodes(), f.arena.blob(), f.tree(s)),
            same_store(&mid.arena, &f.arena),
            relinked(mid.arena.nodes(), f.arena.nodes(), ids(mid.tree(s)).push(node)),
            forall|id: NodeId| #[trigger]
                ids(f.tree(s)).contains(id) <==> ids(mid.tree(s)).contains(id) || id == node,
        ensures
            f.wf(),
            forall|x: NodeId| #[trigger] f.arena.live(x) <==> self.arena.live(x) || x == node,
            forall|x: NodeId| #[trigger]
                self.arena.live(x) ==> f.key_at(x) == self.key_at(x) && entry_at(
                    f.arena.nodes(),
                    f.arena.blob(),
                    x,
                ) == entry_at(self.arena.nodes(), self.arena.blob(), x),
            f.key_at(node) == mid.key_at(node),
            entry_at(f.arena.nodes(), f.arena.blob(), node) == entry_at(
                mid.arena.nodes(),
                mid.arena.blob(),
                node,
            ),
    {
        let n1 = mid.arena.nodes();
        let n2 = f.arena.nodes();
        let blob = mid.arena.blob();
        mid.arena.lemma_wf();
        assert forall|x: NodeId| #[trigger] f.arena.live(x) <==> mid.arena.live(x) by {}
        assert(f.arena.live_flags() =~= mid.arena.live_flags());
        assert forall|x: NodeId| x.ix() < n1.len() implies #[trigger] f.key_at(x) == mid.key_at(x)
            && n2[x.ix()].hash == n1[x.ix()].hash && entry_size(n2, blob, x) == entry_size(n1, blob, x) && entry_at(
            n2,
            blob,
            x,
        ) == entry_at(n1, blob, x) && (in_blob(n1, blob, x) ==> in_blob(n2, blob, x)) by {
            assert(n2[x.ix()].same_entry(n1[x.ix()]));
        }
        assert forall|j: int| 0 <= j < n1.len() && #[trigger] f.arena.live_flags()[j] implies entry_size(
            n2,
            blob,
            NodeId { raw: j as u32 },
        ) == entry_size(n1, blob, NodeId { raw: j as u32 }) by {
            let x = NodeId { raw: j as u32 };
            assert(f.key_at(x) == mid.key_at(x));
        }
        lemma_flagged_same(n1, blob, n2, blob, f.arena.live_flags());
        assert forall|x: NodeId| #[trigger] f.arena.live(x) implies in_blob(n2, blob, x) by {
            assert(mid.arena.live(x));
            assert(f.key_at(x) == mid.key_at(x));
        }
        let touched = ids(mid.tree(s)).push(node);
        lemma_push_contains(ids(mid.tree(s)), node);
        assert(self.bucket_kept(mid, s));
        assert forall|b: int| 0 <= b < f.buckets@.len() implies #[trigger] f.bucket_fine(b) && (b != s
            ==> f.tree(b) == self.tree(b)) by {
            assert(self.bucket_kept(mid, b));
            if b != s {
                let t = self.tree(b);
                assert forall|id: NodeId| #[trigger] ids(t).contains(id) implies f.arena.live(id) && n2[id.ix()]
                    == n1[id.ix()] by {
                    assert(self.slot(id) == b);
                    assert(self.arena.live(id));
                    assert(!ids(self.tree(s)).contains(id));
                    assert(!touched.contains(id));
                    assert(NodeId { raw: id.ix() as u32 } == id);
                }
                assert(f.arena.blob().take(blob.len() as int) =~= blob);
                lemma_bucket_kept::<P>(&mid.arena, &f.arena, self.buckets@[b], t);
                assert forall|id: NodeId| #[trigger] ids(f.tree(b)).contains(id) implies f.slot(id) == b by {
                    assert(ids(t).contains(id));
                    assert(self.arena.live(id));
                    assert(f.key_at(id) == mid.key_at(id));
                }
            } else {
                assert forall|id: NodeId| #[trigger] ids(f.tree(b)).contains(id) implies f.slot(id) == b by {
                    if id != node {
                        assert(ids(self.tree(s)).contains(id));
                        assert(self.arena.live(id));
                    }
                    assert(mid.arena.live(id));
                    assert(f.key_at(id) == mid.key_at(id));
                }
            }
        }
        assert forall|id: NodeId| #[trigger] f.arena.live(id) implies ids(f.tree(f.slot(id))).contains(id) by {
            assert(mid.arena.live(id));
            assert(f.key_at(id) == mid.key_at(id));
            lemma_slot(n2[id.ix()].hash, f.mask);
            assert(f.bucket_fine(f.slot(id)));
            if id == node {
                assert(f.slot(id) == s);
            } else {
                assert(self.arena.live(id));
                self.lemma_in_bucket(id);
                assert(f.slot(id) == self.slot(id));
            }
        }
        assert forall|x: NodeId| #[trigger] self.arena.live(x) implies f.key_at(x) == self.key_at(x) && entry_at(
            n2,
            f.arena.blob(),
            x,
        ) == entry_at(self.arena.nodes(), self.arena.blob(), x) by {
            assert(mid.arena.live(x));
            assert(f.key_at(x) == mid.key_at(x));
        }
        assert(mid.arena.live(node));
        assert(f.key_at(node) == mid.key_at(node));
    }

    /// Drops every entry.
    pub fn clear(&mut self)
        requires
            old(self).wf(),
        ensures
            final(self).wf(),
            final(self)@ == Map::<(u64, Seq<u8>), CacheEntry>::empty(),
            final(self).size() == 0,
            final(self).slots() == old(self).slots(),
            final(self).budget() == old(self).budget(),
            final(self).load() == old(self).load(),
            final(self).counters() == old(self).counters(),
            final(self).blob_size() == 0,
            final(self).node_slots() == 0,
    {
        let n: usize = self.buckets.len();
        self.arena.clear();
        self.buckets = vec![NodeId::none(); n];
        self.len = 0;
        proof {
            let c = *self;
            let nodes = c.arena.nodes();
            assert(c.arena.live_flags() =~= Seq::<bool>::empty());
            assert forall|b: int| 0 <= b < c.buckets@.len() implies #[trigger] c.bucket_fine(b) by {
                assert(linked(nodes, c.buckets@[b], Tree::Leaf));
                lemma_tree_unique(nodes, c.buckets@[b], Tree::Leaf);
                P::lemma_shape_empty(nodes, c.arena.blob());
                assert(ids(Tree::Leaf) =~= Seq::<NodeId>::empty());
            }
            assert(c@ =~= Map::<(u64, Seq<u8>), CacheEntry>::empty()) by {
                assert forall|k: (u64, Seq<u8>)| !#[trigger] c@.contains_key(k) by {
                    if c.has_key(k) {
                        let id = choose|id: NodeId| c.arena.live(id) && #[trigger] c.key_at(id) == k;
                    }
                }
            }
        }
    }
}

/// Whether `n` is at least the product of `a` and `b`.
fn at_least_product(n: usize, a: usize, b: usize) -> (r: bool)
    requires
        a > 0,
        b > 0,
    ensures
        r == (n >= a * b),
{
    let q: usize = n / a;
    proof {
        assert(n as int == a * q + n as int % a as int) by (nonlinear_arith)
            requires
                q == n as int / a as int,
                a > 0,
        ;
        if q >= b {
            assert(a * q >= a * b) by (nonlinear_arith)
                requires
                    q >= b,
                    a > 0,
            ;
        } else {
            assert(a * (q + 1) <= a * b) by (nonlinear_arith)
                requires
                    q + 1 <= b,
                    a > 0,
            ;
            assert(a * (q + 1) == a * q + a) by (nonlinear_arith);
        }
    }
    q >= b
}

/// The counters after an insertion.
pub open spec fn inserted_stats(s: CacheStats, grown: bool, swept: bool, freed: int) -> CacheStats {
    CacheStats {
        lookups: s.lookups,
        hits: s.hits,
        inserts: s.inserts.saturating_add(1),
        evicted: if swept {
            s.evicted.saturating_add(freed as u64)
        } else {
            s.evicted
        },
        sweeps: if swept {
            s.sweeps.saturating_add(1)
        } else {
            s.sweeps
        },
        resizes: if grown {
            s.resizes.saturating_add(1)
        } else {
            s.resizes
        },
    }
}

/// Structural measurements of the table, computed by walking it.
///
/// Gathered on demand rather than maintained incrementally: the point is to compare bucket
/// policies, and instrumenting the hot path would distort the very thing being measured.
#[derive(Clone, Copy, Debug, PartialEq, Eq, Structural)]
pub struct TableShape {
    /// Number of bucket slots.
    pub buckets: usize,
    /// Slots holding at least one entry.
    pub occupied: usize,
    /// Entries stored.
    pub entries: usize,
    /// Entries in the largest bucket.
    pub max_bucket: usize,
    /// Depth of the deepest bucket, in nodes.
    pub max_depth: usize,
    /// The depths of all entries added up. Divided by the number of entries this is the mean depth,
    /// i.e. the expected comparisons for a successful lookup. Saturates.
    pub depth_total: u64,
}

impl Default for TableShape {
    /// The shape of nothing.
    fn default() -> (s: Self)
        ensures
            s == (TableShape {
                buckets: 0,
                occupied: 0,
                entries: 0,
                max_bucket: 0,
                max_depth: 0,
                depth_total: 0,
            }),
    {
        TableShape { buckets: 0, occupied: 0, entries: 0, max_bucket: 0, max_depth: 0, depth_total: 0 }
    }
}

/// The depths of the nodes of a tree added up, its root being at depth `d`.
pub open spec fn depth_sum(t: Tree, d: int) -> int
    decreases t,
{
    match t {
        Tree::Leaf => 0,
        Tree::Node(id, l, r) => d + depth_sum(*l, d + 1) + depth_sum(*r, d + 1),
    }
}

/// What the trees of the first `n` buckets add up to: how many are not empty, the most nodes in
/// one, the greatest height, and all depths.
pub open spec fn measured(trees: Seq<Tree>) -> (int, int, int, int)
    decreases trees.len(),
{
    if trees.len() == 0 {
        (0, 0, 0, 0)
    } else {
        let (occupied, largest, deepest, total) = measured(trees.drop_last());
        let t = trees.last();
        (
            occupied + if t == Tree::Leaf {
                0int
            } else {
                1int
            },
            greater(largest, ids(t).len() as int),
            greater(deepest, tree_height(t)),
            total + depth_sum(t, 1),
        )
    }
}

/// A number cut to 64 bits.
pub open spec fn capped(n: int) -> u64 {
    if n > u64::MAX {
        u64::MAX
    } else {
        n as u64
    }
}

/// What is left on the stack of a walk: nodes, greatest depth reached, and depths added up.
spec fn remaining(ts: Seq<(Tree, int)>) -> (int, int, int)
    decreases ts.len(),
{
    if ts.len() == 0 {
        (0, 0, 0)
    } else {
        let (n, h, d) = remaining(ts.drop_last());
        let (t, depth) = ts.last();
        (n + ids(t).len(), greater(h, depth - 1 + tree_height(t)), d + depth_sum(t, depth))
    }
}

proof fn lemma_remaining_push(ts: Seq<(Tree, int)>, t: Tree, depth: int)
    ensures
        remaining(ts.push((t, depth))) == ({
            let (n, h, d) = remaining(ts);
            (n + ids(t).len(), greater(h, depth - 1 + tree_height(t)), d + depth_sum(t, depth))
        }),
{
    assert(ts.push((t, depth)).drop_last() =~= ts);
}

proof fn lemma_remaining_bounds(ts: Seq<(Tree, int)>)
    requires
        forall|k: int| 0 <= k < ts.len() ==> (#[trigger] ts[k]).1 >= 1,
    ensures
        remaining(ts).0 >= 0,
        remaining(ts).1 >= 0,
        remaining(ts).2 >= 0,
        forall|k: int|
            0 <= k < ts.len() ==> (#[trigger] ts[k]).1 - 1 + tree_height(ts[k].0) <= remaining(ts).1,
    decreases ts.len(),
{
    if ts.len() > 0 {
        let p = ts.drop_last();
        assert forall|k: int| 0 <= k < p.len() implies (#[trigger] p[k]).1 >= 1 by {
            assert(ts[k].1 >= 1);
        }
        lemma_remaining_bounds(p);
        let last = ts[ts.len() - 1];
        lemma_tree_measures(last.0, last.1);
        assert forall|k: int| 0 <= k < ts.len() implies (#[trigger] ts[k]).1 - 1 + tree_height(ts[k].0)
            <= remaining(ts).1 by {
            if k < p.len() {
                assert(p[k] == ts[k]);
            }
        }
    }
}

/// A tree is no higher than it has nodes.
proof fn lemma_tree_measures(t: Tree, d: int)
    ensures
        0 <= tree_height(t) <= ids(t).len(),
        d >= 0 ==> depth_sum(t, d) >= 0,
    decreases t,
{
    match t {
        Tree::Leaf => {},
        Tree::Node(id, l, r) => {
            lemma_tree_measures(*l, d + 1);
            lemma_tree_measures(*r, d + 1);
            lemma_ids_node(id, *l, *r);
        },
    }
}

/// A tree with a node has a height.
proof fn lemma_height_positive(t: Tree)
    ensures
        t != Tree::Leaf ==> tree_height(t) >= 1,
{
    match t {
        Tree::Leaf => {},
        Tree::Node(id, l, r) => {
            lemma_tree_measures(*l, 0);
            lemma_tree_measures(*r, 0);
        },
    }
}

/// Measures one bucket: its nodes, its height, and its depths added up onto `total`.
#[verifier::rlimit(100)]
fn measure(arena: &NodeArena, root: NodeId, total: u64, Ghost(sum): Ghost<int>) -> (r: (usize, usize, u64))
    requires
        bucket_of(arena, root, tree_of(arena.nodes(), root)),
        root != NodeId::none(),
        total == capped(sum),
        sum >= 0,
    ensures
        r.0 == ids(tree_of(arena.nodes(), root)).len(),
        r.1 == tree_height(tree_of(arena.nodes(), root)),
        r.2 == capped(sum + depth_sum(tree_of(arena.nodes(), root), 1)),
{
    let ghost nodes = arena.nodes();
    let ghost t = tree_of(nodes, root);
    let mut stack: Vec<(NodeId, usize)> = Vec::new();
    stack.push((root, 1));
    let mut count: usize = 0;
    let mut deepest: usize = 0;
    let mut acc: u64 = total;
    let ghost mut ts: Seq<(Tree, int)> = Seq::empty().push((t, 1int));
    let ghost mut so_far: int = sum;
    proof {
        arena.lemma_wf();
        lemma_remaining_push(Seq::empty(), t, 1);
        lemma_tree_measures(t, 1);
        lemma_ids_in_range(nodes, root, t);
        assert forall|i: int| 0 <= i < ids(t).len() implies (#[trigger] ids(t)[i]).ix() < nodes.len() by {
            assert(ids(t).contains(ids(t)[i]));
        }
        lemma_distinct_ids_bounded(ids(t), nodes.len() as int);
    }
    // Depth-first walk carrying each node's depth; a chain threads its list through the left child,
    // so the same walk measures a chain's length.
    while stack.len() > 0
        invariant
            arena.wf(),
            nodes == arena.nodes(),
            nodes.len() <= u32::MAX,
            tree_height(t) <= ids(t).len() <= nodes.len(),
            ts.len() == stack@.len(),
            forall|k: int|
                0 <= k < ts.len() ==> linked(nodes, (#[trigger] stack@[k]).0, ts[k].0) && stack@[k].0
                    != NodeId::none() && stack@[k].1 == ts[k].1 && ts[k].1 >= 1,
            count + remaining(ts).0 == ids(t).len(),
            greater(deepest as int, remaining(ts).1) == tree_height(t),
            so_far + remaining(ts).2 == sum + depth_sum(t, 1),
            acc == capped(so_far),
            so_far >= 0,
        decreases remaining(ts).0,
    {
        let ghost tsb = ts;
        proof {
            assert forall|k: int| 0 <= k < ts.len() implies (#[trigger] ts[k]).1 >= 1 by {
                assert(stack@[k].1 == ts[k].1);
            }
            lemma_remaining_bounds(ts);
        }
        let popped = stack.pop();
        let (id, depth): (NodeId, usize) = match popped {
            Some(p) => p,
            None => (NodeId::none(), 0),
        };
        let ghost (top, gd) = ts.last();
        let ghost (l, r) = match top {
            Tree::Leaf => (Tree::Leaf, Tree::Leaf),
            Tree::Node(i, l, r) => (*l, *r),
        };
        proof {
            assert(ts[ts.len() - 1] == (top, gd));
            assert(linked(nodes, id, top));
            assert(top == Tree::Node(id, Box::new(l), Box::new(r)));
            lemma_ids_node(id, l, r);
            lemma_tree_measures(l, gd + 1);
            lemma_tree_measures(r, gd + 1);
            lemma_height_positive(l);
            lemma_height_positive(r);
            ts = ts.drop_last();
            assert(tsb =~= ts.push((top, gd)));
            lemma_remaining_push(ts, top, gd);
            assert forall|k: int| 0 <= k < ts.len() implies (#[trigger] ts[k]).1 >= 1 by {
                assert(tsb[k].1 >= 1);
            }
            lemma_remaining_bounds(ts);
            assert(linked(nodes, nodes[id.ix()].left, l) && linked(nodes, nodes[id.ix()].right, r));
        }
        let ghost ts1 = ts;
        count = count + 1;
        if depth > deepest {
            deepest = depth;
        }
        acc = acc.saturating_add(depth as u64);
        proof {
            so_far = so_far + gd;
        }
        let node = *arena.get(id);
        if node.left.is_some() {
            assert(l != Tree::Leaf);
            stack.push((node.left, depth + 1));
            proof {
                ts = ts.push((l, gd + 1));
                lemma_remaining_push(ts1, l, gd + 1);
            }
        } else {
            assert(l == Tree::Leaf);
        }
        let ghost ts2 = ts;
        if node.right.is_some() {
            assert(r != Tree::Leaf);
            stack.push((node.right, depth + 1));
            proof {
                ts = ts.push((r, gd + 1));
                lemma_remaining_push(ts2, r, gd + 1);
            }
        } else {
            assert(r == Tree::Leaf);
        }
    }
    (count, deepest, acc)
}

/// The ids of the trees one after another.
spec fn all_ids(trees: Seq<Tree>) -> Seq<NodeId>
    decreases trees.len(),
{
    if trees.len() == 0 {
        Seq::empty()
    } else {
        all_ids(trees.drop_last()) + ids(trees.last())
    }
}

/// How the measurements bound each other.
proof fn lemma_measured_bounds(trees: Seq<Tree>)
    ensures
        0 <= measured(trees).0 <= trees.len(),
        measured(trees).0 <= all_ids(trees).len(),
        0 <= measured(trees).2 <= measured(trees).1 <= all_ids(trees).len(),
    decreases trees.len(),
{
    if trees.len() > 0 {
        lemma_measured_bounds(trees.drop_last());
        lemma_tree_measures(trees.last(), 1);
        match trees.last() {
            Tree::Leaf => {},
            Tree::Node(id, l, r) => {
                lemma_ids_node(id, *l, *r);
            },
        }
    }
}

/// Trees in the policy's shape, taken together.
proof fn lemma_measured_heights<P: BucketPolicy>(nodes: Seq<Node>, blob: Seq<u8>, trees: Seq<Tree>)
    requires
        forall|b: int| 0 <= b < trees.len() ==> P::shape(nodes, blob, #[trigger] trees[b]),
    ensures
        P::height_fits(measured(trees).2, measured(trees).1),
    decreases trees.len(),
{
    if trees.len() > 0 {
        let p = trees.drop_last();
        assert forall|b: int| 0 <= b < p.len() implies P::shape(nodes, blob, #[trigger] p[b]) by {
            assert(p[b] == trees[b]);
        }
        lemma_measured_heights::<P>(nodes, blob, p);
        let t = trees[trees.len() - 1];
        P::lemma_shape_height(nodes, blob, t);
        P::lemma_heights_joined(measured(p).2, measured(p).1, tree_height(t), ids(t).len() as int);
    } else {
        P::lemma_shape_empty(nodes, blob);
        P::lemma_shape_height(nodes, blob, Tree::Leaf);
        assert(ids(Tree::Leaf).len() == 0);
    }
}

/// A flag is set in one list or in its complement.
proof fn lemma_cnt_split(a: Seq<bool>, b: Seq<bool>)
    requires
        a.len() == b.len(),
        forall|i: int| 0 <= i < a.len() ==> #[trigger] b[i] == !a[i],
    ensures
        cnt(a, true) + cnt(b, true) == a.len(),
    decreases a.len(),
{
    if a.len() > 0 {
        assert(b[a.len() - 1] == !a[a.len() - 1]);
        lemma_cnt_split(a.drop_last(), b.drop_last());
    }
}

/// Distinct ids of flagged nodes are no more than the flags that are set.
proof fn lemma_flagged_ids_bounded(s: Seq<NodeId>, flags: Seq<bool>)
    requires
        s.no_duplicates(),
        forall|i: int| 0 <= i < s.len() ==> (#[trigger] s[i]).ix() < flags.len() && flags[s[i].ix()],
    ensures
        s.len() <= cnt(flags, true),
    decreases s.len(),
{
    if s.len() > 0 {
        let p = s.drop_last();
        let x = s.last();
        let rest = flags.update(x.ix(), false);
        lemma_cnt_update(flags, x.ix(), false, true);
        assert forall|i: int| 0 <= i < p.len() implies (#[trigger] p[i]).ix() < rest.len() && rest[p[i].ix()] by {
            assert(p[i] == s[i]);
            assert(s[i] != s[s.len() - 1]);
        }
        lemma_flagged_ids_bounded(p, rest);
    }
}

/// A list of all flagged nodes is no shorter than the flags that are set.
proof fn lemma_flagged_ids_all(s: Seq<NodeId>, flags: Seq<bool>)
    requires
        flags.len() <= u32::MAX,
        forall|i: int| 0 <= i < flags.len() && #[trigger] flags[i] ==> s.contains(NodeId { raw: i as u32 }),
    ensures
        cnt(flags, true) <= s.len(),
    decreases s.len(),
{
    if s.len() == 0 {
        lemma_cnt_contains(flags, true);
        if flags.contains(true) {
            let i = flags.index_of(true);
            assert(s.contains(NodeId { raw: i as u32 }));
        }
    } else {
        let x = s.last();
        let p = s.drop_last();
        let rest = if x.ix() < flags.len() {
            flags.update(x.ix(), false)
        } else {
            flags
        };
        if x.ix() < flags.len() {
            lemma_cnt_update(flags, x.ix(), false, true);
        }
        assert forall|i: int| 0 <= i < rest.len() && #[trigger] rest[i] implies p.contains(NodeId { raw: i as u32 }) by {
            assert(flags[i]);
            let y = NodeId { raw: i as u32 };
            assert(s.contains(y));
            let j = s.index_of(y);
            assert(y != x);
            assert(p[j] == y);
        }
        lemma_flagged_ids_all(p, rest);
    }
}

impl ComponentCache<Avl> {
    /// The AVL policy keeps lookups logarithmic: the depth is at most `1.44 * log2(n + 2) + 1`, where
    /// the largest bucket holds `n` entries. Without fractions and logarithms, a depth of `h` comes
    /// with `2^(25 * (h - 1)) <= (n + 2)^36`, and with at least `min_nodes(h)` entries.
    pub proof fn lemma_avl_depth_is_logarithmic(&self)
        requires
            self.wf(),
        ensures
            min_nodes(self.spec_shape().max_depth as int) <= self.spec_shape().max_bucket,
            self.spec_shape().max_depth >= 1 ==> pow(2, (25 * (self.spec_shape().max_depth - 1)) as nat) <= pow(
                self.spec_shape().max_bucket + 2,
                36,
            ),
    {
        self.lemma_shape();
        let trees = self.trees();
        lemma_measured_bounds(trees);
        self.lemma_bucket_ids(trees.len() as int);
        assert(trees.take(trees.len() as int) =~= trees);
        self.arena.lemma_wf();
        lemma_cnt_contains(self.arena.live_flags(), true);
        lemma_balanced_height_bound(self.spec_shape().max_depth as nat, self.spec_shape().max_bucket as nat);
    }
}

impl<P: BucketPolicy> ComponentCache<P> {
    /// The entries of the first `n` buckets are distinct, and no more than the table holds.
    proof fn lemma_bucket_ids(&self, n: int)
        requires
            self.wf(),
            0 <= n <= self.buckets@.len(),
        ensures
            all_ids(self.trees().take(n)).no_duplicates(),
            forall|id: NodeId| #[trigger]
                all_ids(self.trees().take(n)).contains(id) ==> self.arena.live(id) && self.slot(id) < n,
            all_ids(self.trees().take(n)).len() <= self.len,
        decreases n,
    {
        let trees = self.trees();
        let s = all_ids(trees.take(n));
        if n > 0 {
            self.lemma_bucket_ids(n - 1);
            assert(trees.take(n).drop_last() =~= trees.take(n - 1));
            assert(trees.take(n).last() == self.tree(n - 1));
            assert(self.bucket_fine(n - 1));
            let p = all_ids(trees.take(n - 1));
            let q = ids(self.tree(n - 1));
            assert(s == p + q);
            assert forall|id: NodeId| #[trigger] s.contains(id) implies self.arena.live(id) && self.slot(id) < n by {
                let i = s.index_of(id);
                if i < p.len() {
                    assert(p[i] == id);
                    assert(p.contains(id));
                } else {
                    assert(q[i - p.len()] == id);
                    assert(q.contains(id));
                }
            }
            assert forall|i: int, j: int| 0 <= i < s.len() && 0 <= j < s.len() && i != j implies s[i] != s[j] by {
                if i < p.len() {
                    assert(p.contains(s[i]));
                } else {
                    assert(q[i - p.len()] == s[i]);
                    assert(q.contains(s[i]));
                }
                if j < p.len() {
                    assert(p.contains(s[j]));
                } else {
                    assert(q[j - p.len()] == s[j]);
                    assert(q.contains(s[j]));
                }
            }
        } else {
            assert(trees.take(0) =~= Seq::<Tree>::empty());
        }
        let flags = self.arena.live_flags();
        assert forall|i: int| 0 <= i < s.len() implies (#[trigger] s[i]).ix() < flags.len() && flags[s[i].ix()] by {
            assert(s.contains(s[i]));
            self.arena.lemma_wf();
            assert(NodeId { raw: s[i].ix() as u32 } == s[i]);
        }
        lemma_flagged_ids_bounded(s, flags);
    }

    /// What every table looks like, whatever its policy: the number of slots is a power of two and
    /// never below the initial one, there are no more occupied slots than slots or entries, and no
    /// bucket is deeper than it is large, or larger than the table. How deep the buckets are is what
    /// the policy promises.
    pub proof fn lemma_shape(&self)
        requires
            self.wf(),
        ensures
            self.spec_shape().buckets == self.slots(),
            power_of_two(self.slots() as nat),
            self.slots() >= 1024,
            self.spec_shape().entries == self.size(),
            self.spec_shape().occupied <= self.spec_shape().buckets,
            self.spec_shape().occupied <= self.spec_shape().entries,
            self.spec_shape().max_depth <= self.spec_shape().max_bucket,
            self.spec_shape().max_bucket <= self.spec_shape().entries,
            P::height_fits(self.spec_shape().max_depth as int, self.spec_shape().max_bucket as int),
    {
        let trees = self.trees();
        assert forall|b: int| 0 <= b < trees.len() implies P::shape(
            self.arena.nodes(),
            self.arena.blob(),
            #[trigger] trees[b],
        ) by {
            assert(self.bucket_fine(b));
        }
        lemma_measured_heights::<P>(self.arena.nodes(), self.arena.blob(), trees);
        assert(self.buckets.len() == self.buckets@.len());
        lemma_measured_bounds(trees);
        self.lemma_bucket_ids(trees.len() as int);
        assert(trees.take(trees.len() as int) =~= trees);
    }

    /// The trees of the buckets, in slot order.
    spec fn trees(&self) -> Seq<Tree> {
        Seq::new(self.buckets@.len(), |b: int| self.tree(b))
    }

    /// The measurements of the table.
    pub closed spec fn spec_shape(&self) -> TableShape {
        let (occupied, largest, deepest, total) = measured(self.trees());
        TableShape {
            buckets: self.buckets@.len() as usize,
            occupied: occupied as usize,
            entries: self.len,
            max_bucket: largest as usize,
            max_depth: deepest as usize,
            depth_total: capped(total),
        }
    }

    /// Measures bucket occupancy and depth by walking the whole table.
    ///
    /// The mean depth, `depth_total` over `entries`, is the headline number when comparing policies:
    /// it is the expected number of comparisons a successful lookup performs.
    pub fn shape(&self) -> (s: TableShape)
        requires
            self.wf(),
        ensures
            s == self.spec_shape(),
    {
        let mut occupied: usize = 0;
        let mut max_bucket: usize = 0;
        let mut max_depth: usize = 0;
        let mut depth_total: u64 = 0;
        let ghost trees = self.trees();
        assert(trees.take(0) =~= Seq::<Tree>::empty());
        for b in 0..self.buckets.len()
            invariant
                self.wf(),
                trees == self.trees(),
                occupied <= b,
                measured(trees.take(b as int)) == (
                    occupied as int,
                    max_bucket as int,
                    max_depth as int,
                    measured(trees.take(b as int)).3,
                ),
                measured(trees.take(b as int)).3 >= 0,
                depth_total == capped(measured(trees.take(b as int)).3),
        {
            let ghost t = self.tree(b as int);
            proof {
                assert(self.bucket_fine(b as int));
                assert(trees.take(b + 1).drop_last() =~= trees.take(b as int));
                assert(trees.take(b + 1).last() == t);
                lemma_tree_measures(t, 1);
                self.arena.lemma_wf();
            }
            let root = self.buckets[b];
            if root.is_some() {
                let ghost sum = measured(trees.take(b as int)).3;
                occupied = occupied + 1;
                let (count, deepest, total) = measure(&self.arena, root, depth_total, Ghost(sum));
                if count > max_bucket {
                    max_bucket = count;
                }
                if deepest > max_depth {
                    max_depth = deepest;
                }
                depth_total = total;
            } else {
                assert(t == Tree::Leaf);
            }
        }
        assert(trees.take(trees.len() as int) =~= trees);
        TableShape {
            buckets: self.buckets.len(),
            occupied,
            entries: self.len,
            max_bucket,
            max_depth,
            depth_total,
        }
    }
}

/// The bytes of an arena and of room for slots, at `slot_size` bytes a slot.
pub fn with_slots(arena: usize, slot_room: usize, slot_size: usize) -> (n: usize)
    ensures
        n == capped_bytes(arena + slot_room * slot_size),
{
    arena.saturating_add(room_bytes(slot_room, slot_size))
}

} // verus!
