//! Flat storage for cache entries.
//!
//! Every node in every bucket tree lives in one list addressed by `u32` handles, and every key
//! lives in one byte list. Nothing is individually heap-allocated: the arena gives locality, halves
//! the pointer width, and turns deletion into a free-list push.

use vstd::prelude::*;
use vstd::layout::size_of;
use crate::memory::{capacity_of, capped_bytes, room_bytes, room_of};
use crate::varint::{decode, read_u32};

verus! {

/// A handle into [`NodeArena`].
#[derive(Copy, Clone, PartialEq, Eq, PartialOrd, Ord, Hash, Debug, Structural)]
pub struct NodeId {
    /// The raw index; the largest value is the null handle.
    pub raw: u32,
}

impl NodeId {
    /// The null handle.
    pub open spec fn spec_none() -> NodeId {
        NodeId { raw: 0xffff_ffff }
    }

    /// The null handle, used for absent children and empty buckets.
    #[verifier::when_used_as_spec(spec_none)]
    pub fn none() -> (id: NodeId)
        ensures
            id == NodeId::spec_none(),
    {
        NodeId { raw: 0xffff_ffff }
    }

    /// The position the handle points at.
    pub open spec fn ix(self) -> int {
        self.raw as int
    }

    /// Wraps a raw index.
    pub fn new(index: u32) -> (id: Self)
        ensures
            id.raw == index,
    {
        NodeId { raw: index }
    }

    /// Whether this is the null handle.
    pub fn is_none(self) -> (b: bool)
        ensures
            b == (self == NodeId::none()),
    {
        self.raw == 0xffff_ffff
    }

    /// Whether this handle points at a node.
    pub fn is_some(self) -> (b: bool)
        ensures
            b == (self != NodeId::none()),
    {
        !self.is_none()
    }

    /// The raw index.
    pub fn index(self) -> (i: usize)
        requires
            self != NodeId::none(),
        ensures
            i == self.ix(),
    {
        self.raw as usize
    }
}

/// Whether a cached subproblem was satisfiable.
#[derive(Copy, Clone, PartialEq, Eq, Debug, Structural)]
pub enum Verdict {
    /// The component is satisfiable; a witness is stored alongside the key.
    Sat,
    /// The component is unsatisfiable.
    Unsat,
}

/// One cache entry, and one node of one bucket tree.
///
/// Laid out to be exactly 32 bytes so that a node never straddles more than one cache line and
/// two nodes share one.
#[derive(Copy, Clone, Debug)]
pub struct Node {
    /// Full 64-bit key hash. This is the tree's *primary* ordering key, not just a filter.
    pub hash: u64,
    /// Left child, or the next free node when this slot is on the free list.
    pub left: NodeId,
    /// Right child.
    pub right: NodeId,
    /// Start of this entry's key bytes in the blob.
    pub key_off: u32,
    /// Length of this entry's key bytes. A satisfying witness, when present, is the bitset
    /// immediately following the key.
    pub key_len: u32,
    /// AVL subtree height. Unused by the unbalanced, splay, and chaining bucket policies.
    pub height: u8,
    /// Bit 0 records the [`Verdict`].
    pub flags: u8,
    /// Reuse counter driving eviction. Saturates rather than wrapping.
    pub activity: u16,
}

/// Size of a [`Node`] in bytes.
pub const NODE_BYTES: usize = 32;

impl Node {
    /// The verdict that the flags record.
    pub open spec fn spec_verdict(&self) -> Verdict {
        if self.flags % 2 == 1 {
            Verdict::Sat
        } else {
            Verdict::Unsat
        }
    }

    /// The verdict recorded for this entry.
    pub fn verdict(&self) -> (v: Verdict)
        ensures
            v == self.spec_verdict(),
    {
        if self.flags % 2 == 1 {
            Verdict::Sat
        } else {
            Verdict::Unsat
        }
    }

    /// The two nodes hold the same entry; only how they are linked may differ.
    pub open spec fn same_entry(self, o: Node) -> bool {
        &&& self.hash == o.hash
        &&& self.key_off == o.key_off
        &&& self.key_len == o.key_len
        &&& self.flags == o.flags
        &&& self.activity == o.activity
    }
}

/// Bytes of witness that a component key calls for: one bit per variable, and the key starts with
/// the variable count.
pub open spec fn witness_len(key: Seq<u8>) -> nat {
    match decode(key) {
        Some((v, n)) => if n <= 5 && v <= u32::MAX {
            ((v + 7) / 8) as nat
        } else {
            0
        },
        None => 0,
    }
}

/// Bytes of witness stored for a component key.
///
/// The key begins with the component's variable count, so an entry describes the size of its own
/// witness. That keeps [`Node`] small: no separate length field is needed.
pub fn witness_len_for(key: &[u8]) -> (n: usize)
    ensures
        n == witness_len(key@),
        n <= 0x2000_0000,
{
    match read_u32(key) {
        Some((v, _)) => (v / 8) as usize + if v % 8 == 0 {
            0
        } else {
            1
        },
        None => 0,
    }
}

/// The node pool plus the key blob.
pub struct NodeArena {
    nodes: Vec<Node>,
    /// Head of the singly linked free list, threaded through [`Node::left`].
    free: NodeId,
    /// Key bytes and witness bitsets, packed end to end.
    blob: Vec<u8>,
    /// Blob bytes belonging to freed nodes. Drives compaction.
    dead_bytes: usize,
    /// The free list, head first.
    free_list: Ghost<Seq<NodeId>>,
}

/// The key bytes of a node.
pub open spec fn node_key(nodes: Seq<Node>, blob: Seq<u8>, id: NodeId) -> Seq<u8> {
    let n = nodes[id.ix()];
    blob.subrange(n.key_off as int, n.key_off + n.key_len)
}

/// The bytes that an entry needs: its key, and a witness where it is satisfiable.
pub open spec fn entry_size(nodes: Seq<Node>, blob: Seq<u8>, id: NodeId) -> int {
    let n = nodes[id.ix()];
    n.key_len + if n.spec_verdict() == Verdict::Sat {
        witness_len(node_key(nodes, blob, id)) as int
    } else {
        0
    }
}

/// The bytes of an entry lie within the blob.
pub open spec fn in_blob(nodes: Seq<Node>, blob: Seq<u8>, id: NodeId) -> bool {
    let n = nodes[id.ix()];
    n.key_off + n.key_len <= blob.len() && n.key_off + entry_size(nodes, blob, id) <= blob.len()
}

/// The witness stored with an entry: empty for an unsatisfiable one.
pub open spec fn node_witness(nodes: Seq<Node>, blob: Seq<u8>, id: NodeId) -> Seq<u8> {
    let n = nodes[id.ix()];
    blob.subrange(n.key_off + n.key_len, n.key_off + entry_size(nodes, blob, id))
}

impl NodeArena {
    /// The node slots.
    pub closed spec fn nodes(&self) -> Seq<Node> {
        self.nodes@
    }

    /// The key and witness bytes.
    pub closed spec fn blob(&self) -> Seq<u8> {
        self.blob@
    }

    /// The free slots, in the order in which they will be reused.
    pub closed spec fn free_ids(&self) -> Seq<NodeId> {
        self.free_list@
    }

    /// Blob bytes charged to freed entries.
    pub closed spec fn dead(&self) -> int {
        self.dead_bytes as int
    }

    /// The slot holds an entry.
    pub open spec fn live(&self, id: NodeId) -> bool {
        id.ix() < self.nodes().len() && !self.free_ids().contains(id)
    }

    /// The free list threads distinct slots, ending in the null handle.
    pub closed spec fn wf(&self) -> bool {
        &&& self.nodes@.len() <= u32::MAX
        &&& self.free == self.free_link(0)
        &&& forall|i: int|
            0 <= i < self.free_list@.len() ==> (#[trigger] self.free_list@[i]).ix() < self.nodes@.len()
                && self.nodes@[self.free_list@[i].ix()].left == self.free_link(i + 1)
        &&& self.free_list@.no_duplicates()
    }

    spec fn free_link(&self, i: int) -> NodeId {
        if i < self.free_list@.len() {
            self.free_list@[i]
        } else {
            NodeId::none()
        }
    }

    /// The arena has as many slots as handles can name.
    pub proof fn lemma_wf(&self)
        requires
            self.wf(),
        ensures
            self.nodes().len() <= u32::MAX,
            self.blob().len() <= usize::MAX,
            0 <= self.dead() <= usize::MAX,
            forall|i: int|
                0 <= i < self.free_ids().len() ==> (#[trigger] self.free_ids()[i]).ix() < self.nodes().len(),
            self.free_ids().no_duplicates(),
    {
        assert(self.blob.len() == self.blob@.len());
    }

    /// Creates an empty arena.
    pub fn new() -> (a: Self)
        ensures
            a.wf(),
            a.nodes() == Seq::<Node>::empty(),
            a.blob() == Seq::<u8>::empty(),
            a.free_ids() == Seq::<NodeId>::empty(),
            a.dead() == 0,
    {
        NodeArena {
            nodes: Vec::new(),
            free: NodeId::none(),
            blob: Vec::new(),
            dead_bytes: 0,
            free_list: Ghost(Seq::empty()),
        }
    }

    /// Number of node slots ever allocated, including those currently free.
    pub fn capacity(&self) -> (n: usize)
        ensures
            n == self.nodes().len(),
    {
        self.nodes.len()
    }

    /// The node pool and the key blob can hold `n` bytes: some room for the nodes and some for the
    /// key bytes add up to it.
    pub open spec fn can_hold(&self, n: int) -> bool {
        exists|node_room: usize, blob_room: usize|
            #![trigger room_of::<Node>(self.nodes().len(), node_room), room_of::<u8>(self.blob().len(), blob_room)]
            room_of::<Node>(self.nodes().len(), node_room) && room_of::<u8>(self.blob().len(), blob_room) && n
                == capped_bytes(node_room * size_of::<Node>() + blob_room)
    }

    /// Bytes held by the node pool and the key blob.
    ///
    /// How much room the lists have beyond what they hold is up to the allocator.
    pub fn memory_bytes(&self) -> (n: usize)
        ensures
            self.can_hold(n as int),
    {
        let node_room: usize = capacity_of(&self.nodes);
        let blob_room: usize = capacity_of(&self.blob);
        let size: usize = core::mem::size_of::<Node>();
        let n: usize = arena_bytes(node_room, size, blob_room);
        proof {
            assert(room_of::<Node>(self.nodes().len(), node_room));
            assert(room_of::<u8>(self.blob().len(), blob_room));
            assert(node_room * size == node_room * size_of::<Node>());
        }
        n
    }

    /// Length of the key blob in bytes.
    pub fn blob_len(&self) -> (n: usize)
        ensures
            n == self.blob().len(),
    {
        self.blob.len()
    }

    /// Blob bytes belonging to freed entries.
    pub fn dead_bytes(&self) -> (n: usize)
        ensures
            n == self.dead(),
    {
        self.dead_bytes
    }

    /// Bytes attributable to `entries` live entries: their nodes, and the part of the blob that is
    /// not dead.
    pub fn live_bytes(&self, entries: usize) -> (n: usize)
        ensures
            n == live_size(entries as int, self.blob().len() as int, self.dead()),
    {
        let nodes: usize = if entries > usize::MAX / NODE_BYTES {
            usize::MAX
        } else {
            entries * NODE_BYTES
        };
        nodes.saturating_add(self.blob.len().saturating_sub(self.dead_bytes))
    }

    /// Borrows a node.
    pub fn get(&self, id: NodeId) -> (n: &Node)
        requires
            self.wf(),
            id.ix() < self.nodes().len(),
        ensures
            *n == self.nodes()[id.ix()],
    {
        &self.nodes[id.index()]
    }

    /// Mutably borrows a node that holds an entry.
    pub fn get_mut(&mut self, id: NodeId) -> (n: &mut Node)
        requires
            old(self).wf(),
            old(self).live(id),
        ensures
            *n == old(self).nodes()[id.ix()],
            final(self).nodes() == old(self).nodes().update(id.ix(), *final(n)),
            final(self).blob() == old(self).blob(),
            final(self).free_ids() == old(self).free_ids(),
            final(self).dead() == old(self).dead(),
            final(self).wf(),
    {
        let i: usize = id.index();
        &mut self.nodes[i]
    }

    /// The key bytes of a node.
    pub fn key(&self, id: NodeId) -> (k: &[u8])
        requires
            self.wf(),
            id.ix() < self.nodes().len(),
            self.nodes()[id.ix()].key_off + self.nodes()[id.ix()].key_len <= self.blob().len(),
        ensures
            k@ == node_key(self.nodes(), self.blob(), id),
    {
        let off: u32 = self.get(id).key_off;
        let len: u32 = self.get(id).key_len;
        self.key_range(off, len)
    }

    /// Borrows key bytes by explicit offset and length.
    pub fn key_range(&self, off: u32, len: u32) -> (k: &[u8])
        requires
            off + len <= self.blob().len(),
        ensures
            k@ == self.blob().subrange(off as int, off + len),
    {
        assert(self.blob.len() == self.blob@.len());
        let start: usize = off as usize;
        vstd::slice::slice_subrange(self.blob.as_slice(), start, start + len as usize)
    }

    /// The witness bitset stored after a satisfiable entry's key.
    ///
    /// `witness_len` bytes are returned; the caller knows the component's variable count and so
    /// knows how many bits are meaningful.
    pub fn witness(&self, id: NodeId, witness_len: usize) -> (w: &[u8])
        requires
            self.wf(),
            id.ix() < self.nodes().len(),
            self.nodes()[id.ix()].key_off + self.nodes()[id.ix()].key_len + witness_len
                <= self.blob().len(),
        ensures
            w@ == self.blob().subrange(
                self.nodes()[id.ix()].key_off + self.nodes()[id.ix()].key_len,
                self.nodes()[id.ix()].key_off + self.nodes()[id.ix()].key_len + witness_len,
            ),
    {
        assert(self.blob.len() == self.blob@.len());
        let n = self.get(id);
        let start: usize = n.key_off as usize + n.key_len as usize;
        vstd::slice::slice_subrange(self.blob.as_slice(), start, start + witness_len)
    }

    /// The bytes of the blob from `start` to `end`.
    pub(crate) fn bytes(&self, start: usize, end: usize) -> (b: &[u8])
        requires
            start <= end <= self.blob().len(),
        ensures
            b@ == self.blob().subrange(start as int, end as int),
    {
        vstd::slice::slice_subrange(self.blob.as_slice(), start, end)
    }

    /// The node that [`NodeArena::allocate`] fills a slot with.
    pub open spec fn fresh_node(hash: u64, key_off: int, key_len: nat, verdict: Verdict) -> Node {
        Node {
            hash,
            left: NodeId::none(),
            right: NodeId::none(),
            key_off: key_off as u32,
            key_len: key_len as u32,
            height: 1,
            flags: if verdict == Verdict::Sat {
                1
            } else {
                0
            },
            activity: 1,
        }
    }

    /// Allocates a node for `key`, with `witness` appended when the verdict is satisfiable.
    ///
    /// Children are left null and the height is set for a leaf; the bucket policy links it in.
    pub fn allocate(&mut self, hash: u64, key: &[u8], verdict: Verdict, witness: &[u8]) -> (id: NodeId)
        requires
            old(self).wf(),
            old(self).blob().len() + key@.len() + witness@.len() <= u32::MAX,
            old(self).free_ids().len() > 0 || old(self).nodes().len() < u32::MAX,
        ensures
            final(self).wf(),
            final(self).live(id),
            !old(self).live(id),
            final(self).blob() == old(self).blob() + key@ + (if verdict == Verdict::Sat {
                witness@
            } else {
                Seq::empty()
            }),
            final(self).dead() == old(self).dead(),
            old(self).free_ids().len() > 0 ==> id == old(self).free_ids()[0] && final(self).free_ids()
                == old(self).free_ids().skip(1) && final(self).nodes() == old(self).nodes().update(
                id.ix(),
                NodeArena::fresh_node(hash, old(self).blob().len() as int, key@.len(), verdict),
            ),
            old(self).free_ids().len() == 0 ==> id.ix() == old(self).nodes().len() && final(self).free_ids()
                == old(self).free_ids() && final(self).nodes() == old(self).nodes().push(
                NodeArena::fresh_node(hash, old(self).blob().len() as int, key@.len(), verdict),
            ),
    {
        let ghost s0 = *self;
        let key_off: u32 = self.blob.len() as u32;
        append_bytes(&mut self.blob, key);
        if verdict == Verdict::Sat {
            append_bytes(&mut self.blob, witness);
        }
        assert(self.blob@ =~= s0.blob() + key@ + (if verdict == Verdict::Sat {
            witness@
        } else {
            Seq::empty()
        }));
        let flags: u8 = if verdict == Verdict::Sat {
            1
        } else {
            0
        };
        let node = Node {
            hash,
            left: NodeId::none(),
            right: NodeId::none(),
            key_off,
            key_len: key.len() as u32,
            height: 1,
            flags,
            activity: 1,
        };
        if self.free.is_some() {
            let id = self.free;
            let i: usize = id.index();
            proof {
                assert(s0.free_list@[0].ix() < s0.nodes@.len());
                assert(s0.nodes@[id.ix()].left == s0.free_link(1));
            }
            self.free = self.nodes[i].left;
            self.nodes[i] = node;
            self.free_list = Ghost(s0.free_list@.skip(1));
            proof {
                let f0 = s0.free_list@;
                let f1 = self.free_list@;
                assert forall|k: int| 0 <= k < f1.len() implies f1[k] == #[trigger] f0[k + 1] by {}
                assert forall|k: int| 0 <= k < f1.len() implies (#[trigger] f1[k]).ix() < self.nodes@.len()
                    && self.nodes@[f1[k].ix()].left == self.free_link(k + 1) by {
                    assert(f1[k] == f0[k + 1]);
                    assert(f0[k + 1] != f0[0]);
                    assert(f0[k + 1].ix() < s0.nodes@.len());
                }
                assert(f1.no_duplicates()) by {
                    assert forall|a: int, b: int| 0 <= a < f1.len() && 0 <= b < f1.len() && a != b implies f1[a]
                        != f1[b] by {
                        assert(f0[a + 1] != f0[b + 1]);
                    }
                }
                assert(!f1.contains(id)) by {
                    if f1.contains(id) {
                        let k = choose|k: int| 0 <= k < f1.len() && f1[k] == id;
                        assert(f0[k + 1] == f0[0]);
                    }
                }
                assert(f0.contains(f0[0]));
            }
            id
        } else {
            let i: usize = self.nodes.len();
            self.nodes.push(node);
            proof {
                let id = NodeId { raw: i as u32 };
                assert(s0.free_list@.len() == 0) by {
                    if s0.free_list@.len() > 0 {
                        assert(s0.free_list@[0].ix() < s0.nodes@.len());
                    }
                }
                assert(!self.free_list@.contains(id));
            }
            NodeId { raw: i as u32 }
        }
    }

    /// Returns a node to the free list and charges its bytes to `dead_bytes`.
    ///
    /// The blob bytes are not reclaimed here; [`NodeArena::compact_blob`] does that in bulk.
    pub fn free(&mut self, id: NodeId, witness_len: usize)
        requires
            old(self).wf(),
            old(self).live(id),
            old(self).dead() + old(self).nodes()[id.ix()].key_len + witness_len <= usize::MAX,
        ensures
            final(self).wf(),
            final(self).free_ids() == seq![id] + old(self).free_ids(),
            final(self).blob() == old(self).blob(),
            final(self).dead() == old(self).dead() + old(self).nodes()[id.ix()].key_len + (if old(self).nodes()[id.ix()].spec_verdict() == Verdict::Sat {
                witness_len as int
            } else {
                0
            }),
            final(self).nodes().len() == old(self).nodes().len(),
            forall|j: int|
                0 <= j < final(self).nodes().len() && j != id.ix() ==> #[trigger] final(self).nodes()[j]
                    == old(self).nodes()[j],
    {
        let ghost s0 = *self;
        let i: usize = id.index();
        let mut n: Node = self.nodes[i];
        let extra: usize = if n.verdict() == Verdict::Sat {
            witness_len
        } else {
            0
        };
        self.dead_bytes = self.dead_bytes + n.key_len as usize + extra;
        n.left = self.free;
        n.right = NodeId::none();
        self.nodes[i] = n;
        self.free = id;
        self.free_list = Ghost(seq![id] + s0.free_list@);
        proof {
            let f0 = s0.free_list@;
            let f1 = self.free_list@;
            assert forall|k: int| 0 <= k < f1.len() implies (#[trigger] f1[k]).ix() < self.nodes@.len()
                && self.nodes@[f1[k].ix()].left == self.free_link(k + 1) by {
                if k == 0 {
                    assert(f0.len() > 0 ==> f1[1] == f0[0]);
                } else {
                    assert(f1[k] == f0[k - 1]);
                    assert(f0[k - 1].ix() < s0.nodes@.len());
                    assert(f0.contains(f0[k - 1]));
                    if k < f0.len() {
                        assert(f1[k + 1] == f0[k]);
                    }
                }
            }
            assert(f1.no_duplicates()) by {
                assert forall|a: int, b: int| 0 <= a < f1.len() && 0 <= b < f1.len() && a != b implies f1[a]
                    != f1[b] by {
                    if a > 0 {
                        assert(f0.contains(f0[a - 1]));
                    }
                    if b > 0 {
                        assert(f0.contains(f0[b - 1]));
                    }
                }
            }
        }
    }

    /// Drops everything.
    pub fn clear(&mut self)
        ensures
            final(self).wf(),
            final(self).nodes() == Seq::<Node>::empty(),
            final(self).blob() == Seq::<u8>::empty(),
            final(self).free_ids() == Seq::<NodeId>::empty(),
            final(self).dead() == 0,
    {
        self.nodes.clear();
        self.blob.clear();
        self.free = NodeId::none();
        self.dead_bytes = 0;
        self.free_list = Ghost(Seq::empty());
    }
}

/// Bytes of `entries` nodes and of the live part of the blob, saturating.
pub open spec fn live_size(entries: int, blob: int, dead: int) -> int {
    let live = if blob > dead {
        blob - dead
    } else {
        0
    };
    let n = entries * 32 + live;
    if n > usize::MAX {
        usize::MAX as int
    } else {
        n
    }
}

/// Appends bytes.
pub(crate) fn append_bytes(out: &mut Vec<u8>, bytes: &[u8])
    ensures
        final(out)@ == old(out)@ + bytes@,
{
    let ghost before = out@;
    for i in 0..bytes.len()
        invariant
            out@ =~= before + bytes@.take(i as int),
    {
        out.push(bytes[i]);
    }
    assert(bytes@.take(bytes@.len() as int) =~= bytes@);
}

impl Default for NodeArena {
    /// An empty arena.
    fn default() -> (a: Self)
        ensures
            a.wf(),
            a.nodes() == Seq::<Node>::empty(),
            a.blob() == Seq::<u8>::empty(),
    {
        NodeArena::new()
    }
}

/// The bytes that the listed entries need together.
pub open spec fn packed_len(nodes: Seq<Node>, blob: Seq<u8>, s: Seq<NodeId>) -> int
    decreases s.len(),
{
    if s.len() == 0 {
        0
    } else {
        packed_len(nodes, blob, s.drop_last()) + entry_size(nodes, blob, s.last())
    }
}

/// The sizes of the entries whose flag is set, summed over all slots.
pub open spec fn flagged_size(nodes: Seq<Node>, blob: Seq<u8>, flags: Seq<bool>) -> int
    decreases flags.len(),
{
    if flags.len() == 0 {
        0
    } else {
        flagged_size(nodes, blob, flags.drop_last()) + if flags.last() {
            entry_size(nodes, blob, NodeId { raw: (flags.len() - 1) as u32 })
        } else {
            0
        }
    }
}

/// Sizes are never negative.
pub proof fn lemma_entry_size(nodes: Seq<Node>, blob: Seq<u8>, id: NodeId)
    ensures
        0 <= nodes[id.ix()].key_len <= entry_size(nodes, blob, id),
{
}

/// Clearing one flag takes the size of its entry away.
pub proof fn lemma_flagged_clear(nodes: Seq<Node>, blob: Seq<u8>, flags: Seq<bool>, i: int)
    requires
        0 <= i < flags.len() <= u32::MAX,
        flags[i],
    ensures
        flagged_size(nodes, blob, flags.update(i, false)) == flagged_size(nodes, blob, flags) - entry_size(
            nodes,
            blob,
            NodeId { raw: i as u32 },
        ),
    decreases flags.len(),
{
    let p = flags.drop_last();
    if i == flags.len() - 1 {
        assert(flags.update(i, false).drop_last() =~= p);
    } else {
        assert(flags.update(i, false).drop_last() =~= p.update(i, false));
        lemma_flagged_clear(nodes, blob, p, i);
    }
}

/// Only the flagged entries matter to their size.
pub proof fn lemma_flagged_same(n1: Seq<Node>, b1: Seq<u8>, n2: Seq<Node>, b2: Seq<u8>, flags: Seq<bool>)
    requires
        flags.len() <= u32::MAX,
        forall|i: int|
            0 <= i < flags.len() && #[trigger] flags[i] ==> entry_size(n2, b2, NodeId { raw: i as u32 })
                == entry_size(n1, b1, NodeId { raw: i as u32 }),
    ensures
        flagged_size(n2, b2, flags) == flagged_size(n1, b1, flags),
    decreases flags.len(),
{
    if flags.len() > 0 {
        let p = flags.drop_last();
        assert forall|i: int| 0 <= i < p.len() && #[trigger] p[i] implies entry_size(
            n2,
            b2,
            NodeId { raw: i as u32 },
        ) == entry_size(n1, b1, NodeId { raw: i as u32 }) by {
            assert(flags[i]);
        }
        lemma_flagged_same(n1, b1, n2, b2, p);
        assert(flags.last() == flags[flags.len() - 1]);
    }
}

/// Sums of sizes are never negative, and no set flag means nothing.
pub proof fn lemma_flagged_bounds(nodes: Seq<Node>, blob: Seq<u8>, flags: Seq<bool>)
    ensures
        flagged_size(nodes, blob, flags) >= 0,
        (forall|i: int| 0 <= i < flags.len() ==> !#[trigger] flags[i]) ==> flagged_size(nodes, blob, flags)
            == 0,
    decreases flags.len(),
{
    if flags.len() > 0 {
        let p = flags.drop_last();
        lemma_flagged_bounds(nodes, blob, p);
        if forall|i: int| 0 <= i < flags.len() ==> !#[trigger] flags[i] {
            assert forall|i: int| 0 <= i < p.len() implies !#[trigger] p[i] by {
                assert(!flags[i]);
            }
            assert(!flags[flags.len() - 1]);
        }
    }
}

/// Listing the flagged entries once each adds up to the flagged size.
pub proof fn lemma_packed_is_flagged(nodes: Seq<Node>, blob: Seq<u8>, s: Seq<NodeId>, flags: Seq<bool>)
    requires
        flags.len() <= u32::MAX,
        s.no_duplicates(),
        forall|x: NodeId| #[trigger] s.contains(x) <==> x.ix() < flags.len() && flags[x.ix()],
    ensures
        packed_len(nodes, blob, s) == flagged_size(nodes, blob, flags),
    decreases s.len(),
{
    if s.len() == 0 {
        assert forall|i: int| 0 <= i < flags.len() implies !#[trigger] flags[i] by {
            if flags[i] {
                assert(s.contains(NodeId { raw: i as u32 }));
            }
        }
        lemma_flagged_bounds(nodes, blob, flags);
    } else {
        let p = s.drop_last();
        let x = s.last();
        assert(s.contains(s[s.len() - 1]));
        let f2 = flags.update(x.ix(), false);
        assert(s =~= p.push(x));
        crate::sorting::lemma_push_contains(p, x);
        assert(p.no_duplicates()) by {
            assert forall|i: int, j: int| 0 <= i < p.len() && 0 <= j < p.len() && i != j implies p[i] != p[j] by {
                assert(s[i] != s[j]);
            }
        }
        assert(!p.contains(x)) by {
            if p.contains(x) {
                let i = choose|i: int| 0 <= i < p.len() && p[i] == x;
                assert(s[i] != s[s.len() - 1]);
            }
        }
        assert forall|y: NodeId| #[trigger] p.contains(y) <==> y.ix() < f2.len() && f2[y.ix()] by {
            assert(s.contains(y) <==> y.ix() < flags.len() && flags[y.ix()]);
        }
        lemma_packed_is_flagged(nodes, blob, p, f2);
        lemma_flagged_clear(nodes, blob, flags, x.ix());
        assert(NodeId { raw: x.ix() as u32 } == x);
    }
}

/// A prefix needs no more bytes than the whole list.
proof fn lemma_packed_prefix(nodes: Seq<Node>, blob: Seq<u8>, s: Seq<NodeId>, k: int)
    requires
        0 <= k <= s.len(),
    ensures
        packed_len(nodes, blob, s.take(k)) <= packed_len(nodes, blob, s),
        packed_len(nodes, blob, s.take(k)) >= 0,
    decreases s.len(),
{
    if k == s.len() {
        assert(s.take(k) =~= s);
        if k > 0 {
            lemma_packed_prefix(nodes, blob, s.drop_last(), k - 1);
            assert(s.drop_last().take(k - 1) =~= s.drop_last());
        }
    } else {
        assert(s.drop_last().take(k) =~= s.take(k));
        lemma_packed_prefix(nodes, blob, s.drop_last(), k);
    }
}

impl NodeArena {
    /// Which slots hold entries.
    pub open spec fn live_flags(&self) -> Seq<bool> {
        Seq::new(self.nodes().len(), |j: int| self.live(NodeId { raw: j as u32 }))
    }

    /// An entry of `o` is stored unchanged in `self`, possibly elsewhere in the blob.
    pub open spec fn keeps(&self, o: &NodeArena, id: NodeId) -> bool {
        &&& self.nodes()[id.ix()] == (Node {
            key_off: self.nodes()[id.ix()].key_off,
            ..o.nodes()[id.ix()]
        })
        &&& in_blob(self.nodes(), self.blob(), id)
        &&& node_key(self.nodes(), self.blob(), id) == node_key(o.nodes(), o.blob(), id)
        &&& node_witness(self.nodes(), self.blob(), id) == node_witness(o.nodes(), o.blob(), id)
    }

    /// Packs the bytes of the given entries end to end, in order, dropping every other byte.
    #[verifier::rlimit(100)]
    pub fn compact_blob(&mut self, survivors: &[NodeId])
        requires
            old(self).wf(),
            survivors@.no_duplicates(),
            forall|id: NodeId| #[trigger]
                survivors@.contains(id) ==> old(self).live(id) && in_blob(
                    old(self).nodes(),
                    old(self).blob(),
                    id,
                ),
            packed_len(old(self).nodes(), old(self).blob(), survivors@) <= u32::MAX,
        ensures
            final(self).wf(),
            final(self).free_ids() == old(self).free_ids(),
            final(self).dead() == 0,
            final(self).nodes().len() == old(self).nodes().len(),
            forall|j: int|
                0 <= j < final(self).nodes().len() && !survivors@.contains(NodeId { raw: j as u32 })
                    ==> #[trigger] final(self).nodes()[j] == old(self).nodes()[j],
            forall|id: NodeId| #[trigger] survivors@.contains(id) ==> final(self).keeps(old(self), id),
            final(self).blob().len() == packed_len(old(self).nodes(), old(self).blob(), survivors@),
    {
        let ghost s0 = *self;
        let ghost n0 = self.nodes@;
        let ghost b0 = self.blob@;
        let mut out: Vec<u8> = Vec::new();
        for i in 0..survivors.len()
            invariant
                s0.wf(),
                n0 == s0.nodes@,
                b0 == s0.blob@,
                self.blob == s0.blob,
                self.free == s0.free,
                self.free_list == s0.free_list,
                self.nodes@.len() == n0.len(),
                survivors@.no_duplicates(),
                forall|id: NodeId| #[trigger]
                    survivors@.contains(id) ==> s0.live(id) && in_blob(n0, b0, id),
                packed_len(n0, b0, survivors@) <= u32::MAX,
                out@.len() == packed_len(n0, b0, survivors@.take(i as int)),
                forall|j: int|
                    0 <= j < n0.len() && !survivors@.take(i as int).contains(NodeId { raw: j as u32 })
                        ==> #[trigger] self.nodes@[j] == n0[j],
                forall|k: int|
                    0 <= k < i ==> moved(n0, b0, self.nodes@, out@, #[trigger] survivors@[k]),
        {
            let id = survivors[i];
            let ghost outb = out@;
            let ghost nb = self.nodes@;
            let ghost part = survivors@.take(i as int);
            proof {
                assert(survivors@.contains(survivors@[i as int]));
                assert(s0.live(id));
                assert(survivors@.take(i + 1) =~= part.push(id));
                crate::sorting::lemma_push_contains(part, id);
                assert(part.push(id).drop_last() =~= part);
                assert(!part.contains(id)) by {
                    if part.contains(id) {
                        let q = choose|q: int| 0 <= q < i && part[q] == id;
                        assert(survivors@[q] == survivors@[i as int]);
                    }
                }
                assert(NodeId { raw: id.ix() as u32 } == id);
                assert(nb[id.ix()] == n0[id.ix()]);
                lemma_packed_prefix(n0, b0, survivors@, i + 1);
                lemma_packed_prefix(n0, b0, survivors@, i as int);
                lemma_entry_size(n0, b0, id);
                assert(self.blob.len() == self.blob@.len());
            }
            let idx: usize = id.index();
            let mut n: Node = self.nodes[idx];
            let start: usize = n.key_off as usize;
            let key_len: usize = n.key_len as usize;
            let extra: usize = if n.verdict() == Verdict::Sat {
                witness_len_for(vstd::slice::slice_subrange(self.blob.as_slice(), start, start + key_len))
            } else {
                0
            };
            let off: u32 = out.len() as u32;
            append_bytes(
                &mut out,
                vstd::slice::slice_subrange(self.blob.as_slice(), start, start + key_len + extra),
            );
            n.key_off = off;
            self.nodes[idx] = n;
            proof {
                let n2 = self.nodes@;
                let o2 = out@;
                assert(o2 == outb + b0.subrange(start as int, start + key_len + extra));
                assert(moved(n0, b0, n2, o2, id)) by {
                    assert(o2.subrange(off as int, off + key_len) =~= b0.subrange(start as int, start + key_len));
                    assert(o2.subrange(off + key_len, off + key_len + extra) =~= b0.subrange(
                        start + key_len,
                        start + key_len + extra,
                    ));
                }
                assert forall|k: int| 0 <= k < i + 1 implies moved(n0, b0, n2, o2, #[trigger] survivors@[k]) by {
                    if k < i {
                        let x = survivors@[k];
                        assert(moved(n0, b0, nb, outb, x));
                        assert(x != id) by {
                            assert(survivors@[k] != survivors@[i as int]);
                        }
                        assert(survivors@.contains(x));
                        assert(s0.live(x));
                        assert(x.ix() != id.ix());
                        assert(n2[x.ix()] == nb[x.ix()]);
                        assert(outb.len() <= o2.len());
                        assert(node_key(n2, o2, x) =~= node_key(nb, outb, x));
                        assert(node_witness(n2, o2, x) =~= node_witness(nb, outb, x));
                    }
                }
                assert forall|j: int|
                    0 <= j < n0.len() && !survivors@.take(i + 1).contains(NodeId { raw: j as u32 }) implies #[trigger] n2[j]
                    == n0[j] by {
                    assert(j != id.ix());
                    assert(nb[j] == n0[j]);
                }
            }
        }
        self.blob = out;
        self.dead_bytes = 0;
        proof {
            assert(survivors@.take(survivors@.len() as int) =~= survivors@);
            assert forall|i: int| 0 <= i < self.free_list@.len() implies (#[trigger] self.free_list@[i]).ix()
                < self.nodes@.len() && self.nodes@[self.free_list@[i].ix()].left == self.free_link(i + 1) by {
                let f = self.free_list@[i];
                assert(s0.free_list@[i].ix() < n0.len());
                assert(s0.free_list@.contains(f));
                assert(!survivors@.contains(f)) by {
                    if survivors@.contains(f) {
                        assert(s0.live(f));
                    }
                }
                assert(NodeId { raw: f.ix() as u32 } == f);
                assert(self.nodes@[f.ix()] == n0[f.ix()]);
                assert(self.free_link(i + 1) == s0.free_link(i + 1));
            }
            assert forall|id: NodeId| #[trigger] survivors@.contains(id) implies self.keeps(&s0, id) by {
                let k = choose|k: int| 0 <= k < survivors@.len() && survivors@[k] == id;
                assert(moved(n0, b0, self.nodes@, self.blob@, survivors@[k]));
            }
        }
    }
}

/// The entry was moved to another blob with its key and witness.
spec fn moved(n0: Seq<Node>, b0: Seq<u8>, n: Seq<Node>, b: Seq<u8>, id: NodeId) -> bool {
    &&& n[id.ix()] == (Node { key_off: n[id.ix()].key_off, ..n0[id.ix()] })
    &&& in_blob(n, b, id)
    &&& node_key(n, b, id) == node_key(n0, b0, id)
    &&& node_witness(n, b, id) == node_witness(n0, b0, id)
}

/// The bytes of a node pool and a key blob with the given room, at `node_size` bytes a node.
pub fn arena_bytes(node_room: usize, node_size: usize, blob_room: usize) -> (n: usize)
    ensures
        n == capped_bytes(node_room * node_size + blob_room),
{
    room_bytes(node_room, node_size).saturating_add(blob_room)
}

} // verus!
