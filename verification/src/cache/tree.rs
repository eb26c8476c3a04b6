//! Bucket policies: what lives at the end of each hash slot.
//!
//! The premise is that a hash table's buckets should be binary search trees rather than linked
//! lists. Measuring that needs a control and some variants, so four policies share one interface
//! and one node arena:
//!
//! | policy         | bucket shape                | why it is here                           |
//! |----------------|-----------------------------|------------------------------------------|
//! | [`Avl`]        | height-balanced BST         | the claim: `O(log k)` worst case         |
//! | [`Unbalanced`] | plain BST, no rebalancing   | is random insertion order already enough?|
//! | [`Splay`]      | self-adjusting BST          | cache access is skewed; exploit it       |
//! | [`Chain`]      | singly linked list          | the control: textbook separate chaining  |
//!
//! # Ordering
//!
//! Trees are ordered by the **full 64-bit hash**, falling back to the raw key bytes only when
//! two entries collide on all 64 bits. Since the bucket index is the *low* bits of that hash,
//! every key in a bucket agrees on those bits and differs in the remaining, uniformly random,
//! high bits.
//!
//! Bucket occupancy is bounded by the table's load factor, so every policy here sees short
//! sequences; recursion depth is bounded by bucket size and cannot overflow the stack.

use vstd::prelude::*;
use vstd::arithmetic::power::{lemma_pow0, lemma_pow_adds, lemma_pow_distributes, lemma_pow_increases, lemma_pow_multiplies, lemma_pow_positive, lemma_pow_strictly_increases, pow};
use crate::cache::arena::{append_bytes, node_key, Node, NodeArena, NodeId};
use crate::cache::links::{all_greater, all_less, entry_key, ids, key_less, lemma_bounds_concat, lemma_bounds_widen, lemma_distinct_node, lemma_ids_in_range, lemma_ids_node, lemma_key_order, lemma_linked_frame, lemma_relinked_keys, lemma_relinked_trans, lemma_sorted_node, lemma_tree_unique, linked, probe, relinked, root_of, sorted_ids, tree_of, Side, Tree};
use crate::sorting::lemma_push_contains;
use crate::text::{same_text, unknown_name, unknown_text};

verus! {

/// The key bytes of an entry lie within the blob.
pub open spec fn key_fits(nodes: Seq<Node>, blob: Seq<u8>, id: NodeId) -> bool {
    nodes[id.ix()].key_off + nodes[id.ix()].key_len <= blob.len()
}

/// No two entries of the sequence have the same hash and key.
pub open spec fn distinct_keys(nodes: Seq<Node>, blob: Seq<u8>, s: Seq<NodeId>) -> bool {
    forall|a: NodeId, b: NodeId| #[trigger]
        s.contains(a) && #[trigger] s.contains(b) && entry_key(nodes, blob, a) == entry_key(nodes, blob, b)
            ==> a == b
}

/// The tree `t` hangs from `root`, its nodes hold entries, no node and no key occurs twice.
pub open spec fn bucket_of(a: &NodeArena, root: NodeId, t: Tree) -> bool {
    &&& a.wf()
    &&& linked(a.nodes(), root, t)
    &&& ids(t).no_duplicates()
    &&& forall|id: NodeId| #[trigger]
        ids(t).contains(id) ==> a.live(id) && key_fits(a.nodes(), a.blob(), id)
    &&& distinct_keys(a.nodes(), a.blob(), ids(t))
}

/// Everything but the links is as before.
pub open spec fn same_store(o: &NodeArena, f: &NodeArena) -> bool {
    f.blob() == o.blob() && f.free_ids() == o.free_ids() && f.dead() == o.dead()
}

/// The entry has the same hash, key, links and height in both pools.
pub open spec fn same_place(n1: Seq<Node>, b1: Seq<u8>, n2: Seq<Node>, b2: Seq<u8>, id: NodeId) -> bool {
    &&& n2[id.ix()].hash == n1[id.ix()].hash
    &&& n2[id.ix()].left == n1[id.ix()].left
    &&& n2[id.ix()].right == n1[id.ix()].right
    &&& n2[id.ix()].height == n1[id.ix()].height
    &&& node_key(n2, b2, id) == node_key(n1, b1, id)
}

/// How a bucket's entries are organised.
pub trait BucketPolicy: Sized {
    /// The name of the policy.
    spec fn spec_name() -> Seq<char>;

    /// What the policy keeps true of a bucket's tree.
    spec fn shape(nodes: Seq<Node>, blob: Seq<u8>, t: Tree) -> bool;

    /// The empty bucket is in shape.
    proof fn lemma_shape_empty(nodes: Seq<Node>, blob: Seq<u8>)
        ensures
            Self::shape(nodes, blob, Tree::Leaf),
    ;

    /// A bucket stays in shape while its own entries stay where they are.
    proof fn lemma_shape_frame(n1: Seq<Node>, b1: Seq<u8>, n2: Seq<Node>, b2: Seq<u8>, t: Tree)
        requires
            Self::shape(n1, b1, t),
            forall|id: NodeId| #[trigger] ids(t).contains(id) ==> same_place(n1, b1, n2, b2, id),
        ensures
            Self::shape(n2, b2, t),
    ;

    /// What the policy promises of the height of a bucket with `n` entries.
    spec fn height_fits(h: int, n: int) -> bool;

    /// A bucket in shape is of a height that fits.
    proof fn lemma_shape_height(nodes: Seq<Node>, blob: Seq<u8>, t: Tree)
        requires
            Self::shape(nodes, blob, t),
        ensures
            Self::height_fits(tree_height(t), ids(t).len() as int),
    ;

    /// The greatest height fits the greatest size.
    proof fn lemma_heights_joined(h1: int, n1: int, h2: int, n2: int)
        requires
            Self::height_fits(h1, n1),
            Self::height_fits(h2, n2),
        ensures
            Self::height_fits(greater(h1, h2), greater(n1, n2)),
    ;

    /// Name used by the command line and by benchmark output.
    fn name() -> (s: &'static str)
        ensures
            s@ == Self::spec_name(),
    ;

    /// Finds the entry matching `(hash, key)`, or the null handle.
    ///
    /// Takes the root by mutable reference because a self-adjusting policy rewrites the bucket
    /// on a *successful lookup* as well as on insertion.
    fn lookup(arena: &mut NodeArena, root: &mut NodeId, hash: u64, key: &[u8]) -> (r: NodeId)
        requires
            bucket_of(old(arena), *old(root), tree_of(old(arena).nodes(), *old(root))),
            Self::shape(old(arena).nodes(), old(arena).blob(), tree_of(old(arena).nodes(), *old(root))),
        ensures
            bucket_of(final(arena), *final(root), tree_of(final(arena).nodes(), *final(root))),
            Self::shape(
                final(arena).nodes(),
                final(arena).blob(),
                tree_of(final(arena).nodes(), *final(root)),
            ),
            same_store(old(arena), final(arena)),
            relinked(
                old(arena).nodes(),
                final(arena).nodes(),
                ids(tree_of(old(arena).nodes(), *old(root))),
            ),
            forall|id: NodeId| #[trigger]
                ids(tree_of(final(arena).nodes(), *final(root))).contains(id) <==> ids(
                    tree_of(old(arena).nodes(), *old(root)),
                ).contains(id),
            r == NodeId::none() <==> forall|id: NodeId| #[trigger]
                ids(tree_of(old(arena).nodes(), *old(root))).contains(id) ==> entry_key(
                    old(arena).nodes(),
                    old(arena).blob(),
                    id,
                ) != (hash, key@),
            r != NodeId::none() ==> ids(tree_of(old(arena).nodes(), *old(root))).contains(r) && entry_key(
                old(arena).nodes(),
                old(arena).blob(),
                r,
            ) == (hash, key@),
    ;

    /// Links `node` into the bucket. The caller guarantees its key is not already present.
    ///
    /// `hash` and `key` describe `node`. They are passed in rather than read back out of the
    /// arena so that a policy can compare against them while the node pool is mutably borrowed.
    fn insert(arena: &mut NodeArena, root: &mut NodeId, node: NodeId, hash: u64, key: &[u8])
        requires
            bucket_of(old(arena), *old(root), tree_of(old(arena).nodes(), *old(root))),
            Self::shape(old(arena).nodes(), old(arena).blob(), tree_of(old(arena).nodes(), *old(root))),
            old(arena).live(node),
            key_fits(old(arena).nodes(), old(arena).blob(), node),
            old(arena).nodes()[node.ix()].left == NodeId::none(),
            old(arena).nodes()[node.ix()].right == NodeId::none(),
            old(arena).nodes()[node.ix()].height == 1,
            entry_key(old(arena).nodes(), old(arena).blob(), node) == (hash, key@),
            forall|id: NodeId| #[trigger]
                ids(tree_of(old(arena).nodes(), *old(root))).contains(id) ==> id != node && entry_key(
                    old(arena).nodes(),
                    old(arena).blob(),
                    id,
                ) != (hash, key@),
        ensures
            bucket_of(final(arena), *final(root), tree_of(final(arena).nodes(), *final(root))),
            Self::shape(
                final(arena).nodes(),
                final(arena).blob(),
                tree_of(final(arena).nodes(), *final(root)),
            ),
            same_store(old(arena), final(arena)),
            relinked(
                old(arena).nodes(),
                final(arena).nodes(),
                ids(tree_of(old(arena).nodes(), *old(root))).push(node),
            ),
            forall|id: NodeId| #[trigger]
                ids(tree_of(final(arena).nodes(), *final(root))).contains(id) <==> ids(
                    tree_of(old(arena).nodes(), *old(root)),
                ).contains(id) || id == node,
    ;

    /// Rebuilds a bucket from scratch, used after a resize or an eviction sweep.
    ///
    /// Here the keys *do* live in the arena, so each is copied into `scratch` for the duration of
    /// its insertion. `scratch` is reused across the whole rebuild.
    fn rebuild(arena: &mut NodeArena, members: &[NodeId], scratch: &mut Vec<u8>) -> (root: NodeId)
        requires
            old(arena).wf(),
            members@.no_duplicates(),
            forall|id: NodeId| #[trigger]
                members@.contains(id) ==> old(arena).live(id) && key_fits(
                    old(arena).nodes(),
                    old(arena).blob(),
                    id,
                ),
            distinct_keys(old(arena).nodes(), old(arena).blob(), members@),
        ensures
            bucket_of(final(arena), root, tree_of(final(arena).nodes(), root)),
            Self::shape(final(arena).nodes(), final(arena).blob(), tree_of(final(arena).nodes(), root)),
            same_store(old(arena), final(arena)),
            relinked(old(arena).nodes(), final(arena).nodes(), members@),
            forall|id: NodeId| #[trigger]
                ids(tree_of(final(arena).nodes(), root)).contains(id) <==> members@.contains(id),
    {
        let ghost a0 = *arena;
        let ghost n0 = arena.nodes();
        let ghost blob = arena.blob();
        let mut root = NodeId::none();
        proof {
            a0.lemma_wf();
            assert(linked(n0, root, Tree::Leaf));
            lemma_tree_unique(n0, root, Tree::Leaf);
            Self::lemma_shape_empty(n0, blob);
            assert(ids(Tree::Leaf) =~= Seq::<NodeId>::empty());
        }
        for i in 0..members.len()
            invariant
                n0 == a0.nodes(),
                blob == a0.blob(),
                members@.no_duplicates(),
                forall|id: NodeId| #[trigger]
                    members@.contains(id) ==> a0.live(id) && key_fits(n0, blob, id),
                distinct_keys(n0, blob, members@),
                bucket_of(arena, root, tree_of(arena.nodes(), root)),
                Self::shape(arena.nodes(), arena.blob(), tree_of(arena.nodes(), root)),
                same_store(&a0, arena),
                relinked(n0, arena.nodes(), members@),
                forall|id: NodeId| #[trigger]
                    ids(tree_of(arena.nodes(), root)).contains(id) <==> members@.take(i as int).contains(id),
        {
            let id = members[i];
            let ghost n1 = arena.nodes();
            let ghost a1 = *arena;
            let ghost t = tree_of(n1, root);
            proof {
                assert(members@.contains(members@[i as int]));
                assert(n1[id.ix()].same_entry(n0[id.ix()]));
                assert(members@.take(i + 1) =~= members@.take(i as int).push(id));
                lemma_push_contains(members@.take(i as int), id);
                assert(!members@.take(i as int).contains(id)) by {
                    if members@.take(i as int).contains(id) {
                        let q = choose|q: int| 0 <= q < i && members@.take(i as int)[q] == id;
                        assert(members@[q] == members@[i as int]);
                    }
                }
                assert forall|x: NodeId| #[trigger] ids(t).contains(x) implies members@.contains(x) by {
                    let q = choose|q: int| 0 <= q < i && members@.take(i as int)[q] == x;
                    assert(members@[q] == x);
                }
                lemma_relinked_keys(n0, n1, members@, blob);
            }
            let entry = *arena.get(id);
            scratch.clear();
            append_bytes(scratch, arena.key_range(entry.key_off, entry.key_len));
            let slot = arena.get_mut(id);
            slot.left = NodeId::none();
            slot.right = NodeId::none();
            slot.height = 1;
            let ghost n2 = arena.nodes();
            let ghost k = (entry.hash, scratch@);
            proof {
                assert(scratch@ == node_key(n1, blob, id)) by {
                    assert(Seq::<u8>::empty() + node_key(n1, blob, id) =~= node_key(n1, blob, id));
                }
                assert(forall|x: NodeId| #[trigger] ids(t).contains(x) ==> n2[x.ix()] == n1[x.ix()]) by {
                    assert forall|x: NodeId| #[trigger] ids(t).contains(x) implies n2[x.ix()] == n1[x.ix()] by {
                        assert(x != id);
                    }
                }
                lemma_linked_frame(n1, n2, root, t);
                arena.lemma_wf();
                lemma_tree_unique(n2, root, t);
                assert forall|x: NodeId| #[trigger] ids(t).contains(x) implies same_place(n1, blob, n2, blob, x) by {
                    assert(n2[x.ix()] == n1[x.ix()]);
                }
                Self::lemma_shape_frame(n1, blob, n2, blob, t);
                assert(bucket_of(arena, root, t)) by {
                    assert forall|x: NodeId| #[trigger] ids(t).contains(x) implies arena.live(x) && key_fits(
                        n2,
                        blob,
                        x,
                    ) && entry_key(n2, blob, x) == entry_key(n1, blob, x) by {
                        assert(a1.live(x));
                    }
                }
                assert(entry_key(n2, blob, id) == k);
                assert forall|x: NodeId| #[trigger] ids(t).contains(x) implies x != id && entry_key(n2, blob, x) != k by {
                    assert(members@.contains(x));
                    assert(entry_key(n2, blob, x) == entry_key(n1, blob, x));
                    assert(entry_key(n1, blob, x) == entry_key(n0, blob, x));
                    assert(entry_key(n1, blob, id) == entry_key(n0, blob, id));
                }
            }
            Self::insert(arena, &mut root, id, entry.hash, scratch.as_slice());
            proof {
                let n3 = arena.nodes();
                assert(relinked(n0, n2, members@)) by {
                    assert forall|j: int| 0 <= j < n0.len() implies (#[trigger] n2[j]).same_entry(n0[j]) by {
                        assert(n1[j].same_entry(n0[j]));
                    }
                    assert forall|j: int| 0 <= j < n0.len() && !members@.contains(NodeId { raw: j as u32 }) implies #[trigger] n2[j]
                        == n0[j] by {
                        assert(n1[j] == n0[j]);
                        assert(NodeId { raw: id.ix() as u32 } == id);
                    }
                }
                lemma_push_contains(ids(t), id);
                lemma_relinked_trans(n0, n2, n3, members@, ids(t).push(id), members@);
            }
        }
        assert(members@.take(members@.len() as int) =~= members@);
        root
    }
}

/// Classic separate chaining: a singly linked list threaded through the left child.
///
/// This is the structure the trees are measured against, so it is implemented as carefully as the
/// others. Insertion is `O(1)` at the head; lookup is a linear scan.
#[derive(Debug, Clone, Copy)]
pub struct Chain;

/// No node has a right child.
pub open spec fn spine(t: Tree) -> bool
    decreases t,
{
    match t {
        Tree::Leaf => true,
        Tree::Node(id, l, r) => *r == Tree::Leaf && spine(*l),
    }
}

impl BucketPolicy for Chain {
    open spec fn spec_name() -> Seq<char> {
        "chain"@
    }

    open spec fn shape(nodes: Seq<Node>, blob: Seq<u8>, t: Tree) -> bool {
        spine(t)
    }

    proof fn lemma_shape_empty(nodes: Seq<Node>, blob: Seq<u8>) {
    }

    proof fn lemma_shape_frame(n1: Seq<Node>, b1: Seq<u8>, n2: Seq<Node>, b2: Seq<u8>, t: Tree) {
    }

    open spec fn height_fits(h: int, n: int) -> bool {
        h == n
    }

    proof fn lemma_shape_height(nodes: Seq<Node>, blob: Seq<u8>, t: Tree) {
        lemma_height_of(t);
    }

    proof fn lemma_heights_joined(h1: int, n1: int, h2: int, n2: int) {
    }

    fn name() -> (s: &'static str) {
        "chain"
    }

    /// A lookup moves nothing.
    fn lookup(arena: &mut NodeArena, root: &mut NodeId, hash: u64, key: &[u8]) -> (r: NodeId)
        ensures
            *final(arena) == *old(arena),
            *final(root) == *old(root),
    {
        let ghost nodes = arena.nodes();
        let ghost blob = arena.blob();
        let ghost t = tree_of(nodes, *root);
        let ghost mut sub = t;
        let mut cur = *root;
        proof {
            arena.lemma_wf();
        }
        while cur.is_some()
            invariant
                *arena == *old(arena),
                *root == *old(root),
                nodes == arena.nodes(),
                blob == arena.blob(),
                t == tree_of(nodes, *root),
                bucket_of(arena, *root, t),
                spine(t),
                linked(nodes, cur, sub),
                spine(sub),
                forall|id: NodeId| #[trigger] ids(sub).contains(id) ==> ids(t).contains(id),
                forall|id: NodeId| #[trigger]
                    ids(t).contains(id) && entry_key(nodes, blob, id) == (hash, key@) ==> ids(sub).contains(id),
            decreases sub,
        {
            let ghost (l, r) = match sub {
                Tree::Leaf => (Tree::Leaf, Tree::Leaf),
                Tree::Node(i, l, r) => (*l, *r),
            };
            proof {
                lemma_ids_node(cur, l, r);
                assert(sub == Tree::Node(cur, Box::new(l), Box::new(r)));
                assert(ids(sub).contains(cur));
            }
            // Compare the cheap hash first; only touch the key on a full 64-bit match.
            if arena.get(cur).hash == hash && probe(arena, cur, hash, key) == Side::Equal {
                proof {
                    assert(ids(t).contains(cur));
                    arena.lemma_wf();
                }
                return cur;
            }
            cur = arena.get(cur).left;
            proof {
                assert forall|id: NodeId| #[trigger]
                    ids(t).contains(id) && entry_key(nodes, blob, id) == (hash, key@) implies ids(l).contains(
                    id,
                ) by {
                    assert(ids(sub).contains(id));
                }
                assert forall|id: NodeId| #[trigger] ids(l).contains(id) implies ids(t).contains(id) by {
                    assert(ids(sub).contains(id));
                }
                sub = l;
            }
        }
        proof {
            arena.lemma_wf();
            assert(sub == Tree::Leaf);
            assert forall|id: NodeId| #[trigger] ids(t).contains(id) implies entry_key(nodes, blob, id) != (
                hash,
                key@,
            ) by {
                if entry_key(nodes, blob, id) == (hash, key@) {
                    assert(ids(sub).contains(id));
                }
            }
        }
        NodeId::none()
    }

    fn insert(arena: &mut NodeArena, root: &mut NodeId, node: NodeId, hash: u64, key: &[u8])
        ensures
            *final(root) == node,
            tree_of(final(arena).nodes(), node) == Tree::Node(
                node,
                Box::new(tree_of(old(arena).nodes(), *old(root))),
                Box::new(Tree::Leaf),
            ),
    {
        let ghost n1 = arena.nodes();
        let ghost blob = arena.blob();
        let ghost t = tree_of(n1, *root);
        let head = *root;
        let slot = arena.get_mut(node);
        slot.left = head;
        slot.right = NodeId::none();
        *root = node;
        proof {
            let n2 = arena.nodes();
            let t2 = Tree::Node(node, Box::new(t), Box::new(Tree::Leaf));
            lemma_ids_node(node, t, Tree::Leaf);
            lemma_distinct_node(node, t, Tree::Leaf);
            lemma_push_contains(ids(t), node);
            assert(relinked(n1, n2, ids(t).push(node))) by {
                assert(ids(t).push(node).contains(node));
            }
            lemma_linked_frame(n1, n2, head, t);
            assert(n2[node.ix()].left == head && n2[node.ix()].right == NodeId::none());
            assert(linked(n2, NodeId::none(), Tree::Leaf));
            assert(linked(n2, node, t2));
            lemma_joined(old(arena), arena, head, t, node, t2, node, (hash, key@));
        }
    }
}

/// A node placed above a bucket, or among its entries, joins the bucket.
proof fn lemma_joined(o: &NodeArena, f: &NodeArena, root: NodeId, t: Tree, r2: NodeId, t2: Tree, node: NodeId, k: (u64, Seq<u8>))
    requires
        bucket_of(o, root, t),
        o.live(node),
        key_fits(o.nodes(), o.blob(), node),
        entry_key(o.nodes(), o.blob(), node) == k,
        forall|id: NodeId| #[trigger]
            ids(t).contains(id) ==> id != node && entry_key(o.nodes(), o.blob(), id) != k,
        f.wf(),
        same_store(o, f),
        linked(f.nodes(), r2, t2),
        relinked(o.nodes(), f.nodes(), ids(t).push(node)),
        ids(t2).no_duplicates(),
        forall|id: NodeId| #[trigger] ids(t2).contains(id) <==> ids(t).contains(id) || id == node,
    ensures
        bucket_of(f, r2, t2),
        tree_of(f.nodes(), r2) == t2,
{
    f.lemma_wf();
    lemma_tree_unique(f.nodes(), r2, t2);
    lemma_relinked_keys(o.nodes(), f.nodes(), ids(t).push(node), o.blob());
    lemma_ids_in_range(o.nodes(), root, t);
    assert forall|id: NodeId| #[trigger] ids(t2).contains(id) implies f.live(id) && key_fits(
        f.nodes(),
        f.blob(),
        id,
    ) by {
        assert(f.nodes()[id.ix()].same_entry(o.nodes()[id.ix()]));
        if id != node {
            assert(o.live(id));
        }
    }
    assert forall|a: NodeId, b: NodeId| #[trigger]
        ids(t2).contains(a) && #[trigger] ids(t2).contains(b) && entry_key(f.nodes(), f.blob(), a) == entry_key(
            f.nodes(),
            f.blob(),
            b,
        ) implies a == b by {
        assert(f.live(a) && f.live(b));
        assert(entry_key(f.nodes(), f.blob(), a) == entry_key(o.nodes(), o.blob(), a));
        assert(entry_key(f.nodes(), f.blob(), b) == entry_key(o.nodes(), o.blob(), b));
    }
}

/// What the order of a tree says about its parts and about where a key can be.
proof fn lemma_descend(nodes: Seq<Node>, blob: Seq<u8>, id: NodeId, l: Tree, r: Tree, k: (u64, Seq<u8>))
    requires
        sorted_ids(nodes, blob, ids(Tree::Node(id, Box::new(l), Box::new(r)))),
    ensures
        sorted_ids(nodes, blob, ids(l)),
        sorted_ids(nodes, blob, ids(r)),
        all_less(nodes, blob, ids(l), entry_key(nodes, blob, id)),
        all_greater(nodes, blob, ids(r), entry_key(nodes, blob, id)),
        key_less(k, entry_key(nodes, blob, id)) ==> (forall|x: NodeId| #[trigger]
            ids(r).contains(x) ==> entry_key(nodes, blob, x) != k) && entry_key(nodes, blob, id) != k
            && all_greater(nodes, blob, ids(r), k),
        key_less(entry_key(nodes, blob, id), k) ==> (forall|x: NodeId| #[trigger]
            ids(l).contains(x) ==> entry_key(nodes, blob, x) != k) && entry_key(nodes, blob, id) != k
            && all_less(nodes, blob, ids(l), k),
{
    let kx = entry_key(nodes, blob, id);
    lemma_ids_node(id, l, r);
    lemma_sorted_node(nodes, blob, ids(l), id, ids(r));
    lemma_key_order(k, kx, k);
    if key_less(k, kx) {
        lemma_bounds_widen(nodes, blob, ids(r), k, kx);
        assert forall|x: NodeId| #[trigger] ids(r).contains(x) implies entry_key(nodes, blob, x) != k by {
            let i = choose|i: int| 0 <= i < ids(r).len() && ids(r)[i] == x;
            assert(key_less(k, entry_key(nodes, blob, ids(r)[i])));
            lemma_key_order(k, k, k);
        }
        lemma_key_order(k, k, k);
    }
    if key_less(kx, k) {
        lemma_bounds_widen(nodes, blob, ids(l), kx, k);
        assert forall|x: NodeId| #[trigger] ids(l).contains(x) implies entry_key(nodes, blob, x) != k by {
            let i = choose|i: int| 0 <= i < ids(l).len() && ids(l)[i] == x;
            assert(key_less(entry_key(nodes, blob, ids(l)[i]), k));
            lemma_key_order(k, k, k);
        }
        lemma_key_order(k, k, k);
    }
}

/// Walks down a search tree to the entry with the given hash and key.
fn descend(arena: &NodeArena, root: NodeId, hash: u64, key: &[u8]) -> (r: NodeId)
    requires
        bucket_of(arena, root, tree_of(arena.nodes(), root)),
        sorted_ids(arena.nodes(), arena.blob(), ids(tree_of(arena.nodes(), root))),
    ensures
        r == NodeId::none() <==> forall|id: NodeId| #[trigger]
            ids(tree_of(arena.nodes(), root)).contains(id) ==> entry_key(arena.nodes(), arena.blob(), id) != (
                hash,
                key@,
            ),
        r != NodeId::none() ==> ids(tree_of(arena.nodes(), root)).contains(r) && entry_key(
            arena.nodes(),
            arena.blob(),
            r,
        ) == (hash, key@),
{
    let ghost nodes = arena.nodes();
    let ghost blob = arena.blob();
    let ghost t = tree_of(nodes, root);
    let ghost k = (hash, key@);
    let ghost mut sub = t;
    let mut cur = root;
    proof {
        arena.lemma_wf();
    }
    while cur.is_some()
        invariant
            nodes == arena.nodes(),
            nodes.len() <= u32::MAX,
            blob == arena.blob(),
            k == (hash, key@),
            t == tree_of(nodes, root),
            bucket_of(arena, root, t),
            linked(nodes, cur, sub),
            sorted_ids(nodes, blob, ids(sub)),
            forall|id: NodeId| #[trigger] ids(sub).contains(id) ==> ids(t).contains(id),
            forall|id: NodeId| #[trigger]
                ids(t).contains(id) && entry_key(nodes, blob, id) == k ==> ids(sub).contains(id),
        decreases sub,
    {
        let ghost (l, r) = match sub {
            Tree::Leaf => (Tree::Leaf, Tree::Leaf),
            Tree::Node(i, l, r) => (*l, *r),
        };
        let ghost before = sub;
        proof {
            assert(sub == Tree::Node(cur, Box::new(l), Box::new(r)));
            lemma_ids_node(cur, l, r);
            lemma_descend(nodes, blob, cur, l, r, k);
            assert(ids(sub).contains(cur));
            assert(ids(t).contains(cur));
            assert forall|id: NodeId| #[trigger] ids(l).contains(id) implies ids(t).contains(id) by {
                assert(ids(sub).contains(id));
            }
            assert forall|id: NodeId| #[trigger] ids(r).contains(id) implies ids(t).contains(id) by {
                assert(ids(sub).contains(id));
            }
        }
        match probe(arena, cur, hash, key) {
            Side::Less => {
                cur = arena.get(cur).left;
                proof {
                    sub = l;
                }
            },
            Side::Greater => {
                cur = arena.get(cur).right;
                proof {
                    sub = r;
                }
            },
            Side::Equal => {
                return cur;
            },
        }
        proof {
            assert forall|id: NodeId| #[trigger]
                ids(t).contains(id) && entry_key(nodes, blob, id) == k implies ids(sub).contains(id) by {
                assert(ids(before).contains(id));
            }
        }
    }
    proof {
        assert(sub == Tree::Leaf);
        assert forall|id: NodeId| #[trigger] ids(t).contains(id) implies entry_key(nodes, blob, id) != k by {
            if entry_key(nodes, blob, id) == k {
                assert(ids(sub).contains(id));
            }
        }
    }
    NodeId::none()
}

/// The height of a tree, in nodes.
pub open spec fn tree_height(t: Tree) -> int
    decreases t,
{
    match t {
        Tree::Leaf => 0,
        Tree::Node(id, l, r) => 1 + if tree_height(*l) > tree_height(*r) {
            tree_height(*l)
        } else {
            tree_height(*r)
        },
    }
}

/// The greater of two.
pub open spec fn greater(a: int, b: int) -> int {
    if a > b {
        a
    } else {
        b
    }
}

/// A tree is no higher than it has nodes, and just as high where it is a chain.
pub proof fn lemma_height_of(t: Tree)
    ensures
        0 <= tree_height(t) <= ids(t).len(),
        spine(t) ==> tree_height(t) == ids(t).len(),
    decreases t,
{
    match t {
        Tree::Leaf => {},
        Tree::Node(id, l, r) => {
            lemma_height_of(*l);
            lemma_height_of(*r);
            lemma_ids_node(id, *l, *r);
        },
    }
}

/// Sibling heights differ by at most one everywhere, and every node records its height.
pub open spec fn balanced(nodes: Seq<Node>, t: Tree) -> bool
    decreases t,
{
    match t {
        Tree::Leaf => true,
        Tree::Node(id, l, r) => {
            &&& balanced(nodes, *l)
            &&& balanced(nodes, *r)
            &&& -1 <= tree_height(*l) - tree_height(*r) <= 1
            &&& nodes[id.ix()].height as int == tree_height(t)
        },
    }
}

/// The height stored at a handle, or zero for the null one.
pub open spec fn stored_height(nodes: Seq<Node>, id: NodeId) -> int {
    if id == NodeId::none() {
        0
    } else {
        nodes[id.ix()].height as int
    }
}

proof fn lemma_balanced_frame(n1: Seq<Node>, n2: Seq<Node>, t: Tree)
    requires
        balanced(n1, t),
        forall|x: NodeId| #[trigger] ids(t).contains(x) ==> n2[x.ix()].height == n1[x.ix()].height,
    ensures
        balanced(n2, t),
    decreases t,
{
    match t {
        Tree::Leaf => {},
        Tree::Node(id, l, r) => {
            lemma_ids_node(id, *l, *r);
            assert(ids(t).contains(id));
            assert forall|x: NodeId| #[trigger] ids(*l).contains(x) implies n2[x.ix()].height == n1[x.ix()].height by {
                assert(ids(t).contains(x));
            }
            assert forall|x: NodeId| #[trigger] ids(*r).contains(x) implies n2[x.ix()].height == n1[x.ix()].height by {
                assert(ids(t).contains(x));
            }
            lemma_balanced_frame(n1, n2, *l);
            lemma_balanced_frame(n1, n2, *r);
        },
    }
}

/// The fewest nodes that a balanced tree of the given height can have.
pub open spec fn min_nodes(h: int) -> int
    decreases h,
{
    if h <= 0 {
        0
    } else if h == 1 {
        1
    } else {
        1 + min_nodes(h - 1) + min_nodes(h - 2)
    }
}

/// A balanced tree of height `h` has at least `min_nodes(h)` entries, a number that grows as the
/// Fibonacci numbers do: its height is logarithmic in its size.
pub proof fn lemma_balanced_height_is_logarithmic(nodes: Seq<Node>, t: Tree)
    requires
        balanced(nodes, t),
    ensures
        min_nodes(tree_height(t)) <= ids(t).len(),
        tree_height(t) >= 0,
    decreases t,
{
    match t {
        Tree::Leaf => {},
        Tree::Node(id, l, r) => {
            lemma_balanced_height_is_logarithmic(nodes, *l);
            lemma_balanced_height_is_logarithmic(nodes, *r);
            lemma_ids_node(id, *l, *r);
            lemma_min_nodes_monotone(tree_height(*l), tree_height(*r));
            lemma_min_nodes_monotone(tree_height(*r), tree_height(*l));
            let h = tree_height(t);
            lemma_min_nodes_monotone(h - 2, tree_height(*l));
            lemma_min_nodes_monotone(h - 2, tree_height(*r));
        },
    }
}

proof fn lemma_min_nodes_monotone(a: int, b: int)
    ensures
        min_nodes(a) >= 0,
        a <= b ==> min_nodes(a) <= min_nodes(b),
        a >= 2 ==> min_nodes(a) >= 1 + 2 * min_nodes(a - 2),
    decreases (if a > b {
        a
    } else {
        b
    }), (if a > 0 {
        a
    } else {
        0
    }),
{
    if a > 1 {
        lemma_min_nodes_monotone(a - 1, a - 1);
        lemma_min_nodes_monotone(a - 2, a - 1);
    }
    if a < b && b >= 1 {
        lemma_min_nodes_monotone(a, b - 1);
        if b >= 2 {
            lemma_min_nodes_monotone(b - 2, b - 2);
        }
    }
}

/// The tree hangs from `root` and its nodes hold distinct entries of the arena.
spec fn held(a: &NodeArena, root: NodeId, t: Tree) -> bool {
    &&& a.wf()
    &&& linked(a.nodes(), root, t)
    &&& ids(t).no_duplicates()
    &&& forall|id: NodeId| #[trigger]
        ids(t).contains(id) ==> a.live(id) && key_fits(a.nodes(), a.blob(), id)
}

/// Relinking nodes keeps the tree held, if it is still linked.
proof fn lemma_held(o: &NodeArena, f: &NodeArena, root: NodeId, t: Tree, touched: Seq<NodeId>)
    requires
        f.wf(),
        same_store(o, f),
        relinked(o.nodes(), f.nodes(), touched),
        linked(f.nodes(), root, t),
        ids(t).no_duplicates(),
        forall|id: NodeId| #[trigger]
            ids(t).contains(id) ==> o.live(id) && key_fits(o.nodes(), o.blob(), id),
    ensures
        held(f, root, t),
{
    assert forall|id: NodeId| #[trigger] ids(t).contains(id) implies f.live(id) && key_fits(
        f.nodes(),
        f.blob(),
        id,
    ) by {
        assert(o.live(id));
        assert(f.nodes()[id.ix()].same_entry(o.nodes()[id.ix()]));
    }
}

/// A linked tree starts at its own root.
proof fn lemma_linked_root(nodes: Seq<Node>, root: NodeId, t: Tree)
    requires
        linked(nodes, root, t),
        nodes.len() <= u32::MAX,
    ensures
        root == root_of(t),
        (t == Tree::Leaf) == (root == NodeId::none()),
{
}

/// The parts of a held tree are held.
proof fn lemma_held_parts(a: &NodeArena, id: NodeId, l: Tree, r: Tree)
    requires
        held(a, id, Tree::Node(id, Box::new(l), Box::new(r))),
    ensures
        held(a, a.nodes()[id.ix()].left, l),
        held(a, a.nodes()[id.ix()].right, r),
        a.live(id),
        key_fits(a.nodes(), a.blob(), id),
        id != NodeId::none(),
        !ids(l).contains(id),
        !ids(r).contains(id),
        forall|x: NodeId| #[trigger] ids(l).contains(x) ==> !ids(r).contains(x),
        forall|x: NodeId| #[trigger] ids(r).contains(x) ==> !ids(l).contains(x),
        root_of(l) == a.nodes()[id.ix()].left,
        root_of(r) == a.nodes()[id.ix()].right,
        (l == Tree::Leaf) == (a.nodes()[id.ix()].left == NodeId::none()),
        (r == Tree::Leaf) == (a.nodes()[id.ix()].right == NodeId::none()),
{
    let t = Tree::Node(id, Box::new(l), Box::new(r));
    lemma_ids_node(id, l, r);
    lemma_distinct_node(id, l, r);
    a.lemma_wf();
    lemma_linked_root(a.nodes(), a.nodes()[id.ix()].left, l);
    lemma_linked_root(a.nodes(), a.nodes()[id.ix()].right, r);
    assert(ids(t).contains(id));
    assert forall|x: NodeId| #[trigger] ids(l).contains(x) implies a.live(x) && key_fits(a.nodes(), a.blob(), x) by {
        assert(ids(t).contains(x));
    }
    assert forall|x: NodeId| #[trigger] ids(r).contains(x) implies a.live(x) && key_fits(a.nodes(), a.blob(), x) by {
        assert(ids(t).contains(x));
    }
}

/// Sets the left child of a node.
fn set_left(arena: &mut NodeArena, id: NodeId, child: NodeId)
    requires
        old(arena).wf(),
        old(arena).live(id),
    ensures
        final(arena).wf(),
        same_store(old(arena), final(arena)),
        final(arena).nodes() == old(arena).nodes().update(
            id.ix(),
            (Node { left: child, ..old(arena).nodes()[id.ix()] }),
        ),
        relinked(old(arena).nodes(), final(arena).nodes(), seq![id]),
{
    let n = arena.get_mut(id);
    n.left = child;
    assert(seq![id][0] == id);
}

/// Sets the right child of a node.
fn set_right(arena: &mut NodeArena, id: NodeId, child: NodeId)
    requires
        old(arena).wf(),
        old(arena).live(id),
    ensures
        final(arena).wf(),
        same_store(old(arena), final(arena)),
        final(arena).nodes() == old(arena).nodes().update(
            id.ix(),
            (Node { right: child, ..old(arena).nodes()[id.ix()] }),
        ),
        relinked(old(arena).nodes(), final(arena).nodes(), seq![id]),
{
    let n = arena.get_mut(id);
    n.right = child;
    assert(seq![id][0] == id);
}

/// The height stored at a handle, or zero for the null one.
fn height(arena: &NodeArena, id: NodeId) -> (h: i32)
    requires
        arena.wf(),
        id == NodeId::none() || id.ix() < arena.nodes().len(),
    ensures
        h == stored_height(arena.nodes(), id),
        0 <= h <= 255,
{
    if id.is_none() {
        0
    } else {
        arena.get(id).height as i32
    }
}

/// One more than the larger stored height of the two handles, cut to a byte.
pub open spec fn height_over(nodes: Seq<Node>, l: NodeId, r: NodeId) -> u8 {
    (1 + if stored_height(nodes, l) > stored_height(nodes, r) {
        stored_height(nodes, l)
    } else {
        stored_height(nodes, r)
    }) as u8
}

/// Recomputes a node's height from its children.
fn refresh_height(arena: &mut NodeArena, id: NodeId)
    requires
        old(arena).wf(),
        old(arena).live(id),
        old(arena).nodes()[id.ix()].left == NodeId::none() || old(arena).nodes()[id.ix()].left.ix() < old(arena).nodes().len(),
        old(arena).nodes()[id.ix()].right == NodeId::none() || old(arena).nodes()[id.ix()].right.ix() < old(arena).nodes().len(),
    ensures
        final(arena).wf(),
        same_store(old(arena), final(arena)),
        final(arena).nodes() == old(arena).nodes().update(
            id.ix(),
            (Node {
                height: height_over(
                    old(arena).nodes(),
                    old(arena).nodes()[id.ix()].left,
                    old(arena).nodes()[id.ix()].right,
                ),
                ..old(arena).nodes()[id.ix()]
            }),
        ),
        relinked(old(arena).nodes(), final(arena).nodes(), seq![id]),
{
    let left = arena.get(id).left;
    let right = arena.get(id).right;
    let a: i32 = height(arena, left);
    let b: i32 = height(arena, right);
    let h: i32 = 1 + if a > b {
        a
    } else {
        b
    };
    let n = arena.get_mut(id);
    n.height = if h > 255 {
        0
    } else {
        h as u8
    };
    proof {
        assert(256int as u8 == 0) by {
            assert(256u32 as u8 == 0) by (bit_vector);
        }
        assert(seq![id][0] == id);
    }
}

/// The tree after rotating right around its root.
pub open spec fn rotated_right(t: Tree) -> Tree {
    match t {
        Tree::Node(y, xl, c) => match *xl {
            Tree::Node(x, a, b) => Tree::Node(x, a, Box::new(Tree::Node(y, b, c))),
            Tree::Leaf => t,
        },
        Tree::Leaf => t,
    }
}

/// The tree after rotating left around its root.
pub open spec fn rotated_left(t: Tree) -> Tree {
    match t {
        Tree::Node(x, a, yr) => match *yr {
            Tree::Node(y, b, c) => Tree::Node(y, Box::new(Tree::Node(x, a, b)), c),
            Tree::Leaf => t,
        },
        Tree::Leaf => t,
    }
}

/// Rotating keeps the nodes in their order from left to right.
pub proof fn lemma_rotation_keeps_order(t: Tree)
    ensures
        ids(rotated_right(t)) == ids(t),
        ids(rotated_left(t)) == ids(t),
{
    match t {
        Tree::Leaf => {},
        Tree::Node(y, l, r) => {
            lemma_ids_node(y, *l, *r);
            match *l {
                Tree::Node(x, a, b) => {
                    lemma_ids_node(x, *a, *b);
                    lemma_ids_node(y, *b, *r);
                    lemma_ids_node(x, *a, Tree::Node(y, b, r));
                    assert(ids(rotated_right(t)) =~= ids(t));
                },
                Tree::Leaf => {},
            }
            match *r {
                Tree::Node(z, b, c) => {
                    lemma_ids_node(z, *b, *c);
                    lemma_ids_node(y, *l, *b);
                    lemma_ids_node(z, Tree::Node(y, l, b), *c);
                    assert(ids(rotated_left(t)) =~= ids(t));
                },
                Tree::Leaf => {},
            }
        },
    }
}

/// Rotates right around `y`, returning the new subtree root.
#[verifier::rlimit(100)]
fn rotate_right(
    arena: &mut NodeArena,
    y: NodeId,
    Ghost(x0): Ghost<NodeId>,
    Ghost(a): Ghost<Tree>,
    Ghost(b): Ghost<Tree>,
    Ghost(c): Ghost<Tree>,
) -> (x: NodeId)
    requires
        held(
            old(arena),
            y,
            Tree::Node(y, Box::new(Tree::Node(x0, Box::new(a), Box::new(b))), Box::new(c)),
        ),
    ensures
        x == x0,
        held(
            final(arena),
            x,
            Tree::Node(x0, Box::new(a), Box::new(Tree::Node(y, Box::new(b), Box::new(c)))),
        ),
        ids(Tree::Node(x0, Box::new(a), Box::new(Tree::Node(y, Box::new(b), Box::new(c))))) == ids(
            Tree::Node(y, Box::new(Tree::Node(x0, Box::new(a), Box::new(b))), Box::new(c)),
        ),
        same_store(old(arena), final(arena)),
        relinked(old(arena).nodes(), final(arena).nodes(), seq![x0, y]),
        final(arena).nodes()[y.ix()].height == height_over(old(arena).nodes(), root_of(b), root_of(c)),
        final(arena).nodes()[x0.ix()].height == height_over(final(arena).nodes(), root_of(a), y),
{
    let ghost tx = Tree::Node(x0, Box::new(a), Box::new(b));
    let ghost t = Tree::Node(y, Box::new(tx), Box::new(c));
    let ghost ty = Tree::Node(y, Box::new(b), Box::new(c));
    let ghost t2 = Tree::Node(x0, Box::new(a), Box::new(ty));
    let ghost n0 = arena.nodes();
    let ghost a0 = *arena;
    proof {
        lemma_held_parts(arena, y, tx, c);
        lemma_held_parts(arena, x0, a, b);
        lemma_ids_node(y, tx, c);
        lemma_ids_node(x0, a, b);
        lemma_ids_node(y, b, c);
        lemma_ids_node(x0, a, ty);
        lemma_rotation_keeps_order(t);
        assert(rotated_right(t) == t2);
        assert(ids(tx).contains(x0));
        assert(x0 != y);
        lemma_ids_in_range(n0, n0[x0.ix()].left, a);
        lemma_ids_in_range(n0, n0[x0.ix()].right, b);
        lemma_ids_in_range(n0, n0[y.ix()].right, c);
        a0.lemma_wf();
    }
    let x = arena.get(y).left;
    let t2_root = arena.get(x).right;
    set_right(arena, x, y);
    let ghost a1 = *arena;
    set_left(arena, y, t2_root);
    let ghost a2 = *arena;
    proof {
        assert(b != Tree::Leaf ==> ids(b).contains(root_of(b))) by {
            lemma_root_in(b);
        }
        assert(c != Tree::Leaf ==> ids(c).contains(root_of(c))) by {
            lemma_root_in(c);
        }
        assert(a != Tree::Leaf ==> ids(a).contains(root_of(a))) by {
            lemma_root_in(a);
        }
    }
    refresh_height(arena, y);
    let ghost a3 = *arena;
    refresh_height(arena, x);
    proof {
        let n2 = arena.nodes();
        let two = seq![x0, y];
        assert(two[0] == x0 && two[1] == y);
        assert forall|j: int| 0 <= j < n0.len() implies (#[trigger] n2[j]).same_entry(n0[j]) by {}
        assert forall|j: int| 0 <= j < n0.len() && !two.contains(NodeId { raw: j as u32 }) implies #[trigger] n2[j]
            == n0[j] by {
            assert(j != x0.ix()) by {
                if j == x0.ix() {
                    assert(two[0] == NodeId { raw: j as u32 });
                }
            }
            assert(j != y.ix()) by {
                if j == y.ix() {
                    assert(two[1] == NodeId { raw: j as u32 });
                }
            }
        }
        assert(relinked(n0, n2, two));
        assert forall|z: NodeId| #[trigger] ids(a).contains(z) implies n2[z.ix()] == n0[z.ix()] by {
            assert(ids(tx).contains(z));
            assert(z.ix() != x0.ix() && z.ix() != y.ix());
        }
        assert forall|z: NodeId| #[trigger] ids(b).contains(z) implies n2[z.ix()] == n0[z.ix()] by {
            assert(ids(tx).contains(z));
            assert(z.ix() != x0.ix() && z.ix() != y.ix());
        }
        assert forall|z: NodeId| #[trigger] ids(c).contains(z) implies n2[z.ix()] == n0[z.ix()] by {
            assert(z.ix() != y.ix());
            assert(z.ix() != x0.ix()) by {
                if z.ix() == x0.ix() {
                    assert(z == x0);
                }
            }
        }
        lemma_linked_frame(n0, n2, n0[x0.ix()].left, a);
        lemma_linked_frame(n0, n2, n0[x0.ix()].right, b);
        lemma_linked_frame(n0, n2, n0[y.ix()].right, c);
        assert(linked(n2, y, ty));
        assert(linked(n2, x0, t2));
        assert forall|id: NodeId| #[trigger] ids(t2).contains(id) implies a0.live(id) && key_fits(
            a0.nodes(),
            a0.blob(),
            id,
        ) by {
            assert(ids(t).contains(id));
        }
        lemma_held(&a0, arena, x0, t2, two);
    }
    x
}

/// Rotates left around `x`, returning the new subtree root.
#[verifier::rlimit(100)]
fn rotate_left(
    arena: &mut NodeArena,
    x: NodeId,
    Ghost(y0): Ghost<NodeId>,
    Ghost(a): Ghost<Tree>,
    Ghost(b): Ghost<Tree>,
    Ghost(c): Ghost<Tree>,
) -> (y: NodeId)
    requires
        held(
            old(arena),
            x,
            Tree::Node(x, Box::new(a), Box::new(Tree::Node(y0, Box::new(b), Box::new(c)))),
        ),
    ensures
        y == y0,
        held(
            final(arena),
            y,
            Tree::Node(y0, Box::new(Tree::Node(x, Box::new(a), Box::new(b))), Box::new(c)),
        ),
        ids(Tree::Node(y0, Box::new(Tree::Node(x, Box::new(a), Box::new(b))), Box::new(c))) == ids(
            Tree::Node(x, Box::new(a), Box::new(Tree::Node(y0, Box::new(b), Box::new(c)))),
        ),
        same_store(old(arena), final(arena)),
        relinked(old(arena).nodes(), final(arena).nodes(), seq![x, y0]),
        final(arena).nodes()[x.ix()].height == height_over(old(arena).nodes(), root_of(a), root_of(b)),
        final(arena).nodes()[y0.ix()].height == height_over(final(arena).nodes(), x, root_of(c)),
{
    let ghost ty = Tree::Node(y0, Box::new(b), Box::new(c));
    let ghost t = Tree::Node(x, Box::new(a), Box::new(ty));
    let ghost tx = Tree::Node(x, Box::new(a), Box::new(b));
    let ghost t2 = Tree::Node(y0, Box::new(tx), Box::new(c));
    let ghost n0 = arena.nodes();
    let ghost a0 = *arena;
    proof {
        lemma_held_parts(arena, x, a, ty);
        lemma_held_parts(arena, y0, b, c);
        lemma_ids_node(x, a, ty);
        lemma_ids_node(y0, b, c);
        lemma_ids_node(x, a, b);
        lemma_ids_node(y0, tx, c);
        lemma_rotation_keeps_order(t);
        assert(rotated_left(t) == t2);
        assert(ids(ty).contains(y0));
        assert(x != y0);
        lemma_ids_in_range(n0, n0[x.ix()].left, a);
        lemma_ids_in_range(n0, n0[y0.ix()].left, b);
        lemma_ids_in_range(n0, n0[y0.ix()].right, c);
        a0.lemma_wf();
    }
    let y = arena.get(x).right;
    let t2_root = arena.get(y).left;
    set_left(arena, y, x);
    let ghost a1 = *arena;
    set_right(arena, x, t2_root);
    let ghost a2 = *arena;
    proof {
        lemma_root_in(a);
        lemma_root_in(b);
        lemma_root_in(c);
    }
    refresh_height(arena, x);
    let ghost a3 = *arena;
    refresh_height(arena, y);
    proof {
        let n2 = arena.nodes();
        let two = seq![x, y0];
        assert(two[0] == x && two[1] == y0);
        assert forall|j: int| 0 <= j < n0.len() implies (#[trigger] n2[j]).same_entry(n0[j]) by {}
        assert forall|j: int| 0 <= j < n0.len() && !two.contains(NodeId { raw: j as u32 }) implies #[trigger] n2[j]
            == n0[j] by {
            assert(j != x.ix()) by {
                if j == x.ix() {
                    assert(two[0] == NodeId { raw: j as u32 });
                }
            }
            assert(j != y0.ix()) by {
                if j == y0.ix() {
                    assert(two[1] == NodeId { raw: j as u32 });
                }
            }
        }
        assert(relinked(n0, n2, two));
        assert forall|z: NodeId| #[trigger] ids(a).contains(z) implies n2[z.ix()] == n0[z.ix()] by {
            assert(z.ix() != x.ix());
            assert(z.ix() != y0.ix()) by {
                if z.ix() == y0.ix() {
                    assert(z == y0);
                }
            }
        }
        assert forall|z: NodeId| #[trigger] ids(b).contains(z) implies n2[z.ix()] == n0[z.ix()] by {
            assert(ids(ty).contains(z));
            assert(z.ix() != x.ix() && z.ix() != y0.ix());
        }
        assert forall|z: NodeId| #[trigger] ids(c).contains(z) implies n2[z.ix()] == n0[z.ix()] by {
            assert(ids(ty).contains(z));
            assert(z.ix() != x.ix() && z.ix() != y0.ix());
        }
        lemma_linked_frame(n0, n2, n0[x.ix()].left, a);
        lemma_linked_frame(n0, n2, n0[y0.ix()].left, b);
        lemma_linked_frame(n0, n2, n0[y0.ix()].right, c);
        assert(linked(n2, x, tx));
        assert(linked(n2, y0, t2));
        assert forall|id: NodeId| #[trigger] ids(t2).contains(id) implies a0.live(id) && key_fits(
            a0.nodes(),
            a0.blob(),
            id,
        ) by {
            assert(ids(t).contains(id));
        }
        lemma_held(&a0, arena, y0, t2, two);
    }
    y
}

/// A tree that is not empty contains its root.
proof fn lemma_root_in(t: Tree)
    ensures
        t != Tree::Leaf ==> ids(t).contains(root_of(t)),
{
    match t {
        Tree::Leaf => {},
        Tree::Node(id, l, r) => {
            lemma_ids_node(id, *l, *r);
        },
    }
}

/// Hanging a relinked left subtree back below its parent.
proof fn lemma_replace_left(
    a0: &NodeArena,
    a1: &NodeArena,
    a2: &NodeArena,
    id: NodeId,
    l: Tree,
    r: Tree,
    child: NodeId,
    sub: Tree,
    touched: Seq<NodeId>,
)
    requires
        held(a0, id, Tree::Node(id, Box::new(l), Box::new(r))),
        held(a1, child, sub),
        same_store(a0, a1),
        relinked(a0.nodes(), a1.nodes(), touched),
        !touched.contains(id),
        forall|x: NodeId| #[trigger] ids(r).contains(x) ==> !touched.contains(x) && !ids(sub).contains(x),
        !ids(sub).contains(id),
        a2.wf(),
        same_store(a1, a2),
        a2.nodes() == a1.nodes().update(id.ix(), (Node { left: child, ..a1.nodes()[id.ix()] })),
    ensures
        held(a2, id, Tree::Node(id, Box::new(sub), Box::new(r))),
        relinked(a0.nodes(), a2.nodes(), touched.push(id)),
        forall|x: NodeId| #[trigger] ids(sub).contains(x) ==> a2.nodes()[x.ix()] == a1.nodes()[x.ix()],
        forall|x: NodeId| #[trigger] ids(r).contains(x) ==> a2.nodes()[x.ix()] == a0.nodes()[x.ix()],
        a2.nodes()[id.ix()].right == a0.nodes()[id.ix()].right,
        a2.nodes()[id.ix()].left == child,
{
    let t0 = Tree::Node(id, Box::new(l), Box::new(r));
    let t2 = Tree::Node(id, Box::new(sub), Box::new(r));
    let n0 = a0.nodes();
    let n1 = a1.nodes();
    let n2 = a2.nodes();
    a0.lemma_wf();
    lemma_held_parts(a0, id, l, r);
    lemma_ids_node(id, l, r);
    lemma_ids_node(id, sub, r);
    lemma_distinct_node(id, sub, r);
    lemma_ids_in_range(n0, n0[id.ix()].right, r);
    lemma_ids_in_range(n1, child, sub);
    assert(NodeId { raw: id.raw } == id);
    assert(n1[id.ix()] == n0[id.ix()]);
    assert forall|x: NodeId| #[trigger] ids(r).contains(x) implies n2[x.ix()] == n0[x.ix()] by {
        assert(NodeId { raw: x.raw } == x);
        assert(!touched.contains(NodeId { raw: x.ix() as u32 }));
        assert(n1[x.ix()] == n0[x.ix()]);
        assert(x.ix() != id.ix());
    }
    assert forall|x: NodeId| #[trigger] ids(sub).contains(x) implies n2[x.ix()] == n1[x.ix()] by {
        assert(x.ix() != id.ix());
    }
    lemma_linked_frame(n0, n2, n0[id.ix()].right, r);
    lemma_linked_frame(n1, n2, child, sub);
    assert(linked(n2, id, t2));
    lemma_push_contains(touched, id);
    assert(relinked(n0, n2, touched.push(id))) by {
        assert forall|j: int| 0 <= j < n0.len() implies (#[trigger] n2[j]).same_entry(n0[j]) by {
            assert(n1[j].same_entry(n0[j]));
        }
        assert forall|j: int| 0 <= j < n0.len() && !touched.push(id).contains(NodeId { raw: j as u32 }) implies #[trigger] n2[j]
            == n0[j] by {
            assert(!touched.contains(NodeId { raw: j as u32 }));
            assert(n1[j] == n0[j]);
        }
    }
    assert forall|x: NodeId| #[trigger] ids(t2).contains(x) implies a2.live(x) && key_fits(a2.nodes(), a2.blob(), x) by {
        assert(n2[x.ix()].same_entry(n0[x.ix()]));
        if ids(sub).contains(x) {
            assert(a1.live(x) && key_fits(n1, a1.blob(), x));
        } else if ids(r).contains(x) {
            assert(ids(t0).contains(x));
        } else {
            assert(ids(t0).contains(id));
        }
    }
    assert(ids(t2).no_duplicates()) by {
        assert forall|x: NodeId| #[trigger] ids(sub).contains(x) implies !ids(r).contains(x) by {}
    }
}

/// Hanging a relinked right subtree back below its parent.
proof fn lemma_replace_right(
    a0: &NodeArena,
    a1: &NodeArena,
    a2: &NodeArena,
    id: NodeId,
    l: Tree,
    r: Tree,
    child: NodeId,
    sub: Tree,
    touched: Seq<NodeId>,
)
    requires
        held(a0, id, Tree::Node(id, Box::new(l), Box::new(r))),
        held(a1, child, sub),
        same_store(a0, a1),
        relinked(a0.nodes(), a1.nodes(), touched),
        !touched.contains(id),
        forall|x: NodeId| #[trigger] ids(l).contains(x) ==> !touched.contains(x) && !ids(sub).contains(x),
        !ids(sub).contains(id),
        a2.wf(),
        same_store(a1, a2),
        a2.nodes() == a1.nodes().update(id.ix(), (Node { right: child, ..a1.nodes()[id.ix()] })),
    ensures
        held(a2, id, Tree::Node(id, Box::new(l), Box::new(sub))),
        relinked(a0.nodes(), a2.nodes(), touched.push(id)),
        forall|x: NodeId| #[trigger] ids(sub).contains(x) ==> a2.nodes()[x.ix()] == a1.nodes()[x.ix()],
        forall|x: NodeId| #[trigger] ids(l).contains(x) ==> a2.nodes()[x.ix()] == a0.nodes()[x.ix()],
        a2.nodes()[id.ix()].left == a0.nodes()[id.ix()].left,
        a2.nodes()[id.ix()].right == child,
{
    let t0 = Tree::Node(id, Box::new(l), Box::new(r));
    let t2 = Tree::Node(id, Box::new(l), Box::new(sub));
    let n0 = a0.nodes();
    let n1 = a1.nodes();
    let n2 = a2.nodes();
    a0.lemma_wf();
    lemma_held_parts(a0, id, l, r);
    lemma_ids_node(id, l, r);
    lemma_ids_node(id, l, sub);
    lemma_distinct_node(id, l, sub);
    lemma_ids_in_range(n0, n0[id.ix()].left, l);
    lemma_ids_in_range(n1, child, sub);
    assert(NodeId { raw: id.raw } == id);
    assert(n1[id.ix()] == n0[id.ix()]);
    assert forall|x: NodeId| #[trigger] ids(l).contains(x) implies n2[x.ix()] == n0[x.ix()] by {
        assert(NodeId { raw: x.raw } == x);
        assert(!touched.contains(NodeId { raw: x.ix() as u32 }));
        assert(n1[x.ix()] == n0[x.ix()]);
        assert(x.ix() != id.ix());
    }
    assert forall|x: NodeId| #[trigger] ids(sub).contains(x) implies n2[x.ix()] == n1[x.ix()] by {
        assert(x.ix() != id.ix());
    }
    lemma_linked_frame(n0, n2, n0[id.ix()].left, l);
    lemma_linked_frame(n1, n2, child, sub);
    assert(linked(n2, id, t2));
    lemma_push_contains(touched, id);
    assert(relinked(n0, n2, touched.push(id))) by {
        assert forall|j: int| 0 <= j < n0.len() implies (#[trigger] n2[j]).same_entry(n0[j]) by {
            assert(n1[j].same_entry(n0[j]));
        }
        assert forall|j: int| 0 <= j < n0.len() && !touched.push(id).contains(NodeId { raw: j as u32 }) implies #[trigger] n2[j]
            == n0[j] by {
            assert(!touched.contains(NodeId { raw: j as u32 }));
            assert(n1[j] == n0[j]);
        }
    }
    assert forall|x: NodeId| #[trigger] ids(t2).contains(x) implies a2.live(x) && key_fits(a2.nodes(), a2.blob(), x) by {
        assert(n2[x.ix()].same_entry(n0[x.ix()]));
        if ids(sub).contains(x) {
            assert(a1.live(x) && key_fits(n1, a1.blob(), x));
        } else if ids(l).contains(x) {
            assert(ids(t0).contains(x));
        } else {
            assert(ids(t0).contains(id));
        }
    }
    assert(ids(t2).no_duplicates()) by {
        assert forall|x: NodeId| #[trigger] ids(l).contains(x) implies !ids(sub).contains(x) by {}
    }
}

/// The parts of a balanced tree.
proof fn lemma_balanced_parts(nodes: Seq<Node>, id: NodeId, l: Tree, r: Tree)
    requires
        balanced(nodes, Tree::Node(id, Box::new(l), Box::new(r))),
    ensures
        balanced(nodes, l),
        balanced(nodes, r),
        -1 <= tree_height(l) - tree_height(r) <= 1,
{
}

/// In a balanced tree the root stores the height of the tree.
proof fn lemma_stored(nodes: Seq<Node>, root: NodeId, t: Tree)
    requires
        linked(nodes, root, t),
        balanced(nodes, t),
        nodes.len() <= u32::MAX,
    ensures
        stored_height(nodes, root) == tree_height(t),
        0 <= tree_height(t) <= 255,
{
}

/// How much deeper a tree is on the left than on the right.
pub open spec fn lean(t: Tree) -> int {
    match t {
        Tree::Leaf => 0,
        Tree::Node(id, l, r) => tree_height(*l) - tree_height(*r),
    }
}

/// The tree after evening out its root: where it leans by more than one, the deeper child is rotated
/// outwards if it leans inwards, and then the root is rotated the other way.
pub open spec fn evened(t: Tree) -> Tree {
    match t {
        Tree::Leaf => t,
        Tree::Node(id, l, r) => if lean(t) > 1 {
            rotated_right(Tree::Node(id, Box::new(if lean(*l) < 0 { rotated_left(*l) } else { *l }), r))
        } else if lean(t) < -1 {
            rotated_left(Tree::Node(id, l, Box::new(if lean(*r) > 0 { rotated_right(*r) } else { *r })))
        } else {
            t
        },
    }
}

/// Restores the balance of a node whose subtrees are balanced and differ by at most two, returning
/// the new subtree root.
#[verifier::rlimit(100)]
fn rebalance(arena: &mut NodeArena, id: NodeId, Ghost(l): Ghost<Tree>, Ghost(r): Ghost<Tree>) -> (res: (
    NodeId,
    Ghost<Tree>,
))
    requires
        held(old(arena), id, Tree::Node(id, Box::new(l), Box::new(r))),
        balanced(old(arena).nodes(), l),
        balanced(old(arena).nodes(), r),
        -2 <= tree_height(l) - tree_height(r) <= 2,
        tree_height(l) <= 200,
        tree_height(r) <= 200,
    ensures
        held(final(arena), res.0, res.1@),
        balanced(final(arena).nodes(), res.1@),
        res.1@ == evened(Tree::Node(id, Box::new(l), Box::new(r))),
        ids(res.1@) == ids(Tree::Node(id, Box::new(l), Box::new(r))),
        same_store(old(arena), final(arena)),
        relinked(
            old(arena).nodes(),
            final(arena).nodes(),
            ids(Tree::Node(id, Box::new(l), Box::new(r))),
        ),
        -1 <= tree_height(l) - tree_height(r) <= 1 ==> res.1@ == Tree::Node(id, Box::new(l), Box::new(r)),
        tree_height(l) - tree_height(r) == 2 ==> tree_height(l) <= tree_height(res.1@) <= tree_height(l)
            + 1,
        tree_height(l) - tree_height(r) == -2 ==> tree_height(r) <= tree_height(res.1@) <= tree_height(r)
            + 1,
{
    let ghost t = Tree::Node(id, Box::new(l), Box::new(r));
    let ghost a0 = *arena;
    let ghost n0 = arena.nodes();
    let ghost all = ids(t);
    proof {
        a0.lemma_wf();
        lemma_held_parts(arena, id, l, r);
        lemma_ids_node(id, l, r);
        lemma_root_in(l);
        lemma_root_in(r);
        lemma_ids_in_range(n0, id, t);
        lemma_stored(n0, n0[id.ix()].left, l);
        lemma_stored(n0, n0[id.ix()].right, r);
        assert(all.contains(id));
    }
    refresh_height(arena, id);
    let ghost a1 = *arena;
    let ghost n1 = arena.nodes();
    proof {
        assert forall|x: NodeId| #[trigger] ids(l).contains(x) implies n1[x.ix()] == n0[x.ix()] by {
            assert(x.ix() != id.ix());
        }
        assert forall|x: NodeId| #[trigger] ids(r).contains(x) implies n1[x.ix()] == n0[x.ix()] by {
            assert(x.ix() != id.ix());
        }
        lemma_linked_frame(n0, n1, n0[id.ix()].left, l);
        lemma_linked_frame(n0, n1, n0[id.ix()].right, r);
        lemma_balanced_frame(n0, n1, l);
        lemma_balanced_frame(n0, n1, r);
        assert(linked(n1, id, t));
        lemma_held(&a0, &a1, id, t, seq![id]);
        lemma_stored(n1, n1[id.ix()].left, l);
        lemma_stored(n1, n1[id.ix()].right, r);
        assert(relinked(n0, n1, all)) by {
            assert(relinked(n0, n1, seq![id]));
            assert forall|j: int| 0 <= j < n0.len() && !all.contains(NodeId { raw: j as u32 }) implies #[trigger] n1[j]
                == n0[j] by {
                assert(j != id.ix()) by {
                    if j == id.ix() {
                        assert(NodeId { raw: j as u32 } == id);
                    }
                }
            }
        }
    }
    let left = arena.get(id).left;
    let right = arena.get(id).right;
    let hl: i32 = height(arena, left);
    let hr: i32 = height(arena, right);
    if hl - hr > 1 {
        let ghost (x, a, b) = match l {
            Tree::Leaf => (id, Tree::Leaf, Tree::Leaf),
            Tree::Node(x, a, b) => (x, *a, *b),
        };
        proof {
            assert(l == Tree::Node(x, Box::new(a), Box::new(b)));
            lemma_held_parts(&a1, id, l, r);
            lemma_held_parts(&a1, x, a, b);
            lemma_stored(n1, n1[x.ix()].left, a);
            lemma_stored(n1, n1[x.ix()].right, b);
            lemma_ids_node(x, a, b);
            lemma_root_in(a);
            lemma_root_in(b);
            lemma_ids_in_range(n1, id, t);
            assert(ids(l).contains(x));
            assert(all.contains(x));
        }
        let la = arena.get(left).left;
        let lb = arena.get(left).right;
        proof {
            assert(a != Tree::Leaf ==> ids(l).contains(root_of(a)) && all.contains(root_of(a)));
            assert(b != Tree::Leaf ==> ids(l).contains(root_of(b)) && all.contains(root_of(b)));
        }
        if height(arena, la) - height(arena, lb) < 0 {
            let ghost (y, b1, b2) = match b {
                Tree::Leaf => (id, Tree::Leaf, Tree::Leaf),
                Tree::Node(y, b1, b2) => (y, *b1, *b2),
            };
            let ghost l2 = Tree::Node(y, Box::new(Tree::Node(x, Box::new(a), Box::new(b1))), Box::new(b2));
            proof {
                assert(b == Tree::Node(y, Box::new(b1), Box::new(b2)));
                lemma_balanced_parts(n1, x, a, b);
                lemma_balanced_parts(n1, y, b1, b2);
                lemma_ids_node(y, b1, b2);
                lemma_held_parts(&a1, y, b1, b2);
                lemma_stored(n1, n1[y.ix()].left, b1);
                lemma_stored(n1, n1[y.ix()].right, b2);
            }
            let rotated = rotate_left(arena, left, Ghost(y), Ghost(a), Ghost(b1), Ghost(b2));
            let ghost a2 = *arena;
            let ghost n2 = arena.nodes();
            let ghost two = seq![x, y];
            proof {
                assert(two[0] == x && two[1] == y);
                assert forall|z: NodeId| #[trigger] two.contains(z) implies z == x || z == y by {}
                assert(ids(b).contains(y));
                assert(ids(l).contains(y));
                assert(!two.contains(id));
                assert forall|z: NodeId| #[trigger] ids(r).contains(z) implies !two.contains(z) && !ids(l2).contains(z) by {
                    assert(!ids(l).contains(z));
                }
            }
            set_left(arena, id, rotated);
            let ghost a3 = *arena;
            let ghost n3 = arena.nodes();
            let ghost tx = Tree::Node(x, Box::new(a), Box::new(b1));
            proof {
                lemma_replace_left(&a1, &a2, &a3, id, l, r, rotated, l2, two);
                lemma_unchanged(n1, n2, two, a);
                lemma_unchanged(n1, n2, two, b1);
                lemma_unchanged(n1, n2, two, b2);
                lemma_ids_node(x, a, b1);
                lemma_ids_node(y, tx, b2);
                lemma_sub_unchanged(n2, n3, l2, a);
                lemma_sub_unchanged(n2, n3, l2, b1);
                lemma_sub_unchanged(n2, n3, l2, b2);
                lemma_balanced_frame(n1, n3, a);
                lemma_balanced_frame(n1, n3, b1);
                lemma_balanced_frame(n1, n3, b2);
                lemma_balanced_frame(n1, n3, r);
                lemma_held_parts(&a3, id, l2, r);
                lemma_held_parts(&a3, y, tx, b2);
                lemma_held_parts(&a3, x, a, b1);
                lemma_stored(n3, root_of(b2), b2);
                lemma_stored(n3, root_of(r), r);
                lemma_stored(n3, root_of(a), a);
                lemma_stored(n3, root_of(b1), b1);
                lemma_stored(n1, root_of(a), a);
                lemma_stored(n1, root_of(b1), b1);
                assert(ids(l2).contains(x));
                assert(n3[x.ix()].height == n2[x.ix()].height);
            }
            let top = rotate_right(arena, id, Ghost(y), Ghost(tx), Ghost(b2), Ghost(r));
            let ghost n4 = arena.nodes();
            let ghost tid = Tree::Node(id, Box::new(b2), Box::new(r));
            let ghost t4 = Tree::Node(y, Box::new(tx), Box::new(tid));
            proof {
                let pair = seq![y, id];
                assert(pair[0] == y && pair[1] == id);
                assert forall|z: NodeId| #[trigger] pair.contains(z) implies z == y || z == id by {}
                lemma_unchanged(n3, n4, pair, a);
                lemma_unchanged(n3, n4, pair, b1);
                lemma_unchanged(n3, n4, pair, b2);
                lemma_unchanged(n3, n4, pair, r);
                lemma_balanced_frame(n3, n4, a);
                lemma_balanced_frame(n3, n4, b1);
                lemma_balanced_frame(n3, n4, b2);
                lemma_balanced_frame(n3, n4, r);
                assert(n4[x.ix()] == n3[x.ix()]) by {
                    assert(!pair.contains(NodeId { raw: x.ix() as u32 }));
                }
                assert(balanced(n4, tx));
                assert(balanced(n4, tid));
                lemma_held_parts(arena, y, tx, tid);
                lemma_stored(n4, root_of(tx), tx);
                assert(balanced(n4, t4));
                assert(ids(t4) =~= all) by {
                    lemma_ids_node(id, l, r);
                    lemma_ids_node(id, l2, r);
                    assert(ids(l2) == ids(l));
                }
                assert(relinked(n0, n4, all)) by {
                    lemma_push_contains(two, id);
                    lemma_relinked_trans(n0, n1, n3, all, two.push(id), all);
                    lemma_relinked_trans(n0, n3, n4, all, pair, all);
                }
            }
            (top, Ghost(t4))
        } else {
            let top = rotate_right(arena, id, Ghost(x), Ghost(a), Ghost(b), Ghost(r));
            let ghost n4 = arena.nodes();
            let ghost tid = Tree::Node(id, Box::new(b), Box::new(r));
            let ghost t4 = Tree::Node(x, Box::new(a), Box::new(tid));
            proof {
                let pair = seq![x, id];
                assert(pair[0] == x && pair[1] == id);
                assert forall|z: NodeId| #[trigger] pair.contains(z) implies z == x || z == id by {}
                lemma_unchanged(n1, n4, pair, a);
                lemma_unchanged(n1, n4, pair, b);
                lemma_unchanged(n1, n4, pair, r);
                lemma_balanced_frame(n1, n4, a);
                lemma_balanced_frame(n1, n4, b);
                lemma_balanced_frame(n1, n4, r);
                lemma_held_parts(arena, x, a, tid);
                lemma_stored(n4, root_of(a), a);
                assert(balanced(n4, tid));
                assert(balanced(n4, t4));
                assert(relinked(n0, n4, all)) by {
                    lemma_relinked_trans(n0, n1, n4, all, pair, all);
                }
            }
            (top, Ghost(t4))
        }
    } else if hl - hr < -1 {
        let ghost (y, b, c) = match r {
            Tree::Leaf => (id, Tree::Leaf, Tree::Leaf),
            Tree::Node(y, b, c) => (y, *b, *c),
        };
        proof {
            assert(r == Tree::Node(y, Box::new(b), Box::new(c)));
            lemma_held_parts(&a1, id, l, r);
            lemma_held_parts(&a1, y, b, c);
            lemma_stored(n1, n1[y.ix()].left, b);
            lemma_stored(n1, n1[y.ix()].right, c);
            lemma_ids_node(y, b, c);
            lemma_root_in(b);
            lemma_root_in(c);
            lemma_ids_in_range(n1, id, t);
            assert(ids(r).contains(y));
            assert(all.contains(y));
        }
        let rb = arena.get(right).left;
        let rc = arena.get(right).right;
        proof {
            assert(b != Tree::Leaf ==> ids(r).contains(root_of(b)) && all.contains(root_of(b)));
            assert(c != Tree::Leaf ==> ids(r).contains(root_of(c)) && all.contains(root_of(c)));
        }
        if height(arena, rb) - height(arena, rc) > 0 {
            let ghost (x, b1, b2) = match b {
                Tree::Leaf => (id, Tree::Leaf, Tree::Leaf),
                Tree::Node(x, b1, b2) => (x, *b1, *b2),
            };
            let ghost r2 = Tree::Node(x, Box::new(b1), Box::new(Tree::Node(y, Box::new(b2), Box::new(c))));
            proof {
                assert(b == Tree::Node(x, Box::new(b1), Box::new(b2)));
                lemma_balanced_parts(n1, y, b, c);
                lemma_balanced_parts(n1, x, b1, b2);
                lemma_ids_node(x, b1, b2);
                lemma_held_parts(&a1, x, b1, b2);
                lemma_stored(n1, n1[x.ix()].left, b1);
                lemma_stored(n1, n1[x.ix()].right, b2);
            }
            let rotated = rotate_right(arena, right, Ghost(x), Ghost(b1), Ghost(b2), Ghost(c));
            let ghost a2 = *arena;
            let ghost n2 = arena.nodes();
            let ghost two = seq![x, y];
            proof {
                assert(two[0] == x && two[1] == y);
                assert forall|z: NodeId| #[trigger] two.contains(z) implies z == x || z == y by {}
                assert(ids(b).contains(x));
                assert(ids(r).contains(x));
                assert(!two.contains(id));
                assert forall|z: NodeId| #[trigger] ids(l).contains(z) implies !two.contains(z) && !ids(r2).contains(z) by {
                    assert(!ids(r).contains(z));
                }
            }
            set_right(arena, id, rotated);
            let ghost a3 = *arena;
            let ghost n3 = arena.nodes();
            let ghost ty = Tree::Node(y, Box::new(b2), Box::new(c));
            proof {
                lemma_replace_right(&a1, &a2, &a3, id, l, r, rotated, r2, two);
                lemma_unchanged(n1, n2, two, b1);
                lemma_unchanged(n1, n2, two, b2);
                lemma_unchanged(n1, n2, two, c);
                lemma_ids_node(y, b2, c);
                lemma_ids_node(x, b1, ty);
                lemma_sub_unchanged(n2, n3, r2, b1);
                lemma_sub_unchanged(n2, n3, r2, b2);
                lemma_sub_unchanged(n2, n3, r2, c);
                lemma_balanced_frame(n1, n3, b1);
                lemma_balanced_frame(n1, n3, b2);
                lemma_balanced_frame(n1, n3, c);
                lemma_balanced_frame(n1, n3, l);
                lemma_held_parts(&a3, id, l, r2);
                lemma_held_parts(&a3, x, b1, ty);
                lemma_held_parts(&a3, y, b2, c);
                lemma_stored(n3, root_of(b1), b1);
                lemma_stored(n3, root_of(l), l);
                lemma_stored(n3, root_of(b2), b2);
                lemma_stored(n3, root_of(c), c);
                lemma_stored(n1, root_of(b2), b2);
                lemma_stored(n1, root_of(c), c);
                assert(ids(r2).contains(y));
                assert(n3[y.ix()].height == n2[y.ix()].height);
            }
            let top = rotate_left(arena, id, Ghost(x), Ghost(l), Ghost(b1), Ghost(ty));
            let ghost n4 = arena.nodes();
            let ghost tid = Tree::Node(id, Box::new(l), Box::new(b1));
            let ghost t4 = Tree::Node(x, Box::new(tid), Box::new(ty));
            proof {
                let pair = seq![id, x];
                assert(pair[0] == id && pair[1] == x);
                assert forall|z: NodeId| #[trigger] pair.contains(z) implies z == x || z == id by {}
                lemma_unchanged(n3, n4, pair, b1);
                lemma_unchanged(n3, n4, pair, b2);
                lemma_unchanged(n3, n4, pair, c);
                lemma_unchanged(n3, n4, pair, l);
                lemma_balanced_frame(n3, n4, b1);
                lemma_balanced_frame(n3, n4, b2);
                lemma_balanced_frame(n3, n4, c);
                lemma_balanced_frame(n3, n4, l);
                assert(n4[y.ix()] == n3[y.ix()]) by {
                    assert(!pair.contains(NodeId { raw: y.ix() as u32 }));
                }
                assert(balanced(n4, ty));
                assert(balanced(n4, tid));
                lemma_held_parts(arena, x, tid, ty);
                lemma_stored(n4, root_of(ty), ty);
                assert(balanced(n4, t4));
                assert(ids(t4) =~= all) by {
                    lemma_ids_node(id, l, r);
                    lemma_ids_node(id, l, r2);
                    assert(ids(r2) == ids(r));
                }
                assert(relinked(n0, n4, all)) by {
                    lemma_push_contains(two, id);
                    lemma_relinked_trans(n0, n1, n3, all, two.push(id), all);
                    lemma_relinked_trans(n0, n3, n4, all, pair, all);
                }
            }
            (top, Ghost(t4))
        } else {
            let top = rotate_left(arena, id, Ghost(y), Ghost(l), Ghost(b), Ghost(c));
            let ghost n4 = arena.nodes();
            let ghost tid = Tree::Node(id, Box::new(l), Box::new(b));
            let ghost t4 = Tree::Node(y, Box::new(tid), Box::new(c));
            proof {
                let pair = seq![id, y];
                assert(pair[0] == id && pair[1] == y);
                assert forall|z: NodeId| #[trigger] pair.contains(z) implies z == y || z == id by {}
                lemma_unchanged(n1, n4, pair, b);
                lemma_unchanged(n1, n4, pair, c);
                lemma_unchanged(n1, n4, pair, l);
                lemma_balanced_frame(n1, n4, b);
                lemma_balanced_frame(n1, n4, c);
                lemma_balanced_frame(n1, n4, l);
                lemma_held_parts(arena, y, tid, c);
                lemma_stored(n4, root_of(c), c);
                assert(balanced(n4, tid));
                assert(balanced(n4, t4));
                assert(relinked(n0, n4, all)) by {
                    lemma_relinked_trans(n0, n1, n4, all, pair, all);
                }
            }
            (top, Ghost(t4))
        }
    } else {
        assert(balanced(n1, t));
        (id, Ghost(t))
    }
}

/// Nodes outside the relinked ones are unchanged.
proof fn lemma_unchanged(n1: Seq<Node>, n2: Seq<Node>, touched: Seq<NodeId>, t: Tree)
    requires
        relinked(n1, n2, touched),
        forall|x: NodeId| #[trigger] ids(t).contains(x) ==> !touched.contains(x) && x.ix() < n1.len(),
    ensures
        forall|x: NodeId| #[trigger] ids(t).contains(x) ==> n2[x.ix()] == n1[x.ix()],
{
    assert forall|x: NodeId| #[trigger] ids(t).contains(x) implies n2[x.ix()] == n1[x.ix()] by {
        assert(NodeId { raw: x.ix() as u32 } == x);
    }
}

/// What is unchanged in a tree is unchanged in its parts.
proof fn lemma_sub_unchanged(n1: Seq<Node>, n2: Seq<Node>, t: Tree, part: Tree)
    requires
        forall|x: NodeId| #[trigger] ids(t).contains(x) ==> n2[x.ix()] == n1[x.ix()],
        forall|x: NodeId| #[trigger] ids(part).contains(x) ==> ids(t).contains(x),
    ensures
        forall|x: NodeId| #[trigger] ids(part).contains(x) ==> n2[x.ix()] == n1[x.ix()],
{
}

/// A leaf node that is about to join a search tree with a key not in it.
spec fn joinable(a: &NodeArena, t: Tree, node: NodeId, k: (u64, Seq<u8>)) -> bool {
    &&& a.live(node)
    &&& key_fits(a.nodes(), a.blob(), node)
    &&& a.nodes()[node.ix()].left == NodeId::none()
    &&& a.nodes()[node.ix()].right == NodeId::none()
    &&& a.nodes()[node.ix()].height == 1
    &&& entry_key(a.nodes(), a.blob(), node) == k
    &&& forall|id: NodeId| #[trigger]
        ids(t).contains(id) ==> id != node && entry_key(a.nodes(), a.blob(), id) != k
}

/// The order around a node whose one subtree gained an entry on the right side of it.
proof fn lemma_sorted_join(
    n0: Seq<Node>,
    n2: Seq<Node>,
    blob: Seq<u8>,
    id: NodeId,
    l: Tree,
    r: Tree,
    l2: Tree,
    r2: Tree,
    node: NodeId,
    touched: Seq<NodeId>,
)
    requires
        relinked(n0, n2, touched),
        id.ix() < n0.len(),
        node.ix() < n0.len(),
        forall|x: NodeId| #[trigger] ids(l).contains(x) ==> x.ix() < n0.len(),
        forall|x: NodeId| #[trigger] ids(r).contains(x) ==> x.ix() < n0.len(),
        sorted_ids(n0, blob, ids(Tree::Node(id, Box::new(l), Box::new(r)))),
        sorted_ids(n2, blob, ids(l2)),
        sorted_ids(n2, blob, ids(r2)),
        forall|x: NodeId| #[trigger] ids(l2).contains(x) ==> ids(l).contains(x) || (x == node && key_less(
            entry_key(n0, blob, node),
            entry_key(n0, blob, id),
        )),
        forall|x: NodeId| #[trigger] ids(r2).contains(x) ==> ids(r).contains(x) || (x == node && key_less(
            entry_key(n0, blob, id),
            entry_key(n0, blob, node),
        )),
    ensures
        sorted_ids(n2, blob, ids(Tree::Node(id, Box::new(l2), Box::new(r2)))),
{
    let kid = entry_key(n0, blob, id);
    lemma_relinked_keys(n0, n2, touched, blob);
    lemma_ids_node(id, l, r);
    lemma_ids_node(id, l2, r2);
    lemma_sorted_node(n0, blob, ids(l), id, ids(r));
    lemma_sorted_node(n2, blob, ids(l2), id, ids(r2));
    assert(entry_key(n2, blob, id) == kid);
    assert forall|i: int| 0 <= i < ids(l2).len() implies key_less(entry_key(n2, blob, #[trigger] ids(l2)[i]), kid) by {
        let x = ids(l2)[i];
        assert(ids(l2).contains(x));
        assert(entry_key(n2, blob, x) == entry_key(n0, blob, x));
        if ids(l).contains(x) {
            let j = choose|j: int| 0 <= j < ids(l).len() && ids(l)[j] == x;
            assert(key_less(entry_key(n0, blob, ids(l)[j]), kid));
        }
    }
    assert forall|i: int| 0 <= i < ids(r2).len() implies key_less(kid, entry_key(n2, blob, #[trigger] ids(r2)[i])) by {
        let x = ids(r2)[i];
        assert(ids(r2).contains(x));
        assert(entry_key(n2, blob, x) == entry_key(n0, blob, x));
        if ids(r).contains(x) {
            let j = choose|j: int| 0 <= j < ids(r).len() && ids(r)[j] == x;
            assert(key_less(kid, entry_key(n0, blob, ids(r)[j])));
        }
    }
}

/// The tree with `node`, whose key is `k`, hung as a leaf where the search for `k` ends.
pub open spec fn leaf_added(nodes: Seq<Node>, blob: Seq<u8>, t: Tree, node: NodeId, k: (u64, Seq<u8>)) -> Tree
    decreases t,
{
    match t {
        Tree::Leaf => Tree::Node(node, Box::new(Tree::Leaf), Box::new(Tree::Leaf)),
        Tree::Node(id, l, r) => if key_less(k, entry_key(nodes, blob, id)) {
            Tree::Node(id, Box::new(leaf_added(nodes, blob, *l, node, k)), r)
        } else {
            Tree::Node(id, l, Box::new(leaf_added(nodes, blob, *r, node, k)))
        },
    }
}

/// The tree with `node`, whose key is `k`, hung as a leaf where the search for `k` ends, and evened out
/// at every node on the way back up.
pub open spec fn leaf_balanced(nodes: Seq<Node>, blob: Seq<u8>, t: Tree, node: NodeId, k: (u64, Seq<u8>)) -> Tree
    decreases t,
{
    match t {
        Tree::Leaf => Tree::Node(node, Box::new(Tree::Leaf), Box::new(Tree::Leaf)),
        Tree::Node(id, l, r) => if key_less(k, entry_key(nodes, blob, id)) {
            evened(Tree::Node(id, Box::new(leaf_balanced(nodes, blob, *l, node, k)), r))
        } else {
            evened(Tree::Node(id, l, Box::new(leaf_balanced(nodes, blob, *r, node, k))))
        },
    }
}

/// Links a leaf into a search tree, rebalancing on the way back up where asked to. Returns the new
/// root.
#[verifier::rlimit(100)]
fn bst_insert(
    arena: &mut NodeArena,
    root: NodeId,
    node: NodeId,
    hash: u64,
    key: &[u8],
    balance: bool,
    Ghost(t): Ghost<Tree>,
) -> (res: (NodeId, Ghost<Tree>))
    requires
        held(old(arena), root, t),
        sorted_ids(old(arena).nodes(), old(arena).blob(), ids(t)),
        joinable(old(arena), t, node, (hash, key@)),
        balance ==> balanced(old(arena).nodes(), t) && tree_height(t) <= 100,
    ensures
        held(final(arena), res.0, res.1@),
        sorted_ids(final(arena).nodes(), final(arena).blob(), ids(res.1@)),
        forall|id: NodeId| #[trigger] ids(res.1@).contains(id) <==> ids(t).contains(id) || id == node,
        same_store(old(arena), final(arena)),
        relinked(old(arena).nodes(), final(arena).nodes(), ids(t).push(node)),
        balance ==> balanced(final(arena).nodes(), res.1@) && tree_height(t) <= tree_height(res.1@)
            <= tree_height(t) + 1,
        balance ==> res.1@ == leaf_balanced(old(arena).nodes(), old(arena).blob(), t, node, (hash, key@)),
        !balance ==> res.1@ == leaf_added(old(arena).nodes(), old(arena).blob(), t, node, (hash, key@)),
        !balance ==> res.0 == (if root == NodeId::none() {
            node
        } else {
            root
        }),
    decreases t,
{
    let ghost a0 = *arena;
    let ghost n0 = arena.nodes();
    let ghost blob = arena.blob();
    let ghost k = (hash, key@);
    proof {
        a0.lemma_wf();
        lemma_linked_root(n0, root, t);
    }
    if root.is_none() {
        let ghost t2 = Tree::Node(node, Box::new(Tree::Leaf), Box::new(Tree::Leaf));
        proof {
            lemma_ids_node(node, Tree::Leaf, Tree::Leaf);
            lemma_distinct_node(node, Tree::Leaf, Tree::Leaf);
            assert(linked(n0, NodeId::none(), Tree::Leaf));
            assert(linked(n0, node, t2));
            assert(balanced(n0, Tree::Leaf));
            assert(balanced(n0, t2));
            assert(ids(t2).len() == 1);
        }
        return (node, Ghost(t2));
    }
    let ghost (l, r) = match t {
        Tree::Leaf => (Tree::Leaf, Tree::Leaf),
        Tree::Node(i, l, r) => (*l, *r),
    };
    proof {
        assert(t == Tree::Node(root, Box::new(l), Box::new(r)));
        lemma_held_parts(&a0, root, l, r);
        lemma_ids_node(root, l, r);
        lemma_ids_in_range(n0, root, t);
        lemma_descend(n0, blob, root, l, r, k);
        lemma_push_contains(ids(l), node);
        lemma_push_contains(ids(r), node);
        lemma_push_contains(ids(t), node);
        assert(ids(t).contains(root));
        assert forall|x: NodeId| #[trigger] ids(l).contains(x) implies ids(t).contains(x) by {}
        assert forall|x: NodeId| #[trigger] ids(r).contains(x) implies ids(t).contains(x) by {}
    }
    let side = probe(arena, root, hash, key);
    if side == Side::Less {
        let left = arena.get(root).left;
        let (child, Ghost(sub)) = bst_insert(arena, left, node, hash, key, balance, Ghost(l));
        let ghost a1 = *arena;
        set_left(arena, root, child);
        let ghost a2 = *arena;
        let ghost n2 = arena.nodes();
        let ghost t2 = Tree::Node(root, Box::new(sub), Box::new(r));
        let ghost touched = ids(l).push(node);
        proof {
            assert forall|x: NodeId| #[trigger] ids(r).contains(x) implies !touched.contains(x)
                && !ids(sub).contains(x) by {
                assert(ids(t).contains(x));
            }
            lemma_replace_left(&a0, &a1, &a2, root, l, r, child, sub, touched);
            lemma_push_contains(touched, root);
            lemma_sub_sorted(&a1, &a2, root, blob, sub);
            lemma_relinked_keys(n0, n2, touched.push(root), blob);
            assert(sorted_ids(n2, blob, ids(r))) by {
                assert forall|i: int| 0 <= i < ids(r).len() implies (#[trigger] ids(r)[i]).ix() < n0.len() by {
                    assert(ids(r).contains(ids(r)[i]));
                }
            }
            lemma_sorted_join(n0, n2, blob, root, l, r, sub, r, node, touched.push(root));
            lemma_ids_node(root, sub, r);
            assert(relinked(n0, n2, ids(t).push(node))) by {
                lemma_wider(n0, n2, touched.push(root), ids(t).push(node));
            }
        }
        if balance {
            proof {
                lemma_balanced_parts(n0, root, l, r);
                lemma_balanced_frame(a1.nodes(), n2, sub);
                lemma_balanced_frame(n0, n2, r);
            }
            let (top, Ghost(t3)) = rebalance(arena, root, Ghost(sub), Ghost(r));
            proof {
                let n3 = arena.nodes();
                lemma_relinked_keys(n2, n3, ids(t2), blob);
                lemma_ids_in_range(n2, root, t2);
                assert forall|i: int| 0 <= i < ids(t2).len() implies (#[trigger] ids(t2)[i]).ix() < n2.len() by {
                    assert(ids(t2).contains(ids(t2)[i]));
                }
                lemma_relinked_trans(n0, n2, n3, ids(t).push(node), ids(t2), ids(t).push(node));
            }
            (top, Ghost(t3))
        } else {
            (root, Ghost(t2))
        }
    } else {
        let right = arena.get(root).right;
        let (child, Ghost(sub)) = bst_insert(arena, right, node, hash, key, balance, Ghost(r));
        let ghost a1 = *arena;
        set_right(arena, root, child);
        let ghost a2 = *arena;
        let ghost n2 = arena.nodes();
        let ghost t2 = Tree::Node(root, Box::new(l), Box::new(sub));
        let ghost touched = ids(r).push(node);
        proof {
            assert forall|x: NodeId| #[trigger] ids(l).contains(x) implies !touched.contains(x)
                && !ids(sub).contains(x) by {
                assert(ids(t).contains(x));
            }
            lemma_replace_right(&a0, &a1, &a2, root, l, r, child, sub, touched);
            lemma_push_contains(touched, root);
            lemma_sub_sorted(&a1, &a2, root, blob, sub);
            lemma_relinked_keys(n0, n2, touched.push(root), blob);
            assert(sorted_ids(n2, blob, ids(l))) by {
                assert forall|i: int| 0 <= i < ids(l).len() implies (#[trigger] ids(l)[i]).ix() < n0.len() by {
                    assert(ids(l).contains(ids(l)[i]));
                }
            }
            lemma_key_order(k, entry_key(n0, blob, root), k);
            lemma_sorted_join(n0, n2, blob, root, l, r, l, sub, node, touched.push(root));
            lemma_ids_node(root, l, sub);
            assert(relinked(n0, n2, ids(t).push(node))) by {
                lemma_wider(n0, n2, touched.push(root), ids(t).push(node));
            }
        }
        if balance {
            proof {
                lemma_balanced_parts(n0, root, l, r);
                lemma_balanced_frame(a1.nodes(), n2, sub);
                lemma_balanced_frame(n0, n2, l);
            }
            let (top, Ghost(t3)) = rebalance(arena, root, Ghost(l), Ghost(sub));
            proof {
                let n3 = arena.nodes();
                lemma_relinked_keys(n2, n3, ids(t2), blob);
                lemma_ids_in_range(n2, root, t2);
                assert forall|i: int| 0 <= i < ids(t2).len() implies (#[trigger] ids(t2)[i]).ix() < n2.len() by {
                    assert(ids(t2).contains(ids(t2)[i]));
                }
                lemma_relinked_trans(n0, n2, n3, ids(t).push(node), ids(t2), ids(t).push(node));
            }
            (top, Ghost(t3))
        } else {
            (root, Ghost(t2))
        }
    }
}

/// Relinking within a longer list.
proof fn lemma_wider(n1: Seq<Node>, n2: Seq<Node>, a: Seq<NodeId>, b: Seq<NodeId>)
    requires
        relinked(n1, n2, a),
        forall|x: NodeId| #[trigger] a.contains(x) ==> b.contains(x),
    ensures
        relinked(n1, n2, b),
{
    assert forall|j: int| 0 <= j < n1.len() && !b.contains(NodeId { raw: j as u32 }) implies #[trigger] n2[j]
        == n1[j] by {
        assert(!a.contains(NodeId { raw: j as u32 }));
    }
}

/// A subtree stays sorted when only its parent is relinked.
proof fn lemma_sub_sorted(a1: &NodeArena, a2: &NodeArena, id: NodeId, blob: Seq<u8>, sub: Tree)
    requires
        sorted_ids(a1.nodes(), blob, ids(sub)),
        relinked(a1.nodes(), a2.nodes(), seq![id]),
        forall|x: NodeId| #[trigger] ids(sub).contains(x) ==> a1.live(x),
    ensures
        sorted_ids(a2.nodes(), blob, ids(sub)),
{
    lemma_relinked_keys(a1.nodes(), a2.nodes(), seq![id], blob);
    assert forall|i: int| 0 <= i < ids(sub).len() implies (#[trigger] ids(sub)[i]).ix() < a1.nodes().len() by {
        assert(ids(sub).contains(ids(sub)[i]));
    }
}

/// Powers of a larger base are larger.
proof fn lemma_pow_base(x: int, y: int, e: nat)
    requires
        0 <= x <= y,
    ensures
        0 <= pow(x, e) <= pow(y, e),
    decreases e,
{
    reveal(pow);
    if e > 0 {
        lemma_pow_base(x, y, (e - 1) as nat);
        let a = pow(x, (e - 1) as nat);
        let b = pow(y, (e - 1) as nat);
        assert(0 <= x * a <= y * b) by (nonlinear_arith)
            requires
                0 <= x <= y,
                0 <= a <= b,
        ;
    }
}

/// Five levels more make a balanced tree at least eleven times as large.
proof fn lemma_min_nodes_five(h: int)
    requires
        h == 0 || h >= 2,
    ensures
        min_nodes(h + 5) + 1 >= 11 * (min_nodes(h) + 1),
{
    reveal_with_fuel(min_nodes, 9);
    if h >= 4 {
        lemma_min_nodes_monotone(h - 4, h - 3);
        assert(min_nodes(h - 2) == 1 + min_nodes(h - 3) + min_nodes(h - 4));
        assert(min_nodes(h - 1) == 1 + min_nodes(h - 2) + min_nodes(h - 3));
        assert(min_nodes(h) == 1 + min_nodes(h - 1) + min_nodes(h - 2));
        assert(min_nodes(h + 1) == 1 + min_nodes(h) + min_nodes(h - 1));
        assert(min_nodes(h + 2) == 1 + min_nodes(h + 1) + min_nodes(h));
        assert(min_nodes(h + 3) == 1 + min_nodes(h + 2) + min_nodes(h + 1));
        assert(min_nodes(h + 4) == 1 + min_nodes(h + 3) + min_nodes(h + 2));
        assert(min_nodes(h + 5) == 1 + min_nodes(h + 4) + min_nodes(h + 3));
    }
}

/// What the bound on heights needs of small powers.
proof fn lemma_small_powers()
    ensures
        pow(2, 124) <= pow(11, 36),
        pow(2, 25) <= pow(2, 36),
        pow(2, 50) <= pow(3, 36),
        pow(2, 75) <= pow(5, 36),
        pow(2, 100) <= pow(8, 36),
        pow(2, 149) <= pow(21, 36),
{
    assert(pow(21, 9) == 794280046581 && pow(2, 39) == 549755813888) by {
        reveal_with_fuel(pow, 41);
    }
    lemma_pow_multiplies(21, 9, 4);
    lemma_pow_multiplies(2, 39, 4);
    lemma_pow_base(pow(2, 39), pow(21, 9), 4);
    lemma_pow_increases(2, 149, 156);
    assert(pow(11, 9) == 2357947691 && pow(2, 31) == 2147483648) by {
        reveal_with_fuel(pow, 33);
    }
    lemma_pow_multiplies(11, 9, 4);
    lemma_pow_multiplies(2, 31, 4);
    lemma_pow_base(pow(2, 31), pow(11, 9), 4);
    assert(pow(3, 12) == 531441 && pow(2, 19) == 524288 && pow(5, 12) == 244140625 && pow(2, 27) == 134217728 && pow(2, 3) == 8) by {
        reveal_with_fuel(pow, 29);
    }
    lemma_pow_multiplies(3, 12, 3);
    lemma_pow_multiplies(2, 19, 3);
    lemma_pow_base(pow(2, 19), pow(3, 12), 3);
    lemma_pow_increases(2, 50, 57);
    lemma_pow_multiplies(5, 12, 3);
    lemma_pow_multiplies(2, 27, 3);
    lemma_pow_base(pow(2, 27), pow(5, 12), 3);
    lemma_pow_increases(2, 75, 81);
    lemma_pow_multiplies(2, 3, 36);
    lemma_pow_increases(2, 100, 108);
    lemma_pow_increases(2, 25, 36);
}

/// The size of a balanced tree of height `h`, one more than that, grows with the height by a little
/// less than `2^(25/36)` for each level.
pub proof fn lemma_min_nodes_exponential(h: nat)
    ensures
        pow(2, (25 * h - h / 5) as nat) <= pow(min_nodes(h as int) + 1, 36),
    decreases h,
{
    lemma_small_powers();
    reveal_with_fuel(min_nodes, 8);
    if h == 0 {
        lemma_pow0(2);
        lemma_pow_base(1, 1, 36);
        lemma_pow_positive(1, 36);
    } else if h < 5 {
        assert(min_nodes(1) == 1 && min_nodes(2) == 2 && min_nodes(3) == 4 && min_nodes(4) == 7);
    } else if h == 6 {
        assert(min_nodes(6) == 20);
    } else {
        let g = (h - 5) as nat;
        lemma_min_nodes_exponential(g);
        lemma_min_nodes_five(g as int);
        lemma_min_nodes_monotone(g as int, g as int);
        let x = min_nodes(g as int) + 1;
        lemma_pow_base(11 * x, min_nodes(h as int) + 1, 36);
        lemma_pow_distributes(11, x, 36);
        let e = (25 * g - g / 5) as nat;
        lemma_pow_adds(2, 124, e);
        lemma_pow_positive(2, 124);
        lemma_pow_positive(2, e);
        assert(pow(2, 124) * pow(2, e) <= pow(11, 36) * pow(x, 36)) by (nonlinear_arith)
            requires
                0 < pow(2, 124) <= pow(11, 36),
                0 < pow(2, e) <= pow(x, 36),
        ;
        assert(25 * h - h / 5 == 124 + (25 * g - g / 5));
    }
}

/// The height of a balanced tree is at most `1.44 * log2(n + 2) + 1` for `n` entries, here without
/// fractions and logarithms: `2^(25 * (h - 1)) <= (n + 2)^36`.
pub proof fn lemma_balanced_height_bound(h: nat, n: nat)
    requires
        min_nodes(h as int) <= n <= u32::MAX,
    ensures
        h >= 1 ==> pow(2, (25 * (h - 1)) as nat) <= pow(n as int + 2, 36),
{
    lemma_min_nodes_monotone(h as int, h as int);
    lemma_min_nodes_exponential(h);
    lemma_pow_base(min_nodes(h as int) + 1, n as int + 2, 36);
    if h > 125 {
        lemma_pow_base(n as int + 1, 0x1_0000_0000, 36);
        lemma_pow_base(min_nodes(h as int) + 1, n as int + 1, 36);
        assert(pow(2, 32) == 0x1_0000_0000) by {
            reveal_with_fuel(pow, 33);
        }
        lemma_pow_multiplies(2, 32, 36);
        lemma_pow_strictly_increases(2, 1152, (25 * h - h / 5) as nat);
    } else if h >= 1 {
        lemma_pow_increases(2, (25 * (h - 1)) as nat, (25 * h - h / 5) as nat);
    }
}

/// Twice the base for every step.
spec fn doubling(k: int) -> int
    decreases k,
{
    if k <= 0 {
        1
    } else {
        2 * doubling(k - 1)
    }
}

proof fn lemma_min_nodes_doubles(k: int)
    requires
        k >= 0,
    ensures
        min_nodes(2 * k) >= doubling(k) - 1,
    decreases k,
{
    if k > 0 {
        lemma_min_nodes_doubles(k - 1);
        lemma_min_nodes_monotone(2 * k, 2 * k);
    }
}

/// Distinct handles into a pool of `n` slots number at most `n`.
pub proof fn lemma_distinct_ids_bounded(s: Seq<NodeId>, n: int)
    requires
        s.no_duplicates(),
        n >= 0,
        forall|i: int| 0 <= i < s.len() ==> (#[trigger] s[i]).ix() < n,
    ensures
        s.len() <= n,
{
    let idx = Seq::new(s.len(), |i: int| s[i].ix());
    assert(idx.no_duplicates()) by {
        assert forall|i: int, j: int| 0 <= i < idx.len() && 0 <= j < idx.len() && i != j implies idx[i] != idx[j] by {
            assert(s[i] != s[j]);
        }
    }
    idx.unique_seq_to_set();
    let range = vstd::set_lib::set_int_range(0, n);
    vstd::set_lib::lemma_int_range(0, n);
    assert(idx.to_set().subset_of(range)) by {
        assert forall|x: int| idx.to_set().contains(x) implies range.contains(x) by {
            let i = choose|i: int| 0 <= i < idx.len() && idx[i] == x;
            assert(s[i].ix() < n);
        }
    }
    vstd::set_lib::lemma_len_subset(idx.to_set(), range);
}

/// A balanced tree of arena nodes is far lower than its stored heights can record.
proof fn lemma_height_bound(a: &NodeArena, root: NodeId, t: Tree)
    requires
        held(a, root, t),
        balanced(a.nodes(), t),
    ensures
        tree_height(t) <= 100,
{
    a.lemma_wf();
    lemma_balanced_height_is_logarithmic(a.nodes(), t);
    assert forall|i: int| 0 <= i < ids(t).len() implies (#[trigger] ids(t)[i]).ix() < a.nodes().len() by {
        assert(ids(t).contains(ids(t)[i]));
    }
    lemma_distinct_ids_bounded(ids(t), a.nodes().len() as int);
    if tree_height(t) > 100 {
        lemma_min_nodes_monotone(66, tree_height(t));
        lemma_min_nodes_doubles(33);
        assert(doubling(33) == 0x2_0000_0000) by {
            reveal_with_fuel(doubling, 35);
        }
    }
}

/// A plain binary search tree with no rebalancing.
#[derive(Debug, Clone, Copy)]
pub struct Unbalanced;

/// A height-balanced binary search tree.
#[derive(Debug, Clone, Copy)]
pub struct Avl;

/// Keys that stay put stay in order.
proof fn lemma_sorted_frame(n1: Seq<Node>, b1: Seq<u8>, n2: Seq<Node>, b2: Seq<u8>, t: Tree)
    requires
        sorted_ids(n1, b1, ids(t)),
        forall|id: NodeId| #[trigger] ids(t).contains(id) ==> same_place(n1, b1, n2, b2, id),
    ensures
        sorted_ids(n2, b2, ids(t)),
{
    assert forall|i: int| 0 <= i < ids(t).len() implies entry_key(n2, b2, #[trigger] ids(t)[i]) == entry_key(
        n1,
        b1,
        ids(t)[i],
    ) by {
        assert(ids(t).contains(ids(t)[i]));
    }
}

impl BucketPolicy for Unbalanced {
    open spec fn spec_name() -> Seq<char> {
        "unbalanced"@
    }

    open spec fn shape(nodes: Seq<Node>, blob: Seq<u8>, t: Tree) -> bool {
        sorted_ids(nodes, blob, ids(t))
    }

    proof fn lemma_shape_empty(nodes: Seq<Node>, blob: Seq<u8>) {
    }

    proof fn lemma_shape_frame(n1: Seq<Node>, b1: Seq<u8>, n2: Seq<Node>, b2: Seq<u8>, t: Tree) {
        lemma_sorted_frame(n1, b1, n2, b2, t);
    }

    open spec fn height_fits(h: int, n: int) -> bool {
        h <= n
    }

    proof fn lemma_shape_height(nodes: Seq<Node>, blob: Seq<u8>, t: Tree) {
        lemma_height_of(t);
    }

    proof fn lemma_heights_joined(h1: int, n1: int, h2: int, n2: int) {
    }

    fn name() -> (s: &'static str) {
        "unbalanced"
    }

    /// A lookup moves nothing.
    fn lookup(arena: &mut NodeArena, root: &mut NodeId, hash: u64, key: &[u8]) -> (r: NodeId)
        ensures
            *final(arena) == *old(arena),
            *final(root) == *old(root),
    {
        descend(arena, *root, hash, key)
    }

    /// The new entry becomes a leaf: the root changes only where there was none.
    fn insert(arena: &mut NodeArena, root: &mut NodeId, node: NodeId, hash: u64, key: &[u8])
        ensures
            *final(root) == (if *old(root) == NodeId::none() {
                node
            } else {
                *old(root)
            }),
            tree_of(final(arena).nodes(), *final(root)) == leaf_added(
                old(arena).nodes(),
                old(arena).blob(),
                tree_of(old(arena).nodes(), *old(root)),
                node,
                (hash, key@),
            ),
    {
        let ghost t = tree_of(arena.nodes(), *root);
        let ghost a0 = *arena;
        let (top, Ghost(t2)) = bst_insert(arena, *root, node, hash, key, false, Ghost(t));
        proof {
            lemma_joined(&a0, arena, *root, t, top, t2, node, (hash, key@));
        }
        *root = top;
    }
}

impl BucketPolicy for Avl {
    open spec fn spec_name() -> Seq<char> {
        "avl"@
    }

    open spec fn shape(nodes: Seq<Node>, blob: Seq<u8>, t: Tree) -> bool {
        sorted_ids(nodes, blob, ids(t)) && balanced(nodes, t)
    }

    proof fn lemma_shape_empty(nodes: Seq<Node>, blob: Seq<u8>) {
    }

    proof fn lemma_shape_frame(n1: Seq<Node>, b1: Seq<u8>, n2: Seq<Node>, b2: Seq<u8>, t: Tree) {
        lemma_sorted_frame(n1, b1, n2, b2, t);
        lemma_balanced_frame(n1, n2, t);
    }

    open spec fn height_fits(h: int, n: int) -> bool {
        min_nodes(h) <= n
    }

    proof fn lemma_shape_height(nodes: Seq<Node>, blob: Seq<u8>, t: Tree) {
        lemma_balanced_height_is_logarithmic(nodes, t);
    }

    proof fn lemma_heights_joined(h1: int, n1: int, h2: int, n2: int) {
    }

    fn name() -> (s: &'static str) {
        "avl"
    }

    /// A lookup moves nothing.
    fn lookup(arena: &mut NodeArena, root: &mut NodeId, hash: u64, key: &[u8]) -> (r: NodeId)
        ensures
            *final(arena) == *old(arena),
            *final(root) == *old(root),
    {
        // Lookup does not restructure, so it is the same descent as the unbalanced tree.
        descend(arena, *root, hash, key)
    }

    /// The new entry becomes a leaf, and the nodes above it are evened out.
    fn insert(arena: &mut NodeArena, root: &mut NodeId, node: NodeId, hash: u64, key: &[u8])
        ensures
            tree_of(final(arena).nodes(), *final(root)) == leaf_balanced(
                old(arena).nodes(),
                old(arena).blob(),
                tree_of(old(arena).nodes(), *old(root)),
                node,
                (hash, key@),
            ),
    {
        let ghost t = tree_of(arena.nodes(), *root);
        let ghost a0 = *arena;
        proof {
            lemma_height_bound(arena, *root, t);
        }
        let (top, Ghost(t2)) = bst_insert(arena, *root, node, hash, key, true, Ghost(t));
        proof {
            lemma_joined(&a0, arena, *root, t, top, t2, node, (hash, key@));
        }
        *root = top;
    }
}

/// A parent stays as it is while its left subtree is relinked under the same root.
proof fn lemma_keep_left(
    a0: &NodeArena,
    a2: &NodeArena,
    id: NodeId,
    l: Tree,
    r: Tree,
    child: NodeId,
    sub: Tree,
    touched: Seq<NodeId>,
)
    requires
        held(a0, id, Tree::Node(id, Box::new(l), Box::new(r))),
        a0.nodes()[id.ix()].left == child,
        held(a2, child, sub),
        same_store(a0, a2),
        relinked(a0.nodes(), a2.nodes(), touched),
        !touched.contains(id),
        forall|x: NodeId| #[trigger] ids(r).contains(x) ==> !touched.contains(x) && !ids(sub).contains(x),
        !ids(sub).contains(id),
    ensures
        held(a2, id, Tree::Node(id, Box::new(sub), Box::new(r))),
{
    lemma_held_parts(a0, id, l, r);
    a0.lemma_wf();
    assert(NodeId { raw: id.ix() as u32 } == id);
    assert(a2.nodes()[id.ix()] == a0.nodes()[id.ix()]);
    assert(a2.nodes() =~= a2.nodes().update(
        id.ix(),
        (Node { left: child, ..a2.nodes()[id.ix()] }),
    ));
    lemma_replace_left(a0, a2, a2, id, l, r, child, sub, touched);
}

/// A parent stays as it is while its right subtree is relinked under the same root.
proof fn lemma_keep_right(
    a0: &NodeArena,
    a2: &NodeArena,
    id: NodeId,
    l: Tree,
    r: Tree,
    child: NodeId,
    sub: Tree,
    touched: Seq<NodeId>,
)
    requires
        held(a0, id, Tree::Node(id, Box::new(l), Box::new(r))),
        a0.nodes()[id.ix()].right == child,
        held(a2, child, sub),
        same_store(a0, a2),
        relinked(a0.nodes(), a2.nodes(), touched),
        !touched.contains(id),
        forall|x: NodeId| #[trigger] ids(l).contains(x) ==> !touched.contains(x) && !ids(sub).contains(x),
        !ids(sub).contains(id),
    ensures
        held(a2, id, Tree::Node(id, Box::new(l), Box::new(sub))),
{
    lemma_held_parts(a0, id, l, r);
    a0.lemma_wf();
    assert(NodeId { raw: id.ix() as u32 } == id);
    assert(a2.nodes()[id.ix()] == a0.nodes()[id.ix()]);
    assert(a2.nodes() =~= a2.nodes().update(
        id.ix(),
        (Node { right: child, ..a2.nodes()[id.ix()] }),
    ));
    lemma_replace_right(a0, a2, a2, id, l, r, child, sub, touched);
}

/// The root of the tree splits the entries at `k`: it has the key, or everything on its far side of
/// `k` lies beyond it.
pub open spec fn split_at(nodes: Seq<Node>, blob: Seq<u8>, t: Tree, k: (u64, Seq<u8>)) -> bool {
    match t {
        Tree::Leaf => true,
        Tree::Node(id, l, r) => {
            ||| entry_key(nodes, blob, id) == k
            ||| key_less(k, entry_key(nodes, blob, id)) && all_less(nodes, blob, ids(*l), k)
            ||| key_less(entry_key(nodes, blob, id), k) && all_greater(nodes, blob, ids(*r), k)
        },
    }
}

/// Bounds on a tree are bounds on its parts.
proof fn lemma_bounds_tree(nodes: Seq<Node>, blob: Seq<u8>, id: NodeId, l: Tree, r: Tree, k: (u64, Seq<u8>))
    ensures
        all_less(nodes, blob, ids(Tree::Node(id, Box::new(l), Box::new(r))), k) <==> all_less(
            nodes,
            blob,
            ids(l),
            k,
        ) && all_less(nodes, blob, ids(r), k) && key_less(entry_key(nodes, blob, id), k),
        all_greater(nodes, blob, ids(Tree::Node(id, Box::new(l), Box::new(r))), k) <==> all_greater(
            nodes,
            blob,
            ids(l),
            k,
        ) && all_greater(nodes, blob, ids(r), k) && key_less(k, entry_key(nodes, blob, id)),
{
    lemma_ids_node(id, l, r);
    lemma_bounds_concat(nodes, blob, ids(l) + seq![id], ids(r), k);
    lemma_bounds_concat(nodes, blob, ids(l), seq![id], k);
    assert(seq![id][0] == id);
    assert(all_less(nodes, blob, seq![id], k) <==> key_less(entry_key(nodes, blob, id), k)) by {
        if all_less(nodes, blob, seq![id], k) {
            assert(key_less(entry_key(nodes, blob, seq![id][0]), k));
        }
    }
    assert(all_greater(nodes, blob, seq![id], k) <==> key_less(k, entry_key(nodes, blob, id))) by {
        if all_greater(nodes, blob, seq![id], k) {
            assert(key_less(k, entry_key(nodes, blob, seq![id][0])));
        }
    }
}

/// The last node on the search path for `k`: the entry with that key, or the one below which it
/// would be hung.
pub open spec fn last_on_path(nodes: Seq<Node>, blob: Seq<u8>, t: Tree, k: (u64, Seq<u8>)) -> NodeId
    decreases t,
{
    match t {
        Tree::Leaf => NodeId::none(),
        Tree::Node(id, l, r) => if key_less(k, entry_key(nodes, blob, id)) {
            if *l == Tree::Leaf {
                id
            } else {
                last_on_path(nodes, blob, *l, k)
            }
        } else if key_less(entry_key(nodes, blob, id), k) {
            if *r == Tree::Leaf {
                id
            } else {
                last_on_path(nodes, blob, *r, k)
            }
        } else {
            id
        },
    }
}

/// One step along the search path.
proof fn lemma_path_step(nodes: Seq<Node>, blob: Seq<u8>, id: NodeId, l: Tree, r: Tree, k: (u64, Seq<u8>))
    ensures
        ({
            let t = Tree::Node(id, Box::new(l), Box::new(r));
            let e = entry_key(nodes, blob, id);
            &&& key_less(k, e) ==> last_on_path(nodes, blob, t, k) == if l == Tree::Leaf {
                id
            } else {
                last_on_path(nodes, blob, l, k)
            }
            &&& key_less(e, k) ==> last_on_path(nodes, blob, t, k) == if r == Tree::Leaf {
                id
            } else {
                last_on_path(nodes, blob, r, k)
            }
            &&& e == k ==> last_on_path(nodes, blob, t, k) == id
        }),
{
    let e = entry_key(nodes, blob, id);
    lemma_key_order(k, e, k);
    lemma_key_order(e, k, e);
    lemma_key_order(k, k, k);
}

/// The tree splayed at a key, two levels at a time. Where the key lies twice on the same side, the
/// grandchild is splayed and the root turned before it is turned again; where it lies on one side and
/// then on the other, the grandchild is splayed and the child turned the other way first.
pub open spec fn splay_tree(nodes: Seq<Node>, blob: Seq<u8>, t: Tree, k: (u64, Seq<u8>)) -> Tree
    decreases t,
{
    match t {
        Tree::Leaf => t,
        Tree::Node(x, l, r) => if key_less(k, entry_key(nodes, blob, x)) {
            match *l {
                Tree::Leaf => t,
                Tree::Node(y, a, b) => {
                    let e = entry_key(nodes, blob, y);
                    rotated_right(
                        if key_less(k, e) {
                            let l2 = Tree::Node(y, Box::new(splay_tree(nodes, blob, *a, k)), b);
                            rotated_right(Tree::Node(x, Box::new(l2), r))
                        } else if key_less(e, k) {
                            let l2 = Tree::Node(y, a, Box::new(splay_tree(nodes, blob, *b, k)));
                            Tree::Node(x, Box::new(rotated_left(l2)), r)
                        } else {
                            t
                        },
                    )
                },
            }
        } else if key_less(entry_key(nodes, blob, x), k) {
            match *r {
                Tree::Leaf => t,
                Tree::Node(y, a, b) => {
                    let e = entry_key(nodes, blob, y);
                    rotated_left(
                        if key_less(e, k) {
                            let r2 = Tree::Node(y, a, Box::new(splay_tree(nodes, blob, *b, k)));
                            rotated_left(Tree::Node(x, l, Box::new(r2)))
                        } else if key_less(k, e) {
                            let r2 = Tree::Node(y, Box::new(splay_tree(nodes, blob, *a, k)), b);
                            Tree::Node(x, l, Box::new(rotated_right(r2)))
                        } else {
                            t
                        },
                    )
                },
            }
        } else {
            t
        },
    }
}

/// The tree with a new entry at its root: it is splayed at the key and its halves hang off the entry.
pub open spec fn splay_insert(nodes: Seq<Node>, blob: Seq<u8>, t: Tree, node: NodeId, k: (u64, Seq<u8>)) -> Tree {
    match splay_tree(nodes, blob, t, k) {
        Tree::Leaf => Tree::Node(node, Box::new(Tree::Leaf), Box::new(Tree::Leaf)),
        Tree::Node(top, l, r) => if key_less(entry_key(nodes, blob, top), k) {
            Tree::Node(node, Box::new(Tree::Node(top, l, Box::new(Tree::Leaf))), r)
        } else {
            Tree::Node(node, l, Box::new(Tree::Node(top, Box::new(Tree::Leaf), r)))
        },
    }
}

/// Splaying where the key comes before the root `x`, whose left child is `y`.
proof fn lemma_splay_left(
    nodes: Seq<Node>,
    blob: Seq<u8>,
    x: NodeId,
    y: NodeId,
    a: Tree,
    b: Tree,
    r: Tree,
    k: (u64, Seq<u8>),
)
    requires
        key_less(k, entry_key(nodes, blob, x)),
    ensures
        ({
            let t = Tree::Node(x, Box::new(Tree::Node(y, Box::new(a), Box::new(b))), Box::new(r));
            let e = entry_key(nodes, blob, y);
            let l1 = Tree::Node(y, Box::new(splay_tree(nodes, blob, a, k)), Box::new(b));
            let l2 = Tree::Node(y, Box::new(a), Box::new(splay_tree(nodes, blob, b, k)));
            &&& key_less(k, e) ==> splay_tree(nodes, blob, t, k) == rotated_right(
                rotated_right(Tree::Node(x, Box::new(l1), Box::new(r))),
            )
            &&& key_less(e, k) ==> splay_tree(nodes, blob, t, k) == rotated_right(
                Tree::Node(x, Box::new(rotated_left(l2)), Box::new(r)),
            )
            &&& e == k ==> splay_tree(nodes, blob, t, k) == rotated_right(t)
        }),
{
    let e = entry_key(nodes, blob, y);
    lemma_key_order(k, e, k);
    lemma_key_order(e, k, e);
    lemma_key_order(k, k, k);
}

/// Splaying where the key comes after the root `x`, whose right child is `y`.
proof fn lemma_splay_right(
    nodes: Seq<Node>,
    blob: Seq<u8>,
    x: NodeId,
    y: NodeId,
    l: Tree,
    a: Tree,
    b: Tree,
    k: (u64, Seq<u8>),
)
    requires
        key_less(entry_key(nodes, blob, x), k),
    ensures
        ({
            let t = Tree::Node(x, Box::new(l), Box::new(Tree::Node(y, Box::new(a), Box::new(b))));
            let e = entry_key(nodes, blob, y);
            let r1 = Tree::Node(y, Box::new(a), Box::new(splay_tree(nodes, blob, b, k)));
            let r2 = Tree::Node(y, Box::new(splay_tree(nodes, blob, a, k)), Box::new(b));
            &&& key_less(e, k) ==> splay_tree(nodes, blob, t, k) == rotated_left(
                rotated_left(Tree::Node(x, Box::new(l), Box::new(r1))),
            )
            &&& key_less(k, e) ==> splay_tree(nodes, blob, t, k) == rotated_left(
                Tree::Node(x, Box::new(l), Box::new(rotated_right(r2))),
            )
            &&& e == k ==> splay_tree(nodes, blob, t, k) == rotated_left(t)
        }),
{
    let e = entry_key(nodes, blob, y);
    lemma_key_order(k, entry_key(nodes, blob, x), k);
    lemma_key_order(k, e, k);
    lemma_key_order(e, k, e);
    lemma_key_order(k, k, k);
}

/// What splaying promises: the same entries in the same order, split at the key, with the last node
/// on the search path at the root, and the tree below it that the turns give.
spec fn splayed(a0: &NodeArena, a2: &NodeArena, t: Tree, top: NodeId, t2: Tree, k: (u64, Seq<u8>)) -> bool {
    &&& held(a2, top, t2)
    &&& ids(t2) == ids(t)
    &&& same_store(a0, a2)
    &&& relinked(a0.nodes(), a2.nodes(), ids(t))
    &&& split_at(a0.nodes(), a0.blob(), t2, k)
    &&& top == last_on_path(a0.nodes(), a0.blob(), t, k)
    &&& t2 == splay_tree(a0.nodes(), a0.blob(), t, k)
}

/// The recursive splay of Sleator and Tarjan: brings the entry matching `(hash, key)` to the root,
/// or the last node on its search path if it is absent.
fn splay(arena: &mut NodeArena, root: NodeId, hash: u64, key: &[u8], Ghost(t): Ghost<Tree>) -> (res: (
    NodeId,
    Ghost<Tree>,
))
    requires
        held(old(arena), root, t),
        sorted_ids(old(arena).nodes(), old(arena).blob(), ids(t)),
    ensures
        splayed(old(arena), final(arena), t, res.0, res.1@, (hash, key@)),
        (t == Tree::Leaf) == (res.1@ == Tree::Leaf),
    decreases t, 1int,
{
    let ghost (l, r) = match t {
        Tree::Leaf => (Tree::Leaf, Tree::Leaf),
        Tree::Node(i, l, r) => (*l, *r),
    };
    proof {
        arena.lemma_wf();
        lemma_linked_root(arena.nodes(), root, t);
    }
    if root.is_none() {
        return (root, Ghost(t));
    }
    proof {
        assert(t == Tree::Node(root, Box::new(l), Box::new(r)));
        lemma_held_parts(arena, root, l, r);
        lemma_path_step(arena.nodes(), arena.blob(), root, l, r, (hash, key@));
        lemma_key_order((hash, key@), (hash, key@), (hash, key@));
    }
    match probe(arena, root, hash, key) {
        Side::Equal => (root, Ghost(t)),
        Side::Less => splay_left(arena, root, hash, key, Ghost(l), Ghost(r)),
        Side::Greater => splay_right(arena, root, hash, key, Ghost(l), Ghost(r)),
    }
}

/// Splaying where the key comes before the root.
#[verifier::rlimit(100)]
fn splay_left(
    arena: &mut NodeArena,
    root: NodeId,
    hash: u64,
    key: &[u8],
    Ghost(l): Ghost<Tree>,
    Ghost(r): Ghost<Tree>,
) -> (res: (NodeId, Ghost<Tree>))
    requires
        held(old(arena), root, Tree::Node(root, Box::new(l), Box::new(r))),
        sorted_ids(
            old(arena).nodes(),
            old(arena).blob(),
            ids(Tree::Node(root, Box::new(l), Box::new(r))),
        ),
        key_less((hash, key@), entry_key(old(arena).nodes(), old(arena).blob(), root)),
    ensures
        splayed(
            old(arena),
            final(arena),
            Tree::Node(root, Box::new(l), Box::new(r)),
            res.0,
            res.1@,
            (hash, key@),
        ),
        res.1@ != Tree::Leaf,
    decreases Tree::Node(root, Box::new(l), Box::new(r)), 0int,
{
    let ghost t = Tree::Node(root, Box::new(l), Box::new(r));
    let ghost k = (hash, key@);
    let ghost a0 = *arena;
    let ghost n0 = arena.nodes();
    let ghost blob = arena.blob();
    proof {
        a0.lemma_wf();
        lemma_held_parts(&a0, root, l, r);
        lemma_ids_node(root, l, r);
        lemma_descend(n0, blob, root, l, r, k);
        lemma_path_step(n0, blob, root, l, r, k);
        lemma_key_order(k, entry_key(n0, blob, root), k);
        lemma_ids_in_range(n0, root, t);
        assert(ids(t).contains(root));
    }
    let left = arena.get(root).left;
    if left.is_none() {
        return (root, Ghost(t));
    }
    let ghost (a, b) = match l {
        Tree::Leaf => (Tree::Leaf, Tree::Leaf),
        Tree::Node(i, a, b) => (*a, *b),
    };
    proof {
        assert(l == Tree::Node(left, Box::new(a), Box::new(b)));
        lemma_held_parts(&a0, left, a, b);
        lemma_ids_node(left, a, b);
        lemma_descend(n0, blob, left, a, b, k);
        lemma_path_step(n0, blob, left, a, b, k);
        lemma_splay_left(n0, blob, root, left, a, b, r, k);
        assert(ids(l).contains(left));
        assert(ids(t).contains(left));
        assert forall|x: NodeId| #[trigger] ids(a).contains(x) implies ids(l).contains(x) && ids(t).contains(x) by {
            assert(ids(l).contains(x));
        }
        assert forall|x: NodeId| #[trigger] ids(b).contains(x) implies ids(l).contains(x) && ids(t).contains(x) by {
            assert(ids(l).contains(x));
        }
    }
    match probe(arena, left, hash, key) {
        Side::Less => {
            // zig-zig
            let grand = arena.get(left).left;
            let (ga, Ghost(a2)) = splay(arena, grand, hash, key, Ghost(a));
            let ghost s1 = *arena;
            set_left(arena, left, ga);
            let ghost s2 = *arena;
            let ghost l2 = Tree::Node(left, Box::new(a2), Box::new(b));
            proof {
                lemma_replace_left(&a0, &s1, &s2, left, a, b, ga, a2, ids(a));
                lemma_push_contains(ids(a), left);
                lemma_ids_node(left, a2, b);
                assert(ids(l2) =~= ids(l));
                assert forall|x: NodeId| #[trigger] ids(r).contains(x) implies !ids(a).push(left).contains(x)
                    && !ids(l2).contains(x) by {
                    assert(!ids(l).contains(x));
                }
                lemma_keep_left(&a0, &s2, root, l, r, left, l2, ids(a).push(left));
                lemma_wider(n0, s2.nodes(), ids(a).push(left), ids(t));
            }
            let top1 = rotate_right(arena, root, Ghost(left), Ghost(a2), Ghost(b), Ghost(r));
            let ghost s3 = *arena;
            let ghost tr = Tree::Node(root, Box::new(b), Box::new(r));
            let ghost t3 = Tree::Node(left, Box::new(a2), Box::new(tr));
            proof {
                let pair = seq![left, root];
                assert(pair[0] == left && pair[1] == root);
                assert forall|z: NodeId| #[trigger] pair.contains(z) implies ids(t).contains(z) by {}
                lemma_relinked_trans(n0, s2.nodes(), s3.nodes(), ids(t), pair, ids(t));
                lemma_ids_node(root, l2, r);
                assert(ids(t3) =~= ids(t));
                lemma_held_parts(&s3, left, a2, tr);
                lemma_bounds_tree(n0, blob, root, b, r, k);
                lemma_ids_node(root, b, r);
                lemma_ids_node(left, a2, tr);
            }
            if arena.get(top1).left.is_none() {
                return (top1, Ghost(t3));
            }
            let ghost (g, g1, g2) = match a2 {
                Tree::Leaf => (root, Tree::Leaf, Tree::Leaf),
                Tree::Node(g, g1, g2) => (g, *g1, *g2),
            };
            proof {
                assert(a2 == Tree::Node(g, Box::new(g1), Box::new(g2)));
            }
            let top = rotate_right(arena, top1, Ghost(g), Ghost(g1), Ghost(g2), Ghost(tr));
            let ghost tl = Tree::Node(left, Box::new(g2), Box::new(tr));
            let ghost t4 = Tree::Node(g, Box::new(g1), Box::new(tl));
            proof {
                let pair = seq![g, left];
                assert(pair[0] == g && pair[1] == left);
                lemma_ids_node(g, g1, g2);
                assert(ids(a2).contains(g));
                assert forall|z: NodeId| #[trigger] pair.contains(z) implies ids(t).contains(z) by {
                    assert(ids(a).contains(g));
                }
                lemma_relinked_trans(n0, s3.nodes(), arena.nodes(), ids(t), pair, ids(t));
                lemma_bounds_tree(n0, blob, left, g2, tr, k);
            }
            (top, Ghost(t4))
        },
        Side::Greater => {
            // zig-zag
            let grand = arena.get(left).right;
            let (gb, Ghost(b2)) = splay(arena, grand, hash, key, Ghost(b));
            let ghost s1 = *arena;
            set_right(arena, left, gb);
            let ghost s2 = *arena;
            let ghost l2 = Tree::Node(left, Box::new(a), Box::new(b2));
            proof {
                lemma_replace_right(&a0, &s1, &s2, left, a, b, gb, b2, ids(b));
                lemma_push_contains(ids(b), left);
                lemma_ids_node(left, a, b2);
                assert(ids(l2) =~= ids(l));
                assert forall|x: NodeId| #[trigger] ids(r).contains(x) implies !ids(b).push(left).contains(x)
                    && !ids(l2).contains(x) by {
                    assert(!ids(l).contains(x));
                }
                lemma_keep_left(&a0, &s2, root, l, r, left, l2, ids(b).push(left));
                lemma_wider(n0, s2.nodes(), ids(b).push(left), ids(t));
                lemma_linked_root(s1.nodes(), gb, b2);
                lemma_ids_node(root, l2, r);
                assert(ids(Tree::Node(root, Box::new(l2), Box::new(r))) =~= ids(t));
            }
            if gb.is_some() {
                let ghost (g, g1, g2) = match b2 {
                    Tree::Leaf => (root, Tree::Leaf, Tree::Leaf),
                    Tree::Node(g, g1, g2) => (g, *g1, *g2),
                };
                let ghost tl = Tree::Node(left, Box::new(a), Box::new(g1));
                let ghost l3 = Tree::Node(g, Box::new(tl), Box::new(g2));
                proof {
                    assert(b2 == Tree::Node(g, Box::new(g1), Box::new(g2)));
                    lemma_ids_node(g, g1, g2);
                    assert(ids(b2).contains(g));
                    assert(ids(b).contains(g));
                    assert(ids(l).contains(g));
                    lemma_held_parts(&s2, root, l2, r);
                }
                let rotated = rotate_left(arena, left, Ghost(g), Ghost(a), Ghost(g1), Ghost(g2));
                let ghost s3 = *arena;
                set_left(arena, root, rotated);
                let ghost s4 = *arena;
                let ghost t4 = Tree::Node(root, Box::new(l3), Box::new(r));
                proof {
                    let pair = seq![left, g];
                    assert(pair[0] == left && pair[1] == g);
                    assert forall|z: NodeId| #[trigger] pair.contains(z) implies z == left || z == g by {}
                    assert(ids(l3) == ids(l2));
                    assert(ids(l3) == ids(l));
                    assert forall|x: NodeId| #[trigger] ids(r).contains(x) implies !pair.contains(x)
                        && !ids(l3).contains(x) by {
                        assert(!ids(l).contains(x));
                    }
                    lemma_replace_left(&s2, &s3, &s4, root, l2, r, rotated, l3, pair);
                    lemma_push_contains(pair, root);
                    lemma_relinked_trans(n0, s2.nodes(), s4.nodes(), ids(t), pair.push(root), ids(t));
                    lemma_ids_node(root, l3, r);
                }
                let top = rotate_right(arena, root, Ghost(g), Ghost(tl), Ghost(g2), Ghost(r));
                let ghost tr = Tree::Node(root, Box::new(g2), Box::new(r));
                let ghost t5 = Tree::Node(g, Box::new(tl), Box::new(tr));
                proof {
                    let pair = seq![g, root];
                    assert(pair[0] == g && pair[1] == root);
                    assert forall|z: NodeId| #[trigger] pair.contains(z) implies ids(t).contains(z) by {}
                    lemma_relinked_trans(n0, s4.nodes(), arena.nodes(), ids(t), pair, ids(t));
                    assert(ids(t5) =~= ids(t));
                    lemma_bounds_tree(n0, blob, left, a, g1, k);
                    lemma_bounds_tree(n0, blob, root, g2, r, k);
                }
                (top, Ghost(t5))
            } else {
                proof {
                    assert(b2 == Tree::Leaf);
                }
                let top = rotate_right(arena, root, Ghost(left), Ghost(a), Ghost(b2), Ghost(r));
                let ghost tr = Tree::Node(root, Box::new(b2), Box::new(r));
                let ghost t5 = Tree::Node(left, Box::new(a), Box::new(tr));
                proof {
                    let pair = seq![left, root];
                    assert(pair[0] == left && pair[1] == root);
                    assert forall|z: NodeId| #[trigger] pair.contains(z) implies ids(t).contains(z) by {}
                    lemma_relinked_trans(n0, s2.nodes(), arena.nodes(), ids(t), pair, ids(t));
                    assert(ids(t5) =~= ids(t));
                    lemma_bounds_tree(n0, blob, root, b2, r, k);
                    assert(all_greater(n0, blob, ids(b2), k));
                }
                (top, Ghost(t5))
            }
        },
        Side::Equal => {
            let top = rotate_right(arena, root, Ghost(left), Ghost(a), Ghost(b), Ghost(r));
            let ghost tr = Tree::Node(root, Box::new(b), Box::new(r));
            let ghost t5 = Tree::Node(left, Box::new(a), Box::new(tr));
            proof {
                let pair = seq![left, root];
                assert(pair[0] == left && pair[1] == root);
                assert forall|z: NodeId| #[trigger] pair.contains(z) implies ids(t).contains(z) by {}
                lemma_wider(n0, arena.nodes(), pair, ids(t));
            }
            (top, Ghost(t5))
        },
    }
}

/// Splaying where the key comes after the root.
#[verifier::rlimit(100)]
fn splay_right(
    arena: &mut NodeArena,
    root: NodeId,
    hash: u64,
    key: &[u8],
    Ghost(l): Ghost<Tree>,
    Ghost(r): Ghost<Tree>,
) -> (res: (NodeId, Ghost<Tree>))
    requires
        held(old(arena), root, Tree::Node(root, Box::new(l), Box::new(r))),
        sorted_ids(
            old(arena).nodes(),
            old(arena).blob(),
            ids(Tree::Node(root, Box::new(l), Box::new(r))),
        ),
        key_less(entry_key(old(arena).nodes(), old(arena).blob(), root), (hash, key@)),
    ensures
        splayed(
            old(arena),
            final(arena),
            Tree::Node(root, Box::new(l), Box::new(r)),
            res.0,
            res.1@,
            (hash, key@),
        ),
        res.1@ != Tree::Leaf,
    decreases Tree::Node(root, Box::new(l), Box::new(r)), 0int,
{
    let ghost t = Tree::Node(root, Box::new(l), Box::new(r));
    let ghost k = (hash, key@);
    let ghost a0 = *arena;
    let ghost n0 = arena.nodes();
    let ghost blob = arena.blob();
    proof {
        a0.lemma_wf();
        lemma_held_parts(&a0, root, l, r);
        lemma_ids_node(root, l, r);
        lemma_descend(n0, blob, root, l, r, k);
        lemma_path_step(n0, blob, root, l, r, k);
        lemma_key_order(k, entry_key(n0, blob, root), k);
        lemma_ids_in_range(n0, root, t);
        assert(ids(t).contains(root));
    }
    let right = arena.get(root).right;
    if right.is_none() {
        return (root, Ghost(t));
    }
    let ghost (b, c) = match r {
        Tree::Leaf => (Tree::Leaf, Tree::Leaf),
        Tree::Node(i, b, c) => (*b, *c),
    };
    proof {
        assert(r == Tree::Node(right, Box::new(b), Box::new(c)));
        lemma_held_parts(&a0, right, b, c);
        lemma_ids_node(right, b, c);
        lemma_descend(n0, blob, right, b, c, k);
        lemma_path_step(n0, blob, right, b, c, k);
        lemma_splay_right(n0, blob, root, right, l, b, c, k);
        assert(ids(r).contains(right));
        assert(ids(t).contains(right));
        assert forall|x: NodeId| #[trigger] ids(b).contains(x) implies ids(r).contains(x) && ids(t).contains(x) by {
            assert(ids(r).contains(x));
        }
        assert forall|x: NodeId| #[trigger] ids(c).contains(x) implies ids(r).contains(x) && ids(t).contains(x) by {
            assert(ids(r).contains(x));
        }
    }
    match probe(arena, right, hash, key) {
        Side::Greater => {
            // zig-zig
            let grand = arena.get(right).right;
            let (gc, Ghost(c2)) = splay(arena, grand, hash, key, Ghost(c));
            let ghost s1 = *arena;
            set_right(arena, right, gc);
            let ghost s2 = *arena;
            let ghost r2 = Tree::Node(right, Box::new(b), Box::new(c2));
            proof {
                lemma_replace_right(&a0, &s1, &s2, right, b, c, gc, c2, ids(c));
                lemma_push_contains(ids(c), right);
                lemma_ids_node(right, b, c2);
                assert(ids(r2) =~= ids(r));
                assert forall|x: NodeId| #[trigger] ids(l).contains(x) implies !ids(c).push(right).contains(x)
                    && !ids(r2).contains(x) by {
                    assert(!ids(r).contains(x));
                }
                lemma_keep_right(&a0, &s2, root, l, r, right, r2, ids(c).push(right));
                lemma_wider(n0, s2.nodes(), ids(c).push(right), ids(t));
            }
            let top1 = rotate_left(arena, root, Ghost(right), Ghost(l), Ghost(b), Ghost(c2));
            let ghost s3 = *arena;
            let ghost tl = Tree::Node(root, Box::new(l), Box::new(b));
            let ghost t3 = Tree::Node(right, Box::new(tl), Box::new(c2));
            proof {
                let pair = seq![root, right];
                assert(pair[0] == root && pair[1] == right);
                assert forall|z: NodeId| #[trigger] pair.contains(z) implies ids(t).contains(z) by {}
                lemma_relinked_trans(n0, s2.nodes(), s3.nodes(), ids(t), pair, ids(t));
                lemma_ids_node(root, l, r2);
                assert(ids(t3) =~= ids(t));
                lemma_held_parts(&s3, right, tl, c2);
                lemma_bounds_tree(n0, blob, root, l, b, k);
                lemma_ids_node(root, l, b);
                lemma_ids_node(right, tl, c2);
            }
            if arena.get(top1).right.is_none() {
                return (top1, Ghost(t3));
            }
            let ghost (g, g1, g2) = match c2 {
                Tree::Leaf => (root, Tree::Leaf, Tree::Leaf),
                Tree::Node(g, g1, g2) => (g, *g1, *g2),
            };
            proof {
                assert(c2 == Tree::Node(g, Box::new(g1), Box::new(g2)));
            }
            let top = rotate_left(arena, top1, Ghost(g), Ghost(tl), Ghost(g1), Ghost(g2));
            let ghost tr = Tree::Node(right, Box::new(tl), Box::new(g1));
            let ghost t4 = Tree::Node(g, Box::new(tr), Box::new(g2));
            proof {
                let pair = seq![right, g];
                assert(pair[0] == right && pair[1] == g);
                lemma_ids_node(g, g1, g2);
                assert(ids(c2).contains(g));
                assert forall|z: NodeId| #[trigger] pair.contains(z) implies ids(t).contains(z) by {
                    assert(ids(c).contains(g));
                }
                lemma_relinked_trans(n0, s3.nodes(), arena.nodes(), ids(t), pair, ids(t));
                lemma_bounds_tree(n0, blob, right, tl, g1, k);
            }
            (top, Ghost(t4))
        },
        Side::Less => {
            // zig-zag
            let grand = arena.get(right).left;
            let (gb, Ghost(b2)) = splay(arena, grand, hash, key, Ghost(b));
            let ghost s1 = *arena;
            set_left(arena, right, gb);
            let ghost s2 = *arena;
            let ghost r2 = Tree::Node(right, Box::new(b2), Box::new(c));
            proof {
                lemma_replace_left(&a0, &s1, &s2, right, b, c, gb, b2, ids(b));
                lemma_push_contains(ids(b), right);
                lemma_ids_node(right, b2, c);
                assert(ids(r2) =~= ids(r));
                assert forall|x: NodeId| #[trigger] ids(l).contains(x) implies !ids(b).push(right).contains(x)
                    && !ids(r2).contains(x) by {
                    assert(!ids(r).contains(x));
                }
                lemma_keep_right(&a0, &s2, root, l, r, right, r2, ids(b).push(right));
                lemma_wider(n0, s2.nodes(), ids(b).push(right), ids(t));
                lemma_linked_root(s1.nodes(), gb, b2);
                lemma_ids_node(root, l, r2);
                assert(ids(Tree::Node(root, Box::new(l), Box::new(r2))) =~= ids(t));
            }
            if gb.is_some() {
                let ghost (g, g1, g2) = match b2 {
                    Tree::Leaf => (root, Tree::Leaf, Tree::Leaf),
                    Tree::Node(g, g1, g2) => (g, *g1, *g2),
                };
                let ghost tr = Tree::Node(right, Box::new(g2), Box::new(c));
                let ghost r3 = Tree::Node(g, Box::new(g1), Box::new(tr));
                proof {
                    assert(b2 == Tree::Node(g, Box::new(g1), Box::new(g2)));
                    lemma_ids_node(g, g1, g2);
                    assert(ids(b2).contains(g));
                    assert(ids(b).contains(g));
                    assert(ids(r).contains(g));
                    lemma_held_parts(&s2, root, l, r2);
                }
                let rotated = rotate_right(arena, right, Ghost(g), Ghost(g1), Ghost(g2), Ghost(c));
                let ghost s3 = *arena;
                set_right(arena, root, rotated);
                let ghost s4 = *arena;
                proof {
                    let pair = seq![g, right];
                    assert(pair[0] == g && pair[1] == right);
                    assert forall|z: NodeId| #[trigger] pair.contains(z) implies z == right || z == g by {}
                    assert(ids(r3) == ids(r2));
                    assert(ids(r3) == ids(r));
                    assert forall|x: NodeId| #[trigger] ids(l).contains(x) implies !pair.contains(x)
                        && !ids(r3).contains(x) by {
                        assert(!ids(r).contains(x));
                    }
                    lemma_replace_right(&s2, &s3, &s4, root, l, r2, rotated, r3, pair);
                    lemma_push_contains(pair, root);
                    lemma_relinked_trans(n0, s2.nodes(), s4.nodes(), ids(t), pair.push(root), ids(t));
                    lemma_ids_node(root, l, r3);
                }
                let top = rotate_left(arena, root, Ghost(g), Ghost(l), Ghost(g1), Ghost(tr));
                let ghost tl = Tree::Node(root, Box::new(l), Box::new(g1));
                let ghost t5 = Tree::Node(g, Box::new(tl), Box::new(tr));
                proof {
                    let pair = seq![root, g];
                    assert(pair[0] == root && pair[1] == g);
                    assert forall|z: NodeId| #[trigger] pair.contains(z) implies ids(t).contains(z) by {}
                    lemma_relinked_trans(n0, s4.nodes(), arena.nodes(), ids(t), pair, ids(t));
                    assert(ids(t5) =~= ids(t));
                    lemma_bounds_tree(n0, blob, right, g2, c, k);
                    lemma_bounds_tree(n0, blob, root, l, g1, k);
                }
                (top, Ghost(t5))
            } else {
                proof {
                    assert(b2 == Tree::Leaf);
                }
                let top = rotate_left(arena, root, Ghost(right), Ghost(l), Ghost(b2), Ghost(c));
                let ghost tl = Tree::Node(root, Box::new(l), Box::new(b2));
                let ghost t5 = Tree::Node(right, Box::new(tl), Box::new(c));
                proof {
                    let pair = seq![root, right];
                    assert(pair[0] == root && pair[1] == right);
                    assert forall|z: NodeId| #[trigger] pair.contains(z) implies ids(t).contains(z) by {}
                    lemma_relinked_trans(n0, s2.nodes(), arena.nodes(), ids(t), pair, ids(t));
                    assert(ids(t5) =~= ids(t));
                    lemma_bounds_tree(n0, blob, root, l, b2, k);
                    assert(all_less(n0, blob, ids(b2), k));
                }
                (top, Ghost(t5))
            }
        },
        Side::Equal => {
            let top = rotate_left(arena, root, Ghost(right), Ghost(l), Ghost(b), Ghost(c));
            let ghost tl = Tree::Node(root, Box::new(l), Box::new(b));
            let ghost t5 = Tree::Node(right, Box::new(tl), Box::new(c));
            proof {
                let pair = seq![root, right];
                assert(pair[0] == root && pair[1] == right);
                assert forall|z: NodeId| #[trigger] pair.contains(z) implies ids(t).contains(z) by {}
                lemma_wider(n0, arena.nodes(), pair, ids(t));
            }
            (top, Ghost(t5))
        },
    }
}

/// A self-adjusting binary search tree.
///
/// Every access rotates the touched entry to the root, so the entries a search is currently
/// hammering drift to the top. Component-cache traffic is heavily skewed (a handful of
/// subproblems are revisited constantly), which is exactly the access pattern splaying is for.
#[derive(Debug, Clone, Copy)]
pub struct Splay;

/// A bucket that was relinked without gaining or losing an entry is still a bucket.
proof fn lemma_rearranged(o: &NodeArena, f: &NodeArena, root: NodeId, t: Tree, r2: NodeId, t2: Tree)
    requires
        bucket_of(o, root, t),
        held(f, r2, t2),
        ids(t2) == ids(t),
        same_store(o, f),
        relinked(o.nodes(), f.nodes(), ids(t)),
    ensures
        bucket_of(f, r2, t2),
        tree_of(f.nodes(), r2) == t2,
        sorted_ids(o.nodes(), o.blob(), ids(t)) ==> sorted_ids(f.nodes(), f.blob(), ids(t2)),
{
    f.lemma_wf();
    lemma_tree_unique(f.nodes(), r2, t2);
    lemma_relinked_keys(o.nodes(), f.nodes(), ids(t), o.blob());
    lemma_ids_in_range(o.nodes(), root, t);
    assert forall|i: int| 0 <= i < ids(t).len() implies (#[trigger] ids(t)[i]).ix() < o.nodes().len() by {
        assert(ids(t).contains(ids(t)[i]));
    }
    assert forall|a: NodeId, b: NodeId| #[trigger]
        ids(t2).contains(a) && #[trigger] ids(t2).contains(b) && entry_key(f.nodes(), f.blob(), a) == entry_key(
            f.nodes(),
            f.blob(),
            b,
        ) implies a == b by {
        assert(entry_key(f.nodes(), f.blob(), a) == entry_key(o.nodes(), o.blob(), a));
        assert(entry_key(f.nodes(), f.blob(), b) == entry_key(o.nodes(), o.blob(), b));
    }
}

/// After splaying, a key that is in the tree is at its root.
proof fn lemma_split_finds(nodes: Seq<Node>, blob: Seq<u8>, id: NodeId, l: Tree, r: Tree, k: (u64, Seq<u8>), x: NodeId)
    requires
        split_at(nodes, blob, Tree::Node(id, Box::new(l), Box::new(r)), k),
        sorted_ids(nodes, blob, ids(Tree::Node(id, Box::new(l), Box::new(r)))),
        ids(Tree::Node(id, Box::new(l), Box::new(r))).contains(x),
        entry_key(nodes, blob, x) == k,
    ensures
        entry_key(nodes, blob, id) == k,
{
    lemma_ids_node(id, l, r);
    lemma_descend(nodes, blob, id, l, r, k);
    lemma_key_order(k, k, k);
    if entry_key(nodes, blob, id) != k {
        if key_less(k, entry_key(nodes, blob, id)) {
            assert(x != id);
            assert(ids(l).contains(x));
            let i = choose|i: int| 0 <= i < ids(l).len() && ids(l)[i] == x;
            lemma_key_order(k, entry_key(nodes, blob, id), k);
            assert(key_less(entry_key(nodes, blob, ids(l)[i]), k));
        } else {
            assert(x != id);
            assert(ids(r).contains(x));
            let i = choose|i: int| 0 <= i < ids(r).len() && ids(r)[i] == x;
            assert(key_less(k, entry_key(nodes, blob, ids(r)[i])));
        }
    }
}

impl BucketPolicy for Splay {
    open spec fn spec_name() -> Seq<char> {
        "splay"@
    }

    open spec fn shape(nodes: Seq<Node>, blob: Seq<u8>, t: Tree) -> bool {
        sorted_ids(nodes, blob, ids(t))
    }

    proof fn lemma_shape_empty(nodes: Seq<Node>, blob: Seq<u8>) {
    }

    proof fn lemma_shape_frame(n1: Seq<Node>, b1: Seq<u8>, n2: Seq<Node>, b2: Seq<u8>, t: Tree) {
        lemma_sorted_frame(n1, b1, n2, b2, t);
    }

    open spec fn height_fits(h: int, n: int) -> bool {
        h <= n
    }

    proof fn lemma_shape_height(nodes: Seq<Node>, blob: Seq<u8>, t: Tree) {
        lemma_height_of(t);
    }

    proof fn lemma_heights_joined(h1: int, n1: int, h2: int, n2: int) {
    }

    fn name() -> (s: &'static str) {
        "splay"
    }

    /// Every access rotates the touched entry to the root: the one that was found, or the last node
    /// on the search path where there is none.
    fn lookup(arena: &mut NodeArena, root: &mut NodeId, hash: u64, key: &[u8]) -> (r: NodeId)
        ensures
            r != NodeId::none() ==> *final(root) == r,
            *final(root) == last_on_path(
                old(arena).nodes(),
                old(arena).blob(),
                tree_of(old(arena).nodes(), *old(root)),
                (hash, key@),
            ),
            tree_of(final(arena).nodes(), *final(root)) == splay_tree(
                old(arena).nodes(),
                old(arena).blob(),
                tree_of(old(arena).nodes(), *old(root)),
                (hash, key@),
            ),
    {
        let ghost a0 = *arena;
        let ghost r0 = *root;
        let ghost t = tree_of(arena.nodes(), *root);
        proof {
            a0.lemma_wf();
            lemma_linked_root(a0.nodes(), r0, t);
        }
        if root.is_none() {
            return NodeId::none();
        }
        let (top, Ghost(t2)) = splay(arena, *root, hash, key, Ghost(t));
        *root = top;
        let ghost (l, r) = match t2 {
            Tree::Leaf => (Tree::Leaf, Tree::Leaf),
            Tree::Node(i, l, r) => (*l, *r),
        };
        proof {
            lemma_rearranged(&a0, arena, r0, t, top, t2);
            arena.lemma_wf();
            assert(t2 == Tree::Node(top, Box::new(l), Box::new(r)));
            lemma_ids_node(top, l, r);
            lemma_held_parts(arena, top, l, r);
            lemma_relinked_keys(a0.nodes(), arena.nodes(), ids(t), a0.blob());
            assert(ids(t2).contains(top));
            assert(ids(t).contains(top));
            lemma_ids_in_range(a0.nodes(), r0, t);
        }
        if probe(arena, top, hash, key) == Side::Equal {
            top
        } else {
            proof {
                assert forall|id: NodeId| #[trigger] ids(t).contains(id) implies entry_key(
                    a0.nodes(),
                    a0.blob(),
                    id,
                ) != (hash, key@) by {
                    if entry_key(a0.nodes(), a0.blob(), id) == (hash, key@) {
                        lemma_split_finds(a0.nodes(), a0.blob(), top, l, r, (hash, key@), id);
                    }
                }
            }
            NodeId::none()
        }
    }

    #[verifier::rlimit(100)]
    fn insert(arena: &mut NodeArena, root: &mut NodeId, node: NodeId, hash: u64, key: &[u8])
        ensures
            *final(root) == node,
            tree_of(final(arena).nodes(), *final(root)) == splay_insert(
                old(arena).nodes(),
                old(arena).blob(),
                tree_of(old(arena).nodes(), *old(root)),
                node,
                (hash, key@),
            ),
    {
        let ghost a0 = *arena;
        let ghost n0 = arena.nodes();
        let ghost blob = arena.blob();
        let ghost r0 = *root;
        let ghost k = (hash, key@);
        let ghost t = tree_of(arena.nodes(), *root);
        proof {
            a0.lemma_wf();
            lemma_linked_root(a0.nodes(), r0, t);
            lemma_push_contains(ids(t), node);
        }
        if root.is_none() {
            *root = node;
            proof {
                let t2 = Tree::Node(node, Box::new(Tree::Leaf), Box::new(Tree::Leaf));
                lemma_ids_node(node, Tree::Leaf, Tree::Leaf);
                lemma_distinct_node(node, Tree::Leaf, Tree::Leaf);
                assert(linked(n0, NodeId::none(), Tree::Leaf));
                assert(linked(n0, node, t2));
                assert(ids(t2).len() == 1);
                lemma_joined(&a0, arena, r0, t, node, t2, node, k);
            }
            return;
        }
        let (top, Ghost(t1)) = splay(arena, *root, hash, key, Ghost(t));
        let ghost a1 = *arena;
        let ghost n1 = arena.nodes();
        let ghost (l, r) = match t1 {
            Tree::Leaf => (Tree::Leaf, Tree::Leaf),
            Tree::Node(i, l, r) => (*l, *r),
        };
        proof {
            lemma_rearranged(&a0, &a1, r0, t, top, t1);
            a1.lemma_wf();
            assert(t1 == Tree::Node(top, Box::new(l), Box::new(r)));
            lemma_ids_node(top, l, r);
            lemma_held_parts(&a1, top, l, r);
            lemma_relinked_keys(n0, n1, ids(t), blob);
            assert(ids(t1).contains(top));
            assert(ids(t).contains(top));
            lemma_ids_in_range(n0, r0, t);
            lemma_descend(n1, blob, top, l, r, k);
            lemma_descend(n0, blob, top, l, r, k);
            lemma_key_order(k, entry_key(n0, blob, top), k);
            assert(!ids(t).contains(node));
            assert(NodeId { raw: node.ix() as u32 } == node);
            assert(n1[node.ix()] == n0[node.ix()]);
            assert(entry_key(n1, blob, node) == k);
            assert(a1.live(node));
        }
        // Split the splayed tree at the new node and hang both halves off it.
        if probe(arena, top, hash, key) == Side::Greater {
            let rest = arena.get(top).right;
            let slot = arena.get_mut(node);
            slot.left = top;
            slot.right = rest;
            set_right(arena, top, NodeId::none());
            proof {
                let n2 = arena.nodes();
                let tl = Tree::Node(top, Box::new(l), Box::new(Tree::Leaf));
                let t2 = Tree::Node(node, Box::new(tl), Box::new(r));
                lemma_ids_node(top, l, Tree::Leaf);
                lemma_ids_node(node, tl, r);
                lemma_distinct_node(top, l, Tree::Leaf);
                lemma_distinct_node(node, tl, r);
                assert(relinked(n1, n2, ids(t).push(node)));
                assert forall|x: NodeId| #[trigger] ids(l).contains(x) implies n2[x.ix()] == n1[x.ix()] by {
                    assert(ids(t1).contains(x));
                    assert(x.ix() != node.ix() && x.ix() != top.ix());
                }
                assert forall|x: NodeId| #[trigger] ids(r).contains(x) implies n2[x.ix()] == n1[x.ix()] by {
                    assert(ids(t1).contains(x));
                    assert(x.ix() != node.ix() && x.ix() != top.ix());
                }
                lemma_linked_frame(n1, n2, n1[top.ix()].left, l);
                lemma_linked_frame(n1, n2, n1[top.ix()].right, r);
                assert(linked(n2, NodeId::none(), Tree::Leaf));
                assert(linked(n2, top, tl));
                assert(linked(n2, node, t2));
                lemma_relinked_trans(n0, n1, n2, ids(t), ids(t).push(node), ids(t).push(node));
                lemma_relinked_keys(n1, n2, ids(t).push(node), blob);
                lemma_bounds_tree(n1, blob, top, l, Tree::Leaf, k);
                assert(all_greater(n1, blob, ids(r), k)) by {
                    lemma_bounds_same(n0, n1, ids(t), blob, ids(r), k);
                }
                lemma_sorted_node(n1, blob, ids(l), top, Seq::<NodeId>::empty());
                assert(ids(Tree::Leaf) =~= Seq::<NodeId>::empty());
                assert(ids(tl) =~= ids(l) + seq![top] + Seq::<NodeId>::empty());
                lemma_sorted_node(n1, blob, ids(tl), node, ids(r));
                assert forall|id: NodeId| #[trigger] ids(t2).contains(id) <==> ids(t).contains(id) || id == node by {}
                assert forall|i: int| 0 <= i < ids(t2).len() implies (#[trigger] ids(t2)[i]).ix() < n1.len() by {
                    assert(ids(t2).contains(ids(t2)[i]));
                }
                lemma_joined(&a0, arena, r0, t, node, t2, node, k);
            }
        } else {
            let rest = arena.get(top).left;
            let slot = arena.get_mut(node);
            slot.right = top;
            slot.left = rest;
            set_left(arena, top, NodeId::none());
            proof {
                let n2 = arena.nodes();
                let tr = Tree::Node(top, Box::new(Tree::Leaf), Box::new(r));
                let t2 = Tree::Node(node, Box::new(l), Box::new(tr));
                lemma_ids_node(top, Tree::Leaf, r);
                lemma_ids_node(node, l, tr);
                lemma_distinct_node(top, Tree::Leaf, r);
                lemma_distinct_node(node, l, tr);
                assert(relinked(n1, n2, ids(t).push(node)));
                assert forall|x: NodeId| #[trigger] ids(l).contains(x) implies n2[x.ix()] == n1[x.ix()] by {
                    assert(ids(t1).contains(x));
                    assert(x.ix() != node.ix() && x.ix() != top.ix());
                }
                assert forall|x: NodeId| #[trigger] ids(r).contains(x) implies n2[x.ix()] == n1[x.ix()] by {
                    assert(ids(t1).contains(x));
                    assert(x.ix() != node.ix() && x.ix() != top.ix());
                }
                lemma_linked_frame(n1, n2, n1[top.ix()].left, l);
                lemma_linked_frame(n1, n2, n1[top.ix()].right, r);
                assert(linked(n2, NodeId::none(), Tree::Leaf));
                assert(linked(n2, top, tr));
                assert(linked(n2, node, t2));
                lemma_relinked_trans(n0, n1, n2, ids(t), ids(t).push(node), ids(t).push(node));
                lemma_relinked_keys(n1, n2, ids(t).push(node), blob);
                lemma_bounds_tree(n1, blob, top, Tree::Leaf, r, k);
                assert(all_less(n1, blob, ids(l), k)) by {
                    lemma_bounds_same(n0, n1, ids(t), blob, ids(l), k);
                }
                assert(ids(Tree::Leaf) =~= Seq::<NodeId>::empty());
                lemma_sorted_node(n1, blob, Seq::<NodeId>::empty(), top, ids(r));
                assert(ids(tr) =~= Seq::<NodeId>::empty() + seq![top] + ids(r));
                lemma_sorted_node(n1, blob, ids(l), node, ids(tr));
                assert forall|id: NodeId| #[trigger] ids(t2).contains(id) <==> ids(t).contains(id) || id == node by {}
                assert forall|i: int| 0 <= i < ids(t2).len() implies (#[trigger] ids(t2)[i]).ix() < n1.len() by {
                    assert(ids(t2).contains(ids(t2)[i]));
                }
                lemma_joined(&a0, arena, r0, t, node, t2, node, k);
            }
        }
        *root = node;
    }
}

/// Bounds are about keys, which relinking keeps.
proof fn lemma_bounds_same(n1: Seq<Node>, n2: Seq<Node>, touched: Seq<NodeId>, blob: Seq<u8>, s: Seq<NodeId>, k: (u64, Seq<u8>))
    requires
        relinked(n1, n2, touched),
        forall|x: NodeId| #[trigger] s.contains(x) ==> x.ix() < n1.len(),
    ensures
        all_less(n1, blob, s, k) <==> all_less(n2, blob, s, k),
        all_greater(n1, blob, s, k) <==> all_greater(n2, blob, s, k),
{
    lemma_relinked_keys(n1, n2, touched, blob);
    assert forall|i: int| 0 <= i < s.len() implies entry_key(n2, blob, #[trigger] s[i]) == entry_key(
        n1,
        blob,
        s[i],
    ) by {
        assert(s.contains(s[i]));
    }
}

/// Runtime selection of a bucket policy, for the command line and the benchmark harness.
#[derive(Copy, Clone, PartialEq, Eq, Debug, Structural)]
pub enum BucketKind {
    /// [`Avl`], the default.
    Avl,
    /// [`Unbalanced`].
    Unbalanced,
    /// [`Splay`].
    Splay,
    /// [`Chain`].
    Chain,
}

impl Default for BucketKind {
    /// The default bucket policy.
    fn default() -> (k: Self)
        ensures
            k == BucketKind::Avl,
    {
        BucketKind::Avl
    }
}

impl BucketKind {
    /// The name as text.
    pub open spec fn spec_name(self) -> Seq<char> {
        match self {
            BucketKind::Avl => "avl"@,
            BucketKind::Unbalanced => "unbalanced"@,
            BucketKind::Splay => "splay"@,
            BucketKind::Chain => "chain"@,
        }
    }

    /// Every policy, in a stable order for benchmark tables.
    pub fn all() -> (a: [BucketKind; 4])
        ensures
            a@ == seq![BucketKind::Avl, BucketKind::Unbalanced, BucketKind::Splay, BucketKind::Chain],
            forall|k: BucketKind| a@.contains(k),
    {
        let a = [BucketKind::Avl, BucketKind::Unbalanced, BucketKind::Splay, BucketKind::Chain];
        proof {
            assert(a@ =~= seq![
                BucketKind::Avl,
                BucketKind::Unbalanced,
                BucketKind::Splay,
                BucketKind::Chain,
            ]);
            assert forall|k: BucketKind| a@.contains(k) by {
                match k {
                    BucketKind::Avl => assert(a@[0] == k),
                    BucketKind::Unbalanced => assert(a@[1] == k),
                    BucketKind::Splay => assert(a@[2] == k),
                    BucketKind::Chain => assert(a@[3] == k),
                }
            }
        }
        a
    }

    /// The policy's name.
    pub fn name(self) -> (s: &'static str)
        ensures
            s@ == self.spec_name(),
    {
        match self {
            BucketKind::Avl => Avl::name(),
            BucketKind::Unbalanced => Unbalanced::name(),
            BucketKind::Splay => Splay::name(),
            BucketKind::Chain => Chain::name(),
        }
    }

    /// Distinct policies have distinct names.
    pub proof fn lemma_names_distinct(a: BucketKind, b: BucketKind)
        ensures
            a.spec_name() == b.spec_name() ==> a == b,
    {
        reveal_strlit("avl");
        reveal_strlit("unbalanced");
        reveal_strlit("splay");
        reveal_strlit("chain");
        assert("avl"@.len() == 3 && "unbalanced"@.len() == 10);
        assert("splay"@.len() == 5 && "chain"@.len() == 5);
        assert("splay"@[0] == 's' && "chain"@[0] == 'c');
    }

    /// The policy with the given name, or a message that names the unknown one.
    pub fn from_name(s: &str) -> (r: Result<BucketKind, String>)
        ensures
            forall|k: BucketKind| r == Ok::<BucketKind, String>(k) <==> s@ == #[trigger] k.spec_name(),
            r matches Err(e) ==> e@ == unknown_text("bucket policy"@, s@),
    {
        proof {
            assert forall|a: BucketKind, b: BucketKind|
                #[trigger] a.spec_name() == #[trigger] b.spec_name() implies a == b by {
                BucketKind::lemma_names_distinct(a, b);
            }
        }
        if same_text(s, "avl") {
            assert(s@ == BucketKind::Avl.spec_name());
            Ok(BucketKind::Avl)
        } else if same_text(s, "unbalanced") {
            assert(s@ == BucketKind::Unbalanced.spec_name());
            Ok(BucketKind::Unbalanced)
        } else if same_text(s, "splay") {
            assert(s@ == BucketKind::Splay.spec_name());
            Ok(BucketKind::Splay)
        } else if same_text(s, "chain") {
            assert(s@ == BucketKind::Chain.spec_name());
            Ok(BucketKind::Chain)
        } else {
            Err(unknown_name("bucket policy", s))
        }
    }
}

impl core::str::FromStr for BucketKind {
    type Err = String;

    fn from_str(s: &str) -> (r: Result<Self, String>)
        ensures
            forall|k: BucketKind| r == Ok::<BucketKind, String>(k) <==> s@ == #[trigger] k.spec_name(),
            r matches Err(e) ==> e@ == unknown_text("bucket policy"@, s@),
    {
        BucketKind::from_name(s)
    }
}

} // verus!
