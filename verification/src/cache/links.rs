//! How arena nodes are linked into trees, and how entries are ordered.

use vstd::prelude::*;
use crate::cache::arena::{node_key, Node, NodeArena, NodeId};
use crate::count::{cnt, lemma_cnt_concat, lemma_cnt_contains, lemma_cnt_no_duplicates, lemma_cnt_push};
use crate::sorting::{lemma_concat_contains, lemma_push_contains};

verus! {

/// The shape of a bucket: which node sits where.
pub enum Tree {
    /// Nothing.
    Leaf,
    /// A node between its two subtrees.
    Node(NodeId, Box<Tree>, Box<Tree>),
}

/// The nodes of a tree from left to right.
pub open spec fn ids(t: Tree) -> Seq<NodeId>
    decreases t,
{
    match t {
        Tree::Leaf => Seq::empty(),
        Tree::Node(id, l, r) => ids(*l) + seq![id] + ids(*r),
    }
}

/// The handle at the root of a tree.
pub open spec fn root_of(t: Tree) -> NodeId {
    match t {
        Tree::Leaf => NodeId::none(),
        Tree::Node(id, l, r) => id,
    }
}

/// The child links of the nodes reachable from `root` spell out the tree `t`.
pub open spec fn linked(nodes: Seq<Node>, root: NodeId, t: Tree) -> bool
    decreases t,
{
    match t {
        Tree::Leaf => root == NodeId::none(),
        Tree::Node(id, l, r) => {
            &&& root == id
            &&& id.ix() < nodes.len()
            &&& linked(nodes, nodes[id.ix()].left, *l)
            &&& linked(nodes, nodes[id.ix()].right, *r)
        },
    }
}

/// The tree that hangs from `root`.
pub open spec fn tree_of(nodes: Seq<Node>, root: NodeId) -> Tree {
    choose|t: Tree| linked(nodes, root, t)
}

/// Links spell out at most one tree.
pub proof fn lemma_tree_unique(nodes: Seq<Node>, root: NodeId, t: Tree)
    requires
        nodes.len() <= u32::MAX,
        linked(nodes, root, t),
    ensures
        tree_of(nodes, root) == t,
{
    lemma_linked_unique(nodes, root, t, tree_of(nodes, root));
}

proof fn lemma_linked_unique(nodes: Seq<Node>, root: NodeId, t1: Tree, t2: Tree)
    requires
        nodes.len() <= u32::MAX,
        linked(nodes, root, t1),
        linked(nodes, root, t2),
    ensures
        t1 == t2,
    decreases t1,
{
    match t1 {
        Tree::Leaf => {},
        Tree::Node(id, l, r) => {
            match t2 {
                Tree::Leaf => {},
                Tree::Node(id2, l2, r2) => {
                    lemma_linked_unique(nodes, nodes[id.ix()].left, *l, *l2);
                    lemma_linked_unique(nodes, nodes[id.ix()].right, *r, *r2);
                },
            }
        },
    }
}

/// Membership in a node's sequence.
pub proof fn lemma_ids_node(id: NodeId, l: Tree, r: Tree)
    ensures
        forall|x: NodeId|
            #![trigger ids(Tree::Node(id, Box::new(l), Box::new(r))).contains(x)]
            ids(Tree::Node(id, Box::new(l), Box::new(r))).contains(x) <==> ids(l).contains(x) || x == id
                || ids(r).contains(x),
        ids(Tree::Node(id, Box::new(l), Box::new(r))) == ids(l) + seq![id] + ids(r),
{
    let a = ids(l);
    let b = ids(r);
    assert(seq![id] =~= Seq::<NodeId>::empty().push(id));
    lemma_push_contains(Seq::<NodeId>::empty(), id);
    lemma_concat_contains(a, seq![id]);
    lemma_concat_contains(a + seq![id], b);
}

/// Every node of a linked tree is a slot of the pool.
pub proof fn lemma_ids_in_range(nodes: Seq<Node>, root: NodeId, t: Tree)
    requires
        linked(nodes, root, t),
    ensures
        forall|x: NodeId| #[trigger] ids(t).contains(x) ==> x.ix() < nodes.len(),
    decreases t,
{
    match t {
        Tree::Leaf => {},
        Tree::Node(id, l, r) => {
            lemma_ids_in_range(nodes, nodes[id.ix()].left, *l);
            lemma_ids_in_range(nodes, nodes[id.ix()].right, *r);
            lemma_ids_node(id, *l, *r);
        },
    }
}

/// A tree stays linked while the links of its own nodes are left alone.
pub proof fn lemma_linked_frame(n1: Seq<Node>, n2: Seq<Node>, root: NodeId, t: Tree)
    requires
        linked(n1, root, t),
        n1.len() <= n2.len(),
        forall|x: NodeId| #[trigger]
            ids(t).contains(x) ==> n2[x.ix()].left == n1[x.ix()].left && n2[x.ix()].right
                == n1[x.ix()].right,
    ensures
        linked(n2, root, t),
    decreases t,
{
    match t {
        Tree::Leaf => {},
        Tree::Node(id, l, r) => {
            lemma_ids_node(id, *l, *r);
            assert(ids(t).contains(id));
            assert forall|x: NodeId| #[trigger] ids(*l).contains(x) implies n2[x.ix()].left
                == n1[x.ix()].left && n2[x.ix()].right == n1[x.ix()].right by {
                assert(ids(t).contains(x));
            }
            assert forall|x: NodeId| #[trigger] ids(*r).contains(x) implies n2[x.ix()].left
                == n1[x.ix()].left && n2[x.ix()].right == n1[x.ix()].right by {
                assert(ids(t).contains(x));
            }
            lemma_linked_frame(n1, n2, n1[id.ix()].left, *l);
            lemma_linked_frame(n1, n2, n1[id.ix()].right, *r);
        },
    }
}

/// Only the links and heights of the listed nodes differ between the two pools.
pub open spec fn relinked(n1: Seq<Node>, n2: Seq<Node>, touched: Seq<NodeId>) -> bool {
    &&& n1.len() == n2.len()
    &&& forall|j: int| 0 <= j < n1.len() ==> (#[trigger] n2[j]).same_entry(n1[j])
    &&& forall|j: int|
        0 <= j < n1.len() && !touched.contains(NodeId { raw: j as u32 }) ==> #[trigger] n2[j] == n1[j]
}

/// The ordering key of an entry: the full hash, then the key bytes.
pub open spec fn entry_key(nodes: Seq<Node>, blob: Seq<u8>, id: NodeId) -> (u64, Seq<u8>) {
    (nodes[id.ix()].hash, node_key(nodes, blob, id))
}

/// Lexicographic order on byte strings.
pub open spec fn lex_less(a: Seq<u8>, b: Seq<u8>) -> bool
    decreases a.len(),
{
    if b.len() == 0 {
        false
    } else if a.len() == 0 {
        true
    } else if a[0] != b[0] {
        a[0] < b[0]
    } else {
        lex_less(a.skip(1), b.skip(1))
    }
}

/// The order of the trees: by hash, and by key bytes where hashes collide.
pub open spec fn key_less(a: (u64, Seq<u8>), b: (u64, Seq<u8>)) -> bool {
    a.0 < b.0 || (a.0 == b.0 && lex_less(a.1, b.1))
}

proof fn lemma_lex_irreflexive(a: Seq<u8>)
    ensures
        !lex_less(a, a),
    decreases a.len(),
{
    if a.len() > 0 {
        lemma_lex_irreflexive(a.skip(1));
    }
}

proof fn lemma_lex_transitive(a: Seq<u8>, b: Seq<u8>, c: Seq<u8>)
    requires
        lex_less(a, b),
        lex_less(b, c),
    ensures
        lex_less(a, c),
    decreases a.len(),
{
    if a.len() > 0 && b.len() > 0 && c.len() > 0 && a[0] == b[0] && b[0] == c[0] {
        lemma_lex_transitive(a.skip(1), b.skip(1), c.skip(1));
    }
}

proof fn lemma_lex_total(a: Seq<u8>, b: Seq<u8>)
    ensures
        a == b || lex_less(a, b) || lex_less(b, a),
    decreases a.len(),
{
    if a.len() == 0 {
        if b.len() == 0 {
            assert(a =~= b);
        }
    } else if b.len() > 0 && a[0] == b[0] {
        lemma_lex_total(a.skip(1), b.skip(1));
        if a.skip(1) == b.skip(1) {
            assert(a =~= seq![a[0]] + a.skip(1));
            assert(b =~= seq![b[0]] + b.skip(1));
        }
    }
}

/// The order of the trees is a strict total order.
pub proof fn lemma_key_order(a: (u64, Seq<u8>), b: (u64, Seq<u8>), c: (u64, Seq<u8>))
    ensures
        !key_less(a, a),
        key_less(a, b) && key_less(b, c) ==> key_less(a, c),
        a == b || key_less(a, b) || key_less(b, a),
        !(key_less(a, b) && key_less(b, a)),
{
    lemma_lex_irreflexive(a.1);
    lemma_lex_total(a.1, b.1);
    if key_less(a, b) && key_less(b, c) && a.0 == b.0 && b.0 == c.0 {
        lemma_lex_transitive(a.1, b.1, c.1);
    }
    if key_less(a, b) && key_less(b, a) && a.0 == b.0 {
        lemma_lex_transitive(a.1, b.1, a.1);
    }
}

/// How a probe compares with an entry.
#[derive(Copy, Clone, PartialEq, Eq, Debug, Structural)]
pub enum Side {
    /// The probe comes first.
    Less,
    /// They are the same.
    Equal,
    /// The entry comes first.
    Greater,
}

/// Compares two byte strings lexicographically.
fn order_bytes(a: &[u8], b: &[u8]) -> (s: Side)
    ensures
        s == Side::Less <==> lex_less(a@, b@),
        s == Side::Equal <==> a@ == b@,
        s == Side::Greater <==> lex_less(b@, a@),
{
    let mut i: usize = 0;
    assert(a@.skip(0) =~= a@);
    assert(b@.skip(0) =~= b@);
    while i < a.len() && i < b.len() && a[i] == b[i]
        invariant
            i <= a@.len(),
            i <= b@.len(),
            forall|k: int| 0 <= k < i ==> a@[k] == b@[k],
            lex_less(a@, b@) == lex_less(a@.skip(i as int), b@.skip(i as int)),
            lex_less(b@, a@) == lex_less(b@.skip(i as int), a@.skip(i as int)),
        decreases a@.len() - i,
    {
        assert(a@.skip(i as int).skip(1) =~= a@.skip(i + 1));
        assert(b@.skip(i as int).skip(1) =~= b@.skip(i + 1));
        i = i + 1;
    }
    proof {
        lemma_lex_irreflexive(a@);
        if i == a@.len() && i == b@.len() {
            assert(a@ =~= b@);
        }
    }
    if i == b.len() {
        if i == a.len() {
            Side::Equal
        } else {
            Side::Greater
        }
    } else if i == a.len() {
        Side::Less
    } else if a[i] < b[i] {
        Side::Less
    } else {
        Side::Greater
    }
}

/// Orders a probe `(hash, key)` against a stored node.
pub fn probe(arena: &NodeArena, node: NodeId, hash: u64, key: &[u8]) -> (s: Side)
    requires
        arena.wf(),
        node.ix() < arena.nodes().len(),
        arena.nodes()[node.ix()].key_off + arena.nodes()[node.ix()].key_len <= arena.blob().len(),
    ensures
        s == Side::Less <==> key_less((hash, key@), entry_key(arena.nodes(), arena.blob(), node)),
        s == Side::Equal <==> (hash, key@) == entry_key(arena.nodes(), arena.blob(), node),
        s == Side::Greater <==> key_less(entry_key(arena.nodes(), arena.blob(), node), (hash, key@)),
{
    let h: u64 = arena.get(node).hash;
    if hash < h {
        Side::Less
    } else if hash > h {
        Side::Greater
    } else {
        order_bytes(key, arena.key(node))
    }
}

/// Entries in strictly ascending order.
pub open spec fn sorted_ids(nodes: Seq<Node>, blob: Seq<u8>, s: Seq<NodeId>) -> bool {
    forall|i: int, j: int|
        0 <= i < j < s.len() ==> key_less(
            entry_key(nodes, blob, #[trigger] s[i]),
            entry_key(nodes, blob, #[trigger] s[j]),
        )
}

/// Every entry of the sequence comes before `k`.
pub open spec fn all_less(nodes: Seq<Node>, blob: Seq<u8>, s: Seq<NodeId>, k: (u64, Seq<u8>)) -> bool {
    forall|i: int| 0 <= i < s.len() ==> key_less(entry_key(nodes, blob, #[trigger] s[i]), k)
}

/// Every entry of the sequence comes after `k`.
pub open spec fn all_greater(nodes: Seq<Node>, blob: Seq<u8>, s: Seq<NodeId>, k: (u64, Seq<u8>)) -> bool {
    forall|i: int| 0 <= i < s.len() ==> key_less(k, entry_key(nodes, blob, #[trigger] s[i]))
}

/// The sequence around a node is sorted exactly when both sides are and lie on their side.
pub proof fn lemma_sorted_node(nodes: Seq<Node>, blob: Seq<u8>, a: Seq<NodeId>, x: NodeId, b: Seq<NodeId>)
    ensures
        sorted_ids(nodes, blob, a + seq![x] + b) <==> sorted_ids(nodes, blob, a) && sorted_ids(
            nodes,
            blob,
            b,
        ) && all_less(nodes, blob, a, entry_key(nodes, blob, x)) && all_greater(
            nodes,
            blob,
            b,
            entry_key(nodes, blob, x),
        ),
{
    let s = a + seq![x] + b;
    let n = a.len() as int;
    assert(s[n] == x);
    assert forall|i: int| 0 <= i < a.len() implies s[i] == #[trigger] a[i] by {}
    assert forall|i: int| 0 <= i < b.len() implies s[n + 1 + i] == #[trigger] b[i] by {}
    if sorted_ids(nodes, blob, s) {
        assert forall|i: int, j: int| 0 <= i < j < a.len() implies key_less(
            entry_key(nodes, blob, #[trigger] a[i]),
            entry_key(nodes, blob, #[trigger] a[j]),
        ) by {
            assert(s[i] == a[i] && s[j] == a[j]);
        }
        assert forall|i: int, j: int| 0 <= i < j < b.len() implies key_less(
            entry_key(nodes, blob, #[trigger] b[i]),
            entry_key(nodes, blob, #[trigger] b[j]),
        ) by {
            assert(s[n + 1 + i] == b[i] && s[n + 1 + j] == b[j]);
        }
        assert forall|i: int| 0 <= i < a.len() implies key_less(
            entry_key(nodes, blob, #[trigger] a[i]),
            entry_key(nodes, blob, x),
        ) by {
            assert(s[i] == a[i]);
        }
        assert forall|i: int| 0 <= i < b.len() implies key_less(
            entry_key(nodes, blob, x),
            entry_key(nodes, blob, #[trigger] b[i]),
        ) by {
            assert(s[n + 1 + i] == b[i]);
        }
    }
    if sorted_ids(nodes, blob, a) && sorted_ids(nodes, blob, b) && all_less(
        nodes,
        blob,
        a,
        entry_key(nodes, blob, x),
    ) && all_greater(nodes, blob, b, entry_key(nodes, blob, x)) {
        assert forall|i: int, j: int| 0 <= i < j < s.len() implies key_less(
            entry_key(nodes, blob, #[trigger] s[i]),
            entry_key(nodes, blob, #[trigger] s[j]),
        ) by {
            let kx = entry_key(nodes, blob, x);
            if i < n {
                assert(s[i] == a[i]);
                if j < n {
                    assert(s[j] == a[j]);
                } else if j > n {
                    assert(s[j] == b[j - n - 1]);
                    lemma_key_order(entry_key(nodes, blob, a[i]), kx, entry_key(nodes, blob, b[j - n - 1]));
                }
            } else if i == n {
                assert(s[j] == b[j - n - 1]);
            } else {
                assert(s[i] == b[i - n - 1] && s[j] == b[j - n - 1]);
            }
        }
    }
}

/// Entries before a smaller bound come before a larger one.
pub proof fn lemma_bounds_widen(
    nodes: Seq<Node>,
    blob: Seq<u8>,
    s: Seq<NodeId>,
    k1: (u64, Seq<u8>),
    k2: (u64, Seq<u8>),
)
    requires
        key_less(k1, k2),
    ensures
        all_less(nodes, blob, s, k1) ==> all_less(nodes, blob, s, k2),
        all_greater(nodes, blob, s, k2) ==> all_greater(nodes, blob, s, k1),
{
    assert forall|i: int| 0 <= i < s.len() && all_less(nodes, blob, s, k1) implies key_less(
        entry_key(nodes, blob, #[trigger] s[i]),
        k2,
    ) by {
        lemma_key_order(entry_key(nodes, blob, s[i]), k1, k2);
    }
    assert forall|i: int| 0 <= i < s.len() && all_greater(nodes, blob, s, k2) implies key_less(
        k1,
        entry_key(nodes, blob, #[trigger] s[i]),
    ) by {
        lemma_key_order(k1, k2, entry_key(nodes, blob, s[i]));
    }
}

/// Bounds and order of a concatenation.
pub proof fn lemma_bounds_concat(nodes: Seq<Node>, blob: Seq<u8>, a: Seq<NodeId>, b: Seq<NodeId>, k: (u64, Seq<u8>))
    ensures
        all_less(nodes, blob, a + b, k) <==> all_less(nodes, blob, a, k) && all_less(nodes, blob, b, k),
        all_greater(nodes, blob, a + b, k) <==> all_greater(nodes, blob, a, k) && all_greater(
            nodes,
            blob,
            b,
            k,
        ),
{
    let s = a + b;
    assert forall|i: int| 0 <= i < a.len() implies s[i] == #[trigger] a[i] by {}
    assert forall|i: int| 0 <= i < b.len() implies s[a.len() + i] == #[trigger] b[i] by {}
    assert forall|i: int| 0 <= i < s.len() implies (#[trigger] s[i] == if i < a.len() {
        a[i]
    } else {
        b[i - a.len()]
    }) by {}
    if all_less(nodes, blob, s, k) {
        assert forall|i: int| 0 <= i < a.len() implies key_less(entry_key(nodes, blob, #[trigger] a[i]), k) by {
            assert(s[i] == a[i]);
        }
        assert forall|i: int| 0 <= i < b.len() implies key_less(entry_key(nodes, blob, #[trigger] b[i]), k) by {
            assert(s[a.len() + i] == b[i]);
        }
    }
    if all_greater(nodes, blob, s, k) {
        assert forall|i: int| 0 <= i < a.len() implies key_less(k, entry_key(nodes, blob, #[trigger] a[i])) by {
            assert(s[i] == a[i]);
        }
        assert forall|i: int| 0 <= i < b.len() implies key_less(k, entry_key(nodes, blob, #[trigger] b[i])) by {
            assert(s[a.len() + i] == b[i]);
        }
    }
}

/// Relinking changes no ordering key.
pub proof fn lemma_relinked_keys(n1: Seq<Node>, n2: Seq<Node>, touched: Seq<NodeId>, blob: Seq<u8>)
    requires
        relinked(n1, n2, touched),
    ensures
        forall|id: NodeId|
            id.ix() < n1.len() ==> #[trigger] entry_key(n2, blob, id) == entry_key(n1, blob, id),
        forall|s: Seq<NodeId>|
            (forall|i: int| 0 <= i < s.len() ==> (#[trigger] s[i]).ix() < n1.len()) ==> (
            #[trigger] sorted_ids(n2, blob, s) <==> sorted_ids(n1, blob, s)),
{
    assert forall|id: NodeId| id.ix() < n1.len() implies #[trigger] entry_key(n2, blob, id) == entry_key(
        n1,
        blob,
        id,
    ) by {
        assert(n2[id.ix()].same_entry(n1[id.ix()]));
    }
    assert forall|s: Seq<NodeId>|
        (forall|i: int| 0 <= i < s.len() ==> (#[trigger] s[i]).ix() < n1.len()) implies (
    #[trigger] sorted_ids(n2, blob, s) <==> sorted_ids(n1, blob, s)) by {
        assert forall|i: int| 0 <= i < s.len() implies entry_key(n2, blob, #[trigger] s[i]) == entry_key(
            n1,
            blob,
            s[i],
        ) by {}
    }
}

/// Relinking more nodes, or relinking twice.
pub proof fn lemma_relinked_trans(n1: Seq<Node>, n2: Seq<Node>, n3: Seq<Node>, a: Seq<NodeId>, b: Seq<NodeId>, c: Seq<NodeId>)
    requires
        relinked(n1, n2, a),
        relinked(n2, n3, b),
        forall|x: NodeId| #[trigger] a.contains(x) ==> c.contains(x),
        forall|x: NodeId| #[trigger] b.contains(x) ==> c.contains(x),
    ensures
        relinked(n1, n3, c),
{
    assert forall|j: int| 0 <= j < n1.len() implies (#[trigger] n3[j]).same_entry(n1[j]) by {
        assert(n2[j].same_entry(n1[j]));
    }
    assert forall|j: int| 0 <= j < n1.len() && !c.contains(NodeId { raw: j as u32 }) implies #[trigger] n3[j]
        == n1[j] by {
        assert(!a.contains(NodeId { raw: j as u32 }));
        assert(!b.contains(NodeId { raw: j as u32 }));
        assert(n2[j] == n1[j]);
    }
}

/// The parts of a tree without repeated nodes share no node.
pub proof fn lemma_distinct_node(id: NodeId, l: Tree, r: Tree)
    ensures
        ids(Tree::Node(id, Box::new(l), Box::new(r))).no_duplicates() <==> ids(l).no_duplicates() && ids(
            r,
        ).no_duplicates() && !ids(l).contains(id) && !ids(r).contains(id) && (forall|x: NodeId| #[trigger]
            ids(l).contains(x) ==> !ids(r).contains(x)),
        forall|x: NodeId|
            #![trigger cnt(ids(Tree::Node(id, Box::new(l), Box::new(r))), x)]
            cnt(ids(Tree::Node(id, Box::new(l), Box::new(r))), x) == cnt(ids(l), x) + cnt(ids(r), x) + (
            if x == id {
                1nat
            } else {
                0nat
            }),
{
    let t = Tree::Node(id, Box::new(l), Box::new(r));
    let a = ids(l);
    let b = ids(r);
    assert forall|x: NodeId|
        #![trigger cnt(ids(Tree::Node(id, Box::new(l), Box::new(r))), x)]
        cnt(ids(t), x) == cnt(a, x) + cnt(b, x) + (if x == id {
            1nat
        } else {
            0nat
        }) by {
        lemma_ids_node(id, l, r);
        lemma_cnt_concat(a + seq![id], b, x);
        assert(a + seq![id] =~= a.push(id));
        lemma_cnt_push(a, id, x);
    }
    lemma_cnt_no_duplicates(ids(t));
    lemma_cnt_no_duplicates(a);
    lemma_cnt_no_duplicates(b);
    if ids(t).no_duplicates() {
        assert forall|x: NodeId| #[trigger] cnt(a, x) <= 1 by {
            assert(cnt(ids(t), x) <= 1);
        }
        assert forall|x: NodeId| #[trigger] cnt(b, x) <= 1 by {
            assert(cnt(ids(t), x) <= 1);
        }
        assert(cnt(ids(t), id) <= 1);
        lemma_cnt_contains(a, id);
        lemma_cnt_contains(b, id);
        assert forall|x: NodeId| #[trigger] a.contains(x) implies !b.contains(x) by {
            assert(cnt(ids(t), x) <= 1);
            lemma_cnt_contains(a, x);
            lemma_cnt_contains(b, x);
        }
    }
    if a.no_duplicates() && b.no_duplicates() && !a.contains(id) && !b.contains(id) && (forall|x: NodeId|
        #[trigger] a.contains(x) ==> !b.contains(x)) {
        assert forall|x: NodeId| #[trigger] cnt(ids(t), x) <= 1 by {
            lemma_cnt_contains(a, x);
            lemma_cnt_contains(b, x);
            assert(cnt(a, x) <= 1);
            assert(cnt(b, x) <= 1);
        }
    }
}

/// The nodes of several trees, one tree after the other.
spec fn forest(ts: Seq<Tree>) -> Seq<NodeId>
    decreases ts.len(),
{
    if ts.len() == 0 {
        Seq::empty()
    } else {
        forest(ts.drop_last()) + ids(ts.last())
    }
}

proof fn lemma_forest_push(ts: Seq<Tree>, t: Tree, x: NodeId)
    ensures
        cnt(forest(ts.push(t)), x) == cnt(forest(ts), x) + cnt(ids(t), x),
        forest(ts.push(t)).len() == forest(ts).len() + ids(t).len(),
{
    assert(ts.push(t).drop_last() =~= ts);
    lemma_cnt_concat(forest(ts), ids(t), x);
}

impl NodeArena {
    /// Appends the ids of every node reachable from `root`, in unspecified order.
    ///
    /// Iterative rather than recursive: a degenerate unbalanced bucket can be thousands of nodes
    /// deep, and this runs during eviction when the stack is already committed.
    pub fn collect_subtree(&self, root: NodeId, out: &mut Vec<NodeId>)
        requires
            self.wf(),
            linked(self.nodes(), root, tree_of(self.nodes(), root)),
        ensures
            final(out)@.len() == old(out)@.len() + ids(tree_of(self.nodes(), root)).len(),
            final(out)@.take(old(out)@.len() as int) == old(out)@,
            forall|x: NodeId| #[trigger]
                cnt(final(out)@, x) == cnt(old(out)@, x) + cnt(ids(tree_of(self.nodes(), root)), x),
    {
        let ghost t = tree_of(self.nodes(), root);
        let ghost o0 = out@;
        let ghost nodes = self.nodes();
        if root.is_none() {
            proof {
                self.lemma_wf();
                assert(out@.take(o0.len() as int) =~= o0);
                assert forall|x: NodeId| #[trigger] cnt(out@, x) == cnt(o0, x) + cnt(ids(t), x) by {}
            }
            return;
        }
        let mut stack: Vec<NodeId> = Vec::new();
        stack.push(root);
        let ghost mut ts: Seq<Tree> = seq![t];
        proof {
            assert(ts =~= Seq::<Tree>::empty().push(t));
            assert forall|x: NodeId| #[trigger] cnt(out@, x) + cnt(forest(ts), x) == cnt(o0, x) + cnt(
                ids(t),
                x,
            ) by {
                lemma_forest_push(Seq::empty(), t, x);
            }
            lemma_forest_push(Seq::empty(), t, root);
            assert(out@.take(o0.len() as int) =~= o0);
        }
        while stack.len() > 0
            invariant
                self.wf(),
                nodes == self.nodes(),
                ts.len() == stack@.len(),
                forall|k: int|
                    0 <= k < ts.len() ==> linked(nodes, #[trigger] stack@[k], ts[k]) && stack@[k]
                        != NodeId::none(),
                out@.len() + forest(ts).len() == o0.len() + ids(t).len(),
                out@.len() >= o0.len(),
                out@.take(o0.len() as int) == o0,
                forall|x: NodeId| #[trigger]
                    cnt(out@, x) + cnt(forest(ts), x) == cnt(o0, x) + cnt(ids(t), x),
            decreases forest(ts).len(),
        {
            let ghost outb = out@;
            let ghost tsb = ts;
            let popped = stack.pop();
            let id: NodeId = match popped {
                Some(id) => id,
                None => NodeId::none(),
            };
            let ghost top = ts.last();
            proof {
                assert(linked(nodes, id, top));
                ts = ts.drop_last();
                assert(tsb =~= ts.push(top));
            }
            let ghost (l, r) = match top {
                Tree::Leaf => (Tree::Leaf, Tree::Leaf),
                Tree::Node(i, l, r) => (*l, *r),
            };
            out.push(id);
            let n = *self.get(id);
            let ghost ts1 = ts;
            if n.left.is_some() {
                stack.push(n.left);
                proof {
                    ts = ts.push(l);
                }
            }
            let ghost ts2 = ts;
            if n.right.is_some() {
                stack.push(n.right);
                proof {
                    ts = ts.push(r);
                }
            }
            proof {
                assert(out@.take(o0.len() as int) =~= outb.take(o0.len() as int));
                assert(top == Tree::Node(id, Box::new(l), Box::new(r)));
                self.lemma_wf();
                assert(linked(nodes, n.left, l) && linked(nodes, n.right, r));
                assert(n.left == NodeId::none() ==> l == Tree::Leaf);
                assert(n.right == NodeId::none() ==> r == Tree::Leaf);
                lemma_ids_node(id, l, r);
                lemma_forest_push(ts1, top, id);
                lemma_forest_push(ts1, l, id);
                lemma_forest_push(ts2, r, id);
                assert forall|x: NodeId| #[trigger] cnt(out@, x) + cnt(forest(ts), x) == cnt(o0, x) + cnt(
                    ids(t),
                    x,
                ) by {
                    assert(cnt(outb, x) + cnt(forest(tsb), x) == cnt(o0, x) + cnt(ids(t), x));
                    lemma_cnt_push(outb, id, x);
                    lemma_forest_push(ts1, top, x);
                    lemma_forest_push(ts1, l, x);
                    lemma_forest_push(ts2, r, x);
                    lemma_distinct_node(id, l, r);
                }
            }
        }
        proof {
            assert forall|x: NodeId| #[trigger] cnt(out@, x) == cnt(o0, x) + cnt(ids(t), x) by {
                assert(cnt(out@, x) + cnt(forest(ts), x) == cnt(o0, x) + cnt(ids(t), x));
            }
        }
    }
}

} // verus!
