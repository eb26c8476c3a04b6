//! What the memo keeps, what it drops, and when it grows.

use vstd::prelude::*;
use super::arena::{witness_len, NodeId, Verdict};
use super::links::{ids, Tree};
use super::table::{decayed, depth_sum, measured, Memo};
use super::tree::tree_height;

verus! {

/// What storing an entry does: the entry is there, with its verdict, and for a satisfiable component
/// with a bit for each variable. The other entries stay and say what they said; where the table is
/// swept first, those go that were not used since the last sweep, and the others are half as active.
pub proof fn lemma_storing_keeps_what_is_used(
    o: Memo,
    n: Memo,
    hash: u64,
    key: Seq<u8>,
    verdict: Verdict,
    witness: Seq<u8>,
    other: (u64, Seq<u8>),
)
    requires
        n.stored_from(o, hash, key, verdict, witness),
        verdict == Verdict::Sat ==> witness.len() >= witness_len(key),
        other != (hash, key),
        o.stats.sweeps < u64::MAX,
    ensures
        n.map.contains_key((hash, key)),
        n.map[(hash, key)].verdict == verdict,
        n.map[(hash, key)].activity == 1,
        verdict == Verdict::Sat ==> n.map[(hash, key)].witness.len() == witness_len(key) && forall|i: int|
            0 <= i < witness_len(key) ==> #[trigger] n.map[(hash, key)].witness[i] == witness[i],
        n.map.contains_key(other) <==> o.map.contains_key(other) && (n.stats.sweeps > o.stats.sweeps
            ==> o.map[other].activity >= 2),
        n.map.contains_key(other) ==> {
            &&& n.map[other].verdict == o.map[other].verdict
            &&& n.map[other].witness == o.map[other].witness
            &&& n.stats.sweeps == o.stats.sweeps ==> n.map[other].activity == o.map[other].activity
            &&& n.stats.sweeps > o.stats.sweeps ==> n.map[other].activity == o.map[other].activity / 2
        },
{
}

/// The table is swept exactly where its entries, 32 bytes each, its keys and its slots, four bytes
/// each, take up the budget. Only where a sweep frees nothing does the budget grow.
pub proof fn lemma_sweeps_keep_the_budget(o: Memo, n: Memo, hash: u64, key: Seq<u8>, verdict: Verdict, witness: Seq<u8>)
    requires
        n.stored_from(o, hash, key, verdict, witness),
        0 <= o.budget <= usize::MAX,
        0 <= o.blob,
        0 <= o.size,
        0 <= o.slots,
        o.stats.sweeps < u64::MAX,
    ensures
        n.stats.sweeps == o.stats.sweeps || n.stats.sweeps == o.stats.sweeps + 1,
        n.stats.sweeps > o.stats.sweeps <==> 32 * o.size + o.blob + 4 * n.slots >= o.budget,
        n.stats.sweeps == o.stats.sweeps ==> n.budget == o.budget && n.size == o.size + 1,
        n.stats.sweeps > o.stats.sweeps && n.size <= o.size ==> n.budget == o.budget,
        n.stats.sweeps > o.stats.sweeps && n.size == o.size + 1 && o.size > 0 && 2 * o.budget <= usize::MAX ==> n.budget
            == 2 * o.budget,
        n.budget >= o.budget,
{
}

/// Entries are neither lost nor counted twice: what was there and the new one are there or were
/// evicted.
pub proof fn lemma_evictions_add_up(o: Memo, n: Memo, hash: u64, key: Seq<u8>, verdict: Verdict, witness: Seq<u8>)
    requires
        n.stored_from(o, hash, key, verdict, witness),
        0 <= o.size <= u64::MAX,
        1 <= n.size,
        o.stats.inserts < u64::MAX,
        n.stats.evicted < u64::MAX,
    ensures
        n.size + (n.stats.evicted - o.stats.evicted) == o.size + 1,
        n.stats.inserts == o.stats.inserts + 1,
        n.stats.lookups == o.stats.lookups,
        n.stats.hits == o.stats.hits,
        n.stats.evicted > o.stats.evicted ==> n.stats.sweeps > o.stats.sweeps || o.stats.sweeps == u64::MAX,
{
}

/// The slots double where the entries have reached the target load, and only there; so there are never
/// more entries than the target load for each slot, as long as the slots can double.
pub proof fn lemma_growth_keeps_the_load(o: Memo, n: Memo, hash: u64, key: Seq<u8>, verdict: Verdict, witness: Seq<u8>)
    requires
        n.stored_from(o, hash, key, verdict, witness),
        1 <= o.load,
        1 <= o.slots <= usize::MAX / 2,
        o.size <= o.slots * o.load,
        o.stats.resizes < u64::MAX,
    ensures
        n.load == o.load,
        n.slots == o.slots || n.slots == 2 * o.slots,
        n.slots == 2 * o.slots <==> o.size == o.slots * o.load,
        n.size <= n.slots * n.load,
        n.stats.resizes - o.stats.resizes == (if n.slots == o.slots {
            0int
        } else {
            1int
        }),
{
    let (s, l) = (o.slots, o.load);
    assert((2 * s) * l == 2 * (s * l)) by (nonlinear_arith);
    assert(s * l >= 1) by (nonlinear_arith)
        requires
            s >= 1,
            l >= 1,
    ;
}

/// A lookup that finds the entry makes it more active, and one that does not finds the memo as it was.
/// Neither changes what any entry says.
pub proof fn lemma_lookups_change_no_answer(o: Memo, k: (u64, Seq<u8>), other: (u64, Seq<u8>))
    requires
        o.map.contains_key(k),
        o.stats.lookups < u64::MAX,
        o.stats.hits < u64::MAX,
    ensures
        o.touched(k).map.dom() == o.map.dom(),
        o.touched(k).map[k].verdict == o.map[k].verdict,
        o.touched(k).map[k].witness == o.map[k].witness,
        o.map[k].activity < u16::MAX ==> o.touched(k).map[k].activity == o.map[k].activity + 1,
        o.touched(k).map[k].activity >= o.map[k].activity,
        other != k && o.map.contains_key(other) ==> o.touched(k).map[other] == o.map[other],
        o.touched(k).stats.lookups == o.stats.lookups + 1,
        o.touched(k).stats.hits == o.stats.hits + 1,
        o.missed().map == o.map,
        o.missed().stats.lookups == o.stats.lookups + 1,
        o.missed().stats.hits == o.stats.hits,
        o.touched(k).size == o.size && o.missed().size == o.size,
        o.touched(k).slots == o.slots && o.missed().slots == o.slots,
        o.touched(k).budget == o.budget && o.missed().budget == o.budget,
{
    assert(o.touched(k).map.dom() =~= o.map.dom());
}

/// One use saves an entry: a new entry that was looked up once survives the next sweep, and one that was
/// not does not.
pub proof fn lemma_one_use_saves_an_entry(
    o: Memo,
    n: Memo,
    hash: u64,
    key: Seq<u8>,
    verdict: Verdict,
    witness: Seq<u8>,
)
    requires
        n.stored_from(o, hash, key, verdict, witness),
    ensures
        !decayed(n.map).contains_key((hash, key)),
        decayed(n.touched((hash, key)).map).contains_key((hash, key)),
        decayed(n.touched((hash, key)).map)[(hash, key)].verdict == verdict,
{
}

/// What is measured of the buckets: no bucket is larger or deeper than is said, and one is as large and
/// one as deep, where there are any; those that hold something are counted; and one more bucket adds its
/// own depths.
pub proof fn lemma_measurements_fit_the_buckets(trees: Seq<Tree>, b: int)
    ensures
        ({
            let (occupied, largest, deepest, total) = measured(trees);
            &&& 0 <= b < trees.len() ==> ids(trees[b]).len() <= largest && tree_height(trees[b]) <= deepest
            &&& largest > 0 ==> exists|i: int| 0 <= i < trees.len() && ids(#[trigger] trees[i]).len() == largest
            &&& deepest > 0 ==> exists|i: int| 0 <= i < trees.len() && tree_height(#[trigger] trees[i]) == deepest
            &&& occupied == trees.filter(|t: Tree| t != Tree::Leaf).len()
            &&& 0 <= largest && 0 <= deepest
        }),
    decreases trees.len(),
{
    let holds = |t: Tree| t != Tree::Leaf;
    reveal(Seq::filter);
    if trees.len() > 0 {
        let p = trees.drop_last();
        let t = trees.last();
        lemma_measurements_fit_the_buckets(p, b);
        if 0 <= b < p.len() {
            assert(p[b] == trees[b]);
        }
        let (occupied, largest, deepest, total) = measured(trees);
        let (o2, l2, d2, t2) = measured(p);
        assert(trees[trees.len() - 1] == t);
        if largest > 0 && largest == l2 {
            let i = choose|i: int| 0 <= i < p.len() && ids(#[trigger] p[i]).len() == l2;
            assert(trees[i] == p[i]);
        }
        if deepest > 0 && deepest == d2 {
            let i = choose|i: int| 0 <= i < p.len() && tree_height(#[trigger] p[i]) == d2;
            assert(trees[i] == p[i]);
        }
    }
}

/// The depths of a tree's nodes: under a common root each is one more than it was.
pub proof fn lemma_depths_under_a_root(id: NodeId, l: Tree, r: Tree)
    ensures
        depth_sum(Tree::Leaf, 1) == 0,
        depth_sum(Tree::Node(id, Box::new(l), Box::new(r)), 1) == 1 + depth_sum(l, 1) + ids(l).len() + depth_sum(r, 1)
            + ids(r).len(),
{
    lemma_deeper(l, 1);
    lemma_deeper(r, 1);
}

proof fn lemma_deeper(t: Tree, d: int)
    ensures
        depth_sum(t, d + 1) == depth_sum(t, d) + ids(t).len(),
    decreases t,
{
    if let Tree::Node(id, l, r) = t {
        lemma_deeper(*l, d + 1);
        lemma_deeper(*r, d + 1);
        super::links::lemma_ids_node(id, *l, *r);
    }
}

} // verus!
