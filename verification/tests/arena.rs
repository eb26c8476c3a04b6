//! The node arena behind the memo.

use dpbst_core::cache::arena::{Node, NodeArena, NodeId, Verdict};

#[test]
fn node_is_exactly_one_cache_line_quarter() {
    // The layout claim in this module's docs is load-bearing for the benchmark numbers, so
    // it is asserted rather than trusted.
    assert_eq!(std::mem::size_of::<Node>(), 32);
    assert_eq!(std::mem::align_of::<Node>(), 8);
}

#[test]
fn alloc_stores_key_and_witness_contiguously() {
    let mut a = NodeArena::new();
    let id = a.allocate(0xdead_beef, b"key-one", Verdict::Sat, &[0b1010_1010]);
    assert_eq!(a.key(id), b"key-one");
    assert_eq!(a.witness(id, 1), &[0b1010_1010]);
    assert_eq!(a.get(id).verdict(), Verdict::Sat);
    assert_eq!(a.get(id).hash, 0xdead_beef);
}

#[test]
fn unsat_entries_store_no_witness() {
    let mut a = NodeArena::new();
    let id = a.allocate(1, b"k", Verdict::Unsat, &[0xff]);
    assert_eq!(a.get(id).verdict(), Verdict::Unsat);
    // Only the key was written to the blob.
    assert_eq!(a.key(id), b"k");
    assert!(a.memory_bytes() > 0);
}

#[test]
fn freed_slots_are_reused_before_growing() {
    let mut a = NodeArena::new();
    let first = a.allocate(1, b"aa", Verdict::Unsat, &[]);
    let second = a.allocate(2, b"bb", Verdict::Unsat, &[]);
    assert_eq!(a.capacity(), 2);

    a.free(first, 0);
    assert_eq!(a.dead_bytes(), 2);

    let third = a.allocate(3, b"cc", Verdict::Unsat, &[]);
    assert_eq!(third, first, "the free slot should be recycled");
    assert_eq!(a.capacity(), 2, "no growth while the free list is non-empty");
    assert_eq!(a.key(second), b"bb", "recycling must not disturb live nodes");
    assert_eq!(a.key(third), b"cc");
}

#[test]
fn free_list_threads_through_multiple_slots() {
    let mut a = NodeArena::new();
    let ids: Vec<_> = (0..4).map(|i| a.allocate(i, b"x", Verdict::Unsat, &[])).collect();
    for &id in &ids {
        a.free(id, 0);
    }
    // All four come back before any new slot is allocated.
    let reused: Vec<_> = (0..4).map(|i| a.allocate(i, b"y", Verdict::Unsat, &[])).collect();
    assert_eq!(a.capacity(), 4);
    let mut sorted = reused;
    sorted.sort_unstable();
    let mut expected = ids;
    expected.sort_unstable();
    assert_eq!(sorted, expected);
}

#[test]
fn collect_subtree_walks_every_node() {
    let mut a = NodeArena::new();
    let root = a.allocate(2, b"r", Verdict::Unsat, &[]);
    let l = a.allocate(1, b"l", Verdict::Unsat, &[]);
    let r = a.allocate(3, b"rr", Verdict::Unsat, &[]);
    a.get_mut(root).left = l;
    a.get_mut(root).right = r;

    let mut out = Vec::new();
    a.collect_subtree(root, &mut out);
    out.sort_unstable();
    let mut expected = vec![root, l, r];
    expected.sort_unstable();
    assert_eq!(out, expected);

    let mut empty = Vec::new();
    a.collect_subtree(NodeId::none(), &mut empty);
    assert!(empty.is_empty());
}
