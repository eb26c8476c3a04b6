//! The memo table.

use dpbst_core::cache::arena::{NodeArena, NodeId, Verdict};
use dpbst_core::cache::{
    hash_key, witness_len_for, Avl, BucketPolicy, CacheStats, Chain, ComponentCache, Splay, TableShape, Unbalanced,
    DEFAULT_BUDGET_BYTES, DEFAULT_TARGET_LOAD,
};
use dpbst_core::varint::write_u32;

/// Mean depth of an entry within its bucket.
fn mean_depth(shape: &TableShape) -> f64 {
    if shape.entries == 0 {
        0.0
    } else {
        shape.depth_total as f64 / shape.entries as f64
    }
}

/// Fraction of lookups answered from the memo.
fn hit_rate(s: &CacheStats) -> f64 {
    if s.lookups == 0 {
        0.0
    } else {
        s.hits as f64 / s.lookups as f64
    }
}

/// Builds a key in the format the cache expects: variable count first.
fn key_for(num_vars: u32, tag: u32) -> Vec<u8> {
    let mut k = Vec::new();
    write_u32(&mut k, num_vars);
    write_u32(&mut k, tag);
    k
}

fn cache<P: BucketPolicy>() -> ComponentCache<P> {
    ComponentCache::<P>::new(DEFAULT_BUDGET_BYTES, DEFAULT_TARGET_LOAD)
}

#[test]
fn hash_avalanches() {
    // Inputs one bit apart must not land in the same bucket or adjacent tree positions.
    let a = hash_key(&[1, 0, 0, 0]);
    let b = hash_key(&[0, 0, 0, 0]);
    assert_ne!(a, b);
    let differing_bits = (a ^ b).count_ones();
    assert!(
        (16..=48).contains(&differing_bits),
        "poor avalanche: {differing_bits} bits"
    );
}

#[test]
fn hash_is_deterministic_and_length_sensitive() {
    assert_eq!(hash_key(b"abc"), hash_key(b"abc"));
    assert_ne!(hash_key(b"abc"), hash_key(b"abc\0"));
    assert_ne!(hash_key(b""), hash_key(b"\0"));
}

fn round_trip_for<P: BucketPolicy>() {
    let mut c = cache::<P>();
    assert!(c.is_empty());

    let k1 = key_for(8, 1);
    let k2 = key_for(8, 2);
    assert!(
        c.lookup(hash_key(&k1), &k1).is_none(),
        "{}: empty table",
        P::name()
    );

    c.insert(hash_key(&k1), &k1, Verdict::Sat, &[0b0000_1101]);
    c.insert(hash_key(&k2), &k2, Verdict::Unsat, &[]);
    assert_eq!(c.len(), 2);

    let hit = c.lookup(hash_key(&k1), &k1).expect("k1 present");
    assert_eq!(c.verdict(hit), Verdict::Sat, "{}", P::name());
    assert_eq!(c.witness(hit), &[0b0000_1101], "{}", P::name());

    let hit2 = c.lookup(hash_key(&k2), &k2).expect("k2 present");
    assert_eq!(c.verdict(hit2), Verdict::Unsat, "{}", P::name());

    let absent = key_for(8, 99);
    assert!(
        c.lookup(hash_key(&absent), &absent).is_none(),
        "{}",
        P::name()
    );
}

#[test]
fn every_policy_round_trips() {
    round_trip_for::<Avl>();
    round_trip_for::<Unbalanced>();
    round_trip_for::<Splay>();
    round_trip_for::<Chain>();
}

fn bulk_for<P: BucketPolicy>(n: u32) {
    let mut c = cache::<P>();
    for i in 0..n {
        let k = key_for(16, i);
        c.insert(
            hash_key(&k),
            &k,
            if i % 3 == 0 {
                Verdict::Sat
            } else {
                Verdict::Unsat
            },
            &[i as u8, 0],
        );
    }
    assert_eq!(c.len(), n as usize, "{}", P::name());

    for i in 0..n {
        let k = key_for(16, i);
        let hit = c
            .lookup(hash_key(&k), &k)
            .unwrap_or_else(|| panic!("{}: missing {i}", P::name()));
        let expected = if i % 3 == 0 {
            Verdict::Sat
        } else {
            Verdict::Unsat
        };
        assert_eq!(
            c.verdict(hit),
            expected,
            "{}: wrong verdict for {i}",
            P::name()
        );
        if expected == Verdict::Sat {
            assert_eq!(
                c.witness(hit),
                &[i as u8, 0],
                "{}: wrong witness for {i}",
                P::name()
            );
        }
    }
    for i in n..n * 2 {
        let k = key_for(16, i);
        assert!(
            c.lookup(hash_key(&k), &k).is_none(),
            "{}: phantom hit {i}",
            P::name()
        );
    }
}

#[test]
fn every_policy_survives_bulk_traffic_and_resizes() {
    // 20_000 entries against 1024 initial buckets forces several resizes.
    bulk_for::<Avl>(20_000);
    bulk_for::<Unbalanced>(20_000);
    bulk_for::<Splay>(20_000);
    bulk_for::<Chain>(20_000);
}

#[test]
fn avl_keeps_buckets_logarithmic() {
    let mut c = cache::<Avl>();
    for i in 0..50_000 {
        let k = key_for(8, i);
        c.insert(hash_key(&k), &k, Verdict::Unsat, &[]);
    }
    let shape = c.shape();
    assert!(shape.entries > 0);
    // AVL height is at most 1.44 * log2(n + 2); for a bucket of ~4 entries that is tiny.
    let bound = 1.44 * ((shape.max_bucket + 2) as f64).log2() + 1.0;
    assert!(
        shape.max_depth as f64 <= bound,
        "AVL depth {} exceeds the height bound {bound:.2} for {} entries",
        shape.max_depth,
        shape.max_bucket
    );
}

#[test]
fn tree_policies_are_shallower_than_chaining_at_high_load() {
    // Force long buckets by refusing to grow the table, which is the regime where the whole
    // premise of the project is supposed to pay off.
    let entries = 20_000_u32;
    let mut avl = ComponentCache::<Avl>::new(DEFAULT_BUDGET_BYTES, usize::MAX);
    let mut chain = ComponentCache::<Chain>::new(DEFAULT_BUDGET_BYTES, usize::MAX);
    for i in 0..entries {
        let k = key_for(8, i);
        let h = hash_key(&k);
        avl.insert(h, &k, Verdict::Unsat, &[]);
        chain.insert(h, &k, Verdict::Unsat, &[]);
    }
    let (a, c) = (avl.shape(), chain.shape());
    assert_eq!(a.buckets, 1024);
    assert_eq!(c.buckets, 1024);
    assert!(
        mean_depth(&a) * 2.0 < mean_depth(&c),
        "expected AVL to be far shallower: avl {:.2} vs chain {:.2}",
        mean_depth(&a),
        mean_depth(&c)
    );
}

#[test]
fn eviction_keeps_reused_entries_and_drops_cold_ones() {
    // A budget small enough that inserts trigger sweeps almost immediately.
    let mut c = ComponentCache::<Avl>::new(64 * 1024, DEFAULT_TARGET_LOAD);
    let hot = key_for(8, 0);
    c.insert(hash_key(&hot), &hot, Verdict::Sat, &[1]);

    for i in 1..5_000 {
        let k = key_for(8, i);
        c.insert(hash_key(&k), &k, Verdict::Unsat, &[]);
        // Keep touching the hot key so its activity counter stays ahead of the sweeps.
        c.lookup(hash_key(&hot), &hot);
    }

    assert!(
        c.stats().sweeps > 0,
        "the budget should have forced at least one sweep"
    );
    assert!(
        c.stats().evicted > 0,
        "sweeps should have dropped cold entries"
    );
    assert!(
        c.lookup(hash_key(&hot), &hot).is_some(),
        "the repeatedly reused entry should have survived"
    );
    assert!(
        c.len() < 5_000,
        "the table should be smaller than the number of inserts"
    );
}

/// The memory budget must actually bound the table.
///
/// A sweep that drops some entries and keeps others has made room, so the budget stays as it is;
/// it grows only where a sweep finds nothing to drop.
#[test]
fn the_memory_budget_is_respected_under_sustained_pressure() {
    const BUDGET: usize = 256 * 1024;
    const INSERTS: u32 = 400_000;
    let mut c = ComponentCache::<Avl>::new(BUDGET, DEFAULT_TARGET_LOAD);

    for i in 0..INSERTS {
        let k = key_for(64, i);
        c.insert(hash_key(&k), &k, Verdict::Unsat, &[]);
        // Warm one entry in ten. A sweep must then find both survivors *and* victims.
        if i % 10 == 0 {
            c.lookup(hash_key(&k), &k);
        }
    }

    assert!(
        c.stats().sweeps > 0,
        "sustained inserts should have forced sweeps"
    );
    assert!(
        c.stats().evicted > 0,
        "sweeps should have dropped the cold entries"
    );
    assert!(
        c.live_bytes() <= BUDGET * 4,
        "live bytes {} escaped the {BUDGET}-byte budget after {} sweeps \
         ({} entries retained of {INSERTS})",
        c.live_bytes(),
        c.stats().sweeps,
        c.len()
    );
}

/// Freed key bytes have to be reclaimed, not merely marked dead.
#[test]
fn sweeping_reclaims_the_key_blob() {
    let mut c = ComponentCache::<Avl>::new(128 * 1024, DEFAULT_TARGET_LOAD);
    for i in 0..80_000_u32 {
        let k = key_for(32, i);
        c.insert(hash_key(&k), &k, Verdict::Unsat, &[]);
    }
    assert!(c.stats().sweeps > 0);

    // Every surviving entry must still be readable after its bytes were moved.
    let mut readable = 0;
    for i in 0..80_000_u32 {
        let k = key_for(32, i);
        if let Some(node) = c.lookup(hash_key(&k), &k) {
            assert_eq!(c.verdict(node), Verdict::Unsat);
            readable += 1;
        }
    }
    assert_eq!(
        readable,
        c.len(),
        "every live entry must survive compaction intact"
    );
}

/// Compaction moves witness bytes too, so a satisfiable entry must keep its witness.
#[test]
fn compaction_preserves_witnesses() {
    let mut c = ComponentCache::<Avl>::new(128 * 1024, DEFAULT_TARGET_LOAD);
    let witness_of = |i: u32| [i as u8, (i >> 8) as u8];

    for i in 0..60_000_u32 {
        let k = key_for(16, i);
        c.insert(hash_key(&k), &k, Verdict::Sat, &witness_of(i));
        // Keep the early entries hot so some of them survive the sweeps.
        if i % 500 == 0 {
            let hot = key_for(16, 0);
            c.lookup(hash_key(&hot), &hot);
        }
    }
    assert!(c.stats().sweeps > 0);

    let mut checked = 0;
    for i in 0..60_000_u32 {
        let k = key_for(16, i);
        if let Some(node) = c.lookup(hash_key(&k), &k) {
            assert_eq!(c.verdict(node), Verdict::Sat);
            assert_eq!(
                c.witness(node),
                witness_of(i),
                "witness corrupted for entry {i}"
            );
            checked += 1;
        }
    }
    assert!(checked > 0, "expected some entries to survive");
}

#[test]
fn distinct_keys_sharing_a_hash_are_not_confused() {
    // Correctness must not rest on the hash. Force two different keys into the same tree
    // position by handing the cache a hash it did not compute.
    let mut c = cache::<Avl>();
    let k1 = key_for(8, 1);
    let k2 = key_for(8, 2);
    c.insert(7, &k1, Verdict::Sat, &[0xaa]);
    c.insert(7, &k2, Verdict::Unsat, &[]);

    let a = c.lookup(7, &k1).expect("k1");
    let b = c.lookup(7, &k2).expect("k2");
    assert_ne!(a, b);
    assert_eq!(c.verdict(a), Verdict::Sat);
    assert_eq!(c.verdict(b), Verdict::Unsat);
}

#[test]
fn stats_track_hits_and_misses() {
    let mut c = cache::<Avl>();
    let k = key_for(8, 1);
    c.lookup(hash_key(&k), &k);
    c.insert(hash_key(&k), &k, Verdict::Unsat, &[]);
    c.lookup(hash_key(&k), &k);
    c.lookup(hash_key(&k), &k);

    let s = c.stats();
    assert_eq!(s.lookups, 3);
    assert_eq!(s.hits, 2);
    assert_eq!(s.inserts, 1);
    assert!((hit_rate(&s) - 2.0 / 3.0).abs() < 1e-9);
}

#[test]
fn clearing_empties_the_table() {
    let mut c = cache::<Avl>();
    let k = key_for(8, 1);
    c.insert(hash_key(&k), &k, Verdict::Unsat, &[]);
    c.clear();
    assert!(c.is_empty());
    assert!(c.lookup(hash_key(&k), &k).is_none());
}

#[test]
fn witness_length_is_recovered_from_the_key() {
    assert_eq!(witness_len_for(&key_for(0, 0)), 0);
    assert_eq!(witness_len_for(&key_for(1, 0)), 1);
    assert_eq!(witness_len_for(&key_for(8, 0)), 1);
    assert_eq!(witness_len_for(&key_for(9, 0)), 2);
    assert_eq!(witness_len_for(&key_for(1000, 0)), 125);
}

fn root_after_inserts<P: BucketPolicy>(arena: &mut NodeArena, hashes: &[u64]) -> (NodeId, Vec<NodeId>) {
    let mut root = NodeId::none();
    let mut ids = Vec::new();
    for &h in hashes {
        let id = arena.allocate(h, &[1], Verdict::Unsat, &[]);
        P::insert(arena, &mut root, id, h, &[1]);
        ids.push(id);
    }
    (root, ids)
}

#[test]
fn splaying_brings_up_what_was_reached_last() {
    let mut arena = NodeArena::new();
    let (mut root, ids) = root_after_inserts::<Splay>(&mut arena, &[10, 20, 30]);
    assert_eq!(root, ids[2], "a new entry is the root");
    assert_eq!(Splay::lookup(&mut arena, &mut root, 10, &[1]), ids[0]);
    assert_eq!(root, ids[0], "a found entry is the root");
    assert!(Splay::lookup(&mut arena, &mut root, 15, &[1]).is_none());
    assert_eq!(root, ids[1], "a miss brings up the last entry on its path");
}

#[test]
fn the_other_policies_leave_the_root_to_lookups() {
    let mut arena = NodeArena::new();
    let (mut root, ids) = root_after_inserts::<Chain>(&mut arena, &[10, 20, 30]);
    assert_eq!(root, ids[2], "a chain grows at its head");
    assert_eq!(Chain::lookup(&mut arena, &mut root, 10, &[1]), ids[0]);
    assert_eq!(root, ids[2]);

    let (mut root, ids) = root_after_inserts::<Unbalanced>(&mut arena, &[10, 20, 30]);
    assert_eq!(root, ids[0], "an unbalanced tree grows at its leaves");
    assert_eq!(Unbalanced::lookup(&mut arena, &mut root, 30, &[1]), ids[2]);
    assert_eq!(root, ids[0]);

    let (mut root, ids) = root_after_inserts::<Avl>(&mut arena, &[10, 20, 30]);
    assert_eq!(root, ids[1], "a run of three is rotated");
    assert_eq!(Avl::lookup(&mut arena, &mut root, 30, &[1]), ids[2]);
    assert_eq!(root, ids[1]);
}

fn shape_for<P: BucketPolicy>(n: u32, spread: u64) -> TableShape {
    let mut c = cache::<P>();
    for i in 0..n {
        c.insert(u64::from(i) * spread, &key_for(8, i), Verdict::Unsat, &[]);
    }
    let s = c.shape();
    assert!(s.buckets.is_power_of_two() && s.buckets >= 1024);
    assert_eq!(s.entries, n as usize);
    assert!(s.occupied <= s.buckets && s.occupied <= s.entries);
    assert!(s.max_depth <= s.max_bucket && s.max_bucket <= s.entries);
    s
}

#[test]
fn the_measurements_of_a_table_fit_together() {
    for n in [0, 1, 100, 5000] {
        for spread in [1, 0x1_0000] {
            shape_for::<Unbalanced>(n, spread);
            shape_for::<Splay>(n, spread);
            shape_for::<Chain>(n, spread);
            let s = shape_for::<Avl>(n, spread);
            // The fewest entries that a balanced tree of the depth can have.
            let (mut fewest, mut before) = (0, 0);
            for h in 1..=s.max_depth {
                let next = if h == 1 { 1 } else { 1 + fewest + before };
                before = fewest;
                fewest = next;
            }
            assert!(fewest <= s.max_bucket);
        }
    }
}

#[test]
fn splaying_turns_twice_at_a_time() {
    let mut arena = NodeArena::new();
    let (mut root, ids) = root_after_inserts::<Splay>(&mut arena, &[10, 20, 30, 40]);
    assert_eq!(root, ids[3]);
    assert_eq!(arena.get(ids[3]).left, ids[2]);
    assert_eq!(arena.get(ids[2]).left, ids[1]);
    assert_eq!(arena.get(ids[1]).left, ids[0]);

    // The key lies twice to the left: the grandparent is turned before the parent.
    assert_eq!(Splay::lookup(&mut arena, &mut root, 10, &[1]), ids[0]);
    assert_eq!(root, ids[0]);
    assert!(arena.get(ids[0]).left.is_none());
    assert_eq!(arena.get(ids[0]).right, ids[2]);
    assert_eq!(arena.get(ids[2]).left, ids[1]);
    assert_eq!(arena.get(ids[2]).right, ids[3]);

    // The key lies to the right and then to the left: the parent is turned first.
    assert_eq!(Splay::lookup(&mut arena, &mut root, 20, &[1]), ids[1]);
    assert_eq!(root, ids[1]);
    assert_eq!(arena.get(ids[1]).left, ids[0]);
    assert_eq!(arena.get(ids[1]).right, ids[2]);
    assert!(arena.get(ids[2]).left.is_none());
    assert_eq!(arena.get(ids[2]).right, ids[3]);
}

#[test]
fn splaying_splits_the_tree_around_a_new_entry() {
    let mut arena = NodeArena::new();
    let (root, ids) = root_after_inserts::<Splay>(&mut arena, &[10, 30, 20]);
    assert_eq!(root, ids[2]);
    assert_eq!(arena.get(ids[2]).left, ids[0]);
    assert_eq!(arena.get(ids[2]).right, ids[1]);
}

#[test]
fn a_chain_is_as_deep_as_it_is_long() {
    for spread in [0, 1, 0x1_0000] {
        let s = shape_for::<Chain>(200, spread);
        assert_eq!(s.max_depth, s.max_bucket);
    }
}

#[test]
fn balancing_rotates_inwards_leaning_children_first() {
    let mut arena = NodeArena::new();
    let (root, ids) = root_after_inserts::<Avl>(&mut arena, &[30, 10, 20]);
    assert_eq!(root, ids[2]);
    assert_eq!(arena.get(root).left, ids[1]);
    assert_eq!(arena.get(root).right, ids[0]);

    let (root, ids) = root_after_inserts::<Avl>(&mut arena, &[20, 10, 40, 30, 50, 60]);
    assert_eq!(root, ids[2], "the right side grew by two");
    assert_eq!((arena.get(root).left, arena.get(root).right), (ids[0], ids[4]));
    assert_eq!((arena.get(ids[0]).left, arena.get(ids[0]).right), (ids[1], ids[3]));
    assert_eq!(arena.get(ids[4]).right, ids[5]);
}
