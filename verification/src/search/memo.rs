//! What the memo may claim about components.

use vstd::prelude::*;
use crate::cache::arena::{witness_len, Verdict};
use crate::cache::table::{decayed, CacheEntry};
use crate::lit::Lit;
use crate::search::component::{deltas, key_bytes, lemma_key_determines_component, var_set, Comp};
use crate::search::frames::{resid_clause, solves};
use crate::semantics::Valuation;
use crate::sorting::ascending32;
use crate::varint::{encode, lemma_encode_len, lemma_round_trip};

verus! {

/// Bit `i` of a bitset.
pub open spec fn bit(w: Seq<u8>, i: int) -> bool {
    (w[i / 8] >> ((i % 8) as u8)) & 1 == 1
}

/// The assignment that a witness stands for: bit `i` is the value of variable `i` of the component.
pub open spec fn witness_valuation(vars: Seq<u32>, w: Seq<u8>) -> Valuation {
    |v: int| exists|i: int| 0 <= i < vars.len() && #[trigger] vars[i] == v && bit(w, i)
}

/// What an entry says of the component is true.
pub open spec fn entry_true(db: Seq<Seq<Lit>>, comp: Comp, e: CacheEntry) -> bool {
    &&& forall|k: int| 0 <= k < comp.clauses.len() ==> #[trigger] comp.clauses[k] < db.len()
    &&& e.verdict == Verdict::Unsat ==> forall|m: Valuation| !#[trigger] solves(db, comp, m)
    &&& e.verdict == Verdict::Sat ==> solves(db, comp, witness_valuation(comp.vars, e.witness))
}

/// Everything the memo says is true of the components its keys name.
pub open spec fn memo_true(db: Seq<Seq<Lit>>, m: Map<(u64, Seq<u8>), CacheEntry>) -> bool {
    forall|k: (u64, Seq<u8>), comp: Comp|
        #![trigger m.contains_key(k), ascending32(comp.vars), ascending32(comp.clauses)]
        m.contains_key(k) && ascending32(comp.vars) && ascending32(comp.clauses) && key_bytes(
            comp.vars,
            comp.clauses,
        ) == k.1 ==> entry_true(db, comp, m[k])
}

/// The key names a component whose variables lie in `w`.
pub open spec fn names_within(key: Seq<u8>, w: Set<int>) -> bool {
    exists|comp: Comp|
        #![trigger ascending32(comp.vars), ascending32(comp.clauses)]
        ascending32(comp.vars) && ascending32(comp.clauses) && key_bytes(comp.vars, comp.clauses) == key
            && var_set(comp.vars).subset_of(w)
}

/// Keys of `b` that `a` does not have name components whose variables lie in `w`.
pub open spec fn new_keys_within(
    a: Map<(u64, Seq<u8>), CacheEntry>,
    b: Map<(u64, Seq<u8>), CacheEntry>,
    w: Set<int>,
) -> bool {
    forall|k: (u64, Seq<u8>)| #[trigger] b.contains_key(k) && !a.contains_key(k) ==> names_within(k.1, w)
}

/// Solving looks only at the clauses of the component.
pub proof fn lemma_solves_grows(db: Seq<Seq<Lit>>, db2: Seq<Seq<Lit>>, comp: Comp, m: Valuation)
    requires
        db.len() <= db2.len(),
        db2.take(db.len() as int) == db,
        forall|k: int| 0 <= k < comp.clauses.len() ==> #[trigger] comp.clauses[k] < db.len(),
    ensures
        solves(db, comp, m) == solves(db2, comp, m),
{
    assert forall|k: int| 0 <= k < comp.clauses.len() implies db[#[trigger] comp.clauses[k] as int]
        == db2[comp.clauses[k] as int] by {
        assert(db2.take(db.len() as int)[comp.clauses[k] as int] == db2[comp.clauses[k] as int]);
    }
    if solves(db, comp, m) {
        assert forall|k: int| 0 <= k < comp.clauses.len() implies resid_clause(
            db2[#[trigger] comp.clauses[k] as int],
            comp.vars,
            m,
        ) by {
            assert(resid_clause(db[comp.clauses[k] as int], comp.vars, m));
        }
    }
    if solves(db2, comp, m) {
        assert forall|k: int| 0 <= k < comp.clauses.len() implies resid_clause(
            db[#[trigger] comp.clauses[k] as int],
            comp.vars,
            m,
        ) by {
            assert(resid_clause(db2[comp.clauses[k] as int], comp.vars, m));
        }
    }
}

/// A remembered verdict stays true for as long as the entry lives, whatever clauses are learned:
/// keys name clauses by index, and indices are never reused.
pub proof fn lemma_memo_outlives_learning(
    db: Seq<Seq<Lit>>,
    db2: Seq<Seq<Lit>>,
    m: Map<(u64, Seq<u8>), CacheEntry>,
)
    requires
        memo_true(db, m),
        db.len() <= db2.len(),
        db2.take(db.len() as int) == db,
    ensures
        memo_true(db2, m),
{
    assert forall|k: (u64, Seq<u8>), comp: Comp|
        #![trigger m.contains_key(k), ascending32(comp.vars), ascending32(comp.clauses)]
        m.contains_key(k) && ascending32(comp.vars) && ascending32(comp.clauses) && key_bytes(
            comp.vars,
            comp.clauses,
        ) == k.1 implies entry_true(db2, comp, m[k]) by {
        assert(entry_true(db, comp, m[k]));
        assert forall|v: Valuation| #[trigger] solves(db2, comp, v) == solves(db, comp, v) by {
            lemma_solves_grows(db, db2, comp, v);
        }
        let w = witness_valuation(comp.vars, m[k].witness);
        assert(solves(db2, comp, w) == solves(db, comp, w));
        if m[k].verdict == Verdict::Unsat {
            assert forall|v: Valuation| !#[trigger] solves(db2, comp, v) by {
                assert(!solves(db, comp, v));
            }
        }
    }
}

/// Recording a true verdict keeps the memo true, because the key determines the component.
pub proof fn lemma_memo_insert(
    db: Seq<Seq<Lit>>,
    m: Map<(u64, Seq<u8>), CacheEntry>,
    hash: u64,
    comp: Comp,
    e: CacheEntry,
)
    requires
        memo_true(db, m),
        ascending32(comp.vars),
        ascending32(comp.clauses),
        entry_true(db, comp, e),
    ensures
        memo_true(db, m.insert((hash, key_bytes(comp.vars, comp.clauses)), e)),
{
    let k0 = (hash, key_bytes(comp.vars, comp.clauses));
    let m2 = m.insert(k0, e);
    assert forall|k: (u64, Seq<u8>), c2: Comp|
        #![trigger m2.contains_key(k), ascending32(c2.vars), ascending32(c2.clauses)]
        m2.contains_key(k) && ascending32(c2.vars) && ascending32(c2.clauses) && key_bytes(
            c2.vars,
            c2.clauses,
        ) == k.1 implies entry_true(db, c2, m2[k]) by {
        if k == k0 {
            lemma_key_determines_component(comp.vars, comp.clauses, c2.vars, c2.clauses);
            assert(c2 == comp);
        } else {
            assert(m.contains_key(k));
        }
    }
}

/// A sweep keeps the memo true.
pub proof fn lemma_memo_decayed(db: Seq<Seq<Lit>>, m: Map<(u64, Seq<u8>), CacheEntry>)
    requires
        memo_true(db, m),
    ensures
        memo_true(db, decayed(m)),
{
    let m2 = decayed(m);
    assert forall|k: (u64, Seq<u8>), comp: Comp|
        #![trigger m2.contains_key(k), ascending32(comp.vars), ascending32(comp.clauses)]
        m2.contains_key(k) && ascending32(comp.vars) && ascending32(comp.clauses) && key_bytes(
            comp.vars,
            comp.clauses,
        ) == k.1 implies entry_true(db, comp, m2[k]) by {
        assert(m.contains_key(k));
        assert(entry_true(db, comp, m[k]));
    }
}

/// Touching an entry keeps the memo true.
pub proof fn lemma_memo_touched(db: Seq<Seq<Lit>>, m: Map<(u64, Seq<u8>), CacheEntry>, k0: (u64, Seq<u8>), activity: u16)
    requires
        memo_true(db, m),
        m.contains_key(k0),
    ensures
        memo_true(db, m.insert(k0, (CacheEntry { activity, ..m[k0] }))),
{
    let m2 = m.insert(k0, (CacheEntry { activity, ..m[k0] }));
    assert forall|k: (u64, Seq<u8>), comp: Comp|
        #![trigger m2.contains_key(k), ascending32(comp.vars), ascending32(comp.clauses)]
        m2.contains_key(k) && ascending32(comp.vars) && ascending32(comp.clauses) && key_bytes(
            comp.vars,
            comp.clauses,
        ) == k.1 implies entry_true(db, comp, m2[k]) by {
        assert(m.contains_key(k));
        assert(entry_true(db, comp, m[k]));
    }
}

/// The key of a component calls for one bit of witness per variable.
pub proof fn lemma_witness_len(comp: Comp)
    requires
        comp.vars.len() <= u32::MAX,
    ensures
        witness_len(key_bytes(comp.vars, comp.clauses)) == (comp.vars.len() + 7) / 8,
{
    let n = comp.vars.len();
    let rest = encode(comp.clauses.len()) + deltas(comp.vars) + deltas(comp.clauses);
    assert(key_bytes(comp.vars, comp.clauses) =~= encode(n) + rest);
    lemma_round_trip(n, rest);
    lemma_encode_len(n);
}

/// New keys within a set, over two steps.
pub proof fn lemma_new_keys_trans(
    a: Map<(u64, Seq<u8>), CacheEntry>,
    b: Map<(u64, Seq<u8>), CacheEntry>,
    c: Map<(u64, Seq<u8>), CacheEntry>,
    w1: Set<int>,
    w2: Set<int>,
    w: Set<int>,
)
    requires
        new_keys_within(a, b, w1),
        new_keys_within(b, c, w2),
        w1.subset_of(w),
        w2.subset_of(w),
    ensures
        new_keys_within(a, c, w),
{
    assert forall|k: (u64, Seq<u8>)| #[trigger] c.contains_key(k) && !a.contains_key(k) implies names_within(
        k.1,
        w,
    ) by {
        if b.contains_key(k) {
            assert(names_within(k.1, w1));
            let comp = choose|comp: Comp|
                #![trigger ascending32(comp.vars), ascending32(comp.clauses)]
                ascending32(comp.vars) && ascending32(comp.clauses) && key_bytes(comp.vars, comp.clauses) == k.1
                    && var_set(comp.vars).subset_of(w1);
            assert(var_set(comp.vars).subset_of(w));
        } else {
            assert(names_within(k.1, w2));
            let comp = choose|comp: Comp|
                #![trigger ascending32(comp.vars), ascending32(comp.clauses)]
                ascending32(comp.vars) && ascending32(comp.clauses) && key_bytes(comp.vars, comp.clauses) == k.1
                    && var_set(comp.vars).subset_of(w2);
            assert(var_set(comp.vars).subset_of(w));
        }
    }
}

/// A component with a variable outside `w` is not among the components named within `w`.
pub proof fn lemma_not_named(comp: Comp, w: Set<int>, v: u32)
    requires
        ascending32(comp.vars),
        ascending32(comp.clauses),
        comp.vars.contains(v),
        !w.contains(v as int),
    ensures
        !names_within(key_bytes(comp.vars, comp.clauses), w),
{
    let key = key_bytes(comp.vars, comp.clauses);
    if names_within(key, w) {
        let c2 = choose|c2: Comp|
            #![trigger ascending32(c2.vars), ascending32(c2.clauses)]
            ascending32(c2.vars) && ascending32(c2.clauses) && key_bytes(c2.vars, c2.clauses) == key
                && var_set(c2.vars).subset_of(w);
        lemma_key_determines_component(comp.vars, comp.clauses, c2.vars, c2.clauses);
        assert(var_set(c2.vars).contains(v as int));
    }
}

/// Setting one bit of a byte leaves the others alone.
pub proof fn lemma_set_bit(x: u8, j: u8, k: u8)
    requires
        j < 8,
        k < 8,
    ensures
        ((x | (1u8 << j)) >> k) & 1 == (if k == j {
            1
        } else {
            (x >> k) & 1
        }),
{
    assert(j < 8 && k < 8 && k == j ==> ((x | (1u8 << j)) >> k) & 1 == 1) by (bit_vector);
    assert(j < 8 && k < 8 && k != j ==> ((x | (1u8 << j)) >> k) & 1 == (x >> k) & 1) by (bit_vector);
}

} // verus!
