//! Removal of repeated clauses.

use vstd::prelude::*;
use crate::cnf::{lemma_cover, Cnf};
use crate::lit::Lit;
use crate::semantics::{clause_true, formula_below, formula_true, normal_formula, Valuation};
use crate::sorting::lemma_push_contains;

verus! {

/// The formula without the clauses that stand earlier in it already.
pub open spec fn first_occurrences(f: Seq<Seq<Lit>>) -> Seq<Seq<Lit>>
    decreases f.len(),
{
    if f.len() == 0 {
        Seq::empty()
    } else {
        let p = first_occurrences(f.drop_last());
        if p.contains(f.last()) {
            p
        } else {
            p.push(f.last())
        }
    }
}

/// Every clause stays, once.
pub proof fn lemma_first_occurrences(f: Seq<Seq<Lit>>)
    ensures
        forall|c: Seq<Lit>| #[trigger] first_occurrences(f).contains(c) <==> f.contains(c),
        first_occurrences(f).no_duplicates(),
        first_occurrences(f).len() <= f.len(),
    decreases f.len(),
{
    if f.len() > 0 {
        let p = f.drop_last();
        lemma_first_occurrences(p);
        lemma_push_contains(p, f.last());
        assert(f =~= p.push(f.last()));
        lemma_push_contains(first_occurrences(p), f.last());
        assert(first_occurrences(f).no_duplicates()) by {
            let d = first_occurrences(p);
            if !d.contains(f.last()) {
                let e = d.push(f.last());
                assert forall|i: int, j: int| 0 <= i < e.len() && 0 <= j < e.len() && i != j implies e[i] != e[j] by {
                    if i < d.len() && j < d.len() {
                        assert(d[i] != d[j]);
                    } else if i < d.len() {
                        assert(d.contains(d[i]));
                    } else {
                        assert(d.contains(d[j]));
                    }
                }
            }
        }
    }
}

/// Dropping repeated clauses keeps the satisfying assignments, the normal form and the variables.
pub proof fn lemma_duplicates_do_not_matter(f: Seq<Seq<Lit>>, n: int)
    ensures
        forall|m: Valuation| #[trigger] formula_true(m, first_occurrences(f)) <==> formula_true(m, f),
        normal_formula(f) ==> normal_formula(first_occurrences(f)),
        formula_below(f, n) ==> formula_below(first_occurrences(f), n),
{
    let d = first_occurrences(f);
    lemma_first_occurrences(f);
    assert forall|i: int| 0 <= i < d.len() implies exists|j: int| 0 <= j < f.len() && f[j] == #[trigger] d[i] by {
        assert(d.contains(d[i]));
        assert(f.contains(d[i]));
    }
    assert forall|j: int| 0 <= j < f.len() implies exists|i: int| 0 <= i < d.len() && d[i] == #[trigger] f[j] by {
        assert(f.contains(f[j]));
        assert(d.contains(f[j]));
    }
    assert forall|m: Valuation| #[trigger] formula_true(m, d) <==> formula_true(m, f) by {
        if formula_true(m, d) {
            assert forall|j: int| 0 <= j < f.len() implies clause_true(m, #[trigger] f[j]) by {
                let i = choose|i: int| 0 <= i < d.len() && d[i] == f[j];
                assert(clause_true(m, d[i]));
            }
        }
        if formula_true(m, f) {
            assert forall|i: int| 0 <= i < d.len() implies clause_true(m, #[trigger] d[i]) by {
                let j = choose|j: int| 0 <= j < f.len() && f[j] == d[i];
                assert(clause_true(m, f[j]));
            }
        }
    }
}

/// A number that equal clauses share.
pub open spec fn clause_hash(c: Seq<Lit>) -> int
    decreases c.len(),
{
    if c.len() == 0 {
        0
    } else {
        (clause_hash(c.drop_last()) % 0x1_0000_0000) * 0x9e37_79b1 + c.last().code
    }
}

fn hash_clause(c: &[Lit]) -> (h: u64)
    ensures
        h == clause_hash(c@),
{
    let mut h: u64 = 0;
    assert(c@.take(0).len() == 0);
    for i in 0..c.len()
        invariant
            h == clause_hash(c@.take(i as int)),
    {
        assert(c@.take(i + 1).drop_last() =~= c@.take(i as int));
        h = (h % 0x1_0000_0000) * 0x9e37_79b1 + c[i].code as u64;
    }
    assert(c@.take(c@.len() as int) =~= c@);
    h
}

/// Whether two clauses are the same list of literals.
fn same_clause(a: &[Lit], b: &[Lit]) -> (r: bool)
    ensures
        r == (a@ == b@),
{
    if a.len() != b.len() {
        return false;
    }
    for i in 0..a.len()
        invariant
            a@.len() == b@.len(),
            forall|k: int| 0 <= k < i ==> a@[k] == b@[k],
    {
        if a[i] != b[i] {
            return false;
        }
    }
    assert(a@ =~= b@);
    true
}

/// Every clause of the formula is listed in the bucket of its hash, and the buckets list nothing
/// else.
spec fn bucketed(f: Seq<Seq<Lit>>, buckets: Seq<Vec<usize>>) -> bool {
    &&& forall|b: int, k: int|
        0 <= b < buckets.len() && 0 <= k < buckets[b]@.len() ==> #[trigger] buckets[b]@[k] < f.len()
    &&& forall|i: int|
        0 <= i < f.len() ==> buckets[clause_hash(#[trigger] f[i]) % (buckets.len() as int)]@.contains(i as usize)
}

/// Removes clauses that are literally identical to an earlier one.
///
/// The formula arrives sorted from [`Cnf::normalized`], so identity is equality of the lists.
pub fn drop_duplicate_clauses(cnf: &Cnf) -> (out: Cnf)
    requires
        cnf.wf(),
    ensures
        out.wf(),
        out.nv() == cnf.nv(),
        out@ == first_occurrences(cnf@),
{
    let n: usize = cnf.num_clauses();
    let mut out = Cnf::new(cnf.num_vars());
    let mut buckets: Vec<Vec<usize>> = Vec::new();
    for i in 0..n
        invariant
            buckets@.len() == i,
            forall|b: int| 0 <= b < i ==> (#[trigger] buckets@[b])@.len() == 0,
    {
        buckets.push(Vec::new());
    }
    assert(cnf@.take(0).len() == 0);
    for i in 0..n
        invariant
            cnf.wf(),
            n == cnf@.len(),
            buckets@.len() == n,
            out.wf(),
            out.nv() == cnf.nv(),
            out@ == first_occurrences(cnf@.take(i as int)),
            bucketed(out@, buckets@),
    {
        let c = cnf.clause(i);
        let home: usize = (hash_clause(c) % (n as u64)) as usize;
        let mut seen = false;
        let ghost f = out@;
        let m: usize = buckets[home].len();
        for k in 0..m
            invariant
                home < buckets@.len(),
                m == buckets@[home as int]@.len(),
                out.wf(),
                bucketed(out@, buckets@),
                seen ==> out@.contains(c@),
                !seen ==> forall|j: int| 0 <= j < k ==> out@[#[trigger] buckets@[home as int]@[j] as int] != c@,
        {
            let e: usize = buckets[home][k];
            assert(buckets@[home as int]@[k as int] < out@.len());
            if !seen && same_clause(out.clause(e), c) {
                assert(out@[e as int] == c@);
                seen = true;
            }
        }
        proof {
            if !seen && f.contains(c@) {
                let j = choose|j: int| 0 <= j < f.len() && f[j] == c@;
                assert(buckets@[clause_hash(f[j]) % (n as int)]@.contains(j as usize));
                let k = choose|k: int| 0 <= k < m && buckets@[home as int]@[k] == j as usize;
                assert(out@[buckets@[home as int]@[k] as int] != c@);
            }
            assert(cnf@.take(i + 1).drop_last() =~= cnf@.take(i as int));
            assert(cnf@.take(i + 1).last() == c@);
            cnf.lemma_wf();
            out.lemma_wf();
            lemma_cover(cnf.nv(), c@);
        }
        if !seen {
            let at: usize = out.num_clauses();
            let ghost before = buckets@;
            buckets[home].push(at);
            out.add_clause(c);
            proof {
                let now = buckets@;
                assert(now[home as int]@ == before[home as int]@.push(at));
                assert forall|b: int, k: int| 0 <= b < now.len() && 0 <= k < now[b]@.len() implies #[trigger] now[b]@[k]
                    < out@.len() by {
                    if b != home {
                        assert(now[b] == before[b]);
                        assert(before[b]@[k] < f.len());
                    } else if k < before[b]@.len() {
                        assert(before[b]@[k] < f.len());
                    }
                }
                assert forall|j: int| 0 <= j < out@.len() implies now[clause_hash(#[trigger] out@[j]) % (
                now.len() as int)]@.contains(j as usize) by {
                    let b = clause_hash(out@[j]) % (now.len() as int);
                    if j < f.len() {
                        assert(out@[j] == f[j]);
                        assert(before[b]@.contains(j as usize));
                        let k = choose|k: int| 0 <= k < before[b]@.len() && before[b]@[k] == j as usize;
                        assert(now[b]@[k] == j as usize);
                    } else {
                        assert(out@[j] == c@);
                        assert(now[b]@[before[b]@.len() as int] == at);
                    }
                }
            }
        }
    }
    assert(cnf@.take(n as int) =~= cnf@);
    out
}

/// A clause that was there before is dropped, and any other is kept behind those before it.
pub proof fn lemma_only_repetitions_are_dropped(f: Seq<Seq<Lit>>, c: Seq<Lit>)
    ensures
        first_occurrences(f.push(c)) == (if f.contains(c) {
            first_occurrences(f)
        } else {
            first_occurrences(f).push(c)
        }),
{
    lemma_first_occurrences(f);
    assert(f.push(c).drop_last() =~= f);
}

} // verus!
