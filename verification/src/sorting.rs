//! Merge sort that drops duplicates.

use vstd::prelude::*;

verus! {

/// Strictly ascending.
pub open spec fn ascending(s: Seq<u128>) -> bool {
    forall|i: int, j: int| 0 <= i < j < s.len() ==> #[trigger] s[i] < #[trigger] s[j]
}

/// The two sequences hold the same elements.
pub open spec fn same_elements(a: Seq<u128>, b: Seq<u128>) -> bool {
    forall|x: u128| #[trigger] a.contains(x) <==> b.contains(x)
}

/// Membership after a push.
pub proof fn lemma_push_contains<T>(s: Seq<T>, y: T)
    ensures
        forall|x: T| #[trigger] s.push(y).contains(x) <==> (s.contains(x) || x == y),
{
    assert forall|x: T| #[trigger] s.push(y).contains(x) <==> (s.contains(x) || x == y) by {
        if s.contains(x) {
            let i = choose|i: int| 0 <= i < s.len() && s[i] == x;
            assert(s.push(y)[i] == x);
        }
        if x == y {
            assert(s.push(y)[s.len() as int] == x);
        }
        if s.push(y).contains(x) {
            let i = choose|i: int| 0 <= i < s.push(y).len() && s.push(y)[i] == x;
            if i < s.len() {
                assert(s[i] == x);
            }
        }
    }
}

/// Membership in a concatenation.
pub proof fn lemma_concat_contains<T>(a: Seq<T>, b: Seq<T>)
    ensures
        forall|x: T| #[trigger] (a + b).contains(x) <==> (a.contains(x) || b.contains(x)),
{
    assert forall|x: T| #[trigger] (a + b).contains(x) <==> (a.contains(x) || b.contains(x)) by {
        if a.contains(x) {
            let i = choose|i: int| 0 <= i < a.len() && a[i] == x;
            assert((a + b)[i] == x);
        }
        if b.contains(x) {
            let i = choose|i: int| 0 <= i < b.len() && b[i] == x;
            assert((a + b)[a.len() + i] == x);
        }
        if (a + b).contains(x) {
            let i = choose|i: int| 0 <= i < (a + b).len() && (a + b)[i] == x;
            if i < a.len() {
                assert(a[i] == x);
            } else {
                assert(b[i - a.len()] == x);
            }
        }
    }
}

/// A strictly ascending sequence is determined by its elements.
pub proof fn lemma_ascending_unique(a: Seq<u128>, b: Seq<u128>)
    requires
        ascending(a),
        ascending(b),
        same_elements(a, b),
    ensures
        a == b,
    decreases a.len(),
{
    if a.len() == 0 {
        if b.len() > 0 {
            assert(b.contains(b[0]));
            assert(a.contains(b[0]));
        }
        assert(a =~= b);
    } else if b.len() == 0 {
        assert(a.contains(a[0]));
        assert(b.contains(a[0]));
    } else {
        let x = a.last();
        let y = b.last();
        assert(a.contains(x));
        assert(b.contains(x));
        assert(b.contains(y));
        assert(a.contains(y));
        assert(x == y);
        let a1 = a.drop_last();
        let b1 = b.drop_last();
        assert(a =~= a1.push(x));
        assert(b =~= b1.push(y));
        lemma_push_contains(a1, x);
        lemma_push_contains(b1, y);
        assert forall|z: u128| #[trigger] a1.contains(z) <==> b1.contains(z) by {
            if a1.contains(z) {
                let i = choose|i: int| 0 <= i < a1.len() && a1[i] == z;
                assert(a[i] < a[a.len() - 1]);
                assert(a.contains(z));
                assert(b.contains(z));
            }
            if b1.contains(z) {
                let i = choose|i: int| 0 <= i < b1.len() && b1[i] == z;
                assert(b[i] < b[b.len() - 1]);
                assert(b.contains(z));
                assert(a.contains(z));
            }
        }
        lemma_ascending_unique(a1, b1);
    }
}

/// Merges two strictly ascending lists into one, keeping one copy of what they share.
fn merge(a: &Vec<u128>, b: &Vec<u128>) -> (out: Vec<u128>)
    requires
        ascending(a@),
        ascending(b@),
    ensures
        ascending(out@),
        forall|x: u128| #[trigger] out@.contains(x) <==> (a@.contains(x) || b@.contains(x)),
{
    let mut out: Vec<u128> = Vec::new();
    let mut i: usize = 0;
    let mut j: usize = 0;
    while i < a.len() || j < b.len()
        invariant
            ascending(a@),
            ascending(b@),
            ascending(out@),
            i <= a.len(),
            j <= b.len(),
            forall|k: int, p: int|
                0 <= k < out.len() && i <= p < a.len() ==> #[trigger] out@[k] < #[trigger] a@[p],
            forall|k: int, p: int|
                0 <= k < out.len() && j <= p < b.len() ==> #[trigger] out@[k] < #[trigger] b@[p],
            forall|x: u128| #[trigger]
                out@.contains(x) <==> (a@.take(i as int).contains(x) || b@.take(j as int).contains(
                    x,
                )),
        decreases a.len() - i + b.len() - j,
    {
        let ghost before = out@;
        let x: u128 = if j >= b.len() {
            a[i]
        } else if i >= a.len() {
            b[j]
        } else if a[i] <= b[j] {
            a[i]
        } else {
            b[j]
        };
        proof {
            lemma_push_contains(out@, x);
            if i < a.len() {
                assert(a@.take(i + 1) =~= a@.take(i as int).push(a@[i as int]));
                lemma_push_contains(a@.take(i as int), a@[i as int]);
            }
            if j < b.len() {
                assert(b@.take(j + 1) =~= b@.take(j as int).push(b@[j as int]));
                lemma_push_contains(b@.take(j as int), b@[j as int]);
            }
        }
        let take_a = i < a.len() && a[i] == x;
        let take_b = j < b.len() && b[j] == x;
        out.push(x);
        if take_a {
            i = i + 1;
        }
        if take_b {
            j = j + 1;
        }
        assert forall|k: int, p: int| 0 <= k < out.len() && i <= p < a.len() implies #[trigger] out@[k]
            < #[trigger] a@[p] by {
            if k < before.len() {
                assert(before[k] < a@[p]);
            }
        }
        assert forall|k: int, p: int| 0 <= k < out.len() && j <= p < b.len() implies #[trigger] out@[k]
            < #[trigger] b@[p] by {
            if k < before.len() {
                assert(before[k] < b@[p]);
            }
        }
    }
    assert(a@.take(i as int) =~= a@);
    assert(b@.take(j as int) =~= b@);
    out
}

/// The elements of `v[lo..hi]` in strictly ascending order.
fn sorted_range(v: &[u128], lo: usize, hi: usize) -> (out: Vec<u128>)
    requires
        lo <= hi <= v.len(),
    ensures
        ascending(out@),
        same_elements(out@, v@.subrange(lo as int, hi as int)),
    decreases hi - lo,
{
    if hi - lo == 0 {
        Vec::new()
    } else if hi - lo == 1 {
        let mut out: Vec<u128> = Vec::new();
        out.push(v[lo]);
        assert(out@ =~= v@.subrange(lo as int, hi as int));
        out
    } else {
        let mid: usize = lo + (hi - lo) / 2;
        let left = sorted_range(v, lo, mid);
        let right = sorted_range(v, mid, hi);
        proof {
            let l = v@.subrange(lo as int, mid as int);
            let r = v@.subrange(mid as int, hi as int);
            assert(v@.subrange(lo as int, hi as int) =~= l + r);
            lemma_concat_contains(l, r);
        }
        merge(&left, &right)
    }
}

/// The elements of `v` in strictly ascending order, each once.
pub fn sorted_set(v: &[u128]) -> (out: Vec<u128>)
    ensures
        ascending(out@),
        same_elements(out@, v@),
{
    let out = sorted_range(v, 0, v.len());
    assert(v@.subrange(0, v@.len() as int) =~= v@);
    out
}

/// Strictly ascending, for indices.
pub open spec fn ascending32(s: Seq<u32>) -> bool {
    forall|i: int, j: int| 0 <= i < j < s.len() ==> #[trigger] s[i] < #[trigger] s[j]
}

/// A strictly ascending list of indices below `n` has at most `n` of them.
pub proof fn lemma_ascending_len(s: Seq<u32>, n: int)
    requires
        ascending32(s),
        forall|i: int| 0 <= i < s.len() ==> #[trigger] s[i] < n,
        n >= 0,
    ensures
        s.len() <= n,
    decreases s.len(),
{
    if s.len() > 0 {
        let p = s.drop_last();
        let last = s[s.len() - 1] as int;
        assert forall|i: int| 0 <= i < p.len() implies #[trigger] p[i] < last by {
            assert(s[i] < s[s.len() - 1]);
        }
        assert(ascending32(p)) by {
            assert forall|i: int, j: int| 0 <= i < j < p.len() implies #[trigger] p[i] < #[trigger] p[j] by {
                assert(s[i] < s[j]);
            }
        }
        lemma_ascending_len(p, last);
    }
}

/// The indices of `v` in strictly ascending order, each once.
pub fn sorted_indices(v: &Vec<u32>) -> (out: Vec<u32>)
    ensures
        ascending32(out@),
        forall|x: u32| #[trigger] out@.contains(x) <==> v@.contains(x),
{
    let mut wide: Vec<u128> = Vec::new();
    for i in 0..v.len()
        invariant
            wide@.len() == i,
            forall|k: int| 0 <= k < i ==> #[trigger] wide@[k] == v@[k] as u128,
    {
        wide.push(v[i] as u128);
    }
    let sorted = sorted_set(&wide);
    assert forall|k: int| 0 <= k < sorted.len() implies #[trigger] sorted@[k] <= u32::MAX by {
        assert(sorted@.contains(sorted@[k]));
        assert(wide@.contains(sorted@[k]));
    }
    let mut out: Vec<u32> = Vec::new();
    for i in 0..sorted.len()
        invariant
            out@.len() == i,
            forall|k: int| 0 <= k < sorted.len() ==> #[trigger] sorted@[k] <= u32::MAX,
            forall|k: int| 0 <= k < i ==> #[trigger] out@[k] == sorted@[k],
    {
        out.push(sorted[i] as u32);
    }
    proof {
        assert forall|i: int, j: int| 0 <= i < j < out@.len() implies #[trigger] out@[i] < #[trigger] out@[j] by {
            assert(sorted@[i] < sorted@[j]);
        }
        assert forall|x: u32| #[trigger] out@.contains(x) <==> v@.contains(x) by {
            if out@.contains(x) {
                let k = choose|k: int| 0 <= k < out@.len() && out@[k] == x;
                assert(sorted@.contains(sorted@[k]));
                assert(wide@.contains(sorted@[k]));
                let p = choose|p: int| 0 <= p < wide@.len() && wide@[p] == sorted@[k];
                assert(v@[p] == x);
            }
            if v@.contains(x) {
                let p = choose|p: int| 0 <= p < v@.len() && v@[p] == x;
                assert(wide@[p] == x as u128);
                assert(wide@.contains(x as u128));
                assert(sorted@.contains(x as u128));
                let k = choose|k: int| 0 <= k < sorted@.len() && sorted@[k] == x as u128;
                assert(out@[k] == x);
            }
        }
    }
    out
}

} // verus!
