//! Counting occurrences in sequences.

use vstd::prelude::*;

verus! {

/// How often `x` occurs in `s`.
pub open spec fn cnt<T>(s: Seq<T>, x: T) -> nat
    decreases s.len(),
{
    if s.len() == 0 {
        0
    } else {
        cnt(s.drop_last(), x) + if s.last() == x {
            1nat
        } else {
            0nat
        }
    }
}

/// `n` copies of `x`.
pub open spec fn copies<T>(x: T, n: nat) -> Seq<T> {
    Seq::new(n, |i: int| x)
}

pub proof fn lemma_cnt_push<T>(s: Seq<T>, y: T, x: T)
    ensures
        cnt(s.push(y), x) == cnt(s, x) + (if y == x {
            1nat
        } else {
            0nat
        }),
{
    assert(s.push(y).drop_last() =~= s);
}

pub proof fn lemma_cnt_take<T>(s: Seq<T>, k: int, x: T)
    requires
        0 <= k < s.len(),
    ensures
        cnt(s.take(k + 1), x) == cnt(s.take(k), x) + (if s[k] == x {
            1nat
        } else {
            0nat
        }),
        s.take(k + 1) == s.take(k).push(s[k]),
{
    assert(s.take(k + 1) =~= s.take(k).push(s[k]));
    lemma_cnt_push(s.take(k), s[k], x);
}

pub proof fn lemma_cnt_concat<T>(a: Seq<T>, b: Seq<T>, x: T)
    ensures
        cnt(a + b, x) == cnt(a, x) + cnt(b, x),
    decreases b.len(),
{
    if b.len() == 0 {
        assert(a + b =~= a);
    } else {
        assert((a + b).drop_last() =~= a + b.drop_last());
        lemma_cnt_concat(a, b.drop_last(), x);
    }
}

pub proof fn lemma_cnt_copies<T>(y: T, n: nat, x: T)
    ensures
        cnt(copies(y, n), x) == (if y == x {
            n
        } else {
            0nat
        }),
    decreases n,
{
    if n > 0 {
        assert(copies(y, n).drop_last() =~= copies(y, (n - 1) as nat));
        lemma_cnt_copies(y, (n - 1) as nat, x);
    }
}

/// A prefix holds no more copies than the whole.
pub proof fn lemma_cnt_prefix<T>(s: Seq<T>, k: int, x: T)
    requires
        0 <= k <= s.len(),
    ensures
        cnt(s.take(k), x) <= cnt(s, x),
{
    assert(s =~= s.take(k) + s.skip(k));
    lemma_cnt_concat(s.take(k), s.skip(k), x);
}

pub proof fn lemma_cnt_contains<T>(s: Seq<T>, x: T)
    ensures
        cnt(s, x) > 0 <==> s.contains(x),
        cnt(s, x) <= s.len(),
    decreases s.len(),
{
    if s.len() > 0 {
        let p = s.drop_last();
        lemma_cnt_contains(p, x);
        if p.contains(x) {
            let i = choose|i: int| 0 <= i < p.len() && p[i] == x;
            assert(s[i] == x);
        }
        if s.last() == x {
            assert(s[s.len() - 1] == x);
        }
        if s.contains(x) {
            let i = choose|i: int| 0 <= i < s.len() && s[i] == x;
            if i < p.len() {
                assert(p[i] == x);
            }
        }
    }
}

/// Overwriting one slot moves the count by at most one.
pub proof fn lemma_cnt_update<T>(s: Seq<T>, i: int, y: T, x: T)
    requires
        0 <= i < s.len(),
    ensures
        cnt(s.update(i, y), x) == cnt(s, x) - (if s[i] == x {
            1int
        } else {
            0int
        }) + (if y == x {
            1int
        } else {
            0int
        }),
    decreases s.len(),
{
    let p = s.drop_last();
    if i == s.len() - 1 {
        assert(s.update(i, y).drop_last() =~= p);
    } else {
        assert(s.update(i, y).drop_last() =~= p.update(i, y));
        lemma_cnt_update(p, i, y, x);
    }
}

/// Two distinct slots with the same content are two copies.
pub proof fn lemma_cnt_two<T>(s: Seq<T>, i: int, j: int, x: T)
    requires
        0 <= i < j < s.len(),
        s[i] == x,
        s[j] == x,
    ensures
        cnt(s, x) >= 2,
{
    let p = s.take(j);
    assert(p[i] == x);
    assert(p.contains(x));
    lemma_cnt_contains(p, x);
    lemma_cnt_take(s, j, x);
    lemma_cnt_prefix(s, j + 1, x);
}

/// A sequence without duplicates holds each element at most once, and conversely.
pub proof fn lemma_cnt_no_duplicates<T>(s: Seq<T>)
    ensures
        s.no_duplicates() <==> forall|x: T| #[trigger] cnt(s, x) <= 1,
    decreases s.len(),
{
    if s.no_duplicates() {
        if s.len() > 0 {
            let p = s.drop_last();
            assert(p.no_duplicates()) by {
                assert forall|i: int, j: int| 0 <= i < p.len() && 0 <= j < p.len() && i != j implies p[i] != p[j] by {
                    assert(s[i] != s[j]);
                }
            }
            lemma_cnt_no_duplicates(p);
            assert forall|x: T| #[trigger] cnt(s, x) <= 1 by {
                assert(cnt(p, x) <= 1);
                if s.last() == x {
                    lemma_cnt_contains(p, x);
                    if p.contains(x) {
                        let i = choose|i: int| 0 <= i < p.len() && p[i] == x;
                        assert(s[i] != s[s.len() - 1]);
                    }
                }
            }
        }
    }
    if forall|x: T| #[trigger] cnt(s, x) <= 1 {
        assert forall|i: int, j: int| 0 <= i < s.len() && 0 <= j < s.len() && i != j implies s[i] != s[j] by {
            if s[i] == s[j] {
                assert(cnt(s, s[i]) <= 1);
                if i < j {
                    lemma_cnt_two(s, i, j, s[i]);
                } else {
                    lemma_cnt_two(s, j, i, s[i]);
                }
            }
        }
    }
}

} // verus!
