//! Natural numbers of any size, as far as scoring needs them: adding powers of two, adding two
//! numbers, and telling which of two is larger.

use vstd::prelude::*;

verus! {

/// One more than the largest digit.
pub const BASE: u64 = 0x1_0000_0000;

/// Powers of the base.
pub open spec fn place(i: nat) -> nat
    decreases i,
{
    if i == 0 {
        1
    } else {
        BASE as nat * place((i - 1) as nat)
    }
}

/// Powers of two.
pub open spec fn two_to(k: nat) -> nat
    decreases k,
{
    if k == 0 {
        1
    } else {
        2 * two_to((k - 1) as nat)
    }
}

/// The number that a list of digits stands for, the least significant one first.
pub open spec fn value(digits: Seq<u32>) -> nat
    decreases digits.len(),
{
    if digits.len() == 0 {
        0
    } else {
        value(digits.drop_last()) + digits.last() as nat * place((digits.len() - 1) as nat)
    }
}

/// The digit at a place; zero beyond the list.
pub open spec fn digit_at(digits: Seq<u32>, i: int) -> u32 {
    if 0 <= i < digits.len() {
        digits[i]
    } else {
        0
    }
}

/// The value of the first `n` digits, with zeros beyond the list.
pub open spec fn low_value(digits: Seq<u32>, n: nat) -> nat
    decreases n,
{
    if n == 0 {
        0
    } else {
        low_value(digits, (n - 1) as nat) + digit_at(digits, n - 1) as nat * place((n - 1) as nat)
    }
}

/// The low digits are smaller than the next place.
proof fn lemma_low_value(digits: Seq<u32>, n: nat)
    ensures
        low_value(digits, n) < place(n),
    decreases n,
{
    if n > 0 {
        lemma_low_value(digits, (n - 1) as nat);
        let p = place((n - 1) as nat);
        let d = digit_at(digits, n - 1) as nat;
        assert(low_value(digits, (n - 1) as nat) + d * p < BASE as nat * p) by (nonlinear_arith)
            requires
                low_value(digits, (n - 1) as nat) < p,
                d + 1 <= BASE as nat,
        ;
    }
}

/// All digits and no more than zeros beyond them make the whole value.
proof fn lemma_value_low(digits: Seq<u32>, n: nat)
    requires
        n >= digits.len(),
    ensures
        low_value(digits, n) == value(digits),
    decreases n,
{
    if n > digits.len() {
        lemma_value_low(digits, (n - 1) as nat);
        assert(0 * place((n - 1) as nat) == 0) by (nonlinear_arith);
    } else if n > 0 {
        let p = digits.drop_last();
        lemma_value_low(p, (n - 1) as nat);
        lemma_low_same(digits, p, (n - 1) as nat);
    }
}

/// Digits that agree have the same value.
proof fn lemma_low_same(a: Seq<u32>, b: Seq<u32>, n: nat)
    requires
        forall|i: int| 0 <= i < n ==> digit_at(a, i) == digit_at(b, i),
    ensures
        low_value(a, n) == low_value(b, n),
    decreases n,
{
    if n > 0 {
        assert(digit_at(a, n - 1) == digit_at(b, n - 1));
        lemma_low_same(a, b, (n - 1) as nat);
    }
}

/// Numbers that agree from place `n + 1` on are ordered by the digit at place `n`.
proof fn lemma_order(a: Seq<u32>, b: Seq<u32>, n: nat, m: nat)
    requires
        n < m,
        digit_at(a, n as int) > digit_at(b, n as int),
        forall|i: int| n < i < m ==> digit_at(a, i) == digit_at(b, i),
    ensures
        low_value(a, m) > low_value(b, m),
    decreases m,
{
    let k = (m - 1) as nat;
    if k > n {
        lemma_order(a, b, n, k);
        assert(digit_at(a, k as int) == digit_at(b, k as int));
    } else {
        lemma_low_value(b, n);
        let x = digit_at(a, n as int) as nat;
        let y = digit_at(b, n as int) as nat;
        let p = place(n);
        assert(x * p >= y * p + p) by (nonlinear_arith)
            requires
                x >= y + 1,
        ;
    }
}

/// Replacing a digit changes the value by the difference at its place.
proof fn lemma_update(digits: Seq<u32>, i: int, d: u32)
    requires
        0 <= i < digits.len(),
    ensures
        value(digits.update(i, d)) + digits[i] as nat * place(i as nat) == value(digits) + d as nat * place(i as nat),
    decreases digits.len(),
{
    let p = digits.drop_last();
    let q = digits.update(i, d);
    if i == digits.len() - 1 {
        assert(q.drop_last() =~= p);
    } else {
        assert(q.drop_last() =~= p.update(i, d));
        lemma_update(p, i, d);
    }
}

proof fn lemma_push(digits: Seq<u32>, d: u32)
    ensures
        value(digits.push(d)) == value(digits) + d as nat * place(digits.len()),
{
    assert(digits.push(d).drop_last() =~= digits);
}

proof fn lemma_two_to_byte(k: nat)
    ensures
        two_to(k + 8) == 256 * two_to(k),
{
    reveal_with_fuel(two_to, 9);
}

proof fn lemma_two_to(r: nat, q: nat)
    ensures
        two_to(r + 32 * q) == two_to(r) * place(q),
    decreases q,
{
    if q > 0 {
        lemma_two_to(r, (q - 1) as nat);
        let k = (r + 32 * (q - 1)) as nat;
        lemma_two_to_byte(k);
        lemma_two_to_byte(k + 8);
        lemma_two_to_byte(k + 16);
        lemma_two_to_byte(k + 24);
        assert(r + 32 * q == k + 32);
        assert(two_to(r) * place(q) == BASE as nat * (two_to(r) * place((q - 1) as nat))) by (nonlinear_arith)
            requires
                place(q) == BASE as nat * place((q - 1) as nat),
        ;
    } else {
        assert(two_to(r) * 1 == two_to(r)) by (nonlinear_arith);
    }
}

/// A digit with a single bit set.
fn bit_digit(r: usize) -> (d: u32)
    requires
        r < 32,
    ensures
        d == two_to(r as nat),
{
    let mut d: u32 = 1;
    let mut k: usize = 0;
    proof {
        reveal_with_fuel(two_to, 33);
    }
    while k < r
        invariant
            k <= r < 32,
            d == two_to(k as nat),
        decreases r - k,
    {
        proof {
            lemma_two_to_bound(k as nat);
        }
        d = d * 2;
        k = k + 1;
    }
    d
}

proof fn lemma_two_to_positive(k: nat)
    ensures
        two_to(k) > 0,
    decreases k,
{
    if k > 0 {
        lemma_two_to_positive((k - 1) as nat);
    }
}

proof fn lemma_two_to_bound(k: nat)
    requires
        k <= 30,
    ensures
        two_to(k) <= 0x4000_0000,
{
    reveal_with_fuel(two_to, 33);
}

/// Adds `two_to(k)` to a number.
pub fn add_power(digits: &mut Vec<u32>, k: usize)
    ensures
        value(final(digits)@) == value(old(digits)@) + two_to(k as nat),
        two_to(k as nat) > 0,
{
    let ghost start = value(digits@);
    let q: usize = k / 32;
    while digits.len() < q
        invariant
            value(digits@) == start,
        decreases q - digits.len(),
    {
        proof {
            lemma_push(digits@, 0);
            assert(0 * place(digits@.len()) == 0) by (nonlinear_arith);
        }
        digits.push(0);
    }
    let mut carry: u64 = bit_digit(k % 32) as u64;
    let mut i: usize = q;
    proof {
        lemma_two_to((k % 32) as nat, q as nat);
        lemma_two_to_positive(k as nat);
    }
    while i < digits.len() && carry > 0
        invariant
            i <= digits@.len(),
            carry < BASE,
            value(digits@) + carry as nat * place(i as nat) == start + two_to(k as nat),
        decreases digits@.len() - i,
    {
        let ghost before = digits@;
        let sum: u64 = digits[i] as u64 + carry;
        let low: u32 = (sum % BASE) as u32;
        digits.set(i, low);
        proof {
            lemma_update(before, i as int, low);
            let p = place(i as nat);
            let d = before[i as int] as nat;
            let c = carry as nat;
            let l = low as nat;
            let h = (sum / BASE) as nat;
            assert(place((i + 1) as nat) == BASE as nat * p);
            assert(d + c == l + h * BASE as nat);
            assert(d * p + c * p == l * p + h * (BASE as nat * p)) by (nonlinear_arith)
                requires
                    d + c == l + h * BASE as nat,
            ;
        }
        carry = sum / BASE;
        i = i + 1;
    }
    if carry > 0 {
        proof {
            lemma_push(digits@, carry as u32);
        }
        digits.push(carry as u32);
    } else {
        assert(0 * place(i as nat) == 0) by (nonlinear_arith);
    }
}

/// The digit at a place; zero beyond the list.
fn digit(digits: &[u32], i: usize) -> (d: u32)
    ensures
        d == digit_at(digits@, i as int),
{
    if i < digits.len() {
        digits[i]
    } else {
        0
    }
}

/// The sum of two numbers.
pub fn sum_of(a: &[u32], b: &[u32]) -> (digits: Vec<u32>)
    ensures
        value(digits@) == value(a@) + value(b@),
{
    let n: usize = if a.len() > b.len() {
        a.len()
    } else {
        b.len()
    };
    let mut digits: Vec<u32> = Vec::new();
    let mut carry: u64 = 0;
    for i in 0..n
        invariant
            digits@.len() == i,
            carry <= 1,
            value(digits@) + carry as nat * place(i as nat) == low_value(a@, i as nat) + low_value(b@, i as nat),
    {
        let sum: u64 = digit(a, i) as u64 + digit(b, i) as u64 + carry;
        let low: u32 = (sum % BASE) as u32;
        proof {
            lemma_push(digits@, low);
            let p = place(i as nat);
            let x = digit_at(a@, i as int) as nat;
            let y = digit_at(b@, i as int) as nat;
            let c = carry as nat;
            let l = low as nat;
            let h = (sum / BASE) as nat;
            assert(place((i + 1) as nat) == BASE as nat * p);
            assert(x + y + c == l + h * BASE as nat);
            assert(x * p + y * p + c * p == l * p + h * (BASE as nat * p)) by (nonlinear_arith)
                requires
                    x + y + c == l + h * BASE as nat,
            ;
        }
        digits.push(low);
        carry = sum / BASE;
    }
    proof {
        lemma_value_low(a@, n as nat);
        lemma_value_low(b@, n as nat);
        lemma_push(digits@, carry as u32);
        assert(0 * place(n as nat) == 0) by (nonlinear_arith);
    }
    if carry > 0 {
        digits.push(carry as u32);
    }
    digits
}

/// Whether the first number is larger than the second.
pub fn exceeds(a: &[u32], b: &[u32]) -> (r: bool)
    ensures
        r == (value(a@) > value(b@)),
{
    let n: usize = if a.len() > b.len() {
        a.len()
    } else {
        b.len()
    };
    proof {
        lemma_value_low(a@, n as nat);
        lemma_value_low(b@, n as nat);
    }
    let mut i: usize = n;
    while i > 0
        invariant
            i <= n,
            low_value(a@, n as nat) == value(a@),
            low_value(b@, n as nat) == value(b@),
            forall|j: int| i <= j < n ==> digit_at(a@, j) == digit_at(b@, j),
        decreases i,
    {
        i = i - 1;
        let x: u32 = digit(a, i);
        let y: u32 = digit(b, i);
        if x > y {
            proof {
                lemma_order(a@, b@, i as nat, n as nat);
            }
            return true;
        }
        if x < y {
            proof {
                lemma_order(b@, a@, i as nat, n as nat);
            }
            return false;
        }
    }
    proof {
        lemma_low_same(a@, b@, n as nat);
    }
    false
}

} // verus!
