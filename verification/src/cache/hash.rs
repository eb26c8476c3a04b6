//! Hashing component keys.

use vstd::prelude::*;

verus! {

/// The multiplier of the absorbing step.
pub const MULTIPLIER: u64 = 0x9E37_79B9_7F4A_7C15;

/// Rotation to the left by 31 bits.
pub open spec fn rotl31(x: u64) -> u64 {
    (x << 31) | (x >> 33)
}

/// One absorbing step: mix a word into the state.
pub open spec fn absorb_word(h: u64, word: u64) -> u64 {
    rotl31((h ^ word).wrapping_mul(MULTIPLIER))
}

/// The byte of `s` at `i`, or zero past its end.
pub open spec fn byte_at(s: Seq<u8>, i: int) -> u64 {
    if 0 <= i < s.len() {
        s[i] as u64
    } else {
        0
    }
}

/// The little-endian word made of the eight bytes from `i` on, padded with zeros.
pub open spec fn word_at(s: Seq<u8>, i: int) -> u64 {
    byte_at(s, i) | (byte_at(s, i + 1) << 8) | (byte_at(s, i + 2) << 16) | (byte_at(s, i + 3) << 24) | (
    byte_at(s, i + 4) << 32) | (byte_at(s, i + 5) << 40) | (byte_at(s, i + 6) << 48) | (byte_at(
        s,
        i + 7,
    ) << 56)
}

/// The state after absorbing the words of `s` that start before `i`.
pub open spec fn absorb_words(s: Seq<u8>, h: u64, words: nat) -> u64
    decreases words,
{
    if words == 0 {
        h
    } else {
        absorb_word(absorb_words(s, h, (words - 1) as nat), word_at(s, 8 * (words - 1)))
    }
}

/// The SplitMix64 avalanche.
pub open spec fn finish(h: u64) -> u64 {
    let a = (h ^ (h >> 30)).wrapping_mul(0xbf58_476d_1ce4_e5b9);
    let b = (a ^ (a >> 27)).wrapping_mul(0x94d0_49bb_1331_11eb);
    b ^ (b >> 31)
}

/// The hash of a key: every eight-byte word absorbed in order, the last padded with zeros, then the
/// avalanche. The length enters the initial state.
pub open spec fn key_hash(s: Seq<u8>) -> u64 {
    finish(
        absorb_words(
            s,
            0xcbf2_9ce4_8422_2325_u64 ^ ((s.len() as u64).wrapping_mul(MULTIPLIER)),
            ((s.len() + 7) / 8) as nat,
        ),
    )
}

/// The byte `k` places after `i`, or zero past the end.
fn padded_byte(bytes: &[u8], i: usize, k: usize) -> (b: u64)
    requires
        i <= bytes@.len(),
    ensures
        b == byte_at(bytes@, i + k),
{
    if k < bytes.len() - i {
        bytes[i + k] as u64
    } else {
        0
    }
}

/// Hashes a component key to 64 bits.
///
/// A multiply-xor-rotate absorb over eight-byte chunks, finished with the `SplitMix64` avalanche.
/// The finaliser is what matters here: the low bits pick the bucket and the high bits order the
/// tree, so every bit of the output has to be well mixed.
pub fn hash_key(bytes: &[u8]) -> (h: u64)
    ensures
        h == key_hash(bytes@),
{
    let mut h: u64 = 0xcbf2_9ce4_8422_2325_u64 ^ ((bytes.len() as u64).wrapping_mul(MULTIPLIER));
    let ghost start = h;
    let words: usize = bytes.len() / 8 + if bytes.len() % 8 == 0 {
        0
    } else {
        1
    };
    let mut k: usize = 0;
    while k < words
        invariant
            k <= words,
            words == (bytes@.len() + 7) / 8,
            h == absorb_words(bytes@, start, k as nat),
        decreases words - k,
    {
        assert(8 * k < bytes.len());
        let i: usize = 8 * k;
        let word: u64 = padded_byte(bytes, i, 0) | (padded_byte(bytes, i, 1) << 8) | (padded_byte(
            bytes,
            i,
            2,
        ) << 16) | (padded_byte(bytes, i, 3) << 24) | (padded_byte(bytes, i, 4) << 32) | (padded_byte(
            bytes,
            i,
            5,
        ) << 40) | (padded_byte(bytes, i, 6) << 48) | (padded_byte(bytes, i, 7) << 56);
        let x: u64 = (h ^ word).wrapping_mul(MULTIPLIER);
        h = (x << 31) | (x >> 33);
        k = k + 1;
    }
    let a: u64 = (h ^ (h >> 30)).wrapping_mul(0xbf58_476d_1ce4_e5b9);
    let b: u64 = (a ^ (a >> 27)).wrapping_mul(0x94d0_49bb_1331_11eb);
    b ^ (b >> 31)
}

/// Multiplication by a number with an inverse loses nothing.
proof fn lemma_odd_product(x: u64, y: u64, m: u64, inverse: int, k: int)
    requires
        m * inverse == 1 + k * 0x1_0000_0000_0000_0000,
        x.wrapping_mul(m) == y.wrapping_mul(m),
    ensures
        x == y,
{
    let p = 0x1_0000_0000_0000_0000int;
    lemma_inverse(x as int, m as int, inverse, k);
    lemma_inverse(y as int, m as int, inverse, k);
    assert((x * m) % p == (y * m) % p);
}

proof fn lemma_inverse(x: int, m: int, inverse: int, k: int)
    requires
        0 <= x < 0x1_0000_0000_0000_0000,
        m * inverse == 1 + k * 0x1_0000_0000_0000_0000,
    ensures
        ((x * m) % 0x1_0000_0000_0000_0000 * inverse) % 0x1_0000_0000_0000_0000 == x,
{
    let p = 0x1_0000_0000_0000_0000int;
    vstd::arithmetic::div_mod::lemma_mul_mod_noop_left(x * m, inverse, p);
    assert((x * m) * inverse == x + (x * k) * p) by (nonlinear_arith)
        requires
            m * inverse == 1 + k * p,
    ;
    vstd::arithmetic::div_mod::lemma_mod_multiples_vanish(x * k, x, p);
    assert(p * (x * k) == (x * k) * p) by (nonlinear_arith);
    vstd::arithmetic::div_mod::lemma_small_mod(x as nat, p as nat);
}

/// A word absorbed into two states, or two words into one, leave different states.
proof fn lemma_absorbing_loses_nothing(g: u64, h: u64, v: u64, w: u64)
    requires
        absorb_word(g, v) == absorb_word(h, w),
    ensures
        g == h <==> v == w,
{
    let x = (g ^ v).wrapping_mul(MULTIPLIER);
    let y = (h ^ w).wrapping_mul(MULTIPLIER);
    assert((x << 31) | (x >> 33) == (y << 31) | (y >> 33) ==> x == y) by (bit_vector);
    assert(0x9E37_79B9_7F4A_7C15int * 0xf1de_83e1_9937_733dint == 1 + 0x957b_bf35_006e_d677int
        * 0x1_0000_0000_0000_0000int);
    lemma_odd_product(g ^ v, h ^ w, MULTIPLIER, 0xf1de_83e1_9937_733d, 0x957b_bf35_006e_d677);
    assert(g ^ v == h ^ w ==> (g == h <==> v == w)) by (bit_vector);
}

/// The avalanche maps no two states to one.
proof fn lemma_avalanche_loses_nothing(g: u64, h: u64)
    requires
        finish(g) == finish(h),
    ensures
        g == h,
{
    let a = (g ^ (g >> 30)).wrapping_mul(0xbf58_476d_1ce4_e5b9);
    let b = (a ^ (a >> 27)).wrapping_mul(0x94d0_49bb_1331_11eb);
    let c = (h ^ (h >> 30)).wrapping_mul(0xbf58_476d_1ce4_e5b9);
    let d = (c ^ (c >> 27)).wrapping_mul(0x94d0_49bb_1331_11eb);
    assert(b ^ (b >> 31) == d ^ (d >> 31) ==> b == d) by (bit_vector);
    assert(0x94d0_49bb_1331_11ebint * 0x3196_42b2_d24d_8ec3int == 1 + 0x1cd3_36ed_a85f_1453int
        * 0x1_0000_0000_0000_0000int);
    lemma_odd_product(a ^ (a >> 27), c ^ (c >> 27), 0x94d0_49bb_1331_11eb, 0x3196_42b2_d24d_8ec3, 0x1cd3_36ed_a85f_1453);
    assert(a ^ (a >> 27) == c ^ (c >> 27) ==> a == c) by (bit_vector);
    assert(0xbf58_476d_1ce4_e5b9int * 0x96de_1b17_3f11_9089int == 1 + 0x70c3_bca7_8f27_f46cint
        * 0x1_0000_0000_0000_0000int);
    lemma_odd_product(g ^ (g >> 30), h ^ (h >> 30), 0xbf58_476d_1ce4_e5b9, 0x96de_1b17_3f11_9089, 0x70c3_bca7_8f27_f46c);
    assert(g ^ (g >> 30) == h ^ (h >> 30) ==> g == h) by (bit_vector);
}

proof fn lemma_bytes_of_word(
    a0: u64,
    a1: u64,
    a2: u64,
    a3: u64,
    a4: u64,
    a5: u64,
    a6: u64,
    a7: u64,
)
    requires
        a0 < 256 && a1 < 256 && a2 < 256 && a3 < 256 && a4 < 256 && a5 < 256 && a6 < 256 && a7 < 256,
    ensures
        ({
            let w = a0 | (a1 << 8) | (a2 << 16) | (a3 << 24) | (a4 << 32) | (a5 << 40) | (a6 << 48) | (a7 << 56);
            &&& w & 0xff == a0
            &&& (w >> 8) & 0xff == a1
            &&& (w >> 16) & 0xff == a2
            &&& (w >> 24) & 0xff == a3
            &&& (w >> 32) & 0xff == a4
            &&& (w >> 40) & 0xff == a5
            &&& (w >> 48) & 0xff == a6
            &&& (w >> 56) & 0xff == a7
        }),
{
    let w = a0 | (a1 << 8) | (a2 << 16) | (a3 << 24) | (a4 << 32) | (a5 << 40) | (a6 << 48) | (a7 << 56);
    assert(w & 0xff == a0 && (w >> 8) & 0xff == a1 && (w >> 16) & 0xff == a2 && (w >> 24) & 0xff == a3 && (w >> 32) & 0xff == a4
        && (w >> 40) & 0xff == a5 && (w >> 48) & 0xff == a6 && (w >> 56) & 0xff == a7) by (bit_vector)
        requires
            w == a0 | (a1 << 8) | (a2 << 16) | (a3 << 24) | (a4 << 32) | (a5 << 40) | (a6 << 48) | (a7 << 56),
            a0 < 256 && a1 < 256 && a2 < 256 && a3 < 256 && a4 < 256 && a5 < 256 && a6 < 256 && a7 < 256,
    ;
}

/// Words that differ in a byte differ.
proof fn lemma_words_differ(s: Seq<u8>, t: Seq<u8>, i: int, k: int)
    requires
        0 <= k < 8,
        byte_at(s, i + k) != byte_at(t, i + k),
    ensures
        word_at(s, i) != word_at(t, i),
{
    lemma_bytes_of_word(
        byte_at(s, i),
        byte_at(s, i + 1),
        byte_at(s, i + 2),
        byte_at(s, i + 3),
        byte_at(s, i + 4),
        byte_at(s, i + 5),
        byte_at(s, i + 6),
        byte_at(s, i + 7),
    );
    lemma_bytes_of_word(
        byte_at(t, i),
        byte_at(t, i + 1),
        byte_at(t, i + 2),
        byte_at(t, i + 3),
        byte_at(t, i + 4),
        byte_at(t, i + 5),
        byte_at(t, i + 6),
        byte_at(t, i + 7),
    );
}

proof fn lemma_one_word_differs(s: Seq<u8>, t: Seq<u8>, h: u64, words: nat, j: int)
    requires
        0 <= j,
        forall|k: int| 0 <= k < words && k != j ==> #[trigger] word_at(s, 8 * k) == word_at(t, 8 * k),
        word_at(s, 8 * j) != word_at(t, 8 * j),
    ensures
        absorb_words(s, h, words) == absorb_words(t, h, words) <==> words <= j,
    decreases words,
{
    if words > 0 {
        let n = words - 1;
        lemma_one_word_differs(s, t, h, n as nat, j);
        let (g, k) = (absorb_words(s, h, n as nat), absorb_words(t, h, n as nat));
        if n != j {
            assert(word_at(s, 8 * n) == word_at(t, 8 * n));
        }
        if absorb_words(s, h, words) == absorb_words(t, h, words) {
            lemma_absorbing_loses_nothing(g, k, word_at(s, 8 * n), word_at(t, 8 * n));
        }
    }
}

/// No byte of a key is ignored: two keys that differ in one byte have different hashes.
pub proof fn lemma_no_byte_is_ignored(s: Seq<u8>, t: Seq<u8>, i: int)
    requires
        s.len() == t.len(),
        0 <= i < s.len(),
        s[i] != t[i],
        forall|j: int| 0 <= j < s.len() && j != i ==> #[trigger] s[j] == t[j],
    ensures
        key_hash(s) != key_hash(t),
{
    let words = ((s.len() + 7) / 8) as nat;
    let j = i / 8;
    let h = 0xcbf2_9ce4_8422_2325_u64 ^ ((s.len() as u64).wrapping_mul(MULTIPLIER));
    assert(byte_at(s, 8 * j + i % 8) != byte_at(t, 8 * j + i % 8));
    lemma_words_differ(s, t, 8 * j, i % 8);
    assert forall|k: int| 0 <= k < words && k != j implies #[trigger] word_at(s, 8 * k) == word_at(t, 8 * k) by {
        assert(8 * k + 7 < i || i < 8 * k);
        assert forall|x: int| 8 * k <= x < 8 * k + 8 implies #[trigger] byte_at(s, x) == byte_at(t, x) by {}
    }
    lemma_one_word_differs(s, t, h, words, j);
    if key_hash(s) == key_hash(t) {
        lemma_avalanche_loses_nothing(absorb_words(s, h, words), absorb_words(t, h, words));
    }
}

} // verus!
