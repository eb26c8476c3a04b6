//! LEB128 variable-length integers.
//!
//! Component keys are two sorted lists of indices. Delta-encoding them and then writing the
//! deltas as varints turns a component over dense clause indices into roughly one byte per
//! clause, which matters because the memo stores every key in full.

use vstd::prelude::*;

verus! {

/// The LEB128 form of `v`: seven bits per byte, lowest first, the top bit set on all but the last.
pub open spec fn encode(v: nat) -> Seq<u8>
    decreases v,
{
    if v < 128 {
        seq![v as u8]
    } else {
        seq![(v % 128 + 128) as u8] + encode(v / 128)
    }
}

/// The number at the front of `s` and how many bytes it takes, if `s` does not end first.
pub open spec fn decode(s: Seq<u8>) -> Option<(nat, nat)>
    decreases s.len(),
{
    if s.len() == 0 {
        None
    } else if s[0] < 128 {
        Some((s[0] as nat, 1))
    } else {
        match decode(s.skip(1)) {
            Some((v, n)) => Some((((s[0] - 128) + 128 * v) as nat, n + 1)),
            None => None,
        }
    }
}

/// Reading back what was written gives the value and the bytes written, whatever follows.
pub proof fn lemma_round_trip(v: nat, rest: Seq<u8>)
    ensures
        decode(encode(v) + rest) == Some((v, encode(v).len())),
        (encode(v) + rest).skip(encode(v).len() as int) == rest,
        encode(v).len() >= 1,
    decreases v,
{
    let s = encode(v) + rest;
    assert(s.skip(encode(v).len() as int) =~= rest);
    if v >= 128 {
        lemma_round_trip(v / 128, rest);
        assert(s.skip(1) =~= encode(v / 128) + rest);
        assert(s[0] == (v % 128 + 128) as u8);
        assert(v == v % 128 + 128 * (v / 128)) by (nonlinear_arith);
    }
}

/// A value of at most `5` groups of seven bits takes at most that many bytes.
pub proof fn lemma_encode_len(v: nat)
    ensures
        v < 0x80 ==> encode(v).len() == 1,
        0x80 <= v < 0x4000 ==> encode(v).len() == 2,
        0x4000 <= v < 0x20_0000 ==> encode(v).len() == 3,
        0x20_0000 <= v < 0x1000_0000 ==> encode(v).len() == 4,
        0x1000_0000 <= v <= 0xffff_ffff ==> encode(v).len() == 5,
{
    reveal_with_fuel(encode, 6);
}

/// Encodings are prefix-free: equal concatenations agree on the number and on what follows.
pub proof fn lemma_prefix_free(a: nat, b: nat, x: Seq<u8>, y: Seq<u8>)
    requires
        encode(a) + x == encode(b) + y,
    ensures
        a == b,
        x == y,
{
    lemma_round_trip(a, x);
    lemma_round_trip(b, y);
}

/// Appends `value` to `out` in LEB128 form.
pub fn write_u32(out: &mut Vec<u8>, value: u32)
    ensures
        final(out)@ == old(out)@ + encode(value as nat),
{
    let mut v: u32 = value;
    while v >= 0x80
        invariant
            out@ + encode(v as nat) == old(out)@ + encode(value as nat),
        decreases v,
    {
        let ghost before = out@;
        let ghost w = v as nat;
        let byte: u8 = (v % 128) as u8 + 128;
        out.push(byte);
        v = v / 128;
        assert(out@ + encode(v as nat) =~= before + encode(w));
    }
    let ghost before = out@;
    out.push(v as u8);
    assert(out@ =~= before + encode(v as nat));
}

/// Reads a LEB128 integer from the front of `input`, returning it and the bytes consumed.
///
/// Returns `None` if the input ends mid-number, the number takes more than five bytes, or the
/// value does not fit in a `u32`.
pub fn read_u32(input: &[u8]) -> (r: Option<(u32, usize)>)
    ensures
        r is Some <==> (decode(input@) matches Some((v, n)) && n <= 5 && v <= u32::MAX),
        r matches Some((v, n)) ==> decode(input@) == Some((v as nat, n as nat)),
{
    let mut value: u64 = 0;
    let mut scale: u64 = 1;
    let mut i: usize = 0;
    assert(input@.skip(0) =~= input@);
    while i < input.len()
        invariant
            i <= input@.len(),
            i <= 4,
            i == 0 ==> scale == 1,
            i == 1 ==> scale == 0x80,
            i == 2 ==> scale == 0x4000,
            i == 3 ==> scale == 0x20_0000,
            i == 4 ==> scale == 0x1000_0000,
            value < scale,
            decode(input@) == (match decode(input@.skip(i as int)) {
                Some((v, n)) => Some((value as nat + scale as nat * v, n + i as nat)),
                None => None,
            }),
        decreases input@.len() - i,
    {
        let byte: u8 = input[i];
        let payload: u64 = (byte % 128) as u64;
        let ghost rest = input@.skip(i as int);
        let ghost next = input@.skip(i + 1);
        let ghost old_value = value as nat;
        let ghost old_scale = scale as nat;
        proof {
            assert(rest[0] == byte);
            assert(rest.skip(1) =~= next);
            assert(payload * scale <= 127 * scale) by (nonlinear_arith)
                requires
                    payload <= 127,
            ;
        }
        value = value + payload * scale;
        if byte < 128 {
            proof {
                assert(decode(rest) == Some((byte as nat, 1nat)));
                assert(old_scale * (byte as nat) == payload * old_scale) by (nonlinear_arith)
                    requires
                        payload == byte as nat,
                ;
            }
            if value > 0xffff_ffff {
                return None;
            }
            return Some((value as u32, i + 1));
        }
        proof {
            match decode(next) {
                Some((v, n)) => {
                    assert(old_value + old_scale * ((byte - 128) + 128 * v) == value + (128 * old_scale) * v)
                        by (nonlinear_arith)
                        requires
                            value == old_value + payload * old_scale,
                            payload == byte - 128,
                    ;
                },
                None => {},
            }
        }
        if i == 4 {
            proof {
                match decode(next) {
                    Some((v, n)) => {
                        lemma_decode_len(next);
                    },
                    None => {},
                }
            }
            return None;
        }
        scale = scale * 128;
        i = i + 1;
    }
    assert(input@.skip(i as int) =~= Seq::<u8>::empty());
    None
}

/// A number takes at least one byte.
proof fn lemma_decode_len(s: Seq<u8>)
    ensures
        decode(s) matches Some((v, n)) ==> 1 <= n <= s.len(),
    decreases s.len(),
{
    if s.len() > 0 && s[0] >= 128 {
        lemma_decode_len(s.skip(1));
    }
}

} // verus!
