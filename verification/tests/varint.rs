//! Variable-length integers.

use dpbst_core::varint::{read_u32, write_u32};

#[test]
fn round_trips_across_width_boundaries() {
    let values = [0, 1, 127, 128, 129, 16_383, 16_384, 1 << 21, u32::MAX];
    let mut buf = Vec::new();
    for v in values {
        buf.clear();
        write_u32(&mut buf, v);
        assert_eq!(read_u32(&buf), Some((v, buf.len())), "value {v}");
    }
}

#[test]
fn small_values_take_one_byte() {
    let mut buf = Vec::new();
    write_u32(&mut buf, 127);
    assert_eq!(buf.len(), 1);
    buf.clear();
    write_u32(&mut buf, 128);
    assert_eq!(buf.len(), 2);
}

#[test]
fn a_sequence_decodes_in_order() {
    let mut buf = Vec::new();
    for v in [5u32, 300, 7] {
        write_u32(&mut buf, v);
    }
    let mut rest = &buf[..];
    let mut got = Vec::new();
    while let Some((v, n)) = read_u32(rest) {
        got.push(v);
        rest = &rest[n..];
    }
    assert_eq!(got, vec![5, 300, 7]);
}

#[test]
fn truncated_input_is_rejected() {
    assert_eq!(read_u32(&[]), None);
    assert_eq!(read_u32(&[0x80]), None, "continuation bit set but no follow-up byte");
}

#[test]
fn overlong_encoding_is_rejected() {
    assert_eq!(read_u32(&[0x80, 0x80, 0x80, 0x80, 0x80, 0x01]), None);
}
