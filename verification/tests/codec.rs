//! Round trips and error cases of the wire primitives and sequence numbers.

use raknet::codec::{
    decode_addr, decode_advert, decode_bool, decode_i8, decode_magic, decode_padding, decode_u16_be,
    decode_u16_le, decode_u24_le, decode_u32_be, decode_u64_be, decode_u8, decode_varint,
    decode_varuint, default_magic, encode_addr, encode_advert, encode_bool, encode_i8,
    encode_magic, encode_padding, encode_u16_be, encode_u16_le, encode_u24_le, encode_u32_be,
    encode_u64_be, encode_u8, encode_varint, encode_varuint, DecodeError, RakAddr,
};
use raknet::sequence::Sequence24;

#[test]
fn bool_roundtrip() {
    for &v in &[false, true] {
        let mut buf = Vec::new();
        encode_bool(v, &mut buf);
        let decoded = decode_bool(&buf, 0).unwrap().0;
        assert_eq!(decoded, v);
    }
}

#[test]
fn magic_roundtrip() {
    let value = vec![0x12u8; 16];
    let mut buf = Vec::new();
    encode_magic(&value, &mut buf);
    let decoded = decode_magic(&buf, 0).unwrap().0;
    assert_eq!(decoded, value);
}

#[test]
fn wraps_on_next() {
    let max = Sequence24::new(0xffffff);
    assert_eq!(max.next().value(), 0);
}

#[test]
fn ordering_handles_wrap() {
    let a = Sequence24::new(0xffffff);
    let b = a.next();
    assert!(b > a);
}

#[test]
fn fixed_int_roundtrips() {
    let mut buf = Vec::new();
    encode_u8(0xab, &mut buf);
    encode_i8(-100, &mut buf);
    encode_u16_be(0x1234, &mut buf);
    encode_u16_le(0x1234, &mut buf);
    encode_u24_le(0xabcdef, &mut buf);
    encode_u32_be(0xdeadbeef, &mut buf);
    encode_u64_be(0x0123456789abcdef, &mut buf);
    let (v1, p) = decode_u8(&buf, 0).unwrap();
    let (v2, p) = decode_i8(&buf, p).unwrap();
    let (v3, p) = decode_u16_be(&buf, p).unwrap();
    let (v4, p) = decode_u16_le(&buf, p).unwrap();
    let (v5, p) = decode_u24_le(&buf, p).unwrap();
    let (v6, p) = decode_u32_be(&buf, p).unwrap();
    let (v7, p) = decode_u64_be(&buf, p).unwrap();
    assert_eq!(v1, 0xab);
    assert_eq!(v2, -100);
    assert_eq!(v3, 0x1234);
    assert_eq!(v4, 0x1234);
    assert_eq!(v5, 0xabcdef);
    assert_eq!(v6, 0xdeadbeef);
    assert_eq!(v7, 0x0123456789abcdef);
    assert_eq!(p, buf.len());
    // big-endian u16 puts the high byte first; the little-endian form flips it
    assert_eq!(&buf[2..4], &[0x12, 0x34]);
    assert_eq!(&buf[4..6], &[0x34, 0x12]);
    // the 24-bit form is little-endian
    assert_eq!(&buf[6..9], &[0xef, 0xcd, 0xab]);
}

#[test]
fn varuint_roundtrip() {
    for &v in &[0u64, 1, 127, 128, 300, 16383, 16384, u64::MAX] {
        let mut buf = Vec::new();
        encode_varuint(v, &mut buf);
        let (decoded, end) = decode_varuint(&buf, 0).unwrap();
        assert_eq!(decoded, v);
        assert_eq!(end, buf.len());
    }
    // one-byte values use one byte; 128 takes two
    let mut buf = Vec::new();
    encode_varuint(127, &mut buf);
    assert_eq!(buf, vec![127]);
    let mut buf = Vec::new();
    encode_varuint(128, &mut buf);
    assert_eq!(buf, vec![0x80, 0x01]);
}

#[test]
fn varuint_too_long_is_rejected() {
    // eleven continuation bytes consume more than 64 bits
    let buf = vec![0x80u8; 11];
    match decode_varuint(&buf, 0) {
        Err(DecodeError::VarIntExceedsLimit) => {},
        other => panic!("expected VarIntExceedsLimit, got {:?}", other.is_ok()),
    }
}

#[test]
fn varint_roundtrip() {
    for &v in &[0i64, 1, -1, 63, -64, 64, -65, i64::MAX, i64::MIN] {
        let mut buf = Vec::new();
        encode_varint(v, &mut buf);
        let (decoded, end) = decode_varint(&buf, 0).unwrap();
        assert_eq!(decoded, v);
        assert_eq!(end, buf.len());
    }
}

#[test]
fn addr_v4_roundtrip_and_inversion() {
    let a = RakAddr::V4 { ip: [192, 168, 1, 10], port: 19132 };
    let mut buf = Vec::new();
    encode_addr(&a, &mut buf);
    assert_eq!(buf[0], 4);
    // the octets travel inverted
    assert_eq!(buf[1], !192u8);
    assert_eq!(buf[2], !168u8);
    let (b, end) = decode_addr(&buf, 0).unwrap();
    assert_eq!(end, 7);
    assert_eq!(b, a);
}

#[test]
fn addr_v6_roundtrip() {
    let a = RakAddr::V6 {
        ip: [0, 1, 2, 3, 4, 5, 6, 7, 8, 9, 10, 11, 12, 13, 14, 15],
        port: 19133,
        flowinfo: 7,
        scope_id: 3,
    };
    let mut buf = Vec::new();
    encode_addr(&a, &mut buf);
    assert_eq!(buf.len(), 29);
    assert_eq!(buf[0], 6);
    let (b, end) = decode_addr(&buf, 0).unwrap();
    assert_eq!(end, 29);
    assert_eq!(b, a);
}

#[test]
fn addr_unknown_version_is_rejected() {
    let buf = vec![9u8, 0, 0, 0, 0, 0, 0];
    match decode_addr(&buf, 0) {
        Err(DecodeError::InvalidAddrVersion(9)) => {},
        _ => panic!("expected InvalidAddrVersion"),
    }
}

#[test]
fn advert_roundtrip() {
    let ad = Some(b"MCPE;x;19132".to_vec());
    let mut buf = Vec::new();
    encode_advert(&ad, &mut buf);
    let (decoded, end) = decode_advert(&buf, 0).unwrap();
    assert_eq!(decoded, ad);
    assert_eq!(end, buf.len());
    // absence writes no bytes at all and reads back as absent
    let mut buf = Vec::new();
    encode_advert(&None, &mut buf);
    assert!(buf.is_empty());
    assert_eq!(decode_advert(&buf, 0).unwrap().0, None);
}

#[test]
fn padding_runs_to_end() {
    let mut buf = Vec::new();
    encode_padding(5, &mut buf);
    assert_eq!(buf, vec![0u8; 5]);
    let (n, end) = decode_padding(&buf, 0);
    assert_eq!(n, 5);
    assert_eq!(end, 5);
}

#[test]
fn short_buffers_are_rejected() {
    let buf = vec![1u8];
    assert!(matches!(decode_u16_be(&buf, 0), Err(DecodeError::UnexpectedEof)));
    assert!(matches!(decode_u64_be(&buf, 0), Err(DecodeError::UnexpectedEof)));
    assert!(matches!(decode_magic(&buf, 0), Err(DecodeError::UnexpectedEof)));
}

#[test]
fn sequence_next_prev_inverse() {
    for &v in &[0u32, 1, 0x7fffff, 0x800000, 0xfffffe, 0xffffff] {
        let x = Sequence24::new(v);
        assert_eq!(x.prev().next().value(), v);
        assert_eq!(x.next().prev().value(), v);
    }
}

#[test]
fn sequence_comparison_is_antisymmetric() {
    let a = Sequence24::new(5);
    let b = Sequence24::new(9);
    assert!(a < b);
    assert!(b > a);
    assert!(a.partial_cmp(&a) == Some(std::cmp::Ordering::Equal));
    // the pair at half the space apart compares in neither direction
    let c = Sequence24::new(0);
    let d = Sequence24::new(0x800000);
    assert!(c.partial_cmp(&d).is_none());
    assert!(d.partial_cmp(&c).is_none());
}

#[test]
fn default_magic_bytes() {
    let m = default_magic();
    assert_eq!(
        m,
        vec![
            0x00, 0xFF, 0xFF, 0x00, 0xFE, 0xFE, 0xFE, 0xFE, 0xFD, 0xFD, 0xFD, 0xFD, 0x12, 0x34,
            0x56, 0x78
        ]
    );
}
