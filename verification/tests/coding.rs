//! Fixed-width and variable-length integers.

use forst_rs::coding::{
    get_fixed32, get_fixed64, get_varint32, get_varint64, put_fixed32, put_fixed64, put_varint32,
    put_varint64, varint32_length, varint64_length,
};

#[test]
fn test_fixed32_roundtrip() {
    for &v in &[0u32, 1, 255, 256, 65535, u32::MAX] {
        let mut buf = Vec::new();
        put_fixed32(&mut buf, v);
        assert_eq!(buf.len(), 4);
        let (decoded, consumed) = get_fixed32(&buf).unwrap();
        assert_eq!(decoded, v);
        assert_eq!(consumed, 4);
    }
}

#[test]
fn test_fixed64_roundtrip() {
    for &v in &[0u64, 1, u32::MAX as u64, u64::MAX] {
        let mut buf = Vec::new();
        put_fixed64(&mut buf, v);
        assert_eq!(buf.len(), 8);
        let (decoded, consumed) = get_fixed64(&buf).unwrap();
        assert_eq!(decoded, v);
        assert_eq!(consumed, 8);
    }
}

#[test]
fn test_fixed32_short_input() {
    assert!(get_fixed32(&[1, 2, 3]).is_err());
    assert!(get_fixed32(&[]).is_err());
}

#[test]
fn test_fixed64_short_input() {
    assert!(get_fixed64(&[1, 2, 3, 4, 5, 6, 7]).is_err());
    assert!(get_fixed64(&[]).is_err());
}

#[test]
fn test_fixed_little_endian() {
    let mut buf = Vec::new();
    put_fixed32(&mut buf, 0x04030201);
    assert_eq!(&buf, &[0x01, 0x02, 0x03, 0x04]);
}

#[test]
fn test_varint32_single_byte() {
    for v in 0..128u32 {
        let mut buf = Vec::new();
        put_varint32(&mut buf, v);
        assert_eq!(buf.len(), 1);
        let (decoded, consumed) = get_varint32(&buf).unwrap();
        assert_eq!(decoded, v);
        assert_eq!(consumed, 1);
    }
}

#[test]
fn test_varint32_multi_byte() {
    let cases: &[(u32, usize)] = &[
        (128, 2),
        (16383, 2),
        (16384, 3),
        (2_097_151, 3),
        (2_097_152, 4),
        (268_435_455, 4),
        (268_435_456, 5),
        (u32::MAX, 5),
    ];
    for &(value, expected_len) in cases {
        let mut buf = Vec::new();
        put_varint32(&mut buf, value);
        assert_eq!(buf.len(), expected_len, "encoding length for {}", value);
        let (decoded, consumed) = get_varint32(&buf).unwrap();
        assert_eq!(decoded, value);
        assert_eq!(consumed, expected_len);
    }
}

#[test]
fn test_varint64_roundtrip() {
    let cases: &[u64] = &[
        0,
        1,
        127,
        128,
        16383,
        16384,
        u32::MAX as u64,
        u64::MAX >> 1,
        u64::MAX,
    ];
    for &v in cases {
        let mut buf = Vec::new();
        put_varint64(&mut buf, v);
        let (decoded, consumed) = get_varint64(&buf).unwrap();
        assert_eq!(decoded, v, "roundtrip for {}", v);
        assert_eq!(consumed, buf.len());
    }
}

#[test]
fn test_varint32_empty_input() {
    assert!(get_varint32(&[]).is_err());
}

#[test]
fn test_varint64_empty_input() {
    assert!(get_varint64(&[]).is_err());
}

#[test]
fn test_varint32_length() {
    assert_eq!(varint32_length(0), 1);
    assert_eq!(varint32_length(127), 1);
    assert_eq!(varint32_length(128), 2);
    assert_eq!(varint32_length(u32::MAX), 5);
}

#[test]
fn test_varint64_length() {
    assert_eq!(varint64_length(0), 1);
    assert_eq!(varint64_length(127), 1);
    assert_eq!(varint64_length(128), 2);
    assert_eq!(varint64_length(u64::MAX), 10);
}

#[test]
fn test_multiple_varints_sequential() {
    let mut buf = Vec::new();
    put_varint32(&mut buf, 100);
    put_varint32(&mut buf, 200);
    put_varint64(&mut buf, 300);

    let (v1, n1) = get_varint32(&buf).unwrap();
    assert_eq!(v1, 100);
    let (v2, n2) = get_varint32(&buf[n1..]).unwrap();
    assert_eq!(v2, 200);
    let (v3, _n3) = get_varint64(&buf[n1 + n2..]).unwrap();
    assert_eq!(v3, 300);
}

#[test]
fn test_mixed_fixed_and_varint() {
    let mut buf = Vec::new();
    put_fixed32(&mut buf, 42);
    put_varint32(&mut buf, 999);
    put_fixed64(&mut buf, 123456789);

    let (v1, n1) = get_fixed32(&buf).unwrap();
    assert_eq!(v1, 42);
    let (v2, n2) = get_varint32(&buf[n1..]).unwrap();
    assert_eq!(v2, 999);
    let (v3, _) = get_fixed64(&buf[n1 + n2..]).unwrap();
    assert_eq!(v3, 123456789);
}

#[test]
fn test_varint32_non_canonical_5th_byte_high_bits() {
    let buf: [u8; 5] = [0x80, 0x80, 0x80, 0x80, 0x10];
    let res = get_varint32(&buf);
    assert!(res.is_err(), "expected corruption, got {:?}", res);
    let err = res.unwrap_err();
    assert!(
        err.is_corruption(),
        "expected Corruption variant, got {:?}",
        err
    );
    let msg = err.to_string();
    assert!(
        msg.contains("non-canonical") && msg.contains("5th byte"),
        "expected non-canonical 5th-byte error, got: {}",
        msg
    );
}

#[test]
fn test_varint32_canonical_5th_byte_low_bits_ok() {
    let mut buf = Vec::new();
    put_varint32(&mut buf, u32::MAX);
    let (v, n) = get_varint32(&buf).unwrap();
    assert_eq!(v, u32::MAX);
    assert_eq!(n, 5);
}

#[test]
fn test_varint64_non_canonical_10th_byte_high_bits() {
    let buf: [u8; 10] = [0x80, 0x80, 0x80, 0x80, 0x80, 0x80, 0x80, 0x80, 0x80, 0x02];
    let res = get_varint64(&buf);
    assert!(res.is_err(), "expected corruption, got {:?}", res);
    let err = res.unwrap_err();
    assert!(
        err.is_corruption(),
        "expected Corruption variant, got {:?}",
        err
    );
    let msg = err.to_string();
    assert!(
        msg.contains("non-canonical") && msg.contains("10th byte"),
        "expected non-canonical 10th-byte error, got: {}",
        msg
    );
}

#[test]
fn test_varint64_canonical_10th_byte_low_bit_ok() {
    let mut buf = Vec::new();
    put_varint64(&mut buf, u64::MAX);
    let (v, n) = get_varint64(&buf).unwrap();
    assert_eq!(v, u64::MAX);
    assert_eq!(n, 10);
}
