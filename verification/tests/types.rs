//! Identifiers, keys and key ranges.

use forst_rs::types::{
    ColumnFamilyId, CompressionType, FileNumber, InternalKey, KeyRange, Level, OpType, SequenceNumber,
    DEFAULT_CF_ID, MAX_LEVELS, MAX_SEQUENCE_NUMBER,
};

#[test]
fn test_op_type_repr_values() {
    assert_eq!(OpType::Put.as_u8(), 0);
    assert_eq!(OpType::Delete.as_u8(), 1);
    assert_eq!(OpType::SingleDelete.as_u8(), 2);
    assert_eq!(OpType::Merge.as_u8(), 3);
}

#[test]
fn test_op_type_from_u8_valid() {
    assert_eq!(OpType::from_u8(0), Some(OpType::Put));
    assert_eq!(OpType::from_u8(1), Some(OpType::Delete));
    assert_eq!(OpType::from_u8(2), Some(OpType::SingleDelete));
    assert_eq!(OpType::from_u8(3), Some(OpType::Merge));
}

#[test]
fn test_op_type_from_u8_invalid() {
    assert_eq!(OpType::from_u8(4), None);
    assert_eq!(OpType::from_u8(255), None);
}

#[test]
fn test_op_type_display() {
    assert_eq!(OpType::Put.to_string(), "Put");
    assert_eq!(OpType::Delete.to_string(), "Delete");
    assert_eq!(OpType::SingleDelete.to_string(), "SingleDelete");
    assert_eq!(OpType::Merge.to_string(), "Merge");
}

#[test]
fn test_file_number_display_zero_padded() {
    assert_eq!(FileNumber(0).to_string(), "000000");
    assert_eq!(FileNumber(1).to_string(), "000001");
    assert_eq!(FileNumber(42).to_string(), "000042");
    assert_eq!(FileNumber(999999).to_string(), "999999");
    assert_eq!(FileNumber(1_000_000).to_string(), "1000000");
}

#[test]
fn test_file_number_ordering() {
    assert!(FileNumber(1) < FileNumber(2));
    assert!(FileNumber(100) > FileNumber(99));
    assert_eq!(FileNumber(5), FileNumber(5));
}

#[test]
fn test_file_number_value() {
    assert_eq!(FileNumber(42).value(), 42);
}

#[test]
fn test_sequence_number_max_constant() {
    assert_eq!(MAX_SEQUENCE_NUMBER, 0x00FF_FFFF_FFFF_FFFF);
    assert_eq!(MAX_SEQUENCE_NUMBER, (1u64 << 56) - 1);
}

#[test]
fn test_sequence_number_ordering() {
    assert!(SequenceNumber(1) < SequenceNumber(2));
    assert!(SequenceNumber(100) > SequenceNumber(0));
}

#[test]
fn test_sequence_number_display() {
    assert_eq!(SequenceNumber(12345).to_string(), "12345");
}

#[test]
fn test_sequence_number_try_new_in_range() {
    let s = SequenceNumber::try_new(0).unwrap();
    assert_eq!(s, SequenceNumber(0));
    let s = SequenceNumber::try_new(MAX_SEQUENCE_NUMBER).unwrap();
    assert_eq!(s, SequenceNumber(MAX_SEQUENCE_NUMBER));
}

#[test]
fn test_sequence_number_try_new_rejects_above_56_bits() {
    let res = SequenceNumber::try_new(MAX_SEQUENCE_NUMBER + 1);
    assert!(res.is_err(), "expected error, got {:?}", res);
    let err = res.unwrap_err();
    assert!(
        err.is_invalid_argument(),
        "expected InvalidArgument variant, got {:?}",
        err
    );
    let res = SequenceNumber::try_new(u64::MAX);
    assert!(res.is_err(), "u64::MAX must be rejected");
}


#[test]
fn test_level_try_new_in_range() {
    for v in 0..MAX_LEVELS as u8 {
        let lvl = Level::try_new(v).unwrap();
        assert_eq!(lvl, Level(v));
    }
}

#[test]
fn test_level_try_new_rejects_out_of_range() {
    let res = Level::try_new(MAX_LEVELS as u8);
    assert!(res.is_err(), "Level({}) should be rejected", MAX_LEVELS);
    let err = res.unwrap_err();
    assert!(err.is_invalid_argument());
    let res = Level::try_new(255);
    assert!(res.is_err(), "Level(255) should be rejected");
}

#[test]
fn test_default_cf_id() {
    assert_eq!(ColumnFamilyId(DEFAULT_CF_ID), ColumnFamilyId(0));
}

#[test]
fn test_column_family_id_display() {
    assert_eq!(ColumnFamilyId(7).to_string(), "7");
}

#[test]
fn test_compression_type_default_is_lz4() {
    assert_eq!(CompressionType::default(), CompressionType::Lz4);
}

#[test]
fn test_compression_type_repr_values() {
    assert_eq!(CompressionType::NoCompression.as_u8(), 0);
    assert_eq!(CompressionType::Lz4.as_u8(), 1);
    assert_eq!(CompressionType::Zstd.as_u8(), 2);
}

#[test]
fn test_compression_type_display() {
    assert_eq!(CompressionType::NoCompression.to_string(), "None");
    assert_eq!(CompressionType::Lz4.to_string(), "LZ4");
    assert_eq!(CompressionType::Zstd.to_string(), "Zstd");
}

#[test]
fn test_level_display() {
    assert_eq!(Level(0).to_string(), "L0");
    assert_eq!(Level(6).to_string(), "L6");
}

#[test]
fn test_level_ordering() {
    assert!(Level(0) < Level(1));
    assert!(Level(6) > Level(3));
}

#[test]
fn test_max_levels_constant() {
    assert_eq!(MAX_LEVELS, 7);
}

#[test]
fn test_internal_key_accessors() {
    let key = InternalKey::new(b"hello".to_vec(), SequenceNumber(100), OpType::Put);
    assert_eq!(key.user_key(), b"hello");
    assert_eq!(key.sequence(), SequenceNumber(100));
    assert_eq!(key.op_type(), OpType::Put);
}

#[test]
fn test_internal_key_ordering_user_key_ascending() {
    let a = InternalKey::new(b"aaa".to_vec(), SequenceNumber(1), OpType::Put);
    let b = InternalKey::new(b"bbb".to_vec(), SequenceNumber(1), OpType::Put);
    assert!(a < b);
}

#[test]
fn test_internal_key_ordering_sequence_descending() {
    let newer = InternalKey::new(b"key".to_vec(), SequenceNumber(100), OpType::Put);
    let older = InternalKey::new(b"key".to_vec(), SequenceNumber(1), OpType::Put);
    assert!(
        newer < older,
        "newer (higher seq) should sort before older (lower seq)"
    );
}

#[test]
fn test_internal_key_ordering_op_type_tiebreak() {
    let put = InternalKey::new(b"key".to_vec(), SequenceNumber(1), OpType::Put);
    let del = InternalKey::new(b"key".to_vec(), SequenceNumber(1), OpType::Delete);
    assert!(put < del);
}

#[test]
fn test_internal_key_equality() {
    let a = InternalKey::new(b"key".to_vec(), SequenceNumber(5), OpType::Merge);
    let b = InternalKey::new(b"key".to_vec(), SequenceNumber(5), OpType::Merge);
    assert_eq!(a, b);
}

#[test]
fn test_internal_key_display() {
    let key = InternalKey::new(b"\x01\xab".to_vec(), SequenceNumber(42), OpType::Delete);
    assert_eq!(key.to_string(), "01ab @ 42 (Delete)");
}

#[test]
fn test_key_range_contains() {
    let range = KeyRange::new(b"b".to_vec(), b"d".to_vec());
    assert!(!range.contains(b"a"));
    assert!(range.contains(b"b"));
    assert!(range.contains(b"c"));
    assert!(!range.contains(b"d"));
    assert!(!range.contains(b"e"));
}

#[test]
fn test_key_range_overlaps() {
    let r1 = KeyRange::new(b"a".to_vec(), b"d".to_vec());
    let r2 = KeyRange::new(b"c".to_vec(), b"f".to_vec());
    assert!(r1.overlaps(&r2));
    assert!(r2.overlaps(&r1));
}

#[test]
fn test_key_range_no_overlap_adjacent() {
    let r1 = KeyRange::new(b"a".to_vec(), b"c".to_vec());
    let r2 = KeyRange::new(b"c".to_vec(), b"f".to_vec());
    assert!(!r1.overlaps(&r2));
    assert!(!r2.overlaps(&r1));
}

#[test]
fn test_key_range_is_empty() {
    let empty = KeyRange::new(b"x".to_vec(), b"x".to_vec());
    assert!(empty.is_empty());

    let inverted = KeyRange::new(b"z".to_vec(), b"a".to_vec());
    assert!(inverted.is_empty());

    let valid = KeyRange::new(b"a".to_vec(), b"z".to_vec());
    assert!(!valid.is_empty());
}

#[test]
fn test_key_range_empty_contains_nothing() {
    let empty = KeyRange::new(b"x".to_vec(), b"x".to_vec());
    assert!(!empty.contains(b"x"));
    assert!(!empty.contains(b"a"));
}

#[test]
fn test_key_range_empty_overlaps_nothing() {
    let empty = KeyRange::new(b"c".to_vec(), b"c".to_vec());
    let valid = KeyRange::new(b"a".to_vec(), b"z".to_vec());
    assert!(!empty.overlaps(&valid));
    assert!(!valid.overlaps(&empty));
}

#[test]
fn test_key_range_display() {
    let range = KeyRange::new(b"\x00\xff".to_vec(), b"\x01\x00".to_vec());
    assert_eq!(range.to_string(), "[00ff, 0100)");
}
