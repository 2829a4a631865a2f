//! Checksums and their masked form.

use forst_rs::checksum::{crc32c, crc32c_extend, mask_crc, unmask_crc};

#[test]
fn test_crc32c_empty() {
    let crc = crc32c(&[]);
    assert_eq!(crc, 0);
}

#[test]
fn test_crc32c_hello() {
    let crc = crc32c(b"hello");
    assert_eq!(crc, crc32c(b"hello"));
    assert_ne!(crc, crc32c(b"world"));
}

#[test]
fn test_crc32c_extend_equivalent() {
    let data = b"hello world";
    let full = crc32c(data);
    let partial = crc32c(b"hello ");
    let extended = crc32c_extend(partial, b"world");
    assert_eq!(full, extended);
}

#[test]
fn test_mask_unmask_roundtrip() {
    for &crc in &[0u32, 1, 0xDEADBEEF, u32::MAX] {
        let masked = mask_crc(crc);
        let unmasked = unmask_crc(masked);
        assert_eq!(unmasked, crc, "roundtrip failed for {:#x}", crc);
    }
}

#[test]
fn test_mask_changes_value() {
    let crc = crc32c(b"test data");
    let masked = mask_crc(crc);
    assert_ne!(crc, masked, "mask should change the value");
}

#[test]
fn test_crc32c_large_data() {
    let data = vec![0u8; 4096];
    let crc = crc32c(&data);
    assert_eq!(crc, crc32c(&data));
}

#[test]
fn test_crc32c_incremental_chunks() {
    let data = b"The quick brown fox jumps over the lazy dog";
    let full_crc = crc32c(data);

    let crc1 = crc32c(&data[..10]);
    let crc2 = crc32c_extend(crc1, &data[10..20]);
    let crc3 = crc32c_extend(crc2, &data[20..]);
    assert_eq!(full_crc, crc3);
}

#[test]
fn known_checksums() {
    assert_eq!(crc32c(b"123456789"), 0xe306_9283);
    assert_eq!(crc32c(&[0u8; 32]), 0x8a91_36aa);
    assert_eq!(crc32c(&[0xffu8; 32]), 0x62a8_ab43);
}

#[test]
fn known_masked_value() {
    assert_eq!(mask_crc(0), 0xa282_ead8);
    assert_eq!(unmask_crc(0xa282_ead8), 0);
    assert_eq!(mask_crc(0x0000_8000), 0xa282_ead9);
}
