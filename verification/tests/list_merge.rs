//! Merging of list values.

use forst_rs::list_merge::ListMergeCombiner;

#[test]
fn concatenates_in_arrival_order() {
    let c = ListMergeCombiner::new();
    let result = c.combine(&[b"A".to_vec(), b"B".to_vec(), b"C".to_vec()]);
    assert_eq!(result, b"ABC");
}

#[test]
fn idempotent_under_repeated_combine() {
    let c = ListMergeCombiner::new();
    let intermediate = c.combine(&[b"A".to_vec(), b"B".to_vec()]);
    let final_ = c.combine(&[intermediate, b"C".to_vec()]);
    assert_eq!(final_, b"ABC");
}

#[test]
fn empty_operand_list_returns_empty() {
    let c = ListMergeCombiner::new();
    assert_eq!(c.combine(&[]), Vec::<u8>::new());
}

#[test]
fn combine_with_base() {
    let c = ListMergeCombiner::new();
    let result = c.combine_with_base(b"BASE", &[b"X".to_vec(), b"Y".to_vec()]);
    assert_eq!(result, b"BASEXY");
}

#[test]
fn preserves_arbitrary_bytes() {
    let c = ListMergeCombiner::new();
    let result = c.combine(&[vec![0u8, 1, 2, 3], vec![0xFFu8, 0xFE], vec![], vec![0x55u8]]);
    assert_eq!(result, vec![0, 1, 2, 3, 0xFF, 0xFE, 0x55]);
}
