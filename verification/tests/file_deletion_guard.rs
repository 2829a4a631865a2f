//! Pins on files.

use forst_rs::file_deletion_guard::FileDeletionGuard;
use forst_rs::types::FileNumber;

#[test]
fn test_new_guard_is_empty() {
    let g = FileDeletionGuard::new();
    assert_eq!(g.pin_count(FileNumber(1)), 0);
    assert!(g.can_delete(FileNumber(1)));
}

#[test]
fn test_pin_increments_count() {
    let mut g = FileDeletionGuard::new();
    g.pin(FileNumber(1));
    assert_eq!(g.pin_count(FileNumber(1)), 1);
    g.pin(FileNumber(1));
    assert_eq!(g.pin_count(FileNumber(1)), 2);
}

#[test]
fn test_unpin_decrements_count() {
    let mut g = FileDeletionGuard::new();
    g.pin(FileNumber(1));
    g.pin(FileNumber(1));
    g.unpin(FileNumber(1));
    assert_eq!(g.pin_count(FileNumber(1)), 1);
    g.unpin(FileNumber(1));
    assert_eq!(g.pin_count(FileNumber(1)), 0);
}

#[test]
fn test_unpin_never_goes_negative() {
    let mut g = FileDeletionGuard::new();
    g.unpin(FileNumber(7));
    assert_eq!(g.pin_count(FileNumber(7)), 0);
}

#[test]
fn test_can_delete_reflects_pin_count() {
    let mut g = FileDeletionGuard::new();
    assert!(g.can_delete(FileNumber(1)));
    g.pin(FileNumber(1));
    assert!(!g.can_delete(FileNumber(1)));
    g.unpin(FileNumber(1));
    assert!(g.can_delete(FileNumber(1)));
}

#[test]
fn test_pinned_files_snapshot() {
    let mut g = FileDeletionGuard::new();
    g.pin(FileNumber(1));
    g.pin(FileNumber(7));
    g.pin(FileNumber(3));
    let mut pinned = g.pinned_files();
    pinned.sort_by_key(|f| f.value());
    assert_eq!(pinned, vec![FileNumber(1), FileNumber(3), FileNumber(7)]);
}

#[test]
fn test_pin_batch_acquires_all() {
    let mut g = FileDeletionGuard::new();
    let handle = g.pin_batch(&[FileNumber(1), FileNumber(2), FileNumber(3)]);
    assert_eq!(g.pin_count(FileNumber(1)), 1);
    assert_eq!(g.pin_count(FileNumber(2)), 1);
    assert_eq!(g.pin_count(FileNumber(3)), 1);
    handle.release(&mut g);
    assert!(g.can_delete(FileNumber(1)));
    assert!(g.can_delete(FileNumber(2)));
    assert!(g.can_delete(FileNumber(3)));
}

#[test]
fn test_pin_batch_release_explicit() {
    let mut g = FileDeletionGuard::new();
    let handle = g.pin_batch(&[FileNumber(5)]);
    assert_eq!(g.pin_count(FileNumber(5)), 1);
    handle.release(&mut g);
    assert_eq!(g.pin_count(FileNumber(5)), 0);
}

#[test]
fn test_nested_batches_accumulate() {
    let mut g = FileDeletionGuard::new();
    let h1 = g.pin_batch(&[FileNumber(1)]);
    let h2 = g.pin_batch(&[FileNumber(1)]);
    assert_eq!(g.pin_count(FileNumber(1)), 2);
    h1.release(&mut g);
    assert_eq!(g.pin_count(FileNumber(1)), 1);
    h2.release(&mut g);
    assert_eq!(g.pin_count(FileNumber(1)), 0);
}

#[test]
fn test_pinhandle_files_accessor() {
    let mut g = FileDeletionGuard::new();
    let h = g.pin_batch(&[FileNumber(1), FileNumber(2)]);
    assert_eq!(h.files(), &[FileNumber(1), FileNumber(2)]);
}


#[test]
fn repeated_files_in_a_batch_count_each_time() {
    let mut g = FileDeletionGuard::new();
    let h = g.pin_batch(&[FileNumber(4), FileNumber(4), FileNumber(9)]);
    assert_eq!(g.pin_count(FileNumber(4)), 2);
    assert_eq!(g.pin_count(FileNumber(9)), 1);
    g.pin(FileNumber(9));
    h.release(&mut g);
    assert!(g.can_delete(FileNumber(4)));
    assert_eq!(g.pin_count(FileNumber(9)), 1);
}

fn assert_send_sync<T: Send + Sync>() {}

#[test]
fn test_guard_is_send_sync() {
    assert_send_sync::<FileDeletionGuard>();
}
