//! Snapshots, versioned reads and the retention policy.

use forst_rs::error::ForstResult;
use forst_rs::merge_operator::MergeOperator;
use forst_rs::mvcc::compaction_policy::should_drop;
use forst_rs::mvcc::reader::{get_at, get_at_with_merge, VersionedEntry};
use forst_rs::mvcc::snapshot::{
    first_long_lived, oldest_of, DbId, SnapshotAge, SnapshotRegistry, SNAPSHOT_AGE_HINT,
};
use forst_rs::types::{InternalKey, OpType, SequenceNumber};
use std::time::Instant;

fn pause(ms: u128) {
    let start = Instant::now();
    while start.elapsed().as_millis() < ms {}
}

fn ik(uk: &[u8], seq: u64, op: OpType) -> InternalKey {
    InternalKey::new(uk.to_vec(), SequenceNumber::new(seq), op)
}

#[test]
fn returns_latest_version_at_or_before_snapshot() {
    let mut reg = SnapshotRegistry::new();
    let snap = reg.capture(DbId(1), SequenceNumber::new(10));
    let keys = [
        ik(b"k", 12, OpType::Put),
        ik(b"k", 8, OpType::Put),
        ik(b"k", 5, OpType::Put),
    ];
    let vals = [b"v12".as_slice(), b"v8".as_slice(), b"v5".as_slice()];
    let candidates = keys
        .iter()
        .zip(vals.iter())
        .map(|(k, v)| VersionedEntry { key: k, value: v })
        .collect::<Vec<_>>();
    assert_eq!(get_at(&snap, b"k", &candidates), Some(b"v8".as_slice()));
}

#[test]
fn skips_to_other_user_key_returns_none() {
    let mut reg = SnapshotRegistry::new();
    let snap = reg.capture(DbId(1), SequenceNumber::new(10));
    let keys = [ik(b"other", 5, OpType::Put)];
    let vals = [b"v".as_slice()];
    let candidates = keys
        .iter()
        .zip(vals.iter())
        .map(|(k, v)| VersionedEntry { key: k, value: v })
        .collect::<Vec<_>>();
    assert_eq!(get_at(&snap, b"k", &candidates), None);
}

#[test]
fn delete_tombstone_returns_none() {
    let mut reg = SnapshotRegistry::new();
    let snap = reg.capture(DbId(1), SequenceNumber::new(10));
    let keys = [ik(b"k", 8, OpType::Delete), ik(b"k", 5, OpType::Put)];
    let vals = [b"".as_slice(), b"v5".as_slice()];
    let candidates = keys
        .iter()
        .zip(vals.iter())
        .map(|(k, v)| VersionedEntry { key: k, value: v })
        .collect::<Vec<_>>();
    assert_eq!(get_at(&snap, b"k", &candidates), None);
}

#[test]
fn no_version_visible_returns_none() {
    let mut reg = SnapshotRegistry::new();
    let snap = reg.capture(DbId(1), SequenceNumber::new(3));
    let keys = [ik(b"k", 5, OpType::Put)];
    let vals = [b"v5".as_slice()];
    let candidates = keys
        .iter()
        .zip(vals.iter())
        .map(|(k, v)| VersionedEntry { key: k, value: v })
        .collect::<Vec<_>>();
    assert_eq!(get_at(&snap, b"k", &candidates), None);
}


#[test]
fn keep_when_at_or_above_min_active() {
    assert!(!should_drop(
        SequenceNumber::new(10),
        OpType::Put,
        true,
        SequenceNumber::new(10)
    ));
    assert!(!should_drop(
        SequenceNumber::new(15),
        OpType::Put,
        true,
        SequenceNumber::new(10)
    ));
}

#[test]
fn drop_below_min_active_when_newer_exists() {
    assert!(should_drop(
        SequenceNumber::new(5),
        OpType::Put,
        true,
        SequenceNumber::new(10)
    ));
}

#[test]
fn keep_below_min_active_when_no_newer() {
    assert!(!should_drop(
        SequenceNumber::new(5),
        OpType::Put,
        false,
        SequenceNumber::new(10)
    ));
}

#[test]
fn keep_tombstone_at_tail() {
    assert!(!should_drop(
        SequenceNumber::new(5),
        OpType::Delete,
        false,
        SequenceNumber::new(10)
    ));
}

#[test]
fn drop_tombstone_when_newer_put_exists() {
    assert!(should_drop(
        SequenceNumber::new(5),
        OpType::Delete,
        true,
        SequenceNumber::new(10)
    ));
}


fn seq(v: u64) -> SequenceNumber {
    SequenceNumber::new(v)
}

fn db_id() -> DbId {
    DbId(1)
}

#[test]
fn capture_increments_count() {
    let mut reg = SnapshotRegistry::new();
    let s1 = reg.capture(DbId(0), seq(10));
    let s2 = reg.capture(DbId(0), seq(20));
    assert_eq!(reg.active_count(), 2);
    reg.release(s1);
    assert_eq!(reg.active_count(), 1);
    reg.release(s2);
    assert_eq!(reg.active_count(), 0);
}

#[test]
fn min_active_tracks_lowest() {
    let mut reg = SnapshotRegistry::new();
    assert_eq!(reg.min_active(), SequenceNumber(u64::MAX));
    let s50 = reg.capture(DbId(0), seq(50));
    assert_eq!(reg.min_active(), seq(50));
    let s20 = reg.capture(DbId(0), seq(20));
    assert_eq!(reg.min_active(), seq(20));
    reg.release(s20);
    assert_eq!(reg.min_active(), seq(50));
    reg.release(s50);
    assert_eq!(reg.min_active(), SequenceNumber(u64::MAX));
}

#[test]
fn snapshot_carries_db_id() {
    let mut reg = SnapshotRegistry::new();
    let snap = reg.capture(DbId(42), seq(7));
    assert_eq!(snap.db_id(), DbId(42));
    assert_eq!(snap.seq(), seq(7));
}

#[test]
fn snapshot_age_advances() {
    let mut reg = SnapshotRegistry::new();
    let snap = reg.capture(DbId(0), seq(1));
    pause(20);
    assert!(
        snap.age_ms() >= 20,
        "snapshot age should be >= 20ms after sleep, got {}",
        snap.age_ms()
    );
}

#[test]
fn oldest_age_ms_tracks_oldest() {
    let mut reg = SnapshotRegistry::new();
    assert_eq!(reg.oldest_age_ms(), 0);
    let s1 = reg.capture(db_id(), SequenceNumber::new(1));
    pause(30);
    let s2 = reg.capture(db_id(), SequenceNumber::new(2));
    let age = reg.oldest_age_ms();
    assert!(age >= 30, "oldest_age_ms = {}", age);
    reg.release(s1);
    let age2 = reg.oldest_age_ms();
    assert!(
        age2 < age,
        "after dropping s1, oldest should be the younger s2 (age2={}, age={})",
        age2,
        age
    );
    reg.release(s2);
    assert_eq!(reg.oldest_age_ms(), 0);
}

#[test]
fn duplicate_seq_refcounted() {
    let mut reg = SnapshotRegistry::new();
    let s_a = reg.capture(DbId(0), seq(7));
    let s_b = reg.capture(DbId(0), seq(7));
    assert_eq!(reg.active_count(), 1);
    assert_eq!(reg.min_active(), seq(7));
    reg.release(s_a);
    assert_eq!(reg.active_count(), 1);
    assert_eq!(reg.min_active(), seq(7));
    reg.release(s_b);
    assert_eq!(reg.active_count(), 0);
    assert_eq!(reg.min_active(), SequenceNumber(u64::MAX));
}

#[test]
fn pinned_bytes_estimate_returns_zero_when_no_snapshots() {
    let reg = SnapshotRegistry::new();
    let estimate = reg.pinned_bytes_estimate(|_min_seq| 0);
    assert_eq!(estimate, 0);
}

#[test]
fn check_long_lived_under_threshold_returns_none() {
    let mut reg = SnapshotRegistry::new();
    let _snap = reg.capture(DbId(7), seq(1));
    assert_eq!(reg.check_long_lived(), None);
}

#[test]
fn check_long_lived_over_threshold_returns_warning() {
    let mut reg = SnapshotRegistry::new();
    reg.set_max_age_ms(5);
    let _snap = reg.capture(DbId(42), seq(99));
    pause(20);
    let warn = reg.check_long_lived().expect("should warn after sleep");
    assert_eq!(warn.seq, seq(99));
    assert_eq!(warn.db_id, DbId(42));
    assert!(
        warn.age_ms >= 20,
        "age_ms should be at least the sleep duration, got {}",
        warn.age_ms
    );
    assert_eq!(warn.max_age_ms, 5);
    assert_eq!(warn.hint, SNAPSHOT_AGE_HINT);
    let rendered = warn.to_string();
    assert!(
        rendered.contains("seq=99"),
        "Display missing seq: {}",
        rendered
    );
    assert!(
        rendered.contains("db_id=42"),
        "Display missing db_id: {}",
        rendered
    );
    assert!(
        rendered.contains("hint:"),
        "Display missing hint label: {}",
        rendered
    );
}

#[test]
fn check_long_lived_threshold_is_dynamic() {
    let mut reg = SnapshotRegistry::new();
    reg.set_max_age_ms(60 * 60 * 1_000);
    assert_eq!(reg.max_age_ms(), 60 * 60 * 1_000);
    let _snap = reg.capture(DbId(0), seq(123));
    pause(10);
    assert_eq!(
        reg.check_long_lived(),
        None,
        "should NOT warn under 1h threshold"
    );

    reg.set_max_age_ms(1);
    assert_eq!(reg.max_age_ms(), 1);
    let warn = reg
        .check_long_lived()
        .expect("should warn after lowering threshold");
    assert_eq!(warn.seq, seq(123));
    assert_eq!(warn.max_age_ms, 1);
}

#[test]
fn pinned_bytes_estimate_invokes_callback_with_min() {
    let mut reg = SnapshotRegistry::new();
    let _s = reg.capture(db_id(), SequenceNumber::new(42));
    let received = std::sync::Mutex::new(SequenceNumber::new(0));
    let _ = reg.pinned_bytes_estimate(|min| {
        *received.lock().unwrap() = min;
        12345
    });
    assert_eq!(received.lock().unwrap().0, 42);
}

struct Concat;

impl MergeOperator for Concat {
    fn full_merge(
        &self,
        _key: &[u8],
        base: Option<&[u8]>,
        operands: &[Vec<u8>],
    ) -> ForstResult<Vec<u8>> {
        let mut out = base.map(|b| b.to_vec()).unwrap_or_default();
        for o in operands {
            out.extend_from_slice(o);
        }
        Ok(out)
    }

    fn partial_merge(&self, _key: &[u8], left: &[u8], right: &[u8]) -> ForstResult<Vec<u8>> {
        Ok([left, right].concat())
    }

    fn name(&self) -> String {
        "Concat".to_string()
    }
}

#[test]
fn merge_read_folds_visible_operands_over_the_base() {
    let mut reg = SnapshotRegistry::new();
    let snap = reg.capture(DbId(1), SequenceNumber::new(7));
    let keys = [
        ik(b"k", 9, OpType::Merge),
        ik(b"k", 7, OpType::Merge),
        ik(b"k", 5, OpType::Merge),
        ik(b"k", 3, OpType::Put),
        ik(b"k", 1, OpType::Put),
    ];
    let vals = [b"d".as_slice(), b"c", b"b", b"a", b"z"];
    let candidates = keys
        .iter()
        .zip(vals.iter())
        .map(|(k, v)| VersionedEntry { key: k, value: v })
        .collect::<Vec<_>>();
    assert_eq!(
        get_at_with_merge(&snap, b"k", &candidates, &Concat).unwrap(),
        Some(b"abc".to_vec())
    );
    assert_eq!(
        get_at_with_merge(&snap, b"q", &candidates, &Concat).unwrap(),
        None
    );
}

#[test]
fn drop_is_only_below_the_minimum_and_under_a_newer_version() {
    for entry in [0u64, 1, 499, 500, 999] {
        for min in [0u64, 1, 500, 999] {
            for newer in [false, true] {
                for op in [OpType::Delete, OpType::Put] {
                    let dropped = should_drop(
                        SequenceNumber::new(entry),
                        op,
                        newer,
                        SequenceNumber::new(min),
                    );
                    assert_eq!(dropped, entry < min && newer);
                }
            }
        }
    }
}

#[test]
fn ages_name_each_pinned_sequence_once() {
    let mut reg = SnapshotRegistry::new();
    let a = reg.capture(DbId(3), seq(4));
    let b = reg.capture(DbId(3), seq(4));
    let c = reg.capture(DbId(3), seq(9));
    let mut seqs: Vec<u64> = reg.ages().iter().map(|x| x.seq.0).collect();
    seqs.sort();
    assert_eq!(seqs, vec![4, 9]);
    reg.release(a);
    reg.release(b);
    assert_eq!(reg.min_active(), seq(9));
    reg.release(c);
    assert!(reg.ages().is_empty());
}

#[test]
fn oldest_and_long_lived_go_by_age() {
    let ages = [
        SnapshotAge {
            seq: seq(1),
            db_id: DbId(1),
            age_ms: 10,
        },
        SnapshotAge {
            seq: seq(2),
            db_id: DbId(2),
            age_ms: 30,
        },
    ];
    assert_eq!(oldest_of(&ages), 30);
    assert_eq!(oldest_of(&[]), 0);
    assert_eq!(first_long_lived(&ages, 30), None);
    let warn = first_long_lived(&ages, 29).unwrap();
    assert_eq!(warn.seq, seq(2));
    assert_eq!(warn.age_ms, 30);
}

#[test]
fn releasing_what_is_not_pinned_changes_nothing() {
    let mut reg = SnapshotRegistry::new();
    reg.release_internal(seq(4));
    assert_eq!(reg.active_count(), 0);
    let held = reg.capture(db_id(), seq(9));
    reg.release_internal(seq(4));
    assert_eq!(reg.active_count(), 1);
    assert_eq!(reg.min_active(), seq(9));
    reg.release_internal(seq(9));
    assert_eq!(reg.active_count(), 0);
    reg.release(held);
    assert_eq!(reg.active_count(), 0);
    assert_eq!(reg.min_active(), SequenceNumber(u64::MAX));
}

#[test]
fn a_capture_moves_minimum_and_count_and_its_release_gives_both_back() {
    let mut reg = SnapshotRegistry::new();
    let _five = reg.capture(db_id(), seq(5));
    let _eight = reg.capture(db_id(), seq(8));
    for (s, min, count) in [(3, 3, 3), (5, 5, 2), (6, 5, 3), (9, 5, 3)] {
        let taken = reg.capture(db_id(), seq(s));
        assert_eq!(reg.min_active(), seq(min));
        assert_eq!(reg.active_count(), count);
        reg.release(taken);
        assert_eq!(reg.min_active(), seq(5));
        assert_eq!(reg.active_count(), 2);
    }
}
