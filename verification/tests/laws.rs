//! Properties that relate several functions, on concrete values.

use forst_rs::clock::SystemSeconds;
use forst_rs::coding::{get_varint32, put_varint32};
use forst_rs::compaction::{
    partition_ranges, partition_starts, CompactionInput, CompactionJob,
};
use forst_rs::compaction_filter::{encode_ttl_value, CompactionDecision, TtlCompactionFilter};
use forst_rs::error::ForstResult;
use forst_rs::flush::{collapse_merge_runs, FlushCollapseSpec, FlushRow};
use forst_rs::list_merge::ListMergeCombiner;
use forst_rs::mem_pressure::{
    set_dynamic_shed_override, set_pressure_override, should_shed, PressureLevel, PressureState,
    ShedPriority,
};
use forst_rs::merge_operator::MergeOperator;
use forst_rs::mvcc::reader::{get_at_with_merge, VersionedEntry};
use forst_rs::mvcc::snapshot::{DbId, SnapshotRegistry};
use forst_rs::row::Row;
use forst_rs::types::{
    ColumnFamilyId, CompressionType, FileNumber, InternalKey, KeyRange, OpType, SequenceNumber,
};
use forst_rs::version::{SstFileMeta, SstWriterOptions};

type Ttl = TtlCompactionFilter<SystemSeconds>;

struct Concat;

impl MergeOperator for Concat {
    fn full_merge(
        &self,
        _key: &[u8],
        base: Option<&[u8]>,
        operands: &[Vec<u8>],
    ) -> ForstResult<Vec<u8>> {
        let mut out = base.map(|b| b.to_vec()).unwrap_or_default();
        for o in operands {
            out.extend_from_slice(o);
        }
        Ok(out)
    }

    fn partial_merge(&self, _key: &[u8], left: &[u8], right: &[u8]) -> ForstResult<Vec<u8>> {
        Ok([left, right].concat())
    }

    fn name(&self) -> String {
        "Concat".to_string()
    }
}

fn row(key: &str, value: &str, sequence: u64, op_type: OpType) -> Row {
    Row {
        key: key.as_bytes().to_vec(),
        value: Some(value.as_bytes().to_vec()),
        sequence,
        op_type,
    }
}

fn job(rows: Vec<Row>, bottommost: bool, min_active: u64) -> CompactionJob<Ttl, Concat> {
    CompactionJob {
        cf_id: ColumnFamilyId(1),
        inputs: vec![CompactionInput {
            level: 0,
            meta: SstFileMeta {
                file_number: FileNumber(1),
                cf_id: ColumnFamilyId(1),
                file_size: 1,
                smallest_key: Vec::new(),
                largest_key: Vec::new(),
                min_sequence: SequenceNumber(1),
                max_sequence: SequenceNumber(9),
                num_entries: 1,
                max_death: 0,
            },
            rows,
        }],
        output_level: 1,
        output_file_number: FileNumber(2),
        output_path: "/db/000002.sst".to_string(),
        additional_outputs: Vec::new(),
        target_file_size: 0,
        writer_options: SstWriterOptions {
            block_size: 4096,
            compression: CompressionType::Lz4,
            cf_id: ColumnFamilyId(1),
        },
        merge_operator: Some(Concat),
        compaction_filter: None,
        is_bottommost: bottommost,
        min_active_snapshot: SequenceNumber(min_active),
        kv_gc: None,
    }
}

fn read(rows: &[Row], at: u64) -> Option<Vec<u8>> {
    let mut registry = SnapshotRegistry::new();
    let snapshot = registry.capture(DbId(1), SequenceNumber(at));
    let keys: Vec<InternalKey> = rows
        .iter()
        .map(|r| InternalKey::new(r.key.clone(), SequenceNumber(r.sequence), r.op_type))
        .collect();
    let entries: Vec<VersionedEntry<'_>> = keys
        .iter()
        .zip(rows)
        .map(|(key, r)| VersionedEntry {
            key,
            value: r.value.as_deref().unwrap_or_default(),
        })
        .collect();
    get_at_with_merge(&snapshot, b"k", &entries, &Concat).unwrap()
}

fn histories() -> Vec<Vec<Row>> {
    let ops = [OpType::Put, OpType::Delete, OpType::SingleDelete, OpType::Merge];
    let mut out = Vec::new();
    for a in ops {
        for b in ops {
            for c in ops {
                for d in ops {
                    out.push(
                        [a, b, c, d]
                            .iter()
                            .enumerate()
                            .map(|(i, op)| row("k", &format!("{i}"), 8 - 2 * i as u64, *op))
                            .collect(),
                    );
                }
            }
        }
    }
    out
}

#[test]
fn compaction_preserves_what_live_snapshots_read() {
    for versions in histories() {
        for bottommost in [false, true] {
            for min_active in [1, 2, 3, 4, 5, 6, 7, 8, 9, u64::MAX] {
                let out = job(Vec::new(), bottommost, min_active)
                    .emit_key_versions(&versions)
                    .unwrap();
                let live = if min_active == u64::MAX { 9 } else { min_active };
                for snapshot in live..=9 {
                    assert_eq!(
                        read(&out, snapshot),
                        read(&versions, snapshot),
                        "{versions:?} {bottommost} {min_active} {snapshot}"
                    );
                }
            }
        }
    }
}

#[test]
fn folding_at_flush_time_preserves_reads_at_the_head() {
    let mut all = histories();
    let bare: Vec<Vec<Row>> = histories()
        .into_iter()
        .map(|mut versions| {
            for r in &mut versions {
                if matches!(r.op_type, OpType::Delete | OpType::SingleDelete) {
                    r.value = None;
                }
            }
            versions
        })
        .collect();
    all.extend(bare);
    for versions in all {
        let batch: Vec<FlushRow> = versions
            .iter()
            .map(|r| FlushRow {
                key: r.key.clone(),
                value: r.value.clone(),
                sequence: r.sequence,
                op: r.op_type.as_u8(),
            })
            .collect();
        let spec = FlushCollapseSpec {
            merge_operator: Concat,
        };
        let folded: Vec<Row> = collapse_merge_runs(&[batch], &spec)
            .unwrap()
            .into_iter()
            .map(|r| Row {
                key: r.key,
                value: r.value,
                sequence: r.sequence,
                op_type: OpType::from_u8(r.op).unwrap(),
            })
            .collect();
        assert_eq!(read(&folded, 9), read(&versions, 9), "{versions:?}");
    }
}

#[test]
fn parts_hold_the_rows_of_the_whole() {
    let rows: Vec<Row> = (0..12u64)
        .map(|i| row(&format!("k{}", i / 3), "vvvv", 20 - i, OpType::Merge))
        .collect();
    let j = job(rows, true, u64::MAX);
    let all = j.gather_sorted();
    let whole = j.emit_range(&all, 0, all.len()).unwrap();
    let cuts = partition_starts(&all, 3, 40);
    assert!(cuts.len() > 1);
    let mut parts = Vec::new();
    for (from, to) in partition_ranges(&cuts, all.len()) {
        parts.extend(j.emit_range(&all, from, to).unwrap());
    }
    assert_eq!(parts, whole);
}

#[test]
fn combining_follows_any_schedule() {
    let c = ListMergeCombiner::new();
    let pieces = vec![b"a".to_vec(), b"bc".to_vec(), b"".to_vec(), b"d".to_vec()];
    let whole = c.combine(&pieces);
    assert_eq!(whole, b"abcd");
    let middle = c.combine(&pieces[1..3]);
    assert_eq!(
        c.combine(&[pieces[0].clone(), middle, pieces[3].clone()]),
        whole
    );
    assert_eq!(c.combine_with_base(&pieces[0], &pieces[1..]), whole);
}

#[test]
fn internal_keys_are_strictly_ordered() {
    let mut keys = Vec::new();
    for user in ["a", "b"] {
        for seq in [1, 2] {
            for op in [OpType::Put, OpType::Merge] {
                keys.push(InternalKey::new(user.as_bytes().to_vec(), SequenceNumber(seq), op));
            }
        }
    }
    for a in &keys {
        assert!(!a.before(a));
        for b in &keys {
            assert_eq!(a != b, a.before(b) != b.before(a));
            for c in &keys {
                assert!(!(a.before(b) && b.before(c)) || a.before(c));
            }
        }
    }
    assert!(keys[2].before(&keys[0]));
}

#[test]
fn ranges_overlap_by_their_bounds() {
    let points = ["", "a", "b", "c"];
    let mut ranges = Vec::new();
    for s in points {
        for e in points {
            ranges.push(KeyRange::new(s.as_bytes().to_vec(), e.as_bytes().to_vec()));
        }
    }
    for a in &ranges {
        for b in &ranges {
            let expected = !a.is_empty() && !b.is_empty() && a.start < b.end && b.start < a.end;
            assert_eq!(a.overlaps(b), expected, "{a:?} {b:?}");
        }
    }
}

#[test]
fn varints_read_back_whatever_follows() {
    for n in [0u32, 1, 127, 128, 16_383, 16_384, u32::MAX] {
        let mut bytes = Vec::new();
        put_varint32(&mut bytes, n);
        let len = bytes.len();
        bytes.extend_from_slice(&[0xff, 0x00]);
        assert_eq!(get_varint32(&bytes).unwrap(), (n, len));
    }
}

#[test]
fn expired_values_stay_expired() {
    let filter = TtlCompactionFilter::new(10);
    let value = encode_ttl_value(100, b"payload");
    let mut expired = false;
    for now in 90..130 {
        let e = filter.is_expired_at(&value, now);
        assert!(e || !expired);
        expired = e;
        let kept = filter.decide_at(Some(&value), OpType::Delete, now);
        assert_eq!(kept, CompactionDecision::Keep);
    }
    assert!(expired);
}

#[test]
fn shedding_only_grows_with_pressure() {
    let levels = [
        PressureLevel::Ample,
        PressureLevel::Elevated,
        PressureLevel::High,
        PressureLevel::Critical,
    ];
    let mut state: PressureState<fn() -> bool> = PressureState::new();
    for lever in [
        ShedPriority::PersistentProbeIter,
        ShedPriority::CoalesceBuffers,
        ShedPriority::S2Pinned,
        ShedPriority::LeveledHotCf,
        ShedPriority::VlogResident,
    ] {
        set_dynamic_shed_override(&mut state, Some(true));
        let mut before = false;
        for level in levels {
            set_pressure_override(&mut state, Some(level));
            let now = should_shed(&mut state, None, lever);
            assert!(now || !before);
            before = now;
        }
        assert!(before);
        set_dynamic_shed_override(&mut state, Some(false));
        assert!(!should_shed(&mut state, Some("1"), lever));
    }
}
