//! Portable descriptors of compaction jobs.

use forst_rs::clock::SystemSeconds;
use forst_rs::compaction::{CompactionInput, CompactionJob};
use forst_rs::compaction_executor::{
    compression_from_u8, sst_path_for, CompactionInputFile, CompactionJobDescriptor,
    CompactionMergeExecutorKind, LocalCompactionExecutor,
};
use forst_rs::compaction_filter::TtlCompactionFilter;
use forst_rs::error::ForstResult;
use forst_rs::merge_operator::MergeOperator;
use forst_rs::row::Row;
use forst_rs::types::{ColumnFamilyId, CompressionType, FileNumber, OpType, SequenceNumber};
use forst_rs::version::{KvGcSpec, SstFileMeta, SstWriterOptions};
use std::collections::BTreeSet;

type Filter = TtlCompactionFilter<SystemSeconds>;

struct RawConcat;

impl MergeOperator for RawConcat {
    fn full_merge(
        &self,
        _key: &[u8],
        base: Option<&[u8]>,
        operands: &[Vec<u8>],
    ) -> ForstResult<Vec<u8>> {
        let mut out = base.map(|b| b.to_vec()).unwrap_or_default();
        for o in operands {
            out.extend_from_slice(o);
        }
        Ok(out)
    }

    fn partial_merge(&self, _key: &[u8], left: &[u8], right: &[u8]) -> ForstResult<Vec<u8>> {
        Ok([left, right].concat())
    }

    fn name(&self) -> String {
        "RawConcatMergeOperator".to_string()
    }
}

fn sample_meta(fnum: u64) -> SstFileMeta {
    SstFileMeta {
        file_number: FileNumber(fnum),
        cf_id: ColumnFamilyId(7),
        file_size: 4096,
        smallest_key: b"aaa".to_vec(),
        largest_key: b"zzz".to_vec(),
        min_sequence: SequenceNumber(10),
        max_sequence: SequenceNumber(20),
        num_entries: 100,
        max_death: 0,
    }
}

fn sample_descriptor(with_gc: bool) -> CompactionJobDescriptor {
    CompactionJobDescriptor {
        cf_id: ColumnFamilyId(7),
        inputs: vec![
            CompactionInputFile {
                level: 0,
                meta: sample_meta(11),
                physical_path: "/db/000011.sst".to_string(),
            },
            CompactionInputFile {
                level: 1,
                meta: sample_meta(12),
                physical_path: "/db/000012.sst".to_string(),
            },
        ],
        output_level: 1,
        output_file_number: FileNumber(20),
        output_path: "/db/000020.sst".to_string(),
        additional_outputs: vec![(FileNumber(21), "/db/000021.sst".to_string())],
        target_file_size: 64 * 1024 * 1024,
        block_size: 64 * 1024,
        compression: 1,
        is_bottommost: true,
        min_active_snapshot: SequenceNumber(15),
        merge_operator_name: "RawConcatMergeOperator".to_string(),
        has_compaction_filter: false,
        kv_gc: if with_gc {
            let mut relocate = BTreeSet::new();
            relocate.insert(3u64);
            relocate.insert(5u64);
            Some(KvGcSpec {
                relocate,
                output_segment_id: FileNumber(99),
                db_dir: "/db".to_string(),
                vlog_compression: CompressionType::Lz4,
            })
        } else {
            None
        },
    }
}

fn sample_job(filter: Option<Filter>) -> CompactionJob<Filter, RawConcat> {
    CompactionJob {
        cf_id: ColumnFamilyId(7),
        inputs: vec![
            CompactionInput {
                level: 0,
                meta: sample_meta(11),
                rows: Vec::new(),
            },
            CompactionInput {
                level: 1,
                meta: sample_meta(12),
                rows: Vec::new(),
            },
        ],
        output_level: 1,
        output_file_number: FileNumber(20),
        output_path: "/db/000020.sst".to_string(),
        additional_outputs: vec![(FileNumber(21), "/db/000021.sst".to_string())],
        target_file_size: 64 * 1024 * 1024,
        writer_options: SstWriterOptions {
            block_size: 64 * 1024,
            compression: CompressionType::Lz4,
            cf_id: ColumnFamilyId(7),
        },
        merge_operator: Some(RawConcat),
        compaction_filter: filter,
        is_bottommost: true,
        min_active_snapshot: SequenceNumber(15),
        kv_gc: None,
    }
}

#[test]
fn descriptor_encode_decode_round_trip_is_identity() {
    for with_gc in [false, true] {
        let desc = sample_descriptor(with_gc);
        let bytes = desc.encode();
        let decoded = CompactionJobDescriptor::decode(&bytes).expect("decode");
        assert_eq!(desc, decoded, "round-trip must be lossless (gc={with_gc})");
        assert_eq!(bytes, decoded.encode(), "encoding must be canonical");
    }
}

#[test]
fn descriptor_decode_rejects_bad_magic_and_truncation() {
    let bytes = sample_descriptor(false).encode();
    let mut bad = bytes.clone();
    bad[0] ^= 0xFF;
    assert!(CompactionJobDescriptor::decode(&bad).is_err(), "bad magic");
    assert!(
        CompactionJobDescriptor::decode(&bytes[..bytes.len() - 4]).is_err(),
        "truncation must error, not panic"
    );
    assert!(CompactionJobDescriptor::decode(&[]).is_err(), "empty");
}

#[test]
fn every_truncation_is_rejected() {
    let bytes = sample_descriptor(true).encode();
    for n in 0..bytes.len() {
        let err = CompactionJobDescriptor::decode(&bytes[..n]).unwrap_err();
        assert!(err.is_corruption(), "{err:?}");
        assert!(err.to_string().contains("truncated blob"), "{err:?}");
    }
    let mut wrong_version = bytes.clone();
    wrong_version[4] ^= 0xFF;
    assert!(CompactionJobDescriptor::decode(&wrong_version).is_err());
    let mut not_text = bytes.clone();
    let at = bytes.windows(4).position(|w| w == b"/db/").unwrap();
    not_text[at] = 0xFF;
    assert!(CompactionJobDescriptor::decode(&not_text).is_err());
}

#[test]
fn local_executor_kind() {
    assert_eq!(
        LocalCompactionExecutor.kind(),
        CompactionMergeExecutorKind::Local
    );
}

#[test]
fn jobs_describe_and_rebuild() {
    let job = sample_job(None);
    let desc = CompactionJobDescriptor::from_job(&job);
    assert_eq!(desc, sample_descriptor(false));
    let rows = vec![
        vec![Row {
            key: b"bbb".to_vec(),
            value: Some(b"1".to_vec()),
            sequence: 12,
            op_type: OpType::Put,
        }],
        Vec::new(),
    ];
    let rebuilt = desc
        .rebuild::<Filter, RawConcat>(rows.clone(), None, Some(RawConcat), None)
        .ok()
        .unwrap();
    assert_eq!(rebuilt.inputs.len(), 2);
    assert_eq!(rebuilt.inputs[0].rows, rows[0]);
    assert_eq!(rebuilt.inputs[1].meta, sample_meta(12));
    assert_eq!(rebuilt.writer_options, job.writer_options);
    assert!(rebuilt.merge_operator.is_some());
    let again = CompactionJobDescriptor::from_job(&rebuilt);
    assert_eq!(again, sample_descriptor(false));
}

#[test]
fn rebuilding_needs_the_operator_and_the_filter() {
    let err = sample_descriptor(false)
        .rebuild::<Filter, RawConcat>(vec![Vec::new(), Vec::new()], None, None, None)
        .err()
        .unwrap();
    assert_eq!(
        err.to_string(),
        "Invalid argument: CompactionJobDescriptor::rebuild: unknown merge operator \
         \"RawConcatMergeOperator\""
    );
    let desc = CompactionJobDescriptor::from_job(&sample_job(Some(TtlCompactionFilter::new(9))));
    assert!(desc.has_compaction_filter);
    let err = desc
        .clone()
        .rebuild::<Filter, RawConcat>(vec![Vec::new(), Vec::new()], Some(RawConcat), None, None)
        .err()
        .unwrap();
    assert!(err.is_invalid_argument());
    assert!(err.to_string().contains("carries a compaction filter"));
    assert!(desc
        .rebuild::<Filter, RawConcat>(
            vec![Vec::new(), Vec::new()],
            Some(RawConcat),
            None,
            Some(TtlCompactionFilter::new(9)),
        )
        .is_ok());
}

#[test]
fn codes_and_sibling_paths() {
    assert_eq!(compression_from_u8(0), CompressionType::NoCompression);
    assert_eq!(compression_from_u8(1), CompressionType::Lz4);
    assert_eq!(compression_from_u8(2), CompressionType::Zstd);
    assert_eq!(compression_from_u8(77), CompressionType::Lz4);
    assert_eq!(sst_path_for("/db/000020.sst", FileNumber(11)), "/db/000011.sst");
    assert_eq!(sst_path_for("", FileNumber(11)), "./000011.sst");
}
