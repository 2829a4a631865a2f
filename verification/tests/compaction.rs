//! Compaction: what is emitted, how output is split, and the resulting edit.

use forst_rs::clock::SystemSeconds;
use forst_rs::compaction::{
    collect_parts, level_needs_compaction, partition_ranges, partition_starts, should_roll, validate_inputs,
    writes_in_parallel, CompactionInput, CompactionJob, CompactionRun,
};
use forst_rs::compaction_filter::{CompactionDecision, CompactionFilter, TtlCompactionFilter};
use forst_rs::error::{ForstError, ForstResult};
use forst_rs::merge_operator::MergeOperator;
use forst_rs::paths::compaction_output_path;
use forst_rs::row::Row;
use forst_rs::types::{ColumnFamilyId, CompressionType, FileNumber, OpType, SequenceNumber};
use forst_rs::version::{SstFileInfo, SstFileMeta, SstWriterOptions, VersionEdit};

type Ttl = TtlCompactionFilter<SystemSeconds>;

struct Concat;

impl MergeOperator for Concat {
    fn full_merge(
        &self,
        _key: &[u8],
        base: Option<&[u8]>,
        operands: &[Vec<u8>],
    ) -> ForstResult<Vec<u8>> {
        if operands.iter().any(|o| o == b"!") {
            return Err(ForstError::internal("operator failed"));
        }
        let mut out = base.map(|b| b.to_vec()).unwrap_or_default();
        for o in operands {
            out.extend_from_slice(o);
        }
        Ok(out)
    }

    fn partial_merge(&self, _key: &[u8], left: &[u8], right: &[u8]) -> ForstResult<Vec<u8>> {
        Ok([left, right].concat())
    }

    fn name(&self) -> String {
        "Concat".to_string()
    }
}

struct Choosy;

impl CompactionFilter for Choosy {
    fn filter(
        &self,
        _level: u32,
        key: &[u8],
        _value: Option<&[u8]>,
        _sequence: u64,
        _op_type: OpType,
        out_value: &mut Vec<u8>,
    ) -> CompactionDecision {
        if key == b"drop" {
            CompactionDecision::Discard
        } else if key == b"swap" {
            out_value.extend_from_slice(b"new");
            CompactionDecision::Replace
        } else {
            CompactionDecision::Keep
        }
    }

    fn name(&self) -> String {
        "Choosy".to_string()
    }
}

fn row(key: &str, value: Option<&str>, sequence: u64, op_type: OpType) -> Row {
    Row {
        key: key.as_bytes().to_vec(),
        value: value.map(|v| v.as_bytes().to_vec()),
        sequence,
        op_type,
    }
}

fn meta(n: u64, max_sequence: u64) -> SstFileMeta {
    SstFileMeta {
        file_number: FileNumber(n),
        cf_id: ColumnFamilyId(1),
        file_size: 1,
        smallest_key: Vec::new(),
        largest_key: Vec::new(),
        min_sequence: SequenceNumber(1),
        max_sequence: SequenceNumber(max_sequence),
        num_entries: 1,
        max_death: 0,
    }
}

fn job<F: CompactionFilter>(
    inputs: Vec<(u64, Vec<Row>)>,
    filter: Option<F>,
    extra_outputs: u64,
    target: u64,
    bottommost: bool,
    min_active: u64,
) -> CompactionJob<F, Concat> {
    CompactionJob {
        cf_id: ColumnFamilyId(1),
        inputs: inputs
            .into_iter()
            .map(|(n, rows)| CompactionInput {
                level: 0,
                meta: meta(n, rows.iter().map(|r| r.sequence).max().unwrap_or(0)),
                rows,
            })
            .collect(),
        output_level: 1,
        output_file_number: FileNumber(100),
        output_path: "/db/000100.sst".to_string(),
        additional_outputs: (0..extra_outputs)
            .map(|i| (FileNumber(101 + i), format!("/db/{:06}.sst", 101 + i)))
            .collect(),
        target_file_size: target,
        writer_options: SstWriterOptions {
            block_size: 4096,
            compression: CompressionType::NoCompression,
            cf_id: ColumnFamilyId(1),
        },
        merge_operator: Some(Concat),
        compaction_filter: filter,
        is_bottommost: bottommost,
        min_active_snapshot: SequenceNumber(min_active),
        kv_gc: None,
    }
}

type Files = Vec<(u64, Vec<Row>)>;

fn run<F: CompactionFilter>(job: CompactionJob<F, Concat>) -> ForstResult<(Files, VersionEdit)> {
    let mut run = CompactionRun::start(job);
    let mut files = Vec::new();
    while run.more() {
        let number = run.current_output().0;
        let mut rows: Vec<Row> = Vec::new();
        while run.more() {
            rows.extend(run.next_rows()?);
            let size: u64 = rows
                .iter()
                .map(|r| (r.key.len() + r.value.as_ref().map_or(0, |v| v.len())) as u64)
                .sum();
            if run.must_roll(size) {
                break;
            }
        }
        if rows.is_empty() {
            run.close_file(None);
        } else {
            run.close_file(Some(SstFileInfo {
                cf_id: ColumnFamilyId(1),
                file_size: 1,
                min_key: rows[0].key.clone(),
                max_key: rows[rows.len() - 1].key.clone(),
                min_sequence: rows.iter().map(|r| r.sequence).min().unwrap(),
                max_sequence: rows.iter().map(|r| r.sequence).max().unwrap(),
                entry_count: rows.len() as u64,
            }));
            files.push((number.0, rows));
        }
    }
    Ok((files, run.finish()))
}

fn one_file(files: Files) -> Vec<Row> {
    assert_eq!(files.len(), 1);
    files.into_iter().next().unwrap().1
}

#[test]
fn test_level_needs_compaction_threshold() {
    assert!(!level_needs_compaction(0, 100));
    assert!(!level_needs_compaction(100, 100));
    assert!(level_needs_compaction(101, 100));
}

#[test]
fn test_validate_inputs_rejects_empty() {
    assert!(validate_inputs(&[]).is_err());
    assert!(validate_inputs(&[(0, meta(1, 1))]).is_ok());
}

#[test]
fn test_compaction_output_path() {
    let p = compaction_output_path("/db", FileNumber(7));
    assert_eq!(p, "/db/000007.sst");
}

#[test]
fn newest_put_wins_and_newer_files_win_ties() {
    let j = job::<Ttl>(
        vec![
            (1, vec![row("a", Some("old"), 5, OpType::Put)]),
            (
                2,
                vec![
                    row("a", Some("new"), 5, OpType::Put),
                    row("b", Some("x"), 1, OpType::Put),
                ],
            ),
        ],
        None,
        0,
        0,
        false,
        u64::MAX,
    );
    let (files, edit) = run(j).unwrap();
    let rows = one_file(files);
    assert_eq!(
        rows,
        vec![
            row("a", Some("new"), 5, OpType::Put),
            row("b", Some("x"), 1, OpType::Put)
        ]
    );
    assert_eq!(edit.new_files.len(), 1);
    assert_eq!(edit.new_files[0].0, 1);
    assert_eq!(edit.new_files[0].1.file_number, FileNumber(100));
    assert_eq!(
        edit.deleted_files,
        vec![(0, FileNumber(1)), (0, FileNumber(2))]
    );
    assert_eq!(edit.last_sequence, Some(SequenceNumber(5)));
}

#[test]
fn bottommost_tombstones_vanish_and_others_stay() {
    let rows = || {
        vec![(
            1,
            vec![
                row("a", None, 9, OpType::Delete),
                row("a", Some("1"), 3, OpType::Put),
            ],
        )]
    };
    let (files, edit) = run(job::<Ttl>(rows(), None, 0, 0, true, u64::MAX)).unwrap();
    assert!(files.is_empty());
    assert!(edit.new_files.is_empty());
    assert_eq!(edit.last_sequence, Some(SequenceNumber(9)));
    let (files, _) = run(job::<Ttl>(rows(), None, 0, 0, false, u64::MAX)).unwrap();
    assert_eq!(one_file(files), vec![row("a", None, 9, OpType::Delete)]);
}

#[test]
fn merge_chains_fold_over_their_base() {
    let j = job::<Ttl>(
        vec![
            (
                2,
                vec![
                    row("k", Some("c"), 3, OpType::Merge),
                    row("k", Some("b"), 2, OpType::Merge),
                ],
            ),
            (1, vec![row("k", Some("a"), 1, OpType::Put)]),
        ],
        None,
        0,
        0,
        false,
        u64::MAX,
    );
    let (files, _) = run(j).unwrap();
    assert_eq!(one_file(files), vec![row("k", Some("abc"), 3, OpType::Put)]);
}

#[test]
fn operator_errors_end_the_run() {
    let j = job::<Ttl>(
        vec![(
            1,
            vec![
                row("k", Some("!"), 2, OpType::Merge),
                row("k", Some("a"), 1, OpType::Put),
            ],
        )],
        None,
        0,
        0,
        false,
        u64::MAX,
    );
    let err = run(j).err().unwrap();
    assert!(err.is_internal());
}

#[test]
fn filters_discard_and_replace() {
    let j = job(
        vec![(
            1,
            vec![
                row("drop", Some("1"), 1, OpType::Put),
                row("keep", Some("2"), 2, OpType::Put),
                row("swap", Some("3"), 3, OpType::Put),
            ],
        )],
        Some(Choosy),
        0,
        0,
        true,
        u64::MAX,
    );
    let (files, _) = run(j).unwrap();
    assert_eq!(
        one_file(files),
        vec![
            row("keep", Some("2"), 2, OpType::Put),
            row("swap", Some("new"), 3, OpType::Put)
        ]
    );
}

#[test]
fn pinned_versions_stay() {
    let j = job::<Ttl>(
        vec![(
            1,
            vec![
                row("k", Some("c"), 9, OpType::Put),
                row("k", Some("b"), 6, OpType::Put),
                row("k", Some("a"), 2, OpType::Put),
                row("k", Some("z"), 1, OpType::Put),
            ],
        )],
        None,
        0,
        0,
        false,
        5,
    );
    let (files, _) = run(j).unwrap();
    let seqs: Vec<u64> = one_file(files).iter().map(|r| r.sequence).collect();
    assert_eq!(seqs, vec![9, 6, 2]);
}

#[test]
fn output_rolls_at_key_boundaries() {
    let mut rows = Vec::new();
    for i in 0..10 {
        rows.push(row(&format!("k{i}"), Some("vvvvvvvv"), i + 1, OpType::Put));
    }
    let (files, edit) = run(job::<Ttl>(vec![(1, rows)], None, 2, 25, false, u64::MAX)).unwrap();
    let sizes: Vec<(u64, usize)> = files.iter().map(|f| (f.0, f.1.len())).collect();
    assert_eq!(sizes, vec![(100, 3), (101, 3), (102, 4)]);
    assert_eq!(edit.new_files.len(), 3);
    assert!(should_roll(false, 10, true, true, 10));
    assert!(!should_roll(true, 10, true, true, 10));
    assert!(!should_roll(false, 0, true, true, 10));
    assert!(!should_roll(false, 10, true, true, 9));
}

#[test]
fn sorting_all_entries_gives_the_same_rows() {
    let inputs = || {
        vec![
            (
                3,
                vec![
                    row("a", Some("x"), 7, OpType::Merge),
                    row("c", None, 8, OpType::Delete),
                ],
            ),
            (
                1,
                vec![
                    row("a", Some("w"), 2, OpType::Put),
                    row("b", Some("q"), 3, OpType::Put),
                    row("c", Some("r"), 4, OpType::Put),
                ],
            ),
        ]
    };
    let j = job::<Ttl>(inputs(), None, 0, 0, false, u64::MAX);
    let all = j.gather_sorted();
    let sorted = j.emit_range(&all, 0, all.len()).unwrap();
    let (files, _) = run(job::<Ttl>(inputs(), None, 0, 0, false, u64::MAX)).unwrap();
    assert_eq!(one_file(files), sorted);
}

#[test]
fn partitions_respect_keys_and_sizes() {
    let mut rows = Vec::new();
    for i in 0..6 {
        rows.push(row(&format!("k{}", i / 2), Some("vv"), 10 - i, OpType::Put));
    }
    let j = job::<Ttl>(vec![(1, rows)], None, 3, 20, false, u64::MAX);
    let all = j.gather_sorted();
    let cuts = partition_starts(&all, 4, 20);
    assert_eq!(cuts, vec![0, 2, 4]);
    assert_eq!(partition_ranges(&cuts, 6), vec![(0, 2), (2, 4), (4, 6)]);
    assert_eq!(partition_starts(&all, 2, 20), vec![0, 2]);
    assert_eq!(partition_starts(&all, 4, 0), vec![0]);
    assert!(writes_in_parallel(Some("1"), 2, 3));
    assert!(!writes_in_parallel(None, 2, 3));
    assert!(!writes_in_parallel(Some("1"), 2, 2));
}

#[test]
fn parts_are_collected_in_order() {
    let info = |n: u64| SstFileInfo {
        cf_id: ColumnFamilyId(1),
        file_size: n,
        min_key: Vec::new(),
        max_key: Vec::new(),
        min_sequence: 0,
        max_sequence: n,
        entry_count: 1,
    };
    let done = collect_parts(vec![
        Ok(Some((FileNumber(1), info(1)))),
        Ok(None),
        Ok(Some((FileNumber(3), info(3)))),
    ])
    .unwrap();
    let numbers: Vec<u64> = done.iter().map(|f| f.0 .0).collect();
    assert_eq!(numbers, vec![1, 3]);
    let err = collect_parts(vec![
        Ok(None),
        Err(ForstError::internal("first")),
        Err(ForstError::corruption("second")),
    ])
    .err()
    .unwrap();
    assert!(err.is_internal());
}
