//! Flushing of memtables.

use forst_rs::error::{ForstError, ForstResult};
use forst_rs::flush::{
    collapse_merge_runs, count_tombstones, payloads_to_separate, substitute_pointers,
    FlushCollapseSpec, FlushJob, FlushRow, KvSepSpec, MemtableImage, VlogReport, WriteMode,
    BLOB_REF_OP, FLUSH_BATCH_SIZE,
};
use forst_rs::merge_operator::MergeOperator;
use forst_rs::paths::{
    is_nameless, parent_dir, sst_file_path, sst_temp_path, SST_TMP_PREFIX, SST_TMP_SUFFIX,
};
use forst_rs::types::{
    ColumnFamilyId, CompressionType, FileNumber, OpType, SequenceNumber, DEFAULT_CF_ID,
};
use forst_rs::version::{SstFileInfo, SstFileMeta, SstWriterOptions};
use std::collections::BTreeMap;

#[derive(Debug)]
struct AddBe;

fn to_i(b: &[u8]) -> i64 {
    let mut a = [0u8; 8];
    a.copy_from_slice(b);
    i64::from_be_bytes(a)
}

impl MergeOperator for AddBe {
    fn full_merge(
        &self,
        _key: &[u8],
        base: Option<&[u8]>,
        operands: &[Vec<u8>],
    ) -> ForstResult<Vec<u8>> {
        let mut acc = base.map(to_i).unwrap_or(0);
        for op in operands {
            acc = acc.wrapping_add(to_i(op));
        }
        Ok(acc.to_be_bytes().to_vec())
    }

    fn partial_merge(&self, _key: &[u8], left: &[u8], right: &[u8]) -> ForstResult<Vec<u8>> {
        Ok(to_i(left).wrapping_add(to_i(right)).to_be_bytes().to_vec())
    }

    fn name(&self) -> String {
        "AddBe".to_string()
    }
}

const CF: ColumnFamilyId = ColumnFamilyId(DEFAULT_CF_ID);

fn spec() -> FlushCollapseSpec<AddBe> {
    FlushCollapseSpec {
        merge_operator: AddBe,
    }
}

fn put() -> u8 {
    OpType::Put.as_u8()
}

fn merge() -> u8 {
    OpType::Merge.as_u8()
}

fn i(v: i64) -> Vec<u8> {
    v.to_be_bytes().to_vec()
}

type Entry<'a> = (&'a [u8], Option<&'a [u8]>, u8, u64);

fn batches_of(entries: &[Entry<'_>]) -> Vec<Vec<FlushRow>> {
    let mut rows: Vec<FlushRow> = entries
        .iter()
        .map(|(k, v, op, seq)| FlushRow {
            key: k.to_vec(),
            value: v.map(|v| v.to_vec()),
            sequence: *seq,
            op: *op,
        })
        .collect();
    rows.sort_by(|a, b| a.key.cmp(&b.key).then(b.sequence.cmp(&a.sequence)));
    rows.chunks(FLUSH_BATCH_SIZE).map(|c| c.to_vec()).collect()
}

fn frozen(entries: &[Entry<'_>]) -> MemtableImage {
    MemtableImage {
        frozen: true,
        batches: batches_of(entries),
    }
}

fn default_writer_opts() -> SstWriterOptions {
    SstWriterOptions {
        block_size: 4 * 1024,
        compression: CompressionType::NoCompression,
        cf_id: CF,
    }
}

fn job(mem: MemtableImage, number: u64, path: &str) -> FlushJob<AddBe> {
    FlushJob::new(
        mem,
        FileNumber(number),
        CF,
        path.to_string(),
        default_writer_opts(),
    )
}

#[derive(Default)]
struct Disk {
    files: BTreeMap<String, u64>,
    dirs: Vec<String>,
}

fn run(job: FlushJob<AddBe>, path: &str, disk: &mut Disk) -> ForstResult<SstFileMeta> {
    let plan = job.prepare(true)?;
    disk.dirs.push(plan.parent.clone());
    let rows: Vec<FlushRow> = plan.batches.iter().flatten().cloned().collect();
    let size: u64 = rows.iter().map(|r| r.key.len() as u64 + 1).sum();
    disk.files.insert(plan.write_path.clone(), size);
    if plan.write_mode == WriteMode::CreateNew {
        let size = disk.files.remove(&plan.write_path).unwrap();
        disk.files.insert(path.to_string(), size);
    }
    let info = SstFileInfo {
        cf_id: CF,
        file_size: size,
        min_key: rows[0].key.clone(),
        max_key: rows[rows.len() - 1].key.clone(),
        min_sequence: rows.iter().map(|r| r.sequence).min().unwrap(),
        max_sequence: rows.iter().map(|r| r.sequence).max().unwrap(),
        entry_count: rows.len() as u64,
    };
    Ok(job.finish(info, None).0)
}

fn decode(rows: &[FlushRow]) -> Vec<(Vec<u8>, Vec<u8>, u8)> {
    rows.iter()
        .map(|r| (r.key.clone(), r.value.clone().unwrap(), r.op))
        .collect()
}

#[test]
fn test_flush_rejects_unfrozen_memtable() {
    let mem = MemtableImage {
        frozen: false,
        batches: Vec::new(),
    };
    let err = job(mem, 1, "/db/000001.sst").prepare(true).err().unwrap();
    assert!(err.to_string().contains("not frozen"));
}

#[test]
fn test_flush_rejects_empty_memtable() {
    let err = job(frozen(&[]), 1, "/db/000001.sst")
        .prepare(true)
        .err()
        .unwrap();
    assert!(err.to_string().contains("empty"));
}

#[test]
fn test_flush_writes_sst_file() {
    let mem = frozen(&[
        (b"a", Some(b"1"), put(), 1),
        (b"b", Some(b"2"), put(), 2),
        (b"c", None, OpType::Delete.as_u8(), 3),
    ]);
    let mut disk = Disk::default();
    let path = "/db/000007.sst";
    let meta = run(job(mem, 7, path), path, &mut disk).unwrap();
    assert_eq!(meta.file_number, FileNumber(7));
    assert_eq!(meta.cf_id, CF);
    assert_eq!(meta.num_entries, 3);
    assert_eq!(meta.smallest_key, b"a");
    assert_eq!(meta.largest_key, b"c");
    assert!(disk.files.contains_key(path));
}

#[test]
fn test_flush_tmp_file_cleaned_up_on_success() {
    let mem = frozen(&[(b"a", Some(b"1"), put(), 1)]);
    let mut disk = Disk::default();
    let path = "/db/000001.sst";
    run(job(mem, 1, path), path, &mut disk).unwrap();
    assert!(!disk.files.contains_key("/db/.000001.sst.tmp"));
}

#[test]
fn test_flush_captures_min_max_sequence() {
    let mem = frozen(&[
        (b"a", Some(b"1"), put(), 1),
        (b"b", Some(b"2"), put(), 2),
        (b"a", Some(b"3"), put(), 3),
    ]);
    let path = "/db/000001.sst";
    let meta = run(job(mem, 1, path), path, &mut Disk::default()).unwrap();
    assert_eq!(meta.min_sequence, SequenceNumber(1));
    assert_eq!(meta.max_sequence, SequenceNumber(3));
}

#[test]
fn test_flush_many_entries_spans_multiple_blocks() {
    let keys: Vec<(String, String)> = (0..2000u32)
        .map(|n| (format!("k{:06}", n), format!("v{:06}", n)))
        .collect();
    let entries: Vec<Entry<'_>> = keys
        .iter()
        .enumerate()
        .map(|(n, (k, v))| (k.as_bytes(), Some(v.as_bytes()), put(), n as u64 + 1))
        .collect();
    let path = "/db/000042.sst";
    let meta = run(job(frozen(&entries), 42, path), path, &mut Disk::default()).unwrap();
    assert_eq!(meta.num_entries, 2000);
    assert!(meta.file_size > 0);
    assert_eq!(meta.smallest_key, b"k000000");
    assert_eq!(meta.largest_key, b"k001999");
}

#[test]
fn test_flush_parent_dir_is_created() {
    let mem = frozen(&[(b"a", Some(b"1"), put(), 1)]);
    let deep = "/a/b/c/d/000001.sst";
    let mut disk = Disk::default();
    run(job(mem, 1, deep), deep, &mut disk).unwrap();
    assert_eq!(disk.dirs, vec!["/a/b/c/d".to_string()]);
    assert!(disk.files.contains_key(deep));
}

#[test]
fn test_sst_file_path_formatting() {
    assert_eq!(sst_file_path("/db", FileNumber(42)), "/db/000042.sst");
}

#[test]
fn test_sst_file_path_large_number() {
    assert_eq!(
        sst_file_path("/db", FileNumber(123456789)),
        "/db/123456789.sst"
    );
}

#[test]
fn test_sst_temp_path_round_trip() {
    let tmp = sst_temp_path("/db/000042.sst");
    let tmp_name = tmp.rsplit('/').next().unwrap();
    assert!(tmp_name.starts_with(SST_TMP_PREFIX));
    assert!(tmp_name.ends_with(SST_TMP_SUFFIX));
    assert_eq!(tmp, "/db/.000042.sst.tmp");
}

#[test]
fn test_sst_temp_naming_detects_orphan() {
    let tmp = sst_temp_path("/db/000007.sst");
    let name = tmp.rsplit('/').next().unwrap();
    let sst_inner_suffix = format!(".sst{}", SST_TMP_SUFFIX);
    let inner = name
        .strip_suffix(&sst_inner_suffix)
        .expect("scan must accept writer-side suffix");
    let stem = inner
        .strip_prefix(SST_TMP_PREFIX)
        .expect("scan must accept writer-side prefix");
    let num: u64 = stem.parse().expect("inner stem must parse as u64");
    assert_eq!(num, 7);
}

#[test]
fn directories_of_paths() {
    assert_eq!(parent_dir("/db/000001.sst"), Some("/db".to_string()));
    assert_eq!(parent_dir("/000001.sst"), Some("/".to_string()));
    assert_eq!(parent_dir("000001.sst"), Some("".to_string()));
    assert_eq!(parent_dir("/"), None);
    assert_eq!(parent_dir(""), None);
    assert_eq!(parent_dir("/db//000001.sst"), Some("/db".to_string()));
    assert_eq!(parent_dir("/db/x/"), Some("/db".to_string()));
    assert_eq!(parent_dir("/db/x/./"), Some("/db".to_string()));
    assert_eq!(parent_dir("."), Some("".to_string()));
    assert_eq!(parent_dir("a/.."), Some("a".to_string()));
}

#[test]
fn paths_agree_with_the_standard_ones() {
    for p in [
        "", "/", "//", ".", "..", "./", "a", "a/", "a/.", "a/./", "/a", "//a", "/./a", "./a", "a/..",
        "../a", "a//b", "a/./b", "a/b//", "/.", "/..", "...", "a/...", ".hidden", "/x/.hidden/",
    ] {
        let std_path = std::path::Path::new(p);
        let dir = std_path.parent().map(|d| d.to_str().unwrap().to_string());
        assert_eq!(parent_dir(p), dir, "{p:?}");
        assert_eq!(is_nameless(p), std_path.file_name().is_none(), "{p:?}");
        let mut base = std_path.to_path_buf();
        let existing = base
            .file_name()
            .map(|n| n.to_string_lossy().into_owned())
            .unwrap_or_default();
        base.set_file_name(format!(".{existing}.tmp"));
        assert_eq!(sst_temp_path(p), base.to_str().unwrap(), "{p:?}");
        assert_eq!(
            sst_file_path(p, FileNumber(3)),
            std_path.join("000003.sst").to_str().unwrap(),
            "{p:?}"
        );
    }
}

#[test]
fn collapse_folds_pure_merge_chain_to_single_put() {
    let batches = batches_of(&[
        (b"w", Some(&i(10)), merge(), 1),
        (b"w", Some(&i(5)), merge(), 2),
        (b"w", Some(&i(3)), merge(), 3),
    ]);
    let rows = decode(&collapse_merge_runs(&batches, &spec()).unwrap());
    assert_eq!(rows.len(), 1, "3 operands must fold to ONE entry");
    assert_eq!(rows[0].0, b"w");
    assert_eq!(rows[0].1, i(18), "10+5+3 = 18");
    assert_eq!(rows[0].2, put(), "folded chain emits a Put base");
}

#[test]
fn collapse_folds_merge_over_put_base() {
    let batches = batches_of(&[
        (b"w", Some(&i(100)), put(), 1),
        (b"w", Some(&i(5)), merge(), 2),
        (b"w", Some(&i(7)), merge(), 3),
    ]);
    let rows = decode(&collapse_merge_runs(&batches, &spec()).unwrap());
    assert_eq!(rows.len(), 1);
    assert_eq!(rows[0].1, i(112), "100 + 5 + 7 = 112");
    assert_eq!(rows[0].2, put());
}

#[test]
fn collapse_folds_each_key_independently() {
    let batches = batches_of(&[
        (b"a", Some(&i(1)), merge(), 1),
        (b"a", Some(&i(2)), merge(), 2),
        (b"b", Some(&i(40)), merge(), 3),
        (b"b", Some(&i(2)), merge(), 4),
    ]);
    let rows = decode(&collapse_merge_runs(&batches, &spec()).unwrap());
    assert_eq!(rows.len(), 2, "two keys give two folded entries");
    assert_eq!(rows[0].0, b"a");
    assert_eq!(rows[0].1, i(3));
    assert_eq!(rows[1].0, b"b");
    assert_eq!(rows[1].1, i(42));
}

#[test]
fn collapse_keeps_only_newest_for_put_only_key() {
    let batches = batches_of(&[
        (b"k", Some(&i(1)), put(), 1),
        (b"k", Some(&i(9)), put(), 2),
    ]);
    let rows = decode(&collapse_merge_runs(&batches, &spec()).unwrap());
    assert_eq!(rows.len(), 1);
    assert_eq!(rows[0].1, i(9), "newest Put wins");
    assert_eq!(rows[0].2, put());
}

#[test]
fn collapse_e2e_flush_writes_single_collapsed_sst_entry() {
    let one = i(1);
    let entries: Vec<Entry<'_>> = (1..=4)
        .map(|n| (b"w".as_slice(), Some(one.as_slice()), merge(), n))
        .collect();
    let mut disk = Disk::default();
    let verbatim = run(
        job(frozen(&entries), 1, "/db/000001.sst"),
        "/db/000001.sst",
        &mut disk,
    )
    .unwrap();
    assert_eq!(verbatim.num_entries, 4, "verbatim flush keeps all operands");
    let collapsed = run(
        job(frozen(&entries), 2, "/db/000002.sst").with_collapse(spec()),
        "/db/000002.sst",
        &mut disk,
    )
    .unwrap();
    assert_eq!(
        collapsed.num_entries, 1,
        "collapse folds the chain to ONE entry"
    );
    assert_eq!(collapsed.max_sequence, SequenceNumber(4));
    assert!(disk.files.contains_key("/db/000002.sst"));
}

#[test]
fn collapse_value_matches_verbatim_full_merge() {
    let batches = batches_of(&[
        (b"w", Some(&i(-4)), merge(), 1),
        (b"w", Some(&i(11)), merge(), 2),
        (b"w", Some(&i(2)), merge(), 3),
    ]);
    let reference = AddBe
        .full_merge(b"w", None, &[i(-4), i(11), i(2)])
        .unwrap();
    let rows = decode(&collapse_merge_runs(&batches, &spec()).unwrap());
    assert_eq!(
        rows[0].1, reference,
        "folded value must equal verbatim merge"
    );
    assert_eq!(reference, i(9));
}

#[test]
fn large_values_are_separated() {
    let directive = KvSepSpec {
        segment_id: FileNumber(77),
        min_blob_size: 4,
        vlog_compression: CompressionType::Lz4,
    };
    let batch = batches_of(&[
        (b"a", Some(b"tiny..."), put(), 1),
        (b"b", Some(b"xx"), put(), 2),
        (b"c", None, OpType::Delete.as_u8(), 3),
    ])
    .remove(0);
    assert_eq!(
        payloads_to_separate(&batch, &directive),
        Some(vec![b"tiny...".to_vec()])
    );
    let rows = substitute_pointers(&batch, &directive, &[b"ptr".to_vec()]);
    assert_eq!(rows[0].op, BLOB_REF_OP);
    assert_eq!(rows[0].value, Some(b"ptr".to_vec()));
    assert_eq!(rows[1], batch[1]);
    assert_eq!(rows[2], batch[2]);
    assert_eq!(count_tombstones(&batch), 1);
    let small = batches_of(&[(b"b", Some(b"xx"), put(), 2)]).remove(0);
    assert_eq!(payloads_to_separate(&small, &directive), None);

    let j = job(frozen(&[(b"a", Some(b"1"), put(), 1)]), 1, "/db/000001.sst")
        .with_kv_separation(directive);
    assert_eq!(j.kv_separation(), Some(directive));
    assert_eq!(j.options(), default_writer_opts());
    assert_eq!(j.orphan_segment(true), Some(FileNumber(77)));
    assert_eq!(j.orphan_segment(false), None);
    let info = SstFileInfo {
        cf_id: CF,
        file_size: 10,
        min_key: b"a".to_vec(),
        max_key: b"a".to_vec(),
        min_sequence: 1,
        max_sequence: 1,
        entry_count: 1,
    };
    let (_, segment) = j.finish(
        info,
        Some(VlogReport {
            size: 90,
            payload_bytes: 70,
        }),
    );
    let segment = segment.unwrap();
    assert_eq!(segment.segment_id, 77);
    assert_eq!(segment.file_size, 90);
    assert_eq!(segment.live_bytes, 70);
}

#[derive(Debug)]
struct Fails;

impl MergeOperator for Fails {
    fn full_merge(
        &self,
        _key: &[u8],
        _base: Option<&[u8]>,
        _operands: &[Vec<u8>],
    ) -> ForstResult<Vec<u8>> {
        Err(ForstError::aborted("cannot fold"))
    }

    fn partial_merge(&self, _key: &[u8], _left: &[u8], _right: &[u8]) -> ForstResult<Vec<u8>> {
        Err(ForstError::aborted("cannot fold"))
    }

    fn name(&self) -> String {
        "Fails".to_string()
    }
}

#[test]
fn folding_fails_before_the_directory_is_looked_for() {
    let rows: [Entry<'_>; 1] = [(b"a", Some(b"x"), merge(), 1)];
    let err = FlushJob::new(
        frozen(&rows),
        FileNumber(1),
        CF,
        "/".to_string(),
        default_writer_opts(),
    )
    .with_collapse(FlushCollapseSpec {
        merge_operator: Fails,
    })
    .prepare(true)
    .err()
    .unwrap();
    assert_eq!(err.to_string(), "Aborted: cannot fold");
    let err = job(frozen(&rows), 1, "/").prepare(true).err().unwrap();
    assert_eq!(
        err.to_string(),
        "Invalid argument: flush target has no parent directory: /"
    );
}

#[test]
fn the_record_of_a_flush_is_of_its_own_family() {
    let rows: [Entry<'_>; 1] = [(b"a", Some(b"x"), put(), 1)];
    let info = SstFileInfo {
        cf_id: ColumnFamilyId(DEFAULT_CF_ID + 1),
        file_size: 10,
        min_key: b"a".to_vec(),
        max_key: b"a".to_vec(),
        min_sequence: 1,
        max_sequence: 1,
        entry_count: 1,
    };
    let (meta, segment) = job(frozen(&rows), 4, "/db/000004.sst").finish(info, None);
    assert_eq!(meta.cf_id, CF);
    assert_eq!(meta.file_number, FileNumber(4));
    assert!(segment.is_none());
}
