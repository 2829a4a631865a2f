//! Checkpoints: trailers, copies, blobs.

use forst_rs::checkpoint::{
    append_mapping_trailer, ckpt_parallel_upload_workers, collect_parallel, collect_serial,
    copy_fan_out, copy_pairs, plan_artifact_write, plan_blob_write, split_mapping_trailer,
    ArtifactKind, ArtifactRead, CheckpointManifest, CopyNext, CopyResult, CopyRun,
    CKPT_PARALLEL_UPLOAD_DEFAULT, MAX_CHECKPOINT_BLOB_SIZE,
};
use forst_rs::error::{ForstError, ForstResult};
use forst_rs::flush::WriteMode;
use forst_rs::types::{ColumnFamilyId, FileNumber, SequenceNumber, DEFAULT_CF_ID};
use forst_rs::version::SstFileMeta;
use std::collections::BTreeMap;

#[derive(Default)]
struct Files {
    held: BTreeMap<String, Vec<u8>>,
}

fn write_blob(fs: &mut Files, dir: &str, data: &[u8], atomic: bool) -> String {
    let plan = plan_blob_write(dir, atomic);
    fs.held.insert(plan.target.clone(), data.to_vec());
    if let Some(to) = &plan.rename_to {
        let bytes = fs.held.remove(&plan.target).unwrap();
        fs.held.insert(to.clone(), bytes);
    }
    plan.path
}

fn read_file(fs: &Files, kind: ArtifactKind, path: &str, step: usize) -> ForstResult<Vec<u8>> {
    let found = fs.held.get(path).map(|b| b.len() as u64);
    let mut run = ArtifactRead::start(kind, path, found)?;
    let mut out = Vec::new();
    while run.wants() {
        let left = &fs.held[path][run.offset..];
        let n = left.len().min(step);
        out.extend_from_slice(&left[..n]);
        if !run.received(n) {
            break;
        }
    }
    run.finish()?;
    Ok(out)
}

fn copy_file(fs: &mut Files, src: &str, dst: &str, atomic: bool) -> ForstResult<u64> {
    let bytes = match fs.held.get(src) {
        Some(b) => b.clone(),
        None => return Err(ForstError::not_found(src)),
    };
    let mut run = CopyRun::start(src, dst, atomic, Some(bytes.len() as u64));
    fs.held.insert(run.target.clone(), bytes.clone());
    for chunk in bytes.chunks(3) {
        assert!(run.received(chunk.len()));
    }
    assert!(!run.received(0));
    match run.finish(Ok(())) {
        CopyNext::Done(n) => Ok(n),
        CopyNext::Rename { from, to, bytes } => {
            let b = fs.held.remove(&from).unwrap();
            fs.held.insert(to, b);
            Ok(bytes)
        }
        CopyNext::Discard { path, error } => {
            fs.held.remove(&path);
            Err(error)
        }
    }
}

fn seed_live(fs: &mut Files, dir: &str, n: u64) -> Vec<SstFileMeta> {
    let mut live = Vec::new();
    for i in 0..n {
        let payload: Vec<u8> = (0..(64 + i)).map(|b| (b ^ i) as u8).collect();
        live.push(SstFileMeta {
            file_number: FileNumber(i),
            cf_id: ColumnFamilyId(DEFAULT_CF_ID),
            file_size: payload.len() as u64,
            smallest_key: vec![i as u8],
            largest_key: vec![i as u8],
            min_sequence: SequenceNumber(i),
            max_sequence: SequenceNumber(i),
            num_entries: 1,
            max_death: 0,
        });
        fs.held.insert(format!("{}/{:06}.sst", dir, i), payload);
    }
    live
}

fn copy_all(
    fs: &mut Files,
    source: &str,
    target: &str,
    live: &[SstFileMeta],
    workers: usize,
) -> ForstResult<(u64, Vec<String>)> {
    let mut pairs = copy_pairs(source, target, live);
    let parallel = copy_fan_out(live.len(), workers).is_some();
    if parallel {
        pairs.reverse();
    }
    let mut done = Vec::new();
    for p in pairs {
        let outcome = copy_file(fs, &p.src, &p.dst, true);
        let failed = outcome.is_err();
        done.push(CopyResult {
            number: p.number,
            dst: p.dst,
            outcome,
        });
        if failed {
            break;
        }
    }
    if parallel {
        collect_parallel(done)
    } else {
        collect_serial(done)
    }
}

#[test]
fn test_write_then_read_blob_roundtrip() {
    for atomic in [true, false] {
        let mut fs = Files::default();
        let data = b"hello checkpoint";
        let path = write_blob(&mut fs, "/ck", data, atomic);
        assert!(fs.held.contains_key(&path));
        assert_eq!(path, "/ck/CHECKPOINT.blob");
        assert_eq!(fs.held.len(), 1);
        let read = read_file(&fs, ArtifactKind::Blob, &path, 5).unwrap();
        assert_eq!(read, data);
    }
}

#[test]
fn test_read_missing_blob_returns_not_found() {
    let fs = Files::default();
    let err = read_file(&fs, ArtifactKind::Blob, "/ck/CHECKPOINT.blob", 5).unwrap_err();
    assert!(err.is_not_found());
    assert_eq!(
        err.to_string(),
        "Not found: checkpoint blob not found at /ck/CHECKPOINT.blob"
    );
}

#[test]
fn test_read_blob_rejects_oversized_metadata() {
    let err = ArtifactRead::start(
        ArtifactKind::Blob,
        "/ck/CHECKPOINT.blob",
        Some(MAX_CHECKPOINT_BLOB_SIZE + 1),
    )
    .err()
    .unwrap();
    assert!(err.to_string().contains("exceeds cap"));
    assert!(err.is_corruption());
    assert!(ArtifactRead::start(ArtifactKind::Blob, "b", Some(MAX_CHECKPOINT_BLOB_SIZE)).is_ok());
}

#[test]
fn short_reads_are_corruption() {
    let mut run = ArtifactRead::start(ArtifactKind::Artifact, "/ck/x", Some(10)).unwrap();
    assert!(run.received(4));
    assert!(!run.received(0));
    let err = run.finish().unwrap_err();
    assert_eq!(
        err.to_string(),
        "Data corruption: checkpoint artifact short read: expected 10 bytes, got 4 at /ck/x"
    );
}

#[test]
fn test_mapping_trailer_roundtrip_and_legacy_passthrough() {
    let base = b"FRCP-fake-base-blob-bytes".to_vec();
    let (b, m) = split_mapping_trailer(&base).unwrap();
    assert_eq!(b, &base[..]);
    assert!(m.is_none());

    let mapping = b"FRMS-fake-mapping-snapshot".to_vec();
    let mut blob = base.clone();
    append_mapping_trailer(&mut blob, &mapping);
    let (b, m) = split_mapping_trailer(&blob).unwrap();
    assert_eq!(b, &base[..]);
    assert_eq!(m.unwrap(), &mapping[..]);

    let mut blob2 = base.clone();
    append_mapping_trailer(&mut blob2, &[]);
    let (b2, m2) = split_mapping_trailer(&blob2).unwrap();
    assert_eq!(b2, &base[..]);
    assert_eq!(m2.unwrap(), &[] as &[u8]);

    let mut corrupted = base.clone();
    append_mapping_trailer(&mut corrupted, &mapping);
    let idx = base.len() + 2;
    corrupted[idx] ^= 0xFF;
    assert!(split_mapping_trailer(&corrupted).is_err());
}

#[test]
fn trailer_ends_in_length_and_magic() {
    let mut blob = vec![9u8];
    append_mapping_trailer(&mut blob, b"ab");
    assert_eq!(&blob[..3], &[9, b'a', b'b']);
    assert_eq!(&blob[blob.len() - 8..], &[2, 0, 0, 0, b'F', b'R', b'M', b'T']);
    let n = blob.len();
    blob[n - 8] = 200;
    let err = split_mapping_trailer(&blob).unwrap_err();
    assert_eq!(
        err.to_string(),
        "Data corruption: mapping trailer payload_len 200 exceeds blob size 15"
    );
}

#[test]
fn test_copy_file_preserves_content() {
    let mut fs = Files::default();
    fs.held.insert("/src/a.bin".to_string(), b"payload".to_vec());
    let bytes = copy_file(&mut fs, "/src/a.bin", "/dst/a.bin", true).unwrap();
    assert_eq!(bytes, 7);
    assert_eq!(fs.held["/dst/a.bin"], b"payload");
}

#[test]
fn truncated_copies_are_discarded() {
    let mut run = CopyRun::start("/s/1.sst", "/d/1.sst", true, Some(8));
    assert_eq!(run.target, "/d/.1.sst.tmp");
    assert_eq!(run.mode, WriteMode::CreateNew);
    assert_eq!(run.directory(), Some("/d".to_string()));
    run.received(5);
    match run.finish(Ok(())) {
        CopyNext::Discard { path, error } => {
            assert_eq!(path, "/d/.1.sst.tmp");
            assert_eq!(
                error.to_string(),
                "Data corruption: copy_file short read: expected 8 bytes, got 5 from /s/1.sst"
            );
        }
        _ => panic!("a short copy must not be published"),
    }
    let mut run = CopyRun::start("/s/1.sst", "/d/1.sst", false, None);
    assert_eq!(run.target, "/d/1.sst");
    run.received(5);
    match run.finish(Ok(())) {
        CopyNext::Done(n) => assert_eq!(n, 5),
        _ => panic!("expected Done"),
    }
    let run = CopyRun::start("/s/1.sst", "/d/1.sst", false, None);
    match run.finish(Err(ForstError::aborted("disk"))) {
        CopyNext::Discard { path, error } => {
            assert_eq!(path, "/d/1.sst");
            assert!(error.is_aborted());
        }
        _ => panic!("expected Discard"),
    }
}

#[test]
fn parallel_copy_matches_serial_byte_for_byte() {
    let mut fs = Files::default();
    let live = seed_live(&mut fs, "/db", 17);
    let (ser_bytes, ser_files) = copy_all(&mut fs, "/db", "/ckpt-ser", &live, 1).unwrap();
    let (par_bytes, par_files) = copy_all(&mut fs, "/db", "/ckpt-par", &live, 8).unwrap();
    assert_eq!(ser_bytes, par_bytes);
    let name = |p: &String| p.rsplit('/').next().unwrap().to_string();
    let ser_names: Vec<String> = ser_files.iter().map(name).collect();
    let par_names: Vec<String> = par_files.iter().map(name).collect();
    assert_eq!(ser_names, par_names);
    for (a, b) in ser_files.iter().zip(par_files.iter()) {
        assert_eq!(
            read_file(&fs, ArtifactKind::Artifact, a, 7).unwrap(),
            read_file(&fs, ArtifactKind::Artifact, b, 9).unwrap()
        );
    }
    let manifest = CheckpointManifest {
        target_dir: "/ckpt-par".to_string(),
        sst_files: par_files,
        total_bytes: par_bytes,
    };
    assert_eq!(manifest.sst_files.len(), 17);
}

#[test]
fn parallel_copy_degenerate_fanouts() {
    let mut fs = Files::default();
    let (b, f) = copy_all(&mut fs, "/db", "/ck0", &[], 8).unwrap();
    assert_eq!(b, 0);
    assert!(f.is_empty());
    let live1 = seed_live(&mut fs, "/db", 1);
    let (b1, f1) = copy_all(&mut fs, "/db", "/ck1", &live1, 8).unwrap();
    assert_eq!(f1.len(), 1);
    assert_eq!(b1, live1[0].file_size);
    let live = seed_live(&mut fs, "/db", 5);
    let (b5, f5) = copy_all(&mut fs, "/db", "/ck5", &live, 1).unwrap();
    assert_eq!(f5.len(), 5);
    let (bs, _) = copy_all(&mut fs, "/db", "/ck5s", &live, 3).unwrap();
    assert_eq!(b5, bs);
    assert_eq!(copy_fan_out(17, 8), Some(8));
    assert_eq!(copy_fan_out(3, 8), Some(3));
    assert_eq!(copy_fan_out(1, 8), None);
    assert_eq!(copy_fan_out(9, 1), None);
}

#[test]
fn parallel_copy_propagates_error() {
    let mut fs = Files::default();
    let mut live = seed_live(&mut fs, "/db", 4);
    let mut gone = live[0].clone();
    gone.file_number = FileNumber(999);
    live.push(gone);
    assert!(copy_all(&mut fs, "/db", "/cke", &live, 8).is_err());
}

#[test]
fn the_first_failure_is_the_one_reported() {
    let done = vec![
        CopyResult {
            number: FileNumber(5),
            dst: "/d/5".to_string(),
            outcome: Ok(3),
        },
        CopyResult {
            number: FileNumber(1),
            dst: "/d/1".to_string(),
            outcome: Err(ForstError::busy("one")),
        },
        CopyResult {
            number: FileNumber(2),
            dst: "/d/2".to_string(),
            outcome: Err(ForstError::busy("two")),
        },
    ];
    assert_eq!(
        collect_parallel(done).unwrap_err().to_string(),
        "Resource busy: one"
    );
}

#[test]
fn parallel_upload_flag_parser_and_dispatch() {
    let cases = [
        (None, None),
        (Some("0"), None),
        (Some(""), None),
        (Some("false"), None),
        (Some("off"), None),
        (Some("1"), Some(CKPT_PARALLEL_UPLOAD_DEFAULT)),
        (Some("true"), Some(CKPT_PARALLEL_UPLOAD_DEFAULT)),
        (Some("on"), Some(CKPT_PARALLEL_UPLOAD_DEFAULT)),
        (Some("4"), Some(4)),
        (Some("16"), Some(16)),
        (Some("garbage"), None),
        (Some(" 4 "), Some(4)),
        (Some("+4"), Some(4)),
        (Some("00"), None),
        (Some("-4"), None),
        (Some("99999999999999999999"), None),
    ];
    for (set, want) in cases {
        assert_eq!(ckpt_parallel_upload_workers(set), want, "for {:?}", set);
    }

    let mut fs = Files::default();
    let live = seed_live(&mut fs, "/db", 6);
    let workers = ckpt_parallel_upload_workers(None).unwrap_or(1);
    let (auto_b, auto_f) = copy_all(&mut fs, "/db", "/a", &live, workers).unwrap();
    let (ser_b, ser_f) = copy_all(&mut fs, "/db", "/s", &live, 1).unwrap();
    assert_eq!(auto_b, ser_b);
    let name = |p: &String| p.rsplit('/').next().unwrap().to_string();
    let an: Vec<String> = auto_f.iter().map(name).collect();
    let sn: Vec<String> = ser_f.iter().map(name).collect();
    assert_eq!(an, sn);
}

#[test]
fn artifact_writes_stage_and_rename() {
    let p = plan_artifact_write("/ck/mem.arrow", true).unwrap();
    assert_eq!(p.directory, Some("/ck".to_string()));
    assert_eq!(p.target, "/ck/.mem.arrow.tmp");
    assert_eq!(p.mode, WriteMode::CreateNew);
    assert_eq!(p.rename_to, Some("/ck/mem.arrow".to_string()));
    assert_eq!(p.sync_dir, None);
    let p = plan_artifact_write("/ck/mem.arrow", false).unwrap();
    assert_eq!(p.target, "/ck/mem.arrow");
    assert_eq!(p.mode, WriteMode::CreateOrTruncate);
    assert_eq!(p.rename_to, None);
    let err = plan_artifact_write("/ck/..", true).err().unwrap();
    assert_eq!(
        err.to_string(),
        "Invalid argument: artifact path has no file name"
    );
    let p = plan_blob_write("/ck", true);
    assert_eq!(p.target, "/ck/.CHECKPOINT.blob.tmp");
    assert_eq!(p.sync_dir, Some("/ck".to_string()));
}

#[test]
fn files_are_copied_by_ascending_number_whatever_their_order() {
    let mut fs = Files::default();
    let mut live = seed_live(&mut fs, "/src", 4);
    let expected: Vec<String> = (0..4).map(|i| format!("/dst/{:06}.sst", i)).collect();
    let bytes: u64 = live.iter().map(|m| m.file_size).sum();
    live.swap(1, 2);
    live.swap(0, 3);
    let numbers: Vec<u64> = live.iter().map(|m| m.file_number.0).collect();
    assert_eq!(numbers, vec![3, 2, 1, 0]);
    let pairs = copy_pairs("/src", "/dst", &live);
    for (i, p) in pairs.iter().enumerate() {
        assert_eq!(p.number, FileNumber(i as u64));
        assert_eq!(p.src, format!("/src/{:06}.sst", i));
        assert_eq!(p.dst, expected[i]);
    }
    for workers in [1, 3] {
        let (total, files) = copy_all(&mut fs, "/src", "/dst", &live, workers).unwrap();
        assert_eq!(total, bytes);
        assert_eq!(files, expected);
    }
}
