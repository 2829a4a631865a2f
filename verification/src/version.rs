//! What the engine records of its files: table metadata, levels, versions and
//! version edits.

use crate::bytes::copy_bytes;
use crate::types::{ColumnFamilyId, CompressionType, FileNumber, SequenceNumber};
use std::collections::BTreeSet;
use vstd::prelude::*;

verus! {

/// The contents of an [`SstFileMeta`].
pub struct SstFileMetaView {
    pub file_number: FileNumber,
    pub cf_id: ColumnFamilyId,
    pub file_size: u64,
    pub smallest_key: Seq<u8>,
    pub largest_key: Seq<u8>,
    pub min_sequence: SequenceNumber,
    pub max_sequence: SequenceNumber,
    pub num_entries: u64,
    pub max_death: u64,
}

/// Metadata of one table file.
#[derive(Debug, Clone, PartialEq, Eq)]
pub struct SstFileMeta {
    pub file_number: FileNumber,
    pub cf_id: ColumnFamilyId,
    pub file_size: u64,
    pub smallest_key: Vec<u8>,
    pub largest_key: Vec<u8>,
    pub min_sequence: SequenceNumber,
    pub max_sequence: SequenceNumber,
    pub num_entries: u64,
    /// Latest time at which an entry dies, or 0 if it is not known.
    pub max_death: u64,
}

impl View for SstFileMeta {
    type V = SstFileMetaView;

    open spec fn view(&self) -> SstFileMetaView {
        SstFileMetaView {
            file_number: self.file_number,
            cf_id: self.cf_id,
            file_size: self.file_size,
            smallest_key: self.smallest_key@,
            largest_key: self.largest_key@,
            min_sequence: self.min_sequence,
            max_sequence: self.max_sequence,
            num_entries: self.num_entries,
            max_death: self.max_death,
        }
    }
}

/// The contents of several metas.
pub open spec fn metas_view(metas: Seq<SstFileMeta>) -> Seq<SstFileMetaView> {
    Seq::new(metas.len(), |i: int| metas[i]@)
}

/// Appending a meta appends its contents.
pub proof fn lemma_metas_push(metas: Seq<SstFileMeta>, meta: SstFileMeta)
    ensures
        metas_view(metas.push(meta)) == metas_view(metas).push(meta@),
{
    assert(metas_view(metas.push(meta)) =~= metas_view(metas).push(meta@));
}

impl SstFileMeta {
    /// An owned copy.
    pub fn duplicate(&self) -> (r: SstFileMeta)
        ensures
            r@ == self@,
    {
        SstFileMeta {
            file_number: self.file_number,
            cf_id: self.cf_id,
            file_size: self.file_size,
            smallest_key: copy_bytes(self.smallest_key.as_slice()),
            largest_key: copy_bytes(self.largest_key.as_slice()),
            min_sequence: self.min_sequence,
            max_sequence: self.max_sequence,
            num_entries: self.num_entries,
            max_death: self.max_death,
        }
    }
}

/// Metadata of one value-log segment.
#[derive(Debug, Clone, Copy, PartialEq, Eq, Structural)]
pub struct VlogSegmentMeta {
    pub segment_id: u64,
    pub cf_id: ColumnFamilyId,
    pub file_size: u64,
    pub live_bytes: u64,
}

/// What a table writer reports when it finishes a file.
#[derive(Debug, Clone, PartialEq, Eq)]
pub struct SstFileInfo {
    pub cf_id: ColumnFamilyId,
    pub file_size: u64,
    pub min_key: Vec<u8>,
    pub max_key: Vec<u8>,
    pub min_sequence: u64,
    pub max_sequence: u64,
    pub entry_count: u64,
}

/// The metadata of a finished file.
pub open spec fn meta_of_info(
    file_number: FileNumber,
    cf_id: ColumnFamilyId,
    info: SstFileInfo,
) -> SstFileMetaView {
    SstFileMetaView {
        file_number,
        cf_id,
        file_size: info.file_size,
        smallest_key: info.min_key@,
        largest_key: info.max_key@,
        min_sequence: SequenceNumber(info.min_sequence),
        max_sequence: SequenceNumber(info.max_sequence),
        num_entries: info.entry_count,
        max_death: 0,
    }
}

/// Turns the report of a table writer into the metadata of its file, which is
/// one of the family `cf_id`.
pub fn info_to_meta(file_number: FileNumber, cf_id: ColumnFamilyId, info: SstFileInfo) -> (r:
    SstFileMeta)
    ensures
        r@ == meta_of_info(file_number, cf_id, info),
{
    SstFileMeta {
        file_number,
        cf_id,
        file_size: info.file_size,
        smallest_key: info.min_key,
        largest_key: info.max_key,
        min_sequence: SequenceNumber(info.min_sequence),
        max_sequence: SequenceNumber(info.max_sequence),
        num_entries: info.entry_count,
        max_death: 0,
    }
}

/// Settings of a table writer.
#[derive(Debug, Clone, Copy, PartialEq, Eq, Structural)]
pub struct SstWriterOptions {
    pub block_size: usize,
    pub compression: CompressionType,
    pub cf_id: ColumnFamilyId,
}

/// The files of one level.
#[derive(Debug, Clone, PartialEq, Eq)]
pub struct LevelMeta {
    pub level: u32,
    pub files: Vec<SstFileMeta>,
}

/// The files of every level at one point in time.
#[derive(Debug, Clone, PartialEq, Eq)]
pub struct Version {
    pub levels: Vec<LevelMeta>,
}

/// The files that `version` has at `level`; none if there is no such level.
pub open spec fn level_files(version: Version, level: int) -> Seq<SstFileMetaView> {
    if 0 <= level < version.levels@.len() {
        metas_view(version.levels@[level].files@)
    } else {
        Seq::empty()
    }
}

impl Version {
    /// The number of levels.
    pub fn num_levels(&self) -> (r: usize)
        ensures
            r == self.levels@.len(),
    {
        self.levels.len()
    }
}

/// A change of the set of live files.
#[derive(Debug, Clone, PartialEq, Eq)]
pub struct VersionEdit {
    /// Files added, with their level.
    pub new_files: Vec<(u32, SstFileMeta)>,
    /// Files removed, with their level.
    pub deleted_files: Vec<(u32, FileNumber)>,
    pub next_file_number: Option<FileNumber>,
    pub last_sequence: Option<SequenceNumber>,
}

/// The contents of a list of files with levels.
pub open spec fn leveled_metas(files: Seq<(u32, SstFileMeta)>) -> Seq<(u32, SstFileMetaView)> {
    Seq::new(files.len(), |i: int| (files[i].0, files[i].1@))
}

/// Directive to move the live values of some value-log segments to a new one.
#[derive(Debug, Clone, PartialEq, Eq)]
pub struct KvGcSpec {
    /// Segments to empty.
    pub relocate: BTreeSet<u64>,
    /// Segment to write to.
    pub output_segment_id: FileNumber,
    /// Directory of the database.
    pub db_dir: String,
    pub vlog_compression: CompressionType,
}

/// The contents of a [`KvGcSpec`].
pub struct KvGcView {
    pub relocate: Set<u64>,
    pub output_segment_id: FileNumber,
    pub db_dir: Seq<char>,
    pub vlog_compression: CompressionType,
}

impl View for KvGcSpec {
    type V = KvGcView;

    open spec fn view(&self) -> KvGcView {
        KvGcView {
            relocate: self.relocate@,
            output_segment_id: self.output_segment_id,
            db_dir: self.db_dir@,
            vlog_compression: self.vlog_compression,
        }
    }
}

/// The contents of an optional [`KvGcSpec`].
pub open spec fn opt_gc(gc: Option<KvGcSpec>) -> Option<KvGcView> {
    match gc {
        Some(g) => Some(g@),
        None => None,
    }
}

impl KvGcSpec {
    /// An owned copy.
    pub fn duplicate(&self) -> (r: KvGcSpec)
        ensures
            r@ == self@,
    {
        KvGcSpec {
            relocate: self.relocate.clone(),
            output_segment_id: self.output_segment_id,
            db_dir: self.db_dir.clone(),
            vlog_compression: self.vlog_compression,
        }
    }
}

} // verus!
