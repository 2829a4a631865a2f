//! Retention of versions during compaction.

use crate::types::{OpType, SequenceNumber};
use vstd::prelude::*;

verus! {

/// Whether a version may be dropped: no live snapshot needs it, and a newer
/// version of its key exists. A tombstone without a newer version is kept, so
/// that readers see a deletion rather than nothing.
pub fn should_drop(
    entry_seq: SequenceNumber,
    entry_op: OpType,
    newer_version_exists: bool,
    min_active_snapshot: SequenceNumber,
) -> (r: bool)
    ensures
        r == (entry_seq.0 < min_active_snapshot.0 && newer_version_exists),
{
    if entry_seq.0 >= min_active_snapshot.0 {
        return false;
    }
    match entry_op {
        OpType::Delete | OpType::SingleDelete => newer_version_exists,
        OpType::Put | OpType::Merge => newer_version_exists,
    }
}

} // verus!
