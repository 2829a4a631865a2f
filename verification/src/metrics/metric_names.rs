//! Names of the engine's metrics.

use vstd::prelude::*;

verus! {

/// Bytes written to the write-ahead log.
pub const WAL_BYTES_WRITTEN: &'static str = "forst.wal.bytes_written";

/// Number of syncs of the write-ahead log.
pub const WAL_SYNCS: &'static str = "forst.wal.syncs";

/// Bytes written during compaction.
pub const COMPACTION_BYTES_WRITTEN: &'static str = "forst.compaction.bytes_written";

/// Bytes read during compaction.
pub const COMPACTION_BYTES_READ: &'static str = "forst.compaction.bytes_read";

/// Number of memtable flushes.
pub const MEMTABLE_FLUSHES: &'static str = "forst.memtable.flushes";

/// Current memtable size in bytes.
pub const MEMTABLE_SIZE: &'static str = "forst.memtable.size_bytes";

/// Block cache hits.
pub const BLOCK_CACHE_HITS: &'static str = "forst.cache.hits";

/// Block cache misses.
pub const BLOCK_CACHE_MISSES: &'static str = "forst.cache.misses";

/// Number of open table files.
pub const SST_FILES_OPEN: &'static str = "forst.sst.files_open";

/// Total size of the table files.
pub const SST_TOTAL_SIZE: &'static str = "forst.sst.total_size_bytes";

/// Read latency in microseconds.
pub const READ_LATENCY_US: &'static str = "forst.read.latency_us";

/// Write latency in microseconds.
pub const WRITE_LATENCY_US: &'static str = "forst.write.latency_us";

} // verus!
