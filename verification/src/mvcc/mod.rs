//! Multi-version concurrency: snapshots, versioned reads and the retention
//! policy that compaction follows.
pub mod compaction_policy;
pub mod reader;
pub mod snapshot;
