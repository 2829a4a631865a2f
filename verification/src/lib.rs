//! The core of a log-structured merge engine.
pub mod arena;
pub mod bg_pool;
pub mod bytes;
pub mod checkpoint;
pub mod checksum;
pub mod clock;
pub mod coding;
pub mod column_family;
pub mod compaction;
pub mod compaction_executor;
pub mod compaction_filter;
pub mod compaction_policy;
pub mod config;
pub mod error;
pub mod file_deletion_guard;
pub mod flags;
pub mod flush;
pub mod key_versions;
pub mod list_merge;
pub mod mem_pressure;
pub mod memory_manager;
pub mod merge_operator;
pub mod merge_order;
pub mod merge_runs;
pub mod metrics;
pub mod mvcc;
pub mod paths;
pub mod row;
pub mod text;
pub mod types;
pub mod version;
