//! Durable storage: snapshots, the write-ahead log on disk, recovery and
//! compaction.
pub mod compaction;
pub mod file_wal;
pub mod manager;
pub mod names;
pub mod snapshot;
pub mod wal;
