pub mod engine;
pub mod wal;
pub mod write_queue;
