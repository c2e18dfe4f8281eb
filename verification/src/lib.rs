//! An entity-component database core: fixed-size record storage with
//! double buffering, entity and archetype registries, a schema model with
//! layout computation, a write-ahead log, change deltas, conflict
//! resolution and the binary formats used for persistence and replication.

pub mod bench;
pub mod checksum;
pub mod client;
pub mod clock;
pub mod codec;
pub mod component;
pub mod compression;
pub mod config;
pub mod db;
pub mod entity;
pub mod error;
pub mod numbers;
pub mod persistence;
pub mod replication;
pub mod schema;
pub mod text;
pub mod storage;
pub mod transaction;
