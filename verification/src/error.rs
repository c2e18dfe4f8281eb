use vstd::prelude::*;

verus! {

/// Errors reported by the database.
#[derive(Debug, Clone, PartialEq, Eq)]
pub enum EcsDbError {
    EntityNotFound(u64),
    ComponentNotFound { entity_id: u64, component_type: String },
    SchemaError(String),
    ReferentialIntegrityViolation(String),
    TransactionError(String),
    IoError(String),
    SerializationError(String),
    FieldTypeMismatch { expected: String, got: String },
    AlignmentError { offset: usize },
    ChannelClosed,
    Timeout,
    SnapshotError(String),
    CompressionError(String),
    WalError(String),
    BlockingTaskError(String),
    ConfigError(String),
    CompactionError(String),
    ReplicationError(String),
    JsonError(String),
}

pub type Result<T> = std::result::Result<T, EcsDbError>;

} // verus!
