use vstd::prelude::*;

verus! {

/// What can go wrong on the client side.
#[derive(Debug)]
pub enum ClientError {
    IoError(String),
    NetworkError(String),
    SerializationError(String),
    ProtocolError(String),
    ServerError(String),
    SyncError(String),
    ComponentNotFound { entity_id: u64, component_type: String },
    EntityNotFound(u64),
    SchemaMismatch(String),
}

} // verus!
