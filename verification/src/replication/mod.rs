//! Replication to clients: conflict resolution, delta logging, the network
//! frame of deltas, synchronisation, and the configuration.
pub mod broadcast;
pub mod client;
pub mod conflict;
pub mod delta_encoder;
pub mod delta_log;
pub mod sync;

use crate::replication::conflict::ConflictStrategy;
use crate::text::owned;
use vstd::prelude::*;

verus! {

/// How replication is set up.
#[derive(Debug, Clone)]
pub struct ReplicationConfig {
    /// The TCP address to listen on.
    pub listen_addr: String,
    /// The WebSocket address to listen on, if any.
    pub websocket_addr: Option<String>,
    pub max_clients: usize,
    pub auth_token: Option<String>,
    pub heartbeat_interval_secs: u64,
    /// Changes per network packet.
    pub delta_batch_size: usize,
    pub enable_compression: bool,
    pub conflict_strategy: ConflictStrategy,
    pub broadcast_throttle_ms: u64,
    pub broadcast_scheduler_interval_ms: u64,
}

impl Default for ReplicationConfig {
    fn default() -> (c: Self)
        ensures
            c.listen_addr@ == "127.0.0.1:9000"@,
            c.websocket_addr is None,
            c.max_clients == 100,
            c.auth_token is None,
            c.heartbeat_interval_secs == 5,
            c.delta_batch_size == 100,
            !c.enable_compression,
            c.conflict_strategy == ConflictStrategy::ServerAuthoritative,
            c.broadcast_throttle_ms == 10,
            c.broadcast_scheduler_interval_ms == 100,
    {
        ReplicationConfig {
            listen_addr: owned("127.0.0.1:9000"),
            websocket_addr: None,
            max_clients: 100,
            auth_token: None,
            heartbeat_interval_secs: 5,
            delta_batch_size: 100,
            enable_compression: false,
            conflict_strategy: ConflictStrategy::ServerAuthoritative,
            broadcast_throttle_ms: 10,
            broadcast_scheduler_interval_ms: 100,
        }
    }
}

} // verus!
