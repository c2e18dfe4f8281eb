use ecsdb::error::EcsDbError;
use ecsdb::replication::client::{ClientManager, ClientMessage, ClientState};
use ecsdb::replication::sync::{FullSyncProtocol, IncrementalSyncProtocol};
use ecsdb::storage::delta::Delta;

#[test]
fn client_limit_refuses_one_more() {
    let mut clients = ClientManager::new(1);
    assert_eq!(clients.add_client(7).ok(), Some(7));
    assert!(matches!(clients.add_client(8), Err(EcsDbError::ReplicationError(_))));
    assert_eq!(clients.connected_count(), 1);
    let c = clients.get_client(7).unwrap();
    assert_eq!(c.state, ClientState::PendingAuth);
    assert_eq!(c.client_version, 0);
    assert!(clients.remove_client(7).is_some());
    assert_eq!(clients.connected_count(), 0);
}

#[test]
fn last_chunk_ack_makes_client_ready() {
    let mut clients = ClientManager::new(4);
    clients.add_client(1).unwrap();
    let full = FullSyncProtocol::default();
    full.handle_chunk_ack(&mut clients, 1, 0, 3).unwrap();
    assert_eq!(clients.get_client(1).unwrap().state, ClientState::PendingAuth);
    full.handle_chunk_ack(&mut clients, 1, 2, 3).unwrap();
    assert_eq!(clients.get_client(1).unwrap().state, ClientState::Ready);
}

#[test]
fn full_sync_chunks_carry_schema_first() {
    let full = FullSyncProtocol::default();
    let data = vec![7u8; 1024 * 1024 + 10];
    let msgs = full.create_full_sync("schema".to_string(), data, 4);
    assert_eq!(msgs.len(), 2);
    assert_eq!(msgs[0].schema_toml, "schema");
    assert_eq!(msgs[1].schema_toml, "");
    assert_eq!(msgs[0].snapshot_data.len(), 1024 * 1024);
    assert_eq!(msgs[1].snapshot_data.len(), 10);
    assert_eq!(msgs[1].chunk_index, 1);
    assert_eq!(msgs[1].total_chunks, 2);
}

#[test]
fn archive_keeps_only_the_newest() {
    let mut sync = IncrementalSyncProtocol::default();
    for v in 1..=1001u64 {
        sync.archive_delta(Delta::new(v, 0));
    }
    assert!(sync.create_incremental_sync(1, 1).is_none());
    let m = sync.create_incremental_sync(2, 4).unwrap();
    assert_eq!(m.deltas.len(), 3);
    assert_eq!(m.deltas[0].version, 2);
    assert!(m.catch_up);
}

#[test]
fn client_request_is_answered_from_the_archive() {
    let mut clients = ClientManager::new(4);
    clients.add_client(5).unwrap();
    let mut sync = IncrementalSyncProtocol::default();
    sync.archive_delta(Delta::new(1, 0));
    sync.archive_delta(Delta::new(2, 0));
    assert!(matches!(sync.handle_client_request(&clients, 9, 2), Err(EcsDbError::ReplicationError(_))));
    match sync.handle_client_request(&clients, 5, 2).unwrap() {
        Some(ClientMessage::Delta(d)) => {
            assert_eq!(d.version, 2);
            assert!(d.ops.is_empty());
        }
        _ => panic!("expected a catch-up delta"),
    }
    clients.update_client_version(5, 2).unwrap();
    assert!(sync.handle_client_request(&clients, 5, 2).unwrap().is_none());
    assert!(sync.handle_client_request(&clients, 5, 3).unwrap().is_none());
}
