//! Full and incremental synchronisation of clients.
use crate::error::{EcsDbError, Result};
use crate::replication::client::{ClientManager, ClientMessage, ClientState};
use crate::storage::delta::{copy_delta, same_delta, Delta};
use crate::text::owned;
use std::collections::VecDeque;
use vstd::prelude::*;

verus! {

/// One chunk of a full synchronisation.
#[derive(Debug, Clone)]
pub struct FullSyncMessage {
    /// The schema as TOML; only the first chunk carries it.
    pub schema_toml: String,
    pub snapshot_data: Vec<u8>,
    pub version: u64,
    pub total_chunks: usize,
    /// Position of the chunk, from 0.
    pub chunk_index: usize,
    pub checksum: Option<u32>,
}

/// The deltas that take a client from one version to another.
#[derive(Debug, Clone)]
pub struct IncrementalSyncMessage {
    pub from_version: u64,
    pub to_version: u64,
    pub deltas: Vec<Delta>,
    /// Whether the client was behind.
    pub catch_up: bool,
}

/// `data` cut into pieces of `m` bytes, the last one shorter when needed.
pub open spec fn chunks(data: Seq<u8>, m: nat) -> Seq<Seq<u8>>
    decreases data.len(),
{
    if data.len() == 0 || m == 0 {
        Seq::empty()
    } else if data.len() <= m {
        seq![data]
    } else {
        seq![data.take(m as int)] + chunks(data.skip(m as int), m)
    }
}

/// The pieces of `s` put back together.
pub open spec fn concat(s: Seq<Seq<u8>>) -> Seq<u8>
    decreases s.len(),
{
    if s.len() == 0 {
        Seq::empty()
    } else {
        s[0] + concat(s.drop_first())
    }
}

/// Cutting data into chunks loses and adds nothing, and every chunk holds
/// between 1 and `m` bytes.
pub proof fn law_chunks_concat(data: Seq<u8>, m: nat)
    requires
        m > 0,
    ensures
        concat(chunks(data, m)) == data,
        forall|i: int| 0 <= i < chunks(data, m).len() ==> 0 < #[trigger] chunks(data, m)[i].len() <= m,
    decreases data.len(),
{
    if data.len() == 0 {
    } else if data.len() <= m {
        let c = chunks(data, m);
        assert(c.drop_first() =~= Seq::<Seq<u8>>::empty());
        assert(concat(c.drop_first()) == Seq::<u8>::empty());
        assert(c[0] == data);
        assert(concat(c) =~= data);
    } else {
        law_chunks_concat(data.skip(m as int), m);
        let c = chunks(data, m);
        assert(c.drop_first() =~= chunks(data.skip(m as int), m));
        assert(concat(c) =~= data.take(m as int) + data.skip(m as int));
        assert(data.take(m as int) + data.skip(m as int) =~= data);
        assert forall|i: int| 0 <= i < c.len() implies 0 < #[trigger] c[i].len() <= m by {
            if i > 0 {
                assert(c[i] == chunks(data.skip(m as int), m)[i - 1]);
            }
        }
    }
}

/// The messages of a full synchronisation of `data` in chunks of `m`.
pub open spec fn sync_messages_ok(
    msgs: Seq<FullSyncMessage>,
    schema: Seq<char>,
    data: Seq<u8>,
    m: nat,
    version: u64,
) -> bool {
    let cs = chunks(data, m);
    &&& msgs.len() == cs.len()
    &&& forall|i: int|
        0 <= i < msgs.len() ==> {
            let msg = #[trigger] msgs[i];
            &&& msg.snapshot_data@ == cs[i]
            &&& msg.schema_toml@ == if i == 0 { schema } else { Seq::empty() }
            &&& msg.version == version
            &&& msg.total_chunks == cs.len()
            &&& msg.chunk_index == i
            &&& msg.checksum is None
        }
}

/// Cuts snapshots into chunks for full synchronisation.
pub struct FullSyncProtocol {
    max_chunk_size: usize,
    compression_level: i32,
}

impl FullSyncProtocol {
    /// The largest chunk, in bytes.
    pub closed spec fn chunk_size(&self) -> nat {
        self.max_chunk_size as nat
    }

    /// The compression level used for snapshots.
    pub closed spec fn level(&self) -> i32 {
        self.compression_level
    }

    /// Splits data into chunks of at most the chunk size.
    fn chunk_data(&self, data: Vec<u8>) -> (r: Vec<Vec<u8>>)
        requires
            self.chunk_size() > 0,
        ensures
            r@.len() == chunks(data@, self.chunk_size()).len(),
            forall|i: int| 0 <= i < r@.len() ==> #[trigger] r@[i]@ == chunks(data@, self.chunk_size())[i],
    {
        let m = self.max_chunk_size;
        let mut out: Vec<Vec<u8>> = Vec::new();
        let mut start: usize = 0;
        assert(data@.skip(0) =~= data@);
        while start < data.len()
            invariant
                m == self.max_chunk_size,
                m > 0,
                start <= data@.len(),
                out@.len() + chunks(data@.skip(start as int), m as nat).len() == chunks(data@, m as nat).len(),
                forall|i: int| 0 <= i < out@.len() ==> #[trigger] out@[i]@ == chunks(data@, m as nat)[i],
                forall|i: int|
                    0 <= i < chunks(data@.skip(start as int), m as nat).len() ==> #[trigger] chunks(
                        data@.skip(start as int),
                        m as nat,
                    )[i] == chunks(data@, m as nat)[out@.len() + i],
            decreases data@.len() - start,
        {
            let end = if data.len() - start > m {
                start + m
            } else {
                data.len()
            };
            let mut piece: Vec<u8> = Vec::new();
            let mut k = start;
            while k < end
                invariant
                    start <= k <= end <= data@.len(),
                    piece@ == data@.subrange(start as int, k as int),
                decreases end - k,
            {
                piece.push(data[k]);
                k += 1;
                assert(piece@ =~= data@.subrange(start as int, k as int));
            }
            let ghost rest = data@.skip(start as int);
            proof {
                assert(rest.len() > 0);
                if rest.len() <= m {
                    assert(piece@ =~= rest);
                    assert(data@.skip(end as int) =~= Seq::<u8>::empty());
                } else {
                    assert(piece@ =~= rest.take(m as int));
                    assert(data@.skip(end as int) =~= rest.skip(m as int));
                }
                assert(chunks(rest, m as nat)[0] == piece@);
            }
            out.push(piece);
            proof {
                assert forall|i: int|
                    0 <= i < chunks(data@.skip(end as int), m as nat).len() implies #[trigger] chunks(
                        data@.skip(end as int),
                        m as nat,
                    )[i] == chunks(data@, m as nat)[out@.len() + i] by {
                    assert(chunks(data@.skip(end as int), m as nat)[i] == chunks(rest, m as nat)[i + 1]);
                }
            }
            start = end;
        }
        out
    }

    /// The chunks of a full synchronisation: the snapshot cut into pieces of
    /// at most the chunk size, the schema on the first only.
    pub fn create_full_sync(&self, schema_toml: String, snapshot_data: Vec<u8>, version: u64) -> (r: Vec<
        FullSyncMessage,
    >)
        requires
            self.chunk_size() > 0,
        ensures
            sync_messages_ok(r@, schema_toml@, snapshot_data@, self.chunk_size(), version),
    {
        let ghost data = snapshot_data@;
        let chunks_v = self.chunk_data(snapshot_data);
        let total = chunks_v.len();
        let mut out: Vec<FullSyncMessage> = Vec::new();
        let mut rest = chunks_v;
        let mut index: usize = 0;
        let ghost all = rest@;
        while index < total
            invariant
                total == all.len(),
                index <= total,
                rest@ == all.skip(index as int),
                out@.len() == index,
                forall|i: int| 0 <= i < all.len() ==> #[trigger] all[i]@ == chunks(data, self.chunk_size())[i],
                all.len() == chunks(data, self.chunk_size()).len(),
                forall|i: int|
                    0 <= i < index ==> {
                        let msg = #[trigger] out@[i];
                        &&& msg.snapshot_data@ == chunks(data, self.chunk_size())[i]
                        &&& msg.schema_toml@ == if i == 0 { schema_toml@ } else { Seq::empty() }
                        &&& msg.version == version
                        &&& msg.total_chunks == all.len()
                        &&& msg.chunk_index == i
                        &&& msg.checksum is None
                    },
            decreases total - index,
        {
            let chunk = rest.remove(0);
            assert(rest@ =~= all.skip(index + 1));
            let schema = if index == 0 {
                crate::text::owned(schema_toml.as_str())
            } else {
                String::new()
            };
            proof {
                assert(chunk == all[index as int]);
            }
            out.push(
                FullSyncMessage {
                    schema_toml: schema,
                    snapshot_data: chunk,
                    version,
                    total_chunks: total,
                    chunk_index: index,
                    checksum: None,
                },
            );
            index += 1;
        }
        out
    }

    /// Records a client's acknowledgement of chunk `chunk_index` of
    /// `total_chunks`: the last one makes the client ready.
    pub fn handle_chunk_ack(&self, clients: &mut ClientManager, client_id: u128, chunk_index: usize, total_chunks: usize) -> (res:
        Result<()>)
        requires
            old(clients).wf(),
            total_chunks > 0,
        ensures
            res is Ok,
            final(clients).wf(),
            final(clients).limit() == old(clients).limit(),
            final(clients).view() == if chunk_index == total_chunks - 1 && old(clients).view().contains_key(client_id) {
                old(clients).view().insert(client_id, (ClientState::Ready, old(clients).view()[client_id].1))
            } else {
                old(clients).view()
            },
    {
        if chunk_index == total_chunks - 1 {
            clients.update_client_state(client_id, ClientState::Ready)?;
        }
        Ok(())
    }
}

impl Default for FullSyncProtocol {
    fn default() -> (p: Self)
        ensures
            p.chunk_size() == 1024 * 1024,
            p.level() == 3,
    {
        FullSyncProtocol { max_chunk_size: 1024 * 1024, compression_level: 3 }
    }
}

/// The recent deltas kept for clients that fall behind, oldest first, and
/// how catch-up requests are answered from them.
pub struct IncrementalSyncProtocol {
    max_deltas_per_batch: usize,
    delta_archive: VecDeque<Delta>,
    max_archive_size: usize,
}

/// The deltas of `s` whose version lies in `from..=to`, in order.
pub open spec fn in_range(s: Seq<Delta>, from: u64, to: u64) -> Seq<Delta>
    decreases s.len(),
{
    if s.len() == 0 {
        Seq::empty()
    } else {
        let last = s.last();
        let r = in_range(s.drop_last(), from, to);
        if from <= last.version <= to {
            r.push(last)
        } else {
            r
        }
    }
}

/// `m` is the message that tells a client to catch up to `to`: a delta for
/// that version with no operation and no time.
pub open spec fn is_catch_up(m: ClientMessage, to: u64) -> bool {
    m matches ClientMessage::Delta(d) && d.ops@.len() == 0 && d.version == to && d.timestamp == 0
}

impl Default for IncrementalSyncProtocol {
    fn default() -> (p: Self)
        ensures
            p.kept() == Seq::<Delta>::empty(),
            p.capacity() == 1000,
            p.batch_limit() == 100,
    {
        IncrementalSyncProtocol { max_deltas_per_batch: 100, delta_archive: VecDeque::new(), max_archive_size: 1000 }
    }
}

impl IncrementalSyncProtocol {
    /// The deltas kept, oldest first.
    pub closed spec fn kept(&self) -> Seq<Delta> {
        self.delta_archive@
    }

    /// How many deltas are kept at most.
    pub closed spec fn capacity(&self) -> nat {
        self.max_archive_size as nat
    }

    /// How many deltas one batch holds at most.
    pub closed spec fn batch_limit(&self) -> nat {
        self.max_deltas_per_batch as nat
    }

    /// Keeps `delta`, dropping the oldest when there are then more than the
    /// capacity.
    pub fn archive_delta(&mut self, delta: Delta)
        ensures
            final(self).capacity() == old(self).capacity(),
            final(self).batch_limit() == old(self).batch_limit(),
            final(self).kept() == if old(self).kept().len() + 1 > old(self).capacity() {
                old(self).kept().push(delta).drop_first()
            } else {
                old(self).kept().push(delta)
            },
    {
        self.delta_archive.push_back(delta);
        if self.delta_archive.len() > self.max_archive_size {
            let _ = self.delta_archive.pop_front();
        }
    }

    /// The kept deltas with versions in `from_version..=to_version`, as a
    /// catch-up message, or `None` when there is none.
    pub fn create_incremental_sync(&self, from_version: u64, to_version: u64) -> (r: Option<
        IncrementalSyncMessage,
    >)
        ensures
            in_range(self.kept(), from_version, to_version).len() == 0 <==> r is None,
            r matches Some(m) ==> {
                &&& m.from_version == from_version
                &&& m.to_version == to_version
                &&& m.catch_up
                &&& m.deltas@.len() == in_range(self.kept(), from_version, to_version).len()
                &&& forall|i: int|
                    0 <= i < m.deltas@.len() ==> same_delta(
                        #[trigger] m.deltas@[i],
                        in_range(self.kept(), from_version, to_version)[i],
                    )
            },
    {
        let mut deltas: Vec<Delta> = Vec::new();
        let mut i: usize = 0;
        while i < self.delta_archive.len()
            invariant
                i <= self.delta_archive@.len(),
                deltas@.len() == in_range(self.delta_archive@.take(i as int), from_version, to_version).len(),
                forall|k: int|
                    0 <= k < deltas@.len() ==> same_delta(
                        #[trigger] deltas@[k],
                        in_range(self.delta_archive@.take(i as int), from_version, to_version)[k],
                    ),
            decreases self.delta_archive@.len() - i,
        {
            let ghost s = self.delta_archive@.take(i + 1);
            assert(s.drop_last() =~= self.delta_archive@.take(i as int));
            let d = &self.delta_archive[i];
            if d.version >= from_version && d.version <= to_version {
                deltas.push(copy_delta(d));
            }
            i += 1;
        }
        assert(self.delta_archive@.take(self.delta_archive@.len() as int) =~= self.delta_archive@);
        if deltas.len() == 0 {
            return None;
        }
        Some(IncrementalSyncMessage { from_version, to_version, deltas, catch_up: true })
    }

    /// The message that a catch-up from `from_version` to `to_version` sends
    /// to a client: none when no kept delta lies in that range or the client
    /// is not connected.
    pub fn send_to_client(&self, clients: &ClientManager, client_id: u128, from_version: u64, to_version: u64) -> (r:
        Option<ClientMessage>)
        requires
            clients.wf(),
        ensures
            r is Some <==> (in_range(self.kept(), from_version, to_version).len() > 0 && clients.view().contains_key(
                client_id,
            )),
            r matches Some(m) ==> is_catch_up(m, to_version),
    {
        match self.create_incremental_sync(from_version, to_version) {
            Some(_) => match clients.get_client(client_id) {
                Some(_) => Some(ClientMessage::Delta(Delta { ops: Vec::new(), version: to_version, timestamp: 0 })),
                None => None,
            },
            None => None,
        }
    }

    /// Answers a client's request for the versions up to
    /// `requested_version`: an error for a client that is not connected, the
    /// catch-up message when the client is behind and deltas are kept for
    /// the versions it misses, and nothing otherwise.
    pub fn handle_client_request(&self, clients: &ClientManager, client_id: u128, requested_version: u64) -> (res:
        Result<Option<ClientMessage>>)
        requires
            clients.wf(),
        ensures
            !clients.view().contains_key(client_id) <==> (res matches Err(EcsDbError::ReplicationError(_))),
            clients.view().contains_key(client_id) ==> {
                let cv = clients.view()[client_id].1;
                &&& res is Ok
                &&& (res matches Ok(Some(_))) <==> (requested_version > cv && in_range(
                    self.kept(),
                    (cv + 1) as u64,
                    requested_version,
                ).len() > 0)
                &&& res matches Ok(Some(m)) ==> is_catch_up(m, requested_version)
            },
    {
        let client_version = match clients.get_client(client_id) {
            Some(c) => c.client_version,
            None => return Err(EcsDbError::ReplicationError(owned("Client not found"))),
        };
        if requested_version > client_version {
            Ok(self.send_to_client(clients, client_id, client_version + 1, requested_version))
        } else {
            Ok(None)
        }
    }
}

/// The intervals of the heartbeat of clients.
pub struct HeartbeatManager {
    interval_secs: u64,
    timeout_secs: u64,
}

impl HeartbeatManager {
    /// The interval between pings, in seconds.
    pub closed spec fn interval(&self) -> u64 {
        self.interval_secs
    }

    /// The silence after which a client is dropped, in seconds.
    pub closed spec fn timeout(&self) -> u64 {
        self.timeout_secs
    }

    pub fn new(interval_secs: u64, timeout_secs: u64) -> (h: Self)
        ensures
            h.interval() == interval_secs,
            h.timeout() == timeout_secs,
    {
        HeartbeatManager { interval_secs, timeout_secs }
    }
}

} // verus!
