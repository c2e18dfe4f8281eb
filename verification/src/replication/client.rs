//! Client sessions: their states, the messages sent to them, and the
//! bookkeeping of who is connected.
use crate::error::{EcsDbError, Result};
use crate::storage::delta::Delta;
use crate::text::owned;
use vstd::prelude::*;

verus! {

/// The state of a client session.
#[derive(Debug, Clone, Copy, PartialEq, Eq, Structural)]
pub enum ClientState {
    /// Connected, not yet authenticated.
    PendingAuth,
    /// Authenticated, waiting for the initial synchronisation.
    AwaitingSync,
    /// Synchronised, receiving incremental updates.
    Ready,
    /// Being synchronised.
    Syncing,
    /// Disconnected; the session may be resumed.
    Disconnected,
}

/// A message to a client.
#[derive(Debug, Clone)]
pub enum ClientMessage {
    /// A delta to apply.
    Delta(Delta),
    /// Snapshot data.
    Snapshot(Vec<u8>),
    /// A heartbeat.
    Ping,
    /// A request to disconnect.
    Disconnect,
}

/// What the server keeps of a client session.
#[derive(Debug, Clone)]
pub struct ClientRecord {
    pub id: u128,
    pub state: ClientState,
    /// The last database version the client acknowledged.
    pub client_version: u64,
    /// Tables the client follows; none means all.
    pub subscribed_tables: Vec<u16>,
}

/// No client id occurs twice.
pub open spec fn ids_unique(s: Seq<ClientRecord>) -> bool {
    forall|i: int, j: int| 0 <= i < j < s.len() ==> #[trigger] s[i].id != #[trigger] s[j].id
}

/// Each connected client's id with its state and version.
pub open spec fn sessions_view(s: Seq<ClientRecord>) -> Map<u128, (ClientState, u64)> {
    Map::new(
        |id: u128| exists|i: int| 0 <= i < s.len() && #[trigger] s[i].id == id,
        |id: u128| {
            let i = choose|i: int| 0 <= i < s.len() && #[trigger] s[i].id == id;
            (s[i].state, s[i].client_version)
        },
    )
}

/// The connected clients, at most a given number of them.
pub struct ClientManager {
    sessions: Vec<ClientRecord>,
    max_clients: usize,
}

impl ClientManager {
    /// Each connected client's id with its state and version.
    pub closed spec fn view(&self) -> Map<u128, (ClientState, u64)> {
        sessions_view(self.sessions@)
    }

    pub closed spec fn limit(&self) -> usize {
        self.max_clients
    }

    /// Client ids are unique, and no client follows particular tables
    /// (each follows them all).
    pub closed spec fn wf(&self) -> bool {
        &&& ids_unique(self.sessions@)
        &&& forall|i: int| 0 <= i < self.sessions@.len() ==> (#[trigger] self.sessions@[i]).subscribed_tables@.len() == 0
    }

    proof fn lemma_view_at(s: Seq<ClientRecord>, i: int)
        requires
            ids_unique(s),
            0 <= i < s.len(),
        ensures
            sessions_view(s).contains_key(s[i].id),
            sessions_view(s)[s[i].id] == (s[i].state, s[i].client_version),
    {
        let c = choose|k: int| 0 <= k < s.len() && #[trigger] s[k].id == s[i].id;
        assert(c == i);
    }

    proof fn lemma_len(s: Seq<ClientRecord>)
        requires
            ids_unique(s),
        ensures
            sessions_view(s).dom().finite(),
            sessions_view(s).dom().len() == s.len(),
        decreases s.len(),
    {
        if s.len() == 0 {
            assert(sessions_view(s).dom() =~= Set::<u128>::empty());
        } else {
            let t = s.drop_last();
            Self::lemma_len(t);
            assert forall|k: u128| #[trigger] sessions_view(s).dom().contains(k) == sessions_view(t).dom().insert(s.last().id).contains(k) by {
                if exists|j: int| 0 <= j < s.len() && #[trigger] s[j].id == k {
                    let j = choose|j: int| 0 <= j < s.len() && #[trigger] s[j].id == k;
                    if j < t.len() {
                        assert(t[j].id == k);
                    }
                }
                if exists|j: int| 0 <= j < t.len() && #[trigger] t[j].id == k {
                    let j = choose|j: int| 0 <= j < t.len() && #[trigger] t[j].id == k;
                    assert(s[j].id == k);
                }
                if k == s.last().id {
                    assert(s[s.len() - 1].id == k);
                }
            }
            assert(sessions_view(s).dom() =~= sessions_view(t).dom().insert(s.last().id));
            assert(!sessions_view(t).dom().contains(s.last().id)) by {
                if sessions_view(t).dom().contains(s.last().id) {
                    let k = choose|k: int| 0 <= k < t.len() && #[trigger] t[k].id == s.last().id;
                    assert(s[k].id == s[s.len() - 1].id);
                }
            }
        }
    }

    /// No client connected; at most `max_clients` at a time.
    pub fn new(max_clients: usize) -> (m: Self)
        ensures
            m.wf(),
            m.view() == Map::<u128, (ClientState, u64)>::empty(),
            m.limit() == max_clients,
    {
        let m = ClientManager { sessions: Vec::new(), max_clients };
        assert(sessions_view(m.sessions@) =~= Map::<u128, (ClientState, u64)>::empty());
        m
    }

    fn position(&self, id: u128) -> (r: Option<usize>)
        ensures
            match r {
                Some(i) => i < self.sessions@.len() && self.sessions@[i as int].id == id,
                None => forall|i: int| 0 <= i < self.sessions@.len() ==> self.sessions@[i].id != id,
            },
    {
        let mut i: usize = 0;
        while i < self.sessions.len()
            invariant
                i <= self.sessions@.len(),
                forall|k: int| 0 <= k < i ==> self.sessions@[k].id != id,
            decreases self.sessions@.len() - i,
        {
            if self.sessions[i].id == id {
                return Some(i);
            }
            i += 1;
        }
        None
    }

    /// The number of connected clients.
    pub fn connected_count(&self) -> (n: usize)
        requires
            self.wf(),
        ensures
            n == self.view().dom().len(),
    {
        proof { Self::lemma_len(self.sessions@); }
        self.sessions.len()
    }

    /// Connects a client with id `id` awaiting authentication at version 0,
    /// unless the limit is reached.
    pub fn add_client(&mut self, id: u128) -> (res: Result<u128>)
        requires
            old(self).wf(),
        ensures
            final(self).wf(),
            final(self).limit() == old(self).limit(),
            old(self).view().dom().len() >= old(self).limit() ==> (res matches Err(EcsDbError::ReplicationError(_))
                && final(self).view() == old(self).view()),
            old(self).view().dom().len() < old(self).limit() ==> (res == Ok::<u128, EcsDbError>(id) && final(self).view()
                == old(self).view().insert(id, (ClientState::PendingAuth, 0u64))),
    {
        proof { Self::lemma_len(self.sessions@); }
        if self.sessions.len() >= self.max_clients {
            return Err(EcsDbError::ReplicationError(owned("Maximum client count reached")));
        }
        let rec = ClientRecord { id, state: ClientState::PendingAuth, client_version: 0, subscribed_tables: Vec::new() };
        let ghost s0 = self.sessions@;
        match self.position(id) {
            Some(i) => {
                self.sessions.set(i, rec);
                proof {
                    let s1 = self.sessions@;
                    assert forall|a: int, b: int| 0 <= a < b < s1.len() implies #[trigger] s1[a].id != #[trigger] s1[b].id by {
                        assert(s1[a].id == s0[a].id && s1[b].id == s0[b].id);
                    }
                    assert forall|k: u128| #[trigger] sessions_view(s1).contains_key(k) == sessions_view(s0).contains_key(k) by {
                        if exists|j: int| 0 <= j < s0.len() && #[trigger] s0[j].id == k {
                            let j = choose|j: int| 0 <= j < s0.len() && #[trigger] s0[j].id == k;
                            assert(s1[j].id == k);
                        }
                        if exists|j: int| 0 <= j < s1.len() && #[trigger] s1[j].id == k {
                            let j = choose|j: int| 0 <= j < s1.len() && #[trigger] s1[j].id == k;
                            assert(s0[j].id == k);
                        }
                    }
                    assert forall|k: u128| sessions_view(s1).contains_key(k) implies #[trigger] sessions_view(s1)[k] == sessions_view(s0).insert(id, (ClientState::PendingAuth, 0u64))[k] by {
                        let j = choose|j: int| 0 <= j < s1.len() && #[trigger] s1[j].id == k;
                        Self::lemma_view_at(s1, j);
                        if j != i {
                            Self::lemma_view_at(s0, j);
                        }
                    }
                    Self::lemma_view_at(s0, i as int);
                    assert(sessions_view(s1) =~= sessions_view(s0).insert(id, (ClientState::PendingAuth, 0u64)));
                }
            },
            None => {
                self.sessions.push(rec);
                proof {
                    let s1 = self.sessions@;
                    assert forall|k: u128| #[trigger] sessions_view(s1).contains_key(k) == sessions_view(s0).insert(id, (ClientState::PendingAuth, 0u64)).contains_key(k) by {
                        if exists|j: int| 0 <= j < s0.len() && #[trigger] s0[j].id == k {
                            let j = choose|j: int| 0 <= j < s0.len() && #[trigger] s0[j].id == k;
                            assert(s1[j].id == k);
                        }
                        if k == id {
                            assert(s1[s0.len() as int].id == k);
                        }
                    }
                    assert forall|k: u128| sessions_view(s1).contains_key(k) implies #[trigger] sessions_view(s1)[k] == sessions_view(s0).insert(id, (ClientState::PendingAuth, 0u64))[k] by {
                        let j = choose|j: int| 0 <= j < s1.len() && #[trigger] s1[j].id == k;
                        Self::lemma_view_at(s1, j);
                        if j < s0.len() {
                            Self::lemma_view_at(s0, j);
                        }
                    }
                    assert(sessions_view(s1) =~= sessions_view(s0).insert(id, (ClientState::PendingAuth, 0u64)));
                }
            },
        }
        Ok(id)
    }

    /// Disconnects a client, handing back its record.
    pub fn remove_client(&mut self, id: u128) -> (r: Option<ClientRecord>)
        requires
            old(self).wf(),
        ensures
            final(self).wf(),
            final(self).limit() == old(self).limit(),
            final(self).view() == old(self).view().remove(id),
            r is Some <==> old(self).view().contains_key(id),
            r matches Some(c) ==> c.id == id && (c.state, c.client_version) == old(self).view()[id]
                && c.subscribed_tables@.len() == 0,
    {
        let ghost s0 = self.sessions@;
        match self.position(id) {
            Some(i) => {
                proof { Self::lemma_view_at(s0, i as int); }
                let rec = self.sessions.remove(i);
                proof {
                    let s1 = self.sessions@;
                    assert forall|a: int, b: int| 0 <= a < b < s1.len() implies #[trigger] s1[a].id != #[trigger] s1[b].id by {
                        let a0 = if a < i { a } else { a + 1 };
                        let b0 = if b < i { b } else { b + 1 };
                        assert(s1[a] == s0[a0] && s1[b] == s0[b0]);
                    }
                    assert forall|k: u128| #[trigger] sessions_view(s1).contains_key(k) == sessions_view(s0).remove(id).contains_key(k) by {
                        if exists|j: int| 0 <= j < s0.len() && #[trigger] s0[j].id == k {
                            let j = choose|j: int| 0 <= j < s0.len() && #[trigger] s0[j].id == k;
                            if j < i {
                                assert(s1[j].id == k);
                            } else if j > i {
                                assert(s1[j - 1].id == k);
                            }
                        }
                        if exists|j: int| 0 <= j < s1.len() && #[trigger] s1[j].id == k {
                            let j = choose|j: int| 0 <= j < s1.len() && #[trigger] s1[j].id == k;
                            if j < i {
                                assert(s0[j].id == k);
                                assert(s0[j].id != s0[i as int].id);
                            } else {
                                assert(s0[j + 1].id == k);
                                assert(s0[i as int].id != s0[j + 1].id);
                            }
                        }
                    }
                    assert forall|k: u128| sessions_view(s1).contains_key(k) implies #[trigger] sessions_view(s1)[k] == sessions_view(s0).remove(id)[k] by {
                        let j = choose|j: int| 0 <= j < s1.len() && #[trigger] s1[j].id == k;
                        Self::lemma_view_at(s1, j);
                        if j < i {
                            assert(s1[j] == s0[j]);
                            Self::lemma_view_at(s0, j);
                        } else {
                            assert(s1[j] == s0[j + 1]);
                            Self::lemma_view_at(s0, j + 1);
                        }
                    }
                    assert(sessions_view(s1) =~= sessions_view(s0).remove(id));
                }
                Some(rec)
            },
            None => {
                proof {
                    assert(sessions_view(s0).remove(id) =~= sessions_view(s0));
                }
                None
            },
        }
    }

    /// The record of a connected client.
    pub fn get_client(&self, id: u128) -> (r: Option<&ClientRecord>)
        requires
            self.wf(),
        ensures
            r is Some <==> self.view().contains_key(id),
            r matches Some(c) ==> c.id == id && (c.state, c.client_version) == self.view()[id] && c.subscribed_tables@.len() == 0,
    {
        match self.position(id) {
            Some(i) => {
                proof { Self::lemma_view_at(self.sessions@, i as int); }
                Some(&self.sessions[i])
            },
            None => None,
        }
    }

    /// The clients a message for clients in `state` goes to.
    pub fn recipients_in_state(&self, state: ClientState) -> (r: Vec<u128>)
        requires
            self.wf(),
        ensures
            forall|id: u128| r@.contains(id) <==> self.view().contains_key(id) && self.view()[id].0 == state,
    {
        let mut r: Vec<u128> = Vec::new();
        let ghost mut pos: Seq<int> = Seq::empty();
        let mut i: usize = 0;
        while i < self.sessions.len()
            invariant
                self.wf(),
                i <= self.sessions@.len(),
                pos.len() == r@.len(),
                forall|k: int| 0 <= k < r@.len() ==> 0 <= #[trigger] pos[k] < i && self.sessions@[pos[k]].id == r@[k]
                    && self.sessions@[pos[k]].state == state,
                forall|j: int| 0 <= j < i && #[trigger] self.sessions@[j].state == state ==> r@.contains(self.sessions@[j].id),
            decreases self.sessions@.len() - i,
        {
            let ghost r0 = r@;
            if self.sessions[i].state == state {
                r.push(self.sessions[i].id);
                proof {
                    pos = pos.push(i as int);
                    assert forall|j: int| 0 <= j < i + 1 && #[trigger] self.sessions@[j].state == state implies r@.contains(self.sessions@[j].id) by {
                        if j < i {
                            let k = choose|k: int| 0 <= k < r0.len() && r0[k] == self.sessions@[j].id;
                            assert(r@[k] == r0[k]);
                        } else {
                            assert(r@[r@.len() - 1] == self.sessions@[j].id);
                        }
                    }
                }
            }
            i += 1;
        }
        proof {
            assert forall|id: u128| r@.contains(id) <==> self.view().contains_key(id) && self.view()[id].0 == state by {
                if r@.contains(id) {
                    let k = choose|k: int| 0 <= k < r@.len() && r@[k] == id;
                    let j = pos[k];
                    Self::lemma_view_at(self.sessions@, j);
                }
                if self.view().contains_key(id) && self.view()[id].0 == state {
                    let j = choose|j: int| 0 <= j < self.sessions@.len() && #[trigger] self.sessions@[j].id == id;
                    Self::lemma_view_at(self.sessions@, j);
                }
            }
        }
        r
    }

    /// Every connected client.
    pub fn recipients(&self) -> (r: Vec<u128>)
        requires
            self.wf(),
        ensures
            forall|id: u128| r@.contains(id) <==> self.view().contains_key(id),
    {
        let mut r: Vec<u128> = Vec::new();
        let mut i: usize = 0;
        while i < self.sessions.len()
            invariant
                i <= self.sessions@.len(),
                r@ == Seq::new(i as nat, |k: int| self.sessions@[k].id),
            decreases self.sessions@.len() - i,
        {
            r.push(self.sessions[i].id);
            i += 1;
            assert(r@ =~= Seq::new(i as nat, |k: int| self.sessions@[k].id));
        }
        proof {
            assert forall|id: u128| r@.contains(id) <==> self.view().contains_key(id) by {
                if r@.contains(id) {
                    let k = choose|k: int| 0 <= k < r@.len() && r@[k] == id;
                    assert(self.sessions@[k].id == id);
                }
                if self.view().contains_key(id) {
                    let j = choose|j: int| 0 <= j < self.sessions@.len() && #[trigger] self.sessions@[j].id == id;
                    assert(r@[j] == id);
                }
            }
        }
        r
    }

    fn set_record(&mut self, i: usize, state: ClientState, version: u64)
        requires
            old(self).wf(),
            i < old(self).sessions@.len(),
        ensures
            final(self).wf(),
            final(self).limit() == old(self).limit(),
            final(self).view() == old(self).view().insert(old(self).sessions@[i as int].id, (state, version)),
    {
        let ghost s0 = self.sessions@;
        let old_rec = self.sessions.remove(i);
        let rec = ClientRecord { id: old_rec.id, state, client_version: version, subscribed_tables: old_rec.subscribed_tables };
        self.sessions.insert(i, rec);
        proof {
            let s1 = self.sessions@;
            assert forall|k: int| 0 <= k < s1.len() implies #[trigger] s1[k].id == s0[k].id by {
                if k != i {
                    assert(s1[k] == s0[k]);
                }
            }
            assert forall|a: int, b: int| 0 <= a < b < s1.len() implies #[trigger] s1[a].id != #[trigger] s1[b].id by {
                assert(s1[a].id == s0[a].id && s1[b].id == s0[b].id);
            }
            let id = s0[i as int].id;
            assert forall|k: u128| #[trigger] sessions_view(s1).contains_key(k) == sessions_view(s0).contains_key(k) by {
                if exists|j: int| 0 <= j < s0.len() && #[trigger] s0[j].id == k {
                    let j = choose|j: int| 0 <= j < s0.len() && #[trigger] s0[j].id == k;
                    assert(s1[j].id == k);
                }
                if exists|j: int| 0 <= j < s1.len() && #[trigger] s1[j].id == k {
                    let j = choose|j: int| 0 <= j < s1.len() && #[trigger] s1[j].id == k;
                    assert(s0[j].id == k);
                }
            }
            Self::lemma_view_at(s0, i as int);
            assert forall|k: u128| sessions_view(s1).contains_key(k) implies #[trigger] sessions_view(s1)[k] == sessions_view(s0).insert(id, (state, version))[k] by {
                let j = choose|j: int| 0 <= j < s1.len() && #[trigger] s1[j].id == k;
                Self::lemma_view_at(s1, j);
                if j != i {
                    assert(s1[j] == s0[j]);
                    Self::lemma_view_at(s0, j);
                }
            }
            assert(sessions_view(s1) =~= sessions_view(s0).insert(id, (state, version)));
        }
    }

    /// Records the version a client acknowledged; nothing happens for a client
    /// that is not connected.
    pub fn update_client_version(&mut self, id: u128, version: u64) -> (res: Result<()>)
        requires
            old(self).wf(),
        ensures
            res is Ok,
            final(self).wf(),
            final(self).limit() == old(self).limit(),
            old(self).view().contains_key(id) ==> final(self).view() == old(self).view().insert(id, (old(self).view()[id].0, version)),
            !old(self).view().contains_key(id) ==> final(self).view() == old(self).view(),
    {
        match self.position(id) {
            Some(i) => {
                proof { Self::lemma_view_at(self.sessions@, i as int); }
                let state = self.sessions[i].state;
                self.set_record(i, state, version);
            },
            None => {},
        }
        Ok(())
    }

    /// Moves a client to another state; nothing happens for a client that is
    /// not connected.
    pub fn update_client_state(&mut self, id: u128, state: ClientState) -> (res: Result<()>)
        requires
            old(self).wf(),
        ensures
            res is Ok,
            final(self).wf(),
            final(self).limit() == old(self).limit(),
            old(self).view().contains_key(id) ==> final(self).view() == old(self).view().insert(id, (state, old(self).view()[id].1)),
            !old(self).view().contains_key(id) ==> final(self).view() == old(self).view(),
    {
        match self.position(id) {
            Some(i) => {
                proof { Self::lemma_view_at(self.sessions@, i as int); }
                let version = self.sessions[i].client_version;
                self.set_record(i, state, version);
            },
            None => {},
        }
        Ok(())
    }
}

} // verus!
