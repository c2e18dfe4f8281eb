//! Conflict detection and resolution between the server's state and a
//! client's delta.
use crate::codec::{bytes_equal, owned_bytes};
use crate::error::{EcsDbError, Result};
use crate::storage::buffer::copy_bytes;
use crate::storage::delta::{ops_view, ComponentMap, Delta, DeltaOp, OpView};
use crate::text::owned;
use vstd::prelude::*;

verus! {

/// How a conflict is resolved.
#[derive(Debug, Clone, Copy, PartialEq, Eq, Structural)]
pub enum ConflictStrategy {
    /// The server's value is kept and the client's change rejected.
    ServerAuthoritative,
    /// The client's change wins.
    LastWriteWins,
    /// A merge function supplied by the application decides.
    CustomMerge,
}

/// A client change that disagrees with the server's current value.
#[derive(Debug, Clone)]
pub struct Conflict {
    pub table_id: u16,
    pub entity_id: u64,
    /// `None` for a whole-record insert or delete.
    pub field_offset: Option<usize>,
    pub server_value: Vec<u8>,
    pub client_value: Vec<u8>,
    pub server_version: u64,
    pub client_version: u64,
    pub timestamp: u64,
}

/// The most recent conflicts, at most a fixed number of them.
pub struct ConflictLog {
    conflicts: Vec<Conflict>,
    max_entries: usize,
}

/// A conflict as the log records it, its byte strings as sequences.
pub struct ConflictView {
    pub table_id: u16,
    pub entity_id: u64,
    pub field_offset: Option<usize>,
    pub server_value: Seq<u8>,
    pub client_value: Seq<u8>,
    pub server_version: u64,
    pub client_version: u64,
    pub timestamp: u64,
}

/// What conflict `c` records.
pub open spec fn conflict_view(c: Conflict) -> ConflictView {
    ConflictView {
        table_id: c.table_id,
        entity_id: c.entity_id,
        field_offset: c.field_offset,
        server_value: c.server_value@,
        client_value: c.client_value@,
        server_version: c.server_version,
        client_version: c.client_version,
        timestamp: c.timestamp,
    }
}

/// What the conflicts of `s` record, in order.
pub open spec fn views(s: Seq<Conflict>) -> Seq<ConflictView> {
    s.map_values(|c: Conflict| conflict_view(c))
}

/// The log `log` after recording `c` with room for `max` entries: the oldest
/// entry leaves when the log is full.
pub open spec fn log_push<T>(log: Seq<T>, max: nat, c: T) -> Seq<T> {
    if log.len() >= max {
        log.drop_first().push(c)
    } else {
        log.push(c)
    }
}

impl ConflictLog {
    /// The recorded conflicts, oldest first.
    pub closed spec fn entries(&self) -> Seq<Conflict> {
        self.conflicts@
    }

    /// How many conflicts the log keeps.
    pub closed spec fn capacity(&self) -> nat {
        self.max_entries as nat
    }

    /// An empty log that keeps up to `max_entries` conflicts.
    pub fn new(max_entries: usize) -> (l: Self)
        ensures
            l.entries() == Seq::<Conflict>::empty(),
            l.capacity() == max_entries,
    {
        ConflictLog { conflicts: Vec::new(), max_entries }
    }

    /// Records a conflict, dropping the oldest one when the log is full.
    pub fn record(&mut self, conflict: Conflict)
        requires
            old(self).capacity() > 0 || old(self).entries().len() > 0,
        ensures
            final(self).entries() == log_push(old(self).entries(), old(self).capacity(), conflict),
            views(final(self).entries()) == log_push(views(old(self).entries()), old(self).capacity(), conflict_view(conflict)),
            final(self).capacity() == old(self).capacity(),
    {
        if self.conflicts.len() >= self.max_entries {
            self.conflicts.remove(0);
        }
        self.conflicts.push(conflict);
        assert(self.conflicts@ =~= log_push(old(self).entries(), old(self).capacity(), conflict));
        assert(views(self.conflicts@) =~= log_push(views(old(self).entries()), old(self).capacity(), conflict_view(conflict)));
    }

    /// The recorded conflicts, oldest first.
    pub fn conflicts(&self) -> (r: &[Conflict])
        ensures
            r@ == self.entries(),
    {
        self.conflicts.as_slice()
    }

    /// Drops every recorded conflict.
    pub fn clear(&mut self)
        ensures
            final(self).entries() == Seq::<Conflict>::empty(),
            final(self).capacity() == old(self).capacity(),
    {
        self.conflicts.clear();
    }
}

/// A merge function supplied by the application: it gets the conflict and
/// returns the bytes to keep, or an error that rejects the client's delta.
pub trait ConflictMerge: Send + Sync {
    /// What merging conflict `c` gives: the bytes to keep, or the error that
    /// rejects the delta. A verified merge function states it; for one that
    /// does not, it is left unknown.
    closed spec fn merge_outcome(&self, c: ConflictView) -> core::result::Result<Seq<u8>, EcsDbError> {
        arbitrary()
    }

    fn merge(&self, conflict: Conflict) -> (r: Result<Vec<u8>>)
        ensures
            match self.merge_outcome(conflict_view(conflict)) {
                Ok(v) => r matches Ok(b) && b@ == v,
                Err(e) => r == Err::<Vec<u8>, EcsDbError>(e),
            },
    ;
}

/// Whether a client change disagrees with the server's current values: an
/// insert over an existing component, or an update or delete whose old value
/// is not the server's.
pub open spec fn conflicts_with(op: OpView, server: ComponentMap) -> bool {
    match op {
        OpView::Insert { table_id, entity_id, .. } => server.value(table_id, entity_id) is Some,
        OpView::Update { table_id, entity_id, old_data, .. } => server.value(
            table_id,
            entity_id,
        ) matches Some(cur) && cur != old_data,
        OpView::Delete { table_id, entity_id, old_data } => server.value(
            table_id,
            entity_id,
        ) matches Some(cur) && cur != old_data,
        _ => false,
    }
}

/// The conflict that change `op` meets against the server's values, as the
/// log records it, if it meets one. `sv` is the server's version, `cv` and
/// `ts` the client delta's version and timestamp.
pub open spec fn conflict_for(op: OpView, server: ComponentMap, sv: u64, cv: u64, ts: u64) -> Option<ConflictView> {
    if !conflicts_with(op, server) {
        None
    } else {
        match op {
            OpView::Insert { table_id, entity_id, data } => Some(
                ConflictView {
                    table_id,
                    entity_id,
                    field_offset: None,
                    server_value: server.value(table_id, entity_id).unwrap(),
                    client_value: data,
                    server_version: sv,
                    client_version: cv,
                    timestamp: ts,
                },
            ),
            OpView::Update { table_id, entity_id, field_offset, new_data, .. } => Some(
                ConflictView {
                    table_id,
                    entity_id,
                    field_offset: Some(field_offset),
                    server_value: server.value(table_id, entity_id).unwrap(),
                    client_value: new_data,
                    server_version: sv,
                    client_version: cv,
                    timestamp: ts,
                },
            ),
            OpView::Delete { table_id, entity_id, old_data } => Some(
                ConflictView {
                    table_id,
                    entity_id,
                    field_offset: None,
                    server_value: server.value(table_id, entity_id).unwrap(),
                    client_value: old_data,
                    server_version: sv,
                    client_version: cv,
                    timestamp: ts,
                },
            ),
            _ => None,
        }
    }
}

/// The conflict log `log`, with room for `max` entries, after the conflicts
/// that the changes `ops` meet, in order.
pub open spec fn log_after(
    log: Seq<ConflictView>,
    max: nat,
    ops: Seq<OpView>,
    server: ComponentMap,
    sv: u64,
    cv: u64,
    ts: u64,
) -> Seq<ConflictView>
    decreases ops.len(),
{
    if ops.len() == 0 {
        log
    } else {
        let l = log_after(log, max, ops.drop_last(), server, sv, cv, ts);
        match conflict_for(ops.last(), server, sv, cv, ts) {
            Some(c) => log_push(l, max, c),
            None => l,
        }
    }
}

/// The merge type of a resolver that has no merge function. Were it called,
/// it would keep the server's value.
pub struct NoMerge;

impl ConflictMerge for NoMerge {
    open spec fn merge_outcome(&self, c: ConflictView) -> core::result::Result<Seq<u8>, EcsDbError> {
        Ok(c.server_value)
    }

    fn merge(&self, conflict: Conflict) -> (r: Result<Vec<u8>>) {
        Ok(conflict.server_value)
    }
}

/// Resolves the conflicts between the server's state and client deltas,
/// with a merge function of type `M` for the custom strategy.
pub struct ConflictResolver<M: ConflictMerge> {
    strategy: ConflictStrategy,
    log: ConflictLog,
    custom_merge: Option<M>,
}

/// What resolving one change gives under the decisions of `r`: the changes
/// it becomes, or the error of its decision (`None` when the custom
/// strategy has no merge function). A change without conflict stays as it
/// is. A conflicting insert or update carries the decided bytes, an update
/// with the server's bytes as its old data. A conflicting delete is dropped
/// when the server's value is kept, and otherwise deletes the server's
/// value.
pub open spec fn resolve_step<M: ConflictMerge>(
    r: ConflictResolver<M>,
    op: OpView,
    server: ComponentMap,
    sv: u64,
    cv: u64,
    ts: u64,
    server_ts: u64,
) -> core::result::Result<Seq<OpView>, Option<EcsDbError>> {
    match conflict_for(op, server, sv, cv, ts) {
        None => Ok(seq![op]),
        Some(c) => match r.decision(c, server_ts) {
            Err(e) => Err(e),
            Ok(v) => Ok(
                match op {
                    OpView::Insert { table_id, entity_id, .. } => seq![OpView::Insert { table_id, entity_id, data: v }],
                    OpView::Update { table_id, entity_id, field_offset, .. } => seq![
                        OpView::Update { table_id, entity_id, field_offset, old_data: c.server_value, new_data: v },
                    ],
                    OpView::Delete { table_id, entity_id, .. } => if r.keeps_server(c, server_ts) {
                        Seq::empty()
                    } else {
                        seq![OpView::Delete { table_id, entity_id, old_data: c.server_value }]
                    },
                    _ => seq![op],
                },
            ),
        },
    }
}

/// What resolving the changes `ops` in order gives: the resolved changes,
/// or the error of the first decision that fails.
pub open spec fn resolve_outcome<M: ConflictMerge>(
    r: ConflictResolver<M>,
    ops: Seq<OpView>,
    server: ComponentMap,
    sv: u64,
    cv: u64,
    ts: u64,
    server_ts: u64,
) -> core::result::Result<Seq<OpView>, Option<EcsDbError>>
    decreases ops.len(),
{
    if ops.len() == 0 {
        Ok(Seq::empty())
    } else {
        match resolve_outcome(r, ops.drop_last(), server, sv, cv, ts, server_ts) {
            Err(e) => Err(e),
            Ok(prev) => match resolve_step(r, ops.last(), server, sv, cv, ts, server_ts) {
                Err(e) => Err(e),
                Ok(s) => Ok(prev + s),
            },
        }
    }
}

impl ConflictResolver<NoMerge> {
    /// A resolver with `strategy`, a log of 1000 conflicts and no merge
    /// function.
    pub fn new(strategy: ConflictStrategy) -> (r: Self)
        ensures
            r.wf(),
            r.strategy() == strategy,
            !r.has_merge(),
            r.conflict_log().entries() == Seq::<Conflict>::empty(),
            r.conflict_log().capacity() == 1000,
    {
        ConflictResolver { strategy, log: ConflictLog::new(1000), custom_merge: None }
    }
}

impl<M: ConflictMerge> ConflictResolver<M> {
    /// The strategy in force.
    pub closed spec fn strategy(&self) -> ConflictStrategy {
        self.strategy
    }

    /// Whether a merge function is set.
    pub closed spec fn has_merge(&self) -> bool {
        self.custom_merge is Some
    }

    /// What merging `c` gives under the merge function, when one is set.
    pub closed spec fn merged(&self, c: ConflictView) -> core::result::Result<Seq<u8>, EcsDbError> {
        self.custom_merge.unwrap().merge_outcome(c)
    }

    /// Whether the server's value is kept for conflict `c`: always under
    /// the server-authoritative strategy, and under last-write-wins when the
    /// server's timestamp is the later one.
    pub open spec fn keeps_server(&self, c: ConflictView, server_ts: u64) -> bool {
        ||| self.strategy() == ConflictStrategy::ServerAuthoritative
        ||| self.strategy() == ConflictStrategy::LastWriteWins && c.timestamp < server_ts
    }

    /// The decision on conflict `c` when the server's timestamp is
    /// `server_ts`: the server's bytes when they are kept, the client's
    /// under last-write-wins when its change is not older, the merge
    /// function's outcome under the custom strategy (`Err(None)` when none
    /// is set).
    pub open spec fn decision(&self, c: ConflictView, server_ts: u64) -> core::result::Result<Seq<u8>, Option<EcsDbError>> {
        if self.keeps_server(c, server_ts) {
            Ok(c.server_value)
        } else if self.strategy() == ConflictStrategy::LastWriteWins {
            Ok(c.client_value)
        } else if !self.has_merge() {
            Err(None)
        } else {
            match self.merged(c) {
                Ok(v) => Ok(v),
                Err(e) => Err(Some(e)),
            }
        }
    }

    /// The log of the conflicts met.
    pub closed spec fn conflict_log(&self) -> ConflictLog {
        self.log
    }

    pub closed spec fn wf(&self) -> bool {
        self.log.capacity() > 0
    }

    /// `self` decides every conflict as `other` does.
    pub open spec fn same_decisions(&self, other: &Self) -> bool {
        &&& self.strategy() == other.strategy()
        &&& self.has_merge() == other.has_merge()
        &&& forall|c: ConflictView| #[trigger] self.merged(c) == other.merged(c)
    }

    /// This resolver with `merge` as the merge function of the custom
    /// strategy, in place of any earlier one: every conflict that the merge
    /// function decides is decided as `merge` decides it.
    pub fn set_custom_merge<F: ConflictMerge>(self, merge: F) -> (r: ConflictResolver<F>)
        ensures
            r.has_merge(),
            forall|c: ConflictView| #[trigger] r.merged(c) == merge.merge_outcome(c),
            r.strategy() == self.strategy(),
            r.conflict_log() == self.conflict_log(),
            r.wf() == self.wf(),
    {
        ConflictResolver { strategy: self.strategy, log: self.log, custom_merge: Some(merge) }
    }

    /// The log of the conflicts met.
    pub fn log(&self) -> (l: &ConflictLog)
        ensures
            *l == self.conflict_log(),
    {
        &self.log
    }

    /// Records a conflict and decides the value to keep.
    fn resolve_conflict(&mut self, conflict: Conflict, server_ts: u64) -> (res: Result<Vec<u8>>)
        requires
            old(self).wf(),
        ensures
            final(self).wf(),
            final(self).same_decisions(old(self)),
            final(self).conflict_log().capacity() == old(self).conflict_log().capacity(),
            views(final(self).conflict_log().entries()) == log_push(
                views(old(self).conflict_log().entries()),
                old(self).conflict_log().capacity(),
                conflict_view(conflict),
            ),
            match old(self).decision(conflict_view(conflict), server_ts) {
                Ok(v) => res matches Ok(b) && b@ == v,
                Err(Some(e)) => res == Err::<Vec<u8>, EcsDbError>(e),
                Err(None) => res matches Err(EcsDbError::ReplicationError(m)) && m@ == "Custom merge function not set"@,
            },
    {
        let logged = Conflict {
            table_id: conflict.table_id,
            entity_id: conflict.entity_id,
            field_offset: conflict.field_offset,
            server_value: copy_bytes(&conflict.server_value),
            client_value: copy_bytes(&conflict.client_value),
            server_version: conflict.server_version,
            client_version: conflict.client_version,
            timestamp: conflict.timestamp,
        };
        self.log.record(logged);
        match self.strategy {
            ConflictStrategy::ServerAuthoritative => Ok(conflict.server_value),
            ConflictStrategy::LastWriteWins => {
                if conflict.timestamp < server_ts {
                    Ok(conflict.server_value)
                } else {
                    Ok(conflict.client_value)
                }
            },
            ConflictStrategy::CustomMerge => match &self.custom_merge {
                Some(merge) => merge.merge(conflict),
                None => Err(EcsDbError::ReplicationError(owned("Custom merge function not set"))),
            },
        }
    }

    /// Resolves a client delta against the server's current values, change
    /// by change in order. A conflicting change is logged and decided: the
    /// server's value is kept under the server-authoritative strategy, the
    /// later change wins under last-write-wins (the client's on equal
    /// timestamps), and the merge function decides under the custom
    /// strategy, whose first error rejects the whole delta (as does a
    /// conflict when no merge function is set). The result carries version
    /// `server_version + 1` and the later of the two timestamps.
    pub fn resolve(
        &mut self,
        server_version: u64,
        server_timestamp: u64,
        client_delta: Delta,
        server_current: &ComponentMap,
    ) -> (res: Result<Delta>)
        requires
            old(self).wf(),
            server_version < u64::MAX,
        ensures
            final(self).wf(),
            final(self).same_decisions(old(self)),
            final(self).conflict_log().capacity() == old(self).conflict_log().capacity(),
            ({
                let out = resolve_outcome(
                    *old(self),
                    ops_view(client_delta.ops@),
                    *server_current,
                    server_version,
                    client_delta.version,
                    client_delta.timestamp,
                    server_timestamp,
                );
                &&& out matches Ok(rops) ==> (res matches Ok(d) && {
                    &&& ops_view(d.ops@) == rops
                    &&& d.version == server_version + 1
                    &&& d.timestamp == if server_timestamp >= client_delta.timestamp {
                        server_timestamp
                    } else {
                        client_delta.timestamp
                    }
                })
                &&& out matches Err(Some(e)) ==> res == Err::<Delta, EcsDbError>(e)
                &&& out matches Err(None) ==> (res matches Err(EcsDbError::ReplicationError(m)) && m@
                    == "Custom merge function not set"@)
            }),
            res is Ok ==> views(final(self).conflict_log().entries()) == log_after(
                views(old(self).conflict_log().entries()),
                old(self).conflict_log().capacity(),
                ops_view(client_delta.ops@),
                *server_current,
                server_version,
                client_delta.version,
                client_delta.timestamp,
            ),
            res is Err ==> exists|n: int|
                0 < n <= client_delta.ops@.len() && conflicts_with(ops_view(client_delta.ops@)[n - 1], *server_current)
                    && views(final(self).conflict_log().entries()) == #[trigger] log_after(
                    views(old(self).conflict_log().entries()),
                    old(self).conflict_log().capacity(),
                    ops_view(client_delta.ops@).take(n),
                    *server_current,
                    server_version,
                    client_delta.version,
                    client_delta.timestamp,
                ),
    {
        let ghost r0 = *self;
        let ghost cops = ops_view(client_delta.ops@);
        let client_version = client_delta.version;
        let client_timestamp = client_delta.timestamp;
        let ops = client_delta.ops;
        let mut resolved: Vec<DeltaOp> = Vec::new();
        let mut i: usize = 0;
        assert(cops.take(0) =~= Seq::<OpView>::empty());
        assert(ops_view(resolved@) =~= Seq::<OpView>::empty());
        while i < ops.len()
            invariant
                self.wf(),
                self.same_decisions(&r0),
                r0 == *old(self),
                cops == ops_view(ops@),
                cops == ops_view(client_delta.ops@),
                i <= ops@.len(),
                resolve_outcome(r0, cops.take(i as int), *server_current, server_version, client_version, client_timestamp, server_timestamp)
                    == Ok::<Seq<OpView>, Option<EcsDbError>>(ops_view(resolved@)),
                client_version == client_delta.version,
                client_timestamp == client_delta.timestamp,
                self.conflict_log().capacity() == old(self).conflict_log().capacity(),
                views(self.conflict_log().entries()) == log_after(
                    views(old(self).conflict_log().entries()),
                    old(self).conflict_log().capacity(),
                    cops.take(i as int),
                    *server_current,
                    server_version,
                    client_version,
                    client_timestamp,
                ),
            decreases ops@.len() - i,
        {
            let ghost log0 = views(self.conflict_log().entries());
            let ghost before = resolved@;
            let ghost opv = cops[i as int];
            proof {
                assert(cops.take(i + 1).drop_last() =~= cops.take(i as int));
                assert(cops.take(i + 1).last() == opv);
            }
            let ghost self0 = *self;
            match &ops[i] {
                DeltaOp::Insert { table_id, entity_id, data } => {
                    match server_current.get(*table_id, *entity_id) {
                        Some(cur) => {
                            let conflict = Conflict {
                                table_id: *table_id,
                                entity_id: *entity_id,
                                field_offset: None,
                                server_value: copy_bytes(cur),
                                client_value: copy_bytes(data),
                                server_version,
                                client_version,
                                timestamp: client_timestamp,
                            };
                            let ghost cv = conflict_view(conflict);
                            proof {
                                assert(conflict_for(opv, *server_current, server_version, client_version, client_timestamp) == Some(cv));
                                assert(self0.decision(cv, server_timestamp) == r0.decision(cv, server_timestamp));
                            }
                            let r = self.resolve_conflict(conflict, server_timestamp);
                            proof {
                                assert(views(self.conflict_log().entries()) == log_after(
                                    views(old(self).conflict_log().entries()),
                                    old(self).conflict_log().capacity(),
                                    cops.take(i + 1),
                                    *server_current,
                                    server_version,
                                    client_version,
                                    client_timestamp,
                                ));
                            }
                            let value = match r {
                                Ok(v) => v,
                                Err(e) => {
                                    proof {
                                        Self::lemma_outcome_err(&r0, cops, i as int, *server_current, server_version, client_version, client_timestamp, server_timestamp);
                                    }
                                    return Err(e);
                                },
                            };
                            resolved.push(
                                DeltaOp::Insert { table_id: *table_id, entity_id: *entity_id, data: value },
                            );
                        },
                        None => {
                            resolved.push(
                                DeltaOp::Insert {
                                    table_id: *table_id,
                                    entity_id: *entity_id,
                                    data: copy_bytes(data),
                                },
                            );
                        },
                    }
                },
                DeltaOp::Update { table_id, entity_id, field_offset, old_data, new_data } => {
                    let current = server_current.get(*table_id, *entity_id);
                    let differs = match current {
                        Some(cur) => !bytes_equal(cur.as_slice(), old_data.as_slice()),
                        None => false,
                    };
                    if differs {
                        let cur = current.unwrap();
                        let conflict = Conflict {
                            table_id: *table_id,
                            entity_id: *entity_id,
                            field_offset: Some(*field_offset),
                            server_value: copy_bytes(cur),
                            client_value: copy_bytes(new_data),
                            server_version,
                            client_version,
                            timestamp: client_timestamp,
                        };
                        let ghost cv = conflict_view(conflict);
                        proof {
                            assert(conflict_for(opv, *server_current, server_version, client_version, client_timestamp) == Some(cv));
                            assert(self0.decision(cv, server_timestamp) == r0.decision(cv, server_timestamp));
                        }
                        let r = self.resolve_conflict(conflict, server_timestamp);
                        proof {
                            assert(views(self.conflict_log().entries()) == log_after(
                                views(old(self).conflict_log().entries()),
                                old(self).conflict_log().capacity(),
                                cops.take(i + 1),
                                *server_current,
                                server_version,
                                client_version,
                                client_timestamp,
                            ));
                        }
                        let value = match r {
                            Ok(v) => v,
                            Err(e) => {
                                proof {
                                    Self::lemma_outcome_err(&r0, cops, i as int, *server_current, server_version, client_version, client_timestamp, server_timestamp);
                                }
                                return Err(e);
                            },
                        };
                        resolved.push(
                            DeltaOp::Update {
                                table_id: *table_id,
                                entity_id: *entity_id,
                                field_offset: *field_offset,
                                old_data: copy_bytes(cur),
                                new_data: value,
                            },
                        );
                    } else {
                        resolved.push(
                            DeltaOp::Update {
                                table_id: *table_id,
                                entity_id: *entity_id,
                                field_offset: *field_offset,
                                old_data: copy_bytes(old_data),
                                new_data: copy_bytes(new_data),
                            },
                        );
                    }
                },
                DeltaOp::Delete { table_id, entity_id, old_data } => {
                    let current = server_current.get(*table_id, *entity_id);
                    let differs = match current {
                        Some(cur) => !bytes_equal(cur.as_slice(), old_data.as_slice()),
                        None => false,
                    };
                    if differs {
                        let cur = current.unwrap();
                        let conflict = Conflict {
                            table_id: *table_id,
                            entity_id: *entity_id,
                            field_offset: None,
                            server_value: copy_bytes(cur),
                            client_value: copy_bytes(old_data),
                            server_version,
                            client_version,
                            timestamp: client_timestamp,
                        };
                        let ghost cv = conflict_view(conflict);
                        proof {
                            assert(conflict_for(opv, *server_current, server_version, client_version, client_timestamp) == Some(cv));
                            assert(self0.decision(cv, server_timestamp) == r0.decision(cv, server_timestamp));
                        }
                        let r = self.resolve_conflict(conflict, server_timestamp);
                        proof {
                            assert(views(self.conflict_log().entries()) == log_after(
                                views(old(self).conflict_log().entries()),
                                old(self).conflict_log().capacity(),
                                cops.take(i + 1),
                                *server_current,
                                server_version,
                                client_version,
                                client_timestamp,
                            ));
                        }
                        match r {
                            Ok(_) => {},
                            Err(e) => {
                                proof {
                                    Self::lemma_outcome_err(&r0, cops, i as int, *server_current, server_version, client_version, client_timestamp, server_timestamp);
                                }
                                return Err(e);
                            },
                        }
                        let keep_server = match self.strategy {
                            ConflictStrategy::ServerAuthoritative => true,
                            ConflictStrategy::LastWriteWins => client_timestamp < server_timestamp,
                            ConflictStrategy::CustomMerge => false,
                        };
                        if !keep_server {
                            resolved.push(
                                DeltaOp::Delete {
                                    table_id: *table_id,
                                    entity_id: *entity_id,
                                    old_data: copy_bytes(cur),
                                },
                            );
                        }
                    } else {
                        resolved.push(
                            DeltaOp::Delete {
                                table_id: *table_id,
                                entity_id: *entity_id,
                                old_data: copy_bytes(old_data),
                            },
                        );
                    }
                },
                DeltaOp::CreateEntity { entity_id } => {
                    resolved.push(DeltaOp::CreateEntity { entity_id: *entity_id });
                },
                DeltaOp::DeleteEntity { entity_id } => {
                    resolved.push(DeltaOp::DeleteEntity { entity_id: *entity_id });
                },
            }
            proof {
                if conflict_for(opv, *server_current, server_version, client_version, client_timestamp) is None {
                    assert(log_after(
                        views(old(self).conflict_log().entries()),
                        old(self).conflict_log().capacity(),
                        cops.take(i + 1),
                        *server_current,
                        server_version,
                        client_version,
                        client_timestamp,
                    ) == log0);
                }
                let step = resolve_step(r0, opv, *server_current, server_version, client_version, client_timestamp, server_timestamp);
                assert(step matches Ok(st) && ops_view(resolved@) =~= ops_view(before) + st);
                assert(resolve_outcome(r0, cops.take(i + 1), *server_current, server_version, client_version, client_timestamp, server_timestamp)
                    == Ok::<Seq<OpView>, Option<EcsDbError>>(ops_view(resolved@)));
            }
            i += 1;
        }
        proof {
            assert(cops.take(ops@.len() as int) =~= cops);
        }
        let timestamp = if server_timestamp >= client_timestamp {
            server_timestamp
        } else {
            client_timestamp
        };
        Ok(Delta { ops: resolved, version: server_version + 1, timestamp })
    }

    /// When the decision on the `i`th change fails after the first `i`
    /// changes resolved, the outcome of every change is that failure.
    proof fn lemma_outcome_err(
        &self,
        cops: Seq<OpView>,
        i: int,
        server: ComponentMap,
        sv: u64,
        cv: u64,
        ts: u64,
        server_ts: u64,
    )
        requires
            0 <= i < cops.len(),
        ensures
            ({
                let r = resolve_outcome(*self, cops.take(i + 1), server, sv, cv, ts, server_ts);
                r is Err ==> resolve_outcome(*self, cops, server, sv, cv, ts, server_ts) == r
            }),
        decreases cops.len() - i,
    {
        if i + 1 < cops.len() {
            self.lemma_outcome_err(cops, i + 1, server, sv, cv, ts, server_ts);
            assert(cops.take(i + 2).drop_last() =~= cops.take(i + 1));
        } else {
            assert(cops.take(i + 1) =~= cops);
        }
    }
}

/// Under the custom strategy, once a merge function is set, every conflict
/// is decided as that merge function decides it: its bytes are kept, or its
/// error rejects the delta.
pub proof fn law_custom_merge_decides<M: ConflictMerge>(
    r: ConflictResolver<M>,
    merge: M,
    c: ConflictView,
    server_ts: u64,
)
    requires
        r.strategy() == ConflictStrategy::CustomMerge,
        r.has_merge(),
        forall|x: ConflictView| #[trigger] r.merged(x) == merge.merge_outcome(x),
    ensures
        r.decision(c, server_ts) == match merge.merge_outcome(c) {
            Ok(v) => Ok::<Seq<u8>, Option<EcsDbError>>(v),
            Err(e) => Err::<Seq<u8>, Option<EcsDbError>>(Some(e)),
        },
{
    assert(r.merged(c) == merge.merge_outcome(c));
}

/// Under last-write-wins no client change is refused, and a client delete
/// that conflicts with the server's value and is not older than the
/// server's timestamp goes through: the resolved changes hold a delete of
/// that component carrying the server's current bytes.
pub proof fn law_lww_newer_delete_goes_through<M: ConflictMerge>(
    r: ConflictResolver<M>,
    ops: Seq<OpView>,
    i: int,
    server: ComponentMap,
    sv: u64,
    cv: u64,
    ts: u64,
    server_ts: u64,
)
    requires
        r.strategy() == ConflictStrategy::LastWriteWins,
        server_ts <= ts,
        0 <= i < ops.len(),
        ops[i] matches OpView::Delete { table_id, entity_id, old_data } && server.value(table_id, entity_id)
            matches Some(cur) && cur != old_data,
    ensures
        resolve_outcome(r, ops, server, sv, cv, ts, server_ts) matches Ok(out) && out.contains(
            OpView::Delete {
                table_id: ops[i]->Delete_table_id,
                entity_id: ops[i]->Delete_entity_id,
                old_data: server.value(ops[i]->Delete_table_id, ops[i]->Delete_entity_id)->0,
            },
        ),
    decreases ops.len(),
{
    let want = OpView::Delete {
        table_id: ops[i]->Delete_table_id,
        entity_id: ops[i]->Delete_entity_id,
        old_data: server.value(ops[i]->Delete_table_id, ops[i]->Delete_entity_id)->0,
    };
    let last = ops.len() - 1;
    lemma_lww_never_refuses(r, ops.drop_last(), server, sv, cv, ts, server_ts);
    let prev = resolve_outcome(r, ops.drop_last(), server, sv, cv, ts, server_ts)->Ok_0;
    lemma_lww_step_ok(r, ops.last(), server, sv, cv, ts, server_ts);
    let st = resolve_step(r, ops.last(), server, sv, cv, ts, server_ts)->Ok_0;
    if i == last {
        let c = conflict_for(ops[i], server, sv, cv, ts)->0;
        assert(!r.keeps_server(c, server_ts));
        assert(st == seq![want]);
        assert((prev + st)[prev.len() as int] == want);
    } else {
        law_lww_newer_delete_goes_through(r, ops.drop_last(), i, server, sv, cv, ts, server_ts);
        assert(ops.drop_last()[i] == ops[i]);
        let k = choose|k: int| 0 <= k < prev.len() && prev[k] == want;
        assert((prev + st)[k] == want);
    }
}

/// Under last-write-wins every change resolves.
proof fn lemma_lww_step_ok<M: ConflictMerge>(
    r: ConflictResolver<M>,
    op: OpView,
    server: ComponentMap,
    sv: u64,
    cv: u64,
    ts: u64,
    server_ts: u64,
)
    requires
        r.strategy() == ConflictStrategy::LastWriteWins,
    ensures
        resolve_step(r, op, server, sv, cv, ts, server_ts) is Ok,
{
}

/// Under last-write-wins no sequence of changes is refused.
proof fn lemma_lww_never_refuses<M: ConflictMerge>(
    r: ConflictResolver<M>,
    ops: Seq<OpView>,
    server: ComponentMap,
    sv: u64,
    cv: u64,
    ts: u64,
    server_ts: u64,
)
    requires
        r.strategy() == ConflictStrategy::LastWriteWins,
    ensures
        resolve_outcome(r, ops, server, sv, cv, ts, server_ts) is Ok,
    decreases ops.len(),
{
    if ops.len() > 0 {
        lemma_lww_never_refuses(r, ops.drop_last(), server, sv, cv, ts, server_ts);
        lemma_lww_step_ok(r, ops.last(), server, sv, cv, ts, server_ts);
    }
}

/// How one change resolves under the server-authoritative and
/// last-write-wins strategies, in terms of the server's current value `cur`
/// of the component it names. The server's value is kept under the
/// server-authoritative strategy, and under last-write-wins when the client
/// delta is older than the server. An insert over an existing component
/// writes the kept value (`cur`, or the client's bytes); an update whose old
/// bytes are not `cur` becomes an update from `cur` to the kept value; a
/// delete whose old bytes are not `cur` is dropped when `cur` is kept and
/// otherwise deletes `cur`. Every other change passes as it is.
pub proof fn law_resolve_change<M: ConflictMerge>(
    r: ConflictResolver<M>,
    op: OpView,
    server: ComponentMap,
    sv: u64,
    cv: u64,
    ts: u64,
    server_ts: u64,
)
    requires
        r.strategy() == ConflictStrategy::ServerAuthoritative || r.strategy() == ConflictStrategy::LastWriteWins,
    ensures
        ({
            let kept = r.strategy() == ConflictStrategy::ServerAuthoritative || ts < server_ts;
            resolve_step(r, op, server, sv, cv, ts, server_ts) == Ok::<Seq<OpView>, Option<EcsDbError>>(
                match op {
                    OpView::Insert { table_id, entity_id, data } => match server.value(table_id, entity_id) {
                        Some(cur) => seq![OpView::Insert { table_id, entity_id, data: if kept { cur } else { data } }],
                        None => seq![op],
                    },
                    OpView::Update { table_id, entity_id, field_offset, old_data, new_data } => match server.value(
                        table_id,
                        entity_id,
                    ) {
                        Some(cur) => if cur != old_data {
                            seq![
                                OpView::Update {
                                    table_id,
                                    entity_id,
                                    field_offset,
                                    old_data: cur,
                                    new_data: if kept { cur } else { new_data },
                                },
                            ]
                        } else {
                            seq![op]
                        },
                        None => seq![op],
                    },
                    OpView::Delete { table_id, entity_id, old_data } => match server.value(table_id, entity_id) {
                        Some(cur) => if cur != old_data {
                            if kept {
                                Seq::empty()
                            } else {
                                seq![OpView::Delete { table_id, entity_id, old_data: cur }]
                            }
                        } else {
                            seq![op]
                        },
                        None => seq![op],
                    },
                    _ => seq![op],
                },
            )
        }),
{
}

} // verus!
