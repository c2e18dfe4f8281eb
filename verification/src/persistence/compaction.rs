//! Compaction: which snapshot and which log files a cycle merges, and the
//! worker's running state.
use crate::config::PersistenceConfig;
use crate::db::{chain, layouts_computable, restored_from, snapshot_of, table_committed, table_loadable, table_loaded, write_outcome, Database};
use crate::error::{EcsDbError, Result};
use crate::persistence::manager::{compaction_writes, replay_all_committed_onto_db, replay_model, version_set};
use crate::persistence::snapshot::DatabaseSnapshot;
use crate::transaction::wal::WalEntry;
use crate::transaction::write_queue::WriteOpWithoutResponse;
use crate::text::owned;
use vstd::prelude::*;

verus! {

/// The worker that merges old snapshots with log files now and then.
pub struct CompactionWorker {
    config: PersistenceConfig,
    running: bool,
}

/// A log file numbered `id` lies between the snapshots `oldest` and `next`.
pub open spec fn in_window(oldest: u64, next: u64, id: u64) -> bool {
    oldest <= id && id < next
}

/// What one compaction cycle merges: the oldest snapshot's version, the
/// next snapshot's version, and the positions of the log files whose numbers
/// lie from the first up to before the second.
pub open spec fn compaction_target(snapshots: Seq<u64>, wal_ids: Seq<u64>, r: Option<(u64, u64, Vec<usize>)>) -> bool {
    if snapshots.len() < 2 {
        r is None
    } else {
        let oldest = snapshots[0];
        let next = snapshots[1];
        if forall|i: int| 0 <= i < wal_ids.len() ==> !in_window(oldest, next, #[trigger] wal_ids[i]) {
            r is None
        } else {
            r matches Some((o, n, v)) && {
                &&& o == oldest
                &&& n == next
                &&& forall|k: int, l: int| 0 <= k < l < v@.len() ==> v@[k] < v@[l]
                &&& forall|k: int| 0 <= k < v@.len() ==> (#[trigger] v@[k]) < wal_ids.len() && in_window(oldest, next, wal_ids[v@[k] as int])
                &&& forall|i: int| 0 <= i < wal_ids.len() && in_window(oldest, next, #[trigger] wal_ids[i]) ==> v@.contains(i as usize)
            }
        }
    }
}

/// What a compaction cycle merges, given the snapshot versions and the log
/// file numbers in increasing order; nothing when there are fewer than two
/// snapshots or no log file falls between the first two.
pub fn plan_compaction(snapshots: &Vec<u64>, wal_ids: &Vec<u64>) -> (r: Option<(u64, u64, Vec<usize>)>)
    ensures
        compaction_target(snapshots@, wal_ids@, r),
{
    if snapshots.len() < 2 {
        return None;
    }
    let oldest = snapshots[0];
    let next = snapshots[1];
    let mut picked: Vec<usize> = Vec::new();
    let mut i: usize = 0;
    while i < wal_ids.len()
        invariant
            i <= wal_ids@.len(),
            oldest == snapshots@[0],
            next == snapshots@[1],
            forall|k: int, l: int| 0 <= k < l < picked@.len() ==> picked@[k] < picked@[l],
            forall|k: int| 0 <= k < picked@.len() ==> (#[trigger] picked@[k]) < i && oldest <= wal_ids@[picked@[k] as int]
                && wal_ids@[picked@[k] as int] < next,
            forall|j: int| 0 <= j < i && oldest <= wal_ids@[j] && wal_ids@[j] < next ==> picked@.contains(j as usize),
        decreases wal_ids@.len() - i,
    {
        let ghost p0 = picked@;
        if oldest <= wal_ids[i] && wal_ids[i] < next {
            picked.push(i);
            assert(picked@[picked@.len() - 1] == i);
        }
        assert forall|j: int| 0 <= j <= i && oldest <= wal_ids@[j] && wal_ids@[j] < next implies picked@.contains(j as usize) by {
            if j < i {
                let k = choose|k: int| 0 <= k < p0.len() && p0[k] == j as usize;
                assert(picked@[k] == j as usize);
            }
        }
        i += 1;
    }
    if picked.len() == 0 {
        assert forall|j: int| 0 <= j < wal_ids@.len() implies !(oldest <= wal_ids@[j] && wal_ids@[j] < next) by {
            if oldest <= wal_ids@[j] && wal_ids@[j] < next {
                assert(picked@.contains(j as usize));
            }
        }
        return None;
    }
    assert(oldest <= wal_ids@[picked@[0] as int] && wal_ids@[picked@[0] as int] < next);
    Some((oldest, next, picked))
}

impl CompactionWorker {
    pub closed spec fn config_view(&self) -> PersistenceConfig {
        self.config
    }

    pub closed spec fn is_running(&self) -> bool {
        self.running
    }

    /// A worker for the given settings, not running.
    pub fn new(config: PersistenceConfig) -> (w: Self)
        ensures
            w.config_view() == config,
            !w.is_running(),
    {
        CompactionWorker { config, running: false }
    }

    /// Marks the worker running and gives the seconds to wait between cycles.
    pub fn begin(&mut self) -> (secs: u64)
        ensures
            final(self).is_running(),
            final(self).config_view() == old(self).config_view(),
            secs == old(self).config_view().compaction_interval_seconds,
    {
        self.running = true;
        self.config.compaction_interval_seconds
    }

    /// Whether the worker is to go on.
    pub fn running(&self) -> (b: bool)
        ensures
            b == self.is_running(),
    {
        self.running
    }

    /// Stops the worker after its current cycle.
    pub fn stop(&mut self)
        ensures
            !final(self).is_running(),
            final(self).config_view() == old(self).config_view(),
    {
        self.running = false;
    }

    /// The settings the worker runs with.
    pub fn config(&self) -> (c: &PersistenceConfig)
        ensures
            *c == self.config_view(),
    {
        &self.config
    }
}

/// The position of the snapshot with the highest version in `s` (the last
/// such one).
pub open spec fn latest_index(s: Seq<DatabaseSnapshot>) -> int
    decreases s.len(),
{
    if s.len() <= 1 {
        0
    } else {
        let k = latest_index(s.drop_last());
        if s.last().version >= s[k].version {
            s.len() - 1
        } else {
            k
        }
    }
}

/// `d1` is `d0` with every table's writes made visible under generation
/// `gen`, and nothing else changed.
pub open spec fn made_visible(d0: Database, d1: Database, gen: u64) -> bool {
    &&& d1.tables_view().len() == d0.tables_view().len()
    &&& forall|q: int| 0 <= q < d0.tables_view().len() ==> table_committed(d0.tables_view()[q], #[trigger] d1.tables_view()[q], gen)
    &&& d1.schema_view() == d0.schema_view()
    &&& d1.entities() == d0.entities()
    &&& d1.archetypes() == d0.archetypes()
    &&& d1.current_version() == d0.current_version()
}

/// What merging snapshot `s` with the log entries `es` gives, from the
/// database `d0` that `s` restores: every committed transaction is replayed
/// in order of commit, the writes made visible, and the result is a
/// snapshot of the database they leave, its version the highest of the
/// snapshot's version and the committed ids; or the error of the first
/// write that fails.
pub open spec fn merged_from(s: DatabaseSnapshot, d0: Database, es: Seq<WalEntry>, out: Result<DatabaseSnapshot>) -> bool {
    let ws = compaction_writes(es);
    &&& out matches Ok(m) ==> exists|states: Seq<Database>, d1: Database, d2: Database|
        #![trigger chain(states, ws), version_set(states.last(), d1, replay_model(es, s.version, true).2), snapshot_of(d2, m)]
        chain(states, ws) && states[0] == d0 && version_set(states.last(), d1, replay_model(es, s.version, true).2)
            && made_visible(d1, d2, replay_model(es, s.version, true).2) && snapshot_of(d2, m)
    &&& out matches Err(e) ==> exists|i: int, states: Seq<Database>, d1: Database|
        #![trigger chain(states, ws.take(i)), write_outcome(states.last(), d1, ws[i], Err::<(), EcsDbError>(e))]
        0 <= i < ws.len() && chain(states, ws.take(i)) && states[0] == d0 && write_outcome(
            states.last(),
            d1,
            ws[i],
            Err::<(), EcsDbError>(e),
        )
}

/// Along a run of successful writes the tables keep their number and their
/// record sizes.
proof fn lemma_chain_keeps_tables(states: Seq<Database>, ops: Seq<WriteOpWithoutResponse>, n: int)
    requires
        chain(states, ops),
        0 <= n <= ops.len(),
    ensures
        states[n].tables_view().len() == states[0].tables_view().len(),
        forall|q: int| 0 <= q < states[0].tables_view().len() ==> #[trigger] states[n].tables_view()[q].store().rs()
            == states[0].tables_view()[q].store().rs(),
    decreases n,
{
    if n > 0 {
        lemma_chain_keeps_tables(states, ops, n - 1);
        assert(write_outcome(states[n - 1], states[n], ops[n - 1], Ok(())));
        assert forall|q: int| 0 <= q < states[0].tables_view().len() implies #[trigger] states[n].tables_view()[q].store().rs()
            == states[0].tables_view()[q].store().rs() by {
            assert(states[n].tables_view()[q].id() == states[n - 1].tables_view()[q].id());
        }
    }
}

/// Merges every snapshot and log file into one snapshot: the snapshot with
/// the highest version is restored, the transactions of `entries` committed
/// after it are replayed, and a snapshot of the result is returned. With no
/// snapshot there is nothing to merge into, a compaction error; a snapshot
/// that cannot be restored gives the restore's error.
pub fn compact_offline(snapshots: Vec<DatabaseSnapshot>, entries: Vec<WalEntry>) -> (res: Result<DatabaseSnapshot>)
    requires
        forall|i: int| 0 <= i < snapshots@.len() ==> {
            let s = #[trigger] snapshots@[i];
            &&& layouts_computable(s.schema)
            &&& s.entity_registry.wf()
            &&& forall|q: int| 0 <= q < s.tables@.len() ==> (#[trigger] s.tables@[q]).table_id < 64 && s.tables@[q].record_size > 0
        },
    ensures
        snapshots@.len() == 0 ==> (res matches Err(EcsDbError::CompactionError(_))),
        snapshots@.len() > 0 ==> {
            let s = snapshots@[latest_index(snapshots@)];
            &&& !(forall|q: int| 0 <= q < s.tables@.len() ==> #[trigger] table_loadable(s.schema, s.tables@, q)) ==> res is Err
            &&& (forall|q: int| 0 <= q < s.tables@.len() ==> #[trigger] table_loadable(s.schema, s.tables@, q)) ==> exists|d0: Database|
                #[trigger] restored_from(s, d0) && d0.wf() && merged_from(s, d0, entries@, res)
        },
{
    if snapshots.len() == 0 {
        return Err(EcsDbError::CompactionError(owned("No snapshot to compact")));
    }
    let mut k: usize = 0;
    let mut i: usize = 1;
    while i < snapshots.len()
        invariant
            1 <= i <= snapshots@.len(),
            k < i,
            k == latest_index(snapshots@.take(i as int)),
        decreases snapshots@.len() - i,
    {
        assert(snapshots@.take(i + 1).drop_last() =~= snapshots@.take(i as int));
        if snapshots[i].version >= snapshots[k].version {
            k = i;
        }
        i += 1;
    }
    assert(snapshots@.take(snapshots@.len() as int) =~= snapshots@);
    let mut snapshots = snapshots;
    let ghost all = snapshots@;
    let latest = snapshots.remove(k);
    assert(latest == all[k as int]);
    let since = latest.version;
    let mut db = match Database::from_snapshot(latest) {
        Ok(d) => d,
        Err(e) => return Err(e),
    };
    let ghost d0 = db;
    proof {
        assert forall|q: int| 0 <= q < db.tables_view().len() implies (#[trigger] db.tables_view()[q]).id() < 64 by {
            assert(table_loaded(latest.tables@[q], db.tables_view()[q]));
        }
    }
    match replay_all_committed_onto_db(entries, since, &mut db) {
        Ok(()) => {},
        Err(e) => {
            proof {
                assert(merged_from(latest, d0, entries@, Err(e)));
            }
            return Err(e);
        },
    }
    let ghost ws = compaction_writes(entries@);
    proof {
        let (states, ) = (choose|states: Seq<Database>| #[trigger] chain(states, ws) && states[0] == d0 && version_set(
            states.last(),
            db,
            replay_model(entries@, since, true).2,
        ),);
        lemma_chain_keeps_tables(states, ws, ws.len() as int);
        assert forall|q: int| 0 <= q < db.tables_view().len() implies (#[trigger] db.tables_view()[q]).store().rs() > 0 by {
            assert(table_loaded(latest.tables@[q], d0.tables_view()[q]));
            assert(states[ws.len() as int] == states.last());
        }
    }
    let ghost d1 = db;
    let v = db.version();
    db.commit_tables(v);
    proof {
        assert forall|q: int| 0 <= q < db.tables_view().len() implies (#[trigger] db.tables_view()[q]).store().rs() > 0 by {
            assert(table_committed(d1.tables_view()[q], db.tables_view()[q], v));
        }
    }
    let out = db.create_snapshot();
    proof {
        assert(merged_from(latest, d0, entries@, out));
    }
    out
}

} // verus!
