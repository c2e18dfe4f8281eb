//! Recovery: which logged transactions are replayed onto a restored
//! snapshot, in which order, and the database version that results; and the
//! names of snapshot and log files.
use crate::config::PersistenceConfig;
use crate::db::{chain, write_outcome, Database};
use crate::error::{EcsDbError, Result};
use crate::transaction::write_queue::{op_table, WriteOpWithoutResponse};
use crate::transaction::wal::{WalEntry, WalOp};
use std::collections::HashMap;
use vstd::prelude::*;

verus! {

broadcast use vstd::std_specs::hash::group_hash_axioms;

/// Where a pair with key `key` goes among `s`: after every pair whose key is
/// at most `key`, before the first whose key is larger.
pub open spec fn insert_pos<T>(s: Seq<(u64, T)>, key: u64) -> int
    decreases s.len(),
{
    if s.len() == 0 {
        0
    } else if s.last().0 <= key {
        s.len() as int
    } else {
        insert_pos(s.drop_last(), key)
    }
}

/// `s` with `x` put in at its place by key.
pub open spec fn sorted_insert<T>(s: Seq<(u64, T)>, x: (u64, T)) -> Seq<(u64, T)> {
    let p = insert_pos(s, x.0);
    s.take(p).push(x) + s.skip(p)
}

/// The pairs of `s` ordered by key; pairs with the same key keep their order.
pub open spec fn sort_by_key<T>(s: Seq<(u64, T)>) -> Seq<(u64, T)>
    decreases s.len(),
{
    if s.len() == 0 {
        s
    } else {
        sorted_insert(sort_by_key(s.drop_last()), s.last())
    }
}

/// Keys never decrease along `s`.
pub open spec fn keys_sorted<T>(s: Seq<(u64, T)>) -> bool {
    forall|i: int, j: int| 0 <= i < j < s.len() ==> s[i].0 <= s[j].0
}

proof fn lemma_insert_pos<T>(s: Seq<(u64, T)>, key: u64)
    requires
        keys_sorted(s),
    ensures
        0 <= insert_pos(s, key) <= s.len(),
        forall|i: int| 0 <= i < insert_pos(s, key) ==> s[i].0 <= key,
        forall|i: int| insert_pos(s, key) <= i < s.len() ==> s[i].0 > key,
    decreases s.len(),
{
    if s.len() > 0 && s.last().0 > key {
        let t = s.drop_last();
        lemma_insert_pos(t, key);
        assert forall|i: int| insert_pos(s, key) <= i < s.len() implies s[i].0 > key by {
            if i < s.len() - 1 {
                assert(s[i] == t[i]);
            }
        }
        assert forall|i: int| 0 <= i < insert_pos(s, key) implies s[i].0 <= key by {
            assert(s[i] == t[i]);
        }
    } else if s.len() > 0 {
        assert forall|i: int| 0 <= i < insert_pos(s, key) implies s[i].0 <= key by {
            if i < s.len() - 1 {
                assert(s[i].0 <= s[s.len() - 1].0);
            }
        }
    }
}

/// Sorting by key gives keys in order, holding the same pairs.
pub proof fn lemma_sort_by_key<T>(s: Seq<(u64, T)>)
    ensures
        keys_sorted(sort_by_key(s)),
        sort_by_key(s).to_multiset() == s.to_multiset(),
        sort_by_key(s).len() == s.len(),
    decreases s.len(),
{
    if s.len() > 0 {
        let t = sort_by_key(s.drop_last());
        lemma_sort_by_key(s.drop_last());
        let x = s.last();
        lemma_insert_pos(t, x.0);
        let p = insert_pos(t, x.0);
        let r = sorted_insert(t, x);
        assert(r.len() == t.len() + 1);
        assert forall|i: int, j: int| 0 <= i < j < r.len() implies r[i].0 <= r[j].0 by {
            if i < p && j < p {
                assert(r[i] == t[i] && r[j] == t[j]);
            } else if i < p && j == p {
                assert(r[i] == t[i]);
            } else if i < p {
                assert(r[i] == t[i] && r[j] == t[j - 1]);
            } else if i == p {
                assert(r[j] == t[j - 1]);
            } else {
                assert(r[i] == t[i - 1] && r[j] == t[j - 1]);
            }
        }
        assert(t =~= t.take(p) + t.skip(p));
        vstd::seq_lib::lemma_multiset_commutative(t.take(p), t.skip(p));
        vstd::seq_lib::lemma_multiset_commutative(t.take(p).push(x), t.skip(p));
        assert(t.take(p).push(x).to_multiset() =~= t.take(p).to_multiset().insert(x)) by {
            t.take(p).to_multiset_ensures();
        }
        assert(s =~= s.drop_last().push(x));
        s.drop_last().to_multiset_ensures();
    }
}

/// Puts `x` in at its place by key in `v`, which is sorted.
fn insert_sorted<T>(v: &mut Vec<(u64, T)>, x: (u64, T))
    ensures
        final(v)@ == sorted_insert(old(v)@, x),
{
    let ghost s = v@;
    let mut p: usize = v.len();
    assert(s.take(p as int) =~= s);
    while p > 0 && v[p - 1].0 > x.0
        invariant
            p <= v@.len(),
            v@ == s,
            insert_pos(s, x.0) == insert_pos(s.take(p as int), x.0),
        decreases p,
    {
        proof {
            let t = s.take(p as int);
            assert(t.drop_last() =~= s.take(p - 1));
            assert(t.last() == s[p - 1]);
        }
        p -= 1;
    }
    proof {
        let t = s.take(p as int);
        assert(insert_pos(t, x.0) == p) by {
            if p > 0 {
                assert(t.last() == s[p - 1]);
            }
        }
    }
    v.insert(p, x);
    assert(v@ =~= s.take(p as int).push(x) + s.skip(p as int));
}

/// The pairs of `v` ordered by key, keeping the order of pairs with the same
/// key.
pub fn sort_pairs<T>(v: Vec<(u64, T)>) -> (r: Vec<(u64, T)>)
    ensures
        r@ == sort_by_key(v@),
{
    let ghost s = v@;
    let mut rest = v;
    let mut out: Vec<(u64, T)> = Vec::new();
    let mut k: usize = 0;
    let n = rest.len();
    while k < n
        invariant
            k <= n,
            n == s.len(),
            rest@ == s.skip(k as int),
            out@ == sort_by_key(s.take(k as int)),
        decreases n - k,
    {
        let x = rest.remove(0);
        proof {
            assert(x == s[k as int]);
            assert(s.take(k + 1int).drop_last() =~= s.take(k as int));
            assert(s.take(k + 1int).last() == s[k as int]);
        }
        insert_sorted(&mut out, x);
        k += 1;
        assert(rest@ =~= s.skip(k as int));
    }
    assert(s.take(n as int) =~= s);
    out
}

/// What reading the log has gathered: the operations of each transaction
/// still open, the committed transactions with their operations in order of
/// commit, and the highest committed transaction id.
pub type ReplayState = (Map<u64, Seq<WalOp>>, Seq<(u64, Seq<WalOp>)>, u64);

/// Reading one more entry. Unless `all` entries count, entries of
/// transactions up to `since` are skipped; a commit closes its transaction
/// if it is open, a rollback drops it, and any other operation joins its
/// entry's transaction.
pub open spec fn replay_step(st: ReplayState, e: WalEntry, since: u64, all: bool) -> ReplayState {
    if !all && e.transaction_id <= since {
        st
    } else {
        match e.operation {
            WalOp::Commit { transaction_id } => if st.0.contains_key(transaction_id) {
                (
                    st.0.remove(transaction_id),
                    st.1.push((transaction_id, st.0[transaction_id])),
                    if transaction_id > st.2 { transaction_id } else { st.2 },
                )
            } else {
                st
            },
            WalOp::Rollback { transaction_id } => (st.0.remove(transaction_id), st.1, st.2),
            op => {
                let before = if st.0.contains_key(e.transaction_id) { st.0[e.transaction_id] } else { Seq::empty() };
                (st.0.insert(e.transaction_id, before.push(op)), st.1, st.2)
            },
        }
    }
}

/// What reading the entries `es` in order gathers, starting with nothing
/// open, nothing committed and `since` as the highest id; unless `all`
/// entries count, those of transactions up to `since` are skipped.
pub open spec fn replay_model(es: Seq<WalEntry>, since: u64, all: bool) -> ReplayState
    decreases es.len(),
{
    if es.len() == 0 {
        (Map::empty(), Seq::empty(), since)
    } else {
        replay_step(replay_model(es.drop_last(), since, all), es.last(), since, all)
    }
}

/// The operations of committed transactions, as plain sequences.
pub open spec fn txns_view(v: Seq<(u64, Vec<WalOp>)>) -> Seq<(u64, Seq<WalOp>)> {
    Seq::new(v.len(), |i: int| (v[i].0, v[i].1@))
}

/// The open transactions, as plain sequences.
pub open spec fn open_view(m: Map<u64, Vec<WalOp>>) -> Map<u64, Seq<WalOp>> {
    Map::new(|k: u64| m.contains_key(k), |k: u64| m[k]@)
}

/// Reads the log entries `entries` in order and gathers the committed
/// transactions (of ids above `since_version` unless `all` count), in order
/// of commit, with the highest committed id (at least `since_version`) and
/// the number of transactions left open.
fn gather(entries: Vec<WalEntry>, since_version: u64, all: bool) -> (r: (Vec<(u64, Vec<WalOp>)>, u64, usize))
    ensures
        txns_view(r.0@) == replay_model(entries@, since_version, all).1,
        r.1 == replay_model(entries@, since_version, all).2,
        r.2 == replay_model(entries@, since_version, all).0.dom().len(),
{
    let ghost es = entries@;
    let mut rest = entries;
    let mut open: HashMap<u64, Vec<WalOp>> = HashMap::new();
    let mut committed: Vec<(u64, Vec<WalOp>)> = Vec::new();
    let mut max_id = since_version;
    let n = rest.len();
    let mut k: usize = 0;
    proof {
        assert(open_view(open@) =~= Map::<u64, Seq<WalOp>>::empty());
        assert(txns_view(committed@) =~= Seq::<(u64, Seq<WalOp>)>::empty());
        assert(es.take(0) =~= Seq::<WalEntry>::empty());
    }
    while k < n
        invariant
            k <= n,
            n == es.len(),
            rest@ == es.skip(k as int),
            open_view(open@) == replay_model(es.take(k as int), since_version, all).0,
            open@.dom().finite(),
            txns_view(committed@) == replay_model(es.take(k as int), since_version, all).1,
            max_id == replay_model(es.take(k as int), since_version, all).2,
        decreases n - k,
    {
        let e = rest.remove(0);
        let ghost st = replay_model(es.take(k as int), since_version, all);
        proof {
            assert(e == es[k as int]);
            assert(es.take(k + 1int).drop_last() =~= es.take(k as int));
            assert(es.take(k + 1int).last() == es[k as int]);
        }
        let tid = e.transaction_id;
        if all || tid > since_version {
            match e.operation {
                WalOp::Commit { transaction_id } => {
                    match open.remove(&transaction_id) {
                        Some(ops) => {
                            let ghost c0 = committed@;
                            committed.push((transaction_id, ops));
                            if transaction_id > max_id {
                                max_id = transaction_id;
                            }
                            proof {
                                assert(open_view(open@) =~= st.0.remove(transaction_id));
                                assert(txns_view(committed@) =~= txns_view(c0).push((transaction_id, ops@)));
                            }
                        },
                        None => {
                            proof {
                                assert(open_view(open@) =~= st.0);
                            }
                        },
                    }
                },
                WalOp::Rollback { transaction_id } => {
                    open.remove(&transaction_id);
                    proof {
                        assert(open_view(open@) =~= st.0.remove(transaction_id));
                    }
                },
                op => {
                    let ghost o0 = open@;
                    let mut ops = match open.remove(&tid) {
                        Some(v) => v,
                        None => Vec::new(),
                    };
                    proof {
                        assert(ops@ == if st.0.contains_key(tid) { st.0[tid] } else { Seq::<WalOp>::empty() });
                    }
                    ops.push(op);
                    open.insert(tid, ops);
                    proof {
                        assert(open_view(open@) =~= st.0.insert(tid, open@[tid]@));
                    }
                },
            }
        }
        k += 1;
        assert(rest@ =~= es.skip(k as int));
    }
    proof {
        assert(es.take(n as int) =~= es);
        assert(open_view(open@).dom() =~= open@.dom());
    }
    let left = open.len();
    (committed, max_id, left)
}

/// Reads the log entries `entries` in order and gathers the committed
/// transactions of ids above `since_version`, in order of commit, with the
/// highest committed id (at least `since_version`) and the number of
/// transactions left open.
pub fn group_committed(entries: Vec<WalEntry>, since_version: u64) -> (r: (Vec<(u64, Vec<WalOp>)>, u64, usize))
    ensures
        txns_view(r.0@) == replay_model(entries@, since_version, false).1,
        r.1 == replay_model(entries@, since_version, false).2,
        r.2 == replay_model(entries@, since_version, false).0.dom().len(),
{
    gather(entries, since_version, false)
}

/// Reads the log entries `entries` in order and gathers every committed
/// transaction, in order of commit, with the highest of `version` and the
/// committed ids, and the number of transactions left open.
pub fn group_all_committed(entries: Vec<WalEntry>, version: u64) -> (r: (Vec<(u64, Vec<WalOp>)>, u64, usize))
    ensures
        txns_view(r.0@) == replay_model(entries@, version, true).1,
        r.1 == replay_model(entries@, version, true).2,
        r.2 == replay_model(entries@, version, true).0.dom().len(),
{
    gather(entries, version, true)
}

/// Whether an operation is a data change rather than a transaction marker.
pub open spec fn is_data_op(op: WalOp) -> bool {
    !(op is Commit) && !(op is Rollback)
}

/// The write that a logged data change stands for.
pub open spec fn logged_write(op: WalOp) -> WriteOpWithoutResponse {
    match op {
        WalOp::Insert { table_id, entity_id, data } => WriteOpWithoutResponse::Insert { table_id, entity_id, data },
        WalOp::Update { table_id, entity_id, data } => WriteOpWithoutResponse::Update { table_id, entity_id, data },
        WalOp::Delete { table_id, entity_id } => WriteOpWithoutResponse::Delete { table_id, entity_id },
        WalOp::Commit { .. } | WalOp::Rollback { .. } => WriteOpWithoutResponse::Delete { table_id: 0, entity_id: 0 },
    }
}

/// The writes of the transactions `t`, one transaction after the other.
pub open spec fn flat_writes(t: Seq<(u64, Seq<WalOp>)>) -> Seq<WriteOpWithoutResponse>
    decreases t.len(),
{
    if t.len() == 0 {
        Seq::empty()
    } else {
        flat_writes(t.drop_last()) + t.last().1.map_values(|op: WalOp| logged_write(op))
    }
}

/// Only data changes are gathered into transactions.
pub proof fn lemma_replay_data_only(es: Seq<WalEntry>, since: u64, all: bool)
    ensures
        forall|k: u64, i: int| #![trigger replay_model(es, since, all).0[k][i]]
            replay_model(es, since, all).0.contains_key(k) && 0 <= i < replay_model(es, since, all).0[k].len()
                ==> is_data_op(replay_model(es, since, all).0[k][i]),
        forall|j: int, i: int| #![trigger replay_model(es, since, all).1[j].1[i]]
            0 <= j < replay_model(es, since, all).1.len() && 0 <= i < replay_model(es, since, all).1[j].1.len()
                ==> is_data_op(replay_model(es, since, all).1[j].1[i]),
    decreases es.len(),
{
    if es.len() > 0 {
        lemma_replay_data_only(es.drop_last(), since, all);
        let st = replay_model(es.drop_last(), since, all);
        let st2 = replay_model(es, since, all);
        let e = es.last();
        assert(st2 == replay_step(st, e, since, all));
        assert forall|k: u64, i: int| #![trigger st2.0[k][i]] st2.0.contains_key(k) && 0 <= i < st2.0[k].len()
            implies is_data_op(st2.0[k][i]) by {
            if (all || e.transaction_id > since) && is_data_op(e.operation) && k == e.transaction_id {
                let before = if st.0.contains_key(k) { st.0[k] } else { Seq::empty() };
                assert(st2.0[k] == before.push(e.operation));
                if i < before.len() {
                    assert(st2.0[k][i] == before[i]);
                    assert(st.0[k][i] == before[i]);
                }
            } else {
                assert(st.0.contains_key(k) && st2.0[k] == st.0[k]);
                assert(st2.0[k][i] == st.0[k][i]);
            }
        }
        assert forall|j: int, i: int| #![trigger st2.1[j].1[i]] 0 <= j < st2.1.len() && 0 <= i < st2.1[j].1.len()
            implies is_data_op(st2.1[j].1[i]) by {
            if j < st.1.len() {
                assert(st2.1[j] == st.1[j]);
                assert(st.1[j].1[i] == st2.1[j].1[i]);
            } else {
                match e.operation {
                    WalOp::Commit { transaction_id } => {
                        assert(st2.1[j] == (transaction_id, st.0[transaction_id]));
                        assert(st.0[transaction_id][i] == st2.1[j].1[i]);
                    },
                    _ => {},
                }
            }
        }
    }
}

proof fn lemma_insert_pos_view(s: Seq<(u64, Vec<WalOp>)>, key: u64)
    ensures
        insert_pos(txns_view(s), key) == insert_pos(s, key),
    decreases s.len(),
{
    if s.len() > 0 {
        assert(txns_view(s.drop_last()) =~= txns_view(s).drop_last());
        lemma_insert_pos_view(s.drop_last(), key);
    }
}

/// Sorting depends on keys alone, so it commutes with viewing the operations.
proof fn lemma_sort_view(s: Seq<(u64, Vec<WalOp>)>)
    ensures
        txns_view(sort_by_key(s)) == sort_by_key(txns_view(s)),
    decreases s.len(),
{
    if s.len() > 0 {
        lemma_sort_view(s.drop_last());
        assert(txns_view(s.drop_last()) =~= txns_view(s).drop_last());
        let t = sort_by_key(s.drop_last());
        lemma_insert_pos_view(t, s.last().0);
        let p = insert_pos(t, s.last().0);
        lemma_sort_by_key(s.drop_last());
        lemma_insert_pos(t, s.last().0);
        let a = sorted_insert(t, s.last());
        let b = sorted_insert(txns_view(t), txns_view(s).last());
        assert(txns_view(s).last() == (s.last().0, s.last().1@));
        assert(a.len() == b.len());
        assert forall|i: int| 0 <= i < a.len() implies #[trigger] txns_view(a)[i] == b[i] by {
            if i < p {
                assert(a[i] == t[i]);
                assert(b[i] == txns_view(t)[i]);
            } else if i == p {
            } else {
                assert(a[i] == t[i - 1]);
                assert(b[i] == txns_view(t)[i - 1]);
            }
        }
        assert(txns_view(a) =~= b);
    }
}

/// The write of a logged data change.
fn write_of(op: WalOp) -> (w: WriteOpWithoutResponse)
    requires
        is_data_op(op),
    ensures
        w == logged_write(op),
{
    match op {
        WalOp::Insert { table_id, entity_id, data } => WriteOpWithoutResponse::Insert { table_id, entity_id, data },
        WalOp::Update { table_id, entity_id, data } => WriteOpWithoutResponse::Update { table_id, entity_id, data },
        WalOp::Delete { table_id, entity_id } => WriteOpWithoutResponse::Delete { table_id, entity_id },
        WalOp::Commit { .. } | WalOp::Rollback { .. } => WriteOpWithoutResponse::Delete { table_id: 0, entity_id: 0 },
    }
}

/// The writes of the transactions `txns`, in order.
fn flatten(txns: Vec<(u64, Vec<WalOp>)>) -> (w: Vec<WriteOpWithoutResponse>)
    requires
        forall|j: int, i: int| #![trigger txns@[j].1@[i]] 0 <= j < txns@.len() && 0 <= i < txns@[j].1@.len() ==> is_data_op(txns@[j].1@[i]),
    ensures
        w@ == flat_writes(txns_view(txns@)),
{
    let ghost t = txns@;
    let mut rest = txns;
    let mut w: Vec<WriteOpWithoutResponse> = Vec::new();
    let n = rest.len();
    let mut k: usize = 0;
    assert(txns_view(t.take(0)) =~= Seq::<(u64, Seq<WalOp>)>::empty());
    while k < n
        invariant
            k <= n,
            n == t.len(),
            rest@ == t.skip(k as int),
            forall|j: int, i: int| #![trigger t[j].1@[i]] 0 <= j < t.len() && 0 <= i < t[j].1@.len() ==> is_data_op(t[j].1@[i]),
            w@ == flat_writes(txns_view(t.take(k as int))),
        decreases n - k,
    {
        let (id, ops) = rest.remove(0);
        let ghost w0 = w@;
        let ghost o = ops@;
        assert(ops@ == t[k as int].1@);
        let mut ops = ops;
        let m = ops.len();
        let mut q: usize = 0;
        while q < m
            invariant
                q <= m,
                m == o.len(),
                ops@ == o.skip(q as int),
                o == t[k as int].1@,
                forall|i: int| 0 <= i < o.len() ==> is_data_op(#[trigger] o[i]),
                w@ == w0 + o.take(q as int).map_values(|op: WalOp| logged_write(op)),
            decreases m - q,
        {
            let op = ops.remove(0);
            assert(op == o[q as int]);
            let x = write_of(op);
            w.push(x);
            q += 1;
            assert(ops@ =~= o.skip(q as int));
            assert(w@ =~= w0 + o.take(q as int).map_values(|op: WalOp| logged_write(op)));
        }
        proof {
            assert(o.take(m as int) =~= o);
            let tv = txns_view(t.take(k + 1int));
            assert(tv.drop_last() =~= txns_view(t.take(k as int)));
            assert(tv.last() == (id, o));
        }
        k += 1;
        assert(rest@ =~= t.skip(k as int));
    }
    assert(t.take(n as int) =~= t);
    w
}

/// `d1` is `d0` with the version set to `v`.
pub open spec fn version_set(d0: Database, d1: Database, v: u64) -> bool {
    &&& d1.current_version() == v
    &&& d1.tables_view() == d0.tables_view()
    &&& d1.entities() == d0.entities()
    &&& d1.archetypes() == d0.archetypes()
    &&& d1.pending() == d0.pending()
    &&& d1.schema_view() == d0.schema_view()
    &&& d1.outbox() == d0.outbox()
    &&& d1.log() == d0.log()
}

/// Applies `ops` to `db` one after the other, stopping at the first that
/// fails.
fn apply_in_order(db: &mut Database, ops: &Vec<WriteOpWithoutResponse>) -> (res: Result<()>)
    requires
        old(db).wf(),
        forall|q: int| 0 <= q < old(db).tables_view().len() ==> (#[trigger] old(db).tables_view()[q]).id() < 64,
    ensures
        final(db).wf(),
        res is Ok ==> exists|states: Seq<Database>| #[trigger] chain(states, ops@) && states[0] == *old(db) && states.last() == *final(db),
        res is Err ==> exists|i: int, states: Seq<Database>|
            #![trigger chain(states, ops@.take(i))]
            0 <= i < ops@.len() && chain(states, ops@.take(i)) && states[0] == *old(db) && write_outcome(states.last(), *final(db), ops@[i], res),
{
    let ghost d0 = *db;
    let ghost mut trail: Seq<Database> = seq![d0];
    let n = ops.len();
    let mut i: usize = 0;
    assert(ops@.take(0) =~= Seq::<WriteOpWithoutResponse>::empty());
    while i < n
        invariant
            db.wf(),
            i <= n,
            n == ops@.len(),
            db.tables_view().len() == d0.tables_view().len(),
            forall|q: int| 0 <= q < db.tables_view().len() ==> (#[trigger] db.tables_view()[q]).id() < 64,
            chain(trail, ops@.take(i as int)),
            trail[0] == d0,
            trail.last() == *db,
            d0 == *old(db),
        decreases n - i,
    {
        let ghost dm = *db;
        proof {
            assert(db.op_fits(ops@[i as int])) by {
                if exists|q: int| 0 <= q < db.tables_view().len() && #[trigger] db.tables_view()[q].id() == op_table(ops@[i as int]) {
                    let q = choose|q: int| 0 <= q < db.tables_view().len() && #[trigger] db.tables_view()[q].id() == op_table(ops@[i as int]);
                    assert(db.tables_view()[q].id() < 64);
                }
            }
        }
        let r = db.apply_write_op(&ops[i]);
        match r {
            Ok(()) => {
                proof {
                    assert forall|q: int| 0 <= q < db.tables_view().len() implies (#[trigger] db.tables_view()[q]).id() < 64 by {
                        assert(db.tables_view()[q].id() == dm.tables_view()[q].id());
                    }
                    let s1 = trail.push(*db);
                    let o1 = ops@.take(i + 1);
                    assert forall|k: int| #![trigger o1[k]] 0 <= k < o1.len() implies write_outcome(s1[k], s1[k + 1], o1[k], Ok(())) by {
                        if k < i {
                            assert(o1[k] == ops@.take(i as int)[k]);
                        } else {
                            assert(o1[k] == ops@[i as int]);
                        }
                    }
                    trail = s1;
                }
            },
            Err(e) => {
                proof {
                    assert(write_outcome(trail.last(), *db, ops@[i as int], Err::<(), EcsDbError>(e)));
                    assert(chain(trail, ops@.take(i as int)));
                }
                return Err(e);
            },
        }
        i += 1;
    }
    proof {
        assert(ops@.take(n as int) =~= ops@);
        assert(chain(trail, ops@));
    }
    Ok(())
}

/// What recovery does with the log entries `es` read after a snapshot of
/// version `since`: `w` are the writes of the transactions committed above
/// `since`, ordered by transaction id.
pub open spec fn replay_writes(es: Seq<WalEntry>, since: u64) -> Seq<WriteOpWithoutResponse> {
    flat_writes(sort_by_key(replay_model(es, since, false).1))
}

/// Persistence settings and the recovery they drive.
pub struct PersistenceManager {
    config: PersistenceConfig,
}

impl PersistenceManager {
    pub closed spec fn config_view(&self) -> PersistenceConfig {
        self.config
    }

    /// A manager for the given settings.
    pub fn new(config: PersistenceConfig) -> (m: Self)
        ensures
            m.config_view() == config,
    {
        PersistenceManager { config }
    }

    /// How many of `count` snapshots, oldest first, are to be deleted so
    /// that no more than the configured number are kept.
    pub fn snapshots_to_prune(&self, count: usize) -> (n: usize)
        ensures
            count <= self.config_view().keep_snapshots ==> n == 0,
            count > self.config_view().keep_snapshots ==> n == count - self.config_view().keep_snapshots,
    {
        if count <= self.config.keep_snapshots {
            0
        } else {
            count - self.config.keep_snapshots
        }
    }

    /// The settings the manager works with.
    pub fn config(&self) -> (c: &PersistenceConfig)
        ensures
            *c == self.config_view(),
    {
        &self.config
    }

    /// Replays the log entries read after a snapshot of version
    /// `since_version` onto the database restored from it: the operations of
    /// transactions committed with ids above `since_version` are applied in
    /// order of transaction id, stopping at the first write that fails, and
    /// the version becomes the highest such id. Transactions that neither
    /// commit nor roll back are left out.
    pub fn replay_wal_entries_onto_db(&self, entries: Vec<WalEntry>, since_version: u64, db: &mut Database) -> (res: Result<()>)
        requires
            old(db).wf(),
            forall|q: int| 0 <= q < old(db).tables_view().len() ==> (#[trigger] old(db).tables_view()[q]).id() < 64,
        ensures
            final(db).wf(),
            res is Ok ==> exists|states: Seq<Database>| #[trigger] chain(states, replay_writes(entries@, since_version))
                && states[0] == *old(db) && version_set(states.last(), *final(db), replay_model(entries@, since_version, false).2),
            res is Err ==> exists|i: int, states: Seq<Database>|
                #![trigger chain(states, replay_writes(entries@, since_version).take(i))]
                0 <= i < replay_writes(entries@, since_version).len() && chain(states, replay_writes(entries@, since_version).take(i))
                    && states[0] == *old(db) && write_outcome(states.last(), *final(db), replay_writes(entries@, since_version)[i], res),
    {
        let ghost es = entries@;
        proof {
            lemma_replay_data_only(es, since_version, false);
        }
        let (committed, max_id, _open) = group_committed(entries, since_version);
        let ghost c = committed@;
        let sorted = sort_pairs(committed);
        proof {
            lemma_sort_view(c);
            lemma_sort_by_key(c);
            let st = replay_model(es, since_version, false);
            assert forall|j: int, i: int| #![trigger sorted@[j].1@[i]] 0 <= j < sorted@.len() && 0 <= i < sorted@[j].1@.len()
                implies is_data_op(sorted@[j].1@[i]) by {
                assert(txns_view(sorted@)[j] == (sorted@[j].0, sorted@[j].1@));
                let x = sorted@[j];
                sorted@.to_multiset_ensures();
                assert(sorted@.contains(x));
                assert(sorted@.to_multiset().count(x) > 0);
                assert(c.to_multiset().count(x) > 0);
                c.to_multiset_ensures();
                let jj = choose|jj: int| 0 <= jj < c.len() && c[jj] == x;
                assert(txns_view(c)[jj] == st.1[jj]);
                assert(st.1[jj].1[i] == x.1@[i]);
            }
        }
        let writes = flatten(sorted);
        assert(writes@ == replay_writes(es, since_version));
        let r = apply_in_order(db, &writes);
        match r {
            Ok(()) => {
                let ghost dm = *db;
                let ghost states = choose|states: Seq<Database>| #[trigger] chain(states, writes@) && states[0] == *old(db) && states.last() == dm;
                db.set_version(max_id);
                assert(version_set(states.last(), *db, max_id));
                Ok(())
            },
            Err(e) => Err(e),
        }
    }
}

/// What compaction does with the log entries `es` merged into a snapshot:
/// the writes of every committed transaction, in order of commit.
pub open spec fn compaction_writes(es: Seq<WalEntry>) -> Seq<WriteOpWithoutResponse> {
    flat_writes(replay_model(es, 0, true).1)
}

/// Replays the log entries `entries` onto a database restored from a
/// snapshot of version `version`, as compaction merges them: the operations
/// of every committed transaction are applied in order of commit, stopping
/// at the first write that fails, and the version becomes the highest of
/// `version` and the committed ids. Transactions that roll back or never
/// commit are left out.
pub fn replay_all_committed_onto_db(entries: Vec<WalEntry>, version: u64, db: &mut Database) -> (res: Result<()>)
    requires
        old(db).wf(),
        forall|q: int| 0 <= q < old(db).tables_view().len() ==> (#[trigger] old(db).tables_view()[q]).id() < 64,
    ensures
        final(db).wf(),
        res is Ok ==> exists|states: Seq<Database>| #[trigger] chain(states, compaction_writes(entries@))
            && states[0] == *old(db) && version_set(states.last(), *final(db), replay_model(entries@, version, true).2),
        res is Err ==> exists|i: int, states: Seq<Database>|
            #![trigger chain(states, compaction_writes(entries@).take(i))]
            0 <= i < compaction_writes(entries@).len() && chain(states, compaction_writes(entries@).take(i))
                && states[0] == *old(db) && write_outcome(states.last(), *final(db), compaction_writes(entries@)[i], res),
{
    let ghost es = entries@;
    proof {
        lemma_replay_data_only(es, version, true);
        lemma_gather_start(es, version);
    }
    let (committed, max_id, _open) = group_all_committed(entries, version);
    proof {
        let st = replay_model(es, version, true);
        assert forall|j: int, i: int| #![trigger committed@[j].1@[i]] 0 <= j < committed@.len() && 0 <= i < committed@[j].1@.len()
            implies is_data_op(committed@[j].1@[i]) by {
            assert(txns_view(committed@)[j] == st.1[j]);
            assert(st.1[j].1[i] == committed@[j].1@[i]);
        }
    }
    let writes = flatten(committed);
    assert(writes@ == compaction_writes(es));
    let r = apply_in_order(db, &writes);
    match r {
        Ok(()) => {
            let ghost dm = *db;
            let ghost states = choose|states: Seq<Database>| #[trigger] chain(states, writes@) && states[0] == *old(db) && states.last() == dm;
            db.set_version(max_id);
            assert(version_set(states.last(), *db, max_id));
            Ok(())
        },
        Err(e) => Err(e),
    }
}

/// When every entry counts, the starting id plays no part in what is
/// gathered, only in the highest id.
proof fn lemma_gather_start(es: Seq<WalEntry>, version: u64)
    ensures
        replay_model(es, version, true).1 == replay_model(es, 0, true).1,
        replay_model(es, version, true).0 == replay_model(es, 0, true).0,
    decreases es.len(),
{
    if es.len() > 0 {
        lemma_gather_start(es.drop_last(), version);
    }
}

} // verus!
