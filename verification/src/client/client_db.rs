use crate::client::error::ClientError;
use crate::schema::types::DatabaseSchema;
use crate::storage::delta::{Delta, DeltaOp, OpView};
use crate::text::owned;
use std::collections::{HashMap, HashSet};
use vstd::prelude::*;

verus! {

broadcast use vstd::std_specs::hash::group_hash_axioms;

/// What a client knows: each table's records by entity, and the entities.
pub type ClientModel = (Map<u16, Map<u64, Seq<u8>>>, Set<u64>);

/// The client's knowledge after one change.
pub open spec fn apply_op_model(st: ClientModel, op: OpView) -> ClientModel {
    let (tables, entities) = st;
    match op {
        OpView::Insert { table_id, entity_id, data } => {
            let t = if tables.contains_key(table_id) { tables[table_id] } else { Map::empty() };
            (tables.insert(table_id, t.insert(entity_id, data)), entities.insert(entity_id))
        },
        OpView::Update { table_id, entity_id, new_data, .. } => if tables.contains_key(table_id) {
            (tables.insert(table_id, tables[table_id].insert(entity_id, new_data)), entities)
        } else {
            st
        },
        OpView::Delete { table_id, entity_id, .. } => if tables.contains_key(table_id) {
            (tables.insert(table_id, tables[table_id].remove(entity_id)), entities)
        } else {
            st
        },
        OpView::CreateEntity { entity_id } => (tables, entities.insert(entity_id)),
        OpView::DeleteEntity { entity_id } => (
            Map::new(|t: u16| tables.contains_key(t), |t: u16| tables[t].remove(entity_id)),
            entities.remove(entity_id),
        ),
    }
}

/// The client's knowledge after the changes `ops`, in order.
pub open spec fn apply_ops_model(st: ClientModel, ops: Seq<OpView>) -> ClientModel
    decreases ops.len(),
{
    if ops.len() == 0 {
        st
    } else {
        apply_op_model(apply_ops_model(st, ops.drop_last()), ops.last())
    }
}

/// A table's records as plain bytes.
pub open spec fn records_view(m: Map<u64, Vec<u8>>) -> Map<u64, Seq<u8>> {
    Map::new(|e: u64| m.contains_key(e), |e: u64| m[e]@)
}

/// The tables of `v` by id.
pub open spec fn tables_view(v: Seq<(u16, HashMap<u64, Vec<u8>>)>) -> Map<u16, Map<u64, Seq<u8>>> {
    Map::new(
        |t: u16| exists|i: int| 0 <= i < v.len() && #[trigger] v[i].0 == t,
        |t: u16| records_view(v[choose|i: int| 0 <= i < v.len() && #[trigger] v[i].0 == t].1@),
    )
}

/// No table id occurs twice.
pub open spec fn ids_distinct(v: Seq<(u16, HashMap<u64, Vec<u8>>)>) -> bool {
    forall|i: int, j: int| 0 <= i < j < v.len() ==> #[trigger] v[i].0 != #[trigger] v[j].0
}

/// The client-side mirror of the database.
pub struct ClientDB {
    schema: DatabaseSchema,
    tables: Vec<(u16, HashMap<u64, Vec<u8>>)>,
    entities: HashSet<u64>,
    version: u64,
}

impl ClientDB {
    /// What the client knows.
    pub closed spec fn model(&self) -> ClientModel {
        (tables_view(self.tables@), self.entities@)
    }

    /// The schema the mirror holds.
    pub closed spec fn schema_view(&self) -> DatabaseSchema {
        self.schema
    }

    /// The version of the last delta applied.
    pub closed spec fn current_version(&self) -> u64 {
        self.version
    }

    pub closed spec fn wf(&self) -> bool {
        ids_distinct(self.tables@)
    }

    /// An empty mirror with an empty schema.
    pub fn new() -> (c: Self)
        ensures
            c.wf(),
            c.model().0 == Map::<u16, Map<u64, Seq<u8>>>::empty(),
            c.model().1 == Set::<u64>::empty(),
            c.current_version() == 0,
    {
        let c = ClientDB {
            schema: DatabaseSchema {
                name: String::new(),
                version: String::new(),
                tables: Vec::new(),
                enums: Vec::new(),
                custom_types: Vec::new(),
            },
            tables: Vec::new(),
            entities: HashSet::new(),
            version: 0,
        };
        assert(tables_view(c.tables@) =~= Map::<u16, Map<u64, Seq<u8>>>::empty());
        c
    }

    fn find(&self, table_id: u16) -> (r: Option<usize>)
        requires
            self.wf(),
        ensures
            match r {
                Some(i) => i < self.tables@.len() && self.tables@[i as int].0 == table_id,
                None => forall|i: int| 0 <= i < self.tables@.len() ==> self.tables@[i].0 != table_id,
            },
    {
        let mut i: usize = 0;
        while i < self.tables.len()
            invariant
                i <= self.tables@.len(),
                forall|k: int| 0 <= k < i ==> self.tables@[k].0 != table_id,
            decreases self.tables@.len() - i,
        {
            if self.tables[i].0 == table_id {
                return Some(i);
            }
            i += 1;
        }
        None
    }

    proof fn lemma_view_at(v: Seq<(u16, HashMap<u64, Vec<u8>>)>, i: int)
        requires
            ids_distinct(v),
            0 <= i < v.len(),
        ensures
            tables_view(v).contains_key(v[i].0),
            tables_view(v)[v[i].0] == records_view(v[i].1@),
    {
        let c = choose|k: int| 0 <= k < v.len() && #[trigger] v[k].0 == v[i].0;
        assert(c == i);
    }

    /// Replaces table `i`'s records with `m`.
    fn put(&mut self, i: usize, m: HashMap<u64, Vec<u8>>)
        requires
            old(self).wf(),
            i < old(self).tables@.len(),
        ensures
            final(self).wf(),
            final(self).model().1 == old(self).model().1,
            final(self).current_version() == old(self).current_version(),
            final(self).model().0 == old(self).model().0.insert(old(self).tables@[i as int].0, records_view(m@)),
            final(self).tables@.len() == old(self).tables@.len(),
            forall|k: int| 0 <= k < final(self).tables@.len() ==> (#[trigger] final(self).tables@[k]).0 == old(self).tables@[k].0,
    {
        let ghost v0 = self.tables@;
        let id = self.tables[i].0;
        self.tables.set(i, (id, m));
        proof {
            let v1 = self.tables@;
            assert forall|a: int, b: int| 0 <= a < b < v1.len() implies #[trigger] v1[a].0 != #[trigger] v1[b].0 by {
                assert(v1[a].0 == v0[a].0 && v1[b].0 == v0[b].0);
            }
            assert forall|t: u16| #[trigger] tables_view(v1).contains_key(t) == tables_view(v0).insert(id, records_view(m@)).contains_key(t) by {
                if exists|k: int| 0 <= k < v0.len() && #[trigger] v0[k].0 == t {
                    let k = choose|k: int| 0 <= k < v0.len() && #[trigger] v0[k].0 == t;
                    assert(v1[k].0 == t);
                }
                if exists|k: int| 0 <= k < v1.len() && #[trigger] v1[k].0 == t {
                    let k = choose|k: int| 0 <= k < v1.len() && #[trigger] v1[k].0 == t;
                    assert(v0[k].0 == t);
                }
            }
            assert forall|t: u16| tables_view(v1).contains_key(t) implies #[trigger] tables_view(v1)[t] == tables_view(v0).insert(id, records_view(m@))[t] by {
                let k = choose|k: int| 0 <= k < v1.len() && #[trigger] v1[k].0 == t;
                Self::lemma_view_at(v1, k);
                if k != i {
                    assert(v0[k] == v1[k]);
                    Self::lemma_view_at(v0, k);
                }
            }
            assert(tables_view(v1) =~= tables_view(v0).insert(id, records_view(m@)));
        }
    }

    fn apply_op(&mut self, op: DeltaOp)
        requires
            old(self).wf(),
        ensures
            final(self).wf(),
            final(self).model() == apply_op_model(old(self).model(), op@),
            final(self).current_version() == old(self).current_version(),
    {
        let ghost st = self.model();
        match op {
            DeltaOp::Insert { table_id, entity_id, data } => {
                match self.find(table_id) {
                    Some(i) => {
                        proof { Self::lemma_view_at(self.tables@, i as int); }
                        let mut m = self.tables[i].1.clone();
                        let ghost before = m@;
                        m.insert(entity_id, data);
                        assert(records_view(m@) =~= records_view(before).insert(entity_id, data@));
                        self.put(i, m);
                    },
                    None => {
                        let ghost v0 = self.tables@;
                        let mut m: HashMap<u64, Vec<u8>> = HashMap::new();
                        m.insert(entity_id, data);
                        self.tables.push((table_id, m));
                        proof {
                            let v1 = self.tables@;
                            assert(records_view(m@) =~= Map::<u64, Seq<u8>>::empty().insert(entity_id, data@));
                            assert(!tables_view(v0).contains_key(table_id));
                            assert forall|t: u16| #[trigger] tables_view(v1).contains_key(t) == tables_view(v0).insert(table_id, records_view(m@)).contains_key(t) by {
                                if exists|k: int| 0 <= k < v0.len() && #[trigger] v0[k].0 == t {
                                    let k = choose|k: int| 0 <= k < v0.len() && #[trigger] v0[k].0 == t;
                                    assert(v1[k].0 == t);
                                }
                                if t == table_id {
                                    assert(v1[v0.len() as int].0 == t);
                                }
                            }
                            assert forall|t: u16| tables_view(v1).contains_key(t) implies #[trigger] tables_view(v1)[t] == tables_view(v0).insert(table_id, records_view(m@))[t] by {
                                let k = choose|k: int| 0 <= k < v1.len() && #[trigger] v1[k].0 == t;
                                Self::lemma_view_at(v1, k);
                                if k < v0.len() {
                                    assert(v0[k] == v1[k]);
                                    Self::lemma_view_at(v0, k);
                                }
                            }
                            assert(tables_view(v1) =~= tables_view(v0).insert(table_id, records_view(m@)));
                        }
                    },
                }
                self.entities.insert(entity_id);
            },
            DeltaOp::Update { table_id, entity_id, new_data, .. } => {
                match self.find(table_id) {
                    Some(i) => {
                        proof { Self::lemma_view_at(self.tables@, i as int); }
                        let mut m = self.tables[i].1.clone();
                        let ghost before = m@;
                        m.insert(entity_id, new_data);
                        assert(records_view(m@) =~= records_view(before).insert(entity_id, new_data@));
                        self.put(i, m);
                    },
                    None => {},
                }
            },
            DeltaOp::Delete { table_id, entity_id, .. } => {
                match self.find(table_id) {
                    Some(i) => {
                        proof { Self::lemma_view_at(self.tables@, i as int); }
                        let mut m = self.tables[i].1.clone();
                        let ghost before = m@;
                        m.remove(&entity_id);
                        assert(records_view(m@) =~= records_view(before).remove(entity_id));
                        self.put(i, m);
                    },
                    None => {},
                }
            },
            DeltaOp::CreateEntity { entity_id } => {
                self.entities.insert(entity_id);
            },
            DeltaOp::DeleteEntity { entity_id } => {
                self.entities.remove(&entity_id);
                let ghost t0 = self.model().0;
                let n = self.tables.len();
                let mut i: usize = 0;
                while i < n
                    invariant
                        self.wf(),
                        i <= n,
                        n == self.tables@.len(),
                        self.model().1 == st.1.remove(entity_id),
                        self.current_version() == old(self).current_version(),
                        t0 == st.0,
                        self.model().0.dom() == t0.dom(),
                        forall|k: int| 0 <= k < n ==> (#[trigger] self.tables@[k]).0 == old(self).tables@[k].0,
                        forall|k: int| 0 <= k < i ==> self.model().0[#[trigger] self.tables@[k].0] == t0[self.tables@[k].0].remove(entity_id),
                        forall|k: int| i <= k < n ==> self.model().0[#[trigger] self.tables@[k].0] == t0[self.tables@[k].0],
                    decreases n - i,
                {
                    proof { Self::lemma_view_at(self.tables@, i as int); }
                    let ghost v0 = self.tables@;
                    let mut m = self.tables[i].1.clone();
                    let ghost before = m@;
                    m.remove(&entity_id);
                    assert(records_view(m@) =~= records_view(before).remove(entity_id));
                    self.put(i, m);
                    proof {
                        assert forall|k: int| 0 <= k < n && k != i implies self.tables@[k].0 != v0[i as int].0 by {
                            if k < i { assert(v0[k].0 != v0[i as int].0); } else { assert(v0[i as int].0 != v0[k].0); }
                        }
                    }
                    i += 1;
                }
                proof {
                    let want = Map::new(|t: u16| t0.contains_key(t), |t: u16| t0[t].remove(entity_id));
                    assert forall|t: u16| #[trigger] self.model().0.contains_key(t) implies self.model().0[t] == want[t] by {
                        let k = choose|k: int| 0 <= k < self.tables@.len() && #[trigger] self.tables@[k].0 == t;
                    }
                    assert(self.model().0 =~= want);
                }
            },
        }
    }

    /// Applies a delta from the server: each change in order, then the
    /// delta's version.
    pub fn apply_delta(&mut self, delta: Delta) -> (res: Result<(), ClientError>)
        requires
            old(self).wf(),
        ensures
            res is Ok,
            final(self).wf(),
            final(self).model() == apply_ops_model(old(self).model(), crate::storage::delta::ops_view(delta.ops@)),
            final(self).current_version() == delta.version,
    {
        let ghost ops = crate::storage::delta::ops_view(delta.ops@);
        let ghost st0 = self.model();
        let Delta { ops: list, version, timestamp: _ } = delta;
        let ghost all = list@;
        let mut rest = list;
        let n = rest.len();
        let mut k: usize = 0;
        assert(crate::storage::delta::ops_view(all.take(0)) =~= Seq::<OpView>::empty());
        while k < n
            invariant
                self.wf(),
                k <= n,
                n == all.len(),
                rest@ == all.skip(k as int),
                ops == crate::storage::delta::ops_view(all),
                self.model() == apply_ops_model(st0, crate::storage::delta::ops_view(all.take(k as int))),
            decreases n - k,
        {
            let op = rest.remove(0);
            proof {
                assert(op == all[k as int]);
                let o1 = crate::storage::delta::ops_view(all.take(k + 1int));
                assert(o1.drop_last() =~= crate::storage::delta::ops_view(all.take(k as int)));
                assert(o1.last() == op@);
            }
            self.apply_op(op);
            k += 1;
            assert(rest@ =~= all.skip(k as int));
        }
        assert(all.take(n as int) =~= all);
        self.version = version;
        Ok(())
    }

    /// The bytes stored for an entity in a table.
    pub fn get(&self, table_id: u16, entity_id: u64) -> (res: Result<Vec<u8>, ClientError>)
        requires
            self.wf(),
        ensures
            match res {
                Ok(v) => self.model().0.contains_key(table_id) && self.model().0[table_id].contains_key(entity_id)
                    && v@ == self.model().0[table_id][entity_id],
                Err(e) => (e matches ClientError::ComponentNotFound { entity_id: x, .. } && x == entity_id)
                    && !(self.model().0.contains_key(table_id) && self.model().0[table_id].contains_key(entity_id)),
            },
    {
        match self.find(table_id) {
            Some(i) => {
                proof { Self::lemma_view_at(self.tables@, i as int); }
                match self.tables[i].1.get(&entity_id) {
                    Some(v) => Ok(crate::storage::buffer::copy_bytes(v)),
                    None => Err(ClientError::ComponentNotFound { entity_id, component_type: owned("component") }),
                }
            },
            None => Err(ClientError::ComponentNotFound { entity_id, component_type: owned("component") }),
        }
    }

    /// Whether the client knows the entity.
    pub fn contains_entity(&self, entity_id: u64) -> (b: bool)
        ensures
            b == self.model().1.contains(entity_id),
    {
        self.entities.contains(&entity_id)
    }

    /// The version of the last delta applied.
    pub fn version(&self) -> (v: u64)
        ensures
            v == self.current_version(),
    {
        self.version
    }

    /// The schema the mirror holds.
    pub fn schema(&self) -> (s: &DatabaseSchema)
        ensures
            *s == self.schema_view(),
    {
        &self.schema
    }
}

impl Default for ClientDB {
    fn default() -> (c: Self)
        ensures
            c.wf(),
            c.model().0 == Map::<u16, Map<u64, Seq<u8>>>::empty(),
            c.model().1 == Set::<u64>::empty(),
            c.current_version() == 0,
    {
        ClientDB::new()
    }
}

/// Whether `op` writes a record of entity `e` into table `t`.
pub open spec fn writes_record(op: OpView, t: u16, e: u64) -> bool {
    ||| op matches OpView::Insert { table_id, entity_id, .. } && table_id == t && entity_id == e
    ||| op matches OpView::Update { table_id, entity_id, .. } && table_id == t && entity_id == e
}

/// After changes in which a delete of entity `e` from table `t` comes after
/// every insert or update of that record, the client holds no record of
/// `e` in `t`, so `get(t, e)` reports the component as not found.
pub proof fn law_delete_removes_record(st: ClientModel, ops: Seq<OpView>, i: int, t: u16, e: u64)
    requires
        0 <= i < ops.len(),
        ops[i] matches OpView::Delete { table_id, entity_id, .. } && table_id == t && entity_id == e,
        forall|j: int| i < j < ops.len() ==> !writes_record(#[trigger] ops[j], t, e),
    ensures
        ({
            let tables = apply_ops_model(st, ops).0;
            !(tables.contains_key(t) && tables[t].contains_key(e))
        }),
    decreases ops.len(),
{
    let before = apply_ops_model(st, ops.drop_last()).0;
    if i == ops.len() - 1 {
        if before.contains_key(t) {
            assert(!before[t].remove(e).contains_key(e));
        }
    } else {
        assert forall|j: int| i < j < ops.drop_last().len() implies !writes_record(#[trigger] ops.drop_last()[j], t, e) by {
            assert(ops.drop_last()[j] == ops[j]);
            assert(!writes_record(ops[j], t, e));
        }
        assert(ops.drop_last()[i] == ops[i]);
        law_delete_removes_record(st, ops.drop_last(), i, t, e);
        assert(!writes_record(ops[ops.len() - 1], t, e));
        let after = apply_ops_model(st, ops).0;
        match ops.last() {
            OpView::DeleteEntity { entity_id } => {
                if after.contains_key(t) {
                    assert(after[t] == before[t].remove(entity_id));
                }
            },
            _ => {},
        }
    }
}

/// Whether `op` changes or removes the record of entity `e` in table `t`.
pub open spec fn touches_record(op: OpView, t: u16, e: u64) -> bool {
    ||| writes_record(op, t, e)
    ||| op matches OpView::Delete { table_id, entity_id, .. } && table_id == t && entity_id == e
    ||| op matches OpView::DeleteEntity { entity_id } && entity_id == e
}

/// After changes in which an insert of `data` for entity `e` into table
/// `t` is the last change to touch that record, the client holds `data` as
/// that record, so `get(t, e)` gives it back, and it knows the entity.
pub proof fn law_insert_then_get(st: ClientModel, ops: Seq<OpView>, i: int, t: u16, e: u64, data: Seq<u8>)
    requires
        0 <= i < ops.len(),
        ops[i] == (OpView::Insert { table_id: t, entity_id: e, data }),
        forall|j: int| i < j < ops.len() ==> !touches_record(#[trigger] ops[j], t, e),
    ensures
        ({
            let tables = apply_ops_model(st, ops).0;
            tables.contains_key(t) && tables[t].contains_key(e) && tables[t][e] == data
        }),
    decreases ops.len(),
{
    let before = apply_ops_model(st, ops.drop_last()).0;
    if i < ops.len() - 1 {
        assert forall|j: int| i < j < ops.drop_last().len() implies !touches_record(#[trigger] ops.drop_last()[j], t, e) by {
            assert(ops.drop_last()[j] == ops[j]);
            assert(!touches_record(ops[j], t, e));
        }
        assert(ops.drop_last()[i] == ops[i]);
        law_insert_then_get(st, ops.drop_last(), i, t, e, data);
        assert(!touches_record(ops[ops.len() - 1], t, e));
        let after = apply_ops_model(st, ops).0;
        match ops.last() {
            OpView::DeleteEntity { entity_id } => {
                assert(after[t] == before[t].remove(entity_id));
            },
            _ => {},
        }
    }
}

} // verus!
