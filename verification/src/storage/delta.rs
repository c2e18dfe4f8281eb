use crate::codec::owned_bytes;
use crate::storage::buffer::copy_bytes;
use std::collections::HashMap;
use vstd::prelude::*;

verus! {

broadcast use vstd::std_specs::hash::group_hash_axioms;

/// A single change to a component table or to the set of entities.
#[derive(Debug, Clone)]
pub enum DeltaOp {
    Insert { table_id: u16, entity_id: u64, data: Vec<u8> },
    Update {
        table_id: u16,
        entity_id: u64,
        field_offset: usize,
        old_data: Vec<u8>,
        new_data: Vec<u8>,
    },
    Delete { table_id: u16, entity_id: u64, old_data: Vec<u8> },
    CreateEntity { entity_id: u64 },
    DeleteEntity { entity_id: u64 },
}

/// A change as plain values.
pub enum OpView {
    Insert { table_id: u16, entity_id: u64, data: Seq<u8> },
    Update {
        table_id: u16,
        entity_id: u64,
        field_offset: usize,
        old_data: Seq<u8>,
        new_data: Seq<u8>,
    },
    Delete { table_id: u16, entity_id: u64, old_data: Seq<u8> },
    CreateEntity { entity_id: u64 },
    DeleteEntity { entity_id: u64 },
}

impl View for DeltaOp {
    type V = OpView;

    open spec fn view(&self) -> OpView {
        match *self {
            DeltaOp::Insert { table_id, entity_id, data } => OpView::Insert {
                table_id,
                entity_id,
                data: data@,
            },
            DeltaOp::Update { table_id, entity_id, field_offset, old_data, new_data } => OpView::Update {
                table_id,
                entity_id,
                field_offset,
                old_data: old_data@,
                new_data: new_data@,
            },
            DeltaOp::Delete { table_id, entity_id, old_data } => OpView::Delete {
                table_id,
                entity_id,
                old_data: old_data@,
            },
            DeltaOp::CreateEntity { entity_id } => OpView::CreateEntity { entity_id },
            DeltaOp::DeleteEntity { entity_id } => OpView::DeleteEntity { entity_id },
        }
    }
}

/// The changes of a sequence, as plain values.
pub open spec fn ops_view(s: Seq<DeltaOp>) -> Seq<OpView> {
    s.map_values(|o: DeltaOp| o@)
}

/// `op` inserts `data` for `entity_id` into table `table_id`.
pub open spec fn is_insert(op: DeltaOp, table_id: u16, entity_id: u64, data: Seq<u8>) -> bool {
    op matches DeltaOp::Insert { table_id: t, entity_id: e, data: d } && t == table_id
        && e == entity_id && d@ == data
}

/// `op` replaces `old_data` by `new_data` at `field_offset`.
pub open spec fn is_update(
    op: DeltaOp,
    table_id: u16,
    entity_id: u64,
    field_offset: usize,
    old_data: Seq<u8>,
    new_data: Seq<u8>,
) -> bool {
    op matches DeltaOp::Update { table_id: t, entity_id: e, field_offset: f, old_data: o, new_data: n }
        && t == table_id && e == entity_id && f == field_offset && o@ == old_data && n@ == new_data
}

/// `op` deletes the component `old_data` of `entity_id` from table `table_id`.
pub open spec fn is_delete(op: DeltaOp, table_id: u16, entity_id: u64, old_data: Seq<u8>) -> bool {
    op matches DeltaOp::Delete { table_id: t, entity_id: e, old_data: o } && t == table_id
        && e == entity_id && o@ == old_data
}

/// The changes of one transaction, in the order they were made.
#[derive(Debug, Clone)]
pub struct Delta {
    pub ops: Vec<DeltaOp>,
    pub version: u64,
    /// Microseconds since the epoch when the transaction committed.
    pub timestamp: u64,
}

impl Delta {
    /// An empty delta for `version`.
    pub fn new(version: u64, timestamp: u64) -> (d: Self)
        ensures
            d.ops@ == Seq::<DeltaOp>::empty(),
            d.version == version,
            d.timestamp == timestamp,
    {
        Delta { ops: Vec::new(), version, timestamp }
    }

    /// Appends a change.
    pub fn push(&mut self, op: DeltaOp)
        ensures
            final(self).ops@ == old(self).ops@.push(op),
            final(self).version == old(self).version,
            final(self).timestamp == old(self).timestamp,
    {
        self.ops.push(op);
    }

    /// Whether the delta holds no change.
    pub fn is_empty(&self) -> (b: bool)
        ensures
            b == (self.ops@.len() == 0),
    {
        self.ops.len() == 0
    }
}

/// A copy of a change.
pub fn copy_op(op: &DeltaOp) -> (r: DeltaOp)
    ensures
        r@ == op@,
{
    match op {
        DeltaOp::Insert { table_id, entity_id, data } => DeltaOp::Insert {
            table_id: *table_id,
            entity_id: *entity_id,
            data: copy_bytes(data),
        },
        DeltaOp::Update { table_id, entity_id, field_offset, old_data, new_data } => DeltaOp::Update {
            table_id: *table_id,
            entity_id: *entity_id,
            field_offset: *field_offset,
            old_data: copy_bytes(old_data),
            new_data: copy_bytes(new_data),
        },
        DeltaOp::Delete { table_id, entity_id, old_data } => DeltaOp::Delete {
            table_id: *table_id,
            entity_id: *entity_id,
            old_data: copy_bytes(old_data),
        },
        DeltaOp::CreateEntity { entity_id } => DeltaOp::CreateEntity { entity_id: *entity_id },
        DeltaOp::DeleteEntity { entity_id } => DeltaOp::DeleteEntity { entity_id: *entity_id },
    }
}

/// Two deltas carry the same changes, version and timestamp.
pub open spec fn same_delta(a: Delta, b: Delta) -> bool {
    ops_view(a.ops@) == ops_view(b.ops@) && a.version == b.version && a.timestamp == b.timestamp
}

/// A copy of a delta.
pub fn copy_delta(d: &Delta) -> (r: Delta)
    ensures
        same_delta(r, *d),
{
    let mut ops: Vec<DeltaOp> = Vec::new();
    let mut i: usize = 0;
    while i < d.ops.len()
        invariant
            i <= d.ops@.len(),
            ops_view(ops@) == ops_view(d.ops@).take(i as int),
        decreases d.ops@.len() - i,
    {
        let ghost before = ops@;
        let c = copy_op(&d.ops[i]);
        ops.push(c);
        assert(ops_view(ops@) =~= ops_view(before).push(c@));
        i += 1;
        assert(ops_view(ops@) =~= ops_view(d.ops@).take(i as int));
    }
    assert(ops_view(d.ops@).take(d.ops@.len() as int) =~= ops_view(d.ops@));
    Delta { ops, version: d.version, timestamp: d.timestamp }
}

impl Default for Delta {
    fn default() -> (d: Self)
        ensures
            d.ops@ == Seq::<DeltaOp>::empty(),
            d.version == 0,
            d.timestamp == 0,
    {
        Delta::new(0, 0)
    }
}

/// The key under which the before-image of a component is kept.
pub open spec fn image_key(table_id: u16, entity_id: u64) -> u128 {
    (table_id as int * 0x1_0000_0000_0000_0000 + entity_id as int) as u128
}

/// Distinct (table, entity) pairs have distinct keys.
pub proof fn lemma_image_key_injective(t1: u16, e1: u64, t2: u16, e2: u64)
    ensures
        image_key(t1, e1) == image_key(t2, e2) ==> t1 == t2 && e1 == e2,
{
    let k1 = t1 as int * 0x1_0000_0000_0000_0000 + e1 as int;
    let k2 = t2 as int * 0x1_0000_0000_0000_0000 + e2 as int;
    assert(0 <= k1 < 0x1_0000_0000_0000_0000_0000) by (nonlinear_arith)
        requires
            k1 == t1 as int * 0x1_0000_0000_0000_0000 + e1 as int,
            0 <= t1 < 0x1_0000,
            0 <= e1 < 0x1_0000_0000_0000_0000,
    ;
    assert(0 <= k2 < 0x1_0000_0000_0000_0000_0000) by (nonlinear_arith)
        requires
            k2 == t2 as int * 0x1_0000_0000_0000_0000 + e2 as int,
            0 <= t2 < 0x1_0000,
            0 <= e2 < 0x1_0000_0000_0000_0000,
    ;
    if k1 == k2 {
        assert(t1 == t2 && e1 == e2) by (nonlinear_arith)
            requires
                t1 as int * 0x1_0000_0000_0000_0000 + e1 as int == t2 as int * 0x1_0000_0000_0000_0000
                    + e2 as int,
                0 <= e1 < 0x1_0000_0000_0000_0000,
                0 <= e2 < 0x1_0000_0000_0000_0000,
        ;
    }
}

fn key_of(table_id: u16, entity_id: u64) -> (k: u128)
    ensures
        k == image_key(table_id, entity_id),
{
    assert((table_id as int) * 0x1_0000_0000_0000_0000 + entity_id as int <= 0xffff_ffff_ffff_ffff_ffff_ffff) by (nonlinear_arith)
        requires
            0 <= table_id < 0x1_0000,
            0 <= entity_id < 0x1_0000_0000_0000_0000,
    ;
    (table_id as u128) * 0x1_0000_0000_0000_0000u128 + (entity_id as u128)
}

/// Component values keyed by table and entity.
pub struct ComponentMap {
    map: HashMap<u128, Vec<u8>>,
}

impl ComponentMap {
    /// The value kept for a component, if any.
    pub closed spec fn value(&self, table_id: u16, entity_id: u64) -> Option<Seq<u8>> {
        if self.map@.contains_key(image_key(table_id, entity_id)) {
            Some(self.map@[image_key(table_id, entity_id)]@)
        } else {
            None
        }
    }

    /// An empty map.
    pub fn new() -> (m: Self)
        ensures
            forall|a: u16, b: u64| #[trigger] m.value(a, b) is None,
    {
        ComponentMap { map: HashMap::new() }
    }

    /// Keeps `data` for a component, replacing any earlier value.
    pub fn insert(&mut self, table_id: u16, entity_id: u64, data: Vec<u8>)
        ensures
            final(self).value(table_id, entity_id) == Some(data@),
            forall|a: u16, b: u64|
                (a != table_id || b != entity_id) ==> #[trigger] final(self).value(a, b) == old(
                    self,
                ).value(a, b),
    {
        self.map.insert(key_of(table_id, entity_id), data);
        assert forall|a: u16, b: u64| (a != table_id || b != entity_id) implies #[trigger] self.value(
            a,
            b,
        ) == old(self).value(a, b) by {
            lemma_image_key_injective(a, b, table_id, entity_id);
        }
    }

    /// The value kept for a component, if any.
    pub fn get(&self, table_id: u16, entity_id: u64) -> (r: Option<&Vec<u8>>)
        ensures
            r matches Some(v) ==> self.value(table_id, entity_id) == Some(v@),
            r is None ==> self.value(table_id, entity_id) is None,
    {
        self.map.get(&key_of(table_id, entity_id))
    }

    /// Whether a value is kept for a component.
    pub fn contains(&self, table_id: u16, entity_id: u64) -> (b: bool)
        ensures
            b == self.value(table_id, entity_id) is Some,
    {
        self.map.contains_key(&key_of(table_id, entity_id))
    }

    /// Drops every value.
    pub fn clear(&mut self)
        ensures
            forall|a: u16, b: u64| #[trigger] final(self).value(a, b) is None,
    {
        self.map.clear();
    }
}

/// Records the changes of one transaction, and the component values before
/// they were changed.
pub struct DeltaTracker {
    delta: Delta,
    before_images: ComponentMap,
}

impl DeltaTracker {
    /// The changes recorded so far.
    pub closed spec fn pending(&self) -> Delta {
        self.delta
    }

    /// The before-image kept for a component, if any.
    pub closed spec fn image(&self, table_id: u16, entity_id: u64) -> Option<Seq<u8>> {
        self.before_images.value(table_id, entity_id)
    }

    /// A tracker for the transaction that will have `version`.
    pub fn new(version: u64, timestamp: u64) -> (t: Self)
        ensures
            t.pending().ops@ == Seq::<DeltaOp>::empty(),
            t.pending().version == version,
            t.pending().timestamp == timestamp,
            forall|a: u16, b: u64| #[trigger] t.image(a, b) is None,
    {
        DeltaTracker { delta: Delta::new(version, timestamp), before_images: ComponentMap::new() }
    }

    /// Records an insert.
    pub fn record_insert(&mut self, table_id: u16, entity_id: u64, data: &[u8])
        ensures
            final(self).pending().ops@.len() == old(self).pending().ops@.len() + 1,
            final(self).pending().ops@.drop_last() == old(self).pending().ops@,
            is_insert(final(self).pending().ops@.last(), table_id, entity_id, data@),
            final(self).pending().version == old(self).pending().version,
            final(self).pending().timestamp == old(self).pending().timestamp,
            forall|a: u16, b: u64| #[trigger] final(self).image(a, b) == old(self).image(a, b),
    {
        let op = DeltaOp::Insert { table_id, entity_id, data: owned_bytes(data) };
        self.delta.push(op);
        assert(self.delta.ops@.drop_last() =~= old(self).delta.ops@);
    }

    /// Records an update; `old_data` and `new_data` are the values before and
    /// after, from `field_offset` on.
    pub fn record_update(
        &mut self,
        table_id: u16,
        entity_id: u64,
        field_offset: usize,
        old_data: &[u8],
        new_data: &[u8],
    )
        ensures
            final(self).pending().ops@.len() == old(self).pending().ops@.len() + 1,
            final(self).pending().ops@.drop_last() == old(self).pending().ops@,
            is_update(
                final(self).pending().ops@.last(),
                table_id,
                entity_id,
                field_offset,
                old_data@,
                new_data@,
            ),
            final(self).pending().version == old(self).pending().version,
            final(self).pending().timestamp == old(self).pending().timestamp,
            forall|a: u16, b: u64| #[trigger] final(self).image(a, b) == old(self).image(a, b),
    {
        let op = DeltaOp::Update {
            table_id,
            entity_id,
            field_offset,
            old_data: owned_bytes(old_data),
            new_data: owned_bytes(new_data),
        };
        self.delta.push(op);
        assert(self.delta.ops@.drop_last() =~= old(self).delta.ops@);
    }

    /// Records a delete; `old_data` is the value deleted.
    pub fn record_delete(&mut self, table_id: u16, entity_id: u64, old_data: &[u8])
        ensures
            final(self).pending().ops@.len() == old(self).pending().ops@.len() + 1,
            final(self).pending().ops@.drop_last() == old(self).pending().ops@,
            is_delete(final(self).pending().ops@.last(), table_id, entity_id, old_data@),
            final(self).pending().version == old(self).pending().version,
            final(self).pending().timestamp == old(self).pending().timestamp,
            forall|a: u16, b: u64| #[trigger] final(self).image(a, b) == old(self).image(a, b),
    {
        let op = DeltaOp::Delete { table_id, entity_id, old_data: owned_bytes(old_data) };
        self.delta.push(op);
        assert(self.delta.ops@.drop_last() =~= old(self).delta.ops@);
    }

    /// Records the creation of an entity.
    pub fn record_create_entity(&mut self, entity_id: u64)
        ensures
            final(self).pending().ops@ == old(self).pending().ops@.push(
                DeltaOp::CreateEntity { entity_id },
            ),
            final(self).pending().version == old(self).pending().version,
            final(self).pending().timestamp == old(self).pending().timestamp,
            forall|a: u16, b: u64| #[trigger] final(self).image(a, b) == old(self).image(a, b),
    {
        self.delta.push(DeltaOp::CreateEntity { entity_id });
    }

    /// Records the deletion of an entity.
    pub fn record_delete_entity(&mut self, entity_id: u64)
        ensures
            final(self).pending().ops@ == old(self).pending().ops@.push(
                DeltaOp::DeleteEntity { entity_id },
            ),
            final(self).pending().version == old(self).pending().version,
            final(self).pending().timestamp == old(self).pending().timestamp,
            forall|a: u16, b: u64| #[trigger] final(self).image(a, b) == old(self).image(a, b),
    {
        self.delta.push(DeltaOp::DeleteEntity { entity_id });
    }

    /// Hands out the recorded delta and leaves an empty one with version and
    /// timestamp zero in its place.
    pub fn take_delta(&mut self) -> (d: Delta)
        ensures
            d == old(self).pending(),
            final(self).pending().ops@ == Seq::<DeltaOp>::empty(),
            final(self).pending().version == 0,
            final(self).pending().timestamp == 0,
            forall|a: u16, b: u64| #[trigger] final(self).image(a, b) == old(self).image(a, b),
    {
        let mut d = Delta::default();
        std::mem::swap(&mut d, &mut self.delta);
        d
    }

    /// Keeps `data` as the before-image of a component, replacing any earlier one.
    pub fn store_before_image(&mut self, table_id: u16, entity_id: u64, data: Vec<u8>)
        ensures
            final(self).image(table_id, entity_id) == Some(data@),
            forall|a: u16, b: u64|
                (a != table_id || b != entity_id) ==> #[trigger] final(self).image(a, b) == old(
                    self,
                ).image(a, b),
            final(self).pending() == old(self).pending(),
    {
        self.before_images.insert(table_id, entity_id, data);
    }

    /// A copy of the before-image of a component, if one is kept.
    pub fn get_before_image(&self, table_id: u16, entity_id: u64) -> (r: Option<Vec<u8>>)
        ensures
            r matches Some(v) ==> self.image(table_id, entity_id) == Some(v@),
            r is None ==> self.image(table_id, entity_id) is None,
    {
        match self.before_images.get(table_id, entity_id) {
            Some(v) => Some(copy_bytes(v)),
            None => None,
        }
    }

    /// Drops every before-image.
    pub fn clear_before_images(&mut self)
        ensures
            forall|a: u16, b: u64| #[trigger] final(self).image(a, b) is None,
            final(self).pending() == old(self).pending(),
    {
        self.before_images.clear();
    }
}

} // verus!
