//! The binary form of deltas: integers little-endian, a byte string or a
//! list preceded by its length as eight bytes, an enum variant by its index
//! as four bytes.
use crate::codec::{
    lemma_le_value_bound, le_bytes, le_value, lemma_le_bytes_len, lemma_le_roundtrip_small, lemma_pow256_small, pow256,
    push_bytes, push_u16, push_u32, push_u64, read_le,
};
use crate::error::{EcsDbError, Result};
use crate::storage::delta::{ops_view, Delta, DeltaOp, OpView};
use crate::text::owned;
use vstd::prelude::*;

verus! {

/// A byte string preceded by its length.
pub open spec fn framed(data: Seq<u8>) -> Seq<u8> {
    le_bytes(data.len(), 8) + data
}

/// The binary form of one change.
pub open spec fn op_encoding(op: OpView) -> Seq<u8> {
    match op {
        OpView::Insert { table_id, entity_id, data } => le_bytes(0, 4) + le_bytes(table_id as nat, 2)
            + le_bytes(entity_id as nat, 8) + framed(data),
        OpView::Update { table_id, entity_id, field_offset, old_data, new_data } => le_bytes(1, 4)
            + le_bytes(table_id as nat, 2) + le_bytes(entity_id as nat, 8) + le_bytes(
            field_offset as nat,
            8,
        ) + framed(old_data) + framed(new_data),
        OpView::Delete { table_id, entity_id, old_data } => le_bytes(2, 4) + le_bytes(
            table_id as nat,
            2,
        ) + le_bytes(entity_id as nat, 8) + framed(old_data),
        OpView::CreateEntity { entity_id } => le_bytes(3, 4) + le_bytes(entity_id as nat, 8),
        OpView::DeleteEntity { entity_id } => le_bytes(4, 4) + le_bytes(entity_id as nat, 8),
    }
}

/// The binary forms of a sequence of changes, one after the other.
pub open spec fn ops_encoding(ops: Seq<OpView>) -> Seq<u8>
    decreases ops.len(),
{
    if ops.len() == 0 {
        Seq::empty()
    } else {
        ops_encoding(ops.drop_last()) + op_encoding(ops.last())
    }
}

/// The binary form of a delta: its changes as a list, then version and
/// timestamp.
pub open spec fn delta_encoding(ops: Seq<OpView>, version: u64, timestamp: u64) -> Seq<u8> {
    le_bytes(ops.len(), 8) + ops_encoding(ops) + le_bytes(version as nat, 8) + le_bytes(
        timestamp as nat,
        8,
    )
}

fn push_framed(buf: &mut Vec<u8>, data: &Vec<u8>)
    ensures
        final(buf)@ == old(buf)@ + framed(data@),
{
    push_u64(buf, data.len() as u64);
    push_bytes(buf, data.as_slice());
    assert(final(buf)@ =~= old(buf)@ + framed(data@));
}

fn push_delta_op(buf: &mut Vec<u8>, op: &DeltaOp)
    ensures
        final(buf)@ == old(buf)@ + op_encoding(op@),
{
    let ghost b0 = buf@;
    match op {
        DeltaOp::Insert { table_id, entity_id, data } => {
            push_u32(buf, 0);
            push_u16(buf, *table_id);
            push_u64(buf, *entity_id);
            push_framed(buf, data);
        },
        DeltaOp::Update { table_id, entity_id, field_offset, old_data, new_data } => {
            push_u32(buf, 1);
            push_u16(buf, *table_id);
            push_u64(buf, *entity_id);
            push_u64(buf, *field_offset as u64);
            push_framed(buf, old_data);
            push_framed(buf, new_data);
        },
        DeltaOp::Delete { table_id, entity_id, old_data } => {
            push_u32(buf, 2);
            push_u16(buf, *table_id);
            push_u64(buf, *entity_id);
            push_framed(buf, old_data);
        },
        DeltaOp::CreateEntity { entity_id } => {
            push_u32(buf, 3);
            push_u64(buf, *entity_id);
        },
        DeltaOp::DeleteEntity { entity_id } => {
            push_u32(buf, 4);
            push_u64(buf, *entity_id);
        },
    }
    assert(buf@ =~= b0 + op_encoding(op@));
}

/// Reads an `n`-byte number at `pos`, if the input is long enough.
pub(crate) fn take_le(bytes: &[u8], pos: usize, n: usize) -> (r: Option<(u64, usize)>)
    requires
        n <= 8,
        pos <= bytes@.len(),
    ensures
        r matches Some((v, p)) ==> p == pos + n && p <= bytes@.len() && v as nat == le_value(
            bytes@.subrange(pos as int, p as int),
        ),
        r is None <==> pos + n > bytes@.len(),
{
    if bytes.len() - pos < n {
        None
    } else {
        Some((read_le(bytes, pos, n), pos + n))
    }
}

/// Reads a length-prefixed byte string at `pos`.
pub(crate) fn take_framed(bytes: &[u8], pos: usize) -> (r: Option<(Vec<u8>, usize)>)
    requires
        pos <= bytes@.len(),
    ensures
        r matches Some((d, p)) ==> p == pos + 8 + d@.len() && p <= bytes@.len() && bytes@.subrange(
            pos as int,
            p as int,
        ) == framed(d@) && le_value(bytes@.subrange(pos as int, pos + 8)) == d@.len(),
        pos + 8 <= bytes@.len() && le_value(bytes@.subrange(pos as int, pos + 8)) <= bytes@.len()
            - pos - 8 ==> r is Some,
{
    let (len, p) = match take_le(bytes, pos, 8) {
        Some(x) => x,
        None => return None,
    };
    if ((bytes.len() - p) as u64) < len {
        return None;
    }
    let end = p + len as usize;
    let mut out: Vec<u8> = Vec::new();
    let mut i = p;
    while i < end
        invariant
            p <= i <= end <= bytes@.len(),
            out@ == bytes@.subrange(p as int, i as int),
        decreases end - i,
    {
        out.push(bytes[i]);
        i += 1;
        assert(out@ =~= bytes@.subrange(p as int, i as int));
    }
    proof {
        lemma_pow256_small();
        lemma_le_roundtrip_small(out@.len(), 8);
        crate::codec::lemma_le_bytes_injective(len as nat, out@.len(), 8);
        assert(bytes@.subrange(pos as int, end as int) =~= bytes@.subrange(pos as int, p as int)
            + out@);
        assert(bytes@.subrange(pos as int, p as int) == le_bytes(out@.len(), 8)) by {
            lemma_le_bytes_len(out@.len(), 8);
            lemma_le_bytes_len(len as nat, 8);
            lemma_le_value_inverse(bytes@.subrange(pos as int, p as int));
        }
    }
    Some((out, end))
}

/// Bytes read as a number and written back give the same bytes.
pub proof fn lemma_le_value_inverse(s: Seq<u8>)
    ensures
        le_bytes(le_value(s), s.len()) == s,
    decreases s.len(),
{
    if s.len() > 0 {
        let t = s.drop_first();
        lemma_le_value_inverse(t);
        let v = le_value(s);
        assert(v == s[0] as nat + 256 * le_value(t));
        assert(v % 256 == s[0] as nat && v / 256 == le_value(t)) by (nonlinear_arith)
            requires
                v == s[0] as nat + 256 * le_value(t),
                s[0] < 256,
        ;
        assert(le_bytes(v, s.len()) =~= s);
    }
}

/// `bytes` holds `e` at `pos`.
pub open spec fn holds_at(bytes: Seq<u8>, pos: int, e: Seq<u8>) -> bool {
    0 <= pos && pos + e.len() <= bytes.len() && bytes.subrange(pos, pos + e.len()) == e
}

pub proof fn lemma_holds_split(bytes: Seq<u8>, pos: int, a: Seq<u8>, b: Seq<u8>)
    requires
        holds_at(bytes, pos, a + b),
    ensures
        holds_at(bytes, pos, a),
        holds_at(bytes, pos + a.len(), b),
{
    let whole = bytes.subrange(pos, pos + (a + b).len());
    assert(whole == a + b);
    assert(bytes.subrange(pos, pos + a.len()) =~= whole.subrange(0, a.len() as int));
    assert((a + b).subrange(0, a.len() as int) =~= a);
    assert(bytes.subrange(pos + a.len(), pos + a.len() + b.len()) =~= whole.subrange(
        a.len() as int,
        (a + b).len() as int,
    ));
    assert((a + b).subrange(a.len() as int, (a + b).len() as int) =~= b);
}

/// A number held at `pos` as `n` bytes reads back as itself.
pub proof fn lemma_read_back(bytes: Seq<u8>, pos: int, x: nat, n: nat)
    requires
        x < pow256(n),
        holds_at(bytes, pos, le_bytes(x, n)),
    ensures
        pos + n <= bytes.len(),
        le_value(bytes.subrange(pos, pos + n)) == x,
{
    lemma_le_bytes_len(x, n);
    lemma_le_roundtrip_small(x, n);
}

/// The variant index of a change.
pub open spec fn op_tag(o: OpView) -> nat {
    match o {
        OpView::Insert { .. } => 0,
        OpView::Update { .. } => 1,
        OpView::Delete { .. } => 2,
        OpView::CreateEntity { .. } => 3,
        OpView::DeleteEntity { .. } => 4,
    }
}

/// What the bytes at `pos` say of a change `o` whose encoding they hold.
pub open spec fn fields_at(b: Seq<u8>, pos: int, o: OpView) -> bool {
    &&& pos + 4 <= b.len()
    &&& le_value(b.subrange(pos, pos + 4)) == op_tag(o)
    &&& match o {
        OpView::CreateEntity { entity_id } | OpView::DeleteEntity { entity_id } => {
            &&& pos + 12 <= b.len()
            &&& le_value(b.subrange(pos + 4, pos + 12)) == entity_id
        },
        OpView::Insert { table_id, entity_id, data } | OpView::Delete {
            table_id,
            entity_id,
            old_data: data,
        } => {
            &&& pos + 22 + data.len() <= b.len()
            &&& le_value(b.subrange(pos + 4, pos + 6)) == table_id
            &&& le_value(b.subrange(pos + 6, pos + 14)) == entity_id
            &&& le_value(b.subrange(pos + 14, pos + 22)) == data.len()
            &&& b.subrange(pos + 22, pos + 22 + data.len()) == data
        },
        OpView::Update { table_id, entity_id, field_offset, old_data, new_data } => {
            let q = pos + 30 + old_data.len();
            &&& q + 8 + new_data.len() <= b.len()
            &&& le_value(b.subrange(pos + 4, pos + 6)) == table_id
            &&& le_value(b.subrange(pos + 6, pos + 14)) == entity_id
            &&& le_value(b.subrange(pos + 14, pos + 22)) == field_offset
            &&& le_value(b.subrange(pos + 22, pos + 30)) == old_data.len()
            &&& b.subrange(pos + 30, q) == old_data
            &&& le_value(b.subrange(q, q + 8)) == new_data.len()
            &&& b.subrange(q + 8, q + 8 + new_data.len()) == new_data
        },
    }
}

pub proof fn lemma_framed_at(b: Seq<u8>, pos: int, d: Seq<u8>)
    requires
        b.len() < 0x1_0000_0000_0000_0000,
        holds_at(b, pos, framed(d)),
    ensures
        pos + 8 + d.len() <= b.len(),
        le_value(b.subrange(pos, pos + 8)) == d.len(),
        b.subrange(pos + 8, pos + 8 + d.len()) == d,
{
    lemma_pow256_small();
    lemma_le_bytes_len(d.len(), 8);
    lemma_holds_split(b, pos, le_bytes(d.len(), 8), d);
    lemma_read_back(b, pos, d.len(), 8);
}

/// The fields of a change can be read back from its encoding.
pub proof fn lemma_op_fields(b: Seq<u8>, pos: int, o: OpView)
    requires
        b.len() < 0x1_0000_0000_0000_0000,
        holds_at(b, pos, op_encoding(o)),
    ensures
        fields_at(b, pos, o),
{
    lemma_pow256_small();
    lemma_le_bytes_len(op_tag(o), 4);
    match o {
        OpView::CreateEntity { entity_id } | OpView::DeleteEntity { entity_id } => {
            lemma_holds_split(b, pos, le_bytes(op_tag(o), 4), le_bytes(entity_id as nat, 8));
            lemma_read_back(b, pos, op_tag(o), 4);
            lemma_le_bytes_len(entity_id as nat, 8);
            lemma_read_back(b, pos + 4, entity_id as nat, 8);
        },
        OpView::Insert { table_id, entity_id, data } | OpView::Delete {
            table_id,
            entity_id,
            old_data: data,
        } => {
            let t = le_bytes(op_tag(o), 4);
            let x = le_bytes(table_id as nat, 2);
            let y = le_bytes(entity_id as nat, 8);
            lemma_le_bytes_len(table_id as nat, 2);
            lemma_le_bytes_len(entity_id as nat, 8);
            assert(op_encoding(o) == t + (x + (y + framed(data))));
            lemma_holds_split(b, pos, t, x + (y + framed(data)));
            lemma_holds_split(b, pos + 4, x, y + framed(data));
            lemma_holds_split(b, pos + 6, y, framed(data));
            lemma_read_back(b, pos, op_tag(o), 4);
            lemma_read_back(b, pos + 4, table_id as nat, 2);
            lemma_read_back(b, pos + 6, entity_id as nat, 8);
            lemma_framed_at(b, pos + 14, data);
        },
        OpView::Update { table_id, entity_id, field_offset, old_data, new_data } => {
            let t = le_bytes(op_tag(o), 4);
            let x = le_bytes(table_id as nat, 2);
            let y = le_bytes(entity_id as nat, 8);
            let z = le_bytes(field_offset as nat, 8);
            lemma_le_bytes_len(table_id as nat, 2);
            lemma_le_bytes_len(entity_id as nat, 8);
            lemma_le_bytes_len(field_offset as nat, 8);
            lemma_le_bytes_len(old_data.len(), 8);
            assert(op_encoding(o) == t + (x + (y + (z + (framed(old_data) + framed(new_data))))));
            lemma_holds_split(b, pos, t, x + (y + (z + (framed(old_data) + framed(new_data)))));
            lemma_holds_split(b, pos + 4, x, y + (z + (framed(old_data) + framed(new_data))));
            lemma_holds_split(b, pos + 6, y, z + (framed(old_data) + framed(new_data)));
            lemma_holds_split(b, pos + 14, z, framed(old_data) + framed(new_data));
            lemma_holds_split(b, pos + 22, framed(old_data), framed(new_data));
            lemma_read_back(b, pos, op_tag(o), 4);
            lemma_read_back(b, pos + 4, table_id as nat, 2);
            lemma_read_back(b, pos + 6, entity_id as nat, 8);
            lemma_read_back(b, pos + 14, field_offset as nat, 8);
            lemma_framed_at(b, pos + 22, old_data);
            lemma_framed_at(b, pos + 30 + old_data.len(), new_data);
        },
    }
}

/// No change is encoded at `pos` unless the reads succeed.
proof fn lemma_no_op_here(b: Seq<u8>, pos: int)
    requires
        b.len() < 0x1_0000_0000_0000_0000,
    ensures
        forall|o: OpView| #[trigger] holds_at(b, pos, op_encoding(o)) ==> fields_at(b, pos, o),
{
    assert forall|o: OpView| #[trigger] holds_at(b, pos, op_encoding(o)) implies fields_at(b, pos, o) by {
        lemma_op_fields(b, pos, o);
    }
}

/// At most one change is encoded at `pos`.
proof fn lemma_unique_here(b: Seq<u8>, pos: int, o1: OpView)
    requires
        b.len() < 0x1_0000_0000_0000_0000,
        holds_at(b, pos, op_encoding(o1)),
    ensures
        forall|o: OpView| #[trigger] holds_at(b, pos, op_encoding(o)) ==> o == o1,
{
    lemma_op_fields(b, pos, o1);
    assert forall|o: OpView| #[trigger] holds_at(b, pos, op_encoding(o)) implies o == o1 by {
        lemma_op_fields(b, pos, o);
    }
}

/// Reads one change at `pos`.
pub fn parse_delta_op(bytes: &[u8], pos: usize) -> (r: Option<(DeltaOp, usize)>)
    requires
        pos <= bytes@.len(),
    ensures
        r matches Some((op, p)) ==> p <= bytes@.len() && p == pos + op_encoding(op@).len()
            && holds_at(bytes@, pos as int, op_encoding(op@)),
        forall|o: OpView| #[trigger] holds_at(bytes@, pos as int, op_encoding(o)) ==> (r matches Some((
            op,
            p,
        )) && op@ == o),
{
    let ghost b = bytes@;
    let blen = bytes.len();
    proof {
        assert(b.len() < 0x1_0000_0000_0000_0000);
        lemma_pow256_small();
        lemma_le_bytes_len(0, 4);
    }
    let (tag, p1) = match take_le(bytes, pos, 4) {
        Some(x) => x,
        None => {
            proof { lemma_no_op_here(b, pos as int); }
            return None;
        },
    };
    proof {
        lemma_le_value_inverse(b.subrange(pos as int, p1 as int));
    }
    if tag == 3 || tag == 4 {
        let (entity_id, p2) = match take_le(bytes, p1, 8) {
            Some(x) => x,
            None => {
                proof { lemma_no_op_here(b, pos as int); }
                return None;
            },
        };
        let op = if tag == 3 {
            DeltaOp::CreateEntity { entity_id }
        } else {
            DeltaOp::DeleteEntity { entity_id }
        };
        proof {
            lemma_le_value_inverse(b.subrange(p1 as int, p2 as int));
            assert(b.subrange(pos as int, p2 as int) =~= b.subrange(pos as int, p1 as int) + b.subrange(p1 as int, p2 as int));
            lemma_le_bytes_len(entity_id as nat, 8);
            assert(b.subrange(pos as int, p2 as int) =~= op_encoding(op@));
            lemma_unique_here(b, pos as int, op@);
        }
        return Some((op, p2));
    }
    if tag > 4 {
        proof { lemma_no_op_here(b, pos as int); }
        return None;
    }
    let (table_id, p2) = match take_le(bytes, p1, 2) {
        Some(x) => x,
        None => {
            proof { lemma_no_op_here(b, pos as int); }
            return None;
        },
    };
    let (entity_id, p3) = match take_le(bytes, p2, 8) {
        Some(x) => x,
        None => {
            proof { lemma_no_op_here(b, pos as int); }
            return None;
        },
    };
    proof {
        lemma_le_value_inverse(b.subrange(p1 as int, p2 as int));
        lemma_le_value_inverse(b.subrange(p2 as int, p3 as int));
        lemma_le_bytes_len(table_id as nat, 2);
        lemma_le_bytes_len(entity_id as nat, 8);
        lemma_le_value_bound(b.subrange(p1 as int, p2 as int));
    }
    let table_id = table_id as u16;
    if tag == 0 || tag == 2 {
        let (data, p4) = match take_framed(bytes, p3) {
            Some(x) => x,
            None => {
                proof { lemma_no_op_here(b, pos as int); }
                return None;
            },
        };
        let op = if tag == 0 {
            DeltaOp::Insert { table_id, entity_id, data }
        } else {
            DeltaOp::Delete { table_id, entity_id, old_data: data }
        };
        proof {
            assert(b.subrange(pos as int, p4 as int) =~= b.subrange(pos as int, p1 as int) + b.subrange(p1 as int, p2 as int) + b.subrange(p2 as int, p3 as int) + b.subrange(p3 as int, p4 as int));
            assert(b.subrange(pos as int, p4 as int) =~= op_encoding(op@));
            lemma_unique_here(b, pos as int, op@);
        }
        return Some((op, p4));
    }
    let (field_offset, p4) = match take_le(bytes, p3, 8) {
        Some(x) => x,
        None => {
            proof { lemma_no_op_here(b, pos as int); }
            return None;
        },
    };
    if field_offset > usize::MAX as u64 {
        proof { lemma_no_op_here(b, pos as int); }
        return None;
    }
    let (old_data, p5) = match take_framed(bytes, p4) {
        Some(x) => x,
        None => {
            proof { lemma_no_op_here(b, pos as int); }
            return None;
        },
    };
    let (new_data, p6) = match take_framed(bytes, p5) {
        Some(x) => x,
        None => {
            proof { lemma_no_op_here(b, pos as int); }
            return None;
        },
    };
    let op = DeltaOp::Update { table_id, entity_id, field_offset: field_offset as usize, old_data, new_data };
    proof {
        lemma_le_value_inverse(b.subrange(p3 as int, p4 as int));
        lemma_le_bytes_len(field_offset as nat, 8);
        assert(b.subrange(pos as int, p6 as int) =~= b.subrange(pos as int, p1 as int) + b.subrange(p1 as int, p2 as int) + b.subrange(p2 as int, p3 as int) + b.subrange(p3 as int, p4 as int) + b.subrange(p4 as int, p5 as int) + b.subrange(p5 as int, p6 as int));
        assert(b.subrange(pos as int, p6 as int) =~= op_encoding(op@));
        lemma_unique_here(b, pos as int, op@);
    }
    Some((op, p6))
}

pub proof fn lemma_ops_encoding_concat(a: Seq<OpView>, b: Seq<OpView>)
    ensures
        ops_encoding(a + b) == ops_encoding(a) + ops_encoding(b),
    decreases b.len(),
{
    if b.len() == 0 {
        assert(a + b =~= a);
        assert(ops_encoding(a) + ops_encoding(b) =~= ops_encoding(a));
    } else {
        lemma_ops_encoding_concat(a, b.drop_last());
        assert((a + b).drop_last() =~= a + b.drop_last());
        assert((a + b).last() == b.last());
        assert(ops_encoding(a + b) =~= ops_encoding(a) + ops_encoding(b));
    }
}

pub proof fn lemma_ops_encoding_len(ops: Seq<OpView>)
    ensures
        ops_encoding(ops).len() >= ops.len(),
    decreases ops.len(),
{
    if ops.len() > 0 {
        lemma_ops_encoding_len(ops.drop_last());
        let o = ops.last();
        lemma_le_bytes_len(op_tag(o), 4);
        match o {
            OpView::Insert { table_id, entity_id, data } => {
                lemma_le_bytes_len(table_id as nat, 2);
            },
            OpView::Update { table_id, .. } => {
                lemma_le_bytes_len(table_id as nat, 2);
            },
            OpView::Delete { table_id, .. } => {
                lemma_le_bytes_len(table_id as nat, 2);
            },
            _ => {
                lemma_le_bytes_len(0, 8);
            },
        }
        assert(op_encoding(o).len() >= 4);
    }
}

/// The encoding of `ops` is that of its first `k` changes, then that of the
/// `k`th, then the rest.
pub proof fn lemma_ops_encoding_at(ops: Seq<OpView>, k: int)
    requires
        0 <= k < ops.len(),
    ensures
        ops_encoding(ops) == ops_encoding(ops.take(k)) + op_encoding(ops[k]) + ops_encoding(
            ops.skip(k + 1),
        ),
        ops_encoding(ops.take(k + 1)) == ops_encoding(ops.take(k)) + op_encoding(ops[k]),
{
    assert(ops =~= ops.take(k + 1) + ops.skip(k + 1));
    lemma_ops_encoding_concat(ops.take(k + 1), ops.skip(k + 1));
    assert(ops.take(k + 1).drop_last() =~= ops.take(k));
}

impl Delta {
    /// The binary form of the delta.
    pub fn serialize(&self) -> (r: Result<Vec<u8>>)
        ensures
            r matches Ok(v) && v@ == delta_encoding(ops_view(self.ops@), self.version, self.timestamp),
    {
        let mut buf: Vec<u8> = Vec::new();
        push_u64(&mut buf, self.ops.len() as u64);
        let mut i: usize = 0;
        while i < self.ops.len()
            invariant
                i <= self.ops@.len(),
                buf@ == le_bytes(self.ops@.len(), 8) + ops_encoding(ops_view(self.ops@).take(i as int)),
            decreases self.ops@.len() - i,
        {
            push_delta_op(&mut buf, &self.ops[i]);
            proof {
                lemma_ops_encoding_at(ops_view(self.ops@), i as int);
            }
            i += 1;
            assert(buf@ =~= le_bytes(self.ops@.len(), 8) + ops_encoding(ops_view(self.ops@).take(i as int)));
        }
        push_u64(&mut buf, self.version);
        push_u64(&mut buf, self.timestamp);
        assert(ops_view(self.ops@).take(self.ops@.len() as int) =~= ops_view(self.ops@));
        Ok(buf)
    }

    /// Reads a delta from the front of `bytes`; bytes after it are ignored.
    pub fn deserialize(bytes: &[u8]) -> (r: Result<Delta>)
        ensures
            r matches Ok(d) ==> holds_at(bytes@, 0, delta_encoding(ops_view(d.ops@), d.version, d.timestamp)),
            r matches Err(e) ==> e is SerializationError,
            forall|ops: Seq<OpView>, v: u64, t: u64|
                #[trigger] holds_at(bytes@, 0, delta_encoding(ops, v, t)) ==> (r matches Ok(d) && ops_view(d.ops@)
                    == ops && d.version == v && d.timestamp == t),
    {
        let ghost b = bytes@;
        let blen = bytes.len();
        proof {
            lemma_pow256_small();
            assert forall|ops: Seq<OpView>, v: u64, t: u64| #[trigger] holds_at(b, 0, delta_encoding(ops, v, t)) implies
                8 <= b.len() && le_value(b.subrange(0, 8)) == ops.len() by {
                lemma_ops_encoding_len(ops);
                lemma_le_bytes_len(ops.len(), 8);
                assert(delta_encoding(ops, v, t) == le_bytes(ops.len(), 8) + (ops_encoding(ops) + le_bytes(v as nat, 8) + le_bytes(t as nat, 8)));
                lemma_holds_split(b, 0, le_bytes(ops.len(), 8), ops_encoding(ops) + le_bytes(v as nat, 8) + le_bytes(t as nat, 8));
                lemma_read_back(b, 0, ops.len(), 8);
            }
        }
        let (count, mut pos) = match take_le(bytes, 0, 8) {
            Some(x) => x,
            None => return Err(EcsDbError::SerializationError(owned("unexpected end of input"))),
        };
        let mut ops: Vec<DeltaOp> = Vec::new();
        let mut k: u64 = 0;
        proof {
            assert(ops_view(ops@) =~= Seq::<OpView>::empty());
            assert(b.subrange(8, 8) =~= Seq::<u8>::empty());
            assert forall|cops: Seq<OpView>, v: u64, t: u64| #[trigger] holds_at(b, 0, delta_encoding(cops, v, t)) implies
                cops.take(0) == ops_view(ops@) by {
                assert(cops.take(0) =~= Seq::<OpView>::empty());
            }
        }
        while k < count
            invariant
                b == bytes@,
                b.len() < 0x1_0000_0000_0000_0000,
                k <= count,
                8 <= pos <= b.len(),
                ops@.len() == k,
                le_value(b.subrange(0, 8)) == count,
                holds_at(b, 8, ops_encoding(ops_view(ops@))),
                pos == 8 + ops_encoding(ops_view(ops@)).len(),
                forall|cops: Seq<OpView>, v: u64, t: u64| #[trigger] holds_at(b, 0, delta_encoding(cops, v, t)) ==>
                    cops.len() == count && cops.take(k as int) == ops_view(ops@),
            decreases count - k,
        {
            let ghost before = ops_view(ops@);
            let (op, next) = match parse_delta_op(bytes, pos) {
                Some(x) => x,
                None => {
                    proof {
                        assert forall|cops: Seq<OpView>, v: u64, t: u64| #[trigger] holds_at(b, 0, delta_encoding(cops, v, t)) implies false by {
                            lemma_candidate_op(b, cops, v, t, k as int);
                        }
                    }
                    return Err(EcsDbError::SerializationError(owned("invalid change")));
                },
            };
            proof {
                assert forall|cops: Seq<OpView>, v: u64, t: u64| #[trigger] holds_at(b, 0, delta_encoding(cops, v, t)) implies
                    cops.take(k + 1) == before.push(op@) by {
                    lemma_candidate_op(b, cops, v, t, k as int);
                    assert(cops.take(k + 1) =~= cops.take(k as int).push(cops[k as int]));
                }
            }
            ops.push(op);
            proof {
                assert(ops_view(ops@) =~= before.push(op@));
                assert(ops_view(ops@).drop_last() =~= before);
                assert(b.subrange(8, next as int) =~= b.subrange(8, pos as int) + b.subrange(pos as int, next as int));
            }
            pos = next;
            k = k + 1;
        }
        let (version, p1) = match take_le(bytes, pos, 8) {
            Some(x) => x,
            None => {
                proof {
                    assert forall|cops: Seq<OpView>, v: u64, t: u64| #[trigger] holds_at(b, 0, delta_encoding(cops, v, t)) implies false by {
                        assert(cops.take(count as int) =~= cops);
                        lemma_candidate_tail(b, cops, v, t);
                    }
                }
                return Err(EcsDbError::SerializationError(owned("unexpected end of input")));
            },
        };
        let (timestamp, p2) = match take_le(bytes, p1, 8) {
            Some(x) => x,
            None => {
                proof {
                    assert forall|cops: Seq<OpView>, v: u64, t: u64| #[trigger] holds_at(b, 0, delta_encoding(cops, v, t)) implies false by {
                        assert(cops.take(count as int) =~= cops);
                        lemma_candidate_tail(b, cops, v, t);
                    }
                }
                return Err(EcsDbError::SerializationError(owned("unexpected end of input")));
            },
        };
        let d = Delta { ops, version, timestamp };
        proof {
            lemma_le_value_inverse(b.subrange(0, 8));
            lemma_le_value_inverse(b.subrange(pos as int, p1 as int));
            lemma_le_value_inverse(b.subrange(p1 as int, p2 as int));
            assert(b.subrange(0, p2 as int) =~= b.subrange(0, 8) + b.subrange(8, pos as int) + b.subrange(pos as int, p1 as int) + b.subrange(p1 as int, p2 as int));
            assert(b.subrange(0, p2 as int) =~= delta_encoding(ops_view(d.ops@), version, timestamp));
            assert forall|cops: Seq<OpView>, v: u64, t: u64| #[trigger] holds_at(b, 0, delta_encoding(cops, v, t)) implies
                ops_view(d.ops@) == cops && version == v && timestamp == t by {
                assert(cops.take(count as int) =~= cops);
                lemma_candidate_tail(b, cops, v, t);
            }
        }
        Ok(d)
    }
}

/// What a candidate encoding at 0 says of the `k`th change.
proof fn lemma_candidate_op(b: Seq<u8>, cops: Seq<OpView>, v: u64, t: u64, k: int)
    requires
        b.len() < 0x1_0000_0000_0000_0000,
        holds_at(b, 0, delta_encoding(cops, v, t)),
        0 <= k < cops.len(),
    ensures
        holds_at(b, 8 + ops_encoding(cops.take(k)).len() as int, op_encoding(cops[k])),
{
    lemma_ops_encoding_at(cops, k);
    lemma_le_bytes_len(cops.len(), 8);
    let pre = le_bytes(cops.len(), 8) + ops_encoding(cops.take(k));
    let rest = ops_encoding(cops.skip(k + 1)) + le_bytes(v as nat, 8) + le_bytes(t as nat, 8);
    assert(delta_encoding(cops, v, t) =~= pre + (op_encoding(cops[k]) + rest));
    lemma_holds_split(b, 0, pre, op_encoding(cops[k]) + rest);
    lemma_holds_split(b, pre.len() as int, op_encoding(cops[k]), rest);
}

/// What a candidate encoding at 0 says of its version and timestamp.
proof fn lemma_candidate_tail(b: Seq<u8>, cops: Seq<OpView>, v: u64, t: u64)
    requires
        b.len() < 0x1_0000_0000_0000_0000,
        holds_at(b, 0, delta_encoding(cops, v, t)),
    ensures
        ({
            let q: int = 8int + ops_encoding(cops).len() as int;
            &&& q + 16 <= b.len()
            &&& le_value(b.subrange(q, q + 8)) == v
            &&& le_value(b.subrange(q + 8, q + 16)) == t
        }),
{
    lemma_pow256_small();
    lemma_le_bytes_len(cops.len(), 8);
    lemma_le_bytes_len(v as nat, 8);
    lemma_le_bytes_len(t as nat, 8);
    let pre = le_bytes(cops.len(), 8) + ops_encoding(cops);
    assert(delta_encoding(cops, v, t) =~= pre + (le_bytes(v as nat, 8) + le_bytes(t as nat, 8)));
    lemma_holds_split(b, 0, pre, le_bytes(v as nat, 8) + le_bytes(t as nat, 8));
    lemma_holds_split(b, pre.len() as int, le_bytes(v as nat, 8), le_bytes(t as nat, 8));
    lemma_read_back(b, pre.len() as int, v as nat, 8);
    lemma_read_back(b, pre.len() as int + 8, t as nat, 8);
}

/// The bytes `serialize` produces hold the delta at their front, so
/// `deserialize` reads back a delta with the same changes, version and
/// timestamp.
pub proof fn law_delta_roundtrip(d: Delta)
    ensures
        holds_at(
            delta_encoding(ops_view(d.ops@), d.version, d.timestamp),
            0,
            delta_encoding(ops_view(d.ops@), d.version, d.timestamp),
        ),
{
    let e = delta_encoding(ops_view(d.ops@), d.version, d.timestamp);
    assert(e.subrange(0, e.len() as int) =~= e);
}

} // verus!
