use crate::error::{EcsDbError, Result};
use crate::schema::types::{CustomTypes, FieldDefinition, FieldType};
use crate::text::{join, owned};
use vstd::prelude::*;

verus! {

/// Placement of one field within a record.
#[derive(Debug)]
pub struct FieldLayout {
    pub definition: FieldDefinition,
    pub offset: usize,
    pub size: usize,
    pub alignment: usize,
}

/// Placement of all fields of a record, and its padded size.
#[derive(Debug)]
pub struct RecordLayout {
    pub fields: Vec<FieldLayout>,
    pub total_size: usize,
    pub alignment: usize,
}

/// Why a layout cannot be computed.
pub enum LayoutFailure {
    /// A custom type is not defined.
    Missing,
    /// A size or offset does not fit in a `usize`.
    Overflow,
    /// Resolving custom types does not end (a type contains itself).
    Cyclic,
}

/// The fields of the first custom type named `name`.
pub open spec fn lookup_custom(ct: Seq<(String, Vec<FieldDefinition>)>, name: Seq<char>) -> Option<Seq<FieldDefinition>> {
    if exists|i: int| 0 <= i < ct.len() && ct[i].0@ == name {
        let i = choose|i: int|
            0 <= i < ct.len() && ct[i].0@ == name && forall|j: int| 0 <= j < i ==> ct[j].0@ != name;
        Some(ct[i].1@)
    } else {
        None
    }
}

/// Padding that brings `off` up to a multiple of `a`.
pub open spec fn pad(off: int, a: int) -> int {
    (a - off % a) % a
}

/// Size and alignment of a field type; `fuel` bounds how deep arrays and
/// custom types nest.
pub open spec fn field_sa(t: FieldType, ct: Seq<(String, Vec<FieldDefinition>)>, fuel: nat) -> core::result::Result<(int, int), LayoutFailure>
    decreases fuel, 0nat,
{
    match t {
        FieldType::U8 | FieldType::I8 | FieldType::Bool => Ok((1, 1)),
        FieldType::U16 | FieldType::I16 => Ok((2, 2)),
        FieldType::U32 | FieldType::I32 | FieldType::F32 | FieldType::Enum(_) => Ok((4, 4)),
        FieldType::U64 | FieldType::I64 | FieldType::F64 => Ok((8, 8)),
        FieldType::Array { element_type, length } => if fuel == 0 {
            Err(LayoutFailure::Cyclic)
        } else {
            match field_sa(*element_type, ct, (fuel - 1) as nat) {
                Ok((s, a)) => if s * length > usize::MAX {
                    Err(LayoutFailure::Overflow)
                } else {
                    Ok((s * length, a))
                },
                Err(f) => Err(f),
            }
        },
        FieldType::Struct(n) | FieldType::Custom(n) => if fuel == 0 {
            Err(LayoutFailure::Cyclic)
        } else {
            match lookup_custom(ct, n@) {
                None => Err(LayoutFailure::Missing),
                Some(fs) => match record_total(fs, ct, (fuel - 1) as nat) {
                    Ok((total, align, _)) => Ok((total, align)),
                    Err(f) => Err(f),
                },
            }
        },
    }
}

/// Offset after the first `n` fields, the largest alignment among them, and
/// (offset, size, alignment) of each.
pub open spec fn record_fold(fs: Seq<FieldDefinition>, ct: Seq<(String, Vec<FieldDefinition>)>, fuel: nat, n: nat) -> core::result::Result<(int, int, Seq<(int, int, int)>), LayoutFailure>
    decreases fuel, n + 1,
{
    if n == 0 || n > fs.len() {
        Ok((0, 1, Seq::empty()))
    } else {
        match record_fold(fs, ct, fuel, (n - 1) as nat) {
            Err(f) => Err(f),
            Ok((off, ma, ls)) => match field_sa(fs[n - 1].field_type, ct, fuel) {
                Err(f) => Err(f),
                Ok((s, a)) => {
                    let p = pad(off, a);
                    if off + p + s > usize::MAX {
                        Err(LayoutFailure::Overflow)
                    } else {
                        Ok((off + p + s, if ma >= a { ma } else { a }, ls.push((off + p, s, a))))
                    }
                },
            },
        }
    }
}

/// Total padded size, alignment and field placements of a record.
pub open spec fn record_total(fs: Seq<FieldDefinition>, ct: Seq<(String, Vec<FieldDefinition>)>, fuel: nat) -> core::result::Result<(int, int, Seq<(int, int, int)>), LayoutFailure>
    decreases fuel, fs.len() + 2,
{
    match record_fold(fs, ct, fuel, fs.len()) {
        Err(f) => Err(f),
        Ok((off, ma, ls)) => {
            let tp = pad(off, ma);
            if off + tp > usize::MAX {
                Err(LayoutFailure::Overflow)
            } else {
                Ok((off + tp, ma, ls))
            }
        },
    }
}

/// The nesting bound used for layouts.
pub open spec fn layout_fuel() -> nat {
    u64::MAX as nat
}

/// Whether a layout result is a failure the computation cannot reach
/// without overflowing or recursing forever.
pub open spec fn unreachable_failure<T>(r: core::result::Result<T, LayoutFailure>) -> bool {
    r matches Err(LayoutFailure::Overflow) || r matches Err(LayoutFailure::Cyclic)
}

proof fn lemma_record_total_positive(fs: Seq<FieldDefinition>, ct: Seq<(String, Vec<FieldDefinition>)>, fuel: nat)
    ensures
        record_total(fs, ct, fuel) matches Ok((tot, ma, ls)) ==> 1 <= ma <= 8 && 0 <= tot <= usize::MAX,
    decreases fuel, fs.len() + 2,
{
    lemma_fold_positive(fs, ct, fuel, fs.len());
}

proof fn lemma_fold_positive(fs: Seq<FieldDefinition>, ct: Seq<(String, Vec<FieldDefinition>)>, fuel: nat, n: nat)
    ensures
        record_fold(fs, ct, fuel, n) matches Ok((off, ma, ls)) ==> 1 <= ma <= 8 && 0 <= off <= usize::MAX,
    decreases fuel, n + 1,
{
    if n > 0 && n <= fs.len() {
        lemma_fold_positive(fs, ct, fuel, (n - 1) as nat);
        lemma_field_positive(fs[n - 1].field_type, ct, fuel);
    }
}

proof fn lemma_field_positive(t: FieldType, ct: Seq<(String, Vec<FieldDefinition>)>, fuel: nat)
    ensures
        field_sa(t, ct, fuel) matches Ok((s, a)) ==> 1 <= a <= 8 && 0 <= s <= usize::MAX,
    decreases fuel, 0nat,
{
    if fuel > 0 {
        match t {
            FieldType::Array { element_type, length } => {
                lemma_field_positive(*element_type, ct, (fuel - 1) as nat);
                if let Ok((s, a)) = field_sa(*element_type, ct, (fuel - 1) as nat) {
                    assert(s * length >= 0) by (nonlinear_arith)
                        requires s >= 0, length >= 0;
                }
            },
            FieldType::Struct(nm) | FieldType::Custom(nm) => {
                if let Some(fs2) = lookup_custom(ct, nm@) {
                    lemma_record_total_positive(fs2, ct, (fuel - 1) as nat);
                }
            },
            _ => {},
        }
    }
}


/// The fields of the first custom type with the given name.
pub fn find_custom<'a>(ct: &'a CustomTypes, name: &String) -> (r: Option<&'a Vec<FieldDefinition>>)
    ensures
        lookup_custom(ct@, name@) matches Some(fs) ==> (r matches Some(v) && v@ == fs),
        lookup_custom(ct@, name@) is None ==> r is None,
{
    let mut i: usize = 0;
    while i < ct.len()
        invariant
            i <= ct@.len(),
            forall|j: int| 0 <= j < i ==> ct@[j].0@ != name@,
        decreases ct@.len() - i,
    {
        if ct[i].0 == *name {
            proof {
                let k = choose|k: int|
                    0 <= k < ct@.len() && ct@[k].0@ == name@ && forall|j: int|
                        0 <= j < k ==> ct@[j].0@ != name@;
                if k < i {
                    assert(ct@[k].0@ != name@);
                }
                if k > i {
                    assert(ct@[i as int].0@ != name@);
                }
            }
            return Some(&ct[i].1);
        }
        i += 1;
    }
    None
}

fn missing_type(name: &String) -> (e: EcsDbError)
    ensures
        e matches EcsDbError::SchemaError(m) && m@ == "Custom type '"@ + name@ + "' not found"@,
{
    let m = join(join(owned("Custom type '"), name.as_str()), "' not found");
    EcsDbError::SchemaError(m)
}

fn field_size_align_fuel(t: &FieldType, ct: &CustomTypes, fuel: u64) -> (res: Result<(usize, usize)>)
    requires
        !unreachable_failure(field_sa(*t, ct@, fuel as nat)),
    ensures
        field_sa(*t, ct@, fuel as nat) matches Ok((s, a)) ==> res == Ok::<(usize, usize), EcsDbError>(
            (s as usize, a as usize),
        ) && 1 <= a <= 8 && 0 <= s <= usize::MAX,
        field_sa(*t, ct@, fuel as nat) is Err ==> res matches Err(EcsDbError::SchemaError(_)),
    decreases fuel, 0nat,
{
    proof {
        lemma_field_positive(*t, ct@, fuel as nat);
    }
    match t {
        FieldType::U8 | FieldType::I8 | FieldType::Bool => Ok((1, 1)),
        FieldType::U16 | FieldType::I16 => Ok((2, 2)),
        FieldType::U32 | FieldType::I32 | FieldType::F32 | FieldType::Enum(_) => Ok((4, 4)),
        FieldType::U64 | FieldType::I64 | FieldType::F64 => Ok((8, 8)),
        FieldType::Array { element_type, length } => {
            assert(fuel > 0);
            let ghost inner = field_sa(**element_type, ct@, (fuel - 1) as nat);
            assert(!unreachable_failure(inner));
            let (elem_size, elem_align) = match field_size_align_fuel(element_type, ct, fuel - 1) {
                Ok(p) => p,
                Err(e) => return Err(e),
            };
            assert(inner matches Ok((s, a)) && s == elem_size && a == elem_align);
            assert(elem_size * *length <= usize::MAX);
            Ok((elem_size * *length, elem_align))
        },
        FieldType::Struct(name) | FieldType::Custom(name) => {
            let fields = match find_custom(ct, name) {
                Some(f) => f,
                None => return Err(missing_type(name)),
            };
            let layout = match layout_fuel_of(fields.as_slice(), ct, fuel - 1) {
                Ok(l) => l,
                Err(e) => return Err(e),
            };
            Ok((layout.total_size, layout.alignment))
        },
    }
}

/// Whether an exec layout matches the spec outcome (total, alignment, placements).
pub open spec fn layout_matches(l: RecordLayout, fields: Seq<FieldDefinition>, total: int, align: int, ls: Seq<(int, int, int)>) -> bool {
    &&& l.total_size == total
    &&& l.alignment == align
    &&& l.fields@.len() == fields.len()
    &&& ls.len() == fields.len()
    &&& forall|i: int|
        0 <= i < fields.len() ==> {
            &&& (#[trigger] l.fields@[i]).definition == fields[i]
            &&& l.fields@[i].offset == ls[i].0
            &&& l.fields@[i].size == ls[i].1
            &&& l.fields@[i].alignment == ls[i].2
        }
}

fn layout_fuel_of(fields: &[FieldDefinition], ct: &CustomTypes, fuel: u64) -> (res: Result<RecordLayout>)
    requires
        !unreachable_failure(record_total(fields@, ct@, fuel as nat)),
    ensures
        record_total(fields@, ct@, fuel as nat) matches Ok((tot, ma, ls)) ==> (res matches Ok(l)
            && layout_matches(l, fields@, tot, ma, ls)),
        record_total(fields@, ct@, fuel as nat) is Err ==> res matches Err(EcsDbError::SchemaError(_)),
    decreases fuel, 1nat,
{
    let ghost fs = fields@;
    let ghost f = fuel as nat;
    proof {
        lemma_record_total_positive(fs, ct@, f);
        lemma_fold_prefix_failure(fs, ct@, f, fs.len());
    }
    let mut layouts: Vec<FieldLayout> = Vec::new();
    let mut current_offset: usize = 0;
    let mut max_alignment: usize = 1;
    let n = fields.len();
    let mut i: usize = 0;
    while i < n
        invariant
            n == fs.len(),
            fs == fields@,
            f == fuel,
            i <= n,
            !unreachable_failure(record_total(fs, ct@, f)),
            forall|k: nat| k <= n ==> !unreachable_failure(#[trigger] record_fold(fs, ct@, f, k)),
            record_fold(fs, ct@, f, i as nat) matches Ok((off, ma, ls)) && off == current_offset
                && ma == max_alignment && layouts@.len() == i && ls.len() == i && forall|m: int|
                0 <= m < i ==> {
                    &&& (#[trigger] layouts@[m]).definition == fs[m]
                    &&& layouts@[m].offset == ls[m].0
                    &&& layouts@[m].size == ls[m].1
                    &&& layouts@[m].alignment == ls[m].2
                },
        decreases n - i,
    {
        proof {
            lemma_fold_positive(fs, ct@, f, i as nat);
            assert(!unreachable_failure(record_fold(fs, ct@, f, (i + 1) as nat)));
        }
        let field = &fields[i];
        let (size, alignment) = match field_size_align_fuel(&field.field_type, ct, fuel) {
            Ok(p) => p,
            Err(e) => {
                proof {
                    assert(record_fold(fs, ct@, f, (i + 1) as nat) is Err);
                    lemma_fold_err_propagates(fs, ct@, f, (i + 1) as nat, n as nat);
                }
                return Err(e);
            },
        };
        proof {
            let r = field_sa(fs[i as int].field_type, ct@, f);
            assert(r matches Ok((s, a)) && s == size && a == alignment && a >= 1);
            let step = record_fold(fs, ct@, f, (i + 1) as nat);
            assert(!unreachable_failure(step));
        }
        let padding = (alignment - (current_offset % alignment)) % alignment;
        current_offset = current_offset + padding;
        let layout = FieldLayout { definition: field.duplicate(), offset: current_offset, size, alignment };
        layouts.push(layout);
        current_offset = current_offset + size;
        max_alignment = if max_alignment >= alignment { max_alignment } else { alignment };
        i += 1;
    }
    let total_padding = (max_alignment - (current_offset % max_alignment)) % max_alignment;
    let total_size = current_offset + total_padding;
    Ok(RecordLayout { fields: layouts, total_size, alignment: max_alignment })
}

proof fn lemma_fold_err_propagates(fs: Seq<FieldDefinition>, ct: Seq<(String, Vec<FieldDefinition>)>, fuel: nat, k: nat, n: nat)
    requires
        k <= n,
        n == fs.len(),
        record_fold(fs, ct, fuel, k) is Err,
    ensures
        record_fold(fs, ct, fuel, n) is Err,
        record_total(fs, ct, fuel) is Err,
    decreases n - k,
{
    if k < n {
        lemma_fold_err_propagates(fs, ct, fuel, k + 1, n);
    }
}

/// A failure at a prefix is the failure of the whole record.
proof fn lemma_fold_prefix_failure(fs: Seq<FieldDefinition>, ct: Seq<(String, Vec<FieldDefinition>)>, fuel: nat, n: nat)
    requires
        n == fs.len(),
    ensures
        forall|k: nat| k <= n && #[trigger] record_fold(fs, ct, fuel, k) is Err ==> record_fold(fs, ct, fuel, n) == record_fold(fs, ct, fuel, k),
        record_fold(fs, ct, fuel, n) is Err ==> record_total(fs, ct, fuel) == record_fold(fs, ct, fuel, n),
{
    assert forall|k: nat| k <= n && #[trigger] record_fold(fs, ct, fuel, k) is Err implies record_fold(fs, ct, fuel, n) == record_fold(fs, ct, fuel, k) by {
        lemma_fold_err_same(fs, ct, fuel, k, n);
    }
}

proof fn lemma_fold_err_same(fs: Seq<FieldDefinition>, ct: Seq<(String, Vec<FieldDefinition>)>, fuel: nat, k: nat, n: nat)
    requires
        k <= n,
        n <= fs.len(),
        record_fold(fs, ct, fuel, k) is Err,
    ensures
        record_fold(fs, ct, fuel, n) == record_fold(fs, ct, fuel, k),
    decreases n - k,
{
    if k < n {
        lemma_fold_err_same(fs, ct, fuel, k, (n - 1) as nat);
    }
}

/// The kind of a layout outcome: 0 for a layout, 1 for a missing custom
/// type, 2 for an overflow, 3 for nesting deeper than the fuel.
pub open spec fn outcome_kind<T>(r: core::result::Result<T, LayoutFailure>) -> u8 {
    match r {
        Ok(_) => 0,
        Err(LayoutFailure::Missing) => 1,
        Err(LayoutFailure::Overflow) => 2,
        Err(LayoutFailure::Cyclic) => 3,
    }
}

/// More fuel changes no outcome that did not run out of fuel.
proof fn lemma_field_mono(t: FieldType, ct: Seq<(String, Vec<FieldDefinition>)>, f: nat, g: nat)
    requires
        f <= g,
        outcome_kind(field_sa(t, ct, f)) != 3,
    ensures
        field_sa(t, ct, g) == field_sa(t, ct, f),
    decreases f, 0nat,
{
    match t {
        FieldType::Array { element_type, length } => {
            lemma_field_mono(*element_type, ct, (f - 1) as nat, (g - 1) as nat);
        },
        FieldType::Struct(n) | FieldType::Custom(n) => {
            if let Some(fs) = lookup_custom(ct, n@) {
                lemma_total_mono(fs, ct, (f - 1) as nat, (g - 1) as nat);
            }
        },
        _ => {},
    }
}

proof fn lemma_fold_mono(fs: Seq<FieldDefinition>, ct: Seq<(String, Vec<FieldDefinition>)>, f: nat, g: nat, n: nat)
    requires
        f <= g,
        outcome_kind(record_fold(fs, ct, f, n)) != 3,
    ensures
        record_fold(fs, ct, g, n) == record_fold(fs, ct, f, n),
    decreases f, n + 1,
{
    if n > 0 && n <= fs.len() {
        lemma_fold_mono(fs, ct, f, g, (n - 1) as nat);
        if record_fold(fs, ct, f, (n - 1) as nat) is Ok {
            lemma_field_mono(fs[n - 1].field_type, ct, f, g);
        }
    }
}

proof fn lemma_total_mono(fs: Seq<FieldDefinition>, ct: Seq<(String, Vec<FieldDefinition>)>, f: nat, g: nat)
    requires
        f <= g,
        outcome_kind(record_total(fs, ct, f)) != 3,
    ensures
        record_total(fs, ct, g) == record_total(fs, ct, f),
    decreases f, fs.len() + 2,
{
    lemma_fold_mono(fs, ct, f, g, fs.len());
}

/// The kind, size and alignment of the layout of a field type with `fuel`.
fn probe_field(t: &FieldType, ct: &CustomTypes, fuel: u64) -> (r: (u8, usize, usize))
    ensures
        r.0 == outcome_kind(field_sa(*t, ct@, fuel as nat)),
        field_sa(*t, ct@, fuel as nat) matches Ok((s, a)) ==> r.1 == s && r.2 == a,
    decreases fuel, 0nat,
{
    proof {
        lemma_field_positive(*t, ct@, fuel as nat);
    }
    match t {
        FieldType::U8 | FieldType::I8 | FieldType::Bool => (0, 1, 1),
        FieldType::U16 | FieldType::I16 => (0, 2, 2),
        FieldType::U32 | FieldType::I32 | FieldType::F32 | FieldType::Enum(_) => (0, 4, 4),
        FieldType::U64 | FieldType::I64 | FieldType::F64 => (0, 8, 8),
        FieldType::Array { element_type, length } => {
            if fuel == 0 {
                return (3, 0, 0);
            }
            let (k, s, a) = probe_field(element_type, ct, fuel - 1);
            if k != 0 {
                return (k, 0, 0);
            }
            let su = s as u128;
            let lu = *length as u128;
            assert(su * lu <= u128::MAX) by (nonlinear_arith)
                requires su <= 0xffff_ffff_ffff_ffffu128, lu <= 0xffff_ffff_ffff_ffffu128;
            let wide = su * lu;
            if wide > usize::MAX as u128 {
                (2, 0, 0)
            } else {
                (0, wide as usize, a)
            }
        },
        FieldType::Struct(name) | FieldType::Custom(name) => {
            if fuel == 0 {
                return (3, 0, 0);
            }
            let fields = match find_custom(ct, name) {
                Some(f) => f,
                None => return (1, 0, 0),
            };
            let (k, tot, al) = probe_record(fields.as_slice(), ct, fuel - 1);
            if k != 0 {
                (k, 0, 0)
            } else {
                (0, tot, al)
            }
        },
    }
}

/// The kind, total size and alignment of the layout of a record with `fuel`.
fn probe_record(fields: &[FieldDefinition], ct: &CustomTypes, fuel: u64) -> (r: (u8, usize, usize))
    ensures
        r.0 == outcome_kind(record_total(fields@, ct@, fuel as nat)),
        record_total(fields@, ct@, fuel as nat) matches Ok((tot, ma, _)) ==> r.1 == tot && r.2 == ma,
    decreases fuel, 1nat,
{
    let ghost fs = fields@;
    let ghost f = fuel as nat;
    proof {
        lemma_fold_prefix_failure(fs, ct@, f, fs.len());
    }
    let mut off: usize = 0;
    let mut ma: usize = 1;
    let n = fields.len();
    let mut i: usize = 0;
    while i < n
        invariant
            n == fs.len(),
            fs == fields@,
            f == fuel,
            i <= n,
            record_fold(fs, ct@, f, i as nat) matches Ok((o, m, _)) && o == off && m == ma,
            forall|k: nat| k <= n && #[trigger] record_fold(fs, ct@, f, k) is Err ==> record_fold(fs, ct@, f, n as nat)
                == record_fold(fs, ct@, f, k),
            record_fold(fs, ct@, f, n as nat) is Err ==> record_total(fs, ct@, f) == record_fold(fs, ct@, f, n as nat),
        decreases n - i,
    {
        proof {
            lemma_fold_positive(fs, ct@, f, i as nat);
        }
        let (k, s, a) = probe_field(&fields[i].field_type, ct, fuel);
        if k != 0 {
            proof {
                assert(record_fold(fs, ct@, f, (i + 1) as nat) is Err);
            }
            return (k, 0, 0);
        }
        proof {
            lemma_field_positive(fs[i as int].field_type, ct@, f);
        }
        let p = (a - (off % a)) % a;
        let wide = (off as u128) + (p as u128) + (s as u128);
        if wide > usize::MAX as u128 {
            proof {
                assert(record_fold(fs, ct@, f, (i + 1) as nat) is Err);
            }
            return (2, 0, 0);
        }
        off = wide as usize;
        ma = if ma >= a { ma } else { a };
        i += 1;
    }
    proof {
        lemma_fold_positive(fs, ct@, f, n as nat);
    }
    let tp = (ma - (off % ma)) % ma;
    let wide = (off as u128) + (tp as u128);
    if wide > usize::MAX as u128 {
        (2, 0, 0)
    } else {
        (0, wide as usize, ma)
    }
}

/// Whether the layout of `fields` can be computed: a test, without running
/// out of stack on custom types that contain themselves. When it holds, the
/// layout computation neither overflows nor resolves types forever; custom
/// types nested deeper than 1024 levels are not accepted by it.
pub fn layout_check(fields: &[FieldDefinition], custom_types: &CustomTypes) -> (b: bool)
    ensures
        b ==> layout_computable(fields@, custom_types@),
        b <== outcome_kind(record_total(fields@, custom_types@, 1024)) <= 1,
{
    let (k, _, _) = probe_record(fields, custom_types, 1024);
    proof {
        reveal(layout_computable);
        if k <= 1 {
            lemma_total_mono(fields@, custom_types@, 1024, layout_fuel());
        }
    }
    k <= 1
}

/// The layout of `fields` can be computed without overflowing a `usize`
/// or resolving custom types forever.
#[verifier::opaque]
pub open spec fn layout_computable(fields: Seq<FieldDefinition>, ct: Seq<(String, Vec<FieldDefinition>)>) -> bool {
    !unreachable_failure(record_total(fields, ct, layout_fuel()))
}

/// The layout of `fields` exists: every custom type it uses is defined.
#[verifier::opaque]
pub open spec fn layout_ok(fields: Seq<FieldDefinition>, ct: Seq<(String, Vec<FieldDefinition>)>) -> bool {
    record_total(fields, ct, layout_fuel()) is Ok
}

/// Places the fields of a record one after another, each at the next offset
/// that is a multiple of its alignment, and pads the total to a multiple of
/// the largest alignment.
pub fn compute_record_layout(fields: &[FieldDefinition], custom_types: &CustomTypes) -> (res: Result<RecordLayout>)
    requires
        !unreachable_failure(record_total(fields@, custom_types@, layout_fuel())),
    ensures
        record_total(fields@, custom_types@, layout_fuel()) matches Ok((tot, ma, ls)) ==> (res matches Ok(l)
            && layout_matches(l, fields@, tot, ma, ls)),
        record_total(fields@, custom_types@, layout_fuel()) is Err ==> res matches Err(EcsDbError::SchemaError(_)),
{
    layout_fuel_of(fields, custom_types, u64::MAX)
}

/// Size and alignment of a field type, resolving custom types.
pub fn compute_field_size_and_alignment(field_type: &FieldType, custom_types: &CustomTypes) -> (res: Result<(usize, usize)>)
    requires
        !unreachable_failure(field_sa(*field_type, custom_types@, layout_fuel())),
    ensures
        field_sa(*field_type, custom_types@, layout_fuel()) matches Ok((s, a)) ==> res == Ok::<(usize, usize), EcsDbError>(
            (s as usize, a as usize),
        ),
        field_sa(*field_type, custom_types@, layout_fuel()) is Err ==> res matches Err(EcsDbError::SchemaError(_)),
{
    field_size_align_fuel(field_type, custom_types, u64::MAX)
}

/// A record's layout places every field at a multiple of its own alignment
/// and after the end of the field before it; the record's alignment is the
/// largest of its fields' (1 for a record without fields); and the total
/// size is the least multiple of that alignment that holds the last field.
/// `l` is the layout that `compute_record_layout` gives for `fields`.
pub proof fn law_record_layout_padded(
    fields: Seq<FieldDefinition>,
    ct: Seq<(String, Vec<FieldDefinition>)>,
    l: RecordLayout,
)
    requires
        record_total(fields, ct, layout_fuel()) matches Ok((tot, ma, ls)) && layout_matches(l, fields, tot, ma, ls),
    ensures
        ({
            let n = l.fields@.len();
            let end = if n == 0 {
                0
            } else {
                l.fields@[n - 1].offset + l.fields@[n - 1].size
            };
            &&& n == fields.len()
            &&& l.alignment >= 1
            &&& l.total_size % l.alignment == 0
            &&& end <= l.total_size < end + l.alignment
            &&& n == 0 ==> l.alignment == 1
            &&& n > 0 ==> exists|j: int| 0 <= j < n && (#[trigger] l.fields@[j]).alignment == l.alignment
            &&& forall|j: int|
                0 <= j < n ==> {
                    &&& 1 <= (#[trigger] l.fields@[j]).alignment <= l.alignment
                    &&& l.fields@[j].offset % l.fields@[j].alignment == 0
                }
            &&& forall|j: int|
                0 < j < n ==> l.fields@[j - 1].offset + l.fields@[j - 1].size <= (#[trigger] l.fields@[j]).offset
        }),
{
    let fuel = layout_fuel();
    lemma_fold_shape(fields, ct, fuel, fields.len());
    let (off, ma, ls) = record_fold(fields, ct, fuel, fields.len())->Ok_0;
    lemma_pad(off, ma);
    let n = l.fields@.len();
    assert forall|j: int| 0 <= j < n implies {
        &&& 1 <= (#[trigger] l.fields@[j]).alignment <= l.alignment
        &&& l.fields@[j].offset % l.fields@[j].alignment == 0
    } by {
        assert(l.fields@[j].offset == ls[j].0 && l.fields@[j].alignment == ls[j].2);
    }
    assert forall|j: int| 0 < j < n implies l.fields@[j - 1].offset + l.fields@[j - 1].size <= (
    #[trigger] l.fields@[j]).offset by {
        assert(l.fields@[j - 1].offset == ls[j - 1].0 && l.fields@[j - 1].size == ls[j - 1].1);
        assert(l.fields@[j].offset == ls[j].0);
    }
    if n > 0 {
        assert(l.fields@[n - 1].offset == ls[n - 1].0 && l.fields@[n - 1].size == ls[n - 1].1);
        let j = choose|j: int| 0 <= j < ls.len() && ls[j].2 == ma;
        assert(l.fields@[j].alignment == ls[j].2);
    }
}

/// The padding after `off` reaches the next multiple of `a`.
proof fn lemma_pad(off: int, a: int)
    requires
        off >= 0,
        a >= 1,
    ensures
        0 <= pad(off, a) < a,
        (off + pad(off, a)) % a == 0,
{
    let r = off % a;
    vstd::arithmetic::div_mod::lemma_fundamental_div_mod(off, a);
    if r == 0 {
        assert(pad(off, a) == 0) by {
            vstd::arithmetic::div_mod::lemma_mod_self_0(a);
        }
    } else {
        assert(pad(off, a) == a - r) by {
            vstd::arithmetic::div_mod::lemma_small_mod((a - r) as nat, a as nat);
        }
        assert(off + (a - r) == (off / a + 1) * a) by (nonlinear_arith)
            requires
                off == a * (off / a) + r,
        ;
        vstd::arithmetic::div_mod::lemma_mod_multiples_basic(off / a + 1, a);
    }
}

/// The shape of the first `n` placements of a record: one per field, each
/// at a multiple of its alignment and after the one before, the offset
/// reached being the end of the last; the alignment so far is the largest
/// of theirs, or 1.
proof fn lemma_fold_shape(fs: Seq<FieldDefinition>, ct: Seq<(String, Vec<FieldDefinition>)>, fuel: nat, n: nat)
    requires
        n <= fs.len(),
    ensures
        record_fold(fs, ct, fuel, n) matches Ok((off, ma, ls)) ==> {
            &&& ls.len() == n
            &&& off == if n == 0 { 0 } else { ls[n - 1].0 + ls[n - 1].1 }
            &&& off >= 0
            &&& ma >= 1
            &&& n == 0 ==> ma == 1
            &&& n > 0 ==> exists|j: int| 0 <= j < n && #[trigger] ls[j].2 == ma
            &&& forall|j: int|
                0 <= j < n ==> {
                    &&& 1 <= (#[trigger] ls[j]).2 <= ma
                    &&& ls[j].0 >= 0
                    &&& ls[j].1 >= 0
                    &&& ls[j].0 % ls[j].2 == 0
                }
            &&& forall|j: int| 0 < j < n ==> ls[j - 1].0 + ls[j - 1].1 <= (#[trigger] ls[j]).0
        },
    decreases n,
{
    if n > 0 {
        lemma_fold_shape(fs, ct, fuel, (n - 1) as nat);
        lemma_field_positive(fs[n - 1].field_type, ct, fuel);
        if let Ok((off, ma, ls)) = record_fold(fs, ct, fuel, (n - 1) as nat) {
            if let Ok((s, a)) = field_sa(fs[n - 1].field_type, ct, fuel) {
                lemma_pad(off, a);
                let p = pad(off, a);
                if off + p + s <= usize::MAX {
                    let ma2 = if ma >= a { ma } else { a };
                    let ls2 = ls.push((off + p, s, a));
                    assert(ls2[n - 1] == (off + p, s, a));
                    assert forall|j: int| 0 <= j < n implies {
                        &&& 1 <= (#[trigger] ls2[j]).2 <= ma2
                        &&& ls2[j].0 >= 0
                        &&& ls2[j].1 >= 0
                        &&& ls2[j].0 % ls2[j].2 == 0
                    } by {
                        if j < n - 1 {
                            assert(ls2[j] == ls[j]);
                        }
                    }
                    assert forall|j: int| 0 < j < n implies ls2[j - 1].0 + ls2[j - 1].1 <= (#[trigger] ls2[j]).0 by {
                        if j < n - 1 {
                            assert(ls2[j] == ls[j] && ls2[j - 1] == ls[j - 1]);
                        } else {
                            assert(ls2[j - 1] == ls[j - 1]);
                        }
                    }
                    if ma >= a && n > 1 {
                        let j = choose|j: int| 0 <= j < n - 1 && #[trigger] ls[j].2 == ma;
                        assert(ls2[j] == ls[j]);
                    }
                }
            }
        }
    }
}

} // verus!
