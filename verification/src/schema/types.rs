use crate::error::{EcsDbError, Result};
use crate::text::owned;
use vstd::prelude::*;

verus! {

/// The type of a field of a table or custom type.
#[derive(Debug, PartialEq, Eq)]
pub enum FieldType {
    U8,
    U16,
    U32,
    U64,
    I8,
    I16,
    I32,
    I64,
    F32,
    F64,
    Bool,
    Array { element_type: Box<FieldType>, length: usize },
    Enum(String),
    Struct(String),
    Custom(String),
}

/// Whether two types are the same: the same variant, the same array length
/// and element type, the same name.
pub open spec fn same_type(a: FieldType, b: FieldType) -> bool
    decreases a,
{
    match (a, b) {
        (FieldType::U8, FieldType::U8) => true,
        (FieldType::U16, FieldType::U16) => true,
        (FieldType::U32, FieldType::U32) => true,
        (FieldType::U64, FieldType::U64) => true,
        (FieldType::I8, FieldType::I8) => true,
        (FieldType::I16, FieldType::I16) => true,
        (FieldType::I32, FieldType::I32) => true,
        (FieldType::I64, FieldType::I64) => true,
        (FieldType::F32, FieldType::F32) => true,
        (FieldType::F64, FieldType::F64) => true,
        (FieldType::Bool, FieldType::Bool) => true,
        (
            FieldType::Array { element_type: ae, length: al },
            FieldType::Array { element_type: be, length: bl },
        ) => al == bl && same_type(*ae, *be),
        (FieldType::Enum(x), FieldType::Enum(y)) => x@ == y@,
        (FieldType::Struct(x), FieldType::Struct(y)) => x@ == y@,
        (FieldType::Custom(x), FieldType::Custom(y)) => x@ == y@,
        _ => false,
    }
}

/// Size in bytes of a type, `None` for a custom or struct type (which must
/// be resolved first).
pub open spec fn spec_size_bytes(t: FieldType) -> Option<int>
    decreases t,
{
    match t {
        FieldType::U8 | FieldType::I8 | FieldType::Bool => Some(1),
        FieldType::U16 | FieldType::I16 => Some(2),
        FieldType::U32 | FieldType::I32 | FieldType::F32 | FieldType::Enum(_) => Some(4),
        FieldType::U64 | FieldType::I64 | FieldType::F64 => Some(8),
        FieldType::Array { element_type, length } => match spec_size_bytes(*element_type) {
            Some(s) => Some(s * length),
            None => None,
        },
        FieldType::Struct(_) | FieldType::Custom(_) => None,
    }
}

/// Every size computed on the way to `spec_size_bytes(t)` fits in a `usize`.
pub open spec fn size_fits(t: FieldType) -> bool
    decreases t,
{
    match t {
        FieldType::Array { element_type, length } => size_fits(*element_type) && match spec_size_bytes(
            *element_type,
        ) {
            Some(s) => s * length <= usize::MAX,
            None => true,
        },
        _ => true,
    }
}

/// Alignment in bytes of a type (8 for custom and struct types).
pub open spec fn spec_alignment(t: FieldType) -> int
    decreases t,
{
    match t {
        FieldType::U8 | FieldType::I8 | FieldType::Bool => 1,
        FieldType::U16 | FieldType::I16 => 2,
        FieldType::U32 | FieldType::I32 | FieldType::F32 | FieldType::Enum(_) => 4,
        FieldType::U64 | FieldType::I64 | FieldType::F64 => 8,
        FieldType::Array { element_type, .. } => spec_alignment(*element_type),
        _ => 8,
    }
}

/// A size that every step fits in a `usize` fits in a `usize` itself.
pub proof fn lemma_size_in_range(t: FieldType)
    requires
        size_fits(t),
    ensures
        spec_size_bytes(t) matches Some(n) ==> 0 <= n <= usize::MAX,
    decreases t,
{
    if let FieldType::Array { element_type, length } = t {
        lemma_size_in_range(*element_type);
        if let Some(s) = spec_size_bytes(*element_type) {
            assert(0 <= s * length) by (nonlinear_arith)
                requires 0 <= s, 0 <= length;
        }
    }
}

impl FieldType {
    /// The size in bytes of this type.
    pub fn size_bytes(&self) -> (res: Result<usize>)
        requires
            size_fits(*self),
        ensures
            spec_size_bytes(*self) matches Some(n) ==> res == Ok::<usize, EcsDbError>(n as usize),
            spec_size_bytes(*self) is None ==> res matches Err(EcsDbError::SchemaError(_)),
        decreases *self,
    {
        match self {
            FieldType::U8 => Ok(1),
            FieldType::U16 => Ok(2),
            FieldType::U32 => Ok(4),
            FieldType::U64 => Ok(8),
            FieldType::I8 => Ok(1),
            FieldType::I16 => Ok(2),
            FieldType::I32 => Ok(4),
            FieldType::I64 => Ok(8),
            FieldType::F32 => Ok(4),
            FieldType::F64 => Ok(8),
            FieldType::Bool => Ok(1),
            FieldType::Array { element_type, length } => {
                proof {
                    lemma_size_in_range(**element_type);
                    lemma_size_in_range(*self);
                }
                let elem_size = match element_type.size_bytes() {
                    Ok(s) => s,
                    Err(e) => return Err(e),
                };
                Ok(elem_size * *length)
            },
            FieldType::Enum(_) => Ok(4),
            FieldType::Struct(_) | FieldType::Custom(_) => Err(
                EcsDbError::SchemaError(
                    owned("Custom types must be resolved before size calculation"),
                ),
            ),
        }
    }

    /// The alignment requirement in bytes.
    pub fn alignment(&self) -> (a: usize)
        ensures
            a == spec_alignment(*self),
        decreases *self,
    {
        match self {
            FieldType::U8 | FieldType::I8 | FieldType::Bool => 1,
            FieldType::U16 | FieldType::I16 => 2,
            FieldType::U32 | FieldType::I32 | FieldType::F32 | FieldType::Enum(_) => 4,
            FieldType::U64 | FieldType::I64 | FieldType::F64 => 8,
            FieldType::Array { element_type, .. } => element_type.alignment(),
            _ => 8,
        }
    }

    /// A copy of this type.
    pub fn duplicate(&self) -> (t: FieldType)
        ensures
            t == *self,
        decreases *self,
    {
        match self {
            FieldType::U8 => FieldType::U8,
            FieldType::U16 => FieldType::U16,
            FieldType::U32 => FieldType::U32,
            FieldType::U64 => FieldType::U64,
            FieldType::I8 => FieldType::I8,
            FieldType::I16 => FieldType::I16,
            FieldType::I32 => FieldType::I32,
            FieldType::I64 => FieldType::I64,
            FieldType::F32 => FieldType::F32,
            FieldType::F64 => FieldType::F64,
            FieldType::Bool => FieldType::Bool,
            FieldType::Array { element_type, length } => FieldType::Array {
                element_type: Box::new(element_type.duplicate()),
                length: *length,
            },
            FieldType::Enum(n) => FieldType::Enum(n.clone()),
            FieldType::Struct(n) => FieldType::Struct(n.clone()),
            FieldType::Custom(n) => FieldType::Custom(n.clone()),
        }
    }
}

/// A field of a table or custom type.
#[derive(Debug)]
pub struct FieldDefinition {
    pub name: String,
    pub field_type: FieldType,
    pub nullable: bool,
    pub indexed: bool,
    pub primary_key: bool,
    /// The referenced "table.field" or "table".
    pub foreign_key: Option<String>,
}

/// Copy of an optional string.
pub fn copy_opt_string(s: &Option<String>) -> (r: Option<String>)
    ensures
        r == *s,
{
    match s {
        Some(x) => Some(x.clone()),
        None => None,
    }
}

impl FieldDefinition {
    /// A copy of this definition.
    pub fn duplicate(&self) -> (d: FieldDefinition)
        ensures
            d == *self,
    {
        FieldDefinition {
            name: self.name.clone(),
            field_type: self.field_type.duplicate(),
            nullable: self.nullable,
            indexed: self.indexed,
            primary_key: self.primary_key,
            foreign_key: copy_opt_string(&self.foreign_key),
        }
    }
}

/// A copy of a list of field definitions.
pub fn copy_fields(fields: &[FieldDefinition]) -> (r: Vec<FieldDefinition>)
    ensures
        r@ == fields@,
{
    let mut r: Vec<FieldDefinition> = Vec::new();
    let mut i: usize = 0;
    while i < fields.len()
        invariant
            i <= fields@.len(),
            r@ == fields@.subrange(0, i as int),
        decreases fields@.len() - i,
    {
        r.push(fields[i].duplicate());
        i += 1;
        assert(r@ =~= fields@.subrange(0, i as int));
    }
    assert(fields@.subrange(0, fields@.len() as int) =~= fields@);
    r
}

/// A table: a named list of fields.
#[derive(Debug)]
pub struct TableDefinition {
    pub name: String,
    pub fields: Vec<FieldDefinition>,
    pub parent_table: Option<String>,
    pub description: Option<String>,
}

/// Named custom types, each a list of fields; a name occurs once.
pub type CustomTypes = Vec<(String, Vec<FieldDefinition>)>;

/// Named enums, each a list of variant names; a name occurs once.
pub type EnumDefinitions = Vec<(String, Vec<String>)>;

/// A database schema.
#[derive(Debug)]
pub struct DatabaseSchema {
    pub name: String,
    pub version: String,
    pub tables: Vec<TableDefinition>,
    pub enums: EnumDefinitions,
    pub custom_types: CustomTypes,
}

/// The position of the first table named `name`, if any.
pub open spec fn spec_find_table(tables: Seq<TableDefinition>, name: Seq<char>) -> Option<int> {
    if exists|i: int| 0 <= i < tables.len() && tables[i].name@ == name {
        Some(
            choose|i: int|
                0 <= i < tables.len() && tables[i].name@ == name && forall|j: int|
                    0 <= j < i ==> tables[j].name@ != name,
        )
    } else {
        None
    }
}

impl DatabaseSchema {
    /// The first table with the given name.
    pub fn find_table(&self, name: &str) -> (r: Option<&TableDefinition>)
        ensures
            spec_find_table(self.tables@, name@) matches Some(i) ==> r == Some(&self.tables@[i])
                && 0 <= i < self.tables@.len() && self.tables@[i].name@ == name@,
            spec_find_table(self.tables@, name@) is None ==> r is None,
    {
        let key = owned(name);
        let mut i: usize = 0;
        while i < self.tables.len()
            invariant
                key@ == name@,
                i <= self.tables@.len(),
                forall|j: int| 0 <= j < i ==> self.tables@[j].name@ != name@,
            decreases self.tables@.len() - i,
        {
            if self.tables[i].name == key {
                proof {
                    let t = self.tables@;
                    assert(t[i as int].name@ == name@);
                    let k = choose|k: int|
                        0 <= k < t.len() && t[k].name@ == name@ && forall|j: int|
                            0 <= j < k ==> t[j].name@ != name@;
                    if k < i {
                        assert(t[k].name@ != name@);
                    }
                    if k > i {
                        assert(t[i as int].name@ != name@);
                    }
                }
                return Some(&self.tables[i]);
            }
            i += 1;
        }
        None
    }
}

/// Two schemas hold the same definitions.
pub open spec fn same_schema(a: DatabaseSchema, b: DatabaseSchema) -> bool {
    &&& a.name == b.name
    &&& a.version == b.version
    &&& a.tables@.len() == b.tables@.len()
    &&& forall|i: int| 0 <= i < a.tables@.len() ==> {
        let (x, y) = (#[trigger] a.tables@[i], b.tables@[i]);
        &&& x.name == y.name
        &&& x.fields@ == y.fields@
        &&& x.parent_table == y.parent_table
        &&& x.description == y.description
    }
    &&& a.enums@.len() == b.enums@.len()
    &&& forall|i: int| 0 <= i < a.enums@.len() ==> (#[trigger] a.enums@[i]).0 == b.enums@[i].0 && a.enums@[i].1@ == b.enums@[i].1@
    &&& a.custom_types@.len() == b.custom_types@.len()
    &&& forall|i: int| 0 <= i < a.custom_types@.len() ==> (#[trigger] a.custom_types@[i]).0 == b.custom_types@[i].0 && a.custom_types@[i].1@ == b.custom_types@[i].1@
}

fn copy_strings(v: &Vec<String>) -> (r: Vec<String>)
    ensures
        r@ == v@,
{
    let mut r: Vec<String> = Vec::new();
    let mut i: usize = 0;
    while i < v.len()
        invariant
            i <= v@.len(),
            r@ == v@.subrange(0, i as int),
        decreases v@.len() - i,
    {
        r.push(v[i].clone());
        i += 1;
        assert(r@ =~= v@.subrange(0, i as int));
    }
    assert(v@.subrange(0, v@.len() as int) =~= v@);
    r
}

impl DatabaseSchema {
    /// A copy of the schema.
    pub fn duplicate(&self) -> (r: DatabaseSchema)
        ensures
            same_schema(r, *self),
    {
        let mut tables: Vec<TableDefinition> = Vec::new();
        let mut i: usize = 0;
        while i < self.tables.len()
            invariant
                i <= self.tables@.len(),
                tables@.len() == i,
                forall|k: int| 0 <= k < i ==> {
                    let (x, y) = (#[trigger] tables@[k], self.tables@[k]);
                    &&& x.name == y.name
                    &&& x.fields@ == y.fields@
                    &&& x.parent_table == y.parent_table
                    &&& x.description == y.description
                },
            decreases self.tables@.len() - i,
        {
            let t = &self.tables[i];
            tables.push(TableDefinition {
                name: t.name.clone(),
                fields: copy_fields(t.fields.as_slice()),
                parent_table: copy_opt_string(&t.parent_table),
                description: copy_opt_string(&t.description),
            });
            i += 1;
        }
        let mut enums: EnumDefinitions = Vec::new();
        let mut j: usize = 0;
        while j < self.enums.len()
            invariant
                j <= self.enums@.len(),
                enums@.len() == j,
                forall|k: int| 0 <= k < j ==> (#[trigger] enums@[k]).0 == self.enums@[k].0 && enums@[k].1@ == self.enums@[k].1@,
            decreases self.enums@.len() - j,
        {
            enums.push((self.enums[j].0.clone(), copy_strings(&self.enums[j].1)));
            j += 1;
        }
        let mut custom: CustomTypes = Vec::new();
        let mut c: usize = 0;
        while c < self.custom_types.len()
            invariant
                c <= self.custom_types@.len(),
                custom@.len() == c,
                forall|k: int| 0 <= k < c ==> (#[trigger] custom@[k]).0 == self.custom_types@[k].0 && custom@[k].1@ == self.custom_types@[k].1@,
            decreases self.custom_types@.len() - c,
        {
            custom.push((self.custom_types[c].0.clone(), copy_fields(self.custom_types[c].1.as_slice())));
            c += 1;
        }
        DatabaseSchema {
            name: self.name.clone(),
            version: self.version.clone(),
            tables,
            enums,
            custom_types: custom,
        }
    }
}

} // verus!
