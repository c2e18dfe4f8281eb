use crate::error::{EcsDbError, Result};
use crate::schema::types::{same_type, DatabaseSchema, FieldDefinition, FieldType, TableDefinition};
use crate::text::{chars_of, join, owned, string_of};
use vstd::prelude::*;

verus! {

/// Checks a schema for consistency.
pub struct SchemaValidator;

/// The part of `s` before the first '.', and the part after it if there is one.
pub open spec fn split_dot(s: Seq<char>) -> (Seq<char>, Option<Seq<char>>) {
    if exists|i: int| 0 <= i < s.len() && s[i] == '.' {
        let i = choose|i: int| 0 <= i < s.len() && s[i] == '.' && forall|j: int| 0 <= j < i ==> s[j] != '.';
        (s.subrange(0, i), Some(s.subrange(i + 1, s.len() as int)))
    } else {
        (s, None)
    }
}

/// The first table named `name`.
pub open spec fn first_table(tables: Seq<TableDefinition>, name: Seq<char>) -> Option<TableDefinition> {
    if exists|i: int| 0 <= i < tables.len() && tables[i].name@ == name {
        let i = choose|i: int| 0 <= i < tables.len() && tables[i].name@ == name && forall|j: int| 0 <= j < i ==> tables[j].name@ != name;
        Some(tables[i])
    } else {
        None
    }
}

/// The first field named `name`.
pub open spec fn first_field(fields: Seq<FieldDefinition>, name: Seq<char>) -> Option<FieldDefinition> {
    if exists|i: int| 0 <= i < fields.len() && fields[i].name@ == name {
        let i = choose|i: int| 0 <= i < fields.len() && fields[i].name@ == name && forall|j: int| 0 <= j < i ==> fields[j].name@ != name;
        Some(fields[i])
    } else {
        None
    }
}

/// Whether a foreign key of a field of type `t` resolves: it names a table
/// and, after a '.', a primary-key field of the same type; or it names only a
/// table that has a primary-key field.
pub open spec fn fk_resolves(tables: Seq<TableDefinition>, t: FieldType, fk: Seq<char>) -> bool {
    let (tbl, fld) = split_dot(fk);
    match first_table(tables, tbl) {
        None => false,
        Some(rt) => match fld {
            Some(fname) => match first_field(rt.fields@, fname) {
                None => false,
                Some(rf) => rf.primary_key && same_type(t, rf.field_type),
            },
            None => exists|k: int| 0 <= k < rt.fields@.len() && rt.fields@[k].primary_key,
        },
    }
}

/// Every foreign key of every field resolves.
pub open spec fn foreign_keys_ok(s: DatabaseSchema) -> bool {
    forall|i: int, j: int|
        0 <= i < s.tables@.len() && 0 <= j < s.tables@[i].fields@.len() ==> ((#[trigger] s.tables@[i].fields@[j]).foreign_key matches Some(fk) ==> fk_resolves(s.tables@, s.tables@[i].fields@[j].field_type, fk@))
}

/// No field is an array of length zero.
pub open spec fn array_lengths_ok(s: DatabaseSchema) -> bool {
    forall|i: int, j: int|
        0 <= i < s.tables@.len() && 0 <= j < s.tables@[i].fields@.len() ==> !((#[trigger] s.tables@[i].fields@[j]).field_type matches FieldType::Array { length, .. } && length == 0)
}

/// The names that tables and fields may not take.
pub open spec fn is_reserved(n: Seq<char>) -> bool {
    n == "id"@ || n == "version"@ || n == "entity_id"@ || n == "table"@ || n == "schema"@ || n == "database"@
}

/// No table or field has a reserved name.
pub open spec fn names_not_reserved(s: DatabaseSchema) -> bool {
    &&& forall|i: int| 0 <= i < s.tables@.len() ==> !is_reserved((#[trigger] s.tables@[i]).name@)
    &&& forall|i: int, j: int|
        0 <= i < s.tables@.len() && 0 <= j < s.tables@[i].fields@.len() ==> !is_reserved((#[trigger] s.tables@[i].fields@[j]).name@)
}

/// No two tables share a name.
pub open spec fn table_names_unique(s: DatabaseSchema) -> bool {
    forall|a: int, b: int| 0 <= a < b < s.tables@.len() ==> (#[trigger] s.tables@[a]).name@ != (#[trigger] s.tables@[b]).name@
}

/// No two fields of one table share a name.
pub open spec fn field_names_unique(s: DatabaseSchema) -> bool {
    forall|i: int, a: int, b: int|
        0 <= i < s.tables@.len() && 0 <= a < b < s.tables@[i].fields@.len() ==> (#[trigger] s.tables@[i].fields@[a]).name@ != (#[trigger] s.tables@[i].fields@[b]).name@
}

/// Whether two field types are the same type.
fn types_compatible(a: &FieldType, b: &FieldType) -> (r: bool)
    ensures
        r == same_type(*a, *b),
    decreases *a,
{
    match (a, b) {
        (FieldType::U8, FieldType::U8) => true,
        (FieldType::U16, FieldType::U16) => true,
        (FieldType::U32, FieldType::U32) => true,
        (FieldType::U64, FieldType::U64) => true,
        (FieldType::I8, FieldType::I8) => true,
        (FieldType::I16, FieldType::I16) => true,
        (FieldType::I32, FieldType::I32) => true,
        (FieldType::I64, FieldType::I64) => true,
        (FieldType::F32, FieldType::F32) => true,
        (FieldType::F64, FieldType::F64) => true,
        (FieldType::Bool, FieldType::Bool) => true,
        (
            FieldType::Array { element_type: ae, length: al },
            FieldType::Array { element_type: be, length: bl },
        ) => *al == *bl && types_compatible(ae, be),
        (FieldType::Enum(x), FieldType::Enum(y)) => *x == *y,
        (FieldType::Struct(x), FieldType::Struct(y)) => *x == *y,
        (FieldType::Custom(x), FieldType::Custom(y)) => *x == *y,
        _ => false,
    }
}

/// Splits at the first '.'.
fn split_once_dot(s: &String) -> (r: (String, Option<String>))
    ensures
        r.0@ == split_dot(s@).0,
        r.1 is Some == split_dot(s@).1 is Some,
        r.1 matches Some(x) ==> split_dot(s@).1 == Some(x@),
{
    let cs = chars_of(s.as_str());
    let mut i: usize = 0;
    while i < cs.len()
        invariant
            cs@ == s@,
            i <= cs@.len(),
            forall|j: int| 0 <= j < i ==> cs@[j] != '.',
        decreases cs@.len() - i,
    {
        if cs[i] == '.' {
            proof {
                let k = choose|k: int| 0 <= k < s@.len() && s@[k] == '.' && forall|j: int| 0 <= j < k ==> s@[j] != '.';
                if k < i {
                    assert(cs@[k] != '.');
                }
                if k > i {
                    assert(s@[i as int] != '.');
                }
            }
            let a = string_of(cs.as_slice(), 0, i);
            let b = string_of(cs.as_slice(), i + 1, cs.len());
            return (a, Some(b));
        }
        i += 1;
    }
    assert(cs@.subrange(0, cs@.len() as int) =~= cs@);
    (string_of(cs.as_slice(), 0, cs.len()), None)
}

fn find_table_by<'a>(tables: &'a Vec<TableDefinition>, name: &String) -> (r: Option<&'a TableDefinition>)
    ensures
        first_table(tables@, name@) matches Some(t) ==> r == Some(&t),
        first_table(tables@, name@) is None ==> r is None,
{
    let mut i: usize = 0;
    while i < tables.len()
        invariant
            i <= tables@.len(),
            forall|j: int| 0 <= j < i ==> tables@[j].name@ != name@,
        decreases tables@.len() - i,
    {
        if tables[i].name == *name {
            proof {
                let k = choose|k: int| 0 <= k < tables@.len() && tables@[k].name@ == name@ && forall|j: int| 0 <= j < k ==> tables@[j].name@ != name@;
                if k < i {
                    assert(tables@[k].name@ != name@);
                }
                if k > i {
                    assert(tables@[i as int].name@ != name@);
                }
            }
            return Some(&tables[i]);
        }
        i += 1;
    }
    None
}

fn find_field_by<'a>(fields: &'a Vec<FieldDefinition>, name: &String) -> (r: Option<&'a FieldDefinition>)
    ensures
        first_field(fields@, name@) matches Some(f) ==> r == Some(&f),
        first_field(fields@, name@) is None ==> r is None,
{
    let mut i: usize = 0;
    while i < fields.len()
        invariant
            i <= fields@.len(),
            forall|j: int| 0 <= j < i ==> fields@[j].name@ != name@,
        decreases fields@.len() - i,
    {
        if fields[i].name == *name {
            proof {
                let k = choose|k: int| 0 <= k < fields@.len() && fields@[k].name@ == name@ && forall|j: int| 0 <= j < k ==> fields@[j].name@ != name@;
                if k < i {
                    assert(fields@[k].name@ != name@);
                }
                if k > i {
                    assert(fields@[i as int].name@ != name@);
                }
            }
            return Some(&fields[i]);
        }
        i += 1;
    }
    None
}

fn reserved(n: &String) -> (r: bool)
    ensures
        r == is_reserved(n@),
{
    *n == owned("id") || *n == owned("version") || *n == owned("entity_id") || *n == owned("table")
        || *n == owned("schema") || *n == owned("database")
}

fn schema_error(msg: &str, name: &String) -> (e: EcsDbError)
    ensures
        e matches EcsDbError::SchemaError(m) && m@ == msg@ + name@ + "'"@,
{
    EcsDbError::SchemaError(join(join(owned(msg), name.as_str()), "'"))
}

/// `m` is a message with prefix `p` about some name: the prefix, the name
/// and a closing quote.
pub open spec fn names_one(m: Seq<char>, p: Seq<char>) -> bool {
    exists|name: Seq<char>| m == #[trigger] (p + name) + "'"@
}

/// `e` is a schema error whose message is one of those that begin with
/// a prefix of `ps`.
pub open spec fn error_of(e: EcsDbError, ps: Seq<Seq<char>>) -> bool {
    e matches EcsDbError::SchemaError(m) && exists|i: int| 0 <= i < ps.len() && names_one(m@, #[trigger] ps[i])
}

/// The messages of the foreign-key check.
pub open spec fn fk_messages() -> Seq<Seq<char>> {
    seq![
        "Foreign key references unknown table '"@,
        "Foreign key references unknown field '"@,
        "Foreign key must reference a primary key field: '"@,
        "Foreign key type mismatch for field '"@,
        "Foreign key references a table which has no primary key field: '"@,
    ]
}

/// The message of the array-length check.
pub open spec fn array_messages() -> Seq<Seq<char>> {
    seq!["Array length must be >0 for field '"@]
}

/// The messages of the reserved-name check.
pub open spec fn reserved_messages() -> Seq<Seq<char>> {
    seq!["Table name is reserved: '"@, "Field name is reserved: '"@]
}

/// The message of the unique-table-name check.
pub open spec fn table_name_messages() -> Seq<Seq<char>> {
    seq!["Duplicate table name '"@]
}

/// The message of the unique-field-name check.
pub open spec fn field_name_messages() -> Seq<Seq<char>> {
    seq!["Duplicate field name '"@]
}

impl SchemaValidator {
    /// Runs every check in turn and reports the first failure.
    pub fn validate(&self, schema: &DatabaseSchema) -> (res: Result<()>)
        ensures
            res is Ok <==> (foreign_keys_ok(*schema) && array_lengths_ok(*schema) && names_not_reserved(
                *schema,
            ) && table_names_unique(*schema) && field_names_unique(*schema)),
            !foreign_keys_ok(*schema) ==> (res matches Err(e) && error_of(e, fk_messages())),
            foreign_keys_ok(*schema) && !array_lengths_ok(*schema) ==> (res matches Err(e) && error_of(e, array_messages())),
            foreign_keys_ok(*schema) && array_lengths_ok(*schema) && !names_not_reserved(*schema) ==> (res matches Err(e)
                && error_of(e, reserved_messages())),
            foreign_keys_ok(*schema) && array_lengths_ok(*schema) && names_not_reserved(*schema) && !table_names_unique(*schema)
                ==> (res matches Err(e) && error_of(e, table_name_messages())),
            foreign_keys_ok(*schema) && array_lengths_ok(*schema) && names_not_reserved(*schema) && table_names_unique(*schema)
                && !field_names_unique(*schema) ==> (res matches Err(e) && error_of(e, field_name_messages())),
    {
        match self.check_foreign_keys(schema) {
            Ok(()) => {},
            Err(e) => return Err(e),
        }
        match self.check_field_alignment(schema) {
            Ok(()) => {},
            Err(e) => return Err(e),
        }
        match self.check_reserved_names(schema) {
            Ok(()) => {},
            Err(e) => return Err(e),
        }
        match self.check_table_names_unique(schema) {
            Ok(()) => {},
            Err(e) => return Err(e),
        }
        self.check_field_names_unique(schema)
    }

    /// Every foreign key must name an existing table and, if it names a field,
    /// a primary-key field of the same type; a key naming only a table needs
    /// that table to have a primary key.
    pub fn check_foreign_keys(&self, schema: &DatabaseSchema) -> (res: Result<()>)
        ensures
            res is Ok <==> foreign_keys_ok(*schema),
            res matches Err(e) ==> error_of(e, fk_messages()),
    {
        let tables = &schema.tables;
        let nt = tables.len();
        let mut i: usize = 0;
        while i < nt
            invariant
                nt == schema.tables@.len(),
                *tables == schema.tables,
                i <= nt,
                forall|a: int, j: int|
                    0 <= a < i && 0 <= j < schema.tables@[a].fields@.len() ==> ((#[trigger] schema.tables@[a].fields@[j]).foreign_key matches Some(fk) ==> fk_resolves(schema.tables@, schema.tables@[a].fields@[j].field_type, fk@)),
            decreases nt - i,
        {
            let table = &tables[i];
            let nf = table.fields.len();
            let mut j: usize = 0;
            while j < nf
                invariant
                    nt == schema.tables@.len(),
                    *tables == schema.tables,
                    i < nt,
                    *table == schema.tables@[i as int],
                    nf == table.fields@.len(),
                    j <= nf,
                    forall|a: int, k: int|
                        0 <= a < i && 0 <= k < schema.tables@[a].fields@.len() ==> ((#[trigger] schema.tables@[a].fields@[k]).foreign_key matches Some(fk) ==> fk_resolves(schema.tables@, schema.tables@[a].fields@[k].field_type, fk@)),
                    forall|k: int|
                        0 <= k < j ==> ((#[trigger] table.fields@[k]).foreign_key matches Some(fk) ==> fk_resolves(schema.tables@, table.fields@[k].field_type, fk@)),
                decreases nf - j,
            {
                let field = &table.fields[j];
                match &field.foreign_key {
                    None => {},
                    Some(fk) => {
                        let (ref_table, ref_field) = split_once_dot(fk);
                        let referenced_table = match find_table_by(tables, &ref_table) {
                            Some(t) => t,
                            None => {
                                assert(!fk_resolves(schema.tables@, field.field_type, fk@));
                                {
                                    let e = schema_error("Foreign key references unknown table '", &ref_table);
                                    proof {
                                        let nm = (ref_table)@;
                                        assert(names_one(e->SchemaError_0@, "Foreign key references unknown table '"@)) by {
                                            assert(e->SchemaError_0@ == ("Foreign key references unknown table '"@ + nm) + "'"@);
                                        }
                                        assert(fk_messages()[0] == "Foreign key references unknown table '"@);
                                    }
                                    return Err(e);
                                }
                            },
                        };
                        match ref_field {
                            Some(ref_field_name) => {
                                let referenced_field = match find_field_by(&referenced_table.fields, &ref_field_name) {
                                    Some(f) => f,
                                    None => {
                                        assert(!fk_resolves(schema.tables@, field.field_type, fk@));
                                        {
                                            let e = schema_error("Foreign key references unknown field '", &ref_field_name);
                                            proof {
                                                let nm = (ref_field_name)@;
                                                assert(names_one(e->SchemaError_0@, "Foreign key references unknown field '"@)) by {
                                                    assert(e->SchemaError_0@ == ("Foreign key references unknown field '"@ + nm) + "'"@);
                                                }
                                                assert(fk_messages()[1] == "Foreign key references unknown field '"@);
                                            }
                                            return Err(e);
                                        }
                                    },
                                };
                                if !referenced_field.primary_key {
                                    assert(!fk_resolves(schema.tables@, field.field_type, fk@));
                                    {
                                        let e = schema_error("Foreign key must reference a primary key field: '", &ref_field_name);
                                        proof {
                                            let nm = (ref_field_name)@;
                                            assert(names_one(e->SchemaError_0@, "Foreign key must reference a primary key field: '"@)) by {
                                                assert(e->SchemaError_0@ == ("Foreign key must reference a primary key field: '"@ + nm) + "'"@);
                                            }
                                            assert(fk_messages()[2] == "Foreign key must reference a primary key field: '"@);
                                        }
                                        return Err(e);
                                    }
                                }
                                if !types_compatible(&field.field_type, &referenced_field.field_type) {
                                    assert(!fk_resolves(schema.tables@, field.field_type, fk@));
                                    {
                                        let e = schema_error("Foreign key type mismatch for field '", &field.name);
                                        proof {
                                            let nm = (field.name)@;
                                            assert(names_one(e->SchemaError_0@, "Foreign key type mismatch for field '"@)) by {
                                                assert(e->SchemaError_0@ == ("Foreign key type mismatch for field '"@ + nm) + "'"@);
                                            }
                                            assert(fk_messages()[3] == "Foreign key type mismatch for field '"@);
                                        }
                                        return Err(e);
                                    }
                                }
                            },
                            None => {
                                let mut has_pk = false;
                                let mut k: usize = 0;
                                let rf = &referenced_table.fields;
                                while k < rf.len()
                                    invariant
                                        k <= rf@.len(),
                                        has_pk == exists|m: int| 0 <= m < k && rf@[m].primary_key,
                                    decreases rf@.len() - k,
                                {
                                    if rf[k].primary_key {
                                        has_pk = true;
                                    }
                                    k += 1;
                                }
                                if !has_pk {
                                    assert(!fk_resolves(schema.tables@, field.field_type, fk@));
                                    {
                                        let e = schema_error("Foreign key references a table which has no primary key field: '", &ref_table);
                                        proof {
                                            let nm = (ref_table)@;
                                            assert(names_one(e->SchemaError_0@, "Foreign key references a table which has no primary key field: '"@)) by {
                                                assert(e->SchemaError_0@ == ("Foreign key references a table which has no primary key field: '"@ + nm) + "'"@);
                                            }
                                            assert(fk_messages()[4] == "Foreign key references a table which has no primary key field: '"@);
                                        }
                                        return Err(e);
                                    }
                                }
                            },
                        }
                        assert(fk_resolves(schema.tables@, field.field_type, fk@));
                    },
                }
                j += 1;
            }
            i += 1;
        }
        Ok(())
    }

    /// Array fields must have a positive length.
    pub fn check_field_alignment(&self, schema: &DatabaseSchema) -> (res: Result<()>)
        ensures
            res is Ok <==> array_lengths_ok(*schema),
            res matches Err(e) ==> error_of(e, array_messages()),
    {
        let nt = schema.tables.len();
        let mut i: usize = 0;
        while i < nt
            invariant
                nt == schema.tables@.len(),
                i <= nt,
                forall|a: int, j: int|
                    0 <= a < i && 0 <= j < schema.tables@[a].fields@.len() ==> !((#[trigger] schema.tables@[a].fields@[j]).field_type matches FieldType::Array { length, .. } && length == 0),
            decreases nt - i,
        {
            let table = &schema.tables[i];
            let nf = table.fields.len();
            let mut j: usize = 0;
            while j < nf
                invariant
                    nt == schema.tables@.len(),
                    i < nt,
                    *table == schema.tables@[i as int],
                    nf == table.fields@.len(),
                    j <= nf,
                    forall|a: int, k: int|
                        0 <= a < i && 0 <= k < schema.tables@[a].fields@.len() ==> !((#[trigger] schema.tables@[a].fields@[k]).field_type matches FieldType::Array { length, .. } && length == 0),
                    forall|k: int|
                        0 <= k < j ==> !((#[trigger] table.fields@[k]).field_type matches FieldType::Array { length, .. } && length == 0),
                decreases nf - j,
            {
                if let FieldType::Array { length, .. } = &table.fields[j].field_type {
                    if *length == 0 {
                        {
                            let e = schema_error("Array length must be >0 for field '", &table.fields[j].name);
                            proof {
                                let nm = table.fields@[j as int].name@;
                                assert(names_one(e->SchemaError_0@, "Array length must be >0 for field '"@)) by {
                                    assert(e->SchemaError_0@ == ("Array length must be >0 for field '"@ + nm) + "'"@);
                                }
                                assert(array_messages()[0] == "Array length must be >0 for field '"@);
                            }
                            return Err(e);
                        }
                    }
                }
                j += 1;
            }
            i += 1;
        }
        Ok(())
    }

    /// No table or field may take a reserved name.
    pub fn check_reserved_names(&self, schema: &DatabaseSchema) -> (res: Result<()>)
        ensures
            res is Ok <==> names_not_reserved(*schema),
            res matches Err(e) ==> error_of(e, reserved_messages()),
    {
        let nt = schema.tables.len();
        let mut i: usize = 0;
        while i < nt
            invariant
                nt == schema.tables@.len(),
                i <= nt,
                forall|a: int| 0 <= a < i ==> !is_reserved((#[trigger] schema.tables@[a]).name@),
                forall|a: int, j: int|
                    0 <= a < i && 0 <= j < schema.tables@[a].fields@.len() ==> !is_reserved((#[trigger] schema.tables@[a].fields@[j]).name@),
            decreases nt - i,
        {
            let table = &schema.tables[i];
            if reserved(&table.name) {
                {
                    let e = schema_error("Table name is reserved: '", &table.name);
                    proof {
                        let nm = (table.name)@;
                        assert(names_one(e->SchemaError_0@, "Table name is reserved: '"@)) by {
                            assert(e->SchemaError_0@ == ("Table name is reserved: '"@ + nm) + "'"@);
                        }
                        assert(reserved_messages()[0] == "Table name is reserved: '"@);
                    }
                    return Err(e);
                }
            }
            let nf = table.fields.len();
            let mut j: usize = 0;
            while j < nf
                invariant
                    nt == schema.tables@.len(),
                    i < nt,
                    *table == schema.tables@[i as int],
                    nf == table.fields@.len(),
                    j <= nf,
                    forall|a: int, k: int|
                        0 <= a < i && 0 <= k < schema.tables@[a].fields@.len() ==> !is_reserved((#[trigger] schema.tables@[a].fields@[k]).name@),
                    forall|k: int| 0 <= k < j ==> !is_reserved((#[trigger] table.fields@[k]).name@),
                decreases nf - j,
            {
                if reserved(&table.fields[j].name) {
                    {
                        let e = schema_error("Field name is reserved: '", &table.fields[j].name);
                        proof {
                            let nm = table.fields@[j as int].name@;
                            assert(names_one(e->SchemaError_0@, "Field name is reserved: '"@)) by {
                                assert(e->SchemaError_0@ == ("Field name is reserved: '"@ + nm) + "'"@);
                            }
                            assert(reserved_messages()[1] == "Field name is reserved: '"@);
                        }
                        return Err(e);
                    }
                }
                j += 1;
            }
            i += 1;
        }
        Ok(())
    }

    /// Table names must be distinct.
    pub fn check_table_names_unique(&self, schema: &DatabaseSchema) -> (res: Result<()>)
        ensures
            res is Ok <==> table_names_unique(*schema),
            res matches Err(e) ==> error_of(e, table_name_messages()),
    {
        let t = &schema.tables;
        let n = t.len();
        let mut b: usize = 0;
        while b < n
            invariant
                n == t@.len(),
                *t == schema.tables,
                b <= n,
                forall|x: int, y: int| 0 <= x < y < b ==> (#[trigger] t@[x]).name@ != (#[trigger] t@[y]).name@,
            decreases n - b,
        {
            let mut a: usize = 0;
            while a < b
                invariant
                    n == t@.len(),
                    *t == schema.tables,
                    b < n,
                    a <= b,
                    forall|x: int, y: int| 0 <= x < y < b ==> (#[trigger] t@[x]).name@ != (#[trigger] t@[y]).name@,
                    forall|x: int| 0 <= x < a ==> (#[trigger] t@[x]).name@ != t@[b as int].name@,
                decreases b - a,
            {
                if t[a].name == t[b].name {
                    {
                        let e = schema_error("Duplicate table name '", &t[b].name);
                        proof {
                            let nm = t@[b as int].name@;
                            assert(names_one(e->SchemaError_0@, "Duplicate table name '"@)) by {
                                assert(e->SchemaError_0@ == ("Duplicate table name '"@ + nm) + "'"@);
                            }
                            assert(table_name_messages()[0] == "Duplicate table name '"@);
                        }
                        return Err(e);
                    }
                }
                a += 1;
            }
            b += 1;
        }
        Ok(())
    }

    /// Field names must be distinct within each table.
    pub fn check_field_names_unique(&self, schema: &DatabaseSchema) -> (res: Result<()>)
        ensures
            res is Ok <==> field_names_unique(*schema),
            res matches Err(e) ==> error_of(e, field_name_messages()),
    {
        let nt = schema.tables.len();
        let mut i: usize = 0;
        while i < nt
            invariant
                nt == schema.tables@.len(),
                i <= nt,
                forall|c: int, x: int, y: int|
                    0 <= c < i && 0 <= x < y < schema.tables@[c].fields@.len() ==> (#[trigger] schema.tables@[c].fields@[x]).name@ != (#[trigger] schema.tables@[c].fields@[y]).name@,
            decreases nt - i,
        {
            let f = &schema.tables[i].fields;
            let n = f.len();
            let mut b: usize = 0;
            while b < n
                invariant
                    nt == schema.tables@.len(),
                    i < nt,
                    *f == schema.tables@[i as int].fields,
                    n == f@.len(),
                    b <= n,
                    forall|c: int, x: int, y: int|
                        0 <= c < i && 0 <= x < y < schema.tables@[c].fields@.len() ==> (#[trigger] schema.tables@[c].fields@[x]).name@ != (#[trigger] schema.tables@[c].fields@[y]).name@,
                    forall|x: int, y: int| 0 <= x < y < b ==> (#[trigger] f@[x]).name@ != (#[trigger] f@[y]).name@,
                decreases n - b,
            {
                let mut a: usize = 0;
                while a < b
                    invariant
                        nt == schema.tables@.len(),
                        i < nt,
                        *f == schema.tables@[i as int].fields,
                        n == f@.len(),
                        b < n,
                        a <= b,
                        forall|x: int, y: int| 0 <= x < y < b ==> (#[trigger] f@[x]).name@ != (#[trigger] f@[y]).name@,
                        forall|x: int| 0 <= x < a ==> (#[trigger] f@[x]).name@ != f@[b as int].name@,
                    decreases b - a,
                {
                    if f[a].name == f[b].name {
                        {
                            let e = schema_error("Duplicate field name '", &f[b].name);
                            proof {
                                let nm = f@[b as int].name@;
                                assert(names_one(e->SchemaError_0@, "Duplicate field name '"@)) by {
                                    assert(e->SchemaError_0@ == ("Duplicate field name '"@ + nm) + "'"@);
                                }
                                assert(field_name_messages()[0] == "Duplicate field name '"@);
                            }
                            return Err(e);
                        }
                    }
                    a += 1;
                }
                b += 1;
            }
            i += 1;
        }
        Ok(())
    }
}

/// A schema with a table named "id", "version", "entity_id", "table",
/// "schema" or "database" is refused by the reserved-name check, and so by
/// `validate`.
pub proof fn law_reserved_table_name_refused(schema: DatabaseSchema, i: int)
    requires
        0 <= i < schema.tables@.len(),
        ({
            let n = schema.tables@[i].name@;
            n == "id"@ || n == "version"@ || n == "entity_id"@ || n == "table"@ || n == "schema"@ || n == "database"@
        }),
    ensures
        !names_not_reserved(schema),
{
    assert(is_reserved(schema.tables@[i].name@));
}

/// A schema with a field named "id", "version", "entity_id", "table",
/// "schema" or "database", in any table, is refused by the reserved-name
/// check, and so by `validate`.
pub proof fn law_reserved_field_name_refused(schema: DatabaseSchema, i: int, j: int)
    requires
        0 <= i < schema.tables@.len(),
        0 <= j < schema.tables@[i].fields@.len(),
        ({
            let n = schema.tables@[i].fields@[j].name@;
            n == "id"@ || n == "version"@ || n == "entity_id"@ || n == "table"@ || n == "schema"@ || n == "database"@
        }),
    ensures
        !names_not_reserved(schema),
{
    assert(is_reserved(schema.tables@[i].fields@[j].name@));
}

/// Only those six names are reserved: a schema whose table and field names
/// are all other names passes the reserved-name check.
pub proof fn law_other_names_allowed(schema: DatabaseSchema)
    requires
        forall|n: Seq<char>|
            #![trigger is_reserved(n)]
            (exists|i: int| 0 <= i < schema.tables@.len() && schema.tables@[i].name@ == n) || (exists|i: int, j: int|
                0 <= i < schema.tables@.len() && 0 <= j < schema.tables@[i].fields@.len()
                    && schema.tables@[i].fields@[j].name@ == n) ==> !(n == "id"@ || n == "version"@ || n == "entity_id"@
                || n == "table"@ || n == "schema"@ || n == "database"@),
    ensures
        names_not_reserved(schema),
{
    assert forall|i: int| 0 <= i < schema.tables@.len() implies !is_reserved((#[trigger] schema.tables@[i]).name@) by {
        let n = schema.tables@[i].name@;
        assert(exists|a: int| 0 <= a < schema.tables@.len() && schema.tables@[a].name@ == n);
        assert(!is_reserved(n));
    }
    assert forall|i: int, j: int|
        0 <= i < schema.tables@.len() && 0 <= j < schema.tables@[i].fields@.len() implies !is_reserved(
        (#[trigger] schema.tables@[i].fields@[j]).name@,
    ) by {
        let n = schema.tables@[i].fields@[j].name@;
        assert(exists|a: int, b: int|
            0 <= a < schema.tables@.len() && 0 <= b < schema.tables@[a].fields@.len() && schema.tables@[a].fields@[b].name@ == n);
        assert(!is_reserved(n));
    }
}

} // verus!
