//! Reading a schema out of a TOML document: a `[database]` table with a
//! name and an optional version, then `custom_types`, `enums` and `tables`.
use crate::error::{EcsDbError, Result};
use crate::numbers::{parse_unsigned, unsigned_value};
use crate::schema::types::{CustomTypes, DatabaseSchema, EnumDefinitions, FieldDefinition, FieldType, TableDefinition};
use crate::text::{chars_of, join, owned, string_of};
use vstd::prelude::*;

verus! {

/// A TOML value, as far as schemas read it. Floats and dates, which no
/// schema key takes, are `Other`.
pub enum TomlValue {
    String(String),
    Integer(i64),
    Boolean(bool),
    Array(Vec<TomlValue>),
    /// Keys with their values, in toml's order of a table's keys (sorted);
    /// keys are distinct.
    Table(Vec<(String, TomlValue)>),
    Other,
}

/// The value of the first entry of `es` with key `key`.
pub open spec fn entry_value(es: Seq<(String, TomlValue)>, key: Seq<char>) -> Option<TomlValue>
    decreases es.len(),
{
    if es.len() == 0 {
        None
    } else if es[0].0@ == key {
        Some(es[0].1)
    } else {
        entry_value(es.drop_first(), key)
    }
}

/// The value under `key` in a table; nothing for a value that is not one.
pub open spec fn value_get(v: TomlValue, key: Seq<char>) -> Option<TomlValue> {
    match v {
        TomlValue::Table(es) => entry_value(es@, key),
        _ => None,
    }
}

/// The text under `key`, if it is a string.
pub open spec fn str_at(v: TomlValue, key: Seq<char>) -> Option<Seq<char>> {
    match value_get(v, key) {
        Some(TomlValue::String(s)) => Some(s@),
        _ => None,
    }
}

/// The flag under `key`, if it is a boolean.
pub open spec fn bool_at(v: TomlValue, key: Seq<char>) -> Option<bool> {
    match value_get(v, key) {
        Some(TomlValue::Boolean(b)) => Some(b),
        _ => None,
    }
}

/// The elements under `key`, if it is an array.
pub open spec fn array_at(v: TomlValue, key: Seq<char>) -> Option<Seq<TomlValue>> {
    match value_get(v, key) {
        Some(TomlValue::Array(a)) => Some(a@),
        _ => None,
    }
}

/// The entries under `key`: those of a table, none otherwise.
pub open spec fn entries_at(v: TomlValue, key: Seq<char>) -> Seq<(String, TomlValue)> {
    match value_get(v, key) {
        Some(TomlValue::Table(es)) => es@,
        _ => Seq::empty(),
    }
}

/// The value under `key` in a table.
fn get<'a>(v: &'a TomlValue, key: &str) -> (r: Option<&'a TomlValue>)
    ensures
        match value_get(*v, key@) {
            Some(x) => r == Some(&x),
            None => r is None,
        },
{
    match v {
        TomlValue::Table(es) => {
            let mut i: usize = 0;
            assert(es@.skip(0) =~= es@);
            assert(value_get(*v, key@) == entry_value(es@, key@));
            while i < es.len()
                invariant
                    i <= es@.len(),
                    value_get(*v, key@) == entry_value(es@, key@),
                    entry_value(es@, key@) == entry_value(es@.skip(i as int), key@),
                decreases es@.len() - i,
            {
                assert(es@.skip(i as int)[0] == es@[i as int]);
                if crate::text::same_text(es[i].0.as_str(), key) {
                    assert(es@[i as int].0@ == key@);
                    assert(entry_value(es@.skip(i as int), key@) == Some(es@[i as int].1));
                    return Some(&es[i].1);
                }
                assert(es@.skip(i as int).drop_first() =~= es@.skip(i + 1));
                i += 1;
            }
            None
        },
        _ => None,
    }
}

fn get_str<'a>(v: &'a TomlValue, key: &str) -> (r: Option<&'a String>)
    ensures
        match str_at(*v, key@) {
            Some(s) => r matches Some(x) && x@ == s,
            None => r is None,
        },
{
    match get(v, key) {
        Some(TomlValue::String(s)) => Some(s),
        _ => None,
    }
}

fn get_bool(v: &TomlValue, key: &str) -> (r: Option<bool>)
    ensures
        r == bool_at(*v, key@),
{
    match get(v, key) {
        Some(TomlValue::Boolean(b)) => Some(*b),
        _ => None,
    }
}

/// Whether `c` is white space, as `char::is_whitespace` has it.
pub open spec fn is_space(c: char) -> bool {
    ||| '\t' <= c <= '\r'
    ||| c == ' '
    ||| c == '\u{85}'
    ||| c == '\u{a0}'
    ||| c == '\u{1680}'
    ||| '\u{2000}' <= c <= '\u{200a}'
    ||| c == '\u{2028}'
    ||| c == '\u{2029}'
    ||| c == '\u{202f}'
    ||| c == '\u{205f}'
    ||| c == '\u{3000}'
}

/// `s` without white space at its start.
pub open spec fn trim_start(s: Seq<char>) -> Seq<char>
    decreases s.len(),
{
    if s.len() > 0 && is_space(s[0]) {
        trim_start(s.drop_first())
    } else {
        s
    }
}

/// `s` without white space at its end.
pub open spec fn trim_end(s: Seq<char>) -> Seq<char>
    decreases s.len(),
{
    if s.len() > 0 && is_space(s.last()) {
        trim_end(s.drop_last())
    } else {
        s
    }
}

/// `s` without white space at either end.
pub open spec fn trim(s: Seq<char>) -> Seq<char> {
    trim_end(trim_start(s))
}

pub proof fn lemma_trim_len(s: Seq<char>)
    ensures
        trim(s).len() <= s.len(),
{
    lemma_trim_start_len(s);
    lemma_trim_end_len(trim_start(s));
}

pub proof fn lemma_trim_start_len(s: Seq<char>)
    ensures
        trim_start(s).len() <= s.len(),
        exists|k: int| 0 <= k <= s.len() && trim_start(s) == s.skip(k),
    decreases s.len(),
{
    if s.len() > 0 && is_space(s[0]) {
        lemma_trim_start_len(s.drop_first());
        let k = choose|k: int| 0 <= k <= s.drop_first().len() && trim_start(s.drop_first()) == s.drop_first().skip(k);
        assert(s.drop_first().skip(k) =~= s.skip(k + 1));
    } else {
        assert(s.skip(0) =~= s);
    }
}

pub proof fn lemma_trim_end_len(s: Seq<char>)
    ensures
        trim_end(s).len() <= s.len(),
        exists|k: int| 0 <= k <= s.len() && trim_end(s) == s.take(k),
    decreases s.len(),
{
    if s.len() > 0 && is_space(s.last()) {
        lemma_trim_end_len(s.drop_last());
        let k = choose|k: int| 0 <= k <= s.drop_last().len() && trim_end(s.drop_last()) == s.drop_last().take(k);
        assert(s.drop_last().take(k) =~= s.take(k));
    } else {
        assert(s.take(s.len() as int) =~= s);
    }
}

/// The primitive type a name stands for.
pub open spec fn primitive_named(s: Seq<char>) -> Option<FieldType> {
    if s == seq!['u', '8'] {
        Some(FieldType::U8)
    } else if s == seq!['u', '1', '6'] {
        Some(FieldType::U16)
    } else if s == seq!['u', '3', '2'] {
        Some(FieldType::U32)
    } else if s == seq!['u', '6', '4'] {
        Some(FieldType::U64)
    } else if s == seq!['i', '8'] {
        Some(FieldType::I8)
    } else if s == seq!['i', '1', '6'] {
        Some(FieldType::I16)
    } else if s == seq!['i', '3', '2'] {
        Some(FieldType::I32)
    } else if s == seq!['i', '6', '4'] {
        Some(FieldType::I64)
    } else if s == seq!['f', '3', '2'] {
        Some(FieldType::F32)
    } else if s == seq!['f', '6', '4'] {
        Some(FieldType::F64)
    } else if s == seq!['b', 'o', 'o', 'l'] {
        Some(FieldType::Bool)
    } else {
        None
    }
}

/// Whether `s` reads `[` ... `]`.
pub open spec fn bracketed(s: Seq<char>) -> bool {
    s.len() >= 2 && s[0] == '[' && s.last() == ']'
}

/// `i` is the only position of `;` in `s`.
pub open spec fn only_semicolon_at(s: Seq<char>, i: int) -> bool {
    &&& 0 <= i < s.len()
    &&& s[i] == ';'
    &&& forall|j: int| 0 <= j < s.len() && j != i ==> s[j] != ';'
}

/// The part of a bracketed type name before its `;`, trimmed.
pub open spec fn element_part(s: Seq<char>) -> Seq<char> {
    let inner = s.subrange(1, s.len() - 1);
    trim(inner.take(choose|i: int| only_semicolon_at(inner, i)))
}

/// The part of a bracketed type name after its `;`, trimmed.
pub open spec fn length_part(s: Seq<char>) -> Seq<char> {
    let inner = s.subrange(1, s.len() - 1);
    trim(inner.skip((choose|i: int| only_semicolon_at(inner, i)) + 1))
}

/// Whether a bracketed type name has exactly one `;`.
pub open spec fn one_semicolon(s: Seq<char>) -> bool {
    exists|i: int| #[trigger] only_semicolon_at(s.subrange(1, s.len() - 1), i)
}

/// Whether the type name `s` can be read: a primitive, an array `[T; N]`
/// whose `T` can be read and whose `N` is a number that fits in a `usize`,
/// or any other name, taken as a custom type.
pub open spec fn type_readable(s: Seq<char>) -> bool
    decreases s.len(),
{
    if primitive_named(s) is Some || !bracketed(s) {
        true
    } else if !one_semicolon(s) {
        false
    } else {
        proof {
            lemma_parts_shorter(s);
        }
        type_readable(element_part(s)) && unsigned_value(length_part(s), 10, usize::MAX as nat) is Some
    }
}

/// `t` is the type that the name `s` reads as.
pub open spec fn type_read_as(t: FieldType, s: Seq<char>) -> bool
    decreases s.len(),
{
    if primitive_named(s) is Some {
        primitive_named(s) == Some(t)
    } else if !bracketed(s) {
        t matches FieldType::Custom(n) && n@ == s
    } else if !one_semicolon(s) {
        false
    } else {
        proof {
            lemma_parts_shorter(s);
        }
        t matches FieldType::Array { element_type, length } && type_read_as(*element_type, element_part(s))
            && unsigned_value(length_part(s), 10, usize::MAX as nat) == Some(length as nat)
    }
}

pub proof fn lemma_parts_shorter(s: Seq<char>)
    requires
        bracketed(s),
        one_semicolon(s),
    ensures
        element_part(s).len() < s.len(),
        length_part(s).len() < s.len(),
{
    let inner = s.subrange(1, s.len() - 1);
    let i = choose|i: int| only_semicolon_at(inner, i);
    lemma_trim_len(inner.take(i));
    lemma_trim_len(inner.skip(i + 1));
}

/// A string of the characters `cs`, trimmed.
pub(crate) fn trimmed(cs: &[char], from: usize, to: usize) -> (r: Vec<char>)
    requires
        from <= to <= cs@.len(),
    ensures
        r@ == trim(cs@.subrange(from as int, to as int)),
{
    let ghost s = cs@.subrange(from as int, to as int);
    let mut a = from;
    while a < to && is_space_exec(cs[a])
        invariant
            from <= a <= to <= cs@.len(),
            trim_start(s) == trim_start(cs@.subrange(a as int, to as int)),
        decreases to - a,
    {
        assert(cs@.subrange(a as int, to as int).drop_first() =~= cs@.subrange(a + 1, to as int));
        a += 1;
    }
    let ghost t = cs@.subrange(a as int, to as int);
    assert(trim_start(t) == t);
    let mut b = to;
    while b > a && is_space_exec(cs[b - 1])
        invariant
            a <= b <= to <= cs@.len(),
            trim_end(t) == trim_end(cs@.subrange(a as int, b as int)),
        decreases b - a,
    {
        assert(cs@.subrange(a as int, b as int).drop_last() =~= cs@.subrange(a as int, b - 1));
        b -= 1;
    }
    let mut r: Vec<char> = Vec::new();
    let mut k = a;
    while k < b
        invariant
            a <= k <= b <= cs@.len(),
            r@ == cs@.subrange(a as int, k as int),
        decreases b - k,
    {
        r.push(cs[k]);
        k += 1;
        assert(r@ =~= cs@.subrange(a as int, k as int));
    }
    r
}

fn is_space_exec(c: char) -> (b: bool)
    ensures
        b == is_space(c),
{
    ('\t' <= c && c <= '\r') || c == ' ' || c == '\u{85}' || c == '\u{a0}' || c == '\u{1680}' || ('\u{2000}' <= c
        && c <= '\u{200a}') || c == '\u{2028}' || c == '\u{2029}' || c == '\u{202f}' || c == '\u{205f}' || c
        == '\u{3000}'
}

fn seq_is(cs: &[char], t: &[char]) -> (b: bool)
    ensures
        b == (cs@ == t@),
{
    if cs.len() != t.len() {
        return false;
    }
    let mut i: usize = 0;
    while i < cs.len()
        invariant
            i <= cs@.len(),
            cs@.len() == t@.len(),
            forall|j: int| 0 <= j < i ==> cs@[j] == t@[j],
        decreases cs@.len() - i,
    {
        if cs[i] != t[i] {
            return false;
        }
        i += 1;
    }
    assert(cs@ =~= t@);
    true
}

fn primitive_of(cs: &[char]) -> (r: Option<FieldType>)
    ensures
        r == primitive_named(cs@),
{
    if seq_is(cs, &['u', '8']) {
        Some(FieldType::U8)
    } else if seq_is(cs, &['u', '1', '6']) {
        Some(FieldType::U16)
    } else if seq_is(cs, &['u', '3', '2']) {
        Some(FieldType::U32)
    } else if seq_is(cs, &['u', '6', '4']) {
        Some(FieldType::U64)
    } else if seq_is(cs, &['i', '8']) {
        Some(FieldType::I8)
    } else if seq_is(cs, &['i', '1', '6']) {
        Some(FieldType::I16)
    } else if seq_is(cs, &['i', '3', '2']) {
        Some(FieldType::I32)
    } else if seq_is(cs, &['i', '6', '4']) {
        Some(FieldType::I64)
    } else if seq_is(cs, &['f', '3', '2']) {
        Some(FieldType::F32)
    } else if seq_is(cs, &['f', '6', '4']) {
        Some(FieldType::F64)
    } else if seq_is(cs, &['b', 'o', 'o', 'l']) {
        Some(FieldType::Bool)
    } else {
        None
    }
}

/// Reads a type name given as characters.
fn read_type(cs: &[char]) -> (res: Result<FieldType>)
    ensures
        res is Ok <==> type_readable(cs@),
        res matches Ok(t) ==> type_read_as(t, cs@),
        res matches Err(e) ==> e is SchemaError,
    decreases cs@.len(),
{
    let ghost s = cs@;
    match primitive_of(cs) {
        Some(t) => return Ok(t),
        None => {},
    }
    let n = cs.len();
    if !(n >= 2 && cs[0] == '[' && cs[n - 1] == ']') {
        assert(cs@.subrange(0, n as int) =~= cs@);
        return Ok(FieldType::Custom(string_of(cs, 0, n)));
    }
    let ghost inner = s.subrange(1, s.len() - 1);
    assert(inner == cs@.subrange(1, n - 1));
    let mut semi: usize = 0;
    let mut count: usize = 0;
    let mut i: usize = 1;
    while i < n - 1
        invariant
            n == cs@.len(),
            n >= 2,
            1 <= i <= n - 1,
            s == cs@,
            inner == cs@.subrange(1, n - 1),
            count <= i,
            count == 0 ==> forall|j: int| 0 <= j < i - 1 ==> inner[j] != ';',
            count == 1 ==> only_semicolon_at(inner.take(i - 1), semi as int),
            count >= 2 ==> !one_semicolon(s),
        decreases n - 1 - i,
    {
        if cs[i] == ';' {
            if count == 1 {
                proof {
                    assert(0 <= semi < i - 1);
                    assert(inner.take(i - 1)[semi as int] == ';');
                    assert(inner[semi as int] == ';' && inner[i - 1] == ';');
                    assert forall|k: int| !only_semicolon_at(inner, k) by {
                        if only_semicolon_at(inner, k) {
                            if k != semi {
                                assert(inner[semi as int] == ';');
                            } else {
                                assert(inner[i - 1] == ';');
                            }
                        }
                    }
                    assert(s.subrange(1, s.len() - 1) == inner);
                    assert(!one_semicolon(s));
                }
                count = 2;
            } else if count == 0 {
                semi = i - 1;
                count = 1;
                assert(only_semicolon_at(inner.take(i as int), semi as int));
            }
        } else {
            proof {
                if count == 1 {
                    assert(only_semicolon_at(inner.take(i as int), semi as int));
                }
            }
        }
        i += 1;
    }
    assert(inner.take(n - 2) =~= inner);
    if count != 1 {
        proof {
            if count == 0 {
                assert forall|k: int| !only_semicolon_at(inner, k) by {
                    if only_semicolon_at(inner, k) {
                        assert(inner[k] == ';');
                    }
                }
            }
        }
        let m = join(owned("Invalid array type syntax: "), string_of(cs, 0, n).as_str());
        return Err(EcsDbError::SchemaError(m));
    }
    proof {
        assert(only_semicolon_at(inner, semi as int));
        assert forall|k: int| only_semicolon_at(inner, k) implies k == semi by {}
        assert(inner.take(semi as int) =~= cs@.subrange(1, 1 + semi));
        assert(inner.skip(semi + 1) =~= cs@.subrange(semi + 2, n - 1));
        lemma_parts_shorter(s);
    }
    let elem = trimmed(cs, 1, 1 + semi);
    let len_part = trimmed(cs, semi + 2, n - 1);
    let element_type = match read_type(elem.as_slice()) {
        Ok(t) => t,
        Err(e) => return Err(e),
    };
    let len_text = string_of(len_part.as_slice(), 0, len_part.len());
    assert(len_part@.subrange(0, len_part@.len() as int) =~= len_part@);
    match parse_unsigned(len_text.as_str(), 10, usize::MAX as u64) {
        Some(length) => Ok(FieldType::Array { element_type: Box::new(element_type), length: length as usize }),
        None => {
            let m = join(owned("Invalid array length: "), len_text.as_str());
            Err(EcsDbError::SchemaError(m))
        },
    }
}

/// What a schema reads from a field's table: name, type, the three flags
/// (false when absent) and the referenced key.
pub open spec fn field_read_as(f: FieldDefinition, v: TomlValue) -> bool {
    &&& str_at(v, seq!['n', 'a', 'm', 'e']) == Some(f.name@)
    &&& str_at(v, seq!['t', 'y', 'p', 'e']) matches Some(t) && type_read_as(f.field_type, t)
    &&& f.nullable == (bool_at(v, seq!['n', 'u', 'l', 'l', 'a', 'b', 'l', 'e']) == Some(true))
    &&& f.indexed == (bool_at(v, seq!['i', 'n', 'd', 'e', 'x', 'e', 'd']) == Some(true))
    &&& f.primary_key == (bool_at(v, seq!['p', 'r', 'i', 'm', 'a', 'r', 'y', '_', 'k', 'e', 'y']) == Some(true))
    &&& match str_at(v, seq!['f', 'o', 'r', 'e', 'i', 'g', 'n', '_', 'k', 'e', 'y']) {
        Some(k) => f.foreign_key matches Some(x) && x@ == k,
        None => f.foreign_key is None,
    }
}

/// Whether a field's table has a name and a type that can be read.
pub open spec fn field_readable(v: TomlValue) -> bool {
    &&& str_at(v, seq!['n', 'a', 'm', 'e']) is Some
    &&& str_at(v, seq!['t', 'y', 'p', 'e']) matches Some(t) && type_readable(t)
}

/// The fields listed under `fields` in a table: none when there is no such
/// array.
pub open spec fn field_list(config: TomlValue) -> Seq<TomlValue> {
    match array_at(config, seq!['f', 'i', 'e', 'l', 'd', 's']) {
        Some(a) => a,
        None => Seq::empty(),
    }
}

/// The fields of `config` read as definitions, in order.
pub open spec fn fields_read_as(fs: Seq<FieldDefinition>, config: TomlValue) -> bool {
    &&& fs.len() == field_list(config).len()
    &&& forall|i: int| 0 <= i < fs.len() ==> field_read_as(#[trigger] fs[i], field_list(config)[i])
}

/// Whether every field of `config` can be read.
pub open spec fn fields_readable(config: TomlValue) -> bool {
    forall|i: int| 0 <= i < field_list(config).len() ==> field_readable(#[trigger] field_list(config)[i])
}


/// The text strings among `a`, in order.
pub open spec fn strings_of(a: Seq<TomlValue>) -> Seq<Seq<char>>
    decreases a.len(),
{
    if a.len() == 0 {
        Seq::empty()
    } else {
        match a.last() {
            TomlValue::String(x) => strings_of(a.drop_last()).push(x@),
            _ => strings_of(a.drop_last()),
        }
    }
}

/// The enums of a document's `enums` entries: each entry with a `variants`
/// array gives its name and the strings of that array.
pub open spec fn enums_of(es: Seq<(String, TomlValue)>) -> Seq<(Seq<char>, Seq<Seq<char>>)>
    decreases es.len(),
{
    if es.len() == 0 {
        Seq::empty()
    } else {
        match array_at(es.last().1, seq!['v', 'a', 'r', 'i', 'a', 'n', 't', 's']) {
            Some(a) => enums_of(es.drop_last()).push((es.last().0@, strings_of(a))),
            None => enums_of(es.drop_last()),
        }
    }
}

/// Enum definitions as plain text.
pub open spec fn enums_view(v: Seq<(String, Vec<String>)>) -> Seq<(Seq<char>, Seq<Seq<char>>)> {
    Seq::new(v.len(), |i: int| (v[i].0@, Seq::new(v[i].1@.len(), |j: int| v[i].1@[j]@)))
}

/// An optional text as read from a key.
pub open spec fn opt_text_is(o: Option<String>, t: Option<Seq<char>>) -> bool {
    match t {
        Some(x) => o matches Some(y) && y@ == x,
        None => o is None,
    }
}

pub open spec fn key_database() -> Seq<char> {
    seq!['d', 'a', 't', 'a', 'b', 'a', 's', 'e']
}

pub open spec fn key_custom_types() -> Seq<char> {
    seq!['c', 'u', 's', 't', 'o', 'm', '_', 't', 'y', 'p', 'e', 's']
}

pub open spec fn key_enums() -> Seq<char> {
    seq!['e', 'n', 'u', 'm', 's']
}

pub open spec fn key_tables() -> Seq<char> {
    seq!['t', 'a', 'b', 'l', 'e', 's']
}

/// Whether a document can be read as a schema: it has a `database` table
/// with a `name`, and every field of every custom type and table can be read.
pub open spec fn document_readable(doc: TomlValue) -> bool {
    &&& value_get(doc, key_database()) matches Some(db) && str_at(db, seq!['n', 'a', 'm', 'e']) is Some
    &&& forall|i: int| 0 <= i < entries_at(doc, key_custom_types()).len() ==> fields_readable(
        #[trigger] entries_at(doc, key_custom_types())[i].1,
    )
    &&& forall|i: int| 0 <= i < entries_at(doc, key_tables()).len() ==> fields_readable(
        #[trigger] entries_at(doc, key_tables())[i].1,
    )
}

/// `s` is what the document reads as: name, version ("1.0.0" when absent),
/// the custom types, enums and tables in the order of their keys in the
/// document's tables (sorted by name).
pub open spec fn schema_read_as(s: DatabaseSchema, doc: TomlValue) -> bool {
    let db = value_get(doc, key_database()).unwrap();
    let ct = entries_at(doc, key_custom_types());
    let tb = entries_at(doc, key_tables());
    &&& str_at(db, seq!['n', 'a', 'm', 'e']) == Some(s.name@)
    &&& s.version@ == match str_at(db, seq!['v', 'e', 'r', 's', 'i', 'o', 'n']) {
        Some(v) => v,
        None => seq!['1', '.', '0', '.', '0'],
    }
    &&& s.custom_types@.len() == ct.len()
    &&& forall|i: int| 0 <= i < ct.len() ==> (#[trigger] s.custom_types@[i]).0@ == ct[i].0@ && fields_read_as(
        s.custom_types@[i].1@,
        ct[i].1,
    )
    &&& enums_view(s.enums@) == enums_of(entries_at(doc, key_enums()))
    &&& s.tables@.len() == tb.len()
    &&& forall|i: int| 0 <= i < tb.len() ==> {
        let t = #[trigger] s.tables@[i];
        &&& t.name@ == tb[i].0@
        &&& fields_read_as(t.fields@, tb[i].1)
        &&& opt_text_is(t.parent_table, str_at(tb[i].1, seq!['p', 'a', 'r', 'e', 'n', 't', '_', 't', 'a', 'b', 'l', 'e']))
        &&& opt_text_is(t.description, str_at(tb[i].1, seq!['d', 'e', 's', 'c', 'r', 'i', 'p', 't', 'i', 'o', 'n']))
    }
}

fn get_entries<'a>(v: &'a TomlValue, key: &str) -> (r: &'a [(String, TomlValue)])
    ensures
        r@ == entries_at(*v, key@),
{
    match get(v, key) {
        Some(TomlValue::Table(es)) => es.as_slice(),
        _ => &[],
    }
}

fn text_list(a: &Vec<TomlValue>) -> (r: Vec<String>)
    ensures
        Seq::new(r@.len(), |j: int| r@[j]@) == strings_of(a@),
{
    let mut r: Vec<String> = Vec::new();
    let mut i: usize = 0;
    while i < a.len()
        invariant
            i <= a@.len(),
            Seq::new(r@.len(), |j: int| r@[j]@) == strings_of(a@.take(i as int)),
        decreases a@.len() - i,
    {
        assert(a@.take(i + 1int).drop_last() =~= a@.take(i as int));
        assert(a@.take(i + 1int).last() == a@[i as int]);
        let ghost r0 = r@;
        match &a[i] {
            TomlValue::String(x) => {
                r.push(x.clone());
                assert(Seq::new(r@.len(), |j: int| r@[j]@) =~= Seq::new(r0.len(), |j: int| r0[j]@).push(x@));
            },
            _ => {},
        }
        i += 1;
    }
    assert(a@.take(a@.len() as int) =~= a@);
    r
}

/// A value of the toml crate, carried through opaque.
#[verifier::external_type_specification]
#[verifier::external_body]
pub struct ExTomlValue(toml::Value);

/// The TOML document that `text` parses into, if it is valid TOML.
pub uninterp spec fn toml_document(text: Seq<char>) -> Option<TomlValue>;

/// `toml::from_str` into a `toml::Value`, converted value for value into a
/// `TomlValue`; the parse error is returned as its message. The contract
/// claims that the result is a function of the text alone, and that an
/// error comes exactly when the text is not a TOML document.
#[verifier::external_body]
fn parse_toml(text: &str) -> (r: core::result::Result<TomlValue, String>)
    ensures
        r matches Ok(d) ==> toml_document(text@) == Some(d),
        r is Err ==> toml_document(text@) is None,
{
    toml::from_str::<toml::Value>(text).map(|v| toml_value(&v)).map_err(|e| e.to_string())
}

/// The `TomlValue` of a `toml::Value`, one variant for one: floats and
/// dates, which schemas do not read, become `Other`; tables list their keys
/// in toml's order, which is sorted. It is the conversion of `parse_toml`'s result.
#[verifier::external_body]
fn toml_value(v: &toml::Value) -> TomlValue {
    match v {
        toml::Value::String(s) => TomlValue::String(s.clone()),
        toml::Value::Integer(i) => TomlValue::Integer(*i),
        toml::Value::Boolean(b) => TomlValue::Boolean(*b),
        toml::Value::Array(a) => TomlValue::Array(a.iter().map(toml_value).collect()),
        toml::Value::Table(t) => TomlValue::Table(t.iter().map(|(k, v)| (k.clone(), toml_value(v))).collect()),
        toml::Value::Float(_) | toml::Value::Datetime(_) => TomlValue::Other,
    }
}

/// Reads database schemas from TOML text.
pub struct SchemaParser;

impl SchemaParser {
    /// Reads a type name: a primitive (`u8` to `u64`, `i8` to `i64`, `f32`,
    /// `f64`, `bool`), an array `[T; N]`, or any other name as a custom type.
    pub fn parse_type(type_str: &str) -> (res: Result<FieldType>)
        ensures
            res is Ok <==> type_readable(type_str@),
            res matches Ok(t) ==> type_read_as(t, type_str@),
            res matches Err(e) ==> e is SchemaError,
    {
        let cs = chars_of(type_str);
        read_type(cs.as_slice())
    }

    /// Reads a schema out of TOML text: text that is not TOML is a schema
    /// error, and a document is read as `from_document` reads it.
    pub fn from_string(toml_str: &str) -> (res: Result<DatabaseSchema>)
        ensures
            toml_document(toml_str@) is None ==> (res matches Err(EcsDbError::SchemaError(_))),
            toml_document(toml_str@) matches Some(doc) ==> (res is Ok <==> document_readable(doc)) && (res matches Ok(s)
                ==> schema_read_as(s, doc)),
    {
        match parse_toml(toml_str) {
            Ok(doc) => Self::from_document(&doc),
            Err(m) => Err(EcsDbError::SchemaError(join(owned("TOML parse error: "), m.as_str()))),
        }
    }

    /// Reads a schema out of a TOML document.
    pub fn from_document(doc: &TomlValue) -> (res: Result<DatabaseSchema>)
        ensures
            res is Ok <==> document_readable(*doc),
            res matches Ok(s) ==> schema_read_as(s, *doc),
            res matches Err(e) ==> e is SchemaError,
    {
        proof {
            reveal_strlit("database");
            reveal_strlit("name");
            reveal_strlit("version");
            reveal_strlit("custom_types");
            reveal_strlit("enums");
            reveal_strlit("tables");
            reveal_strlit("variants");
            reveal_strlit("parent_table");
            reveal_strlit("description");
            assert("database"@ =~= key_database());
            assert("name"@ =~= seq!['n', 'a', 'm', 'e']);
            assert("version"@ =~= seq!['v', 'e', 'r', 's', 'i', 'o', 'n']);
            assert("custom_types"@ =~= key_custom_types());
            assert("enums"@ =~= key_enums());
            assert("tables"@ =~= key_tables());
        }
        let database = match get(doc, "database") {
            Some(d) => d,
            None => return Err(EcsDbError::SchemaError(owned("Missing [database] section"))),
        };
        let name = match get_str(database, "name") {
            Some(n) => n.clone(),
            None => return Err(EcsDbError::SchemaError(owned("Missing database.name"))),
        };
        let version = match get_str(database, "version") {
            Some(v) => v.clone(),
            None => {
                let v = owned("1.0.0");
                proof {
                    reveal_strlit("1.0.0");
                    assert("1.0.0"@ =~= seq!['1', '.', '0', '.', '0']);
                }
                v
            },
        };
        let ct = get_entries(doc, "custom_types");
        let mut custom_types: CustomTypes = Vec::new();
        let mut i: usize = 0;
        while i < ct.len()
            invariant
                i <= ct@.len(),
                ct@ == entries_at(*doc, key_custom_types()),
                custom_types@.len() == i,
                forall|k: int| 0 <= k < i ==> fields_readable(#[trigger] ct@[k].1),
                forall|k: int| 0 <= k < i ==> (#[trigger] custom_types@[k]).0@ == ct@[k].0@ && fields_read_as(
                    custom_types@[k].1@,
                    ct@[k].1,
                ),
            decreases ct@.len() - i,
        {
            let defs = match Self::parse_field_list(&ct[i].1) {
                Ok(d) => d,
                Err(e) => return Err(e),
            };
            custom_types.push((ct[i].0.clone(), defs));
            i += 1;
        }
        let en = get_entries(doc, "enums");
        let mut enums: EnumDefinitions = Vec::new();
        let mut j: usize = 0;
        assert(en@.take(0) =~= Seq::<(String, TomlValue)>::empty());
        assert(enums_view(enums@) =~= Seq::<(Seq<char>, Seq<Seq<char>>)>::empty());
        while j < en.len()
            invariant
                j <= en@.len(),
                en@ == entries_at(*doc, key_enums()),
                enums_view(enums@) == enums_of(en@.take(j as int)),
            decreases en@.len() - j,
        {
            proof {
                reveal_strlit("variants");
                assert("variants"@ =~= seq!['v', 'a', 'r', 'i', 'a', 'n', 't', 's']);
                assert(en@.take(j + 1int).drop_last() =~= en@.take(j as int));
                assert(en@.take(j + 1int).last() == en@[j as int]);
            }
            let ghost e0 = enums@;
            match get(&en[j].1, "variants") {
                Some(TomlValue::Array(vars)) => {
                    let names = text_list(vars);
                    enums.push((en[j].0.clone(), names));
                    assert(enums_view(enums@) =~= enums_view(e0).push((en@[j as int].0@, strings_of(vars@))));
                },
                _ => {},
            }
            j += 1;
        }
        assert(en@.take(en@.len() as int) =~= en@);
        let tb = get_entries(doc, "tables");
        let mut tables: Vec<TableDefinition> = Vec::new();
        let mut k: usize = 0;
        while k < tb.len()
            invariant
                k <= tb@.len(),
                tb@ == entries_at(*doc, key_tables()),
                tables@.len() == k,
                forall|q: int| 0 <= q < k ==> fields_readable(#[trigger] tb@[q].1),
                forall|q: int| 0 <= q < k ==> {
                    let t = #[trigger] tables@[q];
                    &&& t.name@ == tb@[q].0@
                    &&& fields_read_as(t.fields@, tb@[q].1)
                    &&& opt_text_is(t.parent_table, str_at(tb@[q].1, seq!['p', 'a', 'r', 'e', 'n', 't', '_', 't', 'a', 'b', 'l', 'e']))
                    &&& opt_text_is(t.description, str_at(tb@[q].1, seq!['d', 'e', 's', 'c', 'r', 'i', 'p', 't', 'i', 'o', 'n']))
                },
            decreases tb@.len() - k,
        {
            proof {
                reveal_strlit("parent_table");
                reveal_strlit("description");
                assert("parent_table"@ =~= seq!['p', 'a', 'r', 'e', 'n', 't', '_', 't', 'a', 'b', 'l', 'e']);
                assert("description"@ =~= seq!['d', 'e', 's', 'c', 'r', 'i', 'p', 't', 'i', 'o', 'n']);
            }
            let config = &tb[k].1;
            let fields = match Self::parse_field_list(config) {
                Ok(f) => f,
                Err(e) => return Err(e),
            };
            let parent_table = match get_str(config, "parent_table") {
                Some(p) => Some(p.clone()),
                None => None,
            };
            let description = match get_str(config, "description") {
                Some(d) => Some(d.clone()),
                None => None,
            };
            tables.push(TableDefinition { name: tb[k].0.clone(), fields, parent_table, description });
            k += 1;
        }
        Ok(DatabaseSchema { name, version, tables, enums, custom_types })
    }

    /// Reads the fields listed under `fields` in `config`.
    pub fn parse_field_list(config: &TomlValue) -> (res: Result<Vec<FieldDefinition>>)
        ensures
            res is Ok <==> fields_readable(*config),
            res matches Ok(fs) ==> fields_read_as(fs@, *config),
            res matches Err(e) ==> e is SchemaError,
    {
        proof {
            reveal_strlit("fields");
            assert("fields"@ =~= seq!['f', 'i', 'e', 'l', 'd', 's']);
        }
        let mut fields: Vec<FieldDefinition> = Vec::new();
        let arr = match get(config, "fields") {
            Some(TomlValue::Array(a)) => a,
            _ => {
                assert(field_list(*config) =~= Seq::<TomlValue>::empty());
                return Ok(fields);
            },
        };
        assert(arr@ == field_list(*config));
        let mut i: usize = 0;
        while i < arr.len()
            invariant
                i <= arr@.len(),
                arr@ == field_list(*config),
                fields@.len() == i,
                forall|k: int| 0 <= k < i ==> field_readable(#[trigger] arr@[k]),
                forall|k: int| 0 <= k < i ==> field_read_as(#[trigger] fields@[k], arr@[k]),
            decreases arr@.len() - i,
        {
            proof {
                reveal_strlit("name");
                reveal_strlit("type");
                reveal_strlit("nullable");
                reveal_strlit("indexed");
                reveal_strlit("primary_key");
                reveal_strlit("foreign_key");
                assert("name"@ =~= seq!['n', 'a', 'm', 'e']);
                assert("type"@ =~= seq!['t', 'y', 'p', 'e']);
                assert("nullable"@ =~= seq!['n', 'u', 'l', 'l', 'a', 'b', 'l', 'e']);
                assert("indexed"@ =~= seq!['i', 'n', 'd', 'e', 'x', 'e', 'd']);
                assert("primary_key"@ =~= seq!['p', 'r', 'i', 'm', 'a', 'r', 'y', '_', 'k', 'e', 'y']);
                assert("foreign_key"@ =~= seq!['f', 'o', 'r', 'e', 'i', 'g', 'n', '_', 'k', 'e', 'y']);
            }
            let v = &arr[i];
            let name = match get_str(v, "name") {
                Some(n) => n.clone(),
                None => {
                    assert(!field_readable(arr@[i as int]));
                    return Err(EcsDbError::SchemaError(owned("Field missing 'name'")));
                },
            };
            let type_str = match get_str(v, "type") {
                Some(t) => t,
                None => {
                    assert(!field_readable(arr@[i as int]));
                    return Err(EcsDbError::SchemaError(owned("Field missing 'type'")));
                },
            };
            let field_type = match Self::parse_type(type_str.as_str()) {
                Ok(t) => t,
                Err(e) => {
                    assert(!field_readable(arr@[i as int]));
                    return Err(e);
                },
            };
            let nullable = match get_bool(v, "nullable") {
                Some(b) => b,
                None => false,
            };
            let indexed = match get_bool(v, "indexed") {
                Some(b) => b,
                None => false,
            };
            let primary_key = match get_bool(v, "primary_key") {
                Some(b) => b,
                None => false,
            };
            let foreign_key = match get_str(v, "foreign_key") {
                Some(k) => Some(k.clone()),
                None => None,
            };
            let f = FieldDefinition { name, field_type, nullable, indexed, primary_key, foreign_key };
            assert(field_read_as(f, arr@[i as int]));
            fields.push(f);
            i += 1;
        }
        Ok(fields)
    }
}

} // verus!
