//! What a trace has to say to its users: tables of its schema, buffers,
//! instructions and counters.

use vstd::prelude::*;
use vstd::string::StringExecFns;
use crate::chars::{char_seqs, chars_of, parse_number, parsed, parts, split};
use crate::cpu::resolve::{known_text, text_or_unknown};
use crate::cpu::types::RetireStatus;
use crate::numerals::{hex, texts_of, to_hex};
use crate::schema::{Schema, SchemaView};
use crate::types::{
    field_type_of, EnumDefView, EnumValue, EventDefView, FieldDef, FieldType, StorageDefView,
};
use crate::wire::views;

verus! {

// ---------------------------------------------------------------------------
// Names.

/// The name of a known type.
pub open spec fn known_type_text(t: FieldType) -> Seq<char> {
    match t {
        FieldType::U8 => "u8"@,
        FieldType::U16 => "u16"@,
        FieldType::U32 => "u32"@,
        FieldType::U64 => "u64"@,
        FieldType::I8 => "i8"@,
        FieldType::I16 => "i16"@,
        FieldType::I32 => "i32"@,
        FieldType::I64 => "i64"@,
        FieldType::Bool => "bool"@,
        FieldType::StringRef => "string_ref"@,
        FieldType::Enum => "enum"@,
    }
}

/// The name of a type: with its number where it is not known.
pub open spec fn type_text(ft: u8) -> Seq<char> {
    match field_type_of(ft) {
        Some(t) => known_type_text(t),
        None => "unknown(0x"@ + hex(ft as nat, 2) + ")"@,
    }
}

/// The name of a known type.
pub fn name_of_type(t: FieldType) -> (s: &'static str)
    ensures
        s@ == known_type_text(t),
{
    match t {
        FieldType::U8 => "u8",
        FieldType::U16 => "u16",
        FieldType::U32 => "u32",
        FieldType::U64 => "u64",
        FieldType::I8 => "i8",
        FieldType::I16 => "i16",
        FieldType::I32 => "i32",
        FieldType::I64 => "i64",
        FieldType::Bool => "bool",
        FieldType::StringRef => "string_ref",
        FieldType::Enum => "enum",
    }
}

/// The name of a type: with its number where it is not known.
pub fn field_type_name(ft: u8) -> (s: String)
    ensures
        s@ == type_text(ft),
{
    match FieldType::from_u8(ft) {
        Some(t) => name_of_type(t).to_owned(),
        None => {
            let mut s: String = "unknown(0x".to_owned();
            s.append(to_hex(ft as u64, 2).as_str());
            s.append(")");
            s
        },
    }
}

/// The name of the role of a property.
pub open spec fn name_of_role(role: u8) -> Seq<char> {
    if role == 1 {
        "HEAD_PTR"@
    } else if role == 2 {
        "TAIL_PTR"@
    } else {
        "plain"@
    }
}

/// The name of the role of a property.
pub fn role_name(role: u8) -> (s: &'static str)
    ensures
        s@ == name_of_role(role),
{
    match role {
        1 => "HEAD_PTR",
        2 => "TAIL_PTR",
        _ => "plain",
    }
}

/// The name of a retirement status.
pub open spec fn name_of_status(rs: RetireStatus) -> Seq<char> {
    match rs {
        RetireStatus::Retired => "retired"@,
        RetireStatus::Flushed => "flushed"@,
        RetireStatus::InFlight => "in_flight"@,
    }
}

/// The name of a retirement status.
pub fn retire_status_str(rs: &RetireStatus) -> (s: &'static str)
    ensures
        s@ == name_of_status(*rs),
{
    match rs {
        RetireStatus::Retired => "retired",
        RetireStatus::Flushed => "flushed",
        RetireStatus::InFlight => "in_flight",
    }
}

/// A range of cycles, written as START:END.
pub open spec fn range_of(s: Seq<char>) -> Option<(u32, u32)> {
    let p = parts(s, ':');
    if p.len() == 2 {
        match (parsed(p[0], 10, u32::MAX as nat), parsed(p[1], 10, u32::MAX as nat)) {
            (Some(a), Some(b)) => Some((a as u32, b as u32)),
            _ => None,
        }
    } else {
        None
    }
}

/// Reads a range of cycles, written as START:END.
pub fn parse_range(s: &str) -> (r: Option<(u32, u32)>)
    ensures
        r == range_of(s@),
{
    let v = chars_of(s);
    let p = split(&v, ':');
    assert(char_seqs(p@).len() == p@.len());
    if p.len() != 2 {
        return None;
    }
    assert(char_seqs(p@)[0] == p@[0]@);
    assert(char_seqs(p@)[1] == p@[1]@);
    assert(p@[0]@.subrange(0, p@[0]@.len() as int) =~= p@[0]@);
    assert(p@[1]@.subrange(0, p@[1]@.len() as int) =~= p@[1]@);
    let a: u64 = match parse_number(&p[0], 0, p[0].len(), 10, u32::MAX as u64) {
        Some(n) => n,
        None => return None,
    };
    let b: u64 = match parse_number(&p[1], 0, p[1].len(), 10, u32::MAX as u64) {
        Some(n) => n,
        None => return None,
    };
    Some((a as u32, b as u32))
}

/// Whether a text stands at place `i` of another.
pub open spec fn stands_at(text: Seq<char>, part: Seq<char>, i: int) -> bool {
    0 <= i && i + part.len() <= text.len() && text.subrange(i, i + part.len()) == part
}

/// Whether a text is part of another.
pub open spec fn has_part(text: Seq<char>, part: Seq<char>) -> bool {
    exists|i: int| #[trigger] stands_at(text, part, i)
}

/// Whether a text stands at place `i` of another.
fn matches_at(v: &Vec<char>, p: &Vec<char>, i: usize) -> (b: bool)
    requires
        i + p@.len() <= v@.len(),
    ensures
        b == stands_at(v@, p@, i as int),
{
    let n: usize = v.len();
    let mut k: usize = 0;
    while k < p.len()
        invariant
            k <= p@.len(),
            n == v@.len(),
            i + p@.len() <= n,
            forall|j: int| 0 <= j < k ==> v@[i + j] == #[trigger] p@[j],
        decreases p@.len() - k,
    {
        if v[i + k] != p[k] {
            assert(v@.subrange(i as int, i + p@.len())[k as int] != p@[k as int]);
            return false;
        }
        k = k + 1;
    }
    assert(v@.subrange(i as int, i + p@.len()) =~= p@);
    true
}

/// Whether a text is part of another.
pub fn contains_text(text: &str, part: &str) -> (b: bool)
    ensures
        b == has_part(text@, part@),
{
    let v = chars_of(text);
    let p = chars_of(part);
    if p.len() > v.len() {
        assert forall|i: int| !stands_at(text@, part@, i) by {}
        return false;
    }
    let last: usize = v.len() - p.len();
    let mut i: usize = 0;
    while i <= last
        invariant
            v@ == text@,
            p@ == part@,
            last == v@.len() - p@.len(),
            last < usize::MAX || i <= last,
            i <= last + 1,
            forall|j: int| 0 <= j < i ==> !stands_at(text@, part@, j),
        decreases last + 1 - i,
    {
        if matches_at(&v, &p, i) {
            assert(stands_at(text@, part@, i as int));
            return true;
        }
        if i == last {
            assert forall|j: int| !stands_at(text@, part@, j) by {}
            return false;
        }
        i = i + 1;
    }
    false
}

// ---------------------------------------------------------------------------
// Schema.

/// A field of a storage or an event, or a property of a storage.
#[derive(Debug)]
pub struct FieldInfo {
    pub name: String,
    pub type_code: u8,
    pub field_type: String,
    pub role: u8,
    pub pair_id: u8,
}

/// What a `FieldInfo` says.
#[verifier::ext_equal]
pub struct FieldInfoView {
    pub name: Seq<char>,
    pub type_code: u8,
    pub field_type: Seq<char>,
    pub role: u8,
    pub pair_id: u8,
}

impl View for FieldInfo {
    type V = FieldInfoView;

    open spec fn view(&self) -> FieldInfoView {
        FieldInfoView {
            name: self.name@,
            type_code: self.type_code,
            field_type: self.field_type@,
            role: self.role,
            pair_id: self.pair_id,
        }
    }
}

/// A storage.
#[derive(Debug)]
pub struct StorageInfo {
    pub name: String,
    pub storage_id: u16,
    pub num_slots: u16,
    pub fields: Vec<FieldInfo>,
    pub properties: Vec<FieldInfo>,
    pub flags: Vec<String>,
}

/// What a `StorageInfo` says.
#[verifier::ext_equal]
pub struct StorageInfoView {
    pub name: Seq<char>,
    pub storage_id: u16,
    pub num_slots: u16,
    pub fields: Seq<FieldInfoView>,
    pub properties: Seq<FieldInfoView>,
    pub flags: Seq<Seq<char>>,
}

impl View for StorageInfo {
    type V = StorageInfoView;

    open spec fn view(&self) -> StorageInfoView {
        StorageInfoView {
            name: self.name@,
            storage_id: self.storage_id,
            num_slots: self.num_slots,
            fields: views(self.fields@),
            properties: views(self.properties@),
            flags: texts_of(self.flags@),
        }
    }
}

/// A kind of event.
#[derive(Debug)]
pub struct EventInfo {
    pub name: String,
    pub event_type_id: u16,
    pub fields: Vec<FieldInfo>,
}

/// What an `EventInfo` says.
#[verifier::ext_equal]
pub struct EventInfoView {
    pub name: Seq<char>,
    pub event_type_id: u16,
    pub fields: Seq<FieldInfoView>,
}

impl View for EventInfo {
    type V = EventInfoView;

    open spec fn view(&self) -> EventInfoView {
        EventInfoView {
            name: self.name@,
            event_type_id: self.event_type_id,
            fields: views(self.fields@),
        }
    }
}

/// An enumeration.
#[derive(Debug)]
pub struct EnumInfo {
    pub name: String,
    /// Numbers and names of the values.
    pub values: Vec<(u8, String)>,
}

/// What an `EnumInfo` says.
#[verifier::ext_equal]
pub struct EnumInfoView {
    pub name: Seq<char>,
    pub values: Seq<(u8, Seq<char>)>,
}

/// Numbers and names.
pub open spec fn value_texts(values: Seq<(u8, String)>) -> Seq<(u8, Seq<char>)> {
    values.map_values(|v: (u8, String)| (v.0, v.1@))
}

impl View for EnumInfo {
    type V = EnumInfoView;

    open spec fn view(&self) -> EnumInfoView {
        EnumInfoView { name: self.name@, values: value_texts(self.values@) }
    }
}

/// The fields of a definition.
pub open spec fn field_infos(schema: SchemaView, fields: Seq<FieldDef>) -> Seq<FieldInfoView> {
    fields.map_values(
        |f: FieldDef|
            FieldInfoView {
                name: text_or_unknown(schema, f.name),
                type_code: f.field_type,
                field_type: type_text(f.field_type),
                role: f.role,
                pair_id: f.pair_id,
            },
    )
}

/// The flags of a storage.
pub open spec fn flags_of(s: StorageDefView) -> Seq<Seq<char>> {
    (if s.sparse() {
        seq!["sparse"@]
    } else {
        Seq::empty()
    }) + (if s.buffer() {
        seq!["buffer"@]
    } else {
        Seq::empty()
    })
}

/// The storages of a schema.
pub open spec fn storage_infos(schema: SchemaView) -> Seq<StorageInfoView> {
    schema.storages.map_values(
        |s: StorageDefView|
            StorageInfoView {
                name: text_or_unknown(schema, s.name),
                storage_id: s.storage_id,
                num_slots: s.num_slots,
                fields: field_infos(schema, s.fields),
                properties: field_infos(schema, s.properties),
                flags: flags_of(s),
            },
    )
}

/// The kinds of events of a schema.
pub open spec fn event_infos(schema: SchemaView) -> Seq<EventInfoView> {
    schema.events.map_values(
        |e: EventDefView|
            EventInfoView {
                name: text_or_unknown(schema, e.name),
                event_type_id: e.event_type_id,
                fields: field_infos(schema, e.fields),
            },
    )
}

/// The enumerations of a schema.
pub open spec fn enum_infos(schema: SchemaView) -> Seq<EnumInfoView> {
    schema.enums.map_values(
        |e: EnumDefView|
            EnumInfoView {
                name: text_or_unknown(schema, e.name),
                values: e.values.map_values(
                    |v: EnumValue| (v.value, text_or_unknown(schema, v.name)),
                ),
            },
    )
}

fn list_fields(schema: &Schema, fields: &Vec<FieldDef>) -> (r: Vec<FieldInfo>)
    ensures
        views(r@) == field_infos(schema@, fields@),
{
    let ghost want = field_infos(schema@, fields@);
    let mut r: Vec<FieldInfo> = Vec::new();
    let mut i: usize = 0;
    while i < fields.len()
        invariant
            i <= fields@.len(),
            want == field_infos(schema@, fields@),
            views(r@) == want.take(i as int),
        decreases fields@.len() - i,
    {
        let f = fields[i];
        let info = FieldInfo {
            name: known_text(schema, f.name),
            type_code: f.field_type,
            field_type: field_type_name(f.field_type),
            role: f.role,
            pair_id: f.pair_id,
        };
        let ghost before = views(r@);
        r.push(info);
        assert(views(r@) =~= before.push(info@));
        i = i + 1;
        assert(views(r@) =~= want.take(i as int));
    }
    assert(want.take(i as int) =~= want);
    r
}

/// Lists the storages of a schema.
pub fn list_storages(schema: &Schema) -> (r: Vec<StorageInfo>)
    ensures
        views(r@) == storage_infos(schema@),
{
    let ghost want = storage_infos(schema@);
    let mut r: Vec<StorageInfo> = Vec::new();
    let mut i: usize = 0;
    while i < schema.storages.len()
        invariant
            i <= schema.storages@.len(),
            schema@.storages.len() == schema.storages@.len(),
            want == storage_infos(schema@),
            views(r@) == want.take(i as int),
        decreases schema.storages@.len() - i,
    {
        let s = &schema.storages[i];
        assert(schema@.storages[i as int] == s@);
        let mut flags: Vec<String> = Vec::new();
        if s.is_sparse() {
            flags.push("sparse".to_owned());
        }
        if s.is_buffer() {
            flags.push("buffer".to_owned());
        }
        assert(texts_of(flags@) =~= flags_of(s@));
        let info = StorageInfo {
            name: known_text(schema, s.name),
            storage_id: s.storage_id,
            num_slots: s.num_slots,
            fields: list_fields(schema, &s.fields),
            properties: list_fields(schema, &s.properties),
            flags,
        };
        let ghost before = views(r@);
        r.push(info);
        assert(views(r@) =~= before.push(info@));
        i = i + 1;
        assert(views(r@) =~= want.take(i as int));
    }
    assert(want.take(i as int) =~= want);
    r
}

/// Lists the kinds of events of a schema.
pub fn list_events(schema: &Schema) -> (r: Vec<EventInfo>)
    ensures
        views(r@) == event_infos(schema@),
{
    let ghost want = event_infos(schema@);
    let mut r: Vec<EventInfo> = Vec::new();
    let mut i: usize = 0;
    while i < schema.events.len()
        invariant
            i <= schema.events@.len(),
            schema@.events.len() == schema.events@.len(),
            want == event_infos(schema@),
            views(r@) == want.take(i as int),
        decreases schema.events@.len() - i,
    {
        let e = &schema.events[i];
        assert(schema@.events[i as int] == e@);
        let info = EventInfo {
            name: known_text(schema, e.name),
            event_type_id: e.event_type_id,
            fields: list_fields(schema, &e.fields),
        };
        let ghost before = views(r@);
        r.push(info);
        assert(views(r@) =~= before.push(info@));
        i = i + 1;
        assert(views(r@) =~= want.take(i as int));
    }
    assert(want.take(i as int) =~= want);
    r
}

fn list_values(schema: &Schema, values: &Vec<EnumValue>) -> (r: Vec<(u8, String)>)
    ensures
        value_texts(r@) == values@.map_values(
            |v: EnumValue| (v.value, text_or_unknown(schema@, v.name)),
        ),
{
    let ghost want = values@.map_values(
        |v: EnumValue| (v.value, text_or_unknown(schema@, v.name)),
    );
    let mut r: Vec<(u8, String)> = Vec::new();
    let mut i: usize = 0;
    while i < values.len()
        invariant
            i <= values@.len(),
            want == values@.map_values(
                |v: EnumValue| (v.value, text_or_unknown(schema@, v.name)),
            ),
            value_texts(r@) == want.take(i as int),
        decreases values@.len() - i,
    {
        let name = known_text(schema, values[i].name);
        let ghost before = value_texts(r@);
        r.push((values[i].value, name));
        assert(value_texts(r@) =~= before.push((values@[i as int].value, name@)));
        i = i + 1;
        assert(value_texts(r@) =~= want.take(i as int));
    }
    assert(want.take(i as int) =~= want);
    r
}

/// Lists the enumerations of a schema.
pub fn list_enums(schema: &Schema) -> (r: Vec<EnumInfo>)
    ensures
        views(r@) == enum_infos(schema@),
{
    let ghost want = enum_infos(schema@);
    let mut r: Vec<EnumInfo> = Vec::new();
    let mut i: usize = 0;
    while i < schema.enums.len()
        invariant
            i <= schema.enums@.len(),
            schema@.enums.len() == schema.enums@.len(),
            want == enum_infos(schema@),
            views(r@) == want.take(i as int),
        decreases schema.enums@.len() - i,
    {
        let e = &schema.enums[i];
        assert(schema@.enums[i as int] == e@);
        let info = EnumInfo {
            name: known_text(schema, e.name),
            values: list_values(schema, &e.values),
        };
        let ghost before = views(r@);
        r.push(info);
        assert(views(r@) =~= before.push(info@));
        i = i + 1;
        assert(views(r@) =~= want.take(i as int));
    }
    assert(want.take(i as int) =~= want);
    r
}

} // verus!
