//! Schema builder and binary serialization for the µScope format.

use vstd::prelude::*;
use crate::bytes::{suffix, ByteReader};
use crate::error::TraceError;
use crate::numerals::texts_of;
use crate::text::str_eq;
use crate::string_pool::{
    law_insert_all_keeps, law_insert_keeps, lemma_insert_all_join, lemma_insert_all_push, pool_get,
    Pool, StringPoolBuilder, StringPoolReader,
};
use crate::types::{
    clone_vec, copy_vec, lemma_views_self, put_slice, ClockDomainDef, DutDesc, DutDescView,
    DutProperty, EnumDef, EnumDefView, EnumValue, EventDef, EventDefView, FieldDef, FieldType,
    SchemaHeader, ScopeDef, StorageDef, StorageDefView, SummaryFieldDef,
};
use crate::wire::{
    decode_n, encode_all, law_all_roundtrip, lemma_join_assoc, lemma_suffix_join,
    lemma_suffix_suffix, read_n, views, write_all, Wire,
};

verus! {

broadcast use crate::bytes::group_le_len;

/// A fully built schema ready for serialization.
#[derive(Debug)]
pub struct Schema {
    pub clock_domains: Vec<ClockDomainDef>,
    pub scopes: Vec<ScopeDef>,
    pub enums: Vec<EnumDef>,
    pub storages: Vec<StorageDef>,
    pub events: Vec<EventDef>,
    pub summary_fields: Vec<SummaryFieldDef>,
    pub string_pool: Vec<u8>,
}

/// What a `Schema` holds.
#[verifier::ext_equal]
pub struct SchemaView {
    pub clock_domains: Seq<ClockDomainDef>,
    pub scopes: Seq<ScopeDef>,
    pub enums: Seq<EnumDefView>,
    pub storages: Seq<StorageDefView>,
    pub events: Seq<EventDefView>,
    pub summary_fields: Seq<SummaryFieldDef>,
    pub string_pool: Seq<u8>,
}

impl View for Schema {
    type V = SchemaView;

    open spec fn view(&self) -> SchemaView {
        SchemaView {
            clock_domains: self.clock_domains@,
            scopes: self.scopes@,
            enums: views(self.enums@),
            storages: views(self.storages@),
            events: views(self.events@),
            summary_fields: self.summary_fields@,
            string_pool: self.string_pool@,
        }
    }
}

impl SchemaView {
    /// The bytes of the definitions, in the order of the file.
    pub open spec fn definitions(self) -> Seq<u8> {
        encode_all::<ClockDomainDef>(self.clock_domains) + (encode_all::<ScopeDef>(self.scopes) + (
        encode_all::<EnumDef>(self.enums) + (encode_all::<StorageDef>(self.storages) + (encode_all::<
            EventDef,
        >(self.events) + encode_all::<SummaryFieldDef>(self.summary_fields)))))
    }

    /// The counts at the start of the schema.
    pub open spec fn header(self) -> SchemaHeader {
        SchemaHeader {
            num_enums: self.enums.len() as u8,
            num_clock_domains: self.clock_domains.len() as u8,
            num_scopes: self.scopes.len() as u16,
            num_storages: self.storages.len() as u16,
            num_event_types: self.events.len() as u16,
            num_summary_fields: self.summary_fields.len() as u16,
            string_pool_offset: ((12 + self.definitions().len()) % 0x1_0000) as u16,
        }
    }

    /// The bytes of the schema: counts, definitions, string pool.
    pub open spec fn encode(self) -> Seq<u8> {
        SchemaHeader::encode(self.header()) + self.definitions() + self.string_pool
    }

    /// Whether every count fits in its place in the header.
    pub open spec fn encodable(self) -> bool {
        &&& self.enums.len() <= u8::MAX
        &&& self.clock_domains.len() <= u8::MAX
        &&& self.scopes.len() <= u16::MAX
        &&& self.storages.len() <= u16::MAX
        &&& self.events.len() <= u16::MAX
        &&& self.summary_fields.len() <= u16::MAX
        &&& 12 + self.definitions().len() <= u16::MAX
        &&& forall|i: int| 0 <= i < self.enums.len() ==> EnumDef::encodable(#[trigger] self.enums[i])
        &&& forall|i: int|
            0 <= i < self.storages.len() ==> StorageDef::encodable(#[trigger] self.storages[i])
        &&& forall|i: int| 0 <= i < self.events.len() ==> EventDef::encodable(#[trigger] self.events[i])
    }

    /// The string at an offset of the string pool.
    pub open spec fn string(self, offset: u16) -> Option<Seq<char>> {
        pool_get(self.string_pool, offset as int)
    }
}

/// The definitions at the start of `s`, as many as `h` says, and how many
/// bytes they take. The string pool is left empty.
pub open spec fn parse_definitions(s: Seq<u8>, h: SchemaHeader) -> Result<
    (SchemaView, int),
    TraceError,
> {
    match decode_n::<ClockDomainDef>(s, h.num_clock_domains as nat) {
        Err(e) => Err(e),
        Ok((clock_domains, a)) => match decode_n::<ScopeDef>(suffix(s, a), h.num_scopes as nat) {
            Err(e) => Err(e),
            Ok((scopes, b)) => match decode_n::<EnumDef>(suffix(s, a + b), h.num_enums as nat) {
                Err(e) => Err(e),
                Ok((enums, c)) => match decode_n::<StorageDef>(
                    suffix(s, a + b + c),
                    h.num_storages as nat,
                ) {
                    Err(e) => Err(e),
                    Ok((storages, d)) => match decode_n::<EventDef>(
                        suffix(s, a + b + c + d),
                        h.num_event_types as nat,
                    ) {
                        Err(e) => Err(e),
                        Ok((events, f)) => match decode_n::<SummaryFieldDef>(
                            suffix(s, a + b + c + d + f),
                            h.num_summary_fields as nat,
                        ) {
                            Err(e) => Err(e),
                            Ok((summary_fields, g)) => Ok(
                                (
                                    SchemaView {
                                        clock_domains,
                                        scopes,
                                        enums,
                                        storages,
                                        events,
                                        summary_fields,
                                        string_pool: Seq::empty(),
                                    },
                                    a + b + c + d + f + g,
                                ),
                            ),
                        },
                    },
                },
            },
        },
    }
}

/// The schema at the start of `s`, `total` bytes long, and how many bytes are
/// read. Its string pool takes what is left of it behind the offset that its
/// header gives.
pub open spec fn parse_schema(s: Seq<u8>, total: int) -> Result<(SchemaView, int), TraceError> {
    match SchemaHeader::decode(s) {
        Err(e) => Err(e),
        Ok((h, a)) => match parse_definitions(suffix(s, a), h) {
            Err(e) => Err(e),
            Ok((defs, b)) => if total < h.string_pool_offset {
                Err(TraceError::StringPoolOutOfRange)
            } else {
                let size = total - h.string_pool_offset;
                if s.len() < a + b + size {
                    Err(TraceError::UnexpectedEof)
                } else {
                    Ok(
                        (
                            SchemaView {
                                string_pool: s.subrange(a + b, a + b + size),
                                ..defs
                            },
                            a + b + size,
                        ),
                    )
                }
            },
        },
    }
}

proof fn lemma_definitions_roundtrip(v: SchemaView, rest: Seq<u8>)
    requires
        v.encodable(),
    ensures
        parse_definitions(v.definitions() + rest, v.header()) == Ok::<
            (SchemaView, int),
            TraceError,
        >((SchemaView { string_pool: Seq::empty(), ..v }, v.definitions().len() as int)),
{
    let s = v.definitions() + rest;
    let e1 = encode_all::<ClockDomainDef>(v.clock_domains);
    let e2 = encode_all::<ScopeDef>(v.scopes);
    let e3 = encode_all::<EnumDef>(v.enums);
    let e4 = encode_all::<StorageDef>(v.storages);
    let e5 = encode_all::<EventDef>(v.events);
    let e6 = encode_all::<SummaryFieldDef>(v.summary_fields);
    let r5 = e6 + rest;
    let r4 = e5 + r5;
    let r3 = e4 + r4;
    let r2 = e3 + r3;
    let r1 = e2 + r2;
    lemma_join_assoc(e5, e6, rest);
    lemma_join_assoc(e4, e5 + e6, rest);
    lemma_join_assoc(e3, e4 + (e5 + e6), rest);
    lemma_join_assoc(e2, e3 + (e4 + (e5 + e6)), rest);
    lemma_join_assoc(e1, e2 + (e3 + (e4 + (e5 + e6))), rest);
    assert(s == e1 + r1);
    let a = e1.len() as int;
    let b = e2.len() as int;
    let c = e3.len() as int;
    let d = e4.len() as int;
    let f = e5.len() as int;
    lemma_suffix_join(e1, r1);
    lemma_suffix_join(e2, r2);
    lemma_suffix_suffix(s, a, b);
    lemma_suffix_join(e3, r3);
    lemma_suffix_suffix(s, a + b, c);
    lemma_suffix_join(e4, r4);
    lemma_suffix_suffix(s, a + b + c, d);
    lemma_suffix_join(e5, r5);
    lemma_suffix_suffix(s, a + b + c + d, f);
    law_all_roundtrip::<ClockDomainDef>(v.clock_domains, r1);
    law_all_roundtrip::<ScopeDef>(v.scopes, r2);
    law_all_roundtrip::<EnumDef>(v.enums, r3);
    law_all_roundtrip::<StorageDef>(v.storages, r4);
    law_all_roundtrip::<EventDef>(v.events, r5);
    law_all_roundtrip::<SummaryFieldDef>(v.summary_fields, rest);
}

/// A schema is read back as it was written.
pub proof fn law_schema_roundtrip(v: SchemaView, rest: Seq<u8>)
    requires
        v.encodable(),
    ensures
        parse_schema(v.encode() + rest, v.encode().len() as int) == Ok::<
            (SchemaView, int),
            TraceError,
        >((v, v.encode().len() as int)),
{
    let s = v.encode() + rest;
    let head = SchemaHeader::encode(v.header());
    let defs = v.definitions();
    let tail = defs + (v.string_pool + rest);
    assert(s =~= head + tail);
    SchemaHeader::law_roundtrip(v.header(), tail);
    assert(head.len() == 12);
    assert(suffix(s, 12) =~= tail);
    lemma_definitions_roundtrip(v, v.string_pool + rest);
    let at = 12 + defs.len() as int;
    assert(s.subrange(at, at + v.string_pool.len()) =~= v.string_pool);
}

impl Schema {
    /// Serialize the schema to binary format.
    pub fn write_to(&self, w: &mut Vec<u8>)
        ensures
            final(w)@ == old(w)@ + self@.encode(),
    {
        let mut body: Vec<u8> = Vec::new();
        write_all::<ClockDomainDef>(&self.clock_domains, &mut body);
        write_all::<ScopeDef>(&self.scopes, &mut body);
        write_all::<EnumDef>(&self.enums, &mut body);
        write_all::<StorageDef>(&self.storages, &mut body);
        write_all::<EventDef>(&self.events, &mut body);
        write_all::<SummaryFieldDef>(&self.summary_fields, &mut body);
        proof {
            lemma_views_self(self.clock_domains@);
            lemma_views_self(self.scopes@);
            lemma_views_self(self.summary_fields@);
            assert(body@ =~= self@.definitions());
        }
        let len: usize = body.len();
        assert(len as u16 == len % 0x1_0000) by (bit_vector);
        let low: u16 = #[verifier::truncate] (len as u16);
        let header = SchemaHeader {
            num_enums: self.enums.len() as u8,
            num_clock_domains: self.clock_domains.len() as u8,
            num_scopes: self.scopes.len() as u16,
            num_storages: self.storages.len() as u16,
            num_event_types: self.events.len() as u16,
            num_summary_fields: self.summary_fields.len() as u16,
            string_pool_offset: low.wrapping_add(12),
        };
        assert(header == self@.header());
        header.write_to(w);
        put_slice(w, body.as_slice());
        put_slice(w, self.string_pool.as_slice());
        assert(w@ =~= old(w)@ + self@.encode());
    }

    /// Reads the definitions that a header announces.
    fn read_definitions(r: &mut ByteReader<'_>, h: SchemaHeader) -> (res: Result<
        Schema,
        TraceError,
    >)
        ensures
            match parse_definitions(old(r)@, h) {
                Ok((v, n)) => 0 <= n <= old(r)@.len() && res is Ok && res->Ok_0@ == v && final(r)@
                    == suffix(old(r)@, n),
                Err(e) => res == Err::<Schema, TraceError>(e),
            },
    {
        let ghost s = r@;
        let clock_domains = match read_n::<ClockDomainDef>(r, h.num_clock_domains as usize) {
            Err(e) => return Err(e),
            Ok(v) => v,
        };
        let ghost a = decode_n::<ClockDomainDef>(s, h.num_clock_domains as nat)->Ok_0.1;
        let scopes = match read_n::<ScopeDef>(r, h.num_scopes as usize) {
            Err(e) => return Err(e),
            Ok(v) => v,
        };
        let ghost b = decode_n::<ScopeDef>(suffix(s, a), h.num_scopes as nat)->Ok_0.1;
        proof {
            lemma_suffix_suffix(s, a, b);
        }
        let enums = match read_n::<EnumDef>(r, h.num_enums as usize) {
            Err(e) => return Err(e),
            Ok(v) => v,
        };
        let ghost c = decode_n::<EnumDef>(suffix(s, a + b), h.num_enums as nat)->Ok_0.1;
        proof {
            lemma_suffix_suffix(s, a + b, c);
        }
        let storages = match read_n::<StorageDef>(r, h.num_storages as usize) {
            Err(e) => return Err(e),
            Ok(v) => v,
        };
        let ghost d = decode_n::<StorageDef>(suffix(s, a + b + c), h.num_storages as nat)->Ok_0.1;
        proof {
            lemma_suffix_suffix(s, a + b + c, d);
        }
        let events = match read_n::<EventDef>(r, h.num_event_types as usize) {
            Err(e) => return Err(e),
            Ok(v) => v,
        };
        let ghost f = decode_n::<EventDef>(
            suffix(s, a + b + c + d),
            h.num_event_types as nat,
        )->Ok_0.1;
        proof {
            lemma_suffix_suffix(s, a + b + c + d, f);
        }
        let summary_fields = match read_n::<SummaryFieldDef>(r, h.num_summary_fields as usize) {
            Err(e) => return Err(e),
            Ok(v) => v,
        };
        proof {
            let g = decode_n::<SummaryFieldDef>(
                suffix(s, a + b + c + d + f),
                h.num_summary_fields as nat,
            )->Ok_0.1;
            lemma_suffix_suffix(s, a + b + c + d + f, g);
            lemma_views_self(clock_domains@);
            lemma_views_self(scopes@);
            lemma_views_self(summary_fields@);
        }
        Ok(
            Schema {
                clock_domains,
                scopes,
                enums,
                storages,
                events,
                summary_fields,
                string_pool: Vec::new(),
            },
        )
    }

    /// Deserialize a schema of `total_size` bytes from binary format.
    pub fn read_from(r: &mut ByteReader<'_>, total_size: usize) -> (res: Result<Schema, TraceError>)
        ensures
            match parse_schema(old(r)@, total_size as int) {
                Ok((v, n)) => 0 <= n <= old(r)@.len() && res is Ok && res->Ok_0@ == v && final(r)@
                    == suffix(old(r)@, n),
                Err(e) => res == Err::<Schema, TraceError>(e),
            },
    {
        let ghost s = r@;
        let h = match SchemaHeader::read_from(r) {
            Err(e) => return Err(e),
            Ok(h) => h,
        };
        let defs = match Schema::read_definitions(r, h) {
            Err(e) => return Err(e),
            Ok(v) => v,
        };
        let ghost b = parse_definitions(suffix(s, 12), h)->Ok_0.1;
        proof {
            lemma_suffix_suffix(s, 12, b);
        }
        if total_size < h.string_pool_offset as usize {
            return Err(TraceError::StringPoolOutOfRange);
        }
        let size: usize = total_size - h.string_pool_offset as usize;
        let pool = match r.take(size) {
            Err(e) => return Err(e),
            Ok(p) => p,
        };
        let mut string_pool: Vec<u8> = Vec::new();
        put_slice(&mut string_pool, pool);
        proof {
            lemma_suffix_suffix(s, 12 + b, size as int);
            assert(string_pool@ =~= s.subrange(12 + b, 12 + b + size));
        }
        Ok(Schema { string_pool, ..defs })
    }

    /// Look up a string in the schema's string pool.
    pub fn get_string(&self, offset: u16) -> (r: Option<&str>)
        ensures
            match self@.string(offset) {
                Some(s) => r is Some && r->Some_0@ == s,
                None => r is None,
            },
    {
        StringPoolReader::new(self.string_pool.as_slice()).get(offset)
    }
}

impl Clone for Schema {
    fn clone(&self) -> (s: Schema)
        ensures
            s@ == self@,
    {
        Schema {
            clock_domains: copy_vec(&self.clock_domains),
            scopes: copy_vec(&self.scopes),
            enums: clone_vec(&self.enums),
            storages: clone_vec(&self.storages),
            events: clone_vec(&self.events),
            summary_fields: copy_vec(&self.summary_fields),
            string_pool: copy_vec(&self.string_pool),
        }
    }
}

/// High-level field specification used in the builder API.
#[derive(Debug, Clone, Copy)]
pub enum FieldSpec {
    U8,
    U16,
    U32,
    U64,
    I8,
    I16,
    I32,
    I64,
    Bool,
    StringRef,
    /// An enumeration, by its number.
    Enum(u8),
}

impl FieldSpec {
    /// The type of the field.
    pub open spec fn spec_type(self) -> FieldType {
        match self {
            FieldSpec::U8 => FieldType::U8,
            FieldSpec::U16 => FieldType::U16,
            FieldSpec::U32 => FieldType::U32,
            FieldSpec::U64 => FieldType::U64,
            FieldSpec::I8 => FieldType::I8,
            FieldSpec::I16 => FieldType::I16,
            FieldSpec::I32 => FieldType::I32,
            FieldSpec::I64 => FieldType::I64,
            FieldSpec::Bool => FieldType::Bool,
            FieldSpec::StringRef => FieldType::StringRef,
            FieldSpec::Enum(_) => FieldType::Enum,
        }
    }

    /// The number of its enumeration, 0 where it has none.
    pub open spec fn spec_enum_id(self) -> u8 {
        match self {
            FieldSpec::Enum(id) => id,
            _ => 0,
        }
    }

    fn field_type(&self) -> (c: u8)
        ensures
            c == self.spec_type().spec_code(),
    {
        match self {
            FieldSpec::U8 => FieldType::U8.code(),
            FieldSpec::U16 => FieldType::U16.code(),
            FieldSpec::U32 => FieldType::U32.code(),
            FieldSpec::U64 => FieldType::U64.code(),
            FieldSpec::I8 => FieldType::I8.code(),
            FieldSpec::I16 => FieldType::I16.code(),
            FieldSpec::I32 => FieldType::I32.code(),
            FieldSpec::I64 => FieldType::I64.code(),
            FieldSpec::Bool => FieldType::Bool.code(),
            FieldSpec::StringRef => FieldType::StringRef.code(),
            FieldSpec::Enum(_) => FieldType::Enum.code(),
        }
    }

    fn enum_id(&self) -> (id: u8)
        ensures
            id == self.spec_enum_id(),
    {
        match self {
            FieldSpec::Enum(id) => *id,
            _ => 0,
        }
    }
}

/// A field of a definition whose names are in `pool`.
pub open spec fn field_def(
    pool: Pool,
    name: Seq<char>,
    spec: FieldSpec,
    role: u8,
    pair_id: u8,
) -> FieldDef {
    FieldDef {
        name: pool.index[name],
        field_type: spec.spec_type().spec_code(),
        enum_id: spec.spec_enum_id(),
        role,
        pair_id,
        reserved: [0u8, 0u8],
    }
}

/// Some fields with their names as texts.
pub open spec fn named(fields: Seq<(&str, FieldSpec)>) -> Seq<(Seq<char>, FieldSpec)> {
    fields.map_values(|f: (&str, FieldSpec)| (f.0@, f.1))
}

/// Some properties with their names as texts.
pub open spec fn named_props(properties: Seq<(&str, FieldSpec, u8, u8)>) -> Seq<
    (Seq<char>, FieldSpec, u8, u8),
> {
    properties.map_values(|f: (&str, FieldSpec, u8, u8)| (f.0@, f.1, f.2, f.3))
}

/// The names of some fields.
pub open spec fn field_names(fields: Seq<(Seq<char>, FieldSpec)>) -> Seq<Seq<char>> {
    fields.map_values(|f: (Seq<char>, FieldSpec)| f.0)
}

/// The names of some properties.
pub open spec fn property_names(properties: Seq<(Seq<char>, FieldSpec, u8, u8)>) -> Seq<Seq<char>> {
    properties.map_values(|f: (Seq<char>, FieldSpec, u8, u8)| f.0)
}

/// The definitions of some fields whose names are in `pool`.
pub open spec fn field_defs(pool: Pool, fields: Seq<(Seq<char>, FieldSpec)>) -> Seq<FieldDef> {
    fields.map_values(|f: (Seq<char>, FieldSpec)| field_def(pool, f.0, f.1, 0, 0))
}

/// The definitions of some properties whose names are in `pool`.
pub open spec fn property_defs(
    pool: Pool,
    properties: Seq<(Seq<char>, FieldSpec, u8, u8)>,
) -> Seq<FieldDef> {
    properties.map_values(
        |f: (Seq<char>, FieldSpec, u8, u8)| field_def(pool, f.0, f.1, f.2, f.3),
    )
}

/// The values of an enumeration whose names are in `pool`, numbered from 0.
pub open spec fn enum_values(pool: Pool, names: Seq<Seq<char>>) -> Seq<EnumValue> {
    Seq::new(
        names.len(),
        |i: int| EnumValue { value: i as u8, reserved: 0, name: pool.index[names[i]] },
    )
}

/// The texts behind some references.
pub open spec fn texts(names: Seq<&str>) -> Seq<Seq<char>> {
    names.map_values(|s: &str| s@)
}

/// A schema under construction: its string pool and its definitions.
#[verifier::ext_equal]
pub struct Draft {
    pub pool: Pool,
    pub clock_domains: Seq<ClockDomainDef>,
    pub scopes: Seq<ScopeDef>,
    pub enums: Seq<EnumDefView>,
    pub storages: Seq<StorageDefView>,
    pub events: Seq<EventDefView>,
    pub summary_fields: Seq<SummaryFieldDef>,
}

impl Draft {
    pub open spec fn empty() -> Draft {
        Draft {
            pool: Pool::empty(),
            clock_domains: Seq::empty(),
            scopes: Seq::empty(),
            enums: Seq::empty(),
            storages: Seq::empty(),
            events: Seq::empty(),
            summary_fields: Seq::empty(),
        }
    }

    /// The draft with a clock domain added, numbered by its place.
    pub open spec fn with_clock_domain(self, name: Seq<char>, period_ps: u32) -> Draft {
        let pool = self.pool.insert(name);
        Draft {
            pool,
            clock_domains: self.clock_domains.push(
                ClockDomainDef {
                    name: pool.index[name],
                    clock_id: (self.clock_domains.len() as u8) as u16,
                    period_ps,
                },
            ),
            ..self
        }
    }

    /// The strings that a scope adds.
    pub open spec fn scope_names(name: Seq<char>, protocol: Option<Seq<char>>) -> Seq<Seq<char>> {
        match protocol {
            Some(p) => seq![name, p],
            None => seq![name],
        }
    }

    /// The draft with a scope added, numbered by its place.
    pub open spec fn with_scope(
        self,
        name: Seq<char>,
        parent_id: Option<u16>,
        protocol: Option<Seq<char>>,
        clock_id: Option<u8>,
    ) -> Draft {
        let pool = self.pool.insert_all(Draft::scope_names(name, protocol));
        Draft {
            pool,
            scopes: self.scopes.push(
                ScopeDef {
                    name: pool.index[name],
                    scope_id: self.scopes.len() as u16,
                    parent_id: match parent_id {
                        Some(p) => p,
                        None => ScopeDef::NO_PARENT,
                    },
                    protocol: match protocol {
                        Some(p) => pool.index[p],
                        None => ScopeDef::NO_PROTOCOL,
                    },
                    clock_id: match clock_id {
                        Some(c) => c,
                        None => ScopeDef::INHERIT_CLOCK,
                    },
                    reserved: [0u8, 0u8, 0u8],
                },
            ),
            ..self
        }
    }

    /// The draft with an enumeration added.
    pub open spec fn with_enum(self, name: Seq<char>, values: Seq<Seq<char>>) -> Draft {
        let pool = self.pool.insert_all(seq![name] + values);
        Draft {
            pool,
            enums: self.enums.push(
                EnumDefView {
                    name: pool.index[name],
                    num_values: values.len() as u8,
                    reserved: 0,
                    values: enum_values(pool, values),
                },
            ),
            ..self
        }
    }

    /// The draft with a storage added, numbered by its place.
    pub open spec fn with_storage(
        self,
        name: Seq<char>,
        scope_id: u16,
        num_slots: u16,
        flags: u16,
        fields: Seq<(Seq<char>, FieldSpec)>,
        properties: Seq<(Seq<char>, FieldSpec, u8, u8)>,
    ) -> Draft {
        let pool = self.pool.insert_all(
            seq![name] + field_names(fields) + property_names(properties),
        );
        Draft {
            pool,
            storages: self.storages.push(
                StorageDefView {
                    name: pool.index[name],
                    storage_id: self.storages.len() as u16,
                    num_slots,
                    num_fields: fields.len() as u16,
                    flags,
                    scope_id,
                    num_properties: properties.len() as u16,
                    reserved_v3: 0,
                    fields: field_defs(pool, fields),
                    properties: property_defs(pool, properties),
                },
            ),
            ..self
        }
    }

    /// The draft with a kind of event added, numbered by its place.
    pub open spec fn with_event(
        self,
        name: Seq<char>,
        scope_id: u16,
        fields: Seq<(Seq<char>, FieldSpec)>,
    ) -> Draft {
        let pool = self.pool.insert_all(seq![name] + field_names(fields));
        Draft {
            pool,
            events: self.events.push(
                EventDefView {
                    name: pool.index[name],
                    event_type_id: self.events.len() as u16,
                    num_fields: fields.len() as u16,
                    scope_id,
                    fields: field_defs(pool, fields),
                },
            ),
            ..self
        }
    }

    /// The draft with a summary field added.
    pub open spec fn with_summary_field(
        self,
        name: Seq<char>,
        spec: FieldSpec,
        scope_id: u16,
    ) -> Draft {
        let pool = self.pool.insert(name);
        Draft {
            pool,
            summary_fields: self.summary_fields.push(
                SummaryFieldDef {
                    name: pool.index[name],
                    field_type: spec.spec_type().spec_code(),
                    reserved: 0,
                    scope_id,
                    reserved2: 0,
                },
            ),
            ..self
        }
    }

    /// The finished schema.
    pub open spec fn finished(self) -> SchemaView {
        SchemaView {
            clock_domains: self.clock_domains,
            scopes: self.scopes,
            enums: self.enums,
            storages: self.storages,
            events: self.events,
            summary_fields: self.summary_fields,
            string_pool: self.pool.data,
        }
    }
}

/// Fluent builder for constructing a Schema.
pub struct SchemaBuilder {
    strings: StringPoolBuilder,
    clock_domains: Vec<ClockDomainDef>,
    scopes: Vec<ScopeDef>,
    enums: Vec<EnumDef>,
    storages: Vec<StorageDef>,
    events: Vec<EventDef>,
    summary_fields: Vec<SummaryFieldDef>,
}

impl View for SchemaBuilder {
    type V = Draft;

    closed spec fn view(&self) -> Draft {
        Draft {
            pool: self.strings@,
            clock_domains: self.clock_domains@,
            scopes: self.scopes@,
            enums: views(self.enums@),
            storages: views(self.storages@),
            events: views(self.events@),
            summary_fields: self.summary_fields@,
        }
    }
}

/// Inserts the names of some fields and gives their definitions.
fn define_fields(strings: &mut StringPoolBuilder, fields: &[(&str, FieldSpec)]) -> (defs: Vec<
    FieldDef,
>)
    requires
        old(strings)@.wf(),
        old(strings)@.fits_all(field_names(named(fields@))),
    ensures
        final(strings)@ == old(strings)@.insert_all(field_names(named(fields@))),
        final(strings)@.wf(),
        defs@ == field_defs(final(strings)@, named(fields@)),
{
    let ghost p = strings@;
    let ghost names = field_names(named(fields@));
    let mut defs: Vec<FieldDef> = Vec::new();
    let mut i: usize = 0;
    assert(names.take(0) =~= Seq::<Seq<char>>::empty());
    while i < fields.len()
        invariant
            i <= fields@.len(),
            names == field_names(named(fields@)),
            p.wf(),
            p.fits_all(names),
            strings@ == p.insert_all(names.take(i as int)),
            strings@.wf(),
            defs@ == field_defs(strings@, named(fields@.take(i as int))),
            forall|j: int| 0 <= j < i ==> strings@.index.contains_key(#[trigger] names[j]),
        decreases fields@.len() - i,
    {
        let ghost before = strings@;
        proof {
            assert(names.take(i as int).push(names[i as int]) =~= names.take(i + 1));
            lemma_insert_all_push(p, names.take(i as int), names[i as int]);
            lemma_insert_all_join(p, names.take(i + 1), names.skip(i + 1));
            assert(names.take(i + 1) + names.skip(i + 1) =~= names);
            law_insert_keeps(before, names[i as int]);
        }
        let name: u16 = strings.insert(fields[i].0);
        let def = FieldDef {
            name,
            field_type: fields[i].1.field_type(),
            enum_id: fields[i].1.enum_id(),
            role: 0,
            pair_id: 0,
            reserved: [0, 0],
        };
        let ghost prev = defs@;
        defs.push(def);
        i = i + 1;
        proof {
            let want = field_defs(strings@, named(fields@.take(i as int)));
            assert forall|j: int| 0 <= j < i implies defs@[j] == want[j] by {
                if j < i - 1 {
                    assert(prev[j] == field_defs(before, named(fields@.take(i - 1)))[j]);
                    assert(before.index.contains_key(names[j]));
                } else {
                    assert(def.reserved =~= [0u8, 0u8]);
                }
            }
            assert(defs@ =~= want);
        }
    }
    assert(names.take(i as int) =~= names);
    assert(fields@.take(i as int) =~= fields@);
    defs
}

/// Inserts the names of some properties and gives their definitions.
fn define_properties(
    strings: &mut StringPoolBuilder,
    properties: &[(&str, FieldSpec, u8, u8)],
) -> (defs: Vec<FieldDef>)
    requires
        old(strings)@.wf(),
        old(strings)@.fits_all(property_names(named_props(properties@))),
    ensures
        final(strings)@ == old(strings)@.insert_all(property_names(named_props(properties@))),
        final(strings)@.wf(),
        defs@ == property_defs(final(strings)@, named_props(properties@)),
{
    let ghost p = strings@;
    let ghost names = property_names(named_props(properties@));
    let mut defs: Vec<FieldDef> = Vec::new();
    let mut i: usize = 0;
    assert(names.take(0) =~= Seq::<Seq<char>>::empty());
    while i < properties.len()
        invariant
            i <= properties@.len(),
            names == property_names(named_props(properties@)),
            p.wf(),
            p.fits_all(names),
            strings@ == p.insert_all(names.take(i as int)),
            strings@.wf(),
            defs@ == property_defs(strings@, named_props(properties@.take(i as int))),
            forall|j: int| 0 <= j < i ==> strings@.index.contains_key(#[trigger] names[j]),
        decreases properties@.len() - i,
    {
        let ghost before = strings@;
        proof {
            assert(names.take(i as int).push(names[i as int]) =~= names.take(i + 1));
            lemma_insert_all_push(p, names.take(i as int), names[i as int]);
            lemma_insert_all_join(p, names.take(i + 1), names.skip(i + 1));
            assert(names.take(i + 1) + names.skip(i + 1) =~= names);
            law_insert_keeps(before, names[i as int]);
        }
        let name: u16 = strings.insert(properties[i].0);
        let def = FieldDef {
            name,
            field_type: properties[i].1.field_type(),
            enum_id: properties[i].1.enum_id(),
            role: properties[i].2,
            pair_id: properties[i].3,
            reserved: [0, 0],
        };
        let ghost prev = defs@;
        defs.push(def);
        i = i + 1;
        proof {
            let want = property_defs(strings@, named_props(properties@.take(i as int)));
            assert forall|j: int| 0 <= j < i implies defs@[j] == want[j] by {
                if j < i - 1 {
                    assert(prev[j] == property_defs(before, named_props(properties@.take(i - 1)))[j]);
                    assert(before.index.contains_key(names[j]));
                } else {
                    assert(def.reserved =~= [0u8, 0u8]);
                }
            }
            assert(defs@ =~= want);
        }
    }
    assert(names.take(i as int) =~= names);
    assert(properties@.take(i as int) =~= properties@);
    defs
}

/// Inserts the names of the values of an enumeration and gives the values.
fn define_values(strings: &mut StringPoolBuilder, values: &[&str]) -> (vals: Vec<EnumValue>)
    requires
        old(strings)@.wf(),
        old(strings)@.fits_all(texts(values@)),
    ensures
        final(strings)@ == old(strings)@.insert_all(texts(values@)),
        final(strings)@.wf(),
        vals@ == enum_values(final(strings)@, texts(values@)),
{
    let ghost p = strings@;
    let ghost names = texts(values@);
    let mut vals: Vec<EnumValue> = Vec::new();
    let mut i: usize = 0;
    assert(names.take(0) =~= Seq::<Seq<char>>::empty());
    while i < values.len()
        invariant
            i <= values@.len(),
            names == texts(values@),
            p.wf(),
            p.fits_all(names),
            strings@ == p.insert_all(names.take(i as int)),
            strings@.wf(),
            vals@ == enum_values(strings@, names.take(i as int)),
            forall|j: int| 0 <= j < i ==> strings@.index.contains_key(#[trigger] names[j]),
        decreases values@.len() - i,
    {
        let ghost before = strings@;
        proof {
            assert(names.take(i as int).push(names[i as int]) =~= names.take(i + 1));
            lemma_insert_all_push(p, names.take(i as int), names[i as int]);
            lemma_insert_all_join(p, names.take(i + 1), names.skip(i + 1));
            assert(names.take(i + 1) + names.skip(i + 1) =~= names);
            law_insert_keeps(before, names[i as int]);
        }
        let name: u16 = strings.insert(values[i]);
        let val = EnumValue { value: i as u8, reserved: 0, name };
        let ghost prev = vals@;
        vals.push(val);
        i = i + 1;
        proof {
            let want = enum_values(strings@, names.take(i as int));
            assert forall|j: int| 0 <= j < i implies vals@[j] == want[j] by {
                if j < i - 1 {
                    assert(prev[j] == enum_values(before, names.take(i - 1))[j]);
                    assert(before.index.contains_key(names[j]));
                }
            }
            assert(vals@ =~= want);
        }
    }
    assert(names.take(i as int) =~= names);
    vals
}

impl SchemaBuilder {
    /// An empty schema.
    pub fn new() -> (b: SchemaBuilder)
        ensures
            b@ == Draft::empty(),
    {
        let b = SchemaBuilder {
            strings: StringPoolBuilder::new(),
            clock_domains: Vec::new(),
            scopes: Vec::new(),
            enums: Vec::new(),
            storages: Vec::new(),
            events: Vec::new(),
            summary_fields: Vec::new(),
        };
        assert(b@ =~= Draft::empty());
        b
    }

    /// Add a clock domain. Returns clock_id.
    pub fn clock_domain(&mut self, name: &str, period_ps: u32) -> (id: u8)
        requires
            old(self)@.pool.fits(name@),
        ensures
            id == old(self)@.clock_domains.len() as u8,
            final(self)@ == old(self)@.with_clock_domain(name@, period_ps),
    {
        let id: u8 = self.clock_domains.len() as u8;
        let name_off: u16 = self.strings.insert(name);
        self.clock_domains.push(
            ClockDomainDef { name: name_off, clock_id: id as u16, period_ps },
        );
        assert(self@ =~= old(self)@.with_clock_domain(name@, period_ps));
        id
    }

    /// Add a scope. Returns scope_id.
    pub fn scope(
        &mut self,
        name: &str,
        parent_id: Option<u16>,
        protocol: Option<&str>,
        clock_id: Option<u8>,
    ) -> (id: u16)
        requires
            old(self)@.pool.fits_all(
                Draft::scope_names(
                    name@,
                    match protocol {
                        Some(p) => Some(p@),
                        None => None,
                    },
                ),
            ),
        ensures
            id == old(self)@.scopes.len() as u16,
            final(self)@ == old(self)@.with_scope(
                name@,
                parent_id,
                match protocol {
                    Some(p) => Some(p@),
                    None => None,
                },
                clock_id,
            ),
    {
        let ghost pool = self.strings@;
        let ghost text: Option<Seq<char>> = match protocol {
            Some(p) => Some(p@),
            None => None,
        };
        proof {
            let none = Seq::<Seq<char>>::empty();
            lemma_insert_all_push(pool, none, name@);
            assert(none.push(name@) =~= seq![name@]);
            if let Some(p) = text {
                lemma_insert_all_push(pool, seq![name@], p);
                assert(seq![name@].push(p) =~= seq![name@, p]);
            }
        }
        let id: u16 = self.scopes.len() as u16;
        let name_off: u16 = self.strings.insert(name);
        let protocol_off: u16 = match protocol {
            Some(p) => {
                proof {
                    law_insert_keeps(self.strings@, p@);
                }
                self.strings.insert(p)
            },
            None => ScopeDef::NO_PROTOCOL,
        };
        let def = ScopeDef {
            name: name_off,
            scope_id: id,
            parent_id: match parent_id {
                Some(p) => p,
                None => ScopeDef::NO_PARENT,
            },
            protocol: protocol_off,
            clock_id: match clock_id {
                Some(c) => c,
                None => ScopeDef::INHERIT_CLOCK,
            },
            reserved: [0, 0, 0],
        };
        self.scopes.push(def);
        proof {
            assert(def.reserved =~= [0u8, 0u8, 0u8]);
            assert(self@ =~= old(self)@.with_scope(name@, parent_id, text, clock_id));
        }
        id
    }

    /// Add an enum type. Returns enum_id.
    pub fn enum_type(&mut self, name: &str, values: &[&str]) -> (id: u8)
        requires
            old(self)@.pool.fits_all(seq![name@] + texts(values@)),
        ensures
            id == old(self)@.enums.len() as u8,
            final(self)@ == old(self)@.with_enum(name@, texts(values@)),
    {
        let id: u8 = self.enums.len() as u8;
        proof {
            lemma_insert_first(self.strings@, name@, texts(values@));
        }
        let name_off: u16 = self.strings.insert(name);
        proof {
            law_insert_all_keeps(self.strings@, texts(values@));
        }
        let vals = define_values(&mut self.strings, values);
        let ghost before = self.enums@;
        let def = EnumDef { name: name_off, num_values: vals.len() as u8, reserved: 0, values: vals };
        self.enums.push(def);
        proof {
            assert(views(self.enums@) =~= views(before).push(def@));
            assert(self@ =~= old(self)@.with_enum(name@, texts(values@)));
        }
        id
    }

    /// Add a storage definition. Returns storage_id.
    pub fn storage(
        &mut self,
        name: &str,
        scope_id: u16,
        num_slots: u16,
        flags: u16,
        fields: &[(&str, FieldSpec)],
    ) -> (id: u16)
        requires
            old(self)@.pool.fits_all(seq![name@] + field_names(named(fields@))),
        ensures
            id == old(self)@.storages.len() as u16,
            final(self)@ == old(self)@.with_storage(
                name@,
                scope_id,
                num_slots,
                flags,
                named(fields@),
                Seq::empty(),
            ),
    {
        let none: Vec<(&str, FieldSpec, u8, u8)> = Vec::new();
        proof {
            assert(named_props(none@) =~= Seq::<(Seq<char>, FieldSpec, u8, u8)>::empty());
            assert(property_names(named_props(none@)) =~= Seq::<Seq<char>>::empty());
            assert(seq![name@] + field_names(named(fields@)) + property_names(named_props(none@)) =~= seq![name@]
                + field_names(named(fields@)));
        }
        self.storage_with_properties(name, scope_id, num_slots, flags, fields, none.as_slice())
    }

    /// Add a storage definition with storage-level properties. Returns storage_id.
    ///
    /// Each property is `(name, spec, role, pair_id)` where role is one of
    /// `PROP_ROLE_PLAIN`, `PROP_ROLE_HEAD_PTR`, `PROP_ROLE_TAIL_PTR` and
    /// pair_id groups head/tail pointers into pairs.
    pub fn storage_with_properties(
        &mut self,
        name: &str,
        scope_id: u16,
        num_slots: u16,
        flags: u16,
        fields: &[(&str, FieldSpec)],
        properties: &[(&str, FieldSpec, u8, u8)],
    ) -> (id: u16)
        requires
            old(self)@.pool.fits_all(
                seq![name@] + field_names(named(fields@)) + property_names(named_props(properties@)),
            ),
        ensures
            id == old(self)@.storages.len() as u16,
            final(self)@ == old(self)@.with_storage(
                name@,
                scope_id,
                num_slots,
                flags,
                named(fields@),
                named_props(properties@),
            ),
    {
        let id: u16 = self.storages.len() as u16;
        let ghost fnames = field_names(named(fields@));
        let ghost pnames = property_names(named_props(properties@));
        proof {
            lemma_insert_all_join(self.strings@, seq![name@] + fnames, pnames);
            lemma_insert_first(self.strings@, name@, fnames);
        }
        let name_off: u16 = self.strings.insert(name);
        proof {
            law_insert_all_keeps(self.strings@, fnames);
        }
        let field_defs_vec = define_fields(&mut self.strings, fields);
        let ghost middle = self.strings@;
        proof {
            law_insert_all_keeps(middle, pnames);
        }
        let prop_defs_vec = define_properties(&mut self.strings, properties);
        let ghost last = self.strings@;
        proof {
            assert forall|j: int| 0 <= j < fields@.len() implies field_defs(middle, named(fields@))[j]
                == field_defs(last, named(fields@))[j] by {
                assert(fnames[j] == fields@[j].0@);
                assert(middle.index.contains_key(fnames[j]));
            }
            assert(field_defs(middle, named(fields@)) =~= field_defs(last, named(fields@)));
        }
        let ghost before = self.storages@;
        let def = StorageDef {
            name: name_off,
            storage_id: id,
            num_slots,
            num_fields: field_defs_vec.len() as u16,
            flags,
            scope_id,
            num_properties: prop_defs_vec.len() as u16,
            reserved_v3: 0,
            fields: field_defs_vec,
            properties: prop_defs_vec,
        };
        self.storages.push(def);
        proof {
            assert(views(self.storages@) =~= views(before).push(def@));
            assert(self@ =~= old(self)@.with_storage(
                name@,
                scope_id,
                num_slots,
                flags,
                named(fields@),
                named_props(properties@),
            ));
        }
        id
    }

    /// Add an event type. Returns event_type_id.
    pub fn event(&mut self, name: &str, scope_id: u16, fields: &[(&str, FieldSpec)]) -> (id: u16)
        requires
            old(self)@.pool.fits_all(seq![name@] + field_names(named(fields@))),
        ensures
            id == old(self)@.events.len() as u16,
            final(self)@ == old(self)@.with_event(name@, scope_id, named(fields@)),
    {
        let id: u16 = self.events.len() as u16;
        proof {
            lemma_insert_first(self.strings@, name@, field_names(named(fields@)));
        }
        let name_off: u16 = self.strings.insert(name);
        proof {
            law_insert_all_keeps(self.strings@, field_names(named(fields@)));
        }
        let defs = define_fields(&mut self.strings, fields);
        let ghost before = self.events@;
        let def = EventDef {
            name: name_off,
            event_type_id: id,
            num_fields: defs.len() as u16,
            scope_id,
            fields: defs,
        };
        self.events.push(def);
        proof {
            assert(views(self.events@) =~= views(before).push(def@));
            assert(self@ =~= old(self)@.with_event(name@, scope_id, named(fields@)));
        }
        id
    }

    /// Add a summary field definition.
    pub fn summary_field(&mut self, name: &str, field_type: FieldSpec, scope_id: u16)
        requires
            old(self)@.pool.fits(name@),
        ensures
            final(self)@ == old(self)@.with_summary_field(name@, field_type, scope_id),
    {
        let name_off: u16 = self.strings.insert(name);
        self.summary_fields.push(
            SummaryFieldDef {
                name: name_off,
                field_type: field_type.field_type(),
                reserved: 0,
                scope_id,
                reserved2: 0,
            },
        );
        assert(self@ =~= old(self)@.with_summary_field(name@, field_type, scope_id));
    }

    /// Build the final Schema.
    pub fn build(self) -> (s: Schema)
        ensures
            s@ == self@.finished(),
    {
        let mut string_pool: Vec<u8> = Vec::new();
        put_slice(&mut string_pool, self.strings.data());
        assert(string_pool@ =~= self@.pool.data);
        Schema {
            clock_domains: self.clock_domains,
            scopes: self.scopes,
            enums: self.enums,
            storages: self.storages,
            events: self.events,
            summary_fields: self.summary_fields,
            string_pool,
        }
    }

    /// Access the string pool builder (for DUT property key/value insertion).
    pub fn strings_mut(&mut self) -> (r: &mut StringPoolBuilder)
        ensures
            r@ == old(self)@.pool,
            r@.wf(),
            final(self)@ == (Draft { pool: final(r)@, ..old(self)@ }),
    {
        let _size: usize = self.strings.len();
        &mut self.strings
    }
}

impl Default for SchemaBuilder {
    fn default() -> (b: SchemaBuilder)
        ensures
            b@ == Draft::empty(),
    {
        SchemaBuilder::new()
    }
}

/// Inserting one and then others is inserting them all.
pub proof fn lemma_insert_first(p: Pool, first: Seq<char>, rest: Seq<Seq<char>>)
    ensures
        p.insert_all(seq![first] + rest) == p.insert(first).insert_all(rest),
        p.fits_all(seq![first] + rest) == (p.fits(first) && p.insert(first).fits_all(rest)),
{
    let none = Seq::<Seq<char>>::empty();
    lemma_insert_all_push(p, none, first);
    assert(none.push(first) =~= seq![first]);
    lemma_insert_all_join(p, seq![first], rest);
}

/// Helper to build DUT descriptor using a shared string pool.
#[derive(Debug)]
pub struct DutDescBuilder {
    properties: Vec<(String, String)>,
}

/// The keys and values of some properties, in the order of insertion.
pub open spec fn property_texts(properties: Seq<(Seq<char>, Seq<char>)>) -> Seq<Seq<char>>
    decreases properties.len(),
{
    if properties.len() == 0 {
        Seq::empty()
    } else {
        property_texts(properties.drop_last()).push(properties.last().0).push(
            properties.last().1,
        )
    }
}

/// The properties as offsets into `pool`.
pub open spec fn dut_desc(pool: Pool, properties: Seq<(Seq<char>, Seq<char>)>) -> DutDescView {
    DutDescView {
        properties: properties.map_values(
            |p: (Seq<char>, Seq<char>)|
                DutProperty { key: pool.index[p.0], value: pool.index[p.1] },
        ),
    }
}

impl View for DutDescBuilder {
    type V = Seq<(Seq<char>, Seq<char>)>;

    closed spec fn view(&self) -> Seq<(Seq<char>, Seq<char>)> {
        self.properties@.map_values(|p: (String, String)| (p.0@, p.1@))
    }
}

/// Every key and value of some properties is among their texts.
pub proof fn lemma_property_texts(properties: Seq<(Seq<char>, Seq<char>)>, i: int)
    requires
        0 <= i < properties.len(),
    ensures
        property_texts(properties).contains(properties[i].0),
        property_texts(properties).contains(properties[i].1),
    decreases properties.len(),
{
    let init = properties.drop_last();
    let all = property_texts(properties);
    let n = property_texts(init).len() as int;
    assert(all.len() == n + 2);
    if i == properties.len() - 1 {
        assert(all[n] == properties[i].0);
        assert(all[n + 1] == properties[i].1);
    } else {
        lemma_property_texts(init, i);
        let a = property_texts(init).index_of(properties[i].0);
        let b = property_texts(init).index_of(properties[i].1);
        assert(init[i] == properties[i]);
        assert(all[a] == properties[i].0);
        assert(all[b] == properties[i].1);
    }
}

impl DutDescBuilder {
    /// No properties.
    pub fn new() -> (d: DutDescBuilder)
        ensures
            d@ == Seq::<(Seq<char>, Seq<char>)>::empty(),
    {
        let d = DutDescBuilder { properties: Vec::new() };
        assert(d@ =~= Seq::<(Seq<char>, Seq<char>)>::empty());
        d
    }

    /// Adds a property.
    pub fn property(&mut self, key: &str, value: &str) -> (r: &mut DutDescBuilder)
        ensures
            r@ == old(self)@.push((key@, value@)),
            *final(self) == *final(r),
    {
        let ghost before = self@;
        self.properties.push((key.to_owned(), value.to_owned()));
        assert(self@ =~= before.push((key@, value@)));
        self
    }

    /// All keys and values in their order.
    pub fn texts(&self) -> (r: Vec<String>)
        ensures
            texts_of(r@) == property_texts(self@),
    {
        let ghost all = self@;
        let mut r: Vec<String> = Vec::new();
        let mut i: usize = 0;
        assert(all.take(0) =~= Seq::<(Seq<char>, Seq<char>)>::empty());
        assert(texts_of(r@) =~= Seq::<Seq<char>>::empty());
        while i < self.properties.len()
            invariant
                i <= self.properties@.len(),
                all == self@,
                texts_of(r@) == property_texts(all.take(i as int)),
            decreases self.properties@.len() - i,
        {
            let ghost before = texts_of(r@);
            let key = self.properties[i].0.clone();
            let value = self.properties[i].1.clone();
            r.push(key);
            r.push(value);
            proof {
                assert(all.take(i + 1).drop_last() =~= all.take(i as int));
                assert(all.take(i + 1).last() == (key@, value@));
                assert(texts_of(r@) =~= before.push(key@).push(value@));
            }
            i = i + 1;
        }
        assert(all.take(i as int) =~= all);
        r
    }

    /// Serialize using the given string pool (shared with SchemaBuilder).
    pub fn build(&self, strings: &mut StringPoolBuilder) -> (d: DutDesc)
        requires
            old(strings)@.wf(),
            old(strings)@.fits_all(property_texts(self@)),
        ensures
            final(strings)@ == old(strings)@.insert_all(property_texts(self@)),
            final(strings)@.wf(),
            d@ == dut_desc(final(strings)@, self@),
    {
        let ghost p = strings@;
        let ghost all = self@;
        let mut properties: Vec<DutProperty> = Vec::new();
        let mut i: usize = 0;
        assert(all.take(0) =~= Seq::<(Seq<char>, Seq<char>)>::empty());
        assert(properties@ =~= dut_desc(p, all.take(0)).properties);
        assert(property_texts(all.take(0)) =~= Seq::<Seq<char>>::empty());
        while i < self.properties.len()
            invariant
                i <= self.properties@.len(),
                all == self@,
                p.wf(),
                p.fits_all(property_texts(all)),
                strings@ == p.insert_all(property_texts(all.take(i as int))),
                strings@.wf(),
                properties@ == dut_desc(strings@, all.take(i as int)).properties,
            decreases self.properties@.len() - i,
        {
            let ghost done = property_texts(all.take(i as int));
            let ghost before = strings@;
            let ghost key = all[i as int].0;
            let ghost value = all[i as int].1;
            proof {
                lemma_property_texts_prefix(p, all, i + 1);
                assert(all.take(i + 1).drop_last() =~= all.take(i as int));
                assert(all.take(i + 1).last() == all[i as int]);
                lemma_insert_all_push(p, done, key);
                lemma_insert_all_push(p, done.push(key), value);
                law_insert_all_keeps(p, done);
                law_insert_keeps(before, key);
                law_insert_keeps(before.insert(key), value);
            }
            let k: u16 = strings.insert(self.properties[i].0.as_str());
            let v: u16 = strings.insert(self.properties[i].1.as_str());
            let ghost prev = properties@;
            properties.push(DutProperty { key: k, value: v });
            i = i + 1;
            proof {
                let want = dut_desc(strings@, all.take(i as int)).properties;
                assert forall|j: int| 0 <= j < i implies properties@[j] == want[j] by {
                    if j < i - 1 {
                        let part = all.take(i - 1);
                        assert(prev[j] == dut_desc(before, part).properties[j]);
                        lemma_property_texts(part, j);
                        let a = done.index_of(part[j].0);
                        let b = done.index_of(part[j].1);
                        assert(done[a] == part[j].0);
                        assert(done[b] == part[j].1);
                        assert(before.index.contains_key(done[a]));
                        assert(before.index.contains_key(done[b]));
                    }
                }
                assert(properties@ =~= want);
            }
        }
        assert(all.take(i as int) =~= all);
        DutDesc { properties }
    }
}

/// Where all properties fit, the first of them do.
proof fn lemma_property_texts_prefix(p: Pool, all: Seq<(Seq<char>, Seq<char>)>, n: int)
    requires
        0 <= n <= all.len(),
        p.fits_all(property_texts(all)),
    ensures
        p.fits_all(property_texts(all.take(n))),
    decreases all.len() - n,
{
    if n == all.len() {
        assert(all.take(n) =~= all);
    } else {
        lemma_property_texts_prefix(p, all, n + 1);
        let next = all.take(n + 1);
        assert(next.drop_last() =~= all.take(n));
        let t = property_texts(all.take(n));
        lemma_insert_all_push(p, t.push(next.last().0), next.last().1);
        lemma_insert_all_push(p, t, next.last().0);
    }
}

impl Default for DutDescBuilder {
    fn default() -> (d: DutDescBuilder)
        ensures
            d@ == Seq::<(Seq<char>, Seq<char>)>::empty(),
    {
        DutDescBuilder::new()
    }
}

// ---------------------------------------------------------------------------
// Fields by name.

/// The first field with the given name, counting from `from`.
pub open spec fn field_from(
    schema: SchemaView,
    fields: Seq<FieldDef>,
    name: Seq<char>,
    from: int,
) -> Option<int>
    decreases fields.len() - from,
{
    if from >= fields.len() {
        None
    } else if schema.string(fields[from].name) == Some(name) {
        Some(from)
    } else {
        field_from(schema, fields, name, from + 1)
    }
}

/// The first field with the given name.
pub open spec fn field_named(
    schema: SchemaView,
    fields: Seq<FieldDef>,
    name: Seq<char>,
) -> Option<int> {
    field_from(schema, fields, name, 0)
}

/// The field that is found has the name, and none before it has.
pub proof fn law_field_from(schema: SchemaView, fields: Seq<FieldDef>, name: Seq<char>, from: int)
    requires
        0 <= from <= fields.len(),
    ensures
        match field_from(schema, fields, name, from) {
            Some(i) => {
                &&& from <= i < fields.len()
                &&& schema.string(fields[i].name) == Some(name)
                &&& forall|j: int|
                    from <= j < i ==> schema.string((#[trigger] fields[j]).name) != Some(name)
            },
            None => forall|j: int|
                from <= j < fields.len() ==> schema.string((#[trigger] fields[j]).name) != Some(
                    name,
                ),
        },
    decreases fields.len() - from,
{
    if from < fields.len() && schema.string(fields[from].name) != Some(name) {
        law_field_from(schema, fields, name, from + 1);
    }
}

/// Finds the first field with the given name.
pub fn find_field(schema: &Schema, fields: &Vec<FieldDef>, name: &str) -> (r: Option<usize>)
    ensures
        match field_named(schema@, fields@, name@) {
            Some(i) => r is Some && r->Some_0 == i && 0 <= i < fields@.len(),
            None => r is None,
        },
{
    let mut i: usize = 0;
    while i < fields.len()
        invariant
            i <= fields@.len(),
            field_named(schema@, fields@, name@) == field_from(
                schema@,
                fields@,
                name@,
                i as int,
            ),
        decreases fields@.len() - i,
    {
        match schema.get_string(fields[i].name) {
            Some(s) => {
                if str_eq(s, name) {
                    return Some(i);
                }
            },
            None => {},
        }
        i = i + 1;
    }
    None
}

} // verus!
