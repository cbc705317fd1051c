//! Finding the CPU protocol in the schema of a trace.

use vstd::prelude::*;
use vstd::string::StringExecFns;
use crate::bytes::{suffix, ByteReader};
use crate::chars::{char_seqs, chars_of, parts, split, trim_text, trimmed};
use crate::cpu::types::{
    typed_texts, BufferInfo, BufferInfoView, BufferPropertyDef, BufferPropertyDefView, SegmentIndex,
};
use crate::error::TraceError;
use crate::numerals::{decimal, join, joined, texts_of, to_decimal};
use crate::reader::{pair_texts, Reader, ReaderView};
use crate::schema::{field_named, find_field, Schema, SchemaView};
use crate::segment::{
    chain, chain_entries, index_chain, read_segment_table, segment_table, walk_chain,
};
use crate::summarize::{counter_views, counters_of, find_counters, storage_name};
use crate::text::str_eq;
use crate::types::{
    FieldDef, FileHeader, ScopeDef, SectionEntry, SegmentIndexEntry, StorageDef, StorageDefView,
    F_COMPACT_DELTAS, F_COMPLETE, F_COMPRESSED, F_INTERLEAVED_DELTAS, SECTION_END, SECTION_SEGMENTS,
};
use crate::wire::Wire;

verus! {

broadcast use crate::bytes::group_le_len;

/// Resolved CPU protocol IDs from the schema.
#[derive(Debug)]
pub struct CpuProtocolIds {
    pub period_ps: u64,
    pub entities_storage_id: u16,
    pub field_entity_id: u16,
    pub field_pc: u16,
    pub field_inst_bits: Option<u16>,
    pub field_rbid: Option<u16>,
    pub field_iq_id: Option<u16>,
    pub field_dq_id: Option<u16>,
    pub field_ready_time_ps: Option<u16>,
    pub stage_transition_event_id: u16,
    pub annotate_event_id: u16,
    pub dependency_event_id: u16,
    pub flush_event_id: u16,
    pub stage_names: Vec<String>,
}

/// What a `CpuProtocolIds` holds.
#[verifier::ext_equal]
pub struct ProtocolView {
    pub period_ps: u64,
    pub entities_storage_id: u16,
    pub field_entity_id: u16,
    pub field_pc: u16,
    pub field_inst_bits: Option<u16>,
    pub field_rbid: Option<u16>,
    pub field_iq_id: Option<u16>,
    pub field_dq_id: Option<u16>,
    pub field_ready_time_ps: Option<u16>,
    pub stage_transition_event_id: u16,
    pub annotate_event_id: u16,
    pub dependency_event_id: u16,
    pub flush_event_id: u16,
    pub stage_names: Seq<Seq<char>>,
}

impl View for CpuProtocolIds {
    type V = ProtocolView;

    open spec fn view(&self) -> ProtocolView {
        ProtocolView {
            period_ps: self.period_ps,
            entities_storage_id: self.entities_storage_id,
            field_entity_id: self.field_entity_id,
            field_pc: self.field_pc,
            field_inst_bits: self.field_inst_bits,
            field_rbid: self.field_rbid,
            field_iq_id: self.field_iq_id,
            field_dq_id: self.field_dq_id,
            field_ready_time_ps: self.field_ready_time_ps,
            stage_transition_event_id: self.stage_transition_event_id,
            annotate_event_id: self.annotate_event_id,
            dependency_event_id: self.dependency_event_id,
            flush_event_id: self.flush_event_id,
            stage_names: texts_of(self.stage_names@),
        }
    }
}

// ---------------------------------------------------------------------------
// What a schema has.

/// The first scope from `i` on that follows the CPU protocol.
pub open spec fn cpu_scope_from(schema: SchemaView, i: int) -> Option<ScopeDef>
    decreases schema.scopes.len() - i,
{
    if i >= schema.scopes.len() {
        None
    } else if schema.string(schema.scopes[i].protocol) == Some("cpu"@) {
        Some(schema.scopes[i])
    } else {
        cpu_scope_from(schema, i + 1)
    }
}

/// The first storage from `i` on with the given name in a scope.
pub open spec fn storage_from(schema: SchemaView, scope_id: u16, name: Seq<char>, i: int) -> Option<
    StorageDefView,
>
    decreases schema.storages.len() - i,
{
    if i >= schema.storages.len() {
        None
    } else if schema.storages[i].scope_id == scope_id && schema.string(schema.storages[i].name)
        == Some(name) {
        Some(schema.storages[i])
    } else {
        storage_from(schema, scope_id, name, i + 1)
    }
}

/// The number of the first kind of event from `i` on with the given name in a
/// scope.
pub open spec fn event_from(schema: SchemaView, scope_id: u16, name: Seq<char>, i: int) -> Option<
    u16,
>
    decreases schema.events.len() - i,
{
    if i >= schema.events.len() {
        None
    } else if schema.events[i].scope_id == scope_id && schema.string(schema.events[i].name) == Some(
        name,
    ) {
        Some(schema.events[i].event_type_id)
    } else {
        event_from(schema, scope_id, name, i + 1)
    }
}

/// The period of a clock, 1 ns where the clock is not defined.
pub open spec fn period_of(schema: SchemaView, clock_id: u8) -> u64 {
    if clock_id < schema.clock_domains.len() {
        schema.clock_domains[clock_id as int].period_ps as u64
    } else {
        1000
    }
}

/// The number of a field of a storage.
pub open spec fn field_number(schema: SchemaView, s: StorageDefView, name: Seq<char>) -> Option<
    u16,
> {
    match field_named(schema, s.fields, name) {
        Some(i) => Some(i as u16),
        None => None,
    }
}

/// The names of pipeline stages as a property has them.
pub open spec fn listed_stages(text: Seq<char>) -> Seq<Seq<char>> {
    parts(text, ',').map_values(|p: Seq<char>| trimmed(p))
}

/// The values of the first enumeration from `i` on with the given name.
pub open spec fn enum_from(schema: SchemaView, name: Seq<char>, i: int) -> Option<Seq<Seq<char>>>
    decreases schema.enums.len() - i,
{
    if i >= schema.enums.len() {
        None
    } else if schema.string(schema.enums[i].name) == Some(name) {
        Some(
            Seq::new(
                schema.enums[i].values.len(),
                |k: int| text_or_unknown(schema, schema.enums[i].values[k].name),
            ),
        )
    } else {
        enum_from(schema, name, i + 1)
    }
}

/// A text of the string pool, "?" where there is none.
pub open spec fn text_or_unknown(schema: SchemaView, offset: u16) -> Seq<char> {
    match schema.string(offset) {
        Some(s) => s,
        None => "?"@,
    }
}

/// The names of the pipeline stages: those of the property
/// "cpu.pipeline_stages", else those of the enumeration "pipeline_stage".
pub open spec fn stages_of(v: ReaderView) -> Result<Seq<Seq<char>>, TraceError> {
    match v.property("cpu.pipeline_stages"@) {
        Some(text) => Ok(listed_stages(text)),
        None => match enum_from(v.schema, "pipeline_stage"@, 0) {
            None => Err(TraceError::NoPipelineStageEnum),
            Some(names) => if names.len() == 0 {
                Ok(seq!["unknown"@])
            } else {
                Ok(names)
            },
        },
    }
}

/// The CPU protocol of a trace.
pub open spec fn protocol_of(v: ReaderView) -> Result<ProtocolView, TraceError> {
    let schema = v.schema;
    match cpu_scope_from(schema, 0) {
        None => Err(TraceError::NoCpuScope),
        Some(scope) => match storage_from(schema, scope.scope_id, "entities"@, 0) {
            None => Err(TraceError::NoEntitiesStorage),
            Some(entities) => protocol_in(v, scope, entities),
        },
    }
}

/// The CPU protocol of a trace whose CPU scope and entities are known.
pub open spec fn protocol_in(v: ReaderView, scope: ScopeDef, entities: StorageDefView) -> Result<
    ProtocolView,
    TraceError,
> {
    let schema = v.schema;
    let id = scope.scope_id;
    if field_number(schema, entities, "entity_id"@) is None {
        Err(TraceError::NoEntityIdField)
    } else if field_number(schema, entities, "pc"@) is None {
        Err(TraceError::NoPcField)
    } else if event_from(schema, id, "stage_transition"@, 0) is None {
        Err(TraceError::NoStageTransitionEvent)
    } else if event_from(schema, id, "annotate"@, 0) is None {
        Err(TraceError::NoAnnotateEvent)
    } else if event_from(schema, id, "dependency"@, 0) is None {
        Err(TraceError::NoDependencyEvent)
    } else if event_from(schema, id, "flush"@, 0) is None {
        Err(TraceError::NoFlushEvent)
    } else {
        match stages_of(v) {
            Err(e) => Err(e),
            Ok(stage_names) => Ok(
                ProtocolView {
                    period_ps: period_of(schema, scope.clock_id),
                    entities_storage_id: entities.storage_id,
                    field_entity_id: field_number(schema, entities, "entity_id"@)->Some_0,
                    field_pc: field_number(schema, entities, "pc"@)->Some_0,
                    field_inst_bits: field_number(schema, entities, "inst_bits"@),
                    field_rbid: field_number(schema, entities, "rbid"@),
                    field_iq_id: field_number(schema, entities, "iq_id"@),
                    field_dq_id: field_number(schema, entities, "dq_id"@),
                    field_ready_time_ps: field_number(schema, entities, "ready_time_ps"@),
                    stage_transition_event_id: event_from(
                        schema,
                        id,
                        "stage_transition"@,
                        0,
                    )->Some_0,
                    annotate_event_id: event_from(schema, id, "annotate"@, 0)->Some_0,
                    dependency_event_id: event_from(schema, id, "dependency"@, 0)->Some_0,
                    flush_event_id: event_from(schema, id, "flush"@, 0)->Some_0,
                    stage_names,
                },
            ),
        }
    }
}

/// Whether the text at an offset is the given one.
fn has_text(schema: &Schema, offset: u16, text: &str) -> (b: bool)
    ensures
        b == (schema@.string(offset) == Some(text@)),
{
    match schema.get_string(offset) {
        Some(s) => str_eq(s, text),
        None => false,
    }
}

/// The text at an offset, "?" where there is none.
pub fn known_text(schema: &Schema, offset: u16) -> (s: String)
    ensures
        s@ == text_or_unknown(schema@, offset),
{
    match schema.get_string(offset) {
        Some(s) => s.to_owned(),
        None => "?".to_owned(),
    }
}

fn find_cpu_scope(schema: &Schema) -> (r: Option<ScopeDef>)
    ensures
        r == cpu_scope_from(schema@, 0),
{
    let mut i: usize = 0;
    while i < schema.scopes.len()
        invariant
            i <= schema.scopes@.len(),
            cpu_scope_from(schema@, 0) == cpu_scope_from(schema@, i as int),
        decreases schema.scopes@.len() - i,
    {
        if has_text(schema, schema.scopes[i].protocol, "cpu") {
            return Some(schema.scopes[i]);
        }
        i = i + 1;
    }
    None
}

fn find_storage(schema: &Schema, scope_id: u16, name: &str) -> (r: Option<usize>)
    ensures
        match storage_from(schema@, scope_id, name@, 0) {
            Some(s) => {
                &&& r is Some
                &&& r->Some_0 < schema.storages@.len()
                &&& schema.storages@[r->Some_0 as int]@ == s
            },
            None => r is None,
        },
{
    let mut i: usize = 0;
    while i < schema.storages.len()
        invariant
            i <= schema.storages@.len(),
            schema@.storages.len() == schema.storages@.len(),
            storage_from(schema@, scope_id, name@, 0) == storage_from(
                schema@,
                scope_id,
                name@,
                i as int,
            ),
        decreases schema.storages@.len() - i,
    {
        let s = &schema.storages[i];
        assert(schema@.storages[i as int] == s@);
        if s.scope_id == scope_id && has_text(schema, s.name, name) {
            return Some(i);
        }
        i = i + 1;
    }
    None
}

fn find_event(schema: &Schema, scope_id: u16, name: &str) -> (r: Option<u16>)
    ensures
        r == event_from(schema@, scope_id, name@, 0),
{
    let mut i: usize = 0;
    while i < schema.events.len()
        invariant
            i <= schema.events@.len(),
            schema@.events.len() == schema.events@.len(),
            event_from(schema@, scope_id, name@, 0) == event_from(
                schema@,
                scope_id,
                name@,
                i as int,
            ),
        decreases schema.events@.len() - i,
    {
        let e = &schema.events[i];
        assert(schema@.events[i as int] == e@);
        if e.scope_id == scope_id && has_text(schema, e.name, name) {
            return Some(e.event_type_id);
        }
        i = i + 1;
    }
    None
}

/// Find the index of a field by name within a storage definition.
pub fn find_field_index(schema: &Schema, storage: &StorageDef, name: &str) -> (r: Result<
    u16,
    TraceError,
>)
    ensures
        r == match field_number(schema@, storage@, name@) {
            Some(i) => Ok::<u16, TraceError>(i),
            None => Err::<u16, TraceError>(TraceError::FieldNotFound),
        },
{
    match find_field(schema, &storage.fields, name) {
        Some(i) => Ok(#[verifier::truncate] (i as u16)),
        None => Err(TraceError::FieldNotFound),
    }
}

fn optional_field(schema: &Schema, storage: &StorageDef, name: &str) -> (r: Option<u16>)
    ensures
        r == field_number(schema@, storage@, name@),
{
    match find_field_index(schema, storage, name) {
        Ok(i) => Some(i),
        Err(_) => None,
    }
}

/// Splits a list of stages.
fn list_stages(text: &str) -> (names: Vec<String>)
    ensures
        texts_of(names@) == listed_stages(text@),
{
    let v = chars_of(text);
    let pieces = split(&v, ',');
    let ghost want = listed_stages(text@);
    let mut names: Vec<String> = Vec::new();
    let mut i: usize = 0;
    while i < pieces.len()
        invariant
            i <= pieces@.len(),
            char_seqs(pieces@) == parts(text@, ','),
            want == listed_stages(text@),
            texts_of(names@) == want.take(i as int),
        decreases pieces@.len() - i,
    {
        let name = trim_text(&pieces[i]);
        let ghost before = texts_of(names@);
        names.push(name);
        assert(char_seqs(pieces@)[i as int] == pieces@[i as int]@);
        assert(texts_of(names@) =~= before.push(name@));
        i = i + 1;
        assert(texts_of(names@) =~= want.take(i as int));
    }
    assert(pieces@.len() == want.len());
    assert(want.take(i as int) =~= want);
    names
}

/// The names of the values of an enumeration.
fn enum_names(schema: &Schema, k: usize) -> (names: Vec<String>)
    requires
        k < schema.enums@.len(),
    ensures
        texts_of(names@) == Seq::new(
            schema@.enums[k as int].values.len(),
            |j: int| text_or_unknown(schema@, schema@.enums[k as int].values[j].name),
        ),
{
    let e = &schema.enums[k];
    assert(schema@.enums[k as int] == e@);
    let ghost want = Seq::new(
        e@.values.len(),
        |j: int| text_or_unknown(schema@, e@.values[j].name),
    );
    let mut names: Vec<String> = Vec::new();
    let mut i: usize = 0;
    while i < e.values.len()
        invariant
            i <= e.values@.len(),
            e@.values == e.values@,
            want == Seq::new(
                e@.values.len(),
                |j: int| text_or_unknown(schema@, e@.values[j].name),
            ),
            texts_of(names@) == want.take(i as int),
        decreases e.values@.len() - i,
    {
        let name = known_text(schema, e.values[i].name);
        let ghost before = texts_of(names@);
        names.push(name);
        assert(texts_of(names@) =~= before.push(name@));
        i = i + 1;
        assert(texts_of(names@) =~= want.take(i as int));
    }
    assert(want.take(i as int) =~= want);
    names
}

/// Read pipeline stage names from the DUT property or enum.
pub fn read_stage_names(reader: &Reader) -> (r: Result<Vec<String>, TraceError>)
    ensures
        match stages_of(reader@) {
            Ok(names) => r is Ok && texts_of(r->Ok_0@) == names,
            Err(e) => r == Err::<Vec<String>, TraceError>(e),
        },
{
    // Try DUT property first (canonical ordering).
    match reader.dut_property("cpu.pipeline_stages") {
        Some(text) => {
            return Ok(list_stages(text));
        },
        None => {},
    }
    // Fallback: read from enum.
    let schema = reader.schema();
    let mut i: usize = 0;
    while i < schema.enums.len()
        invariant
            i <= schema.enums@.len(),
            schema@ == reader@.schema,
            schema@.enums.len() == schema.enums@.len(),
            reader@.property("cpu.pipeline_stages"@) is None,
            enum_from(schema@, "pipeline_stage"@, 0) == enum_from(
                schema@,
                "pipeline_stage"@,
                i as int,
            ),
        decreases schema.enums@.len() - i,
    {
        assert(schema@.enums[i as int] == schema.enums@[i as int]@);
        if has_text(schema, schema.enums[i].name, "pipeline_stage") {
            let mut names = enum_names(schema, i);
            if names.len() == 0 {
                names.push("unknown".to_owned());
                assert(texts_of(names@) =~= seq!["unknown"@]);
            }
            return Ok(names);
        }
        i = i + 1;
    }
    Err(TraceError::NoPipelineStageEnum)
}

/// Resolve CPU protocol field/event IDs from the schema of a trace.
pub fn resolve_cpu_protocol(reader: &Reader) -> (r: Result<CpuProtocolIds, TraceError>)
    ensures
        match protocol_of(reader@) {
            Ok(p) => r is Ok && r->Ok_0@ == p,
            Err(e) => r == Err::<CpuProtocolIds, TraceError>(e),
        },
{
    let schema = reader.schema();
    let scope: ScopeDef = match find_cpu_scope(schema) {
        Some(s) => s,
        None => return Err(TraceError::NoCpuScope),
    };
    let period_ps: u64 = if (scope.clock_id as usize) < schema.clock_domains.len() {
        schema.clock_domains[scope.clock_id as usize].period_ps as u64
    } else {
        1000
    };
    let id: u16 = scope.scope_id;
    let entities = match find_storage(schema, id, "entities") {
        Some(i) => &schema.storages[i],
        None => return Err(TraceError::NoEntitiesStorage),
    };
    let field_entity_id: u16 = match optional_field(schema, entities, "entity_id") {
        Some(f) => f,
        None => return Err(TraceError::NoEntityIdField),
    };
    let field_pc: u16 = match optional_field(schema, entities, "pc") {
        Some(f) => f,
        None => return Err(TraceError::NoPcField),
    };
    let stage_transition_event_id: u16 = match find_event(schema, id, "stage_transition") {
        Some(e) => e,
        None => return Err(TraceError::NoStageTransitionEvent),
    };
    let annotate_event_id: u16 = match find_event(schema, id, "annotate") {
        Some(e) => e,
        None => return Err(TraceError::NoAnnotateEvent),
    };
    let dependency_event_id: u16 = match find_event(schema, id, "dependency") {
        Some(e) => e,
        None => return Err(TraceError::NoDependencyEvent),
    };
    let flush_event_id: u16 = match find_event(schema, id, "flush") {
        Some(e) => e,
        None => return Err(TraceError::NoFlushEvent),
    };
    let stage_names = match read_stage_names(reader) {
        Err(e) => return Err(e),
        Ok(names) => names,
    };
    Ok(
        CpuProtocolIds {
            period_ps,
            entities_storage_id: entities.storage_id,
            field_entity_id,
            field_pc,
            field_inst_bits: optional_field(schema, entities, "inst_bits"),
            field_rbid: optional_field(schema, entities, "rbid"),
            field_iq_id: optional_field(schema, entities, "iq_id"),
            field_dq_id: optional_field(schema, entities, "dq_id"),
            field_ready_time_ps: optional_field(schema, entities, "ready_time_ps"),
            stage_transition_event_id,
            annotate_event_id,
            dependency_event_id,
            flush_event_id,
            stage_names,
        },
    )
}

// ---------------------------------------------------------------------------
// Counters and buffers.

/// Detect counter storages: 1-slot, dense, not buffer, single U64 field.
pub fn detect_counter_storages(reader: &Reader) -> (counters: Vec<(u16, String)>)
    ensures
        counter_views(counters@) == counters_of(
            reader@.schema,
            reader@.schema.storages.len() as int,
        ),
{
    find_counters(reader.schema())
}

/// The names and types of some fields.
pub open spec fn field_types(schema: SchemaView, fields: Seq<FieldDef>) -> Seq<(Seq<char>, u8)> {
    fields.map_values(|f: FieldDef| (text_or_unknown(schema, f.name), f.field_type))
}

/// Those of the first `n` properties that have a name.
pub open spec fn named_properties(schema: SchemaView, fields: Seq<FieldDef>, n: int) -> Seq<
    BufferPropertyDefView,
>
    decreases n,
{
    if n <= 0 {
        Seq::empty()
    } else {
        let before = named_properties(schema, fields, n - 1);
        let f = fields[n - 1];
        match schema.string(f.name) {
            Some(name) => before.push(
                BufferPropertyDefView {
                    name,
                    field_type: f.field_type,
                    role: f.role,
                    pair_id: f.pair_id,
                },
            ),
            None => before,
        }
    }
}

/// What is known of a buffer.
pub open spec fn buffer_of(schema: SchemaView, s: StorageDefView) -> BufferInfoView {
    BufferInfoView {
        name: storage_name(schema, s),
        storage_id: s.storage_id,
        capacity: s.num_slots,
        fields: field_types(schema, s.fields),
        properties: named_properties(schema, s.properties, s.properties.len() as int),
    }
}

/// The buffers among the first `n` storages.
pub open spec fn buffers_of(schema: SchemaView, n: int) -> Seq<BufferInfoView>
    decreases n,
{
    if n <= 0 {
        Seq::empty()
    } else {
        let before = buffers_of(schema, n - 1);
        let s = schema.storages[n - 1];
        if s.buffer() {
            before.push(buffer_of(schema, s))
        } else {
            before
        }
    }
}

/// The views of some buffers.
pub open spec fn info_views(buffers: Seq<BufferInfo>) -> Seq<BufferInfoView> {
    buffers.map_values(|b: BufferInfo| b@)
}

/// The views of some properties.
pub open spec fn property_views(ps: Seq<BufferPropertyDef>) -> Seq<BufferPropertyDefView> {
    ps.map_values(|p: BufferPropertyDef| p@)
}

fn list_fields(schema: &Schema, fields: &Vec<FieldDef>) -> (r: Vec<(String, u8)>)
    ensures
        typed_texts(r@) == field_types(schema@, fields@),
{
    let mut r: Vec<(String, u8)> = Vec::new();
    let ghost want = field_types(schema@, fields@);
    let mut i: usize = 0;
    while i < fields.len()
        invariant
            i <= fields@.len(),
            want == field_types(schema@, fields@),
            typed_texts(r@) == want.take(i as int),
        decreases fields@.len() - i,
    {
        let name = known_text(schema, fields[i].name);
        let ghost before = typed_texts(r@);
        r.push((name, fields[i].field_type));
        assert(typed_texts(r@) =~= before.push((name@, fields@[i as int].field_type)));
        i = i + 1;
        assert(typed_texts(r@) =~= want.take(i as int));
    }
    assert(want.take(i as int) =~= want);
    r
}

fn list_properties(schema: &Schema, fields: &Vec<FieldDef>) -> (r: Vec<BufferPropertyDef>)
    ensures
        property_views(r@) == named_properties(schema@, fields@, fields@.len() as int),
{
    let mut r: Vec<BufferPropertyDef> = Vec::new();
    let mut i: usize = 0;
    assert(property_views(r@) =~= named_properties(schema@, fields@, 0));
    while i < fields.len()
        invariant
            i <= fields@.len(),
            property_views(r@) == named_properties(schema@, fields@, i as int),
        decreases fields@.len() - i,
    {
        let f = fields[i];
        match schema.get_string(f.name) {
            Some(name) => {
                let ghost before = property_views(r@);
                let p = BufferPropertyDef {
                    name: name.to_owned(),
                    field_type: f.field_type,
                    role: f.role,
                    pair_id: f.pair_id,
                };
                r.push(p);
                assert(property_views(r@) =~= before.push(p@));
            },
            None => {},
        }
        i = i + 1;
    }
    r
}

/// Detect buffer storages: have SF_BUFFER flag.
pub fn detect_buffer_infos(reader: &Reader) -> (buffers: Vec<BufferInfo>)
    ensures
        info_views(buffers@) == buffers_of(
            reader@.schema,
            reader@.schema.storages.len() as int,
        ),
{
    let schema = reader.schema();
    let mut buffers: Vec<BufferInfo> = Vec::new();
    let mut i: usize = 0;
    assert(info_views(buffers@) =~= buffers_of(schema@, 0));
    while i < schema.storages.len()
        invariant
            i <= schema.storages@.len(),
            schema@.storages.len() == schema.storages@.len(),
            info_views(buffers@) == buffers_of(schema@, i as int),
        decreases schema.storages@.len() - i,
    {
        let s = &schema.storages[i];
        assert(schema@.storages[i as int] == s@);
        if s.is_buffer() {
            let info = BufferInfo {
                name: known_text(schema, s.name),
                storage_id: s.storage_id,
                capacity: s.num_slots,
                fields: list_fields(schema, &s.fields),
                properties: list_properties(schema, &s.properties),
            };
            assert(info@ =~= buffer_of(schema@, s@));
            let ghost before = info_views(buffers@);
            buffers.push(info);
            assert(info_views(buffers@) =~= before.push(info@));
        }
        i = i + 1;
    }
    buffers
}

// ---------------------------------------------------------------------------
// Metadata.

/// Which forms of coding a trace uses.
pub open spec fn flag_names(flags: u64) -> Seq<Seq<char>> {
    (if flags & F_COMPRESSED != 0 {
        seq!["compressed"@]
    } else {
        Seq::empty()
    }) + (if flags & F_INTERLEAVED_DELTAS != 0 {
        seq!["interleaved"@]
    } else {
        Seq::empty()
    }) + (if flags & F_COMPACT_DELTAS != 0 && flags & F_INTERLEAVED_DELTAS == 0 {
        seq!["compact-deltas"@]
    } else {
        Seq::empty()
    })
}

/// The quotient of two numbers rounded to the nearest, halves to even.
pub open spec fn rounded(a: nat, b: nat) -> nat {
    let q = a / b;
    let r = a % b;
    if 2 * r > b || (2 * r == b && q % 2 == 1) {
        q + 1
    } else {
        q
    }
}

/// The frequency of a clock in MHz, as text.
pub open spec fn mhz_text(period_ps: u32) -> Seq<char> {
    if period_ps == 0 {
        "inf"@
    } else {
        decimal(rounded(1_000_000, period_ps as nat))
    }
}

/// How many strings there are, as far as an index reaches.
pub open spec fn string_count(strings: Seq<Seq<char>>) -> nat {
    if strings.len() <= u32::MAX {
        strings.len()
    } else {
        u32::MAX as nat
    }
}

/// The entries before the properties of the design.
pub open spec fn file_metadata(v: ReaderView, file_name: Seq<char>) -> Seq<
    (Seq<char>, Seq<char>),
> {
    seq![
        ("File"@, file_name),
        (
            "Format"@,
            "uScope v"@ + decimal(v.header.version_major as nat) + "."@ + decimal(
                v.header.version_minor as nat,
            ),
        ),
    ] + (if flag_names(v.header.flags).len() == 0 {
        Seq::empty()
    } else {
        seq![("Flags"@, joined(flag_names(v.header.flags), ", "@))]
    })
}

/// The entry for the clock.
pub open spec fn clock_metadata(schema: SchemaView) -> Seq<(Seq<char>, Seq<char>)> {
    if schema.clock_domains.len() == 0 {
        Seq::empty()
    } else {
        let cd = schema.clock_domains[0];
        seq![
            (
                "Clock"@,
                text_or_unknown(schema, cd.name) + " ("@ + decimal(cd.period_ps as nat) + " ps, "@
                    + mhz_text(cd.period_ps) + " MHz)"@,
            ),
        ]
    }
}

/// The entries behind the clock.
pub open spec fn trace_metadata(v: ReaderView, ids: ProtocolView, total_us: Seq<char>) -> Seq<
    (Seq<char>, Seq<char>),
> {
    seq![
        ("Pipeline"@, joined(ids.stage_names, " -> "@)),
        (
            "Duration"@,
            decimal((v.header.total_time_ps / ids.period_ps) as nat) + " cycles ("@ + total_us
                + " us)"@,
        ),
        ("Segments"@, decimal(v.header.num_segments as nat)),
        (
            "Schema"@,
            decimal(v.schema.storages.len()) + " storages, "@ + decimal(v.schema.events.len())
                + " events, "@ + decimal(v.schema.enums.len()) + " enums"@,
        ),
    ] + (match v.strings {
        Some(strings) => seq![("Strings"@, decimal(string_count(strings)) + " entries"@)],
        None => Seq::empty(),
    })
}

/// The metadata of a trace.
pub open spec fn metadata_of(
    v: ReaderView,
    file_name: Seq<char>,
    ids: ProtocolView,
    total_us: Seq<char>,
) -> Seq<(Seq<char>, Seq<char>)> {
    file_metadata(v, file_name) + v.properties() + clock_metadata(v.schema) + trace_metadata(
        v,
        ids,
        total_us,
    )
}

/// The texts of some pairs.
pub open spec fn text_pairs(pairs: Seq<(String, String)>) -> Seq<(Seq<char>, Seq<char>)> {
    pairs.map_values(|p: (String, String)| (p.0@, p.1@))
}

/// Adds an entry.
fn put_entry(metadata: &mut Vec<(String, String)>, key: &str, value: String)
    ensures
        text_pairs(final(metadata)@) == text_pairs(old(metadata)@).push((key@, value@)),
{
    metadata.push((key.to_owned(), value));
    assert(text_pairs(metadata@) =~= text_pairs(old(metadata)@).push((key@, value@)));
}

fn round_quotient(a: u64, b: u64) -> (q: u64)
    requires
        0 < b <= u32::MAX,
        a <= u32::MAX,
    ensures
        q == rounded(a as nat, b as nat),
{
    let q: u64 = a / b;
    let r: u64 = a % b;
    assert(q <= a) by (nonlinear_arith)
        requires
            q == a / b,
            b > 0,
    ;
    if 2 * r > b || (2 * r == b && q % 2 == 1) {
        q + 1
    } else {
        q
    }
}

fn put_file(metadata: &mut Vec<(String, String)>, header: &FileHeader, file_name: &str, Ghost(
    v,
): Ghost<ReaderView>)
    requires
        old(metadata)@.len() == 0,
        *header == v.header,
    ensures
        text_pairs(final(metadata)@) == file_metadata(v, file_name@),
{
    put_entry(metadata, "File", file_name.to_owned());
    let mut format: String = "uScope v".to_owned();
    format.append(to_decimal(header.version_major as u64).as_str());
    format.append(".");
    format.append(to_decimal(header.version_minor as u64).as_str());
    put_entry(metadata, "Format", format);
    let mut flags: Vec<String> = Vec::new();
    if header.flags & F_COMPRESSED != 0 {
        flags.push("compressed".to_owned());
    }
    if header.flags & F_INTERLEAVED_DELTAS != 0 {
        flags.push("interleaved".to_owned());
    }
    if header.flags & F_COMPACT_DELTAS != 0 && header.flags & F_INTERLEAVED_DELTAS == 0 {
        flags.push("compact-deltas".to_owned());
    }
    assert(texts_of(flags@) =~= flag_names(header.flags));
    if flags.len() != 0 {
        put_entry(metadata, "Flags", join(&flags, ", "));
    }
    assert(text_pairs(metadata@) =~= file_metadata(v, file_name@));
}

fn put_clock(metadata: &mut Vec<(String, String)>, schema: &Schema)
    ensures
        text_pairs(final(metadata)@) == text_pairs(old(metadata)@) + clock_metadata(schema@),
{
    if schema.clock_domains.len() != 0 {
        let cd = schema.clock_domains[0];
        let mut text: String = known_text(schema, cd.name);
        text.append(" (");
        text.append(to_decimal(cd.period_ps as u64).as_str());
        text.append(" ps, ");
        if cd.period_ps == 0 {
            text.append("inf");
        } else {
            text.append(to_decimal(round_quotient(1_000_000, cd.period_ps as u64)).as_str());
        }
        text.append(" MHz)");
        put_entry(metadata, "Clock", text);
    }
    assert(text_pairs(metadata@) =~= text_pairs(old(metadata)@) + clock_metadata(schema@));
}

/// Counts the strings of a trace.
fn count_strings(table: &crate::reader::StringTable) -> (n: u32)
    ensures
        n == string_count(table@),
{
    let mut count: u32 = 0;
    while count < u32::MAX && table.get(count).is_some()
        invariant
            count <= table@.len(),
        decreases u32::MAX - count,
    {
        count = count + 1;
    }
    count
}

fn put_trace(
    metadata: &mut Vec<(String, String)>,
    reader: &Reader,
    ids: &CpuProtocolIds,
    total_us: &str,
)
    requires
        ids.period_ps > 0,
    ensures
        text_pairs(final(metadata)@) == text_pairs(old(metadata)@) + trace_metadata(
            reader@,
            ids@,
            total_us@,
        ),
{
    let header = reader.header();
    let schema = reader.schema();
    put_entry(metadata, "Pipeline", join(&ids.stage_names, " -> "));
    let mut duration: String = to_decimal(header.total_time_ps / ids.period_ps);
    duration.append(" cycles (");
    duration.append(total_us);
    duration.append(" us)");
    put_entry(metadata, "Duration", duration);
    put_entry(metadata, "Segments", to_decimal(header.num_segments as u64));
    let mut summary: String = to_decimal(schema.storages.len() as u64);
    summary.append(" storages, ");
    summary.append(to_decimal(schema.events.len() as u64).as_str());
    summary.append(" events, ");
    summary.append(to_decimal(schema.enums.len() as u64).as_str());
    summary.append(" enums");
    put_entry(metadata, "Schema", summary);
    match reader.string_table() {
        Some(table) => {
            let mut text: String = to_decimal(count_strings(table) as u64);
            text.append(" entries");
            put_entry(metadata, "Strings", text);
        },
        None => {},
    }
    assert(text_pairs(metadata@) =~= text_pairs(old(metadata)@) + trace_metadata(
        reader@,
        ids@,
        total_us@,
    ));
}

/// Populate metadata key-value pairs from a trace. `total_us` is its duration
/// in microseconds, as text.
pub fn populate_metadata(
    reader: &Reader,
    file_name: &str,
    ids: &CpuProtocolIds,
    total_us: &str,
) -> (metadata: Vec<(String, String)>)
    requires
        ids.period_ps > 0,
    ensures
        text_pairs(metadata@) == metadata_of(reader@, file_name@, ids@, total_us@),
{
    let mut metadata: Vec<(String, String)> = Vec::new();
    put_file(&mut metadata, reader.header(), file_name, Ghost(reader@));
    let ghost first = text_pairs(metadata@);
    let properties = reader.dut_properties();
    let ghost ps = reader@.properties();
    let mut i: usize = 0;
    assert(first + ps.take(0) =~= first);
    while i < properties.len()
        invariant
            i <= properties@.len(),
            pair_texts(properties@) == ps,
            ps.len() == properties@.len(),
            text_pairs(metadata@) == first + ps.take(i as int),
        decreases properties@.len() - i,
    {
        let (key, value) = properties[i];
        assert(ps[i as int] == (key@, value@));
        put_entry(&mut metadata, key, value.to_owned());
        i = i + 1;
        assert(text_pairs(metadata@) =~= first + ps.take(i as int));
    }
    assert(ps.take(i as int) =~= ps);
    put_clock(&mut metadata, reader.schema());
    put_trace(&mut metadata, reader, ids, total_us);
    metadata
}

// ---------------------------------------------------------------------------
// Segment index.

/// The segment table that a section table of at most `steps` entries at the
/// start of `s` leads to, as far as it can be read.
pub open spec fn table_within(
    data: Seq<u8>,
    s: Seq<u8>,
    steps: nat,
    table: Seq<SegmentIndexEntry>,
) -> Seq<SegmentIndexEntry>
    decreases steps,
{
    if steps == 0 {
        table
    } else {
        match SectionEntry::decode(s) {
            Err(_) => table,
            Ok((entry, n)) => if entry.section_type == SECTION_END {
                table
            } else {
                table_within(
                    data,
                    suffix(s, n),
                    (steps - 1) as nat,
                    if entry.section_type == SECTION_SEGMENTS {
                        match segment_table(data, entry.offset, entry.size) {
                            Ok(t) => t,
                            Err(_) => table,
                        }
                    } else {
                        table
                    },
                )
            },
        }
    }
}

/// The most sections that are looked at, so that a corrupt table ends.
pub const MAX_SECTIONS: usize = 64;

/// The segments of a trace: those of its section table, else those of its
/// chain.
pub open spec fn segments_of(data: Seq<u8>, h: FileHeader) -> Result<
    Seq<SegmentIndexEntry>,
    TraceError,
> {
    let table = if h.flags & F_COMPLETE != 0 && h.section_table_offset != 0 {
        table_within(
            data,
            suffix(data, h.section_table_offset as int),
            MAX_SECTIONS as nat,
            Seq::empty(),
        )
    } else {
        Seq::empty()
    };
    if table.len() == 0 && h.tail_offset != 0 {
        match chain(data, h.tail_offset) {
            Err(e) => Err(e),
            Ok(c) => Ok(chain_entries(c)),
        }
    } else {
        Ok(table)
    }
}

/// A time in cycles.
pub open spec fn cycle_of(time_ps: u64, period_ps: u64) -> u32 {
    (time_ps / period_ps) as u32
}

/// The cycles of some segments.
pub open spec fn cycle_ranges(table: Seq<SegmentIndexEntry>, period_ps: u64) -> Seq<(u32, u32)> {
    table.map_values(
        |e: SegmentIndexEntry|
            (cycle_of(e.time_start_ps, period_ps), cycle_of(e.time_end_ps, period_ps)),
    )
}

/// The cycles of `n` segments that share the time of a trace evenly.
pub open spec fn even_ranges(total_ps: u64, n: int, period_ps: u64) -> Seq<(u32, u32)> {
    let each = total_ps / (n as u64);
    Seq::new(
        n as nat,
        |i: int|
            (
                cycle_of((i * each) as u64, period_ps),
                cycle_of((i * each + each) as u64, period_ps),
            ),
    )
}

/// The cycles of the segments of a trace.
pub open spec fn segment_cycles(data: Seq<u8>, segment_count: int, period_ps: u64) -> Result<
    Seq<(u32, u32)>,
    TraceError,
> {
    match FileHeader::decode(data) {
        Err(e) => Err(e),
        Ok((h, _)) => match segments_of(data, h) {
            Err(e) => Err(e),
            Ok(table) => if table.len() > 0 {
                Ok(cycle_ranges(table, period_ps))
            } else if segment_count > 0 && h.total_time_ps > 0 {
                Ok(even_ranges(h.total_time_ps, segment_count, period_ps))
            } else {
                Ok(Seq::empty())
            },
        },
    }
}

fn read_table_within(data: &[u8], offset: u64) -> (table: Vec<SegmentIndexEntry>)
    ensures
        table@ == table_within(
            data@,
            suffix(data@, offset as int),
            MAX_SECTIONS as nat,
            Seq::empty(),
        ),
{
    let mut r = ByteReader::at(data, offset);
    let mut table: Vec<SegmentIndexEntry> = Vec::new();
    let mut steps: usize = MAX_SECTIONS;
    let ghost whole = table_within(data@, r@, steps as nat, Seq::empty());
    assert(table@ =~= Seq::<SegmentIndexEntry>::empty());
    while steps > 0
        invariant_except_break
            whole == table_within(data@, r@, steps as nat, table@),
        ensures
            whole == table@,
        decreases steps,
    {
        let entry = match SectionEntry::read_from(&mut r) {
            Ok(e) => e,
            // The table ends early: what was read so far counts.
            Err(_) => break,
        };
        if entry.section_type == SECTION_END {
            break;
        }
        if entry.section_type == SECTION_SEGMENTS {
            match read_segment_table(data, entry.offset, entry.size) {
                Ok(t) => {
                    table = t;
                },
                Err(_) => {},
            }
        }
        steps = steps - 1;
    }
    table
}

fn to_cycles(table: &Vec<SegmentIndexEntry>, period_ps: u64) -> (r: Vec<(u32, u32)>)
    requires
        period_ps > 0,
    ensures
        r@ == cycle_ranges(table@, period_ps),
{
    let mut r: Vec<(u32, u32)> = Vec::new();
    let mut i: usize = 0;
    while i < table.len()
        invariant
            i <= table@.len(),
            period_ps > 0,
            r@ == cycle_ranges(table@, period_ps).take(i as int),
        decreases table@.len() - i,
    {
        let start: u32 = #[verifier::truncate] ((table[i].time_start_ps / period_ps) as u32);
        let end: u32 = #[verifier::truncate] ((table[i].time_end_ps / period_ps) as u32);
        r.push((start, end));
        i = i + 1;
        assert(r@ =~= cycle_ranges(table@, period_ps).take(i as int));
    }
    assert(r@ =~= cycle_ranges(table@, period_ps));
    r
}

fn share_evenly(total_ps: u64, n: usize, period_ps: u64) -> (r: Vec<(u32, u32)>)
    requires
        period_ps > 0,
        n > 0,
    ensures
        r@ == even_ranges(total_ps, n as int, period_ps),
{
    let count: u64 = n as u64;
    let each: u64 = total_ps / count;
    let ghost want = even_ranges(total_ps, n as int, period_ps);
    let mut r: Vec<(u32, u32)> = Vec::new();
    let mut i: usize = 0;
    assert(count * each <= total_ps) by (nonlinear_arith)
        requires
            each == total_ps / count,
            count > 0,
    ;
    while i < n
        invariant
            i <= n,
            n == count,
            period_ps > 0,
            each == total_ps / count,
            count * each <= total_ps,
            want == even_ranges(total_ps, n as int, period_ps),
            r@ == want.take(i as int),
        decreases n - i,
    {
        assert(0 <= i * each && i * each + each <= count * each) by (nonlinear_arith)
            requires
                i + 1 <= count,
                each >= 0,
                i >= 0,
        ;
        let start_ps: u64 = i as u64 * each;
        let end_ps: u64 = start_ps + each;
        let start: u32 = #[verifier::truncate] ((start_ps / period_ps) as u32);
        let end: u32 = #[verifier::truncate] ((end_ps / period_ps) as u32);
        r.push((start, end));
        assert(want[i as int] == (start, end));
        i = i + 1;
        assert(r@ =~= want.take(i as int));
    }
    assert(want.take(i as int) =~= want);
    r
}

/// Build a SegmentIndex by reading the segment table directly from the bytes
/// of a trace.
///
/// This avoids replaying segments: only per-segment time bounds are needed,
/// which are stored in the section table (for finalized traces) or the segment
/// chain (for live traces). Where there is neither, the reader's segments
/// share the time of the trace evenly.
pub fn build_segment_index_from_file(data: &[u8], reader: &Reader, period_ps: u64) -> (res: Result<
    SegmentIndex,
    TraceError,
>)
    requires
        period_ps > 0,
    ensures
        match segment_cycles(data@, reader@.table.len() as int, period_ps) {
            Ok(s) => res is Ok && res->Ok_0.segments@ == s,
            Err(e) => res == Err::<SegmentIndex, TraceError>(e),
        },
{
    let mut r = ByteReader::new(data);
    let header = match FileHeader::read_from(&mut r) {
        Err(e) => return Err(e),
        Ok(h) => h,
    };
    let mut table: Vec<SegmentIndexEntry> = Vec::new();
    assert(table@ =~= Seq::<SegmentIndexEntry>::empty());
    if header.flags & F_COMPLETE != 0 && header.section_table_offset != 0 {
        table = read_table_within(data, header.section_table_offset);
    }
    if table.len() == 0 && header.tail_offset != 0 {
        match walk_chain(data, header.tail_offset) {
            Err(e) => return Err(e),
            Ok(c) => {
                table = index_chain(&c);
            },
        }
    }
    if table.len() != 0 {
        return Ok(SegmentIndex { segments: to_cycles(&table, period_ps) });
    }
    let n: usize = reader.segment_count();
    if n > 0 && header.total_time_ps > 0 {
        return Ok(SegmentIndex { segments: share_evenly(header.total_time_ps, n, period_ps) });
    }
    let none = SegmentIndex::default();
    assert(none.segments@ =~= Seq::<(u32, u32)>::empty());
    Ok(none)
}

/// A time lies in the cycle that it is given: not before it, and before the
/// next.
pub proof fn law_cycle_of(time_ps: u64, period_ps: u64)
    requires
        period_ps > 0,
        time_ps / period_ps <= u32::MAX,
    ensures
        cycle_of(time_ps, period_ps) * period_ps <= time_ps,
        time_ps < cycle_of(time_ps, period_ps) * period_ps + period_ps,
{
    let q = time_ps / period_ps;
    vstd::arithmetic::div_mod::lemma_fundamental_div_mod(time_ps as int, period_ps as int);
    assert(q >= 0) by (nonlinear_arith)
        requires
            q == time_ps / period_ps,
            period_ps > 0,
    ;
    assert(q * period_ps == period_ps * q) by (nonlinear_arith);
}

/// A rounded quotient is no further than half from the quotient, and even where
/// it is just half.
pub proof fn law_rounded(a: nat, b: nat)
    requires
        b > 0,
    ensures
        2 * a <= 2 * (rounded(a, b) * b) + b,
        2 * (rounded(a, b) * b) <= 2 * a + b,
        2 * a == 2 * (rounded(a, b) * b) + b || 2 * (rounded(a, b) * b) == 2 * a + b ==> rounded(
            a,
            b,
        ) % 2 == 0,
{
    let q = a / b;
    vstd::arithmetic::div_mod::lemma_fundamental_div_mod(a as int, b as int);
    assert(q * b == b * q && (q + 1) * b == q * b + b) by (nonlinear_arith);
}

/// Segments that share the time of a trace evenly follow each other from cycle
/// 0 on: each starts in the cycle in which the one before ends.
pub proof fn law_even_ranges(total_ps: u64, n: int, period_ps: u64, i: int)
    requires
        0 < n <= u64::MAX,
        0 <= i < n - 1,
        period_ps > 0,
    ensures
        even_ranges(total_ps, n, period_ps).len() == n,
        even_ranges(total_ps, n, period_ps)[0].0 == 0,
        even_ranges(total_ps, n, period_ps)[i].1 == even_ranges(total_ps, n, period_ps)[i + 1].0,
{
    let each = total_ps / (n as u64);
    assert((i + 1) * each == i * each + each) by (nonlinear_arith);
    assert(0 * each == 0) by (nonlinear_arith);
    let zero = (0 * each) as u64;
    assert(zero / period_ps == 0) by (nonlinear_arith)
        requires
            zero == 0,
            period_ps > 0,
    ;
}

/// The cycles of a segment are those of the times at which it starts and ends.
pub proof fn law_cycle_ranges(table: Seq<SegmentIndexEntry>, period_ps: u64, i: int)
    requires
        0 <= i < table.len(),
        period_ps > 0,
        table[i].time_start_ps / period_ps <= u32::MAX,
        table[i].time_end_ps / period_ps <= u32::MAX,
    ensures
        ({
            let r = cycle_ranges(table, period_ps);
            &&& r.len() == table.len()
            &&& r[i].0 * period_ps <= table[i].time_start_ps < r[i].0 * period_ps + period_ps
            &&& r[i].1 * period_ps <= table[i].time_end_ps < r[i].1 * period_ps + period_ps
        }),
{
    law_cycle_of(table[i].time_start_ps, period_ps);
    law_cycle_of(table[i].time_end_ps, period_ps);
}

/// The names of stages in a property are its parts between commas, without the
/// white space at their ends.
pub proof fn law_listed_stages(text: Seq<char>, i: int)
    requires
        0 <= i < listed_stages(text).len(),
    ensures
        listed_stages(text).len() == parts(text, ',').len(),
        ({
            let name = listed_stages(text)[i];
            let part = parts(text, ',')[i];
            &&& name.len() > 0 ==> !crate::chars::is_white(name[0]) && !crate::chars::is_white(
                name.last(),
            )
            &&& exists|from: int, to: int|
                0 <= from <= to <= part.len() && name == #[trigger] part.subrange(from, to) && (
                forall|j: int|
                    0 <= j < from || to <= j < part.len() ==> crate::chars::is_white(
                        #[trigger] part[j],
                    ))
        }),
{
    crate::chars::law_trimmed(parts(text, ',')[i]);
}

/// A trace that is opened has at least one stage.
pub proof fn law_stages_some(v: ReaderView)
    requires
        stages_of(v) is Ok,
    ensures
        stages_of(v)->Ok_0.len() > 0,
{
    if let Some(text) = v.property("cpu.pipeline_stages"@) {
        crate::chars::law_parts_joined(text, ',', 0, 0);
    }
}

} // verus!
