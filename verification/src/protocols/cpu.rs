//! CPU protocol helpers: schema construction and typed writer operations.

use vstd::prelude::*;
use crate::bytes::{put_u32, u32_bytes};
use crate::frame::FrameItemView;
use crate::numerals::{decimal, join, joined, texts_of, to_decimal};
use crate::schema::{
    field_names, named, property_texts, texts, Draft, DutDescBuilder, FieldSpec, SchemaBuilder,
};
use crate::string_pool::{all_fit, lemma_insert_all_join, lemma_insert_all_push, Pool};
use crate::text::str_eq;
use crate::types::{DA_SLOT_ADD, DA_SLOT_CLEAR, DA_SLOT_SET, SF_SPARSE};
use crate::writer::{spec_event, spec_op, table_place, Writer, WriterView};

verus! {

broadcast use crate::bytes::group_le_len;

/// Metadata for a buffer storage created by the CPU schema builder.
#[derive(Debug, Clone)]
pub struct BufferInfo {
    pub name: String,
    pub storage_id: u16,
    pub entity_id_field: u16,
    /// The names and numbers of the fields besides the entity id.
    pub fields: Vec<(String, u16)>,
}

/// What a `BufferInfo` holds.
#[verifier::ext_equal]
pub struct BufferInfoView {
    pub name: Seq<char>,
    pub storage_id: u16,
    pub entity_id_field: u16,
    pub fields: Seq<(Seq<char>, u16)>,
}

/// Names and numbers.
pub open spec fn numbered_texts(fields: Seq<(String, u16)>) -> Seq<(Seq<char>, u16)> {
    fields.map_values(|f: (String, u16)| (f.0@, f.1))
}

impl View for BufferInfo {
    type V = BufferInfoView;

    open spec fn view(&self) -> BufferInfoView {
        BufferInfoView {
            name: self.name@,
            storage_id: self.storage_id,
            entity_id_field: self.entity_id_field,
            fields: numbered_texts(self.fields@),
        }
    }
}

/// IDs assigned during schema construction.
#[derive(Debug, Clone)]
pub struct CpuIds {
    pub scope_id: u16,
    pub entities_storage_id: u16,
    pub stage_transition_event_id: u16,
    pub annotate_event_id: u16,
    pub dependency_event_id: u16,
    pub flush_event_id: u16,
    pub stall_event_id: u16,
    pub pipeline_stage_enum_id: u8,
    pub dep_type_enum_id: u8,
    pub flush_reason_enum_id: u8,
    pub stall_reason_enum_id: u8,
    /// Field index in the entities storage.
    pub field_entity_id: u16,
    /// Field index in the entities storage.
    pub field_pc: u16,
    /// Field index in the entities storage.
    pub field_inst_bits: u16,
    pub buffers: Vec<BufferInfo>,
    /// Name, storage and count field of each counter.
    pub counters: Vec<(String, u16, u16)>,
}

/// What a `CpuIds` holds.
#[verifier::ext_equal]
pub struct CpuIdsView {
    pub scope_id: u16,
    pub entities_storage_id: u16,
    pub stage_transition_event_id: u16,
    pub annotate_event_id: u16,
    pub dependency_event_id: u16,
    pub flush_event_id: u16,
    pub stall_event_id: u16,
    pub pipeline_stage_enum_id: u8,
    pub dep_type_enum_id: u8,
    pub flush_reason_enum_id: u8,
    pub stall_reason_enum_id: u8,
    pub field_entity_id: u16,
    pub field_pc: u16,
    pub field_inst_bits: u16,
    pub buffers: Seq<BufferInfoView>,
    pub counters: Seq<(Seq<char>, u16, u16)>,
}

/// What some buffers are.
pub open spec fn buffer_views(buffers: Seq<BufferInfo>) -> Seq<BufferInfoView> {
    buffers.map_values(|b: BufferInfo| b@)
}

/// What some counters are.
pub open spec fn counter_texts(counters: Seq<(String, u16, u16)>) -> Seq<(Seq<char>, u16, u16)> {
    counters.map_values(|c: (String, u16, u16)| (c.0@, c.1, c.2))
}

impl View for CpuIds {
    type V = CpuIdsView;

    open spec fn view(&self) -> CpuIdsView {
        CpuIdsView {
            scope_id: self.scope_id,
            entities_storage_id: self.entities_storage_id,
            stage_transition_event_id: self.stage_transition_event_id,
            annotate_event_id: self.annotate_event_id,
            dependency_event_id: self.dependency_event_id,
            flush_event_id: self.flush_event_id,
            stall_event_id: self.stall_event_id,
            pipeline_stage_enum_id: self.pipeline_stage_enum_id,
            dep_type_enum_id: self.dep_type_enum_id,
            flush_reason_enum_id: self.flush_reason_enum_id,
            stall_reason_enum_id: self.stall_reason_enum_id,
            field_entity_id: self.field_entity_id,
            field_pc: self.field_pc,
            field_inst_bits: self.field_inst_bits,
            buffers: buffer_views(self.buffers@),
            counters: counter_texts(self.counters@),
        }
    }
}

/// A buffer that a schema will have.
struct BufferDef {
    name: String,
    num_slots: u16,
    extra_fields: Vec<(String, FieldSpec)>,
}

/// What a buffer will be.
#[verifier::ext_equal]
pub struct BufferPlan {
    pub name: Seq<char>,
    pub num_slots: u16,
    pub extra_fields: Seq<(Seq<char>, FieldSpec)>,
}

/// Fields with their names as texts.
pub open spec fn field_texts(fields: Seq<(String, FieldSpec)>) -> Seq<(Seq<char>, FieldSpec)> {
    fields.map_values(|f: (String, FieldSpec)| (f.0@, f.1))
}

impl View for BufferDef {
    type V = BufferPlan;

    closed spec fn view(&self) -> BufferPlan {
        BufferPlan {
            name: self.name@,
            num_slots: self.num_slots,
            extra_fields: field_texts(self.extra_fields@),
        }
    }
}

/// Builder for a CPU protocol schema.
pub struct CpuSchemaBuilder {
    scope_name: String,
    isa: String,
    pipeline_stages: Vec<String>,
    fetch_width: Option<u32>,
    commit_width: Option<u32>,
    elf_path: Option<String>,
    vendor: Option<String>,
    entity_slots: u16,
    clock_period_ps: u32,
    buffers: Vec<BufferDef>,
    counters: Vec<String>,
    stall_reasons: Vec<String>,
}

/// What a CPU schema is to describe.
#[verifier::ext_equal]
pub struct CpuPlan {
    pub scope_name: Seq<char>,
    pub isa: Seq<char>,
    pub pipeline_stages: Seq<Seq<char>>,
    pub fetch_width: Option<u32>,
    pub commit_width: Option<u32>,
    pub elf_path: Option<Seq<char>>,
    pub vendor: Option<Seq<char>>,
    pub entity_slots: u16,
    pub clock_period_ps: u32,
    pub buffers: Seq<BufferPlan>,
    pub counters: Seq<Seq<char>>,
    pub stall_reasons: Seq<Seq<char>>,
}

/// The text of an optional string.
pub open spec fn opt_text(s: Option<String>) -> Option<Seq<char>> {
    match s {
        Some(t) => Some(t@),
        None => None,
    }
}

impl View for CpuSchemaBuilder {
    type V = CpuPlan;

    closed spec fn view(&self) -> CpuPlan {
        CpuPlan {
            scope_name: self.scope_name@,
            isa: self.isa@,
            pipeline_stages: texts_of(self.pipeline_stages@),
            fetch_width: self.fetch_width,
            commit_width: self.commit_width,
            elf_path: opt_text(self.elf_path),
            vendor: opt_text(self.vendor),
            entity_slots: self.entity_slots,
            clock_period_ps: self.clock_period_ps,
            buffers: plans(self.buffers@),
            counters: texts_of(self.counters@),
            stall_reasons: texts_of(self.stall_reasons@),
        }
    }
}

/// The stall reasons of a schema that names none.
pub open spec fn default_stall_reasons() -> Seq<Seq<char>> {
    seq![
        "rob_full"@,
        "iq_full"@,
        "lq_full"@,
        "sq_full"@,
        "fetch_miss"@,
        "dcache_miss"@,
        "frontend_stall"@,
    ]
}

/// Copies of some texts.
fn owned(names: &[&str]) -> (r: Vec<String>)
    ensures
        texts_of(r@) == texts(names@),
{
    let mut r: Vec<String> = Vec::new();
    let mut i: usize = 0;
    while i < names.len()
        invariant
            i <= names@.len(),
            texts_of(r@) == texts(names@).take(i as int),
        decreases names@.len() - i,
    {
        let ghost before = texts_of(r@);
        let s: String = names[i].to_owned();
        r.push(s);
        assert(texts_of(r@) =~= before.push(s@));
        i = i + 1;
        assert(texts_of(r@) =~= texts(names@).take(i as int));
    }
    assert(texts_of(r@) =~= texts(names@));
    r
}

/// References to some texts.
fn borrowed(names: &Vec<String>) -> (r: Vec<&str>)
    ensures
        texts(r@) == texts_of(names@),
{
    let mut r: Vec<&str> = Vec::new();
    let mut i: usize = 0;
    while i < names.len()
        invariant
            i <= names@.len(),
            texts(r@) == texts_of(names@).take(i as int),
        decreases names@.len() - i,
    {
        let ghost before = texts(r@);
        let s: &str = names[i].as_str();
        r.push(s);
        assert(texts(r@) =~= before.push(s@));
        i = i + 1;
        assert(texts(r@) =~= texts_of(names@).take(i as int));
    }
    assert(texts(r@) =~= texts_of(names@));
    r
}

impl CpuSchemaBuilder {
    /// A CPU with 512 entity slots, a clock of 1 GHz and the default stall
    /// reasons.
    pub fn new(scope_name: &str) -> (b: CpuSchemaBuilder)
        ensures
            b@ == (CpuPlan {
                scope_name: scope_name@,
                isa: Seq::empty(),
                pipeline_stages: Seq::empty(),
                fetch_width: None,
                commit_width: None,
                elf_path: None,
                vendor: None,
                entity_slots: 512,
                clock_period_ps: 1000,
                buffers: Seq::empty(),
                counters: Seq::empty(),
                stall_reasons: default_stall_reasons(),
            }),
    {
        let reasons: [&str; 7] = [
            "rob_full",
            "iq_full",
            "lq_full",
            "sq_full",
            "fetch_miss",
            "dcache_miss",
            "frontend_stall",
        ];
        assert(texts(reasons@) =~= default_stall_reasons());
        let b = CpuSchemaBuilder {
            scope_name: scope_name.to_owned(),
            isa: String::new(),
            pipeline_stages: Vec::new(),
            fetch_width: None,
            commit_width: None,
            elf_path: None,
            vendor: None,
            entity_slots: 512,
            clock_period_ps: 1000,
            buffers: Vec::new(),
            counters: Vec::new(),
            stall_reasons: owned(reasons.as_slice()),
        };
        proof {
            assert(b@.isa =~= Seq::<char>::empty());
            assert(b@.pipeline_stages =~= Seq::<Seq<char>>::empty());
            assert(b@.buffers =~= Seq::<BufferPlan>::empty());
            assert(b@.counters =~= Seq::<Seq<char>>::empty());
        }
        b
    }

    /// Set ISA.
    pub fn isa(self, isa: &str) -> (b: CpuSchemaBuilder)
        ensures
            b@ == (CpuPlan { isa: isa@, ..self@ }),
    {
        let mut b = self;
        b.isa = isa.to_owned();
        b
    }

    /// Define the pipeline stage enum.
    pub fn pipeline_stages(self, stages: &[&str]) -> (b: CpuSchemaBuilder)
        ensures
            b@ == (CpuPlan { pipeline_stages: texts(stages@), ..self@ }),
    {
        let mut b = self;
        b.pipeline_stages = owned(stages);
        b
    }

    /// Set fetch width.
    pub fn fetch_width(self, w: u32) -> (b: CpuSchemaBuilder)
        ensures
            b@ == (CpuPlan { fetch_width: Some(w), ..self@ }),
    {
        let mut b = self;
        b.fetch_width = Some(w);
        b
    }

    /// Set commit width.
    pub fn commit_width(self, w: u32) -> (b: CpuSchemaBuilder)
        ensures
            b@ == (CpuPlan { commit_width: Some(w), ..self@ }),
    {
        let mut b = self;
        b.commit_width = Some(w);
        b
    }

    /// Set ELF path.
    pub fn elf_path(self, path: &str) -> (b: CpuSchemaBuilder)
        ensures
            b@ == (CpuPlan { elf_path: Some(path@), ..self@ }),
    {
        let mut b = self;
        b.elf_path = Some(path.to_owned());
        b
    }

    /// Set vendor.
    pub fn vendor(self, v: &str) -> (b: CpuSchemaBuilder)
        ensures
            b@ == (CpuPlan { vendor: Some(v@), ..self@ }),
    {
        let mut b = self;
        b.vendor = Some(v.to_owned());
        b
    }

    /// Set the number of in-flight entities.
    pub fn entity_slots(self, n: u16) -> (b: CpuSchemaBuilder)
        ensures
            b@ == (CpuPlan { entity_slots: n, ..self@ }),
    {
        let mut b = self;
        b.entity_slots = n;
        b
    }

    /// Set the clock period in picoseconds.
    pub fn clock_period_ps(self, period_ps: u32) -> (b: CpuSchemaBuilder)
        ensures
            b@ == (CpuPlan { clock_period_ps: period_ps, ..self@ }),
    {
        let mut b = self;
        b.clock_period_ps = period_ps;
        b
    }

    /// Add a hardware buffer storage.
    pub fn buffer(self, name: &str, num_slots: u16, extra_fields: &[(&str, FieldSpec)]) -> (b:
        CpuSchemaBuilder)
        ensures
            b@ == (CpuPlan {
                buffers: self@.buffers.push(
                    BufferPlan {
                        name: name@,
                        num_slots,
                        extra_fields: named(extra_fields@),
                    },
                ),
                ..self@
            }),
    {
        let mut b = self;
        let mut fields: Vec<(String, FieldSpec)> = Vec::new();
        let mut i: usize = 0;
        while i < extra_fields.len()
            invariant
                i <= extra_fields@.len(),
                field_texts(fields@) == named(extra_fields@).take(i as int),
            decreases extra_fields@.len() - i,
        {
            let ghost before = field_texts(fields@);
            let f = (extra_fields[i].0.to_owned(), extra_fields[i].1);
            fields.push(f);
            assert(field_texts(fields@) =~= before.push((f.0@, f.1)));
            i = i + 1;
            assert(field_texts(fields@) =~= named(extra_fields@).take(i as int));
        }
        let def = BufferDef { name: name.to_owned(), num_slots, extra_fields: fields };
        assert(def@.extra_fields =~= named(extra_fields@));
        b.buffers.push(def);
        assert(b@.buffers =~= self@.buffers.push(def@));
        b
    }

    /// Add a counter (1-slot dense storage).
    pub fn counter(self, name: &str) -> (b: CpuSchemaBuilder)
        ensures
            b@ == (CpuPlan { counters: self@.counters.push(name@), ..self@ }),
    {
        let mut b = self;
        b.counters.push(name.to_owned());
        assert(b@.counters =~= self@.counters.push(name@));
        b
    }

    /// Override the default stall reasons.
    pub fn stall_reasons(self, reasons: &[&str]) -> (b: CpuSchemaBuilder)
        ensures
            b@ == (CpuPlan { stall_reasons: texts(reasons@), ..self@ }),
    {
        let mut b = self;
        b.stall_reasons = owned(reasons);
        b
    }
}

// ---------------------------------------------------------------------------
// The schema of a CPU.

/// The fields of the entity catalog.
pub open spec fn entity_fields() -> Seq<(Seq<char>, FieldSpec)> {
    seq![
        ("entity_id"@, FieldSpec::U32),
        ("pc"@, FieldSpec::U64),
        ("inst_bits"@, FieldSpec::U32),
    ]
}

/// The flags of a buffer: sparse, so that a slot that was cleared is empty.
pub const BUFFER_FLAGS: u16 = 0x03;

/// The fields of a buffer.
pub open spec fn buffer_fields(b: BufferPlan) -> Seq<(Seq<char>, FieldSpec)> {
    seq![("entity_id"@, FieldSpec::U32)] + b.extra_fields
}

/// The field of a counter.
pub open spec fn counter_fields() -> Seq<(Seq<char>, FieldSpec)> {
    seq![("count"@, FieldSpec::U64)]
}

pub open spec fn stage_fields() -> Seq<(Seq<char>, FieldSpec)> {
    seq![("entity_id"@, FieldSpec::U32), ("stage"@, FieldSpec::Enum(0))]
}

pub open spec fn annotate_fields() -> Seq<(Seq<char>, FieldSpec)> {
    seq![("entity_id"@, FieldSpec::U32), ("text"@, FieldSpec::StringRef)]
}

pub open spec fn dependency_fields() -> Seq<(Seq<char>, FieldSpec)> {
    seq![
        ("src_id"@, FieldSpec::U32),
        ("dst_id"@, FieldSpec::U32),
        ("dep_type"@, FieldSpec::Enum(1)),
    ]
}

pub open spec fn flush_fields() -> Seq<(Seq<char>, FieldSpec)> {
    seq![("entity_id"@, FieldSpec::U32), ("reason"@, FieldSpec::Enum(2))]
}

pub open spec fn stall_fields() -> Seq<(Seq<char>, FieldSpec)> {
    seq![("reason"@, FieldSpec::Enum(3))]
}

pub open spec fn dep_types() -> Seq<Seq<char>> {
    seq!["raw"@, "war"@, "waw"@, "structural"@]
}

pub open spec fn flush_reasons() -> Seq<Seq<char>> {
    seq!["mispredict"@, "exception"@, "interrupt"@, "pipeline_clear"@]
}

/// The clock domain and the scopes: the root and the CPU below it.
pub open spec fn with_scopes(scope_name: Seq<char>, period_ps: u32) -> Draft {
    Draft::empty().with_clock_domain("core_clk"@, period_ps).with_scope(
        "root"@,
        None,
        None,
        None,
    ).with_scope(scope_name, Some(0), Some("cpu"@), Some(0))
}

/// The enumerations of a CPU.
pub open spec fn with_enums(d: Draft, stages: Seq<Seq<char>>, stalls: Seq<Seq<char>>) -> Draft {
    d.with_enum("pipeline_stage"@, stages).with_enum("dep_type"@, dep_types()).with_enum(
        "flush_reason"@,
        flush_reasons(),
    ).with_enum("stall_reason"@, stalls)
}

/// The first `n` buffers.
pub open spec fn with_buffers(d: Draft, buffers: Seq<BufferPlan>, n: int) -> Draft
    decreases n,
{
    if n <= 0 {
        d
    } else {
        let b = buffers[n - 1];
        with_buffers(d, buffers, n - 1).with_storage(
            b.name,
            1,
            b.num_slots,
            BUFFER_FLAGS,
            buffer_fields(b),
            Seq::empty(),
        )
    }
}

/// The first `n` counters.
pub open spec fn with_counters(d: Draft, counters: Seq<Seq<char>>, n: int) -> Draft
    decreases n,
{
    if n <= 0 {
        d
    } else {
        with_counters(d, counters, n - 1).with_storage(
            counters[n - 1],
            1,
            1,
            0,
            counter_fields(),
            Seq::empty(),
        )
    }
}

/// The entity catalog, the buffers and the counters.
pub open spec fn with_storages(d: Draft, plan: CpuPlan) -> Draft {
    let d = d.with_storage(
        "entities"@,
        1,
        plan.entity_slots,
        SF_SPARSE,
        entity_fields(),
        Seq::empty(),
    );
    let d = with_buffers(d, plan.buffers, plan.buffers.len() as int);
    with_counters(d, plan.counters, plan.counters.len() as int)
}

/// The events of a CPU.
pub open spec fn with_events(d: Draft) -> Draft {
    d.with_event("stage_transition"@, 1, stage_fields()).with_event(
        "annotate"@,
        1,
        annotate_fields(),
    ).with_event("dependency"@, 1, dependency_fields()).with_event(
        "flush"@,
        1,
        flush_fields(),
    ).with_event("stall"@, 1, stall_fields())
}

/// The schema of a CPU.
pub open spec fn cpu_draft(plan: CpuPlan) -> Draft {
    with_events(
        with_storages(
            with_enums(
                with_scopes(plan.scope_name, plan.clock_period_ps),
                plan.pipeline_stages,
                plan.stall_reasons,
            ),
            plan,
        ),
    )
}

/// The numbers in the schema of a CPU.
pub open spec fn cpu_ids(plan: CpuPlan) -> CpuIdsView {
    CpuIdsView {
        scope_id: 1,
        entities_storage_id: 0,
        stage_transition_event_id: 0,
        annotate_event_id: 1,
        dependency_event_id: 2,
        flush_event_id: 3,
        stall_event_id: 4,
        pipeline_stage_enum_id: 0,
        dep_type_enum_id: 1,
        flush_reason_enum_id: 2,
        stall_reason_enum_id: 3,
        field_entity_id: 0,
        field_pc: 1,
        field_inst_bits: 2,
        buffers: buffer_infos(plan.buffers, 1),
        counters: counter_infos(plan.counters, 1int + plan.buffers.len()),
    }
}

/// The numbers of a buffer: its extra fields come behind the entity id.
pub open spec fn buffer_info(b: BufferPlan, storage_id: u16) -> BufferInfoView {
    BufferInfoView {
        name: b.name,
        storage_id,
        entity_id_field: 0,
        fields: Seq::new(
            b.extra_fields.len(),
            |j: int| (b.extra_fields[j].0, (j + 1) as u16),
        ),
    }
}

/// The property `key` with its value, where there is one.
pub open spec fn optional_property(key: Seq<char>, value: Option<Seq<char>>) -> Seq<
    (Seq<char>, Seq<char>),
> {
    match value {
        Some(v) => seq![(key, v)],
        None => Seq::empty(),
    }
}

/// A width as text.
pub open spec fn width_text(w: Option<u32>) -> Option<Seq<char>> {
    match w {
        Some(n) => Some(decimal(n as nat)),
        None => None,
    }
}

/// The properties of a CPU.
pub open spec fn cpu_properties(plan: CpuPlan) -> Seq<(Seq<char>, Seq<char>)> {
    seq![("dut_name"@, plan.scope_name), ("cpu.protocol_version"@, "0.1"@)] + optional_property(
        "cpu.isa"@,
        if plan.isa.len() == 0 {
            None
        } else {
            Some(plan.isa)
        },
    ) + seq![("cpu.pipeline_stages"@, joined(plan.pipeline_stages, ","@))] + optional_property(
        "cpu.fetch_width"@,
        width_text(plan.fetch_width),
    ) + optional_property("cpu.commit_width"@, width_text(plan.commit_width)) + optional_property(
        "cpu.elf_path"@,
        plan.elf_path,
    ) + optional_property("cpu.vendor"@, plan.vendor)
}

// The names that a schema puts into its string pool, in their order.

pub open spec fn buffer_names(buffers: Seq<BufferPlan>, i: int, rest: Seq<Seq<char>>) -> Seq<
    Seq<char>,
>
    decreases buffers.len() - i,
{
    if i >= buffers.len() {
        rest
    } else {
        (seq![buffers[i].name] + field_names(buffer_fields(buffers[i]))) + buffer_names(
            buffers,
            i + 1,
            rest,
        )
    }
}

pub open spec fn counter_names(counters: Seq<Seq<char>>, i: int, rest: Seq<Seq<char>>) -> Seq<
    Seq<char>,
>
    decreases counters.len() - i,
{
    if i >= counters.len() {
        rest
    } else {
        (seq![counters[i]] + field_names(counter_fields())) + counter_names(counters, i + 1, rest)
    }
}

pub open spec fn event_names() -> Seq<Seq<char>> {
    (seq!["stage_transition"@] + field_names(stage_fields())) + ((seq!["annotate"@] + field_names(
        annotate_fields(),
    )) + ((seq!["dependency"@] + field_names(dependency_fields())) + ((seq!["flush"@]
        + field_names(flush_fields())) + (seq!["stall"@] + field_names(stall_fields())))))
}

pub open spec fn storage_names(plan: CpuPlan) -> Seq<Seq<char>> {
    (seq!["entities"@] + field_names(entity_fields())) + buffer_names(
        plan.buffers,
        0,
        counter_names(plan.counters, 0, event_names()),
    )
}

pub open spec fn enum_names(plan: CpuPlan) -> Seq<Seq<char>> {
    (seq!["pipeline_stage"@] + plan.pipeline_stages) + ((seq!["dep_type"@] + dep_types()) + ((
    seq!["flush_reason"@] + flush_reasons()) + ((seq!["stall_reason"@] + plan.stall_reasons)
        + storage_names(plan))))
}

/// All names of a schema in the order in which they are inserted.
pub open spec fn cpu_names(plan: CpuPlan) -> Seq<Seq<char>> {
    seq!["core_clk"@] + (seq!["root"@] + (seq![plan.scope_name, "cpu"@] + enum_names(plan)))
}

/// The string pool after more names, where all that follow fit.
proof fn lemma_next(pool: Pool, names: Seq<Seq<char>>, rest: Seq<Seq<char>>)
    requires
        pool.fits_all(names + rest),
    ensures
        pool.fits_all(names),
        pool.insert_all(names).fits_all(rest),
{
    lemma_insert_all_join(pool, names, rest);
}

proof fn lemma_single(pool: Pool, name: Seq<char>)
    ensures
        pool.insert_all(seq![name]) == pool.insert(name),
        pool.fits_all(seq![name]) == pool.fits(name),
{
    let none = Seq::<Seq<char>>::empty();
    lemma_insert_all_push(pool, none, name);
    assert(none.push(name) =~= seq![name]);
}

/// Adds the clock domain and the scopes.
fn add_scopes(
    sb: &mut SchemaBuilder,
    scope_name: &str,
    period_ps: u32,
    Ghost(rest): Ghost<Seq<Seq<char>>>,
)
    requires
        old(sb)@ == Draft::empty(),
        old(sb)@.pool.fits_all(
            seq!["core_clk"@] + (seq!["root"@] + (seq![scope_name@, "cpu"@] + rest)),
        ),
    ensures
        final(sb)@ == with_scopes(scope_name@, period_ps),
        final(sb)@.pool.fits_all(rest),
{
    let ghost last = seq![scope_name@, "cpu"@] + rest;
    proof {
        lemma_next(sb@.pool, seq!["core_clk"@], seq!["root"@] + last);
        lemma_single(sb@.pool, "core_clk"@);
    }
    let clock_id: u8 = sb.clock_domain("core_clk", period_ps);
    proof {
        lemma_next(sb@.pool, seq!["root"@], last);
    }
    let _root: u16 = sb.scope("root", None, None, None);
    proof {
        lemma_next(sb@.pool, seq![scope_name@, "cpu"@], rest);
    }
    let _scope: u16 = sb.scope(scope_name, Some(0), Some("cpu"), Some(clock_id));
}

/// Adds the enumerations.
fn add_enums(
    sb: &mut SchemaBuilder,
    stages: &Vec<String>,
    stalls: &Vec<String>,
    Ghost(rest): Ghost<Seq<Seq<char>>>,
)
    requires
        old(sb)@.pool.fits_all(
            (seq!["pipeline_stage"@] + texts_of(stages@)) + ((seq!["dep_type"@] + dep_types()) + ((
            seq!["flush_reason"@] + flush_reasons()) + ((seq!["stall_reason"@] + texts_of(
                stalls@,
            )) + rest))),
        ),
    ensures
        final(sb)@ == with_enums(old(sb)@, texts_of(stages@), texts_of(stalls@)),
        final(sb)@.pool.fits_all(rest),
{
    let ghost n4 = (seq!["stall_reason"@] + texts_of(stalls@)) + rest;
    let ghost n3 = (seq!["flush_reason"@] + flush_reasons()) + n4;
    let ghost n2 = (seq!["dep_type"@] + dep_types()) + n3;
    proof {
        lemma_next(sb@.pool, seq!["pipeline_stage"@] + texts_of(stages@), n2);
    }
    let stage_refs = borrowed(stages);
    let _stage: u8 = sb.enum_type("pipeline_stage", stage_refs.as_slice());
    let deps: [&str; 4] = ["raw", "war", "waw", "structural"];
    proof {
        assert(texts(deps@) =~= dep_types());
        lemma_next(sb@.pool, seq!["dep_type"@] + dep_types(), n3);
    }
    let _dep: u8 = sb.enum_type("dep_type", deps.as_slice());
    let flushes: [&str; 4] = ["mispredict", "exception", "interrupt", "pipeline_clear"];
    proof {
        assert(texts(flushes@) =~= flush_reasons());
        lemma_next(sb@.pool, seq!["flush_reason"@] + flush_reasons(), n4);
    }
    let _flush: u8 = sb.enum_type("flush_reason", flushes.as_slice());
    let stall_refs = borrowed(stalls);
    proof {
        lemma_next(sb@.pool, seq!["stall_reason"@] + texts_of(stalls@), rest);
    }
    let _stall: u8 = sb.enum_type("stall_reason", stall_refs.as_slice());
}

/// Adds the entity catalog.
fn add_entities(sb: &mut SchemaBuilder, slots: u16, Ghost(rest): Ghost<Seq<Seq<char>>>)
    requires
        old(sb)@.pool.fits_all((seq!["entities"@] + field_names(entity_fields())) + rest),
    ensures
        final(sb)@ == old(sb)@.with_storage(
            "entities"@,
            1,
            slots,
            SF_SPARSE,
            entity_fields(),
            Seq::empty(),
        ),
        final(sb)@.pool.fits_all(rest),
{
    let fields: [(&str, FieldSpec); 3] = [
        ("entity_id", FieldSpec::U32),
        ("pc", FieldSpec::U64),
        ("inst_bits", FieldSpec::U32),
    ];
    proof {
        assert(named(fields@) =~= entity_fields());
        lemma_next(sb@.pool, seq!["entities"@] + field_names(entity_fields()), rest);
        lemma_no_properties(seq!["entities"@] + field_names(entity_fields()));
    }
    let _id: u16 = sb.storage("entities", 1, slots, SF_SPARSE, fields.as_slice());
}

proof fn lemma_no_properties(names: Seq<Seq<char>>)
    ensures
        names + crate::schema::property_names(Seq::empty()) == names,
{
    assert(names + crate::schema::property_names(Seq::empty()) =~= names);
}

/// The names and numbers of the extra fields of a buffer.
fn number_fields(fields: &Vec<(String, FieldSpec)>) -> (r: Vec<(String, u16)>)
    ensures
        numbered_texts(r@) == Seq::new(
            fields@.len(),
            |j: int| (field_texts(fields@)[j].0, (j + 1) as u16),
        ),
{
    let ghost want = Seq::new(
        fields@.len(),
        |j: int| (field_texts(fields@)[j].0, (j + 1) as u16),
    );
    let mut r: Vec<(String, u16)> = Vec::new();
    let mut i: usize = 0;
    while i < fields.len()
        invariant
            i <= fields@.len(),
            want == Seq::new(
                fields@.len(),
                |j: int| (field_texts(fields@)[j].0, (j + 1) as u16),
            ),
            numbered_texts(r@) == want.take(i as int),
        decreases fields@.len() - i,
    {
        let ghost before = numbered_texts(r@);
        let name: String = fields[i].0.clone();
        let n: u16 = #[verifier::truncate] ((i + 1) as u16);
        r.push((name, n));
        assert(numbered_texts(r@) =~= before.push((name@, n)));
        assert(want[i as int] == (name@, n));
        i = i + 1;
        assert(numbered_texts(r@) =~= want.take(i as int));
    }
    assert(numbered_texts(r@) =~= want);
    r
}

/// Adds a buffer.
fn add_buffer(sb: &mut SchemaBuilder, def: &BufferDef, Ghost(rest): Ghost<Seq<Seq<char>>>) -> (info:
    BufferInfo)
    requires
        old(sb)@.pool.fits_all((seq![def@.name] + field_names(buffer_fields(def@))) + rest),
    ensures
        final(sb)@ == old(sb)@.with_storage(
            def@.name,
            1,
            def@.num_slots,
            BUFFER_FLAGS,
            buffer_fields(def@),
            Seq::empty(),
        ),
        final(sb)@.pool.fits_all(rest),
        info@ == buffer_info(def@, old(sb)@.storages.len() as u16),
{
    let ghost want = buffer_fields(def@);
    let mut fields: Vec<(&str, FieldSpec)> = Vec::new();
    fields.push(("entity_id", FieldSpec::U32));
    let mut i: usize = 0;
    assert(named(fields@) =~= want.take(1));
    while i < def.extra_fields.len()
        invariant
            i <= def.extra_fields@.len(),
            want == buffer_fields(def@),
            named(fields@) == want.take(i + 1),
        decreases def.extra_fields@.len() - i,
    {
        let ghost before = named(fields@);
        let f = (def.extra_fields[i].0.as_str(), def.extra_fields[i].1);
        fields.push(f);
        assert(named(fields@) =~= before.push((f.0@, f.1)));
        i = i + 1;
        assert(named(fields@) =~= want.take(i + 1));
    }
    proof {
        assert(named(fields@) =~= want);
        lemma_next(sb@.pool, seq![def@.name] + field_names(want), rest);
        lemma_no_properties(seq![def@.name] + field_names(want));
    }
    let storage_id: u16 = sb.storage(
        def.name.as_str(),
        1,
        def.num_slots,
        BUFFER_FLAGS,
        fields.as_slice(),
    );
    let info = BufferInfo {
        name: def.name.clone(),
        storage_id,
        entity_id_field: 0,
        fields: number_fields(&def.extra_fields),
    };
    assert(info@ =~= buffer_info(def@, old(sb)@.storages.len() as u16));
    info
}

/// Adds a counter.
fn add_counter(sb: &mut SchemaBuilder, name: &str, Ghost(rest): Ghost<Seq<Seq<char>>>) -> (id: u16)
    requires
        old(sb)@.pool.fits_all((seq![name@] + field_names(counter_fields())) + rest),
    ensures
        final(sb)@ == old(sb)@.with_storage(name@, 1, 1, 0, counter_fields(), Seq::empty()),
        final(sb)@.pool.fits_all(rest),
        id == old(sb)@.storages.len() as u16,
{
    let fields: [(&str, FieldSpec); 1] = [("count", FieldSpec::U64)];
    proof {
        assert(named(fields@) =~= counter_fields());
        lemma_next(sb@.pool, seq![name@] + field_names(counter_fields()), rest);
        lemma_no_properties(seq![name@] + field_names(counter_fields()));
    }
    sb.storage(name, 1, 1, 0, fields.as_slice())
}

/// Adds the events.
fn add_events(sb: &mut SchemaBuilder)
    requires
        old(sb)@.pool.fits_all(event_names()),
    ensures
        final(sb)@ == with_events(old(sb)@),
{
    let stage: [(&str, FieldSpec); 2] = [("entity_id", FieldSpec::U32), ("stage", FieldSpec::Enum(0))];
    let annotate: [(&str, FieldSpec); 2] = [
        ("entity_id", FieldSpec::U32),
        ("text", FieldSpec::StringRef),
    ];
    let dependency: [(&str, FieldSpec); 3] = [
        ("src_id", FieldSpec::U32),
        ("dst_id", FieldSpec::U32),
        ("dep_type", FieldSpec::Enum(1)),
    ];
    let flush: [(&str, FieldSpec); 2] = [("entity_id", FieldSpec::U32), ("reason", FieldSpec::Enum(2))];
    let stall: [(&str, FieldSpec); 1] = [("reason", FieldSpec::Enum(3))];
    let ghost n5 = seq!["stall"@] + field_names(stall_fields());
    let ghost n4 = (seq!["flush"@] + field_names(flush_fields())) + n5;
    let ghost n3 = (seq!["dependency"@] + field_names(dependency_fields())) + n4;
    let ghost n2 = (seq!["annotate"@] + field_names(annotate_fields())) + n3;
    proof {
        assert(named(stage@) =~= stage_fields());
        assert(named(annotate@) =~= annotate_fields());
        assert(named(dependency@) =~= dependency_fields());
        assert(named(flush@) =~= flush_fields());
        assert(named(stall@) =~= stall_fields());
        lemma_next(sb@.pool, seq!["stage_transition"@] + field_names(stage_fields()), n2);
    }
    let _stage: u16 = sb.event("stage_transition", 1, stage.as_slice());
    proof {
        lemma_next(sb@.pool, seq!["annotate"@] + field_names(annotate_fields()), n3);
    }
    let _annotate: u16 = sb.event("annotate", 1, annotate.as_slice());
    proof {
        lemma_next(sb@.pool, seq!["dependency"@] + field_names(dependency_fields()), n4);
    }
    let _dependency: u16 = sb.event("dependency", 1, dependency.as_slice());
    proof {
        lemma_next(sb@.pool, seq!["flush"@] + field_names(flush_fields()), n5);
    }
    let _flush: u16 = sb.event("flush", 1, flush.as_slice());
    let _stall: u16 = sb.event("stall", 1, stall.as_slice());
}

/// The plans of some buffers.
closed spec fn plans(defs: Seq<BufferDef>) -> Seq<BufferPlan> {
    defs.map_values(|b: BufferDef| b@)
}

/// The numbers of some buffers, the first of which is storage `first`.
pub open spec fn buffer_infos(buffers: Seq<BufferPlan>, first: int) -> Seq<BufferInfoView> {
    Seq::new(buffers.len(), |i: int| buffer_info(buffers[i], (first + i) as u16))
}

/// The numbers of some counters, the first of which is storage `first`.
pub open spec fn counter_infos(counters: Seq<Seq<char>>, first: int) -> Seq<
    (Seq<char>, u16, u16),
> {
    Seq::new(counters.len(), |i: int| (counters[i], (first + i) as u16, 0u16))
}

/// Adds the buffers.
fn add_buffers(
    sb: &mut SchemaBuilder,
    defs: &Vec<BufferDef>,
    Ghost(rest): Ghost<Seq<Seq<char>>>,
) -> (buffers: Vec<BufferInfo>)
    requires
        old(sb)@.pool.fits_all(buffer_names(plans(defs@), 0, rest)),
    ensures
        final(sb)@ == with_buffers(old(sb)@, plans(defs@), defs@.len() as int),
        final(sb)@.storages.len() == old(sb)@.storages.len() + defs@.len(),
        final(sb)@.pool.fits_all(rest),
        buffer_views(buffers@) == buffer_infos(plans(defs@), old(sb)@.storages.len() as int),
{
    let ghost d0 = sb@;
    let ghost all = plans(defs@);
    let ghost infos = buffer_infos(all, d0.storages.len() as int);
    let mut buffers: Vec<BufferInfo> = Vec::new();
    let mut i: usize = 0;
    while i < defs.len()
        invariant
            i <= defs@.len(),
            all == plans(defs@),
            d0 == old(sb)@,
            infos == buffer_infos(all, d0.storages.len() as int),
            sb@ == with_buffers(d0, all, i as int),
            sb@.storages.len() == d0.storages.len() + i,
            sb@.pool.fits_all(buffer_names(all, i as int, rest)),
            buffer_views(buffers@) == infos.take(i as int),
        decreases defs@.len() - i,
    {
        let def = &defs[i];
        assert(all[i as int] == def@);
        let info = add_buffer(sb, def, Ghost(buffer_names(all, i + 1, rest)));
        let ghost before = buffer_views(buffers@);
        buffers.push(info);
        assert(buffer_views(buffers@) =~= before.push(info@));
        i = i + 1;
        assert(buffer_views(buffers@) =~= infos.take(i as int));
    }
    assert(infos.take(i as int) =~= infos);
    buffers
}

/// Adds the counters.
fn add_counters(
    sb: &mut SchemaBuilder,
    names: &Vec<String>,
    Ghost(rest): Ghost<Seq<Seq<char>>>,
) -> (counters: Vec<(String, u16, u16)>)
    requires
        old(sb)@.pool.fits_all(counter_names(texts_of(names@), 0, rest)),
    ensures
        final(sb)@ == with_counters(old(sb)@, texts_of(names@), names@.len() as int),
        final(sb)@.pool.fits_all(rest),
        counter_texts(counters@) == counter_infos(
            texts_of(names@),
            old(sb)@.storages.len() as int,
        ),
{
    let ghost d0 = sb@;
    let ghost all = texts_of(names@);
    let ghost infos = counter_infos(all, d0.storages.len() as int);
    let mut counters: Vec<(String, u16, u16)> = Vec::new();
    let mut i: usize = 0;
    while i < names.len()
        invariant
            i <= names@.len(),
            all == texts_of(names@),
            d0 == old(sb)@,
            infos == counter_infos(all, d0.storages.len() as int),
            sb@ == with_counters(d0, all, i as int),
            sb@.storages.len() == d0.storages.len() + i,
            sb@.pool.fits_all(counter_names(all, i as int, rest)),
            counter_texts(counters@) == infos.take(i as int),
        decreases names@.len() - i,
    {
        let name = names[i].clone();
        assert(all[i as int] == name@);
        let id: u16 = add_counter(sb, name.as_str(), Ghost(counter_names(all, i + 1, rest)));
        let ghost before = counter_texts(counters@);
        counters.push((name, id, 0));
        assert(counter_texts(counters@) =~= before.push((name@, id, 0u16)));
        i = i + 1;
        assert(counter_texts(counters@) =~= infos.take(i as int));
    }
    assert(infos.take(i as int) =~= infos);
    counters
}

impl CpuSchemaBuilder {
    /// The properties of the CPU.
    fn describe(&self) -> (dut: DutDescBuilder)
        ensures
            dut@ == cpu_properties(self@),
    {
        let mut dut = DutDescBuilder::new();
        dut.property("dut_name", self.scope_name.as_str());
        dut.property("cpu.protocol_version", "0.1");
        assert(dut@ =~= seq![("dut_name"@, self@.scope_name), ("cpu.protocol_version"@, "0.1"@)]);
        if !self.isa.as_str().is_empty() {
            dut.property("cpu.isa", self.isa.as_str());
        }
        let stages = join(&self.pipeline_stages, ",");
        dut.property("cpu.pipeline_stages", stages.as_str());
        if let Some(n) = self.fetch_width {
            dut.property("cpu.fetch_width", to_decimal(n as u64).as_str());
        }
        if let Some(n) = self.commit_width {
            dut.property("cpu.commit_width", to_decimal(n as u64).as_str());
        }
        if let Some(path) = &self.elf_path {
            dut.property("cpu.elf_path", path.as_str());
        }
        if let Some(v) = &self.vendor {
            dut.property("cpu.vendor", v.as_str());
        }
        assert(dut@ =~= cpu_properties(self@));
        dut
    }

    /// Build the schema and DUT descriptor. All names must fit in the string
    /// pool.
    pub fn build(self) -> (res: (DutDescBuilder, SchemaBuilder, CpuIds))
        requires
            Pool::empty().fits_all(cpu_names(self@)),
        ensures
            res.0@ == cpu_properties(self@),
            res.1@ == cpu_draft(self@),
            res.2@ == cpu_ids(self@),
    {
        let ghost plan = self@;
        let dut = self.describe();
        let mut sb = SchemaBuilder::new();
        add_scopes(
            &mut sb,
            self.scope_name.as_str(),
            self.clock_period_ps,
            Ghost(enum_names(plan)),
        );
        add_enums(
            &mut sb,
            &self.pipeline_stages,
            &self.stall_reasons,
            Ghost(storage_names(plan)),
        );
        let ghost counters_rest = counter_names(plan.counters, 0, event_names());
        add_entities(
            &mut sb,
            self.entity_slots,
            Ghost(buffer_names(plan.buffers, 0, counters_rest)),
        );
        let buffers = add_buffers(&mut sb, &self.buffers, Ghost(counters_rest));
        let counters = add_counters(&mut sb, &self.counters, Ghost(event_names()));
        add_events(&mut sb);
        let ids_out = CpuIds {
            scope_id: 1,
            entities_storage_id: 0,
            stage_transition_event_id: 0,
            annotate_event_id: 1,
            dependency_event_id: 2,
            flush_event_id: 3,
            stall_event_id: 4,
            pipeline_stage_enum_id: 0,
            dep_type_enum_id: 1,
            flush_reason_enum_id: 2,
            stall_reason_enum_id: 3,
            field_entity_id: 0,
            field_pc: 1,
            field_inst_bits: 2,
            buffers,
            counters,
        };
        assert(ids_out@ =~= cpu_ids(plan));
        (dut, sb, ids_out)
    }
}

// ---------------------------------------------------------------------------
// Writing a CPU trace.

/// Typed CPU protocol writer helpers.
pub struct CpuWriter {
    pub ids: CpuIds,
}

/// An operation on a field of a slot.
pub open spec fn op_item(
    action: u8,
    storage_id: u16,
    slot: u16,
    field: u16,
    value: u64,
) -> FrameItemView {
    FrameItemView::Op(spec_op(action, storage_id, slot, field, value))
}

/// An event.
pub open spec fn event_item(event_type_id: u16, payload: Seq<u8>) -> FrameItemView {
    FrameItemView::Event(spec_event(event_type_id, payload))
}

/// Whether a field of a slot can be set.
pub open spec fn settable(w: WriterView, storage_id: u16, slot: u16, field: u16) -> bool {
    storage_id < w.base.len() ==> w.base[storage_id as int].field_fits(
        slot,
        w.layouts()[storage_id as int],
        field,
    )
}

/// The first counter with the given name, from `i` on.
pub open spec fn counter_from(
    counters: Seq<(Seq<char>, u16, u16)>,
    name: Seq<char>,
    i: int,
) -> Option<
    (u16, u16),
>
    decreases counters.len() - i,
{
    if i >= counters.len() {
        None
    } else if counters[i].0 == name {
        Some((counters[i].1, counters[i].2))
    } else {
        counter_from(counters, name, i + 1)
    }
}

/// The first buffer with the given name, from `i` on.
pub open spec fn buffer_from(buffers: Seq<BufferInfoView>, name: Seq<char>, i: int) -> Option<
    BufferInfoView,
>
    decreases buffers.len() - i,
{
    if i >= buffers.len() {
        None
    } else if buffers[i].name == name {
        Some(buffers[i])
    } else {
        buffer_from(buffers, name, i + 1)
    }
}

/// The first extra field with the given name, from `i` on.
pub open spec fn extra_field_from(fields: Seq<(Seq<char>, u16)>, name: Seq<char>, i: int) -> Option<
    u16,
>
    decreases fields.len() - i,
{
    if i >= fields.len() {
        None
    } else if fields[i].0 == name {
        Some(fields[i].1)
    } else {
        extra_field_from(fields, name, i + 1)
    }
}

impl CpuWriter {
    pub fn new(ids: CpuIds) -> (c: CpuWriter)
        ensures
            c.ids == ids,
    {
        CpuWriter { ids }
    }

    /// Fetch an instruction: allocate entity in catalog.
    pub fn fetch(&self, w: &mut Writer, entity_id: u32, pc: u64, inst_bits: u32)
        requires
            old(w).wf(),
            old(w)@.in_cycle,
            settable(old(w)@, self.ids.entities_storage_id, entity_id as u16, self.ids.field_entity_id),
            settable(old(w)@, self.ids.entities_storage_id, entity_id as u16, self.ids.field_pc),
            settable(old(w)@, self.ids.entities_storage_id, entity_id as u16, self.ids.field_inst_bits),
        ensures
            final(w).wf(),
            ({
                let sid = self.ids.entities_storage_id;
                let slot = entity_id as u16;
                final(w)@ == old(w)@.with_item(
                    op_item(DA_SLOT_SET, sid, slot, self.ids.field_entity_id, entity_id as u64),
                ).with_item(op_item(DA_SLOT_SET, sid, slot, self.ids.field_pc, pc)).with_item(
                    op_item(DA_SLOT_SET, sid, slot, self.ids.field_inst_bits, inst_bits as u64),
                )
            }),
    {
        let slot: u16 = #[verifier::truncate] (entity_id as u16);
        let sid: u16 = self.ids.entities_storage_id;
        w.slot_set(sid, slot, self.ids.field_entity_id, entity_id as u64);
        w.slot_set(sid, slot, self.ids.field_pc, pc);
        w.slot_set(sid, slot, self.ids.field_inst_bits, inst_bits as u64);
    }

    /// Emit a stage transition event.
    pub fn stage_transition(&self, w: &mut Writer, entity_id: u32, stage: u8)
        requires
            old(w).wf(),
            old(w)@.in_cycle,
        ensures
            final(w).wf(),
            final(w)@ == old(w)@.with_item(
                event_item(
                    self.ids.stage_transition_event_id,
                    u32_bytes(entity_id).push(stage),
                ),
            ),
    {
        let mut payload: Vec<u8> = Vec::new();
        put_u32(&mut payload, entity_id);
        payload.push(stage);
        assert(payload@ =~= u32_bytes(entity_id).push(stage));
        w.event(self.ids.stage_transition_event_id, payload.as_slice());
    }

    /// Retire an instruction: clear entity from catalog.
    pub fn retire(&self, w: &mut Writer, entity_id: u32)
        requires
            old(w).wf(),
            old(w)@.in_cycle,
        ensures
            final(w).wf(),
            final(w)@ == old(w)@.with_item(
                op_item(DA_SLOT_CLEAR, self.ids.entities_storage_id, entity_id as u16, 0, 0),
            ),
    {
        w.slot_clear(
            self.ids.entities_storage_id,
            #[verifier::truncate] (entity_id as u16),
        );
    }

    /// Flush an instruction.
    ///
    /// The flush event implicitly removes the entity from the active set.
    /// No separate `slot_clear` is emitted, so that a consumer of a trace in
    /// which operations and events are stored apart cannot take it for a
    /// retirement.
    pub fn flush(&self, w: &mut Writer, entity_id: u32, reason: u8)
        requires
            old(w).wf(),
            old(w)@.in_cycle,
        ensures
            final(w).wf(),
            final(w)@ == old(w)@.with_item(
                event_item(self.ids.flush_event_id, u32_bytes(entity_id).push(reason)),
            ),
    {
        let mut payload: Vec<u8> = Vec::new();
        put_u32(&mut payload, entity_id);
        payload.push(reason);
        assert(payload@ =~= u32_bytes(entity_id).push(reason));
        w.event(self.ids.flush_event_id, payload.as_slice());
    }

    /// Annotate an entity with text.
    pub fn annotate(&self, w: &mut Writer, entity_id: u32, text: &str)
        requires
            old(w).wf(),
            old(w)@.in_cycle,
        ensures
            final(w).wf(),
            ({
                let with_text = old(w)@.with_string(text@);
                let place = table_place(with_text.rec.strings, text@) as u32;
                final(w)@ == with_text.with_item(
                    event_item(
                        self.ids.annotate_event_id,
                        u32_bytes(entity_id) + u32_bytes(place),
                    ),
                )
            }),
    {
        let text_ref: u32 = w.insert_string(text);
        let mut payload: Vec<u8> = Vec::new();
        put_u32(&mut payload, entity_id);
        put_u32(&mut payload, text_ref);
        assert(payload@ =~= u32_bytes(entity_id) + u32_bytes(text_ref));
        w.event(self.ids.annotate_event_id, payload.as_slice());
    }

    /// Record a dependency between two entities.
    pub fn dependency(&self, w: &mut Writer, src_id: u32, dst_id: u32, dep_type: u8)
        requires
            old(w).wf(),
            old(w)@.in_cycle,
        ensures
            final(w).wf(),
            final(w)@ == old(w)@.with_item(
                event_item(
                    self.ids.dependency_event_id,
                    (u32_bytes(src_id) + u32_bytes(dst_id)).push(dep_type),
                ),
            ),
    {
        let mut payload: Vec<u8> = Vec::new();
        put_u32(&mut payload, src_id);
        put_u32(&mut payload, dst_id);
        payload.push(dep_type);
        assert(payload@ =~= (u32_bytes(src_id) + u32_bytes(dst_id)).push(dep_type));
        w.event(self.ids.dependency_event_id, payload.as_slice());
    }

    /// Record a stall event.
    pub fn stall(&self, w: &mut Writer, reason: u8)
        requires
            old(w).wf(),
            old(w)@.in_cycle,
        ensures
            final(w).wf(),
            final(w)@ == old(w)@.with_item(event_item(self.ids.stall_event_id, seq![reason])),
    {
        let mut payload: Vec<u8> = Vec::new();
        payload.push(reason);
        assert(payload@ =~= seq![reason]);
        w.event(self.ids.stall_event_id, payload.as_slice());
    }

    /// Finds the first buffer with the given name.
    fn find_buffer(&self, name: &str) -> (r: Option<usize>)
        ensures
            match buffer_from(self.ids@.buffers, name@, 0) {
                Some(b) => {
                    &&& r is Some
                    &&& r->Some_0 < self.ids.buffers@.len()
                    &&& self.ids.buffers@[r->Some_0 as int]@ == b
                },
                None => r is None,
            },
    {
        let mut i: usize = 0;
        while i < self.ids.buffers.len()
            invariant
                i <= self.ids.buffers@.len(),
                self.ids@.buffers.len() == self.ids.buffers@.len(),
                buffer_from(self.ids@.buffers, name@, 0) == buffer_from(
                    self.ids@.buffers,
                    name@,
                    i as int,
                ),
            decreases self.ids.buffers@.len() - i,
        {
            assert(self.ids@.buffers[i as int] == self.ids.buffers@[i as int]@);
            if str_eq(self.ids.buffers[i].name.as_str(), name) {
                return Some(i);
            }
            i = i + 1;
        }
        None
    }

    /// Increment a counter. One that does not exist is passed over.
    pub fn counter_add(&self, w: &mut Writer, counter_name: &str, delta: u64)
        requires
            old(w).wf(),
            old(w)@.in_cycle,
            counter_from(self.ids@.counters, counter_name@, 0) matches Some((sid, field))
                ==> settable(old(w)@, sid, 0, field),
        ensures
            final(w).wf(),
            final(w)@ == match counter_from(self.ids@.counters, counter_name@, 0) {
                Some((sid, field)) => old(w)@.with_item(
                    op_item(DA_SLOT_ADD, sid, 0, field, delta),
                ),
                None => old(w)@,
            },
    {
        let mut i: usize = 0;
        while i < self.ids.counters.len()
            invariant
                i <= self.ids.counters@.len(),
                self.ids@.counters.len() == self.ids.counters@.len(),
                w.wf(),
                w@ == old(w)@,
                w@.in_cycle,
                counter_from(self.ids@.counters, counter_name@, 0) == counter_from(
                    self.ids@.counters,
                    counter_name@,
                    i as int,
                ),
                counter_from(self.ids@.counters, counter_name@, 0) matches Some((sid, field))
                    ==> settable(old(w)@, sid, 0, field),
            decreases self.ids.counters@.len() - i,
        {
            let (name, sid, field) = &self.ids.counters[i];
            assert(self.ids@.counters[i as int] == (name@, *sid, *field));
            if str_eq(name.as_str(), counter_name) {
                w.slot_add(*sid, 0, *field, delta);
                return;
            }
            i = i + 1;
        }
    }

    /// Set a buffer slot to an entity. A buffer that does not exist is passed
    /// over.
    pub fn buffer_set(&self, w: &mut Writer, name: &str, slot: u16, entity_id: u32)
        requires
            old(w).wf(),
            old(w)@.in_cycle,
            buffer_from(self.ids@.buffers, name@, 0) matches Some(b) ==> settable(
                old(w)@,
                b.storage_id,
                slot,
                b.entity_id_field,
            ),
        ensures
            final(w).wf(),
            final(w)@ == match buffer_from(self.ids@.buffers, name@, 0) {
                Some(b) => old(w)@.with_item(
                    op_item(
                        DA_SLOT_SET,
                        b.storage_id,
                        slot,
                        b.entity_id_field,
                        entity_id as u64,
                    ),
                ),
                None => old(w)@,
            },
    {
        match self.find_buffer(name) {
            Some(i) => {
                let buf = &self.ids.buffers[i];
                w.slot_set(buf.storage_id, slot, buf.entity_id_field, entity_id as u64);
            },
            None => {},
        }
    }

    /// Set an additional field on a buffer slot. A buffer or a field that
    /// does not exist is passed over.
    pub fn buffer_set_field(
        &self,
        w: &mut Writer,
        name: &str,
        slot: u16,
        field_name: &str,
        value: u64,
    )
        requires
            old(w).wf(),
            old(w)@.in_cycle,
            buffer_from(self.ids@.buffers, name@, 0) matches Some(b) ==> (extra_field_from(
                b.fields,
                field_name@,
                0,
            ) matches Some(f) ==> settable(old(w)@, b.storage_id, slot, f)),
        ensures
            final(w).wf(),
            final(w)@ == match buffer_from(self.ids@.buffers, name@, 0) {
                Some(b) => match extra_field_from(b.fields, field_name@, 0) {
                    Some(f) => old(w)@.with_item(
                        op_item(DA_SLOT_SET, b.storage_id, slot, f, value),
                    ),
                    None => old(w)@,
                },
                None => old(w)@,
            },
    {
        let i: usize = match self.find_buffer(name) {
            Some(i) => i,
            None => return,
        };
        let buf = &self.ids.buffers[i];
        let ghost want = extra_field_from(buf@.fields, field_name@, 0);
        let mut j: usize = 0;
        while j < buf.fields.len()
            invariant
                j <= buf.fields@.len(),
                buf@.fields.len() == buf.fields@.len(),
                w.wf(),
                w@ == old(w)@,
                w@.in_cycle,
                want == extra_field_from(buf@.fields, field_name@, j as int),
                want matches Some(f) ==> settable(old(w)@, buf.storage_id, slot, f),
                buffer_from(self.ids@.buffers, name@, 0) == Some(buf@),
                want == extra_field_from(buf@.fields, field_name@, 0),
            decreases buf.fields@.len() - j,
        {
            let (fname, fidx) = &buf.fields[j];
            assert(buf@.fields[j as int] == (fname@, *fidx));
            if str_eq(fname.as_str(), field_name) {
                w.slot_set(buf.storage_id, slot, *fidx, value);
                return;
            }
            j = j + 1;
        }
    }

    /// Clear a buffer slot. A buffer that does not exist is passed over.
    pub fn buffer_clear(&self, w: &mut Writer, name: &str, slot: u16)
        requires
            old(w).wf(),
            old(w)@.in_cycle,
        ensures
            final(w).wf(),
            final(w)@ == match buffer_from(self.ids@.buffers, name@, 0) {
                Some(b) => old(w)@.with_item(op_item(DA_SLOT_CLEAR, b.storage_id, slot, 0, 0)),
                None => old(w)@,
            },
    {
        match self.find_buffer(name) {
            Some(i) => {
                w.slot_clear(self.ids.buffers[i].storage_id, slot);
            },
            None => {},
        }
    }
}

// ---------------------------------------------------------------------------
// Room in the string pool.

/// The buffers' names are those that building inserts.
proof fn lemma_buffers_pool(d: Draft, buffers: Seq<BufferPlan>, rest: Seq<Seq<char>>, i: int)
    requires
        0 <= i <= buffers.len(),
    ensures
        d.pool.insert_all(buffer_names(buffers, 0, rest)) == with_buffers(
            d,
            buffers,
            i,
        ).pool.insert_all(buffer_names(buffers, i, rest)),
    decreases i,
{
    if i > 0 {
        lemma_buffers_pool(d, buffers, rest, i - 1);
        let before = with_buffers(d, buffers, i - 1);
        let names = seq![buffers[i - 1].name] + field_names(buffer_fields(buffers[i - 1]));
        lemma_insert_all_join(before.pool, names, buffer_names(buffers, i, rest));
        lemma_no_properties(names);
    }
}

/// The counters' names are those that building inserts.
proof fn lemma_counters_pool(d: Draft, counters: Seq<Seq<char>>, rest: Seq<Seq<char>>, i: int)
    requires
        0 <= i <= counters.len(),
    ensures
        d.pool.insert_all(counter_names(counters, 0, rest)) == with_counters(
            d,
            counters,
            i,
        ).pool.insert_all(counter_names(counters, i, rest)),
    decreases i,
{
    if i > 0 {
        lemma_counters_pool(d, counters, rest, i - 1);
        let before = with_counters(d, counters, i - 1);
        let names = seq![counters[i - 1]] + field_names(counter_fields());
        lemma_insert_all_join(before.pool, names, counter_names(counters, i, rest));
        lemma_no_properties(names);
    }
}

proof fn lemma_events_pool(d: Draft)
    ensures
        d.pool.insert_all(event_names()) == with_events(d).pool,
{
    let n5 = seq!["stall"@] + field_names(stall_fields());
    let n4 = (seq!["flush"@] + field_names(flush_fields())) + n5;
    let n3 = (seq!["dependency"@] + field_names(dependency_fields())) + n4;
    let n2 = (seq!["annotate"@] + field_names(annotate_fields())) + n3;
    let d1 = d.with_event("stage_transition"@, 1, stage_fields());
    let d2 = d1.with_event("annotate"@, 1, annotate_fields());
    let d3 = d2.with_event("dependency"@, 1, dependency_fields());
    let d4 = d3.with_event("flush"@, 1, flush_fields());
    lemma_insert_all_join(d.pool, seq!["stage_transition"@] + field_names(stage_fields()), n2);
    lemma_insert_all_join(d1.pool, seq!["annotate"@] + field_names(annotate_fields()), n3);
    lemma_insert_all_join(d2.pool, seq!["dependency"@] + field_names(dependency_fields()), n4);
    lemma_insert_all_join(d3.pool, seq!["flush"@] + field_names(flush_fields()), n5);
}

proof fn lemma_enums_pool(d: Draft, plan: CpuPlan)
    ensures
        d.pool.insert_all(enum_names(plan)) == with_enums(
            d,
            plan.pipeline_stages,
            plan.stall_reasons,
        ).pool.insert_all(storage_names(plan)),
{
    let n4 = (seq!["stall_reason"@] + plan.stall_reasons) + storage_names(plan);
    let n3 = (seq!["flush_reason"@] + flush_reasons()) + n4;
    let n2 = (seq!["dep_type"@] + dep_types()) + n3;
    let d1 = d.with_enum("pipeline_stage"@, plan.pipeline_stages);
    let d2 = d1.with_enum("dep_type"@, dep_types());
    let d3 = d2.with_enum("flush_reason"@, flush_reasons());
    lemma_insert_all_join(d.pool, seq!["pipeline_stage"@] + plan.pipeline_stages, n2);
    lemma_insert_all_join(d1.pool, seq!["dep_type"@] + dep_types(), n3);
    lemma_insert_all_join(d2.pool, seq!["flush_reason"@] + flush_reasons(), n4);
    lemma_insert_all_join(
        d3.pool,
        seq!["stall_reason"@] + plan.stall_reasons,
        storage_names(plan),
    );
}

/// The string pool of a CPU schema holds its names, inserted in their order.
pub proof fn law_cpu_pool(plan: CpuPlan)
    ensures
        Pool::empty().insert_all(cpu_names(plan)) == cpu_draft(plan).pool,
{
    let d0 = with_scopes(plan.scope_name, plan.clock_period_ps);
    let p = Pool::empty();
    let last = seq![plan.scope_name, "cpu"@] + enum_names(plan);
    lemma_insert_all_join(p, seq!["core_clk"@], seq!["root"@] + last);
    lemma_single(p, "core_clk"@);
    let p1 = p.insert("core_clk"@);
    lemma_insert_all_join(p1, seq!["root"@], last);
    let p2 = p1.insert_all(seq!["root"@]);
    lemma_insert_all_join(p2, seq![plan.scope_name, "cpu"@], enum_names(plan));
    assert(d0.pool == p2.insert_all(seq![plan.scope_name, "cpu"@]));
    lemma_enums_pool(d0, plan);
    let d1 = with_enums(d0, plan.pipeline_stages, plan.stall_reasons);
    let names = seq!["entities"@] + field_names(entity_fields());
    let counters_rest = counter_names(plan.counters, 0, event_names());
    lemma_insert_all_join(d1.pool, names, buffer_names(plan.buffers, 0, counters_rest));
    lemma_no_properties(names);
    let d2 = d1.with_storage(
        "entities"@,
        1,
        plan.entity_slots,
        SF_SPARSE,
        entity_fields(),
        Seq::empty(),
    );
    let nb = plan.buffers.len() as int;
    let nc = plan.counters.len() as int;
    lemma_buffers_pool(d2, plan.buffers, counters_rest, nb);
    let d3 = with_buffers(d2, plan.buffers, nb);
    lemma_counters_pool(d3, plan.counters, event_names(), nc);
    let d4 = with_counters(d3, plan.counters, nc);
    lemma_events_pool(d4);
}

/// Adds some names to a list.
fn put_names(list: &mut Vec<String>, names: &[&str], Ghost(rest): Ghost<Seq<Seq<char>>>)
    ensures
        texts_of(final(list)@) == texts_of(old(list)@) + texts(names@),
        texts_of(final(list)@) + rest == texts_of(old(list)@) + (texts(names@) + rest),
{
    let mut i: usize = 0;
    assert(texts_of(list@) =~= texts_of(old(list)@) + texts(names@).take(0));
    while i < names.len()
        invariant
            i <= names@.len(),
            texts_of(list@) == texts_of(old(list)@) + texts(names@).take(i as int),
        decreases names@.len() - i,
    {
        let ghost before = texts_of(list@);
        let s: String = names[i].to_owned();
        list.push(s);
        assert(texts_of(list@) =~= before.push(s@));
        i = i + 1;
        assert(texts_of(list@) =~= texts_of(old(list)@) + texts(names@).take(i as int));
    }
    assert(texts(names@).take(i as int) =~= texts(names@));
    assert(texts_of(list@) + rest =~= texts_of(old(list)@) + (texts(names@) + rest));
}

/// Adds a name and more names to a list.
fn put_named(
    list: &mut Vec<String>,
    name: &str,
    more: &Vec<String>,
    Ghost(rest): Ghost<Seq<Seq<char>>>,
)
    ensures
        texts_of(final(list)@) + rest == texts_of(old(list)@) + ((seq![name@] + texts_of(more@))
            + rest),
{
    let refs = borrowed(more);
    let first: [&str; 1] = [name];
    assert(texts(first@) =~= seq![name@]);
    put_names(list, first.as_slice(), Ghost(texts_of(more@) + rest));
    put_names(list, refs.as_slice(), Ghost(rest));
    assert(texts_of(old(list)@) + (seq![name@] + (texts_of(more@) + rest)) =~= texts_of(
        old(list)@,
    ) + ((seq![name@] + texts_of(more@)) + rest));
}

impl CpuSchemaBuilder {
    /// The names of the scopes, enumerations and the entity catalog.
    fn put_head(&self, list: &mut Vec<String>, Ghost(rest): Ghost<Seq<Seq<char>>>)
        requires
            old(list)@.len() == 0,
            rest == buffer_names(
                self@.buffers,
                0,
                counter_names(self@.counters, 0, event_names()),
            ),
        ensures
            texts_of(final(list)@) + rest == cpu_names(self@),
    {
        let ghost plan = self@;
        let none: Vec<String> = Vec::new();
        assert(texts_of(none@) =~= Seq::<Seq<char>>::empty());
        let scopes: [&str; 4] = ["core_clk", "root", self.scope_name.as_str(), "cpu"];
        let ghost n1 = enum_names(plan);
        proof {
            assert(texts(scopes@) =~= seq!["core_clk"@, "root"@, plan.scope_name, "cpu"@]);
            assert(texts(scopes@) + n1 =~= cpu_names(plan));
            assert(texts_of(list@) =~= Seq::<Seq<char>>::empty());
            assert(texts_of(list@) + (texts(scopes@) + n1) =~= cpu_names(plan));
        }
        put_names(list, scopes.as_slice(), Ghost(n1));
        let ghost n4 = (seq!["stall_reason"@] + plan.stall_reasons) + storage_names(plan);
        let ghost n3 = (seq!["flush_reason"@] + flush_reasons()) + n4;
        let ghost n2 = (seq!["dep_type"@] + dep_types()) + n3;
        put_named(list, "pipeline_stage", &self.pipeline_stages, Ghost(n2));
        let deps: [&str; 5] = ["dep_type", "raw", "war", "waw", "structural"];
        assert(texts(deps@) =~= seq!["dep_type"@] + dep_types());
        put_names(list, deps.as_slice(), Ghost(n3));
        let flushes: [&str; 5] = [
            "flush_reason",
            "mispredict",
            "exception",
            "interrupt",
            "pipeline_clear",
        ];
        assert(texts(flushes@) =~= seq!["flush_reason"@] + flush_reasons());
        put_names(list, flushes.as_slice(), Ghost(n4));
        put_named(list, "stall_reason", &self.stall_reasons, Ghost(storage_names(plan)));
        let entities: [&str; 4] = ["entities", "entity_id", "pc", "inst_bits"];
        assert(texts(entities@) =~= seq!["entities"@] + field_names(entity_fields()));
        put_names(list, entities.as_slice(), Ghost(rest));
    }

    /// All names of the schema in the order in which they are inserted.
    fn names(&self) -> (list: Vec<String>)
        ensures
            texts_of(list@) == cpu_names(self@),
    {
        let ghost plan = self@;
        let ghost counters_rest = counter_names(plan.counters, 0, event_names());
        let mut list: Vec<String> = Vec::new();
        self.put_head(&mut list, Ghost(buffer_names(plan.buffers, 0, counters_rest)));
        let mut i: usize = 0;
        while i < self.buffers.len()
            invariant
                i <= self.buffers@.len(),
                plan == self@,
                texts_of(list@) + buffer_names(plan.buffers, i as int, counters_rest)
                    == cpu_names(plan),
            decreases self.buffers@.len() - i,
        {
            let def = &self.buffers[i];
            assert(plan.buffers[i as int] == def@);
            let mut fields: Vec<String> = Vec::new();
            fields.push("entity_id".to_owned());
            let mut j: usize = 0;
            let ghost want = field_names(buffer_fields(def@));
            assert(texts_of(fields@) =~= want.take(1));
            while j < def.extra_fields.len()
                invariant
                    j <= def.extra_fields@.len(),
                    want == field_names(buffer_fields(def@)),
                    texts_of(fields@) == want.take(j + 1),
                decreases def.extra_fields@.len() - j,
            {
                let ghost before = texts_of(fields@);
                let name = def.extra_fields[j].0.clone();
                fields.push(name);
                assert(texts_of(fields@) =~= before.push(name@));
                j = j + 1;
                assert(texts_of(fields@) =~= want.take(j + 1));
            }
            assert(texts_of(fields@) =~= want);
            put_named(
                &mut list,
                def.name.as_str(),
                &fields,
                Ghost(buffer_names(plan.buffers, i + 1, counters_rest)),
            );
            i = i + 1;
        }
        let mut k: usize = 0;
        while k < self.counters.len()
            invariant
                k <= self.counters@.len(),
                plan == self@,
                texts_of(list@) + counter_names(plan.counters, k as int, event_names())
                    == cpu_names(plan),
            decreases self.counters@.len() - k,
        {
            assert(plan.counters[k as int] == self.counters@[k as int]@);
            let names: [&str; 2] = [self.counters[k].as_str(), "count"];
            assert(texts(names@) =~= seq![plan.counters[k as int]] + field_names(
                counter_fields(),
            ));
            put_names(
                &mut list,
                names.as_slice(),
                Ghost(counter_names(plan.counters, k + 1, event_names())),
            );
            k = k + 1;
        }
        let events: [&str; 15] = [
            "stage_transition",
            "entity_id",
            "stage",
            "annotate",
            "entity_id",
            "text",
            "dependency",
            "src_id",
            "dst_id",
            "dep_type",
            "flush",
            "entity_id",
            "reason",
            "stall",
            "reason",
        ];
        proof {
            assert(texts(events@) =~= event_names());
            assert(texts(events@) + Seq::<Seq<char>>::empty() =~= event_names());
        }
        put_names(&mut list, events.as_slice(), Ghost(Seq::empty()));
        assert(texts_of(list@) + Seq::<Seq<char>>::empty() =~= texts_of(list@));
        list
    }

    /// Whether all names of the schema, and all properties of the CPU behind
    /// them, fit in the string pool.
    pub fn fits(&self) -> (b: bool)
        ensures
            b == (Pool::empty().fits_all(cpu_names(self@)) && cpu_draft(self@).pool.fits_all(
                property_texts(cpu_properties(self@)),
            )),
    {
        let ghost first = cpu_names(self@);
        let mut all = self.names();
        let properties = self.describe().texts();
        let refs = borrowed(&properties);
        put_names(&mut all, refs.as_slice(), Ghost(Seq::empty()));
        proof {
            lemma_insert_all_join(
                Pool::empty(),
                first,
                property_texts(cpu_properties(self@)),
            );
            law_cpu_pool(self@);
        }
        all_fit(&all)
    }
}

} // verus!
