//! A trace that was written for a CPU is opened and loaded as one.

use vstd::prelude::*;
use crate::bytes::suffix;
use crate::cpu::load::{after_all, Context, Loading};
use crate::cpu::open_laws::{
    buffers_planned, counters_planned, keeps, law_cpu_found, law_cpu_resolved, plain_names,
    plain_stages, protocol_planned,
};
use crate::cpu::resolve::{cycle_of, cycle_ranges, segments_of, table_within, MAX_SECTIONS};
use crate::cpu::trace::{numbers, series_of, trace_opened, CpuTraceView};
use crate::error::TraceError;
use crate::protocols::cpu::{cpu_draft, cpu_names, cpu_properties, CpuPlan};
use crate::query::all_segments;
use crate::reader::{
    no_sections, opened, parse_sections, with_section, with_sections, ReaderView, Sections,
};
use crate::roundtrip::{
    closing, law_closed_image, law_segment_replay, reader_of, reads, segment_items, sound,
    strings_read, trace_items,
};
use crate::schema::{dut_desc, Draft};
use crate::segment::segment_table;
use crate::state::TimedItemView;
use crate::string_pool::Pool;
use crate::trace::{segment_index, string_data, Recording, Segment};
use crate::types::{
    FileHeader, SectionEntry, SegmentIndexEntry, F_COMPLETE, SECTION_END, SECTION_SEGMENTS,
};
use crate::wire::Wire;

verus! {

// ---------------------------------------------------------------------------
// The segment index.

/// The segment table after one more section.
spec fn table_with(
    data: Seq<u8>,
    table: Seq<SegmentIndexEntry>,
    entry: SectionEntry,
) -> Seq<SegmentIndexEntry> {
    if entry.section_type == SECTION_SEGMENTS {
        match segment_table(data, entry.offset, entry.size) {
            Ok(t) => t,
            Err(_) => table,
        }
    } else {
        table
    }
}

/// Reading sections can start with the first.
proof fn lemma_sections_front(
    data: Seq<u8>,
    x: Sections,
    first: SectionEntry,
    more: Seq<SectionEntry>,
)
    ensures
        with_sections(data, x, seq![first] + more) == match with_section(data, x, first) {
            Err(e) => Err::<Sections, TraceError>(e),
            Ok(y) => with_sections(data, y, more),
        },
    decreases more.len(),
{
    let all = seq![first] + more;
    let none = Seq::<SectionEntry>::empty();
    if more.len() == 0 {
        assert(all.drop_last() =~= none);
        assert(with_sections(data, x, none) == Ok::<Sections, TraceError>(x));
    } else {
        lemma_sections_front(data, x, first, more.drop_last());
        assert(all.drop_last() =~= seq![first] + more.drop_last());
        assert(all.last() == more.last());
    }
}

/// The two ways to read a section table find the same segment table.
proof fn lemma_same_table(data: Seq<u8>, s: Seq<u8>, steps: nat, x: Sections)
    requires
        parse_sections(s) is Ok,
        parse_sections(s)->Ok_0.len() < steps,
        with_sections(data, x, parse_sections(s)->Ok_0) is Ok,
    ensures
        table_within(data, s, steps, x.table) == with_sections(
            data,
            x,
            parse_sections(s)->Ok_0,
        )->Ok_0.table,
    decreases steps,
{
    let (entry, n) = SectionEntry::decode(s)->Ok_0;
    if entry.section_type != SECTION_END {
        let more = parse_sections(suffix(s, n))->Ok_0;
        assert(parse_sections(s)->Ok_0 == seq![entry] + more);
        lemma_sections_front(data, x, entry, more);
        let y = with_section(data, x, entry)->Ok_0;
        assert(y.table == table_with(data, x.table, entry));
        lemma_same_table(data, suffix(s, n), (steps - 1) as nat, y);
    }
}

/// The segment index of a CPU trace is the segment table that a reader has,
/// as long as there are not too many sections.
pub proof fn law_segments_agree(data: Seq<u8>, v: ReaderView)
    requires
        opened(data) == Ok::<ReaderView, TraceError>(v),
        parse_sections(
            suffix(data, v.header.section_table_offset as int),
        ) matches Ok(entries) ==> entries.len() < MAX_SECTIONS,
    ensures
        FileHeader::decode(data) is Ok,
        FileHeader::decode(data)->Ok_0.0 == v.header,
        segments_of(data, v.header) == Ok::<Seq<SegmentIndexEntry>, TraceError>(v.table),
{
    let h = v.header;
    if h.flags & F_COMPLETE != 0 && h.section_table_offset != 0 {
        lemma_same_table(
            data,
            suffix(data, h.section_table_offset as int),
            MAX_SECTIONS as nat,
            no_sections(),
        );
    }
}

// ---------------------------------------------------------------------------
// Opening.

/// A finished trace that was written with the schema of a CPU is opened as
/// the trace of that CPU: with its protocol, its counters, its buffers and all
/// of its segments.
pub proof fn law_cpu_trace(
    rec: Recording,
    time: u64,
    plan: CpuPlan,
    q: Pool,
    file_name: Seq<char>,
    total_us: Seq<char>,
)
    requires
        sound(rec),
        rec.strings.len() <= u32::MAX,
        string_data(rec.strings).len() <= u32::MAX,
        Pool::empty().fits_all(cpu_names(plan)),
        keeps(cpu_draft(plan).pool, q),
        rec.schema == (Draft { pool: q, ..cpu_draft(plan) }).finished(),
        rec.dut == dut_desc(q, cpu_properties(plan)),
        forall|i: int|
            0 <= i < cpu_properties(plan).len() ==> q.index.contains_key(
                (#[trigger] cpu_properties(plan)[i]).0,
            ) && q.index.contains_key(cpu_properties(plan)[i].1),
        plain_stages(plan.pipeline_stages),
        plain_names(plan),
        plan.clock_period_ps > 0,
    ensures
        ({
            let data = rec.closed_image(time);
            let v = reader_of(data, rec.final_header(time), rec, strings_read(rec));
            let period = plan.clock_period_ps as u64;
            &&& reads(v, rec, closing(rec))
            &&& trace_opened(data, file_name, total_us) is Ok
            &&& ({
                let t = trace_opened(data, file_name, total_us)->Ok_0;
                &&& t.reader == v
                &&& t.ids == protocol_planned(plan)
                &&& t.counters == counters_planned(plan, plan.counters.len() as int)
                &&& t.buffers == buffers_planned(plan, plan.buffers.len() as int)
                &&& t.segments == cycle_ranges(segment_index(rec.base(), rec.segments), period)
                &&& t.stages == numbers(plan.pipeline_stages.len())
                &&& t.period_ps == period
                &&& t.max_cycle == cycle_of(time, period)
                &&& t.series == series_of(v, t.counters, period, t.max_cycle)
                &&& t.summary is None
            })
        }),
{
    let data = rec.closed_image(time);
    let v = reader_of(data, rec.final_header(time), rec, strings_read(rec));
    law_closed_image(rec, time);
    law_cpu_resolved(v, plan, q);
    law_cpu_found(v.schema, plan, q);
    lemma_few_sections(rec, time);
    law_segments_agree(data, v);
    let period = plan.clock_period_ps as u64;
    if v.table.len() == 0 {
        assert(cycle_ranges(v.table, period) =~= Seq::<(u32, u32)>::empty());
    }
}

/// A finished trace has few sections.
proof fn lemma_few_sections(rec: Recording, time: u64)
    requires
        sound(rec),
        rec.strings.len() <= u32::MAX,
        string_data(rec.strings).len() <= u32::MAX,
    ensures
        parse_sections(
            suffix(
                rec.closed_image(time),
                rec.final_header(time).section_table_offset as int,
            ),
        ) == Ok::<Seq<SectionEntry>, TraceError>(rec.sections()),
        rec.sections().len() <= 2,
{
    crate::embed::lemma_table_of_closed(rec, time);
}

// ---------------------------------------------------------------------------
// Loading.

/// What some items do, and then others, is what all of them do.
pub proof fn law_after_all_join(
    l: Loading,
    ctx: Context,
    a: Seq<TimedItemView>,
    b: Seq<TimedItemView>,
)
    ensures
        after_all(l, ctx, a + b) == match after_all(l, ctx, a) {
            Err(e) => Err::<Loading, TraceError>(e),
            Ok(m) => after_all(m, ctx, b),
        },
    decreases b.len(),
{
    if b.len() == 0 {
        assert(a + b =~= a);
    } else {
        law_after_all_join(l, ctx, a, b.drop_last());
        assert((a + b).drop_last() =~= a + b.drop_last());
    }
}

proof fn lemma_loading_prefix(
    t: CpuTraceView,
    rec: Recording,
    tail: Seq<u8>,
    segments: Seq<usize>,
    n: int,
)
    requires
        sound(rec),
        reads(t.reader, rec, tail),
        0 <= n <= rec.segments.len(),
        segments == all_segments(rec.segments.len()),
        rec.segments.len() <= usize::MAX,
    ensures
        t.loading(segments, n) == after_all(
            Loading::empty(t.counters.len()),
            t.context(),
            trace_items(rec.segments.take(n), rec.schema.storages.len() as int),
        ),
    decreases n,
{
    let storages = rec.schema.storages.len() as int;
    let none = Loading::empty(t.counters.len());
    if n == 0 {
        assert(rec.segments.take(0) =~= Seq::<Segment>::empty());
    } else {
        lemma_loading_prefix(t, rec, tail, segments, n - 1);
        let k = n - 1;
        assert(segments[k] == k);
        law_segment_replay(t.reader, rec, tail, k, None);
        let seg = rec.segments.take(n);
        assert(seg.drop_last() =~= rec.segments.take(n - 1));
        assert(seg.last() == rec.segments[k]);
        crate::roundtrip::lemma_segment_facts(rec, k);
        law_after_all_join(
            none,
            t.context(),
            trace_items(rec.segments.take(n - 1), storages),
            segment_items(rec, k),
        );
    }
}

/// Loading all segments of a trace goes through everything that was recorded,
/// in the order in which it was.
pub proof fn law_loading_all(t: CpuTraceView, rec: Recording, tail: Seq<u8>)
    requires
        sound(rec),
        reads(t.reader, rec, tail),
        rec.segments.len() <= usize::MAX,
    ensures
        t.loading(all_segments(rec.segments.len()), rec.segments.len() as int) == after_all(
            Loading::empty(t.counters.len()),
            t.context(),
            trace_items(rec.segments, rec.schema.storages.len() as int),
        ),
{
    let n = rec.segments.len() as int;
    lemma_loading_prefix(t, rec, tail, all_segments(rec.segments.len()), n);
    assert(rec.segments.take(n) =~= rec.segments);
}

} // verus!
