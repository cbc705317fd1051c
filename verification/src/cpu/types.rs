//! What a CPU trace is made of.

use std::ops::Range;
use vstd::prelude::*;

verus! {

/// Interned stage name index.
pub type StageNameIdx = u16;

/// Information about a buffer storage detected from the schema.
#[derive(Debug, Clone)]
pub struct BufferInfo {
    pub name: String,
    pub storage_id: u16,
    pub capacity: u16,
    /// Fields defined on this buffer: name and type.
    pub fields: Vec<(String, u8)>,
    /// Storage-level property definitions with pointer-pair metadata.
    pub properties: Vec<BufferPropertyDef>,
}

/// What a `BufferInfo` holds.
#[verifier::ext_equal]
pub struct BufferInfoView {
    pub name: Seq<char>,
    pub storage_id: u16,
    pub capacity: u16,
    pub fields: Seq<(Seq<char>, u8)>,
    pub properties: Seq<BufferPropertyDefView>,
}

/// Names and types of some fields.
pub open spec fn typed_texts(fields: Seq<(String, u8)>) -> Seq<(Seq<char>, u8)> {
    fields.map_values(|f: (String, u8)| (f.0@, f.1))
}

impl View for BufferInfo {
    type V = BufferInfoView;

    open spec fn view(&self) -> BufferInfoView {
        BufferInfoView {
            name: self.name@,
            storage_id: self.storage_id,
            capacity: self.capacity,
            fields: typed_texts(self.fields@),
            properties: self.properties@.map_values(|p: BufferPropertyDef| p@),
        }
    }
}

/// A storage-level property definition with pointer-pair metadata.
#[derive(Debug, Clone)]
pub struct BufferPropertyDef {
    pub name: String,
    pub field_type: u8,
    /// 0=plain, 1=HEAD_PTR, 2=TAIL_PTR.
    pub role: u8,
    /// Pointer pair grouping (head/tail with same pair_id form a pair).
    pub pair_id: u8,
}

/// What a `BufferPropertyDef` holds.
#[verifier::ext_equal]
pub struct BufferPropertyDefView {
    pub name: Seq<char>,
    pub field_type: u8,
    pub role: u8,
    pub pair_id: u8,
}

impl View for BufferPropertyDef {
    type V = BufferPropertyDefView;

    open spec fn view(&self) -> BufferPropertyDefView {
        BufferPropertyDefView {
            name: self.name@,
            field_type: self.field_type,
            role: self.role,
            pair_id: self.pair_id,
        }
    }
}

/// A single stage span within an instruction's pipeline execution.
#[derive(Debug, Clone, Copy, PartialEq, Eq, Structural)]
pub struct StageSpan {
    pub stage_name_idx: StageNameIdx,
    pub lane: u8,
    pub _pad: u8,
    pub start_cycle: u32,
    pub end_cycle: u32,
}

/// Dependency relationship between two instructions.
#[derive(Debug, Clone, Copy, PartialEq, Eq, Structural)]
pub struct Dependency {
    pub producer: u32,
    pub consumer: u32,
    pub kind: DepKind,
}

/// What a dependency goes through.
#[derive(Debug, Clone, Copy, PartialEq, Eq, Structural)]
pub enum DepKind {
    Data,
    Control,
    Memory,
}

/// Retirement status of an instruction.
#[derive(Debug, Clone, Copy, PartialEq, Eq, Structural)]
pub enum RetireStatus {
    Retired,
    Flushed,
    InFlight,
}

/// Per-instruction data.
#[derive(Debug)]
pub struct InstructionData {
    pub id: u32,
    pub sim_id: u64,
    pub thread_id: u16,
    /// Retire buffer ID (slot in the retire queue). `None` if not yet allocated.
    pub rbid: Option<u32>,
    /// Issue queue ID. `None` if unknown.
    pub iq_id: Option<u32>,
    /// Dispatch queue ID. `None` if unknown.
    pub dq_id: Option<u32>,
    /// Cycle at which the instruction became ready in the issue queue. `None`
    /// if not yet ready.
    pub ready_cycle: Option<u32>,
    pub disasm: String,
    pub tooltip: String,
    /// Where its stages are in the list of all stages.
    pub stage_range: Range<u32>,
    pub retire_status: RetireStatus,
    pub first_cycle: u32,
    pub last_cycle: u32,
}

/// What an `InstructionData` holds.
#[verifier::ext_equal]
pub struct InstructionView {
    pub id: u32,
    pub sim_id: u64,
    pub thread_id: u16,
    pub rbid: Option<u32>,
    pub iq_id: Option<u32>,
    pub dq_id: Option<u32>,
    pub ready_cycle: Option<u32>,
    pub disasm: Seq<char>,
    pub tooltip: Seq<char>,
    pub stage_start: u32,
    pub stage_end: u32,
    pub retire_status: RetireStatus,
    pub first_cycle: u32,
    pub last_cycle: u32,
}

impl View for InstructionData {
    type V = InstructionView;

    open spec fn view(&self) -> InstructionView {
        InstructionView {
            id: self.id,
            sim_id: self.sim_id,
            thread_id: self.thread_id,
            rbid: self.rbid,
            iq_id: self.iq_id,
            dq_id: self.dq_id,
            ready_cycle: self.ready_cycle,
            disasm: self.disasm@,
            tooltip: self.tooltip@,
            stage_start: self.stage_range.start,
            stage_end: self.stage_range.end,
            retire_status: self.retire_status,
            first_cycle: self.first_cycle,
            last_cycle: self.last_cycle,
        }
    }
}

impl Clone for InstructionData {
    fn clone(&self) -> (r: InstructionData)
        ensures
            r@ == self@,
    {
        InstructionData {
            id: self.id,
            sim_id: self.sim_id,
            thread_id: self.thread_id,
            rbid: self.rbid,
            iq_id: self.iq_id,
            dq_id: self.dq_id,
            ready_cycle: self.ready_cycle,
            disasm: self.disasm.clone(),
            tooltip: self.tooltip.clone(),
            stage_range: self.stage_range.start..self.stage_range.end,
            retire_status: self.retire_status,
            first_cycle: self.first_cycle,
            last_cycle: self.last_cycle,
        }
    }
}

/// Display mode for a performance counter value.
#[derive(Clone, Copy, Debug, PartialEq, Eq, Structural)]
pub enum CounterDisplayMode {
    /// Raw cumulative value.
    Total,
    /// Delta / window_size (e.g., IPC).
    Rate,
    /// Single-cycle change.
    Delta,
}

/// A single performance counter time-series.
#[derive(Debug, Clone)]
pub struct CounterSeries {
    /// Display name (scope-qualified if multi-scope trace).
    pub name: String,
    /// Sparse counter samples: (cycle, cumulative_value) pairs.
    /// Sorted by cycle.
    pub samples: Vec<(u32, u64)>,
    /// Default display mode.
    pub default_mode: CounterDisplayMode,
}

/// What a `CounterSeries` holds.
#[verifier::ext_equal]
pub struct CounterSeriesView {
    pub name: Seq<char>,
    pub samples: Seq<(u32, u64)>,
    pub default_mode: CounterDisplayMode,
}

impl View for CounterSeries {
    type V = CounterSeriesView;

    open spec fn view(&self) -> CounterSeriesView {
        CounterSeriesView {
            name: self.name@,
            samples: self.samples@,
            default_mode: self.default_mode,
        }
    }
}

/// Lightweight index mapping segment indices to their cycle ranges.
#[derive(Debug, Clone)]
pub struct SegmentIndex {
    /// (start_cycle, end_cycle) per segment, ordered by segment index.
    pub segments: Vec<(u32, u32)>,
}

impl Default for SegmentIndex {
    fn default() -> (s: SegmentIndex)
        ensures
            s.segments@ == Seq::<(u32, u32)>::empty(),
    {
        let s = SegmentIndex { segments: Vec::new() };
        assert(s.segments@ =~= Seq::<(u32, u32)>::empty());
        s
    }
}

/// Whether a segment overlaps the cycles from `start` up to but not with
/// `end`.
pub open spec fn overlaps(segment: (u32, u32), start: u32, end: u32) -> bool {
    segment.0 < end && segment.1 > start
}

/// Those of the first `n` segments that overlap a range of cycles.
pub open spec fn overlapping(segments: Seq<(u32, u32)>, start: u32, end: u32, n: int) -> Seq<int>
    decreases n,
{
    if n <= 0 {
        Seq::empty()
    } else {
        let before = overlapping(segments, start, end, n - 1);
        if overlaps(segments[n - 1], start, end) {
            before.push(n - 1)
        } else {
            before
        }
    }
}

/// Exactly the segments that overlap a range are found, in their order.
pub proof fn law_overlapping(segments: Seq<(u32, u32)>, start: u32, end: u32, n: int)
    requires
        0 <= n <= segments.len(),
    ensures
        forall|i: int|
            0 <= i < n ==> (overlapping(segments, start, end, n).contains(i) <==> overlaps(
                #[trigger] segments[i],
                start,
                end,
            )),
        forall|k: int|
            0 <= k < overlapping(segments, start, end, n).len() ==> 0 <= #[trigger] overlapping(
                segments,
                start,
                end,
                n,
            )[k] < n,
        forall|j: int, k: int|
            0 <= j < k < overlapping(segments, start, end, n).len() ==> overlapping(
                segments,
                start,
                end,
                n,
            )[j] < overlapping(segments, start, end, n)[k],
    decreases n,
{
    if n > 0 {
        law_overlapping(segments, start, end, n - 1);
        let before = overlapping(segments, start, end, n - 1);
        let now = overlapping(segments, start, end, n);
        assert forall|i: int| 0 <= i < n implies (now.contains(i) <==> overlaps(
            #[trigger] segments[i],
            start,
            end,
        )) by {
            if i < n - 1 {
                if before.contains(i) {
                    let k = choose|k: int| 0 <= k < before.len() && before[k] == i;
                    assert(now[k] == i);
                }
                if now.contains(i) {
                    let k = choose|k: int| 0 <= k < now.len() && now[k] == i;
                    assert(before[k] == i);
                }
            } else if overlaps(segments[i], start, end) {
                assert(now[now.len() - 1] == i);
            } else if now.contains(i) {
                let k = choose|k: int| 0 <= k < now.len() && now[k] == i;
                assert(before[k] == i);
            }
        }
    }
}

/// Indices as mathematical integers.
pub open spec fn as_ints(v: Seq<usize>) -> Seq<int> {
    v.map_values(|i: usize| i as int)
}

impl SegmentIndex {
    /// Find segment indices that overlap the given cycle range.
    pub fn segments_in_range(&self, start_cycle: u32, end_cycle: u32) -> (r: Vec<usize>)
        ensures
            as_ints(r@) == overlapping(
                self.segments@,
                start_cycle,
                end_cycle,
                self.segments@.len() as int,
            ),
    {
        let mut r: Vec<usize> = Vec::new();
        let mut i: usize = 0;
        assert(as_ints(r@) =~= overlapping(self.segments@, start_cycle, end_cycle, 0));
        while i < self.segments.len()
            invariant
                i <= self.segments@.len(),
                as_ints(r@) == overlapping(self.segments@, start_cycle, end_cycle, i as int),
            decreases self.segments@.len() - i,
        {
            let (seg_start, seg_end) = self.segments[i];
            if seg_start < end_cycle && seg_end > start_cycle {
                let ghost before = as_ints(r@);
                r.push(i);
                assert(as_ints(r@) =~= before.push(i as int));
            }
            i = i + 1;
        }
        r
    }
}

/// File-level information about a trace.
#[derive(Debug, Clone)]
pub struct FileInfo {
    /// Format version string (e.g. "0.3").
    pub version: String,
    /// Number of segments in the trace.
    pub segment_count: usize,
    /// Total number of instructions (from TraceSummary, if available).
    pub total_instructions: u64,
    /// Total trace duration in cycles.
    pub max_cycle: u32,
    /// Clock period in picoseconds.
    pub period_ps: u64,
    /// Key-value metadata from the trace source (DUT properties, format info,
    /// etc.).
    pub metadata: Vec<(String, String)>,
}

/// Occupied buffer slot: (slot_index, buffer_field_values,
/// entity_field_name_value_pairs).
pub type BufferSlot = (u16, Vec<u64>, Vec<(String, u64)>);

/// What a `BufferSlot` holds.
#[verifier::ext_equal]
pub struct BufferSlotView {
    pub slot: u16,
    pub values: Seq<u64>,
    pub entity: Seq<(Seq<char>, u64)>,
}

/// Names and values.
pub open spec fn valued_texts(fields: Seq<(String, u64)>) -> Seq<(Seq<char>, u64)> {
    fields.map_values(|f: (String, u64)| (f.0@, f.1))
}

/// What some slots hold.
pub open spec fn slot_views(slots: Seq<BufferSlot>) -> Seq<BufferSlotView> {
    slots.map_values(
        |s: BufferSlot|
            BufferSlotView { slot: s.0, values: s.1@, entity: valued_texts(s.2@) },
    )
}

/// Property value with pointer-pair metadata.
#[derive(Debug, Clone)]
pub struct PropertyValue {
    pub name: String,
    pub value: u64,
    /// 0=plain, 1=HEAD_PTR, 2=TAIL_PTR.
    pub role: u8,
    pub pair_id: u8,
}

/// What a `PropertyValue` holds.
#[verifier::ext_equal]
pub struct PropertyValueView {
    pub name: Seq<char>,
    pub value: u64,
    pub role: u8,
    pub pair_id: u8,
}

impl View for PropertyValue {
    type V = PropertyValueView;

    open spec fn view(&self) -> PropertyValueView {
        PropertyValueView {
            name: self.name@,
            value: self.value,
            role: self.role,
            pair_id: self.pair_id,
        }
    }
}

/// Result of querying buffer state at a cycle.
#[derive(Debug, Clone)]
pub struct BufferState {
    pub slots: Vec<BufferSlot>,
    pub properties: Vec<PropertyValue>,
    pub capacity: u16,
}

/// What a `BufferState` holds.
#[verifier::ext_equal]
pub struct BufferStateView {
    pub slots: Seq<BufferSlotView>,
    pub properties: Seq<PropertyValueView>,
    pub capacity: u16,
}

impl View for BufferState {
    type V = BufferStateView;

    open spec fn view(&self) -> BufferStateView {
        BufferStateView {
            slots: slot_views(self.slots@),
            properties: self.properties@.map_values(|p: PropertyValue| p@),
            capacity: self.capacity,
        }
    }
}

/// A buffer of which nothing is known.
pub open spec fn empty_buffer() -> BufferStateView {
    BufferStateView { slots: Seq::empty(), properties: Seq::empty(), capacity: 0 }
}

impl Default for BufferState {
    fn default() -> (s: BufferState)
        ensures
            s@ == empty_buffer(),
    {
        let s = BufferState { slots: Vec::new(), properties: Vec::new(), capacity: 0 };
        assert(s@ =~= empty_buffer());
        s
    }
}

/// A segment overlaps a range just where some cycle lies in both, each from its
/// start up to but not with its end.
pub proof fn law_overlaps(segment: (u32, u32), start: u32, end: u32)
    requires
        segment.0 < segment.1,
        start < end,
    ensures
        overlaps(segment, start, end) <==> exists|c: u32|
            segment.0 <= c < segment.1 && #[trigger] lies_in(c, start, end),
{
    let c = if segment.0 >= start {
        segment.0
    } else {
        start
    };
    if overlaps(segment, start, end) {
        assert(lies_in(c, start, end));
    }
}

/// Whether a cycle lies between two, the second left out.
pub open spec fn lies_in(c: u32, start: u32, end: u32) -> bool {
    start <= c < end
}

} // verus!
