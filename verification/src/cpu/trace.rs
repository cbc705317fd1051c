//! A CPU trace session.

use vstd::prelude::*;
use vstd::string::StringExecFns;
use crate::cpu::buffers::{buffer_at, buffer_state_at};
use crate::cpu::counters::{counter_downsample_minmax, counter_value_at, downsampled, value_at};
use crate::cpu::downsample::{downsample_mipmap, mipmap_downsampled};
use crate::cpu::load::{
    after_all, lemma_counter_on, loaded, opt_mnemonics, sample_seqs, Context, ContextRef,
    LoadedView, Loader, Loading, SegmentLoadResult,
};
use crate::cpu::resolve::{
    buffers_of, build_segment_index_from_file, cycle_of, detect_buffer_infos,
    detect_counter_storages, info_views, metadata_of, populate_metadata, protocol_of,
    resolve_cpu_protocol, segment_cycles, text_pairs, CpuProtocolIds, ProtocolView,
};
use crate::cpu::types::{
    empty_buffer, BufferInfo, BufferInfoView, BufferState, CounterDisplayMode, CounterSeries,
    CounterSeriesView, FileInfo, SegmentIndex,
};
use crate::density::law_known_at;
use crate::error::TraceError;
use crate::numerals::{decimal, texts_of, to_decimal};
use crate::reader::{opened, Reader, ReaderView};
use crate::schema::Schema;
use crate::state::{TimedItem, TimedItemView};
use crate::summarize::{counter_on, counter_views, counters_of, find_counter, CounterView};
use crate::summary::{SummaryView, TraceSummary};
use crate::types::DA_SLOT_ADD;
use crate::wire::views;

verus! {

/// Main entry point: a CPU trace session.
///
/// Wraps a `Reader` and resolved protocol IDs, providing high-level query
/// methods for counters, buffers, instructions, and metadata.
pub struct CpuTrace {
    reader: Reader,
    ids: CpuProtocolIds,
    segment_index: SegmentIndex,
    summary: Option<TraceSummary>,
    /// Mapping from pipeline_stage enum index to interned StageNameIdx.
    stage_name_indices: Vec<u16>,
    /// Counter storages: (storage_id, name).
    counter_storages: Vec<(u16, String)>,
    /// Buffer storages detected from the schema.
    buffer_infos: Vec<BufferInfo>,
    /// Key-value metadata from the trace source.
    metadata: Vec<(String, String)>,
    /// Clock period in picoseconds.
    period_ps: u64,
    /// Maximum cycle in the trace.
    max_cycle: u32,
    /// Sparse per-cycle counter samples (populated for small traces).
    counter_series: Vec<CounterSeries>,
}

/// What a `CpuTrace` holds.
#[verifier::ext_equal]
pub struct CpuTraceView {
    pub reader: ReaderView,
    pub ids: ProtocolView,
    pub segments: Seq<(u32, u32)>,
    pub summary: Option<SummaryView>,
    pub stages: Seq<u16>,
    pub counters: Seq<CounterView>,
    pub buffers: Seq<BufferInfoView>,
    pub metadata: Seq<(Seq<char>, Seq<char>)>,
    pub period_ps: u64,
    pub max_cycle: u32,
    pub series: Seq<CounterSeriesView>,
}

impl View for CpuTrace {
    type V = CpuTraceView;

    closed spec fn view(&self) -> CpuTraceView {
        CpuTraceView {
            reader: self.reader@,
            ids: self.ids@,
            segments: self.segment_index.segments@,
            summary: match self.summary {
                Some(s) => Some(s@),
                None => None,
            },
            stages: self.stage_name_indices@,
            counters: counter_views(self.counter_storages@),
            buffers: info_views(self.buffer_infos@),
            metadata: text_pairs(self.metadata@),
            period_ps: self.period_ps,
            max_cycle: self.max_cycle,
            series: views(self.counter_series@),
        }
    }
}

// ---------------------------------------------------------------------------
// Counter samples of small traces.

/// The largest last cycle of a small trace.
pub const SMALL_TRACE: u32 = 32_768;

/// What an item adds to the counters.
pub open spec fn after_growth(
    l: Loading,
    counters: Seq<CounterView>,
    period_ps: u64,
    item: TimedItemView,
) -> Loading {
    match item {
        TimedItemView::Op(op) => {
            let counter = counter_on(counters, op.storage_id);
            if op.action == DA_SLOT_ADD && counter is Some {
                l.grown(counter->Some_0, cycle_of(op.time_ps, period_ps), op.value)
            } else {
                l
            }
        },
        TimedItemView::Event(_) => l,
    }
}

/// What some items add to the counters.
pub open spec fn after_growths(
    l: Loading,
    counters: Seq<CounterView>,
    period_ps: u64,
    items: Seq<TimedItemView>,
) -> Loading
    decreases items.len(),
{
    if items.len() == 0 {
        l
    } else {
        after_growth(
            after_growths(l, counters, period_ps, items.drop_last()),
            counters,
            period_ps,
            items.last(),
        )
    }
}

/// What the first `n` segments add to the counters. A segment that cannot be
/// replayed is passed over.
pub open spec fn grown_by_segments(
    v: ReaderView,
    counters: Seq<CounterView>,
    period_ps: u64,
    n: int,
) -> Loading
    decreases n,
{
    if n <= 0 {
        Loading::empty(counters.len())
    } else {
        let before = grown_by_segments(v, counters, period_ps, n - 1);
        match v.replay_segment(v.table[n - 1].offset, None) {
            Ok(r) => after_growths(before, counters, period_ps, r.items),
            Err(_) => before,
        }
    }
}

/// Samples that reach to the end of the trace.
pub open spec fn until_end(samples: Seq<(u32, u64)>, value: u64, max_cycle: u32) -> Seq<
    (u32, u64),
> {
    let last = if samples.len() == 0 {
        0
    } else {
        samples.last().0
    };
    if last < max_cycle {
        samples.push((max_cycle, value))
    } else {
        samples
    }
}

/// The series of the counters of a trace: with samples where it is small.
pub open spec fn series_of(
    v: ReaderView,
    counters: Seq<CounterView>,
    period_ps: u64,
    max_cycle: u32,
) -> Seq<CounterSeriesView> {
    let l = grown_by_segments(v, counters, period_ps, v.table.len() as int);
    Seq::new(
        counters.len(),
        |c: int|
            CounterSeriesView {
                name: counters[c].name,
                samples: if max_cycle <= SMALL_TRACE {
                    until_end(l.samples[c], l.accum[c], max_cycle)
                } else {
                    Seq::empty()
                },
                default_mode: CounterDisplayMode::Total,
            },
    )
}

/// The numbers from 0 up to but not with `n`.
pub open spec fn numbers(n: nat) -> Seq<u16> {
    Seq::new(n, |i: int| i as u16)
}

/// What opening a CPU trace gives. `total_us` is its duration as text.
pub open spec fn trace_opened(data: Seq<u8>, file_name: Seq<char>, total_us: Seq<char>) -> Result<
    CpuTraceView,
    TraceError,
> {
    match opened(data) {
        Err(e) => Err(e),
        Ok(v) => match protocol_of(v) {
            Err(e) => Err(e),
            Ok(ids) => if ids.period_ps == 0 {
                Err(TraceError::ZeroPeriod)
            } else {
                match segment_cycles(data, v.table.len() as int, ids.period_ps) {
                    Err(e) => Err(e),
                    Ok(segments) => {
                        let counters = counters_of(v.schema, v.schema.storages.len() as int);
                        let max_cycle = cycle_of(v.header.total_time_ps, ids.period_ps);
                        Ok(
                            CpuTraceView {
                                reader: v,
                                ids,
                                segments,
                                summary: v.summary,
                                stages: numbers(ids.stage_names.len()),
                                counters,
                                buffers: buffers_of(
                                    v.schema,
                                    v.schema.storages.len() as int,
                                ),
                                metadata: metadata_of(v, file_name, ids, total_us),
                                period_ps: ids.period_ps,
                                max_cycle,
                                series: series_of(v, counters, ids.period_ps, max_cycle),
                            },
                        )
                    },
                }
            },
        },
    }
}

proof fn lemma_growth_wf(
    l: Loading,
    counters: Seq<CounterView>,
    period_ps: u64,
    item: TimedItemView,
)
    requires
        l.accum.len() == counters.len(),
        l.samples.len() == counters.len(),
    ensures
        after_growth(l, counters, period_ps, item).accum.len() == counters.len(),
        after_growth(l, counters, period_ps, item).samples.len() == counters.len(),
{
    if let TimedItemView::Op(op) = item {
        lemma_counter_on(counters, op.storage_id);
    }
}

/// Adds what some items add to the counters.
fn grow_by_items(
    l: &mut Loader,
    counters: &Vec<(u16, String)>,
    period_ps: u64,
    items: &Vec<TimedItem>,
)
    requires
        period_ps > 0,
        old(l)@.accum.len() == counters@.len(),
        old(l)@.samples.len() == counters@.len(),
    ensures
        final(l)@ == after_growths(
            old(l)@,
            counter_views(counters@),
            period_ps,
            views(items@),
        ),
        final(l)@.accum.len() == counters@.len(),
        final(l)@.samples.len() == counters@.len(),
{
    let ghost l0 = l@;
    let ghost cs = counter_views(counters@);
    let ghost all = views(items@);
    let mut i: usize = 0;
    assert(all.take(0) =~= Seq::<TimedItemView>::empty());
    while i < items.len()
        invariant
            i <= items@.len(),
            period_ps > 0,
            cs == counter_views(counters@),
            all == views(items@),
            l@ == after_growths(l0, cs, period_ps, all.take(i as int)),
            l@.accum.len() == counters@.len(),
            l@.samples.len() == counters@.len(),
            l0 == old(l)@,
        decreases items@.len() - i,
    {
        proof {
            assert(all.take(i + 1).drop_last() =~= all.take(i as int));
            assert(all.take(i + 1).last() == items@[i as int]@);
            lemma_growth_wf(l@, cs, period_ps, all[i as int]);
        }
        match &items[i] {
            TimedItem::Op(op) => {
                if op.action == DA_SLOT_ADD {
                    match find_counter(counters, op.storage_id) {
                        Some(c) => {
                            let cycle: u32 = #[verifier::truncate] ((op.time_ps
                                / period_ps) as u32);
                            l.grow(c, cycle, op.value);
                        },
                        None => {},
                    }
                }
            },
            TimedItem::Event(_) => {},
        }
        i = i + 1;
    }
    assert(all.take(i as int) =~= all);
}

/// Replays all segments to get the samples of the counters.
fn sample_counters(reader: &Reader, counters: &Vec<(u16, String)>, period_ps: u64) -> (l: Loader)
    requires
        period_ps > 0,
    ensures
        l@ == grown_by_segments(
            reader@,
            counter_views(counters@),
            period_ps,
            reader@.table.len() as int,
        ),
        l@.accum.len() == counters@.len(),
        l@.samples.len() == counters@.len(),
{
    let ghost cs = counter_views(counters@);
    let mut l = Loader::new(counters.len());
    let n: usize = reader.segment_count();
    let mut i: usize = 0;
    while i < n
        invariant
            i <= n,
            n == reader@.table.len(),
            period_ps > 0,
            cs == counter_views(counters@),
            l@ == grown_by_segments(reader@, cs, period_ps, i as int),
            l@.accum.len() == counters@.len(),
            l@.samples.len() == counters@.len(),
        decreases n - i,
    {
        match reader.segment_replay(i) {
            Ok((_storages, items)) => {
                grow_by_items(&mut l, counters, period_ps, &items);
            },
            Err(_) => {},
        }
        i = i + 1;
    }
    l
}

/// Makes the series of the counters.
fn make_series(
    reader: &Reader,
    counters: &Vec<(u16, String)>,
    period_ps: u64,
    max_cycle: u32,
) -> (series: Vec<CounterSeries>)
    requires
        period_ps > 0,
    ensures
        views(series@) == series_of(reader@, counter_views(counters@), period_ps, max_cycle),
{
    let ghost cs = counter_views(counters@);
    let ghost want = series_of(reader@, cs, period_ps, max_cycle);
    let small: bool = max_cycle <= SMALL_TRACE && counters.len() != 0;
    let mut l = if small {
        sample_counters(reader, counters, period_ps)
    } else {
        Loader::new(counters.len())
    };
    let ghost grown = grown_by_segments(reader@, cs, period_ps, reader@.table.len() as int);
    let ghost first = l@;
    assert forall|k: int| 0 <= k < counters@.len() implies (#[trigger] l.samples@[k])@
        == first.samples[k] by {
        assert(first.samples[k] == sample_seqs(l.samples@)[k]);
    }
    let mut series: Vec<CounterSeries> = Vec::new();
    let mut c: usize = 0;
    while c < counters.len()
        invariant
            c <= counters@.len(),
            cs == counter_views(counters@),
            want == series_of(reader@, cs, period_ps, max_cycle),
            grown == grown_by_segments(reader@, cs, period_ps, reader@.table.len() as int),
            small == (max_cycle <= SMALL_TRACE && counters@.len() != 0),
            small ==> first == grown,
            first.accum.len() == counters@.len(),
            first.samples.len() == counters@.len(),
            l.accum@ == first.accum,
            l.samples@.len() == counters@.len(),
            !small ==> first == Loading::empty(counters@.len()),
            forall|k: int|
                c <= k < counters@.len() ==> (#[trigger] l.samples@[k])@ == first.samples[k],
            views(series@) == want.take(c as int),
        decreases counters@.len() - c,
    {
        let mut samples: Vec<(u32, u64)> = Vec::new();
        std::mem::swap(&mut samples, &mut l.samples[c]);
        if small {
            let last: u32 = if samples.len() == 0 {
                0
            } else {
                samples[samples.len() - 1].0
            };
            if last < max_cycle {
                samples.push((max_cycle, l.accum[c]));
            }
        } else {
            assert(samples@ =~= Seq::<(u32, u64)>::empty());
        }
        let s = CounterSeries {
            name: counters[c].1.clone(),
            samples,
            default_mode: CounterDisplayMode::Total,
        };
        assert(s@ =~= want[c as int]);
        let ghost before = views(series@);
        series.push(s);
        assert(views(series@) =~= before.push(s@));
        c = c + 1;
        assert(views(series@) =~= want.take(c as int));
    }
    assert(want.take(c as int) =~= want);
    series
}

fn number_stages(n: usize) -> (r: Vec<u16>)
    ensures
        r@ == numbers(n as nat),
{
    let mut r: Vec<u16> = Vec::new();
    let mut i: usize = 0;
    while i < n
        invariant
            i <= n,
            r@ == numbers(i as nat),
        decreases n - i,
    {
        r.push(#[verifier::truncate] (i as u16));
        i = i + 1;
        assert(r@ =~= numbers(i as nat));
    }
    r
}

// ---------------------------------------------------------------------------
// Loading segments.

impl CpuTraceView {
    /// What items are read by.
    pub open spec fn context(self) -> Context {
        Context {
            ids: self.ids,
            counters: self.counters,
            stages: self.stages,
            strings: self.reader.strings,
            period_ps: self.period_ps,
        }
    }

    /// What the first `n` of the given segments hold.
    pub open spec fn loading(self, segments: Seq<usize>, n: int) -> Result<Loading, TraceError>
        decreases n,
    {
        if n <= 0 {
            Ok(Loading::empty(self.counters.len()))
        } else {
            match self.loading(segments, n - 1) {
                Err(e) => Err(e),
                Ok(l) => if segments[n - 1] >= self.reader.table.len() {
                    Err(TraceError::SegmentOutOfRange)
                } else {
                    match self.reader.replay_segment(
                        self.reader.table[segments[n - 1] as int].offset,
                        None,
                    ) {
                        Err(e) => Err(e),
                        Ok(r) => after_all(l, self.context(), r.items),
                    }
                },
            }
        }
    }

    /// The instructions of the given segments.
    pub open spec fn loaded(
        self,
        segments: Seq<usize>,
        mnemonics: Option<Seq<(u32, Seq<char>)>>,
    ) -> Result<LoadedView, TraceError> {
        match self.loading(segments, segments.len() as int) {
            Err(e) => Err(e),
            Ok(l) => Ok(loaded(l, mnemonics, self.period_ps)),
        }
    }

    /// Whether the value of a counter at a cycle can be looked up. By samples,
    /// it always can.
    pub open spec fn known_at(self, counter: int, cycle: u32) -> bool {
        !self.sampled(counter) ==> (self.summary matches Some(s) ==> s.known_at(counter, cycle))
    }

    /// Whether the values of all counters at a cycle can be looked up.
    pub open spec fn all_known_at(self, cycle: u32) -> bool {
        forall|c: int| 0 <= c < self.counters.len() ==> #[trigger] self.known_at(c, cycle)
    }

    /// Whether a counter can be looked up at any cycle.
    pub open spec fn counter_readable(self, counter: int) -> bool {
        !self.sampled(counter) ==> (self.summary matches Some(s) ==> s.counter_readable(counter))
    }

    /// Whether every counter can be looked up at any cycle.
    pub open spec fn readable(self) -> bool {
        forall|c: int| 0 <= c < self.counters.len() ==> #[trigger] self.counter_readable(c)
    }

    /// Whether the envelope of a counter in `n` buckets can be taken from its
    /// mipmap, where it is: the mipmap has a level, and its buckets have a
    /// width on every level.
    pub open spec fn envelope_known(self, counter: int, start: u32, end: u32, n: int) -> bool {
        !self.sampled(counter) && n > 0 && start < end ==> (self.summary matches Some(s)
            ==> counter < s.counters.len() ==> {
            &&& s.base_interval_cycles > 0
            &&& s.counters[counter].levels.len() > 0
            &&& s.counters[counter].levels.len() > 1 ==> s.fan_out > 0
        })
    }

    /// Whether a counter has samples.
    pub open spec fn sampled(self, counter: int) -> bool {
        counter < self.series.len() && self.series[counter].samples.len() > 0
    }

    /// The value of a counter at a cycle: by its samples where it has any,
    /// else by the summary.
    pub open spec fn counter_value(self, counter: int, cycle: u32) -> u64 {
        if self.sampled(counter) {
            value_at(self.series[counter].samples, cycle)
        } else {
            match self.summary {
                Some(s) => s.counter_at(counter, cycle) as u64,
                None => 0,
            }
        }
    }

    /// By how much a counter grew over a window that ends at a cycle, modulo
    /// 2^64, and how long the window is: it does not start before cycle 0.
    pub open spec fn counter_window(self, counter: int, cycle: u32, window: u32) -> (u64, u32) {
        let start = if cycle >= window {
            (cycle - window) as u32
        } else {
            0
        };
        (
            self.counter_value(counter, cycle).wrapping_sub(self.counter_value(counter, start)),
            (cycle - start) as u32,
        )
    }

    /// By how much a counter grew in a cycle, modulo 2^64.
    pub open spec fn counter_delta(self, counter: int, cycle: u32) -> u64 {
        self.counter_value(counter, cycle).wrapping_sub(
            if cycle > 0 {
                self.counter_value(counter, (cycle - 1) as u32)
            } else {
                0
            },
        )
    }

    /// The envelope of a counter in `n` buckets: by its samples where it has
    /// any, else by the summary.
    pub open spec fn counter_envelope(self, counter: int, start: u32, end: u32, n: int) -> Seq<
        (u64, u64),
    > {
        if n <= 0 || start >= end {
            Seq::empty()
        } else if self.sampled(counter) {
            downsampled(self.series[counter].samples, start, end, n)
        } else {
            match self.summary {
                Some(s) => if counter < s.counters.len() {
                    mipmap_downsampled(
                        s.counters[counter].levels,
                        s.base_interval_cycles as int,
                        s.fan_out as int,
                        start,
                        end,
                        n,
                    )
                } else {
                    Seq::new(n as nat, |b: int| (0u64, 0u64))
                },
                None => Seq::new(n as nat, |b: int| (0u64, 0u64)),
            }
        }
    }

    /// A trace whose counters can be looked up at any cycle knows them all at
    /// each.
    pub proof fn law_readable(self, cycle: u32)
        requires
            self.readable(),
        ensures
            self.all_known_at(cycle),
    {
        assert forall|c: int| 0 <= c < self.counters.len() implies #[trigger] self.known_at(
            c,
            cycle,
        ) by {
            assert(self.counter_readable(c));
            if let Some(s) = self.summary {
                if !self.sampled(c) {
                    law_known_at(s, c, cycle);
                }
            }
        }
    }

    proof fn lemma_loading_err(self, segments: Seq<usize>, i: int, n: int)
        requires
            i <= n,
            self.loading(segments, i) is Err,
        ensures
            self.loading(segments, n) == self.loading(segments, i),
        decreases n - i,
    {
        if i < n {
            self.lemma_loading_err(segments, i, n - 1);
        }
    }
}

/// Copies of some pairs of texts.
fn copy_pairs(pairs: &Vec<(String, String)>) -> (r: Vec<(String, String)>)
    ensures
        text_pairs(r@) == text_pairs(pairs@),
{
    let mut r: Vec<(String, String)> = Vec::new();
    let mut i: usize = 0;
    while i < pairs.len()
        invariant
            i <= pairs@.len(),
            text_pairs(r@) == text_pairs(pairs@).take(i as int),
        decreases pairs@.len() - i,
    {
        let p = (pairs[i].0.clone(), pairs[i].1.clone());
        let ghost before = text_pairs(r@);
        r.push(p);
        assert(text_pairs(r@) =~= before.push((p.0@, p.1@)));
        i = i + 1;
        assert(text_pairs(r@) =~= text_pairs(pairs@).take(i as int));
    }
    assert(text_pairs(r@) =~= text_pairs(pairs@));
    r
}

impl CpuTrace {
    /// The clock period is usable.
    pub closed spec fn wf(&self) -> bool {
        0 < self.period_ps <= u32::MAX
    }

    /// Open a trace and resolve the CPU protocol. `file_name` is the name and
    /// `total_us` the duration, in microseconds, that its metadata show.
    ///
    /// Reads metadata, schema, segment index, and optionally the embedded
    /// TraceSummary. Does not replay any segments, except to get the counter
    /// samples of a small trace.
    pub fn open(image: Vec<u8>, file_name: &str, total_us: &str) -> (res: Result<
        CpuTrace,
        TraceError,
    >)
        ensures
            match trace_opened(image@, file_name@, total_us@) {
                Ok(t) => res is Ok && res->Ok_0@ == t && res->Ok_0.wf(),
                Err(e) => res == Err::<CpuTrace, TraceError>(e),
            },
    {
        let reader = match Reader::open(image) {
            Err(e) => return Err(e),
            Ok(r) => r,
        };
        assert(reader@.data == image@);
        let ids = match resolve_cpu_protocol(&reader) {
            Err(e) => return Err(e),
            Ok(ids) => ids,
        };
        let period_ps: u64 = ids.period_ps;
        if period_ps == 0 {
            return Err(TraceError::ZeroPeriod);
        }
        let segment_index = match build_segment_index_from_file(
            reader.image(),
            &reader,
            period_ps,
        ) {
            Err(e) => return Err(e),
            Ok(s) => s,
        };
        let stage_name_indices = number_stages(ids.stage_names.len());
        let counter_storages = detect_counter_storages(&reader);
        let buffer_infos = detect_buffer_infos(&reader);
        let summary: Option<TraceSummary> = match reader.trace_summary() {
            Some(s) => Some(s.clone()),
            None => None,
        };
        let metadata = populate_metadata(&reader, file_name, &ids, total_us);
        let max_cycle: u32 = #[verifier::truncate] ((reader.header().total_time_ps
            / period_ps) as u32);
        let counter_series = make_series(&reader, &counter_storages, period_ps, max_cycle);
        let t = CpuTrace {
            reader,
            ids,
            segment_index,
            summary,
            stage_name_indices,
            counter_storages,
            buffer_infos,
            metadata,
            period_ps,
            max_cycle,
            counter_series,
        };
        assert(t@ =~= trace_opened(image@, file_name@, total_us@)->Ok_0);
        Ok(t)
    }

    /// File-level information about the trace.
    pub fn file_info(&self) -> (f: FileInfo)
        ensures
            f.version@ == decimal(self@.reader.header.version_major as nat) + "."@ + decimal(
                self@.reader.header.version_minor as nat,
            ),
            f.segment_count == self@.reader.table.len(),
            f.total_instructions == match self@.summary {
                Some(s) => s.total_instructions,
                None => 0,
            },
            f.max_cycle == self@.max_cycle,
            f.period_ps == self@.period_ps,
            text_pairs(f.metadata@) == self@.metadata,
    {
        let header = self.reader.header();
        let mut version: String = to_decimal(header.version_major as u64);
        version.append(".");
        version.append(to_decimal(header.version_minor as u64).as_str());
        FileInfo {
            version,
            segment_count: self.reader.segment_count(),
            total_instructions: match &self.summary {
                Some(s) => s.total_instructions,
                None => 0,
            },
            max_cycle: self.max_cycle,
            period_ps: self.period_ps,
            metadata: copy_pairs(&self.metadata),
        }
    }

    /// The schema of the trace.
    pub fn schema(&self) -> (s: &Schema)
        ensures
            s@ == self@.reader.schema,
    {
        self.reader.schema()
    }

    /// Maximum cycle in the trace.
    pub fn max_cycle(&self) -> (c: u32)
        ensures
            c == self@.max_cycle,
    {
        self.max_cycle
    }

    /// Clock period in picoseconds.
    pub fn period_ps(&self) -> (p: u64)
        ensures
            p == self@.period_ps,
    {
        self.period_ps
    }

    /// Counter names with storage IDs.
    pub fn counter_names(&self) -> (c: &[(u16, String)])
        ensures
            counter_views(c@) == self@.counters,
    {
        self.counter_storages.as_slice()
    }

    /// Buffer storages detected from the schema.
    pub fn buffer_infos(&self) -> (b: &[BufferInfo])
        ensures
            info_views(b@) == self@.buffers,
    {
        self.buffer_infos.as_slice()
    }

    /// Key-value metadata from the trace source.
    pub fn metadata(&self) -> (m: &[(String, String)])
        ensures
            text_pairs(m@) == self@.metadata,
    {
        self.metadata.as_slice()
    }

    /// Number of segments in the trace.
    pub fn segment_count(&self) -> (n: usize)
        ensures
            n == self@.reader.table.len(),
    {
        self.reader.segment_count()
    }

    /// The segment index (cycle ranges per segment).
    pub fn segment_index(&self) -> (s: &SegmentIndex)
        ensures
            s.segments@ == self@.segments,
    {
        &self.segment_index
    }

    /// The embedded TraceSummary (mipmap data), if available.
    pub fn trace_summary(&self) -> (s: Option<&TraceSummary>)
        ensures
            match self@.summary {
                Some(v) => s is Some && s->Some_0@ == v,
                None => s is None,
            },
    {
        self.summary.as_ref()
    }

    /// Pipeline stage names.
    pub fn stage_names(&self) -> (n: &[String])
        ensures
            texts_of(n@) == self@.ids.stage_names,
    {
        self.ids.stage_names.as_slice()
    }

    /// Stage name indices mapping (enum index -> StageNameIdx).
    pub fn stage_name_indices(&self) -> (n: &[u16])
        ensures
            n@ == self@.stages,
    {
        self.stage_name_indices.as_slice()
    }

    /// Entities storage ID.
    pub fn entities_storage_id(&self) -> (id: u16)
        ensures
            id == self@.ids.entities_storage_id,
    {
        self.ids.entities_storage_id
    }

    /// Borrow the underlying reader.
    pub fn reader(&self) -> (r: &Reader)
        ensures
            r@ == self@.reader,
    {
        &self.reader
    }

    /// Mutably borrow the underlying reader.
    pub fn reader_mut(&mut self) -> (r: &mut Reader)
        requires
            old(self).wf(),
        ensures
            r@ == old(self)@.reader,
            final(self)@ == (CpuTraceView { reader: final(r)@, ..old(self)@ }),
            final(self).wf(),
    {
        &mut self.reader
    }

    /// Borrow the resolved protocol IDs.
    pub fn protocol_ids(&self) -> (ids: &CpuProtocolIds)
        ensures
            ids@ == self@.ids,
    {
        &self.ids
    }

    /// Sparse counter series (populated for small traces).
    pub fn counter_series(&self) -> (s: &[CounterSeries])
        ensures
            views(s@) == self@.series,
    {
        self.counter_series.as_slice()
    }

    /// Mutable access to counter series (for merging loaded segment data).
    pub fn counter_series_mut(&mut self) -> (s: &mut Vec<CounterSeries>)
        requires
            old(self).wf(),
        ensures
            views(s@) == old(self)@.series,
            final(self)@ == (CpuTraceView { series: views(final(s)@), ..old(self)@ }),
            final(self).wf(),
    {
        &mut self.counter_series
    }

    /// Whether every counter can be looked up at any cycle.
    pub fn is_readable(&self) -> (b: bool)
        ensures
            b == self@.readable(),
    {
        let n: usize = self.counter_storages.len();
        let mut c: usize = 0;
        while c < n
            invariant
                c <= n,
                n == self@.counters.len(),
                forall|k: int| 0 <= k < c ==> #[trigger] self@.counter_readable(k),
            decreases n - c,
        {
            let sampled: bool = c < self.counter_series.len() && self.counter_series[c].samples.len()
                != 0;
            proof {
                if c < self.counter_series@.len() {
                    assert(self@.series[c as int] == self.counter_series@[c as int]@);
                }
                assert(sampled == self@.sampled(c as int));
            }
            if !sampled {
                let ok: bool = match &self.summary {
                    Some(s) => s.is_counter_readable(c),
                    None => true,
                };
                if !ok {
                    assert(!self@.counter_readable(c as int));
                    return false;
                }
            }
            c = c + 1;
        }
        true
    }

    /// Get cumulative counter value at a cycle.
    /// Uses per-cycle samples when available, otherwise mipmap.
    pub fn counter_value_at(&self, counter_idx: usize, cycle: u32) -> (v: u64)
        requires
            self@.known_at(counter_idx as int, cycle),
        ensures
            v == self@.counter_value(counter_idx as int, cycle),
    {
        if counter_idx < self.counter_series.len() {
            let series = &self.counter_series[counter_idx];
            assert(self@.series[counter_idx as int] == series@);
            if series.samples.len() != 0 {
                return counter_value_at(series, cycle);
            }
        }
        match &self.summary {
            Some(summary) => summary.counter_value_at(counter_idx, cycle),
            None => 0,
        }
    }

    /// Growth and length of a window that ends at the given cycle. The rate
    /// of the counter is their quotient.
    pub fn counter_window_at(&self, counter_idx: usize, cycle: u32, window: u32) -> (r: (u64, u32))
        requires
            self@.known_at(counter_idx as int, cycle),
            self@.known_at(
                counter_idx as int,
                if cycle >= window {
                    (cycle - window) as u32
                } else {
                    0
                },
            ),
        ensures
            r == self@.counter_window(counter_idx as int, cycle, window),
    {
        let start: u32 = if cycle >= window {
            cycle - window
        } else {
            0
        };
        let end_val: u64 = self.counter_value_at(counter_idx, cycle);
        let start_val: u64 = self.counter_value_at(counter_idx, start);
        (end_val.wrapping_sub(start_val), cycle - start)
    }

    /// Get counter delta at a cycle.
    pub fn counter_delta_at(&self, counter_idx: usize, cycle: u32) -> (d: u64)
        requires
            self@.known_at(counter_idx as int, cycle),
            cycle > 0 ==> self@.known_at(counter_idx as int, (cycle - 1) as u32),
        ensures
            d == self@.counter_delta(counter_idx as int, cycle),
    {
        let curr: u64 = self.counter_value_at(counter_idx, cycle);
        let prev: u64 = if cycle > 0 {
            self.counter_value_at(counter_idx, cycle - 1)
        } else {
            0
        };
        curr.wrapping_sub(prev)
    }

    /// Fast counter downsampling using sparse samples or mipmap. The mipmap
    /// gives the mean of what its entries add up to, weighted by how much of
    /// a bucket they cover, rather than their extremes.
    pub fn counter_downsample(
        &self,
        counter_idx: usize,
        start_cycle: u32,
        end_cycle: u32,
        bucket_count: usize,
    ) -> (r: Vec<(u64, u64)>)
        requires
            self@.envelope_known(
                counter_idx as int,
                start_cycle,
                end_cycle,
                bucket_count as int,
            ),
        ensures
            r@ == self@.counter_envelope(
                counter_idx as int,
                start_cycle,
                end_cycle,
                bucket_count as int,
            ),
    {
        let mut r: Vec<(u64, u64)> = Vec::new();
        if bucket_count == 0 || start_cycle >= end_cycle {
            assert(r@ =~= Seq::<(u64, u64)>::empty());
            return r;
        }
        if counter_idx < self.counter_series.len() {
            let series = &self.counter_series[counter_idx];
            assert(self@.series[counter_idx as int] == series@);
            if series.samples.len() != 0 {
                return counter_downsample_minmax(series, start_cycle, end_cycle, bucket_count);
            }
        }
        match &self.summary {
            Some(summary) => {
                if counter_idx < summary.counters.len() {
                    let mipmap = &summary.counters[counter_idx];
                    assert(summary@.counters[counter_idx as int] == mipmap@);
                    return downsample_mipmap(
                        mipmap,
                        summary.base_interval_cycles,
                        summary.fan_out,
                        start_cycle,
                        end_cycle,
                        bucket_count,
                    );
                }
            },
            None => {},
        }
        let mut b: usize = 0;
        while b < bucket_count
            invariant
                b <= bucket_count,
                r@ == Seq::new(b as nat, |i: int| (0u64, 0u64)),
            decreases bucket_count - b,
        {
            r.push((0, 0));
            b = b + 1;
            assert(r@ =~= Seq::new(b as nat, |i: int| (0u64, 0u64)));
        }
        r
    }

    /// Query buffer storage state at a given cycle: empty where there is no
    /// such buffer.
    pub fn buffer_state_at(&self, buffer_idx: usize, cycle: u32) -> (s: BufferState)
        requires
            self.wf(),
        ensures
            s@ == if buffer_idx < self@.buffers.len() {
                buffer_at(
                    self@.reader,
                    self@.buffers[buffer_idx as int],
                    self@.ids.entities_storage_id,
                    (cycle * self@.period_ps) as u64,
                )
            } else {
                empty_buffer()
            },
    {
        if buffer_idx >= self.buffer_infos.len() {
            return BufferState::default();
        }
        let buffer = &self.buffer_infos[buffer_idx];
        assert(self@.buffers[buffer_idx as int] == buffer@);
        proof {
            let p = self.period_ps;
            assert(0 <= cycle * p <= 0xFFFF_FFFF * 0xFFFF_FFFF) by (nonlinear_arith)
                requires
                    0 < p <= 0xFFFF_FFFF,
                    cycle <= 0xFFFF_FFFF,
            ;
        }
        buffer_state_at(
            &self.reader,
            buffer,
            self.ids.entities_storage_id,
            self.period_ps,
            cycle,
        )
    }

    /// Replays the given segments.
    fn replay_segments(&self, segment_indices: &[usize]) -> (res: Result<Loader, TraceError>)
        requires
            self.wf(),
        ensures
            match self@.loading(segment_indices@, segment_indices@.len() as int) {
                Ok(l) => {
                    &&& res is Ok
                    &&& res->Ok_0@ == l
                    &&& l.kept.len() == l.instrs.len()
                },
                Err(e) => res == Err::<Loader, TraceError>(e),
            },
    {
        let ctx = ContextRef {
            ids: &self.ids,
            counters: &self.counter_storages,
            stages: &self.stage_name_indices,
            strings: self.reader.string_table(),
            period_ps: self.period_ps,
        };
        assert(ctx@ =~= self@.context());
        let mut l = Loader::new(self.counter_storages.len());
        let ghost n = segment_indices@.len() as int;
        let mut i: usize = 0;
        while i < segment_indices.len()
            invariant
                i <= segment_indices@.len(),
                n == segment_indices@.len(),
                self.wf(),
                ctx@ == self@.context(),
                ctx.period_ps == self.period_ps,
                l@.wf(ctx@.counters.len()),
                self@.loading(segment_indices@, i as int) == Ok::<Loading, TraceError>(l@),
            decreases segment_indices@.len() - i,
        {
            proof {
                if self@.loading(segment_indices@, i + 1) is Err {
                    self@.lemma_loading_err(segment_indices@, i + 1, n);
                }
            }
            let items = match self.reader.segment_replay(segment_indices[i]) {
                Err(e) => return Err(e),
                Ok((_storages, items)) => items,
            };
            match l.apply_items(&ctx, &items) {
                Err(e) => return Err(e),
                Ok(()) => {},
            }
            i = i + 1;
        }
        Ok(l)
    }

    /// Load instructions from specific segments.
    ///
    /// Replays only the given segment indices and returns the resulting
    /// instructions, stages, and dependencies. The caller is responsible for
    /// merging these into their own data structures.
    pub fn load_segments(&self, segment_indices: &[usize]) -> (res: Result<
        SegmentLoadResult,
        TraceError,
    >)
        requires
            self.wf(),
        ensures
            match self@.loaded(segment_indices@, None) {
                Ok(r) => res is Ok && res->Ok_0@ == r,
                Err(e) => res == Err::<SegmentLoadResult, TraceError>(e),
            },
    {
        match self.replay_segments(segment_indices) {
            Err(e) => Err(e),
            Ok(l) => Ok(l.finish(None, self.period_ps)),
        }
    }

    /// Load instructions from specific segments, with the mnemonics that a
    /// decoder gave for instruction words. A word without a mnemonic shows in
    /// hexadecimal.
    pub fn load_segments_decoded(
        &self,
        segment_indices: &[usize],
        mnemonics: &Vec<(u32, String)>,
    ) -> (res: Result<SegmentLoadResult, TraceError>)
        requires
            self.wf(),
        ensures
            match self@.loaded(segment_indices@, opt_mnemonics(Some(mnemonics))) {
                Ok(r) => res is Ok && res->Ok_0@ == r,
                Err(e) => res == Err::<SegmentLoadResult, TraceError>(e),
            },
    {
        match self.replay_segments(segment_indices) {
            Err(e) => Err(e),
            Ok(l) => Ok(l.finish(Some(mnemonics), self.period_ps)),
        }
    }
}

/// A window of a counter that ends at a cycle is as long as was asked for, or
/// as long as there are cycles before it; what the counter has at its start and
/// what it grew by make what it has at the cycle, modulo 2^64.
pub proof fn law_counter_window(t: CpuTraceView, counter: int, cycle: u32, window: u32)
    ensures
        ({
            let (growth, length) = t.counter_window(counter, cycle, window);
            &&& length <= window && length <= cycle
            &&& length == window || length == cycle
            &&& (t.counter_value(counter, (cycle - length) as u32) + growth)
                % 0x1_0000_0000_0000_0000 == t.counter_value(counter, cycle)
        }),
{
}

/// What a counter has in the cycle before and what it grew by in a cycle make
/// what it has in the cycle, modulo 2^64; before cycle 0 it has nothing.
pub proof fn law_counter_delta(t: CpuTraceView, counter: int, cycle: u32)
    ensures
        cycle == 0 ==> t.counter_delta(counter, cycle) == t.counter_value(counter, cycle),
        cycle > 0 ==> (t.counter_value(counter, (cycle - 1) as u32) + t.counter_delta(
            counter,
            cycle,
        )) % 0x1_0000_0000_0000_0000 == t.counter_value(counter, cycle),
{
}

/// The counters of a large trace have no samples, so their values are those of
/// its summary, where it has one.
pub proof fn law_large_trace(t: CpuTraceView, counter: int, cycle: u32)
    requires
        t.series == series_of(t.reader, t.counters, t.period_ps, t.max_cycle),
        t.max_cycle > 32_768,
        0 <= counter < t.counters.len(),
    ensures
        !t.sampled(counter),
        t.summary is None ==> t.counter_value(counter, cycle) == 0,
        t.summary matches Some(s) ==> t.counter_value(counter, cycle) == s.counter_at(
            counter,
            cycle,
        ) as u64,
{
}

/// An envelope has as many buckets as were asked for: none where there is no
/// range.
pub proof fn law_envelope_len(t: CpuTraceView, counter: int, start: u32, end: u32, n: int)
    requires
        0 <= n,
    ensures
        start < end ==> t.counter_envelope(counter, start, end, n).len() == n,
        start >= end ==> t.counter_envelope(counter, start, end, n).len() == 0,
{
}

} // verus!
