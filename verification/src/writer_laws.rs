//! What a writer is told is what a reader is given back, in the same order and
//! with the same times.

use vstd::prelude::*;
use crate::compress::longest_blob;
use crate::error::TraceError;
use crate::frame::{duration, frames_bytes, CycleFrameView, FrameItemView};
use crate::roundtrip::{lemma_after_items_len, trace_items};
use crate::schema::SchemaView;
use crate::state::{known_item, TimedItemView};
use crate::trace::Segment;
use crate::types::DutDescView;
use crate::writer::{fresh, lemma_replayed_push, WriterView};

verus! {

/// Everything that a writer has recorded so far, with its times. Operations on
/// storages that do not exist are left out.
pub open spec fn recorded(w: WriterView) -> Seq<TimedItemView> {
    trace_items(w.rec.segments, w.base.len() as int) + w.segment_items() + w.cycle_items()
}

/// Whether the times of a writer go together: its frames reach from the start
/// of the segment to the last cycle, and the current cycle is not earlier.
pub open spec fn timely(w: WriterView) -> bool {
    &&& w.start + duration(w.rec.frames) == w.last_time
    &&& w.last_time <= w.time
}

/// A writer starts with nothing.
pub proof fn law_nothing_recorded(dut: DutDescView, schema: SchemaView, interval: u64)
    ensures
        recorded(fresh(dut, schema, interval)) == Seq::<TimedItemView>::empty(),
        timely(fresh(dut, schema, interval)),
        fresh(dut, schema, interval).base.len() == schema.storages.len(),
{
    assert(recorded(fresh(dut, schema, interval)) =~= Seq::<TimedItemView>::empty());
}

/// An item is recorded behind all others, at the time of the cycle.
pub proof fn law_item_recorded(w: WriterView, item: FrameItemView)
    ensures
        recorded(w.with_item(item)) == if known_item(item.at(w.time), w.base.len() as int) {
            recorded(w).push(item.at(w.time))
        } else {
            recorded(w)
        },
        timely(w.with_item(item)) == timely(w),
{
    assert(w.items.push(item).drop_last() =~= w.items);
    assert(recorded(w.with_item(item)) =~= if known_item(item.at(w.time), w.base.len() as int) {
        recorded(w).push(item.at(w.time))
    } else {
        recorded(w)
    });
}

/// A string is no item.
pub proof fn law_string_recorded(w: WriterView, s: Seq<char>)
    ensures
        recorded(w.with_string(s)) == recorded(w),
        timely(w.with_string(s)) == timely(w),
{
}

/// A cycle that begins records nothing.
pub proof fn law_begin_recorded(w: WriterView, time: u64)
    requires
        timely(w),
        w.items.len() == 0,
        w.time <= time,
    ensures
        recorded(WriterView { time, in_cycle: true, ..w }) == recorded(w),
        timely(WriterView { time, in_cycle: true, ..w }),
{
}

/// A cycle that ends records nothing more, whether or not a segment ends with
/// it.
pub proof fn law_end_recorded(w: WriterView, blob: Seq<u8>)
    requires
        timely(w),
    ensures
        recorded(w.with_frame()) == recorded(w),
        timely(w.with_frame()),
        recorded(w.ended(blob)) == recorded(w),
        timely(w.ended(blob)),
        w.ended(blob).base.len() == w.base.len(),
{
    let n = w.base.len() as int;
    let f = w.with_frame();
    let none = Seq::<TimedItemView>::empty();
    lemma_replayed_push(w.rec.frames, w.frame(), w.start, n);
    let a = trace_items(w.rec.segments, n);
    assert(f.cycle_items() =~= none);
    assert(f.segment_items() == w.segment_items() + w.cycle_items());
    assert(recorded(f) =~= recorded(w));
    let e = w.ended(blob);
    lemma_after_items_len(f.base, f.layouts(), f.segment_items());
    assert(e.rec.segments.drop_last() =~= w.rec.segments);
    assert(e.rec.segments.last() == f.segment(blob));
    assert(e.rec.frames =~= Seq::<CycleFrameView>::empty());
    assert(e.segment_items() =~= none);
    assert(e.cycle_items() =~= none);
    assert(trace_items(e.rec.segments, n) == a + f.segment_items());
    assert(recorded(e) =~= recorded(w));
}

/// Frames whose longest compressed form fits in a segment never come out too
/// long: a cycle that ends, and a trace that is closed, then fails only for the
/// reasons that are known beforehand.
pub proof fn law_segment_owed(w: WriterView)
    requires
        longest_blob(frames_bytes(w.rec.frames).len() as int) <= u32::MAX,
    ensures
        !w.overfull(),
        w.flush_error() is None && w.strings_fit() ==> forall|e: TraceError|
            !#[trigger] w.fails_to_close(e),
{
}

/// Closing a writer between cycles leaves everything that was recorded in the
/// segments of the trace.
pub proof fn law_close_recorded(w: WriterView, blob: Seq<u8>)
    requires
        timely(w),
        w.items.len() == 0,
    ensures
        w.rec.frames.len() == 0 ==> trace_items(w.rec.segments, w.base.len() as int) == recorded(w),
        w.rec.frames.len() > 0 ==> trace_items(
            w.flushed_recording(blob).segments,
            w.base.len() as int,
        ) == recorded(w),
{
    let n = w.base.len() as int;
    let none = Seq::<TimedItemView>::empty();
    assert(w.cycle_items() =~= none);
    if w.rec.frames.len() == 0 {
        assert(w.segment_items() =~= none);
        assert(recorded(w) =~= trace_items(w.rec.segments, n));
    } else {
        let segments: Seq<Segment> = w.flushed_recording(blob).segments;
        assert(segments.drop_last() =~= w.rec.segments);
        assert(segments.last() == w.segment(blob));
        assert(recorded(w) =~= trace_items(segments, n));
    }
}

/// The first segment ends no sooner than one checkpoint interval after the
/// start, and each further one no sooner than one interval after the end of the
/// one before.
pub proof fn law_checkpoint_spacing(
    dut: DutDescView,
    schema: SchemaView,
    interval: u64,
    w: WriterView,
    blob: Seq<u8>,
)
    requires
        w.time + w.rec.interval <= u64::MAX,
    ensures
        fresh(dut, schema, interval).next_checkpoint == interval,
        fresh(dut, schema, interval).rec.interval == interval,
        w.ended(blob).next_checkpoint - w.time == w.rec.interval,
        w.ended(blob).rec.interval == w.rec.interval,
{
}

} // verus!
