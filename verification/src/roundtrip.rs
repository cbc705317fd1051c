//! What a reader makes of what a writer wrote.

use vstd::prelude::*;
use vstd::utf8::{encode_utf8, encode_utf8_decode_utf8, encode_utf8_valid_utf8};
use crate::bytes::suffix;
use crate::checkpoint::{as_restored, law_checkpoint_roundtrip, same_shape, Layout, StorageView};
use crate::error::TraceError;
use crate::frame::{
    duration, law_frames_roundtrip, lemma_duration_front, replayed, timed_items, CycleFrameView,
    FrameItemView,
};
use crate::reader::{
    events_of, events_within, first_reaching, indexed_strings, no_sections, opened,
    parse_checkpoints, parse_preamble, parse_sections, parse_strings, sections_of, with_chunk,
    with_sections, Preamble, ReaderView, Replay, Sections,
};
use crate::schema::{law_schema_roundtrip, SchemaView};
use crate::segment::{
    chain_entries, chain_until, law_segment_for_time, segment_for_time, segment_table,
    starts_sorted,
};
use crate::text::lossy_text;
use crate::state::{
    after_items, all_wf, item_fits, items_fit, lemma_after_items_join, lemma_after_items_shape,
    same_shapes, TimedEventView, TimedItemView,
};
use crate::storage_laws::{
    agree, all_agree, all_apart, all_zero_invalid, law_after_items_agree,
    law_after_items_zero_invalid, law_initial_zero_invalid, law_layout_apart, law_restored_agree,
    regular,
};
use crate::trace::{
    checkpoints, chunk, end_section, initial_states, layouts_of, preamble, segment_index,
    segment_offset, segments_bytes, segments_ok, states_after, string_data, string_indices,
    string_table_bytes, tail_offset, time_after, Recording, Segment, MAX_IMAGE,
};
use crate::types::{
    pad8, zeros, CheckpointBlock, DutDesc, DutDescView, FileHeader, PreambleChunk,
    PreambleChunkView, SectionEntry, SegmentHeader, SegmentIndexEntry, StorageDefView, StringIndex,
    StringTableHeader, TraceConfig, CHUNK_DUT_DESC, CHUNK_END, CHUNK_SCHEMA, CHUNK_TRACE_CONFIG,
    F_COMPACT_DELTAS, F_COMPLETE, F_COMPRESSED, F_HAS_STRINGS, F_INTERLEAVED_DELTAS, MAGIC,
    SECTION_END,
};
use crate::wire::{
    encode_all, law_all_roundtrip, lemma_join_assoc, lemma_suffix_join, lemma_suffix_suffix, Wire,
};
use crate::writer::{all_allocatable, lemma_items_fit_shape, lemma_sections_bound, WriterView};

verus! {

broadcast use crate::bytes::group_le_len;

// ---------------------------------------------------------------------------
// Preamble.

proof fn lemma_chunk(p: Preamble, chunk_type: u16, payload: Seq<u8>, rest: Seq<u8>)
    requires
        payload.len() <= u32::MAX,
        chunk_type != CHUNK_END,
    ensures
        parse_preamble(chunk(chunk_type, payload) + rest, p) == match with_chunk(
            p,
            PreambleChunkView { chunk_type, flags: 0, payload },
        ) {
            Err(e) => Err(e),
            Ok(q) => parse_preamble(rest, q),
        },
{
    let c = PreambleChunkView { chunk_type, flags: 0, payload };
    PreambleChunk::law_roundtrip(c, rest);
    lemma_suffix_join(PreambleChunk::encode(c), rest);
}

/// The preamble is read back as it was written, whatever follows it.
pub proof fn law_preamble_roundtrip(
    dut: DutDescView,
    schema: SchemaView,
    interval: u64,
    rest: Seq<u8>,
)
    requires
        DutDesc::encodable(dut),
        schema.encodable(),
        preamble(dut, schema, interval).len() <= u32::MAX,
    ensures
        parse_preamble(
            preamble(dut, schema, interval) + rest,
            Preamble { schema: None, dut: None, config: None },
        ) == Ok::<Preamble, TraceError>(
            Preamble {
                schema: Some(schema),
                dut: Some(dut),
                config: Some(TraceConfig { checkpoint_interval_ps: interval }),
            },
        ),
{
    let none = Seq::<u8>::empty();
    let config = TraceConfig { checkpoint_interval_ps: interval };
    let b1 = DutDesc::encode(dut);
    let b2 = schema.encode();
    let b3 = TraceConfig::encode(config);
    let c1 = chunk(CHUNK_DUT_DESC, b1);
    let c2 = chunk(CHUNK_SCHEMA, b2);
    let c3 = chunk(CHUNK_TRACE_CONFIG, b3);
    let c4 = chunk(CHUNK_END, none);
    let p0 = Preamble { schema: None, dut: None, config: None };
    let p1 = Preamble { dut: Some(dut), ..p0 };
    let p2 = Preamble { schema: Some(schema), ..p1 };
    let p3 = Preamble { config: Some(config), ..p2 };
    lemma_join_assoc(c1, c2 + (c3 + c4), rest);
    lemma_join_assoc(c2, c3 + c4, rest);
    lemma_join_assoc(c3, c4, rest);
    assert(b1 + none =~= b1);
    assert(b2 + none =~= b2);
    assert(b3 + none =~= b3);
    DutDesc::law_roundtrip(dut, none);
    law_schema_roundtrip(schema, none);
    TraceConfig::law_roundtrip(config, none);
    assert(c1.len() >= b1.len() && c2.len() >= b2.len() && c3.len() >= b3.len());
    lemma_chunk(p0, CHUNK_DUT_DESC, b1, c2 + (c3 + (c4 + rest)));
    lemma_chunk(p1, CHUNK_SCHEMA, b2, c3 + (c4 + rest));
    lemma_chunk(p2, CHUNK_TRACE_CONFIG, b3, c4 + rest);
    PreambleChunk::law_roundtrip(
        PreambleChunkView { chunk_type: CHUNK_END, flags: 0, payload: none },
        rest,
    );
}

// ---------------------------------------------------------------------------
// Segments.

/// The bytes of some segments split at segment `k`.
proof fn lemma_segments_split(base: int, segments: Seq<Segment>, k: int) -> (rest: Seq<u8>)
    requires
        0 <= k < segments.len(),
    ensures
        segments_bytes(base, segments) == segments_bytes(base, segments.take(k)) + (
        segments[k].bytes(tail_offset(base, segments.take(k))) + rest),
    decreases segments.len(),
{
    let init = segments.drop_last();
    let last = segments.last().bytes(tail_offset(base, init));
    if k == segments.len() - 1 {
        assert(segments.take(k) =~= init);
        let none = Seq::<u8>::empty();
        assert(last + none =~= last);
        none
    } else {
        let more = lemma_segments_split(base, init, k);
        assert(init.take(k) =~= segments.take(k));
        let front = segments_bytes(base, segments.take(k));
        let mine = segments[k].bytes(tail_offset(base, segments.take(k)));
        lemma_join_assoc(front, mine + more, last);
        lemma_join_assoc(mine, more, last);
        more + last
    }
}

/// A prefix of segments that are in order is in order.
proof fn lemma_segments_ok_prefix(storages: Seq<StorageDefView>, segments: Seq<Segment>, k: int)
    requires
        segments_ok(storages, segments),
        0 <= k <= segments.len(),
    ensures
        segments_ok(storages, segments.take(k)),
    decreases segments.len(),
{
    if k == segments.len() {
        assert(segments.take(k) =~= segments);
    } else {
        lemma_segments_ok_prefix(storages, segments.drop_last(), k);
        assert(segments.drop_last().take(k) =~= segments.take(k));
    }
}

/// Each segment follows the ones before it.
proof fn lemma_segment_follows(storages: Seq<StorageDefView>, segments: Seq<Segment>, k: int)
    requires
        segments_ok(storages, segments),
        0 <= k < segments.len(),
    ensures
        segments[k].follows(
            layouts_of(storages),
            states_after(storages, segments.take(k)),
            time_after(segments.take(k)),
        ),
{
    lemma_segments_ok_prefix(storages, segments, k + 1);
    assert(segments.take(k + 1).drop_last() =~= segments.take(k));
    assert(segments.take(k + 1).last() == segments[k]);
}

/// Whether everything about the storages is as laws about them need it.
pub open spec fn sound_states(st: Seq<StorageView>, storages: Seq<StorageDefView>) -> bool {
    &&& all_wf(st)
    &&& all_zero_invalid(st)
    &&& all_apart(st, layouts_of(storages))
    &&& same_shapes(initial_states(storages), st)
}

/// Whether the types of all fields and properties of all storages are known.
pub open spec fn all_regular(storages: Seq<StorageDefView>) -> bool {
    forall|i: int| 0 <= i < storages.len() ==> regular(#[trigger] storages[i])
}

proof fn lemma_initial_sound(storages: Seq<StorageDefView>)
    requires
        all_regular(storages),
    ensures
        sound_states(initial_states(storages), storages),
{
    let st = initial_states(storages);
    assert forall|i: int| 0 <= i < st.len() implies {
        &&& (#[trigger] st[i]).wf()
        &&& st[i].zero_invalid()
        &&& crate::storage_laws::fields_apart(layouts_of(storages)[i], st[i].slot_size)
    } by {
        assert(regular(storages[i]));
        law_initial_zero_invalid(storages[i]);
        law_layout_apart(storages[i]);
    }
}

proof fn lemma_after_sound(
    st: Seq<StorageView>,
    storages: Seq<StorageDefView>,
    items: Seq<TimedItemView>,
)
    requires
        sound_states(st, storages),
        items_fit(st, layouts_of(storages), items),
    ensures
        sound_states(after_items(st, layouts_of(storages), items), storages),
{
    let ls = layouts_of(storages);
    let now = after_items(st, ls, items);
    lemma_after_items_shape(st, ls, items);
    law_after_items_zero_invalid(st, ls, items);
    assert forall|i: int| 0 <= i < now.len() implies crate::storage_laws::fields_apart(
        ls[i],
        (#[trigger] now[i]).slot_size,
    ) by {
        assert(st[i].slot_size == now[i].slot_size);
    }
}

pub proof fn lemma_states_after_sound(storages: Seq<StorageDefView>, segments: Seq<Segment>)
    requires
        all_regular(storages),
        segments_ok(storages, segments),
    ensures
        sound_states(states_after(storages, segments), storages),
    decreases segments.len(),
{
    if segments.len() == 0 {
        lemma_initial_sound(storages);
    } else {
        let init = segments.drop_last();
        let last = segments.last();
        lemma_states_after_sound(storages, init);
        lemma_after_sound(
            last.checkpoint,
            storages,
            replayed(last.frames, last.start, None, last.checkpoint.len() as int).1,
        );
    }
}

/// What the checkpoints of some storages restore.
pub open spec fn all_restored(st: Seq<StorageView>) -> Seq<StorageView> {
    st.map_values(|v: StorageView| as_restored(v))
}

/// Checkpoints are read back as they were written, whatever follows them.
pub proof fn law_checkpoints_roundtrip(
    st: Seq<StorageView>,
    init: Seq<StorageView>,
    rest: Seq<u8>,
)
    requires
        all_wf(st),
        all_zero_invalid(st),
        st.len() <= init.len(),
        forall|i: int| 0 <= i < st.len() ==> same_shape(#[trigger] st[i], init[i]),
        checkpoints(st).len() <= u32::MAX,
    ensures
        parse_checkpoints(checkpoints(st) + rest, init, st.len()) == Ok::<
            (Seq<StorageView>, int),
            TraceError,
        >((all_restored(st), checkpoints(st).len() as int)),
    decreases st.len(),
{
    if st.len() == 0 {
        assert(all_restored(st) =~= Seq::<StorageView>::empty());
    } else {
        let before = st.drop_last();
        let v = st.last();
        let n = st.len() - 1;
        assert forall|i: int| 0 <= i < before.len() implies same_shape(
            #[trigger] before[i],
            init[i],
        ) && before[i].wf() && before[i].zero_invalid() by {
            assert(before[i] == st[i]);
        }
        let front = checkpoints(before);
        let mine = v.checkpoint();
        let tail = mine + rest;
        law_checkpoints_roundtrip(before, init, tail);
        lemma_join_assoc(front, mine, rest);
        let s = checkpoints(st) + rest;
        lemma_suffix_join(front, tail);
        let block = CheckpointBlock {
            storage_id: v.storage_id,
            reserved: 0,
            size: v.payload().len() as u32,
        };
        let head = CheckpointBlock::encode(block);
        lemma_join_assoc(head, v.payload(), rest);
        CheckpointBlock::law_roundtrip(block, v.payload() + rest);
        lemma_suffix_join(head, v.payload() + rest);
        lemma_suffix_suffix(s, front.len() as int, 8);
        let body = v.payload() + rest;
        assert(body.subrange(0, v.payload().len() as int) =~= v.payload());
        assert(st[n].wf() && st[n].zero_invalid());
        law_checkpoint_roundtrip(v, init[n]);
        assert(all_restored(before).push(as_restored(v)) =~= all_restored(st));
    }
}

// ---------------------------------------------------------------------------
// Items and times.

/// Those of some items that happened at or before `t`.
pub open spec fn items_until(items: Seq<TimedItemView>, t: u64) -> Seq<TimedItemView>
    decreases items.len(),
{
    if items.len() == 0 {
        Seq::empty()
    } else {
        let before = items_until(items.drop_last(), t);
        if items.last().time() <= t {
            before.push(items.last())
        } else {
            before
        }
    }
}

proof fn lemma_until_join(a: Seq<TimedItemView>, b: Seq<TimedItemView>, t: u64)
    ensures
        items_until(a + b, t) == items_until(a, t) + items_until(b, t),
    decreases b.len(),
{
    if b.len() == 0 {
        assert(a + b =~= a);
        assert(items_until(a, t) + items_until(b, t) =~= items_until(a, t));
    } else {
        lemma_until_join(a, b.drop_last(), t);
        assert((a + b).drop_last() =~= a + b.drop_last());
        assert((a + b).last() == b.last());
        let x = items_until(a, t);
        let y = items_until(b.drop_last(), t);
        assert((x + y).push(b.last()) =~= x + y.push(b.last()));
    }
}

proof fn lemma_until_all(items: Seq<TimedItemView>, t: u64)
    requires
        forall|i: int| 0 <= i < items.len() ==> (#[trigger] items[i]).time() <= t,
    ensures
        items_until(items, t) == items,
    decreases items.len(),
{
    if items.len() > 0 {
        let init = items.drop_last();
        assert forall|i: int| 0 <= i < init.len() implies (#[trigger] init[i]).time() <= t by {
            assert(init[i] == items[i]);
        }
        lemma_until_all(init, t);
        assert(items[items.len() - 1].time() <= t);
        assert(init.push(items.last()) =~= items);
    } else {
        assert(items =~= Seq::empty());
    }
}

proof fn lemma_until_none(items: Seq<TimedItemView>, t: u64)
    requires
        forall|i: int| 0 <= i < items.len() ==> (#[trigger] items[i]).time() > t,
    ensures
        items_until(items, t) == Seq::<TimedItemView>::empty(),
    decreases items.len(),
{
    if items.len() > 0 {
        let init = items.drop_last();
        assert forall|i: int| 0 <= i < init.len() implies (#[trigger] init[i]).time() > t by {
            assert(init[i] == items[i]);
        }
        lemma_until_none(init, t);
        assert(items[items.len() - 1].time() > t);
    }
}

/// The items of a frame carry its time.
proof fn lemma_timed_items_time(items: Seq<FrameItemView>, t: u64, n: int)
    ensures
        forall|i: int|
            0 <= i < timed_items(items, t, n).len() ==> (#[trigger] timed_items(
                items,
                t,
                n,
            )[i]).time() == t,
    decreases items.len(),
{
    if items.len() > 0 {
        lemma_timed_items_time(items.drop_last(), t, n);
        let before = timed_items(items.drop_last(), t, n);
        let all = timed_items(items, t, n);
        assert forall|i: int| 0 <= i < all.len() implies (#[trigger] all[i]).time() == t by {
            if i < before.len() {
                assert(all[i] == before[i]);
            }
        }
    }
}

/// The items of some frames lie between the time before them and their end.
pub proof fn lemma_replayed_times(frames: Seq<CycleFrameView>, time: u64, n: int)
    requires
        time + duration(frames) <= u64::MAX,
    ensures
        duration(frames) >= 0,
        forall|i: int|
            0 <= i < replayed(frames, time, None, n).1.len() ==> time <= (#[trigger] replayed(
                frames,
                time,
                None,
                n,
            ).1[i]).time() <= time + duration(frames),
    decreases frames.len(),
{
    if frames.len() > 0 {
        lemma_duration_front(frames);
        let t = (time + frames[0].time_delta) as u64;
        let a = timed_items(frames[0].items, t, n);
        let more = frames.drop_first();
        lemma_replayed_times(more, t, n);
        lemma_timed_items_time(frames[0].items, t, n);
        let b = replayed(more, t, None, n).1;
        let all = replayed(frames, time, None, n).1;
        assert forall|i: int| 0 <= i < all.len() implies time <= (#[trigger] all[i]).time() <= time
            + duration(frames) by {
            if i < a.len() {
                assert(all[i] == a[i]);
            } else {
                assert(all[i] == b[i - a.len()]);
            }
        }
    }
}

/// Replaying up to a time gives the items up to that time.
pub proof fn law_replayed_until(frames: Seq<CycleFrameView>, time: u64, target: u64, n: int)
    requires
        time + duration(frames) <= u64::MAX,
    ensures
        replayed(frames, time, Some(target), n).1 == items_until(
            replayed(frames, time, None, n).1,
            target,
        ),
    decreases frames.len(),
{
    if frames.len() > 0 {
        lemma_duration_front(frames);
        let t = (time + frames[0].time_delta) as u64;
        let a = timed_items(frames[0].items, t, n);
        let more = frames.drop_first();
        let b = replayed(more, t, None, n).1;
        lemma_timed_items_time(frames[0].items, t, n);
        lemma_until_join(a, b, target);
        if t > target {
            lemma_replayed_times(more, t, n);
            lemma_until_none(a, target);
            lemma_until_none(b, target);
            assert(Seq::<TimedItemView>::empty() + Seq::<TimedItemView>::empty() =~= Seq::<
                TimedItemView,
            >::empty());
        } else {
            lemma_until_all(a, target);
            law_replayed_until(more, t, target, n);
        }
    }
}

/// Some of the items of a list that fits fit.
proof fn lemma_until_fits(st: Seq<StorageView>, ls: Seq<Layout>, items: Seq<TimedItemView>, t: u64)
    requires
        items_fit(st, ls, items),
    ensures
        items_fit(st, ls, items_until(items, t)),
    decreases items.len(),
{
    if items.len() > 0 {
        let init = items.drop_last();
        assert forall|i: int| 0 <= i < init.len() implies item_fits(st, ls, #[trigger] init[i]) by {
            assert(init[i] == items[i]);
        }
        lemma_until_fits(st, ls, init, t);
        assert(item_fits(st, ls, items[items.len() - 1]));
        let u = items_until(items, t);
        let before = items_until(init, t);
        assert forall|i: int| 0 <= i < u.len() implies item_fits(st, ls, #[trigger] u[i]) by {
            if i < before.len() {
                assert(u[i] == before[i]);
            }
        }
    }
}

// ---------------------------------------------------------------------------
// Reading segments back.

/// Whether everything recorded fits in its place.
pub open spec fn sound(rec: Recording) -> bool {
    &&& DutDesc::encodable(rec.dut)
    &&& rec.schema.encodable()
    &&& all_allocatable(rec.schema.storages)
    &&& all_regular(rec.schema.storages)
    &&& rec.base() <= u32::MAX
    &&& 48 + rec.body().len() <= MAX_IMAGE + 0x4_0000_0000
    &&& segments_ok(rec.schema.storages, rec.segments)
    &&& rec.segments.len() <= u32::MAX
}

/// Whether a reader reads the segments of `rec`, with `tail` behind them.
pub open spec fn reads(v: ReaderView, rec: Recording, tail: Seq<u8>) -> bool {
    &&& v.data == FileHeader::encode(v.header) + (rec.body() + tail)
    &&& v.header.flags & F_COMPRESSED != 0
    &&& v.header.flags & F_INTERLEAVED_DELTAS != 0
    &&& v.schema == rec.schema
    &&& v.table == segment_index(rec.base(), rec.segments)
}

/// What lies at the start of segment `k`.
proof fn lemma_at_segment(head: Seq<u8>, rec: Recording, tail: Seq<u8>, k: int) -> (rest: Seq<u8>)
    requires
        head.len() == 48,
        0 <= k < rec.segments.len(),
    ensures
        0 <= segment_offset(rec.base(), rec.segments, k) <= 48 + rec.body().len(),
        suffix(head + (rec.body() + tail), segment_offset(rec.base(), rec.segments, k))
            == rec.segments[k].bytes(tail_offset(rec.base(), rec.segments.take(k))) + rest,
{
    let base = rec.base();
    let pre = preamble(rec.dut, rec.schema, rec.interval);
    let more = lemma_segments_split(base, rec.segments, k);
    let front = segments_bytes(base, rec.segments.take(k));
    let mine = rec.segments[k].bytes(tail_offset(base, rec.segments.take(k)));
    lemma_join_assoc(pre, front + (mine + more), tail);
    lemma_join_assoc(front, mine + more, tail);
    lemma_join_assoc(mine, more, tail);
    let rest = more + tail;
    lemma_join_assoc(pre, front, mine + rest);
    lemma_join_assoc(head, pre + front, mine + rest);
    lemma_suffix_join(head + (pre + front), mine + rest);
    rest
}

/// The header of segment `k`, and what follows it.
proof fn lemma_segment_read(v: ReaderView, rec: Recording, tail: Seq<u8>, k: int) -> (rest: Seq<
    u8,
>)
    requires
        sound(rec),
        reads(v, rec, tail),
        0 <= k < rec.segments.len(),
    ensures
        v.segment(v.table[k].offset) == Ok::<(SegmentHeader, Seq<u8>), TraceError>(
            (
                rec.segments[k].header(tail_offset(rec.base(), rec.segments.take(k))),
                checkpoints(rec.segments[k].checkpoint) + (rec.segments[k].blob + rest),
            ),
        ),
{
    let rest = lemma_at_segment(FileHeader::encode(v.header), rec, tail, k);
    let seg = rec.segments[k];
    let h = seg.header(tail_offset(rec.base(), rec.segments.take(k)));
    let inner = checkpoints(seg.checkpoint) + seg.blob;
    lemma_join_assoc(SegmentHeader::encode(h), inner, rest);
    lemma_join_assoc(checkpoints(seg.checkpoint), seg.blob, rest);
    SegmentHeader::law_roundtrip(h, inner + rest);
    lemma_suffix_join(SegmentHeader::encode(h), inner + rest);
    rest
}

/// What the items of segment `k` are.
pub open spec fn segment_items(rec: Recording, k: int) -> Seq<TimedItemView> {
    replayed(
        rec.segments[k].frames,
        rec.segments[k].start,
        None,
        rec.schema.storages.len() as int,
    ).1
}

pub proof fn lemma_segment_facts(rec: Recording, k: int)
    requires
        sound(rec),
        0 <= k < rec.segments.len(),
    ensures
        sound_states(rec.segments[k].checkpoint, rec.schema.storages),
        rec.segments[k].follows(
            layouts_of(rec.schema.storages),
            states_after(rec.schema.storages, rec.segments.take(k)),
            time_after(rec.segments.take(k)),
        ),
        rec.segments[k].checkpoint.len() == rec.schema.storages.len(),
        items_fit(
            rec.segments[k].checkpoint,
            layouts_of(rec.schema.storages),
            segment_items(rec, k),
        ),
{
    lemma_segment_follows(rec.schema.storages, rec.segments, k);
    lemma_segments_ok_prefix(rec.schema.storages, rec.segments, k);
    lemma_states_after_sound(rec.schema.storages, rec.segments.take(k));
}

/// Restoring a checkpoint gives states that agree with those it was taken of.
proof fn lemma_restored(st: Seq<StorageView>, storages: Seq<StorageDefView>)
    requires
        sound_states(st, storages),
    ensures
        all_agree(st, all_restored(st)),
        same_shapes(st, all_restored(st)),
{
    let r = all_restored(st);
    assert forall|i: int| 0 <= i < st.len() implies agree(#[trigger] st[i], r[i]) by {
        law_restored_agree(st[i]);
    }
    assert forall|i: int|
        #![trigger st[i]]
        #![trigger r[i]]
        0 <= i < st.len() implies {
        &&& same_shape(st[i], r[i])
        &&& st[i].data.len() == r[i].data.len()
        &&& st[i].property_data.len() == r[i].property_data.len()
    } by {
        assert(agree(st[i], r[i]));
    }
}

/// Replaying a segment from its checkpoint gives its items in the order in
/// which they were recorded, up to the target time, and the states that they
/// lead to.
pub proof fn law_segment_replay(
    v: ReaderView,
    rec: Recording,
    tail: Seq<u8>,
    k: int,
    target: Option<u64>,
)
    requires
        sound(rec),
        reads(v, rec, tail),
        0 <= k < rec.segments.len(),
    ensures
        ({
            let seg = rec.segments[k];
            let r = replayed(seg.frames, seg.start, target, seg.checkpoint.len() as int);
            v.replay_segment(v.table[k].offset, target) == Ok::<Replay, TraceError>(
                Replay {
                    time: r.0,
                    states: after_items(all_restored(seg.checkpoint), v.layouts(), r.1),
                    items: r.1,
                },
            )
        }),
{
    let seg = rec.segments[k];
    let storages = rec.schema.storages;
    let ls = layouts_of(storages);
    lemma_segment_facts(rec, k);
    let cp = seg.checkpoint;
    let n = cp.len() as int;
    let rest = lemma_segment_read(v, rec, tail, k);
    let s = checkpoints(cp) + (seg.blob + rest);
    let init = v.initial();
    assert forall|i: int| 0 <= i < cp.len() implies same_shape(#[trigger] cp[i], init[i]) by {
        assert(same_shape(init[i], cp[i]));
    }
    law_checkpoints_roundtrip(cp, init, seg.blob + rest);
    lemma_suffix_join(checkpoints(cp), seg.blob + rest);
    assert((seg.blob + rest).subrange(0, seg.blob.len() as int) =~= seg.blob);
    law_frames_roundtrip(seg.frames, seg.start, target, n);
    lemma_restored(cp, storages);
    let items = replayed(seg.frames, seg.start, target, n).1;
    match target {
        None => {},
        Some(t) => {
            law_replayed_until(seg.frames, seg.start, t, n);
            lemma_until_fits(cp, ls, segment_items(rec, k), t);
        },
    }
    lemma_items_fit_shape(cp, all_restored(cp), ls, items);
}

// ---------------------------------------------------------------------------
// The whole trace.

/// All items of a trace in the order in which they were recorded.
pub open spec fn trace_items(segments: Seq<Segment>, n: int) -> Seq<TimedItemView>
    decreases segments.len(),
{
    if segments.len() == 0 {
        Seq::empty()
    } else {
        trace_items(segments.drop_last(), n) + replayed(
            segments.last().frames,
            segments.last().start,
            None,
            n,
        ).1
    }
}

pub proof fn lemma_after_items_len(
    st: Seq<StorageView>,
    ls: Seq<Layout>,
    items: Seq<TimedItemView>,
)
    ensures
        after_items(st, ls, items).len() == st.len(),
    decreases items.len(),
{
    if items.len() > 0 {
        lemma_after_items_len(st, ls, items.drop_last());
    }
}

/// The states after some segments are those that all their items lead to.
pub proof fn law_states_after(storages: Seq<StorageDefView>, segments: Seq<Segment>)
    requires
        segments_ok(storages, segments),
    ensures
        states_after(storages, segments) == after_items(
            initial_states(storages),
            layouts_of(storages),
            trace_items(segments, storages.len() as int),
        ),
        states_after(storages, segments).len() == storages.len(),
    decreases segments.len(),
{
    let n = storages.len() as int;
    if segments.len() > 0 {
        let init = segments.drop_last();
        let last = segments.last();
        law_states_after(storages, init);
        lemma_after_items_join(
            initial_states(storages),
            layouts_of(storages),
            trace_items(init, n),
            replayed(last.frames, last.start, None, n).1,
        );
        lemma_after_items_len(
            last.checkpoint,
            layouts_of(storages),
            replayed(last.frames, last.start, None, n).1,
        );
    }
}

/// Each segment starts where the one before ends.
proof fn lemma_segment_times(storages: Seq<StorageDefView>, segments: Seq<Segment>, i: int, j: int)
    requires
        segments_ok(storages, segments),
        0 <= i <= j < segments.len(),
    ensures
        segments[i].start <= segments[i].end,
        segments[i].start <= segments[j].start,
        i < j ==> segments[i].end <= segments[j].start,
        i < j ==> segments[i].end <= segments[j].end,
        segments[0].start == 0,
    decreases j,
{
    lemma_segment_follows(storages, segments, j);
    lemma_duration_front(segments[j].frames);
    if j > 0 {
        assert(segments.take(j).last() == segments[j - 1]);
        if i < j {
            lemma_segment_times(storages, segments, i, j - 1);
        } else {
            lemma_segment_times(storages, segments, 0, j - 1);
        }
    }
}

/// The segment table of a recording is sorted.
proof fn lemma_table_sorted(rec: Recording)
    requires
        sound(rec),
    ensures
        starts_sorted(segment_index(rec.base(), rec.segments)),
{
    let table = segment_index(rec.base(), rec.segments);
    assert forall|i: int, j: int| 0 <= i <= j < table.len() implies table[i].time_start_ps
        <= table[j].time_start_ps by {
        lemma_segment_times(rec.schema.storages, rec.segments, i, j);
    }
}

/// The items of segment `k` lie between its start and its end.
proof fn lemma_item_times(rec: Recording, k: int)
    requires
        sound(rec),
        0 <= k < rec.segments.len(),
    ensures
        forall|i: int|
            0 <= i < segment_items(rec, k).len() ==> rec.segments[k].start <= (
            #[trigger] segment_items(rec, k)[i]).time() <= rec.segments[k].end,
{
    lemma_segment_follows(rec.schema.storages, rec.segments, k);
    lemma_replayed_times(
        rec.segments[k].frames,
        rec.segments[k].start,
        rec.schema.storages.len() as int,
    );
}

/// The items up to a time are those of the segments before segment `k`, and
/// those of segment `k` up to that time.
proof fn lemma_until_segment(rec: Recording, k: int, m: int, t: u64)
    requires
        sound(rec),
        0 <= k < rec.segments.len(),
        k <= m <= rec.segments.len(),
        rec.segments[k].start <= t,
        forall|j: int| k < j < rec.segments.len() ==> rec.segments[j].start > t,
    ensures
        m == k ==> items_until(
            trace_items(rec.segments.take(m), rec.schema.storages.len() as int),
            t,
        ) == trace_items(rec.segments.take(k), rec.schema.storages.len() as int),
        m > k ==> items_until(
            trace_items(rec.segments.take(m), rec.schema.storages.len() as int),
            t,
        ) == trace_items(rec.segments.take(k), rec.schema.storages.len() as int) + items_until(
            segment_items(rec, k),
            t,
        ),
    decreases m,
{
    let n = rec.schema.storages.len() as int;
    let now = rec.segments.take(m);
    if m > k {
        lemma_until_segment(rec, k, m - 1, t);
        assert(now.drop_last() =~= rec.segments.take(m - 1));
        assert(now.last() == rec.segments[m - 1]);
        let mine = segment_items(rec, m - 1);
        lemma_until_join(trace_items(rec.segments.take(m - 1), n), mine, t);
        if m - 1 > k {
            lemma_item_times(rec, m - 1);
            lemma_until_none(mine, t);
            let x = items_until(trace_items(rec.segments.take(m - 1), n), t);
            assert(x + Seq::<TimedItemView>::empty() =~= x);
        }
    } else {
        lemma_until_before(rec, k, t);
    }
}

/// All items of the first `k` segments happened by the start of segment `k`.
proof fn lemma_until_before(rec: Recording, k: int, t: u64)
    requires
        sound(rec),
        0 <= k < rec.segments.len(),
        rec.segments[k].start <= t,
    ensures
        items_until(trace_items(rec.segments.take(k), rec.schema.storages.len() as int), t)
            == trace_items(rec.segments.take(k), rec.schema.storages.len() as int),
    decreases k,
{
    let n = rec.schema.storages.len() as int;
    let now = rec.segments.take(k);
    if k > 0 {
        lemma_segment_times(rec.schema.storages, rec.segments, k - 1, k);
        lemma_until_before(rec, k - 1, t);
        assert(now.drop_last() =~= rec.segments.take(k - 1));
        assert(now.last() == rec.segments[k - 1]);
        let mine = segment_items(rec, k - 1);
        lemma_until_join(trace_items(rec.segments.take(k - 1), n), mine, t);
        lemma_item_times(rec, k - 1);
        lemma_until_all(mine, t);
    }
}

/// Whether items come in the order of their times.
pub open spec fn in_time(items: Seq<TimedItemView>) -> bool {
    forall|i: int, j: int|
        0 <= i <= j < items.len() ==> (#[trigger] items[i]).time() <= (#[trigger] items[j]).time()
}

proof fn lemma_in_time_join(a: Seq<TimedItemView>, b: Seq<TimedItemView>, t: u64)
    requires
        in_time(a),
        in_time(b),
        forall|i: int| 0 <= i < a.len() ==> (#[trigger] a[i]).time() <= t,
        forall|i: int| 0 <= i < b.len() ==> t <= (#[trigger] b[i]).time(),
    ensures
        in_time(a + b),
{
    let all = a + b;
    assert forall|i: int, j: int| 0 <= i <= j < all.len() implies (#[trigger] all[i]).time() <= (
    #[trigger] all[j]).time() by {
        if i < a.len() {
            assert(all[i] == a[i]);
        } else {
            assert(all[i] == b[i - a.len()]);
        }
        if j < a.len() {
            assert(all[j] == a[j]);
        } else {
            assert(all[j] == b[j - a.len()]);
        }
    }
}

proof fn lemma_replayed_in_time(frames: Seq<CycleFrameView>, time: u64, n: int)
    requires
        time + duration(frames) <= u64::MAX,
    ensures
        in_time(replayed(frames, time, None, n).1),
    decreases frames.len(),
{
    if frames.len() > 0 {
        lemma_duration_front(frames);
        let t = (time + frames[0].time_delta) as u64;
        let a = timed_items(frames[0].items, t, n);
        let more = frames.drop_first();
        lemma_replayed_times(more, t, n);
        lemma_timed_items_time(frames[0].items, t, n);
        lemma_replayed_in_time(more, t, n);
        lemma_in_time_join(a, replayed(more, t, None, n).1, t);
    }
}

proof fn lemma_prefix_in_time(rec: Recording, k: int)
    requires
        sound(rec),
        0 <= k <= rec.segments.len(),
    ensures
        ({
            let items = trace_items(rec.segments.take(k), rec.schema.storages.len() as int);
            &&& in_time(items)
            &&& forall|i: int|
                0 <= i < items.len() ==> (#[trigger] items[i]).time() <= time_after(
                    rec.segments.take(k),
                )
        }),
    decreases k,
{
    let n = rec.schema.storages.len() as int;
    let now = rec.segments.take(k);
    if k > 0 {
        lemma_prefix_in_time(rec, k - 1);
        let before = rec.segments.take(k - 1);
        assert(now.drop_last() =~= before);
        assert(now.last() == rec.segments[k - 1]);
        lemma_segment_follows(rec.schema.storages, rec.segments, k - 1);
        lemma_segment_times(rec.schema.storages, rec.segments, k - 1, k - 1);
        lemma_replayed_in_time(rec.segments[k - 1].frames, rec.segments[k - 1].start, n);
        lemma_item_times(rec, k - 1);
        let a = trace_items(before, n);
        let b = segment_items(rec, k - 1);
        if k > 1 {
            lemma_segment_times(rec.schema.storages, rec.segments, k - 2, k - 1);
            assert(before.last() == rec.segments[k - 2]);
        }
        lemma_in_time_join(a, b, time_after(before));
        let all = a + b;
        assert forall|i: int| 0 <= i < all.len() implies (#[trigger] all[i]).time() <= time_after(
            now,
        ) by {
            if i < a.len() {
                assert(all[i] == a[i]);
            } else {
                assert(all[i] == b[i - a.len()]);
            }
        }
    }
}

/// Everything that was recorded comes in the order of its times, none of them
/// after the end of the last segment.
pub proof fn law_items_in_time(rec: Recording)
    requires
        sound(rec),
    ensures
        ({
            let items = trace_items(rec.segments, rec.schema.storages.len() as int);
            &&& in_time(items)
            &&& forall|i: int|
                0 <= i < items.len() ==> (#[trigger] items[i]).time() <= time_after(rec.segments)
        }),
{
    lemma_prefix_in_time(rec, rec.segments.len() as int);
    assert(rec.segments.take(rec.segments.len() as int) =~= rec.segments);
}

/// The state at a time is the one that everything recorded up to that time
/// leads to, but for which slots of dense storages count as valid. Only a
/// trace without segments has no state.
pub proof fn law_state_at(v: ReaderView, rec: Recording, tail: Seq<u8>, time: u64)
    requires
        sound(rec),
        reads(v, rec, tail),
    ensures
        rec.segments.len() == 0 ==> v.state_at(time) == Err::<
            (u64, Seq<StorageView>),
            TraceError,
        >(TraceError::NoSegmentForTime),
        rec.segments.len() > 0 ==> v.state_at(time) is Ok && all_agree(
            after_items(
                initial_states(rec.schema.storages),
                layouts_of(rec.schema.storages),
                items_until(
                    trace_items(rec.segments, rec.schema.storages.len() as int),
                    time,
                ),
            ),
            v.state_at(time)->Ok_0.1,
        ),
{
    let storages = rec.schema.storages;
    let n = storages.len() as int;
    let ls = layouts_of(storages);
    lemma_table_sorted(rec);
    law_segment_for_time(v.table, time);
    if rec.segments.len() > 0 {
        lemma_segment_times(storages, rec.segments, 0, 0);
        assert(v.table[0].time_start_ps == 0);
        let k = segment_for_time(v.table, time)->Some_0;
        assert forall|j: int| k < j < rec.segments.len() implies rec.segments[j].start > time by {
            assert(v.table[j].time_start_ps > time);
        }
        let seg = rec.segments[k];
        lemma_segment_facts(rec, k);
        law_segment_replay(v, rec, tail, k, Some(time));
        law_replayed_until(seg.frames, seg.start, time, n);
        lemma_until_segment(rec, k, rec.segments.len() as int, time);
        assert(rec.segments.take(rec.segments.len() as int) =~= rec.segments);
        let before = rec.segments.take(k);
        lemma_segments_ok_prefix(storages, rec.segments, k);
        law_states_after(storages, before);
        let some = items_until(segment_items(rec, k), time);
        lemma_after_items_join(initial_states(storages), ls, trace_items(before, n), some);
        lemma_restored(seg.checkpoint, storages);
        lemma_until_fits(seg.checkpoint, ls, segment_items(rec, k), time);
        law_after_items_agree(seg.checkpoint, all_restored(seg.checkpoint), ls, some);
    }
}

// ---------------------------------------------------------------------------
// Events.

proof fn lemma_events_join(a: Seq<TimedItemView>, b: Seq<TimedItemView>)
    ensures
        events_of(a + b) == events_of(a) + events_of(b),
    decreases b.len(),
{
    if b.len() == 0 {
        assert(a + b =~= a);
        assert(events_of(a) + events_of(b) =~= events_of(a));
    } else {
        lemma_events_join(a, b.drop_last());
        assert((a + b).drop_last() =~= a + b.drop_last());
        match b.last() {
            TimedItemView::Event(ev) => {
                let x = events_of(a);
                let y = events_of(b.drop_last());
                assert((x + y).push(ev) =~= x + y.push(ev));
            },
            TimedItemView::Op(_) => {},
        }
    }
}

proof fn lemma_within_join(a: Seq<TimedEventView>, b: Seq<TimedEventView>, t0: u64, t1: u64)
    ensures
        events_within(a + b, t0, t1) == events_within(a, t0, t1) + events_within(b, t0, t1),
    decreases b.len(),
{
    if b.len() == 0 {
        assert(a + b =~= a);
        assert(events_within(a, t0, t1) + events_within(b, t0, t1) =~= events_within(a, t0, t1));
    } else {
        lemma_within_join(a, b.drop_last(), t0, t1);
        assert((a + b).drop_last() =~= a + b.drop_last());
        let x = events_within(a, t0, t1);
        let y = events_within(b.drop_last(), t0, t1);
        assert((x + y).push(b.last()) =~= x + y.push(b.last()));
    }
}

/// The events of some items in a time range.
pub open spec fn item_events(items: Seq<TimedItemView>, t0: u64, t1: u64) -> Seq<TimedEventView> {
    events_within(events_of(items), t0, t1)
}

proof fn lemma_item_events_join(a: Seq<TimedItemView>, b: Seq<TimedItemView>, t0: u64, t1: u64)
    ensures
        item_events(a + b, t0, t1) == item_events(a, t0, t1) + item_events(b, t0, t1),
{
    lemma_events_join(a, b);
    lemma_within_join(events_of(a), events_of(b), t0, t1);
}

/// Items after the end of a time range play no part in it.
proof fn lemma_item_events_until(items: Seq<TimedItemView>, t0: u64, t1: u64)
    ensures
        item_events(items_until(items, t1), t0, t1) == item_events(items, t0, t1),
    decreases items.len(),
{
    if items.len() > 0 {
        let init = items.drop_last();
        lemma_item_events_until(init, t0, t1);
        let u = items_until(init, t1);
        assert(u.push(items.last()).drop_last() =~= u);
        match items.last() {
            TimedItemView::Event(ev) => {
                assert(events_of(u).push(ev).drop_last() =~= events_of(u));
                assert(events_of(init).push(ev).drop_last() =~= events_of(init));
            },
            TimedItemView::Op(_) => {},
        }
    }
}

/// Items outside a time range have no events in it.
proof fn lemma_item_events_none(items: Seq<TimedItemView>, t0: u64, t1: u64)
    requires
        forall|i: int|
            0 <= i < items.len() ==> !(t0 <= (#[trigger] items[i]).time() <= t1),
    ensures
        item_events(items, t0, t1) == Seq::<TimedEventView>::empty(),
    decreases items.len(),
{
    if items.len() > 0 {
        let init = items.drop_last();
        assert forall|i: int| 0 <= i < init.len() implies !(t0 <= (#[trigger] init[i]).time()
            <= t1) by {
            assert(init[i] == items[i]);
        }
        lemma_item_events_none(init, t0, t1);
        assert(!(t0 <= items[items.len() - 1].time() <= t1));
        match items.last() {
            TimedItemView::Event(ev) => {
                assert(events_of(init).push(ev).drop_last() =~= events_of(init));
            },
            TimedItemView::Op(_) => {},
        }
    }
}

/// The events of one segment in a time range.
proof fn lemma_segment_events(
    v: ReaderView,
    rec: Recording,
    tail: Seq<u8>,
    k: int,
    t0: u64,
    t1: u64,
)
    requires
        sound(rec),
        reads(v, rec, tail),
        0 <= k < rec.segments.len(),
    ensures
        v.segment_events(v.table[k].offset, t0, t1) == Ok::<Seq<TimedEventView>, TraceError>(
            item_events(segment_items(rec, k), t0, t1),
        ),
{
    let seg = rec.segments[k];
    let storages = rec.schema.storages;
    let ls = layouts_of(storages);
    lemma_segment_facts(rec, k);
    let n = storages.len() as int;
    let rest = lemma_segment_read(v, rec, tail, k);
    lemma_suffix_join(checkpoints(seg.checkpoint), seg.blob + rest);
    assert((seg.blob + rest).subrange(0, seg.blob.len() as int) =~= seg.blob);
    law_frames_roundtrip(seg.frames, seg.start, Some(t1), n);
    law_replayed_until(seg.frames, seg.start, t1, n);
    let items = items_until(segment_items(rec, k), t1);
    lemma_until_fits(seg.checkpoint, ls, segment_items(rec, k), t1);
    lemma_items_fit_shape(initial_states(storages), seg.checkpoint, ls, items);
    lemma_item_events_until(segment_items(rec, k), t0, t1);
}

/// The events of the segments from `i` up to but not with `j` are those of
/// the first `j` segments, where those before `i` have none in the range.
#[verifier::spinoff_prover]
#[verifier::rlimit(60)]
proof fn lemma_events_between(
    v: ReaderView,
    rec: Recording,
    tail: Seq<u8>,
    i: int,
    j: int,
    t0: u64,
    t1: u64,
)
    requires
        sound(rec),
        reads(v, rec, tail),
        0 <= i <= j <= rec.segments.len(),
        item_events(
            trace_items(rec.segments.take(i), rec.schema.storages.len() as int),
            t0,
            t1,
        ) == Seq::<TimedEventView>::empty(),
    ensures
        v.events_between(i, j, t0, t1) == Ok::<Seq<TimedEventView>, TraceError>(
            item_events(
                trace_items(rec.segments.take(j), rec.schema.storages.len() as int),
                t0,
                t1,
            ),
        ),
    decreases j - i,
{
    if i < j {
        let n = rec.schema.storages.len() as int;
        lemma_events_between(v, rec, tail, i, j - 1, t0, t1);
        lemma_segment_events(v, rec, tail, j - 1, t0, t1);
        let now = rec.segments.take(j);
        assert(now.drop_last() =~= rec.segments.take(j - 1));
        assert(now.last() == rec.segments[j - 1]);
        assert(trace_items(now, n) == trace_items(rec.segments.take(j - 1), n) + segment_items(
            rec,
            j - 1,
        ));
        lemma_item_events_join(
            trace_items(rec.segments.take(j - 1), n),
            segment_items(rec, j - 1),
            t0,
            t1,
        );
    }
}

/// Segments that end before a time range have no events in it.
proof fn lemma_events_early(rec: Recording, k: int, t0: u64, t1: u64)
    requires
        sound(rec),
        0 <= k <= rec.segments.len(),
        k > 0 ==> rec.segments[k - 1].end < t0,
    ensures
        item_events(
            trace_items(rec.segments.take(k), rec.schema.storages.len() as int),
            t0,
            t1,
        ) == Seq::<TimedEventView>::empty(),
    decreases k,
{
    let n = rec.schema.storages.len() as int;
    let now = rec.segments.take(k);
    if k > 0 {
        if k > 1 {
            lemma_segment_times(rec.schema.storages, rec.segments, k - 2, k - 1);
        }
        lemma_events_early(rec, k - 1, t0, t1);
        assert(now.drop_last() =~= rec.segments.take(k - 1));
        assert(now.last() == rec.segments[k - 1]);
        let mine = segment_items(rec, k - 1);
        lemma_item_events_join(trace_items(rec.segments.take(k - 1), n), mine, t0, t1);
        lemma_item_times(rec, k - 1);
        lemma_item_events_none(mine, t0, t1);
        assert(Seq::<TimedEventView>::empty() + Seq::<TimedEventView>::empty() =~= Seq::<
            TimedEventView,
        >::empty());
    }
}

/// Segments that start after a time range add no events to it.
proof fn lemma_events_late(rec: Recording, k: int, m: int, t0: u64, t1: u64)
    requires
        sound(rec),
        0 <= k <= m <= rec.segments.len(),
        forall|j: int| k <= j < m ==> rec.segments[j].start > t1 || t1 < t0,
    ensures
        item_events(
            trace_items(rec.segments.take(m), rec.schema.storages.len() as int),
            t0,
            t1,
        ) == item_events(
            trace_items(rec.segments.take(k), rec.schema.storages.len() as int),
            t0,
            t1,
        ),
    decreases m,
{
    let n = rec.schema.storages.len() as int;
    let now = rec.segments.take(m);
    if k < m {
        lemma_events_late(rec, k, m - 1, t0, t1);
        assert(now.drop_last() =~= rec.segments.take(m - 1));
        assert(now.last() == rec.segments[m - 1]);
        let mine = segment_items(rec, m - 1);
        lemma_item_events_join(trace_items(rec.segments.take(m - 1), n), mine, t0, t1);
        lemma_item_times(rec, m - 1);
        assert(rec.segments[m - 1].start > t1 || t1 < t0);
        lemma_item_events_none(mine, t0, t1);
        let x = item_events(trace_items(rec.segments.take(m - 1), n), t0, t1);
        assert(x + Seq::<TimedEventView>::empty() =~= x);
    }
}

proof fn lemma_first_reaching(table: Seq<SegmentIndexEntry>, i: int, t0: u64)
    requires
        0 <= i,
    ensures
        0 <= first_reaching(table, i, t0) <= i,
        first_reaching(table, i, t0) > 0 ==> table[first_reaching(table, i, t0) - 1].time_end_ps
            < t0,
    decreases i,
{
    if i > 0 && table[i - 1].time_end_ps >= t0 {
        lemma_first_reaching(table, i - 1, t0);
    }
}

/// The events in a time range are all that were recorded in it, each once
/// and in the order in which they were recorded.
pub proof fn law_events_in_range(v: ReaderView, rec: Recording, tail: Seq<u8>, t0: u64, t1: u64)
    requires
        sound(rec),
        reads(v, rec, tail),
    ensures
        v.events_in_range(t0, t1) == Ok::<Seq<TimedEventView>, TraceError>(
            item_events(trace_items(rec.segments, rec.schema.storages.len() as int), t0, t1),
        ),
{
    let storages = rec.schema.storages;
    let n = storages.len() as int;
    let count = rec.segments.len() as int;
    lemma_table_sorted(rec);
    law_segment_for_time(v.table, t0);
    law_segment_for_time(v.table, t1);
    assert(rec.segments.take(count) =~= rec.segments);
    if count > 0 {
        lemma_segment_times(storages, rec.segments, 0, 0);
        assert(v.table[0].time_start_ps == 0);
        let i = segment_for_time(v.table, t0)->Some_0;
        let j = segment_for_time(v.table, t1)->Some_0;
        let first = first_reaching(v.table, i, t0);
        lemma_first_reaching(v.table, i, t0);
        lemma_events_early(rec, first, t0, t1);
        if first <= j + 1 {
            lemma_events_between(v, rec, tail, first, j + 1, t0, t1);
            assert forall|k: int| j + 1 <= k < count implies rec.segments[k].start > t1 || t1
                < t0 by {
                assert(v.table[k].time_start_ps > t1);
            }
            lemma_events_late(rec, j + 1, count, t0, t1);
        } else {
            assert(v.table[j + 1].time_start_ps > t1);
            assert(v.table[i].time_start_ps <= t0);
            assert(v.table[j + 1].time_start_ps <= v.table[i].time_start_ps);
            assert(t1 < t0);
            lemma_events_late(rec, first, count, t0, t1);
        }
    } else {
        assert(rec.segments =~= Seq::<Segment>::empty());
        assert(trace_items(rec.segments, n) =~= Seq::<TimedItemView>::empty());
    }
}

// ---------------------------------------------------------------------------
// The chain of segments.

/// The segments from `i` up to but not with `j`, as a chain has them.
pub open spec fn chained(rec: Recording, i: int, j: int) -> Seq<(u64, SegmentHeader)> {
    Seq::new(
        (j - i) as nat,
        |k: int|
            (
                segment_offset(rec.base(), rec.segments, i + k) as u64,
                rec.segments[i + k].header(tail_offset(rec.base(), rec.segments.take(i + k))),
            ),
    )
}

/// Segments start one behind the other.
proof fn lemma_offsets_grow(rec: Recording, i: int, j: int)
    requires
        0 <= i <= j <= rec.segments.len(),
    ensures
        segments_bytes(rec.base(), rec.segments.take(i)).len() + 56 * (j - i) <= segments_bytes(
            rec.base(),
            rec.segments.take(j),
        ).len(),
    decreases j - i,
{
    if i < j {
        lemma_offsets_grow(rec, i, j - 1);
        let now = rec.segments.take(j);
        assert(now.drop_last() =~= rec.segments.take(j - 1));
    }
}

/// Where the chain of the first `j` segments starts.
proof fn lemma_tail_offset(rec: Recording, j: int)
    requires
        sound(rec),
        0 < j <= rec.segments.len(),
    ensures
        tail_offset(rec.base(), rec.segments.take(j)) == segment_offset(
            rec.base(),
            rec.segments,
            j - 1,
        ),
        tail_offset(rec.base(), rec.segments.take(j)) >= 48,
{
    assert(rec.segments.take(j).drop_last() =~= rec.segments.take(j - 1));
    lemma_offsets_grow(rec, j - 1, rec.segments.len() as int);
    assert(rec.segments.take(rec.segments.len() as int) =~= rec.segments);
}

/// Walking the chain backwards finds every segment.
pub proof fn law_chain(h: FileHeader, rec: Recording, tail: Seq<u8>, i: int, j: int, steps: nat)
    requires
        sound(rec),
        0 <= i <= j <= rec.segments.len(),
        steps >= j - i,
    ensures
        chain_until(
            FileHeader::encode(h) + (rec.body() + tail),
            tail_offset(rec.base(), rec.segments.take(j)),
            tail_offset(rec.base(), rec.segments.take(i)),
            steps,
        ) == Ok::<Seq<(u64, SegmentHeader)>, TraceError>(chained(rec, i, j)),
    decreases j - i,
{
    let data = FileHeader::encode(h) + (rec.body() + tail);
    if i < j {
        lemma_tail_offset(rec, j);
        if i > 0 {
            lemma_tail_offset(rec, i);
            lemma_offsets_grow(rec, i - 1, j - 1);
        }
        law_chain(h, rec, tail, i, j - 1, (steps - 1) as nat);
        let seg = rec.segments[j - 1];
        let sh = seg.header(tail_offset(rec.base(), rec.segments.take(j - 1)));
        let rest = lemma_at_segment(FileHeader::encode(h), rec, tail, j - 1);
        let inner = checkpoints(seg.checkpoint) + seg.blob;
        lemma_join_assoc(SegmentHeader::encode(sh), inner, rest);
        SegmentHeader::law_roundtrip(sh, inner + rest);
        assert(chained(rec, i, j - 1).push(
            (segment_offset(rec.base(), rec.segments, j - 1) as u64, sh),
        ) =~= chained(rec, i, j));
    } else {
        assert(chained(rec, i, j) =~= Seq::<(u64, SegmentHeader)>::empty());
    }
}

/// The chain of segments has the same entries as the segment table.
pub proof fn law_chain_entries(rec: Recording, i: int, j: int)
    requires
        0 <= i <= j <= rec.segments.len(),
    ensures
        chain_entries(chained(rec, i, j)) == segment_index(rec.base(), rec.segments).subrange(i, j),
{
    assert(chain_entries(chained(rec, i, j)) =~= segment_index(
        rec.base(),
        rec.segments,
    ).subrange(i, j));
}

// ---------------------------------------------------------------------------
// The string table.

/// String `i` lies at its place in the data.
proof fn lemma_string_at(strings: Seq<Seq<char>>, i: int)
    requires
        0 <= i < strings.len(),
    ensures
        string_data(strings.take(i)).len() + encode_utf8(strings[i]).len() < string_data(
            strings,
        ).len(),
        string_data(strings).subrange(
            string_data(strings.take(i)).len() as int,
            (string_data(strings.take(i)).len() + encode_utf8(strings[i]).len()) as int,
        ) == encode_utf8(strings[i]),
    decreases strings.len(),
{
    let init = strings.drop_last();
    let last = encode_utf8(strings.last());
    let d = string_data(init);
    let start = string_data(strings.take(i)).len() as int;
    let stop = start + encode_utf8(strings[i]).len();
    if i == strings.len() - 1 {
        assert(strings.take(i) =~= init);
        assert((d + last + seq![0u8]).subrange(start, stop) =~= last);
    } else {
        lemma_string_at(init, i);
        assert(init.take(i) =~= strings.take(i));
        assert((d + last + seq![0u8]).subrange(start, stop) =~= d.subrange(start, stop));
    }
}

/// A string table is read back as it was written.
pub proof fn law_strings_roundtrip(strings: Seq<Seq<char>>, rest: Seq<u8>)
    requires
        strings.len() <= u32::MAX,
        string_data(strings).len() <= u32::MAX,
    ensures
        parse_strings(
            string_table_bytes(strings) + rest,
            string_table_bytes(strings).len() as u64,
        ) == Ok::<Seq<Seq<char>>, TraceError>(strings),
{
    let h = StringTableHeader { num_entries: strings.len() as u32, reserved: 0 };
    let indices = string_indices(strings);
    let head = StringTableHeader::encode(h);
    let index = encode_all::<StringIndex>(indices);
    let data = string_data(strings);
    lemma_join_assoc(head, index + data, rest);
    lemma_join_assoc(index, data, rest);
    StringTableHeader::law_roundtrip(h, index + (data + rest));
    lemma_suffix_join(head, index + (data + rest));
    law_all_roundtrip::<StringIndex>(indices, data + rest);
    crate::writer::lemma_string_index_len(indices);
    let s = string_table_bytes(strings) + rest;
    let k = index.len() as int;
    assert(s =~= (head + index) + (data + rest));
    assert(s.subrange(8 + k, 8 + k + data.len()) =~= data);
    assert forall|i: int| 0 <= i < indices.len() implies {
        &&& (#[trigger] indices[i]).offset + indices[i].length <= data.len()
        &&& lossy_text(
            data.subrange(indices[i].offset as int, indices[i].offset + indices[i].length),
        ) == strings[i]
    } by {
        lemma_string_at(strings, i);
        encode_utf8_valid_utf8(strings[i]);
        encode_utf8_decode_utf8(strings[i]);
    }
    assert(indexed_strings(indices, data) =~= strings);
}

// ---------------------------------------------------------------------------
// Opening a trace.

/// The strings that a reader of a finished trace has.
pub open spec fn strings_read(rec: Recording) -> Option<Seq<Seq<char>>> {
    if rec.strings.len() == 0 {
        None
    } else {
        Some(rec.strings)
    }
}

/// What a reader has once it opened a trace of `rec` with the header `h`.
pub open spec fn reader_of(
    data: Seq<u8>,
    h: FileHeader,
    rec: Recording,
    strings: Option<Seq<Seq<char>>>,
) -> ReaderView {
    ReaderView {
        data,
        header: h,
        schema: rec.schema,
        dut: rec.dut,
        config: TraceConfig { checkpoint_interval_ps: rec.interval },
        table: segment_index(rec.base(), rec.segments),
        strings,
        summary: None,
    }
}

/// Opening a trace whose sections are known.
#[verifier::spinoff_prover]
#[verifier::rlimit(60)]
pub proof fn lemma_opened(data: Seq<u8>, h: FileHeader, rec: Recording, tail: Seq<u8>, x: Sections)
    requires
        sound(rec),
        h.magic == MAGIC,
        h.tail_offset == tail_offset(rec.base(), rec.segments),
        data == FileHeader::encode(h) + (rec.body() + tail),
        sections_of(data, h) == Ok::<Sections, TraceError>(x),
        x.table.len() == 0 || x.table == segment_index(rec.base(), rec.segments),
    ensures
        opened(data) == Ok::<ReaderView, TraceError>(
            ReaderView { summary: x.summary, ..reader_of(data, h, rec, x.strings) },
        ),
{
    let pre = preamble(rec.dut, rec.schema, rec.interval);
    let segs = segments_bytes(rec.base(), rec.segments);
    let n = rec.segments.len() as int;
    FileHeader::law_roundtrip(h, rec.body() + tail);
    lemma_suffix_join(FileHeader::encode(h), rec.body() + tail);
    lemma_join_assoc(pre, segs, tail);
    law_preamble_roundtrip(rec.dut, rec.schema, rec.interval, segs + tail);
    let index = segment_index(rec.base(), rec.segments);
    if x.table.len() == 0 {
        assert(rec.segments.take(n) =~= rec.segments);
        assert(rec.segments.take(0) =~= Seq::<Segment>::empty());
        if n > 0 {
            lemma_tail_offset(rec, n);
            lemma_offsets_grow(rec, 0, n);
            law_chain(h, rec, tail, 0, n, data.len());
            law_chain_entries(rec, 0, n);
            assert(index.subrange(0, n) =~= index);
        } else {
            assert(x.table =~= index);
        }
    }
}

/// The flags of a header while the trace is being written and afterwards.
pub proof fn lemma_flags(flags: u64)
    requires
        flags == F_COMPRESSED | F_COMPACT_DELTAS | F_INTERLEAVED_DELTAS,
    ensures
        flags & F_COMPRESSED != 0,
        flags & F_INTERLEAVED_DELTAS != 0,
        flags & F_COMPLETE == 0,
        (flags | F_COMPLETE) & F_COMPRESSED != 0,
        (flags | F_COMPLETE) & F_INTERLEAVED_DELTAS != 0,
        (flags | F_COMPLETE) & F_COMPLETE != 0,
        ((flags | F_HAS_STRINGS) | F_COMPLETE) & F_COMPRESSED != 0,
        ((flags | F_HAS_STRINGS) | F_COMPLETE) & F_INTERLEAVED_DELTAS != 0,
        ((flags | F_HAS_STRINGS) | F_COMPLETE) & F_COMPLETE != 0,
{
    let (a, b, c, d, e): (u64, u64, u64, u64, u64) = (0x02, 0x40, 0x80, 0x01, 0x04);
    assert({
        &&& flags & a != 0
        &&& flags & c != 0
        &&& flags & d == 0
        &&& (flags | d) & a != 0
        &&& (flags | d) & c != 0
        &&& (flags | d) & d != 0
        &&& ((flags | e) | d) & a != 0
        &&& ((flags | e) | d) & c != 0
        &&& ((flags | e) | d) & d != 0
    }) by (bit_vector)
        requires
            flags == a | b | c,
            a == 0x02,
            b == 0x40,
            c == 0x80,
            d == 0x01,
            e == 0x04,
    ;
}

/// A trace that is still being written can be opened: the reader has the
/// schema, the description of the design and all complete segments.
pub proof fn law_open_image(rec: Recording)
    requires
        sound(rec),
    ensures
        opened(rec.open_image()) == Ok::<ReaderView, TraceError>(
            reader_of(rec.open_image(), rec.header(), rec, None),
        ),
        reads(reader_of(rec.open_image(), rec.header(), rec, None), rec, Seq::empty()),
{
    let none = Seq::<u8>::empty();
    assert(rec.body() + none =~= rec.body());
    lemma_flags(rec.header().flags);
    lemma_opened(rec.open_image(), rec.header(), rec, none, no_sections());
}

/// What is behind the segments of a finished trace.
pub open spec fn closing(rec: Recording) -> Seq<u8> {
    rec.string_section() + (rec.segment_section() + (zeros(pad8(rec.sections_end())) + (
    encode_all::<SectionEntry>(rec.sections()) + SectionEntry::encode(end_section()))))
}

/// A section table is read back up to its end mark.
pub proof fn lemma_sections_roundtrip(entries: Seq<SectionEntry>)
    requires
        forall|i: int|
            0 <= i < entries.len() ==> (#[trigger] entries[i]).section_type != SECTION_END
                && entries[i].reserved == 0,
    ensures
        parse_sections(
            encode_all::<SectionEntry>(entries) + SectionEntry::encode(end_section()),
        ) == Ok::<Seq<SectionEntry>, TraceError>(entries),
    decreases entries.len(),
{
    let last = SectionEntry::encode(end_section());
    let none = Seq::<u8>::empty();
    if entries.len() == 0 {
        reveal(encode_all);
        assert(encode_all::<SectionEntry>(entries) + last =~= last + none);
        SectionEntry::law_roundtrip(end_section(), none);
        assert(entries =~= Seq::<SectionEntry>::empty());
    } else {
        let first = entries[0];
        let more = entries.drop_first();
        assert forall|i: int| 0 <= i < more.len() implies (#[trigger] more[i]).section_type
            != SECTION_END && more[i].reserved == 0 by {
            assert(more[i] == entries[i + 1]);
        }
        lemma_sections_roundtrip(more);
        lemma_encode_all_front(entries);
        let rest = encode_all::<SectionEntry>(more) + last;
        lemma_join_assoc(
            SectionEntry::encode(first),
            encode_all::<SectionEntry>(more),
            last,
        );
        SectionEntry::law_roundtrip(first, rest);
        lemma_suffix_join(SectionEntry::encode(first), rest);
        assert(seq![first] + more =~= entries);
    }
}

proof fn lemma_encode_all_front(entries: Seq<SectionEntry>)
    requires
        entries.len() > 0,
    ensures
        encode_all::<SectionEntry>(entries) == SectionEntry::encode(entries[0]) + encode_all::<
            SectionEntry,
        >(entries.drop_first()),
    decreases entries.len(),
{
    reveal(encode_all);
    let more = entries.drop_first();
    if more.len() == 0 {
        assert(entries.drop_last() =~= Seq::<SectionEntry>::empty());
        assert(encode_all::<SectionEntry>(entries.drop_last()) =~= Seq::<u8>::empty());
        assert(encode_all::<SectionEntry>(more) =~= Seq::<u8>::empty());
        assert(entries.last() == entries[0]);
        assert(encode_all::<SectionEntry>(entries) =~= SectionEntry::encode(entries[0])
            + encode_all::<SectionEntry>(more));
    } else {
        lemma_encode_all_front(entries.drop_last());
        assert(entries.drop_last().drop_first() =~= more.drop_last());
        lemma_join_assoc(
            SectionEntry::encode(entries[0]),
            encode_all::<SectionEntry>(more.drop_last()),
            SectionEntry::encode(entries.last()),
        );
    }
}

/// Where the parts of six joined sequences start.
pub proof fn lemma_suffixes(
    a: Seq<u8>,
    b: Seq<u8>,
    c: Seq<u8>,
    d: Seq<u8>,
    e: Seq<u8>,
    f: Seq<u8>,
)
    ensures
        suffix(a + (b + (c + (d + (e + f)))), (a.len() + b.len()) as int) == c + (d + (e + f)),
        suffix(a + (b + (c + (d + (e + f)))), (a.len() + b.len() + c.len()) as int) == d + (e + f),
        suffix(
            a + (b + (c + (d + (e + f)))),
            (a.len() + b.len() + c.len() + d.len() + e.len()) as int,
        ) == f,
{
    let s = a + (b + (c + (d + (e + f))));
    lemma_suffix_join(a, b + (c + (d + (e + f))));
    lemma_suffix_join(b, c + (d + (e + f)));
    lemma_suffix_join(c, d + (e + f));
    lemma_suffix_join(d, e + f);
    lemma_suffix_join(e, f);
    lemma_suffix_suffix(s, a.len() as int, b.len() as int);
    lemma_suffix_suffix(s, (a.len() + b.len()) as int, c.len() as int);
    lemma_suffix_suffix(s, (a.len() + b.len() + c.len()) as int, d.len() as int);
    lemma_suffix_suffix(s, (a.len() + b.len() + c.len() + d.len()) as int, e.len() as int);
}

/// What the section table of a finished trace leads to.
proof fn lemma_closed_sections(rec: Recording, time: u64)
    requires
        sound(rec),
        rec.strings.len() <= u32::MAX,
        string_data(rec.strings).len() <= u32::MAX,
    ensures
        sections_of(rec.closed_image(time), rec.final_header(time)) == Ok::<Sections, TraceError>(
            Sections {
                table: segment_index(rec.base(), rec.segments),
                strings: strings_read(rec),
                summary: None,
            },
        ),
{
    let data = rec.closed_image(time);
    let h = rec.final_header(time);
    let head = FileHeader::encode(h);
    let body = rec.body();
    let strings = rec.string_section();
    let segments = rec.segment_section();
    let pad = zeros(pad8(rec.sections_end()));
    let table = encode_all::<SectionEntry>(rec.sections()) + SectionEntry::encode(end_section());
    let index = segment_index(rec.base(), rec.segments);
    lemma_flags(rec.header().flags);
    lemma_sections_bound(rec);
    lemma_suffixes(head, body, strings, segments, pad, table);
    lemma_sections_roundtrip(rec.sections());
    assert(parse_sections(suffix(data, h.section_table_offset as int)) == Ok::<
        Seq<SectionEntry>,
        TraceError,
    >(rec.sections()));
    let none = Seq::<SectionEntry>::empty();
    let first = if rec.strings.len() == 0 {
        none
    } else {
        seq![rec.string_entry()]
    };
    let x = Sections { strings: strings_read(rec), ..no_sections() };
    assert(with_sections(data, no_sections(), none) == Ok::<Sections, TraceError>(no_sections()));
    if rec.strings.len() > 0 {
        assert(first.drop_last() =~= none);
        law_strings_roundtrip(rec.strings, segments + (pad + table));
    }
    assert(with_sections(data, no_sections(), first) == Ok::<Sections, TraceError>(x));
    if rec.segments.len() > 0 {
        assert(rec.sections().drop_last() =~= first);
        law_all_roundtrip::<SegmentIndexEntry>(index, pad + table);
        assert(segment_table(data, rec.segment_entry().offset, rec.segment_entry().size) == Ok::<
            Seq<SegmentIndexEntry>,
            TraceError,
        >(index));
    } else {
        assert(rec.sections() =~= first);
        assert(index =~= Seq::<SegmentIndexEntry>::empty());
    }
}

/// A finished trace is opened as it was written: schema, description of the
/// design, configuration, segments and strings.
pub proof fn law_closed_image(rec: Recording, time: u64)
    requires
        sound(rec),
        rec.strings.len() <= u32::MAX,
        string_data(rec.strings).len() <= u32::MAX,
    ensures
        opened(rec.closed_image(time)) == Ok::<ReaderView, TraceError>(
            reader_of(
                rec.closed_image(time),
                rec.final_header(time),
                rec,
                strings_read(rec),
            ),
        ),
        reads(
            reader_of(rec.closed_image(time), rec.final_header(time), rec, strings_read(rec)),
            rec,
            closing(rec),
        ),
{
    lemma_closed_sections(rec, time);
    lemma_flags(rec.header().flags);
    let x = Sections {
        table: segment_index(rec.base(), rec.segments),
        strings: strings_read(rec),
        summary: None,
    };
    lemma_opened(rec.closed_image(time), rec.final_header(time), rec, closing(rec), x);
}

/// A reader that looks again at a trace that has grown finds every new
/// segment once, and then has what opening the trace would give.
pub proof fn law_polled(old_rec: Recording, rec: Recording, k: int)
    requires
        sound(rec),
        0 <= k <= rec.segments.len(),
        old_rec == (Recording { segments: rec.segments.take(k), ..rec }),
    ensures
        reader_of(old_rec.open_image(), old_rec.header(), old_rec, None).polled(rec.open_image())
            == Ok::<(ReaderView, bool), TraceError>(
            (
                reader_of(rec.open_image(), rec.header(), rec, None),
                k < rec.segments.len(),
            ),
        ),
{
    let n = rec.segments.len() as int;
    let data = rec.open_image();
    let none = Seq::<u8>::empty();
    let v = reader_of(old_rec.open_image(), old_rec.header(), old_rec, None);
    let index = segment_index(rec.base(), rec.segments);
    assert(rec.body() + none =~= rec.body());
    assert(rec.segments.take(n) =~= rec.segments);
    FileHeader::law_roundtrip(rec.header(), rec.body());
    assert forall|i: int| 0 <= i < k implies #[trigger] v.table[i] == index[i] by {
        assert(rec.segments.take(k).take(i) =~= rec.segments.take(i));
    }
    assert(v.table =~= index.subrange(0, k));
    if k < n {
        lemma_tail_offset(rec, n);
        if k > 0 {
            lemma_tail_offset(rec, k);
            lemma_offsets_grow(rec, k - 1, n - 1);
        }
        lemma_offsets_grow(rec, 0, n);
        law_chain(rec.header(), rec, none, k, n, data.len());
        law_chain_entries(rec, k, n);
        assert(index.subrange(0, k) + index.subrange(k, n) =~= index);
    } else {
        assert(index.subrange(0, n) =~= index);
    }
}

// ---------------------------------------------------------------------------
// From the writer to the reader.

/// Whether a trace of this design can be written and read back: the numbers
/// in its descriptions fit, and the types of all fields are known.
pub open spec fn describable(dut: DutDescView, schema: SchemaView) -> bool {
    &&& DutDesc::encodable(dut)
    &&& schema.encodable()
    &&& all_allocatable(schema.storages)
    &&& all_regular(schema.storages)
}

/// Everything that a writer has put into complete segments can be read back.
pub proof fn law_writer_sound(w: WriterView)
    requires
        w.settled(),
        describable(w.rec.dut, w.rec.schema),
    ensures
        sound(w.rec),
{
}

/// Everything that a writer holds when it is closed can be read back: the
/// last segment has the frames since the last checkpoint.
pub proof fn law_close_sound(w: WriterView, blob: Seq<u8>)
    requires
        w.settled(),
        describable(w.rec.dut, w.rec.schema),
        w.rec.frames.len() > 0,
        w.flush_error() is None,
        w.packs(blob),
    ensures
        sound(w.flushed_recording(blob)),
        trace_items(
            w.flushed_recording(blob).segments,
            w.rec.schema.storages.len() as int,
        ) == trace_items(w.rec.segments, w.rec.schema.storages.len() as int) + w.segment_items(),
{
    let rec = w.flushed_recording(blob);
    assert(rec.segments.drop_last() =~= w.rec.segments);
    assert(rec.segments.last() == w.segment(blob));
    lemma_join_assoc(
        preamble(rec.dut, rec.schema, rec.interval),
        segments_bytes(rec.base(), w.rec.segments),
        w.segment(blob).bytes(tail_offset(rec.base(), w.rec.segments)),
    );
}

} // verus!
