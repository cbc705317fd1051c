//! Where the parts of a trace stand in its bytes.

use vstd::arithmetic::power2::{lemma2_to64, pow2};
use vstd::prelude::*;
use crate::bytes::{
    group_le_len, lemma_u16_at, lemma_u32_at, lemma_u64_at, suffix, u16_at, u16_bytes, u32_at,
    u32_bytes, u64_at, u64_bytes,
};
use crate::checkpoint::mask_bit;
use crate::error::TraceError;
use crate::frame::FrameItemView;
use crate::leb128::leb_bytes;
use crate::state::{parse_split_frame, timed_event, timed_op, timed_ops, TimedEventView, TimedOp};
use crate::summary::MipmapEntry;
use crate::types::{
    law_compact_wide, CheckpointBlock, ClockDomainDef, DeltaOp, DeltaOpCompact, DutProperty,
    EnumDef, EnumValue, EventDef, EventRecord, EventRecordView, FieldDef, FileHeader, LevelDesc,
    PreambleChunk, SchemaHeader, ScopeDef, SectionEntry, SegmentHeader, SegmentIndexEntry,
    StorageDef, StringIndex, StringTableHeader, SummaryFieldDef, SummaryHeader, TraceConfig,
};
use crate::wire::{encode_all, law_all_roundtrip, Wire};

verus! {

/// The number that `k` bytes from place `i` on stand for, the least significant
/// first.
pub open spec fn le(s: Seq<u8>, i: int, k: nat) -> int
    decreases k,
{
    if k == 0 {
        0
    } else {
        s[i] + 256 * le(s, i + 1, (k - 1) as nat)
    }
}

broadcast proof fn lemma_le16(s: Seq<u8>, i: int)
    ensures
        #[trigger] u16_at(s, i) == le(s, i, 2),
{
    reveal(u16_at);
    reveal_with_fuel(le, 3);
}

broadcast proof fn lemma_le32(s: Seq<u8>, i: int)
    ensures
        #[trigger] u32_at(s, i) == le(s, i, 4),
{
    reveal(u16_at);
    reveal(u32_at);
    reveal_with_fuel(le, 5);
}

broadcast proof fn lemma_le64(s: Seq<u8>, i: int)
    ensures
        #[trigger] u64_at(s, i) == le(s, i, 8),
{
    reveal(u16_at);
    reveal(u32_at);
    reveal(u64_at);
    reveal_with_fuel(le, 9);
}

broadcast group group_le {
    lemma_le16,
    lemma_le32,
    lemma_le64,
}

/// Where the parts of a file header stand: it takes 48 bytes.
pub proof fn law_file_header_layout(s: Seq<u8>)
    ensures
        FileHeader::decode(s) is Ok ==> {
            let (v, n) = FileHeader::decode(s)->Ok_0;
            &&& n == 48
            &&& v.version_major == le(s, 4, 2)
            &&& v.version_minor == le(s, 6, 2)
            &&& v.flags == le(s, 8, 8)
            &&& v.total_time_ps == le(s, 16, 8)
            &&& v.num_segments == le(s, 24, 4)
            &&& v.preamble_end == le(s, 28, 4)
            &&& v.section_table_offset == le(s, 32, 8)
            &&& v.tail_offset == le(s, 40, 8)
            &&& s.subrange(0, 4) == seq![0x75u8, 0x53u8, 0x43u8, 0x50u8]
        },
{
    broadcast use group_le;

    assert(crate::types::MAGIC@ =~= seq![0x75u8, 0x53u8, 0x43u8, 0x50u8]);
}

/// Where the parts of the configuration of a trace stand: it takes 8 bytes.
pub proof fn law_trace_config_layout(s: Seq<u8>)
    ensures
        TraceConfig::decode(s) is Ok ==> {
            let (v, n) = TraceConfig::decode(s)->Ok_0;
            &&& n == 8
            &&& v.checkpoint_interval_ps == le(s, 0, 8)
        },
{
    broadcast use group_le;

}

/// Where the parts of a property of the design stand: it takes 4 bytes.
pub proof fn law_dut_property_layout(s: Seq<u8>)
    ensures
        DutProperty::decode(s) is Ok ==> {
            let (v, n) = DutProperty::decode(s)->Ok_0;
            &&& n == 4
            &&& v.key == le(s, 0, 2)
            &&& v.value == le(s, 2, 2)
        },
{
    broadcast use group_le;

}

/// Where the parts of the head of a schema stand: it takes 12 bytes.
pub proof fn law_schema_header_layout(s: Seq<u8>)
    ensures
        SchemaHeader::decode(s) is Ok ==> {
            let (v, n) = SchemaHeader::decode(s)->Ok_0;
            &&& n == 12
            &&& v.num_enums == s[0]
            &&& v.num_clock_domains == s[1]
            &&& v.num_scopes == le(s, 2, 2)
            &&& v.num_storages == le(s, 4, 2)
            &&& v.num_event_types == le(s, 6, 2)
            &&& v.num_summary_fields == le(s, 8, 2)
            &&& v.string_pool_offset == le(s, 10, 2)
        },
{
    broadcast use group_le;

}

/// Where the parts of a clock stand: it takes 8 bytes.
pub proof fn law_clock_domain_def_layout(s: Seq<u8>)
    ensures
        ClockDomainDef::decode(s) is Ok ==> {
            let (v, n) = ClockDomainDef::decode(s)->Ok_0;
            &&& n == 8
            &&& v.name == le(s, 0, 2)
            &&& v.clock_id == le(s, 2, 2)
            &&& v.period_ps == le(s, 4, 4)
        },
{
    broadcast use group_le;

}

/// Where the parts of a scope stand: it takes 12 bytes.
pub proof fn law_scope_def_layout(s: Seq<u8>)
    ensures
        ScopeDef::decode(s) is Ok ==> {
            let (v, n) = ScopeDef::decode(s)->Ok_0;
            &&& n == 12
            &&& v.name == le(s, 0, 2)
            &&& v.scope_id == le(s, 2, 2)
            &&& v.parent_id == le(s, 4, 2)
            &&& v.protocol == le(s, 6, 2)
            &&& v.clock_id == s[8]
        },
{
    broadcast use group_le;

}

/// Where the parts of a value of an enumeration stand: it takes 4 bytes.
pub proof fn law_enum_value_layout(s: Seq<u8>)
    ensures
        EnumValue::decode(s) is Ok ==> {
            let (v, n) = EnumValue::decode(s)->Ok_0;
            &&& n == 4
            &&& v.value == s[0]
            &&& v.name == le(s, 2, 2)
        },
{
    broadcast use group_le;

}

/// Where the parts of a field stand: it takes 8 bytes.
pub proof fn law_field_def_layout(s: Seq<u8>)
    ensures
        FieldDef::decode(s) is Ok ==> {
            let (v, n) = FieldDef::decode(s)->Ok_0;
            &&& n == 8
            &&& v.name == le(s, 0, 2)
            &&& v.field_type == s[2]
            &&& v.enum_id == s[3]
            &&& v.role == s[4]
            &&& v.pair_id == s[5]
        },
{
    broadcast use group_le;

}

/// Where the parts of a field of a summary stand: it takes 8 bytes.
pub proof fn law_summary_field_def_layout(s: Seq<u8>)
    ensures
        SummaryFieldDef::decode(s) is Ok ==> {
            let (v, n) = SummaryFieldDef::decode(s)->Ok_0;
            &&& n == 8
            &&& v.name == le(s, 0, 2)
            &&& v.field_type == s[2]
            &&& v.scope_id == le(s, 4, 2)
        },
{
    broadcast use group_le;

}

/// Where the parts of the head of a segment stand: it takes 56 bytes.
pub proof fn law_segment_header_layout(s: Seq<u8>)
    ensures
        SegmentHeader::decode(s) is Ok ==> {
            let (v, n) = SegmentHeader::decode(s)->Ok_0;
            &&& n == 56
            &&& v.flags == le(s, 4, 4)
            &&& v.time_start_ps == le(s, 8, 8)
            &&& v.time_end_ps == le(s, 16, 8)
            &&& v.prev_segment_offset == le(s, 24, 8)
            &&& v.checkpoint_size == le(s, 32, 4)
            &&& v.deltas_compressed_size == le(s, 36, 4)
            &&& v.deltas_raw_size == le(s, 40, 4)
            &&& v.num_frames == le(s, 44, 4)
            &&& v.num_frames_active == le(s, 48, 4)
            &&& s.subrange(0, 4) == seq![0x75u8, 0x53u8, 0x45u8, 0x47u8]
        },
{
    broadcast use group_le;

    assert(crate::types::SEG_MAGIC@ =~= seq![0x75u8, 0x53u8, 0x45u8, 0x47u8]);
}

/// Where the parts of the head of a checkpoint block stand: it takes 8 bytes.
pub proof fn law_checkpoint_block_layout(s: Seq<u8>)
    ensures
        CheckpointBlock::decode(s) is Ok ==> {
            let (v, n) = CheckpointBlock::decode(s)->Ok_0;
            &&& n == 8
            &&& v.storage_id == le(s, 0, 2)
            &&& v.size == le(s, 4, 4)
        },
{
    broadcast use group_le;

}

/// Where the parts of an operation stand: it takes 16 bytes.
pub proof fn law_delta_op_layout(s: Seq<u8>)
    ensures
        DeltaOp::decode(s) is Ok ==> {
            let (v, n) = DeltaOp::decode(s)->Ok_0;
            &&& n == 16
            &&& v.action == s[0]
            &&& v.storage_id == le(s, 2, 2)
            &&& v.slot_index == le(s, 4, 2)
            &&& v.field_index == le(s, 6, 2)
            &&& v.value == le(s, 8, 8)
        },
{
    broadcast use group_le;

}

/// Where the parts of a compact operation stand: it takes 8 bytes.
pub proof fn law_delta_op_compact_layout(s: Seq<u8>)
    ensures
        DeltaOpCompact::decode(s) is Ok ==> {
            let (v, n) = DeltaOpCompact::decode(s)->Ok_0;
            &&& n == 8
            &&& v.action == s[0]
            &&& v.storage_id_lo == s[1]
            &&& v.slot_index == le(s, 2, 2)
            &&& v.field_index == le(s, 4, 2)
            &&& v.value16 == le(s, 6, 2)
        },
{
    broadcast use group_le;

}

/// Where the parts of an entry of the section table stand: it takes 24 bytes.
pub proof fn law_section_entry_layout(s: Seq<u8>)
    ensures
        SectionEntry::decode(s) is Ok ==> {
            let (v, n) = SectionEntry::decode(s)->Ok_0;
            &&& n == 24
            &&& v.section_type == le(s, 0, 2)
            &&& v.flags == le(s, 2, 2)
            &&& v.offset == le(s, 8, 8)
            &&& v.size == le(s, 16, 8)
        },
{
    broadcast use group_le;

}

/// Where the parts of an entry of the segment table stand: it takes 24 bytes.
pub proof fn law_segment_index_entry_layout(s: Seq<u8>)
    ensures
        SegmentIndexEntry::decode(s) is Ok ==> {
            let (v, n) = SegmentIndexEntry::decode(s)->Ok_0;
            &&& n == 24
            &&& v.offset == le(s, 0, 8)
            &&& v.time_start_ps == le(s, 8, 8)
            &&& v.time_end_ps == le(s, 16, 8)
        },
{
    broadcast use group_le;

}

/// Where the parts of the head of a string table stand: it takes 8 bytes.
pub proof fn law_string_table_header_layout(s: Seq<u8>)
    ensures
        StringTableHeader::decode(s) is Ok ==> {
            let (v, n) = StringTableHeader::decode(s)->Ok_0;
            &&& n == 8
            &&& v.num_entries == le(s, 0, 4)
        },
{
    broadcast use group_le;

}

/// Where the parts of an entry of a string table stand: it takes 8 bytes.
pub proof fn law_string_index_layout(s: Seq<u8>)
    ensures
        StringIndex::decode(s) is Ok ==> {
            let (v, n) = StringIndex::decode(s)->Ok_0;
            &&& n == 8
            &&& v.offset == le(s, 0, 4)
            &&& v.length == le(s, 4, 4)
        },
{
    broadcast use group_le;

}

/// Where the parts of the head of a summary stand: it takes 24 bytes.
pub proof fn law_summary_header_layout(s: Seq<u8>)
    ensures
        SummaryHeader::decode(s) is Ok ==> {
            let (v, n) = SummaryHeader::decode(s)->Ok_0;
            &&& n == 24
            &&& v.num_levels == le(s, 0, 4)
            &&& v.fan_out == le(s, 4, 4)
            &&& v.entry_size == le(s, 8, 4)
            &&& v.base_interval_ps == le(s, 16, 8)
        },
{
    broadcast use group_le;

}

/// Where the parts of the description of a level stand: it takes 16 bytes.
pub proof fn law_level_desc_layout(s: Seq<u8>)
    ensures
        LevelDesc::decode(s) is Ok ==> {
            let (v, n) = LevelDesc::decode(s)->Ok_0;
            &&& n == 16
            &&& v.offset == le(s, 0, 8)
            &&& v.num_entries == le(s, 8, 4)
        },
{
    broadcast use group_le;

}

/// Where the parts of an entry of a mipmap stand: it takes 24 bytes.
pub proof fn law_mipmap_entry_layout(s: Seq<u8>)
    ensures
        MipmapEntry::decode(s) is Ok ==> {
            let (v, n) = MipmapEntry::decode(s)->Ok_0;
            &&& n == 24
            &&& v.min_delta == le(s, 0, 8)
            &&& v.max_delta == le(s, 8, 8)
            &&& v.sum == le(s, 16, 8)
        },
{
    broadcast use group_le;

}

/// Where the parts of a storage stand: 16 bytes, then its fields, then its
/// properties.
pub proof fn law_storage_def_layout(s: Seq<u8>)
    ensures
        StorageDef::decode(s) is Ok ==> {
            let (v, n) = StorageDef::decode(s)->Ok_0;
            &&& v.name == le(s, 0, 2)
            &&& v.storage_id == le(s, 2, 2)
            &&& v.num_slots == le(s, 4, 2)
            &&& v.num_fields == le(s, 6, 2)
            &&& v.flags == le(s, 8, 2)
            &&& v.scope_id == le(s, 10, 2)
            &&& v.num_properties == le(s, 12, 2)
        },
{
    broadcast use group_le;

}

/// Where the parts of a kind of event stand: 8 bytes, then its fields.
pub proof fn law_event_def_layout(s: Seq<u8>)
    ensures
        EventDef::decode(s) is Ok ==> {
            let (v, n) = EventDef::decode(s)->Ok_0;
            &&& v.name == le(s, 0, 2)
            &&& v.event_type_id == le(s, 2, 2)
            &&& v.num_fields == le(s, 4, 2)
            &&& v.scope_id == le(s, 6, 2)
        },
{
    broadcast use group_le;

}

/// Where the parts of an enumeration stand: 4 bytes, then its values.
pub proof fn law_enum_def_layout(s: Seq<u8>)
    ensures
        EnumDef::decode(s) is Ok ==> {
            let (v, n) = EnumDef::decode(s)->Ok_0;
            v.name == le(s, 0, 2) && v.num_values == s[2]
        },
{
    broadcast use group_le;

}

/// Where the parts of an event stand: 8 bytes, then its payload.
pub proof fn law_event_record_layout(s: Seq<u8>)
    ensures
        EventRecord::decode(s) is Ok ==> {
            let (v, n) = EventRecord::decode(s)->Ok_0;
            &&& v.event_type_id == le(s, 0, 2)
            &&& v.payload_size == le(s, 4, 4)
            &&& n == 8 + v.payload_size
            &&& v.payload == s.subrange(8, n)
        },
{
    broadcast use group_le;

}

/// Where the parts of a chunk of the preamble stand: 8 bytes, its payload, and
/// zeros up to a multiple of 8.
pub proof fn law_preamble_chunk_layout(s: Seq<u8>)
    ensures
        PreambleChunk::decode(s) is Ok ==> {
            let (v, n) = PreambleChunk::decode(s)->Ok_0;
            let size = le(s, 4, 4);
            &&& v.chunk_type == le(s, 0, 2)
            &&& v.flags == le(s, 2, 2)
            &&& v.payload == s.subrange(8, 8 + size)
            &&& n % 8 == 0
            &&& 8 + size <= n < 16 + size
        },
{
    broadcast use group_le;

}

/// What is written of a value is what is read of it, so the layouts hold of
/// what is written too.
pub proof fn law_written_layout<T: Wire>(v: <T as View>::V)
    requires
        T::encodable(v),
    ensures
        T::decode(T::encode(v)) == Ok::<(<T as View>::V, int), crate::error::TraceError>(
            (v, T::encode(v).len() as int),
        ),
{
    T::law_roundtrip(v, Seq::empty());
    assert(T::encode(v) + Seq::<u8>::empty() =~= T::encode(v));
}

/// The bytes of a number in LEB128: one for a number below 128; else the low
/// seven bits with the top bit set, then those of the rest.
pub proof fn law_leb_layout(v: nat)
    ensures
        leb_bytes(v)[0] % 128 == v % 128,
        leb_bytes(v)[0] < 128 <==> v < 128,
        v < 128 ==> leb_bytes(v).len() == 1,
        v >= 128 ==> leb_bytes(v).skip(1) == leb_bytes(v / 128),
{
    if v >= 128 {
        assert(leb_bytes(v).skip(1) =~= leb_bytes(v / 128));
    }
}

/// Where the parts of an item of a frame stand: its tag first, which is 1 for a
/// long operation, 2 for a short one and 3 for an event.
pub proof fn law_item_layout(item: FrameItemView, compact: bool)
    requires
        compact ==> item.compactable(),
        item.sized(),
    ensures
        ({
            let s = item.bytes(compact);
            match item {
                FrameItemView::Op(op) => if compact {
                    &&& s.len() == 9
                    &&& s[0] == 2
                    &&& s[1] == op.action
                    &&& s[2] == op.storage_id
                    &&& le(s, 3, 2) == op.slot_index
                    &&& le(s, 5, 2) == op.field_index
                    &&& le(s, 7, 2) == op.value
                } else {
                    &&& s.len() == 16
                    &&& s[0] == 1
                    &&& s[1] == op.action
                    &&& le(s, 2, 2) == op.storage_id
                    &&& le(s, 4, 2) == op.slot_index
                    &&& le(s, 6, 2) == op.field_index
                    &&& le(s, 8, 8) == op.value
                },
                FrameItemView::Event(ev) => {
                    &&& s.len() == 8 + ev.payload.len()
                    &&& s[0] == 3
                    &&& le(s, 2, 2) == ev.event_type_id
                    &&& le(s, 4, 4) == ev.payload.len()
                    &&& s.skip(8) == ev.payload
                },
            }
        }),
{
    broadcast use {group_le, group_le_len};

    let s = item.bytes(compact);
    match item {
        FrameItemView::Op(op) => if compact {
            assert(s.subrange(3, 5) =~= u16_bytes(op.slot_index));
            lemma_u16_at(s, 3, op.slot_index);
            assert(s.subrange(5, 7) =~= u16_bytes(op.field_index));
            lemma_u16_at(s, 5, op.field_index);
            assert(s.subrange(7, 9) =~= u16_bytes(op.value as u16));
            lemma_u16_at(s, 7, op.value as u16);
        } else {
            assert(s.subrange(2, 4) =~= u16_bytes(op.storage_id));
            lemma_u16_at(s, 2, op.storage_id);
            assert(s.subrange(4, 6) =~= u16_bytes(op.slot_index));
            lemma_u16_at(s, 4, op.slot_index);
            assert(s.subrange(6, 8) =~= u16_bytes(op.field_index));
            lemma_u16_at(s, 6, op.field_index);
            assert(s.subrange(8, 16) =~= u64_bytes(op.value));
            lemma_u64_at(s, 8, op.value);
        },
        FrameItemView::Event(ev) => {
            assert(s.subrange(2, 4) =~= u16_bytes(ev.event_type_id));
            lemma_u16_at(s, 2, ev.event_type_id);
            assert(s.subrange(4, 8) =~= u32_bytes(ev.payload_size));
            lemma_u32_at(s, 4, ev.payload_size);
            assert(s.skip(8) =~= ev.payload);
        },
    }
}

/// Operations have a short form just where the number of their storage fits in
/// a byte and their value in two.
pub proof fn law_compactable(op: DeltaOp)
    ensures
        FrameItemView::Op(op).compactable() <==> op.storage_id < 256 && op.value < 65536,
{
}

/// Bit `i` of a mask is bit `i % 8` of its byte `i / 8`, bit 0 being the lowest.
pub proof fn law_mask_layout(mask: Seq<u8>, i: int)
    requires
        0 <= i,
    ensures
        mask_bit(mask, i) <==> (mask[i / 8] as int / pow2((i % 8) as nat) as int) % 2 == 1,
{
    lemma2_to64();
    let k = i % 8;
    let x = mask[i / 8] as int;
    let p = pow2(k as nat) as int;
    if k == 0 {
        assert(x / p == x / 1) by (nonlinear_arith)
            requires
                p == 1,
        ;
    } else if k == 1 {
        assert(x / p == x / 2) by (nonlinear_arith)
            requires
                p == 2,
        ;
    } else if k == 2 {
        assert(x / p == x / 4) by (nonlinear_arith)
            requires
                p == 4,
        ;
    } else if k == 3 {
        assert(x / p == x / 8) by (nonlinear_arith)
            requires
                p == 8,
        ;
    } else if k == 4 {
        assert(x / p == x / 16) by (nonlinear_arith)
            requires
                p == 16,
        ;
    } else if k == 5 {
        assert(x / p == x / 32) by (nonlinear_arith)
            requires
                p == 32,
        ;
    } else if k == 6 {
        assert(x / p == x / 64) by (nonlinear_arith)
            requires
                p == 64,
        ;
    } else {
        assert(x / p == x / 128) by (nonlinear_arith)
            requires
                p == 128,
        ;
    }
}

/// The short forms of some operations.
pub open spec fn short_forms(ops: Seq<DeltaOp>) -> Seq<DeltaOpCompact> {
    ops.map_values(|op: DeltaOp| op.spec_to_compact()->Some_0)
}

/// A frame that holds its operations before its events: a byte that is 1 for
/// short operations, a byte that is not used, how many operations and how many
/// events there are, in two bytes each, the operations and the events.
pub open spec fn split_frame(
    ops: Seq<DeltaOp>,
    events: Seq<EventRecordView>,
    short: bool,
) -> Seq<u8> {
    seq![
        if short {
            1u8
        } else {
            0u8
        },
        0u8,
    ] + u16_bytes(ops.len() as u16) + u16_bytes(events.len() as u16) + (if short {
        encode_all::<DeltaOpCompact>(short_forms(ops))
    } else {
        encode_all::<DeltaOp>(ops)
    }) + encode_all::<EventRecord>(events)
}

/// The operations of a frame at a time are those on known storages, in their
/// order.
pub proof fn law_timed_ops(ops: Seq<DeltaOp>, t: u64, n: int)
    ensures
        timed_ops(ops, t, n) == ops.filter(|op: DeltaOp| op.storage_id < n).map_values(
            |op: DeltaOp| timed_op(op, t),
        ),
    decreases ops.len(),
{
    reveal(Seq::filter);
    let f = |op: DeltaOp| op.storage_id < n;
    let g = |op: DeltaOp| timed_op(op, t);
    if ops.len() > 0 {
        law_timed_ops(ops.drop_last(), t, n);
        let kept = ops.drop_last().filter(f);
        if f(ops.last()) {
            assert(kept.push(ops.last()).map_values(g) =~= kept.map_values(g).push(g(ops.last())));
        }
    }
    assert(timed_ops(ops, t, n) =~= ops.filter(f).map_values(g));
}

/// A frame that holds its operations before its events is read as these
/// operations, as far as their storages are known, and these events, all at the
/// time of the frame, whatever follows it.
pub proof fn law_split_frame(
    ops: Seq<DeltaOp>,
    events: Seq<EventRecordView>,
    short: bool,
    t: u64,
    n: int,
    rest: Seq<u8>,
)
    requires
        ops.len() <= u16::MAX,
        events.len() <= u16::MAX,
        forall|i: int|
            0 <= i < events.len() ==> (#[trigger] events[i]).payload.len() == events[i].payload_size,
        short ==> forall|i: int|
            0 <= i < ops.len() ==> (#[trigger] ops[i]).storage_id < 256 && ops[i].value < 65536
                && ops[i].reserved == 0,
    ensures
        parse_split_frame(split_frame(ops, events, short) + rest, t, true, n) == Ok::<
            (Seq<TimedEventView>, Seq<TimedOp>, int),
            TraceError,
        >(
            (
                events.map_values(|e: EventRecordView| timed_event(e, t)),
                timed_ops(ops, t, n),
                split_frame(ops, events, short).len() as int,
            ),
        ),
{
    broadcast use group_le_len;

    let c = short_forms(ops);
    let body = if short {
        encode_all::<DeltaOpCompact>(c)
    } else {
        encode_all::<DeltaOp>(ops)
    };
    let last = encode_all::<EventRecord>(events);
    let s = split_frame(ops, events, short) + rest;
    assert(s.subrange(2, 4) =~= u16_bytes(ops.len() as u16));
    lemma_u16_at(s, 2, ops.len() as u16);
    assert(s.subrange(4, 6) =~= u16_bytes(events.len() as u16));
    lemma_u16_at(s, 4, events.len() as u16);
    assert(suffix(s, 6) =~= body + (last + rest));
    assert(suffix(s, 6 + body.len() as int) =~= last + rest);
    assert forall|i: int| 0 <= i < events.len() implies EventRecord::encodable(
        #[trigger] events[i],
    ) by {}
    law_all_roundtrip::<EventRecord>(events, rest);
    if short {
        law_all_roundtrip::<DeltaOpCompact>(c, last + rest);
        let back = c.map_values(|x: DeltaOpCompact| x.spec_to_wide());
        assert forall|i: int| 0 <= i < ops.len() implies #[trigger] back[i] == ops[i] by {
            assert(ops[i].storage_id < 256);
            law_compact_wide(ops[i]);
        }
        assert(back =~= ops);
    } else {
        law_all_roundtrip::<DeltaOp>(ops, last + rest);
    }
}

} // verus!
