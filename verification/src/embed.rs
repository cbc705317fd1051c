//! Embedding the summary of a trace into it.

use vstd::prelude::*;
use crate::bytes::{suffix, ByteReader};
use crate::error::TraceError;
use crate::reader::{
    no_sections, opened, parse_sections, read_sections, sections_of, with_section, with_sections,
    Reader, ReaderView, Sections,
};
use crate::roundtrip::{
    law_closed_image, law_segment_replay, law_strings_roundtrip, lemma_flags, lemma_opened,
    lemma_sections_roundtrip, lemma_suffixes, reader_of, reads, sound, strings_read,
};
use crate::segment::segment_table;
use crate::summarize::{
    compute_trace_summary, counters_of, entities_from, gathered, summary_of, CounterView,
};
use crate::summary::{
    law_summary_roundtrip, parse_summary, serialize_trace_summary, SummaryView, TraceSummary,
};
use crate::trace::{end_section, segment_index, string_data, Recording, MAX_IMAGE};
use crate::types::{
    lemma_views_self, pad8, put_slice, put_zeros, zeros, FileHeader, LevelDesc, SectionEntry,
    SegmentIndexEntry, SummaryHeader, SECTION_COUNTER_SUMMARY, SECTION_END,
};
use crate::wire::{
    decode_n, encode_all, law_all_roundtrip, lemma_join_assoc, lemma_suffix_join,
    lemma_suffix_suffix, read_n, write_all, Wire,
};
use crate::writer::lemma_sections_bound;

verus! {

broadcast use crate::bytes::group_le_len;

/// The sections that are no summary.
pub open spec fn kept_sections(entries: Seq<SectionEntry>) -> Seq<SectionEntry>
    decreases entries.len(),
{
    if entries.len() == 0 {
        Seq::empty()
    } else {
        let before = kept_sections(entries.drop_last());
        if entries.last().section_type == SECTION_COUNTER_SUMMARY {
            before
        } else {
            before.push(entries.last())
        }
    }
}

/// Where the last summary starts.
pub open spec fn old_summary(entries: Seq<SectionEntry>) -> Option<u64>
    decreases entries.len(),
{
    if entries.len() == 0 {
        None
    } else if entries.last().section_type == SECTION_COUNTER_SUMMARY {
        Some(entries.last().offset)
    } else {
        old_summary(entries.drop_last())
    }
}

/// Where a summary is written: over the old one, else over the section table.
pub open spec fn summary_start(h: FileHeader, entries: Seq<SectionEntry>) -> u64 {
    match old_summary(entries) {
        Some(offset) => offset,
        None => h.section_table_offset,
    }
}

/// The first `n` bytes, filled up with zeros where there are fewer.
pub open spec fn cut_at(data: Seq<u8>, n: int) -> Seq<u8> {
    if n <= data.len() {
        data.take(n)
    } else {
        data + zeros(n - data.len())
    }
}

/// The entry of a summary.
pub open spec fn summary_entry(start: u64, s: SummaryView) -> SectionEntry {
    SectionEntry {
        section_type: SECTION_COUNTER_SUMMARY,
        flags: 0,
        reserved: 0,
        offset: start,
        size: s.encode().len() as u64,
    }
}

/// The trace `data` with a summary in it.
pub open spec fn embedded(
    data: Seq<u8>,
    h: FileHeader,
    entries: Seq<SectionEntry>,
    s: SummaryView,
) -> Seq<u8> {
    let start = summary_start(h, entries);
    let front = cut_at(data, start as int) + s.encode();
    let front = front + zeros(pad8(front.len() as int));
    let table = encode_all::<SectionEntry>(
        kept_sections(entries).push(summary_entry(start, s)),
    ) + SectionEntry::encode(end_section());
    FileHeader::encode(FileHeader { section_table_offset: front.len() as u64, ..h }) + suffix(
        front + table,
        48,
    )
}

/// What embedding the summary of the trace `data` gives.
pub open spec fn embed_of(data: Seq<u8>, period: u64) -> Result<Seq<u8>, TraceError> {
    match opened(data) {
        Err(e) => Err(e),
        Ok(v) => match summary_of(v, period) {
            Err(e) => Err(e),
            Ok(s) => if s.counters.len() == 0 && s.total_instructions == 0 {
                Ok(data)
            } else if v.header.section_table_offset == 0 {
                Err(TraceError::NotFinalized)
            } else {
                match parse_sections(suffix(data, v.header.section_table_offset as int)) {
                    Err(e) => Err(e),
                    Ok(entries) => if summary_start(v.header, entries) > MAX_IMAGE {
                        Err(TraceError::TraceTooLarge)
                    } else {
                        Ok(embedded(data, v.header, entries, s))
                    },
                }
            },
        },
    }
}

/// Splits the sections into those that are kept and where the old summary is.
fn split_sections(entries: &Vec<SectionEntry>) -> (res: (Vec<SectionEntry>, Option<u64>))
    ensures
        res.0@ == kept_sections(entries@),
        res.1 == old_summary(entries@),
{
    let mut kept: Vec<SectionEntry> = Vec::new();
    let mut old_offset: Option<u64> = None;
    let mut i: usize = 0;
    while i < entries.len()
        invariant
            i <= entries@.len(),
            kept@ == kept_sections(entries@.take(i as int)),
            old_offset == old_summary(entries@.take(i as int)),
        decreases entries@.len() - i,
    {
        let entry = entries[i];
        assert(entries@.take(i + 1).drop_last() =~= entries@.take(i as int));
        if entry.section_type == SECTION_COUNTER_SUMMARY {
            // Remember where the old summary starts, to overwrite it.
            old_offset = Some(entry.offset);
        } else {
            kept.push(entry);
        }
        i = i + 1;
    }
    assert(entries@.take(i as int) =~= entries@);
    (kept, old_offset)
}

/// The first `n` bytes, filled up with zeros.
fn cut(data: &[u8], n: u64) -> (out: Vec<u8>)
    ensures
        out@ == cut_at(data@, n as int),
{
    let mut out: Vec<u8> = Vec::new();
    let len: u64 = data.len() as u64;
    if n <= len {
        put_slice(&mut out, vstd::slice::slice_subrange(data, 0, n as usize));
        assert(out@ =~= data@.take(n as int));
    } else {
        put_slice(&mut out, data);
        let mut i: u64 = 0;
        assert(out@ =~= data@ + zeros(0));
        while i < n - len
            invariant
                len == data@.len(),
                n > len,
                i <= n - len,
                out@ == data@ + zeros(i as int),
            decreases n - len - i,
        {
            out.push(0);
            i = i + 1;
            assert(out@ =~= data@ + zeros(i as int));
        }
    }
    out
}

/// Writes a summary into a trace.
fn write_summary(
    data: &[u8],
    header: &FileHeader,
    entries: &Vec<SectionEntry>,
    summary: &TraceSummary,
    write_start: u64,
) -> (img: Vec<u8>)
    requires
        write_start == summary_start(*header, entries@),
    ensures
        img@ == embedded(data@, *header, entries@, summary@),
{
    let (mut sections, _old) = split_sections(entries);
    let blob = serialize_trace_summary(summary);
    let mut out = cut(data, write_start);
    put_slice(&mut out, blob.as_slice());
    let pos: u64 = out.len() as u64;
    let ghost front0 = out@;
    put_zeros(&mut out, ((8 - pos % 8) % 8) as usize);
    let section_table_offset: u64 = out.len() as u64;
    let ghost front = out@;
    assert(front =~= front0 + zeros(pad8(front0.len() as int)));
    sections.push(
        SectionEntry {
            section_type: SECTION_COUNTER_SUMMARY,
            flags: 0,
            reserved: 0,
            offset: write_start,
            size: blob.len() as u64,
        },
    );
    proof {
        lemma_views_self(sections@);
    }
    write_all::<SectionEntry>(&sections, &mut out);
    let end = SectionEntry { section_type: SECTION_END, flags: 0, reserved: 0, offset: 0, size: 0 };
    end.write_to(&mut out);
    let ghost table = encode_all::<SectionEntry>(sections@) + SectionEntry::encode(end_section());
    assert(out@ =~= front + table);
    let mut new_header: FileHeader = *header;
    new_header.section_table_offset = section_table_offset;
    let mut img: Vec<u8> = Vec::new();
    new_header.write_to(&mut img);
    if out.len() > 48 {
        put_slice(&mut img, vstd::slice::slice_subrange(out.as_slice(), 48, out.len()));
        assert(out@.subrange(48, out@.len() as int) =~= suffix(out@, 48));
    } else {
        assert(suffix(out@, 48) =~= Seq::<u8>::empty());
    }
    assert(img@ =~= FileHeader::encode(new_header) + suffix(out@, 48));
    img
}

/// Compute trace summary (counter mipmaps + instruction density) and embed it
/// in a finalized trace, whose new form is returned. A trace without anything
/// to count stays as it is.
///
/// `period_ps` is the clock period in picoseconds, which converts absolute
/// timestamps to cycle numbers.
pub fn embed_trace_summary(image: Vec<u8>, period_ps: u64) -> (res: Result<Vec<u8>, TraceError>)
    ensures
        match embed_of(image@, period_ps) {
            Ok(img) => res is Ok && res->Ok_0@ == img,
            Err(e) => res == Err::<Vec<u8>, TraceError>(e),
        },
{
    let reader = match Reader::open(image) {
        Err(e) => return Err(e),
        Ok(r) => r,
    };
    assert(reader@.data == image@);
    let summary = match compute_trace_summary(&reader, period_ps) {
        Err(e) => return Err(e),
        Ok(s) => s,
    };
    let data = reader.image();
    if summary.counters.len() == 0 && summary.total_instructions == 0 {
        let mut same: Vec<u8> = Vec::new();
        put_slice(&mut same, data);
        assert(same@ =~= data@);
        return Ok(same);
    }
    assert(summary@.counters.len() == summary.counters@.len());
    let header = reader.header();
    if header.section_table_offset == 0 {
        return Err(TraceError::NotFinalized);
    }
    let mut r = ByteReader::at(data, header.section_table_offset);
    let entries = match read_sections(&mut r) {
        Err(e) => return Err(e),
        Ok(s) => s,
    };
    let (_kept, old_offset) = split_sections(&entries);
    let write_start: u64 = match old_offset {
        Some(offset) => offset,
        None => header.section_table_offset,
    };
    if write_start > MAX_IMAGE {
        return Err(TraceError::TraceTooLarge);
    }
    Ok(write_summary(data, header, &entries, &summary, write_start))
}

/// Another name of `embed_trace_summary`.
pub fn embed_counter_summary(image: Vec<u8>, period_ps: u64) -> (res: Result<Vec<u8>, TraceError>)
    ensures
        match embed_of(image@, period_ps) {
            Ok(img) => res is Ok && res->Ok_0@ == img,
            Err(e) => res == Err::<Vec<u8>, TraceError>(e),
        },
{
    embed_trace_summary(image, period_ps)
}

// ---------------------------------------------------------------------------
// Laws.

/// The summary of a trace depends on its schema and segments alone, not on
/// what stands behind them.
pub proof fn law_summary_same(
    v: ReaderView,
    w: ReaderView,
    rec: Recording,
    a: Seq<u8>,
    b: Seq<u8>,
    period: u64,
)
    requires
        sound(rec),
        reads(v, rec, a),
        reads(w, rec, b),
    ensures
        summary_of(v, period) == summary_of(w, period),
{
    let counters = counters_of(rec.schema, rec.schema.storages.len() as int);
    let entities = entities_from(rec.schema, 0);
    lemma_gathered_same(v, w, rec, a, b, rec.segments.len() as int, counters, entities, period);
}

proof fn lemma_gathered_same(
    v: ReaderView,
    w: ReaderView,
    rec: Recording,
    a: Seq<u8>,
    b: Seq<u8>,
    n: int,
    counters: Seq<CounterView>,
    entities: Option<(u16, u16)>,
    period: u64,
)
    requires
        sound(rec),
        reads(v, rec, a),
        reads(w, rec, b),
        n <= rec.segments.len(),
    ensures
        gathered(v, n, counters, entities, period) == gathered(w, n, counters, entities, period),
    decreases n,
{
    if n > 0 {
        lemma_gathered_same(v, w, rec, a, b, n - 1, counters, entities, period);
        law_segment_replay(v, rec, a, n - 1, None);
        law_segment_replay(w, rec, b, n - 1, None);
    }
}

/// What stands behind the segments of a finished trace with a summary.
pub open spec fn closing_with(rec: Recording, s: SummaryView) -> Seq<u8> {
    let start = rec.section_table_at();
    let blob = s.encode();
    rec.string_section() + (rec.segment_section() + (zeros(pad8(rec.sections_end())) + (blob + (
    zeros(pad8(start + blob.len())) + (encode_all::<SectionEntry>(
        rec.sections().push(summary_entry(start as u64, s)),
    ) + SectionEntry::encode(end_section()))))))
}

/// The header of a finished trace with a summary.
pub open spec fn header_with(rec: Recording, time: u64, s: SummaryView) -> FileHeader {
    let end = rec.section_table_at() + s.encode().len();
    FileHeader { section_table_offset: (end + pad8(end)) as u64, ..rec.final_header(time) }
}

/// A finished trace with a summary.
pub open spec fn image_with(rec: Recording, time: u64, s: SummaryView) -> Seq<u8> {
    FileHeader::encode(header_with(rec, time, s)) + (rec.body() + closing_with(rec, s))
}

/// Whether the sections of a recording fit in their places.
pub open spec fn closable(rec: Recording) -> bool {
    &&& sound(rec)
    &&& rec.strings.len() <= u32::MAX
    &&& string_data(rec.strings).len() <= u32::MAX
}

/// No section of a recording is a summary.
proof fn lemma_plain_sections(rec: Recording)
    ensures
        kept_sections(rec.sections()) == rec.sections(),
        old_summary(rec.sections()) is None,
{
    let s = rec.sections();
    reveal_with_fuel(kept_sections, 3);
    reveal_with_fuel(old_summary, 3);
    assert(kept_sections(s) =~= s);
}

/// Cutting a trace at the section table, and putting another header in front.
proof fn lemma_embedded_at(
    head: Seq<u8>,
    new_head: Seq<u8>,
    body: Seq<u8>,
    strings: Seq<u8>,
    segments: Seq<u8>,
    pad: Seq<u8>,
    rest: Seq<u8>,
    more: Seq<u8>,
)
    requires
        head.len() == 48,
    ensures
        ({
            let data = head + (body + (strings + (segments + (pad + rest))));
            let n = 48 + body.len() + strings.len() + segments.len() + pad.len();
            &&& n <= data.len()
            &&& data.take(n as int) == head + (body + (strings + (segments + pad)))
            &&& new_head + suffix(data.take(n as int) + more, 48) == new_head + (body + (strings + (
            segments + (pad + more))))
        }),
{
    let data = head + (body + (strings + (segments + (pad + rest))));
    let front = head + (body + (strings + (segments + pad)));
    let n = 48 + body.len() + strings.len() + segments.len() + pad.len();
    lemma_join_assoc(segments, pad, rest);
    lemma_join_assoc(strings, segments + pad, rest);
    lemma_join_assoc(body, strings + (segments + pad), rest);
    lemma_join_assoc(head, body + (strings + (segments + pad)), rest);
    assert(data == front + rest);
    assert(data.take(n as int) =~= front);
    lemma_join_assoc(segments, pad, more);
    lemma_join_assoc(strings, segments + pad, more);
    lemma_join_assoc(body, strings + (segments + pad), more);
    lemma_join_assoc(head, body + (strings + (segments + pad)), more);
    lemma_suffix_join(head, body + (strings + (segments + (pad + more))));
}

/// Embedding a summary in a finished trace puts it behind the segment table.
proof fn lemma_embedded_first(rec: Recording, time: u64, s: SummaryView)
    requires
        closable(rec),
    ensures
        embedded(rec.closed_image(time), rec.final_header(time), rec.sections(), s) == image_with(
            rec,
            time,
            s,
        ),
{
    let h = rec.final_header(time);
    let pad = zeros(pad8(rec.sections_end()));
    let blob = s.encode();
    let start = rec.section_table_at();
    let pad2 = zeros(pad8(start + blob.len()));
    let entry = summary_entry(start as u64, s);
    let table = encode_all::<SectionEntry>(rec.sections().push(entry)) + SectionEntry::encode(
        end_section(),
    );
    lemma_sections_bound(rec);
    lemma_plain_sections(rec);
    let h2 = header_with(rec, time, s);
    lemma_embedded_at(
        FileHeader::encode(h),
        FileHeader::encode(h2),
        rec.body(),
        rec.string_section(),
        rec.segment_section(),
        pad,
        encode_all::<SectionEntry>(rec.sections()) + SectionEntry::encode(end_section()),
        blob + (pad2 + table),
    );
    let front = rec.closed_image(time).take(start);
    lemma_join_assoc(front, blob, pad2);
    lemma_join_assoc(front, blob + pad2, table);
    lemma_join_assoc(blob, pad2, table);
}

/// Embedding a summary in a trace that has one replaces it.
proof fn lemma_embedded_again(rec: Recording, time: u64, s: SummaryView, t: SummaryView)
    requires
        closable(rec),
    ensures
        embedded(
            image_with(rec, time, s),
            header_with(rec, time, s),
            rec.sections().push(summary_entry(rec.section_table_at() as u64, s)),
            t,
        ) == image_with(rec, time, t),
{
    let h = header_with(rec, time, s);
    let pad = zeros(pad8(rec.sections_end()));
    let start = rec.section_table_at();
    let old_blob = s.encode();
    let old_entries = rec.sections().push(summary_entry(start as u64, s));
    let old_rest = old_blob + (zeros(pad8(start + old_blob.len())) + (encode_all::<SectionEntry>(
        old_entries,
    ) + SectionEntry::encode(end_section())));
    let blob = t.encode();
    let pad2 = zeros(pad8(start + blob.len()));
    let entry = summary_entry(start as u64, t);
    let table = encode_all::<SectionEntry>(rec.sections().push(entry)) + SectionEntry::encode(
        end_section(),
    );
    lemma_sections_bound(rec);
    lemma_plain_sections(rec);
    assert(old_entries.drop_last() =~= rec.sections());
    assert(kept_sections(old_entries) == rec.sections());
    let h2 = header_with(rec, time, t);
    lemma_embedded_at(
        FileHeader::encode(h),
        FileHeader::encode(h2),
        rec.body(),
        rec.string_section(),
        rec.segment_section(),
        pad,
        old_rest,
        blob + (pad2 + table),
    );
    let front = image_with(rec, time, s).take(start);
    lemma_join_assoc(front, blob, pad2);
    lemma_join_assoc(front, blob + pad2, table);
    lemma_join_assoc(blob, pad2, table);
}

/// What the sections of a recording hold, wherever its header points.
proof fn lemma_base_sections(rec: Recording, data: Seq<u8>, after: Seq<u8>, behind: Seq<u8>)
    requires
        closable(rec),
        rec.segments_at() + 24 * rec.segments.len() <= u64::MAX,
        suffix(data, rec.strings_at()) == rec.string_section() + after,
        suffix(data, rec.segments_at()) == rec.segment_section() + behind,
    ensures
        with_sections(data, no_sections(), rec.sections()) == Ok::<Sections, TraceError>(
            Sections {
                table: segment_index(rec.base(), rec.segments),
                strings: strings_read(rec),
                summary: None,
            },
        ),
{
    let index = segment_index(rec.base(), rec.segments);
    lemma_sections_bound(rec);
    let none = Seq::<SectionEntry>::empty();
    let first = if rec.strings.len() == 0 {
        none
    } else {
        seq![rec.string_entry()]
    };
    let x = Sections { strings: strings_read(rec), ..no_sections() };
    assert(with_sections(data, no_sections(), none) == Ok::<Sections, TraceError>(no_sections()));
    if rec.strings.len() > 0 {
        assert(first.drop_last() =~= none);
        law_strings_roundtrip(rec.strings, after);
    }
    assert(with_sections(data, no_sections(), first) == Ok::<Sections, TraceError>(x));
    if rec.segments.len() > 0 {
        assert(rec.sections().drop_last() =~= first);
        law_all_roundtrip::<SegmentIndexEntry>(index, behind);
        assert(segment_table(data, rec.segment_entry().offset, rec.segment_entry().size) == Ok::<
            Seq<SegmentIndexEntry>,
            TraceError,
        >(index));
    } else {
        assert(rec.sections() =~= first);
        assert(index =~= Seq::<SegmentIndexEntry>::empty());
    }
}

/// What a reader makes of the bytes of a summary: nothing where it cannot read
/// them, which it can where its counts fit their places.
pub open spec fn summary_found(s: SummaryView) -> Option<SummaryView> {
    match parse_summary(s.encode()) {
        Ok(found) => Some(found),
        Err(_) => None,
    }
}

/// What the sections of a trace with a summary hold.
proof fn lemma_sections_with(rec: Recording, time: u64, s: SummaryView)
    requires
        closable(rec),
        image_with(rec, time, s).len() <= u64::MAX,
    ensures
        parse_sections(
            suffix(
                image_with(rec, time, s),
                header_with(rec, time, s).section_table_offset as int,
            ),
        ) == Ok::<Seq<SectionEntry>, TraceError>(
            rec.sections().push(summary_entry(rec.section_table_at() as u64, s)),
        ),
        sections_of(image_with(rec, time, s), header_with(rec, time, s)) == Ok::<
            Sections,
            TraceError,
        >(
            Sections {
                table: segment_index(rec.base(), rec.segments),
                strings: strings_read(rec),
                summary: summary_found(s),
            },
        ),
{
    let data = image_with(rec, time, s);
    let h = header_with(rec, time, s);
    let head = FileHeader::encode(h);
    let body = rec.body();
    let strings = rec.string_section();
    let segments = rec.segment_section();
    let pad = zeros(pad8(rec.sections_end()));
    let start = rec.section_table_at();
    let blob = s.encode();
    let pad2 = zeros(pad8(start + blob.len()));
    let entry = summary_entry(start as u64, s);
    let all = rec.sections().push(entry);
    let table = encode_all::<SectionEntry>(all) + SectionEntry::encode(end_section());
    let index = segment_index(rec.base(), rec.segments);
    lemma_flags(rec.header().flags);
    lemma_sections_bound(rec);
    lemma_suffixes(head, body, strings, segments, pad, blob + (pad2 + table));
    let at = suffix(data, start);
    assert(at == blob + (pad2 + table));
    lemma_suffix_join(blob, pad2 + table);
    lemma_suffix_join(pad2, table);
    lemma_suffix_suffix(at, blob.len() as int, pad2.len() as int);
    lemma_suffix_suffix(data, start, (blob.len() + pad2.len()) as int);
    lemma_image_len(rec, time, s);
    assert(h.section_table_offset == start + blob.len() + pad2.len());
    assert(suffix(data, h.section_table_offset as int) == table);
    lemma_sections_roundtrip(all);
    let y = Sections { table: index, strings: strings_read(rec), summary: None };
    lemma_base_sections(
        rec,
        data,
        segments + (pad + (blob + (pad2 + table))),
        pad + (blob + (pad2 + table)),
    );
    assert(all.drop_last() =~= rec.sections());
    assert(at.subrange(0, blob.len() as int) =~= blob);
    assert(with_section(data, y, entry) == Ok::<Sections, TraceError>(
        Sections { summary: summary_found(s), ..y },
    ));
}

/// What a reader of a finished trace with a summary has.
pub open spec fn reader_with(rec: Recording, time: u64, s: SummaryView) -> ReaderView {
    ReaderView {
        summary: summary_found(s),
        ..reader_of(
            image_with(rec, time, s),
            header_with(rec, time, s),
            rec,
            strings_read(rec),
        )
    }
}

proof fn lemma_opened_with(rec: Recording, time: u64, s: SummaryView)
    requires
        closable(rec),
        image_with(rec, time, s).len() <= u64::MAX,
    ensures
        opened(image_with(rec, time, s)) == Ok::<ReaderView, TraceError>(
            reader_with(rec, time, s),
        ),
        reads(reader_with(rec, time, s), rec, closing_with(rec, s)),
{
    lemma_flags(rec.header().flags);
    lemma_sections_with(rec, time, s);
    let x = Sections {
        table: segment_index(rec.base(), rec.segments),
        strings: strings_read(rec),
        summary: summary_found(s),
    };
    lemma_opened(
        image_with(rec, time, s),
        header_with(rec, time, s),
        rec,
        closing_with(rec, s),
        x,
    );
}

/// The section table of a finished trace without a summary.
pub proof fn lemma_table_of_closed(rec: Recording, time: u64)
    requires
        closable(rec),
    ensures
        48 < rec.section_table_at() < u64::MAX,
        parse_sections(
            suffix(rec.closed_image(time), rec.final_header(time).section_table_offset as int),
        ) == Ok::<Seq<SectionEntry>, TraceError>(rec.sections()),
{
    lemma_sections_bound(rec);
    let table = encode_all::<SectionEntry>(rec.sections()) + SectionEntry::encode(end_section());
    lemma_suffixes(
        FileHeader::encode(rec.final_header(time)),
        rec.body(),
        rec.string_section(),
        rec.segment_section(),
        zeros(pad8(rec.sections_end())),
        table,
    );
    lemma_sections_roundtrip(rec.sections());
}

/// How long a trace with a summary is.
proof fn lemma_image_len(rec: Recording, time: u64, s: SummaryView)
    ensures
        rec.section_table_at() + s.encode().len() + pad8(
            rec.section_table_at() + s.encode().len(),
        ) <= image_with(rec, time, s).len(),
{
}

/// Embedding the summary of a finished trace keeps everything in it and adds
/// the summary. A reader then finds the summary, where its counts fit their
/// places.
#[verifier::spinoff_prover]
#[verifier::rlimit(60)]
pub proof fn law_embed(rec: Recording, time: u64, period: u64, s: SummaryView)
    requires
        closable(rec),
        rec.section_table_at() <= MAX_IMAGE,
        image_with(rec, time, s).len() <= u64::MAX,
        s.counters.len() > 0 || s.total_instructions > 0,
        summary_of(
            reader_of(rec.closed_image(time), rec.final_header(time), rec, strings_read(rec)),
            period,
        ) == Ok::<SummaryView, TraceError>(s),
    ensures
        embed_of(rec.closed_image(time), period) == Ok::<Seq<u8>, TraceError>(
            image_with(rec, time, s),
        ),
        opened(image_with(rec, time, s)) == Ok::<ReaderView, TraceError>(
            reader_with(rec, time, s),
        ),
        s.encodable() ==> reader_with(rec, time, s).summary == Some(s),
{
    law_closed_image(rec, time);
    lemma_opened_with(rec, time, s);
    lemma_table_of_closed(rec, time);
    lemma_plain_sections(rec);
    lemma_embedded_first(rec, time, s);
    if s.encodable() {
        law_summary_roundtrip(s);
    }
}

/// Embedding the summary of a finished trace a second time gives the same trace
/// as the first time: the old summary is replaced, not added to. The only limit
/// is that the length of the trace is a 64-bit number.
#[verifier::spinoff_prover]
#[verifier::rlimit(60)]
pub proof fn law_embed_again(rec: Recording, time: u64, period: u64, image: Seq<u8>)
    requires
        closable(rec),
        embed_of(rec.closed_image(time), period) == Ok::<Seq<u8>, TraceError>(image),
        image.len() <= u64::MAX,
    ensures
        embed_of(image, period) == Ok::<Seq<u8>, TraceError>(image),
{
    let v = reader_of(
        rec.closed_image(time),
        rec.final_header(time),
        rec,
        strings_read(rec),
    );
    law_closed_image(rec, time);
    let s = summary_of(v, period)->Ok_0;
    if s.counters.len() > 0 || s.total_instructions > 0 {
        lemma_table_of_closed(rec, time);
        lemma_plain_sections(rec);
        lemma_embedded_first(rec, time, s);
        assert(image == image_with(rec, time, s));
        let w = reader_with(rec, time, s);
        lemma_opened_with(rec, time, s);
        law_summary_same(v, w, rec, crate::roundtrip::closing(rec), closing_with(rec, s), period);
        lemma_image_len(rec, time, s);
        lemma_sections_with(rec, time, s);
        lemma_embedded_again(rec, time, s, s);
        let entries = rec.sections().push(summary_entry(rec.section_table_at() as u64, s));
        assert(entries.last() == summary_entry(rec.section_table_at() as u64, s));
        assert(summary_start(w.header, entries) == rec.section_table_at());
    }
}

// ---------------------------------------------------------------------------
// The older wire format of summaries.

/// Read summary header and level descriptors.
pub fn read_summary_header(r: &mut ByteReader<'_>) -> (res: Result<
    (SummaryHeader, Vec<LevelDesc>),
    TraceError,
>)
    ensures
        match SummaryHeader::decode(old(r)@) {
            Err(e) => res == Err::<(SummaryHeader, Vec<LevelDesc>), TraceError>(e),
            Ok((h, n)) => match decode_n::<LevelDesc>(
                suffix(old(r)@, n),
                h.num_levels as nat,
            ) {
                Err(e) => res == Err::<(SummaryHeader, Vec<LevelDesc>), TraceError>(e),
                Ok((levels, k)) => {
                    &&& res is Ok
                    &&& res->Ok_0.0 == h
                    &&& res->Ok_0.1@ == levels
                    &&& final(r)@ == suffix(suffix(old(r)@, n), k)
                },
            },
        },
{
    let header = match SummaryHeader::read_from(r) {
        Err(e) => return Err(e),
        Ok(h) => h,
    };
    match read_n::<LevelDesc>(r, header.num_levels as usize) {
        Err(e) => Err(e),
        Ok(levels) => {
            proof {
                lemma_views_self(levels@);
            }
            Ok((header, levels))
        },
    }
}

/// Write summary header and level descriptors.
pub fn write_summary_header(w: &mut Vec<u8>, header: &SummaryHeader, levels: &Vec<LevelDesc>)
    ensures
        final(w)@ == old(w)@ + SummaryHeader::encode(*header) + encode_all::<LevelDesc>(levels@),
{
    header.write_to(w);
    write_all::<LevelDesc>(levels, w);
    proof {
        lemma_views_self(levels@);
    }
}

/// A header with its level descriptors is read back as it was written.
pub proof fn law_summary_header_roundtrip(
    header: SummaryHeader,
    levels: Seq<LevelDesc>,
    rest: Seq<u8>,
)
    requires
        SummaryHeader::encodable(header),
        header.num_levels == levels.len(),
    ensures
        ({
            let s = SummaryHeader::encode(header) + (encode_all::<LevelDesc>(levels) + rest);
            let n = SummaryHeader::encode(header).len() as int;
            &&& SummaryHeader::decode(s) == Ok::<(SummaryHeader, int), TraceError>((header, n))
            &&& decode_n::<LevelDesc>(suffix(s, n), levels.len()) == Ok::<
                (Seq<LevelDesc>, int),
                TraceError,
            >((levels, encode_all::<LevelDesc>(levels).len() as int))
        }),
{
    let more = encode_all::<LevelDesc>(levels) + rest;
    SummaryHeader::law_roundtrip(header, more);
    lemma_suffix_join(SummaryHeader::encode(header), more);
    law_all_roundtrip::<LevelDesc>(levels, rest);
}

} // verus!
