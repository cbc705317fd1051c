//! Segment reading utilities: chain walking, binary search in segment table.

use vstd::prelude::*;
use crate::bytes::{suffix, ByteReader};
use crate::error::TraceError;
use crate::types::{lemma_views_self, SegmentHeader, SegmentIndexEntry};
use crate::wire::{decode_n, read_n, Wire};

verus! {

/// The segment header at a byte offset of a trace.
pub open spec fn segment_at(data: Seq<u8>, offset: u64) -> Result<SegmentHeader, TraceError> {
    match SegmentHeader::decode(suffix(data, offset as int)) {
        Ok((h, _)) => Ok(h),
        Err(e) => Err(e),
    }
}

/// Read a segment header at a given byte offset.
pub fn read_segment_at(data: &[u8], offset: u64) -> (r: Result<SegmentHeader, TraceError>)
    ensures
        r == segment_at(data@, offset),
{
    let mut reader = ByteReader::at(data, offset);
    SegmentHeader::read_from(&mut reader)
}

/// The segments from behind the one at `stop` to the one at `offset`, found by
/// walking the chain backwards, at most `steps` segments far.
pub open spec fn chain_until(data: Seq<u8>, offset: u64, stop: u64, steps: nat) -> Result<
    Seq<(u64, SegmentHeader)>,
    TraceError,
>
    decreases steps,
{
    if offset == 0 || offset == stop {
        Ok(Seq::empty())
    } else if steps == 0 {
        Err(TraceError::SegmentChainLoop)
    } else {
        match segment_at(data, offset) {
            Err(e) => Err(e),
            Ok(h) => match chain_until(data, h.prev_segment_offset, stop, (steps - 1) as nat) {
                Err(e) => Err(e),
                Ok(before) => Ok(before.push((offset, h))),
            },
        }
    }
}

/// All segments up to the one at `tail`. A trace has fewer segments than
/// bytes, so a longer chain goes round in circles.
pub open spec fn chain(data: Seq<u8>, tail: u64) -> Result<
    Seq<(u64, SegmentHeader)>,
    TraceError,
> {
    chain_until(data, tail, 0, data.len())
}

/// Segments of a chain as entries of a segment table.
pub open spec fn chain_entries(segments: Seq<(u64, SegmentHeader)>) -> Seq<SegmentIndexEntry> {
    segments.map_values(
        |s: (u64, SegmentHeader)|
            SegmentIndexEntry {
                offset: s.0,
                time_start_ps: s.1.time_start_ps,
                time_end_ps: s.1.time_end_ps,
            },
    )
}

/// The outcome with `more` segments put behind.
pub open spec fn chain_then(
    r: Result<Seq<(u64, SegmentHeader)>, TraceError>,
    more: Seq<(u64, SegmentHeader)>,
) -> Result<Seq<(u64, SegmentHeader)>, TraceError> {
    match r {
        Err(e) => Err(e),
        Ok(s) => Ok(s + more),
    }
}

/// The same in the opposite order.
fn reversed(v: &Vec<(u64, SegmentHeader)>) -> (r: Vec<(u64, SegmentHeader)>)
    ensures
        r@ == v@.reverse(),
{
    let mut r: Vec<(u64, SegmentHeader)> = Vec::new();
    let mut i: usize = v.len();
    while i > 0
        invariant
            i <= v@.len(),
            r@ == v@.reverse().take(v@.len() - i),
        decreases i,
    {
        i = i - 1;
        r.push(v[i]);
        assert(r@ =~= v@.reverse().take(v@.len() - i));
    }
    assert(r@ =~= v@.reverse());
    r
}

/// Walk the segment chain backwards from `tail_offset` to the start or to the
/// segment at `stop`, collecting segment headers, the first segment first.
pub fn walk_until(data: &[u8], tail_offset: u64, stop: u64) -> (r: Result<
    Vec<(u64, SegmentHeader)>,
    TraceError,
>)
    ensures
        match chain_until(data@, tail_offset, stop, data@.len()) {
            Ok(s) => r is Ok && r->Ok_0@ == s,
            Err(e) => r == Err::<Vec<(u64, SegmentHeader)>, TraceError>(e),
        },
{
    let mut segments: Vec<(u64, SegmentHeader)> = Vec::new();
    let mut offset: u64 = tail_offset;
    let mut steps: usize = data.len();
    let ghost whole = chain_until(data@, tail_offset, stop, data@.len());
    proof {
        if whole is Ok {
            assert(whole->Ok_0 + segments@.reverse() =~= whole->Ok_0);
        }
    }
    while offset != 0 && offset != stop
        invariant
            whole == chain_until(data@, tail_offset, stop, data@.len()),
            whole == chain_then(
                chain_until(data@, offset, stop, steps as nat),
                segments@.reverse(),
            ),
        decreases steps,
    {
        if steps == 0 {
            return Err(TraceError::SegmentChainLoop);
        }
        let header = match read_segment_at(data, offset) {
            Err(e) => return Err(e),
            Ok(h) => h,
        };
        let ghost before = segments@;
        let ghost o = offset;
        segments.push((offset, header));
        proof {
            let rest = chain_until(data@, header.prev_segment_offset, stop, (steps - 1) as nat);
            if rest is Ok {
                assert(rest->Ok_0.push((o, header)) + before.reverse() =~= rest->Ok_0
                    + segments@.reverse());
            }
        }
        offset = header.prev_segment_offset;
        steps = steps - 1;
    }
    let r = reversed(&segments);
    assert(Seq::<(u64, SegmentHeader)>::empty() + r@ =~= r@);
    Ok(r)
}

/// Walk the segment chain backwards from tail_offset, collecting all segment
/// headers, the first segment first.
pub fn walk_chain(data: &[u8], tail_offset: u64) -> (r: Result<
    Vec<(u64, SegmentHeader)>,
    TraceError,
>)
    ensures
        match chain(data@, tail_offset) {
            Ok(s) => r is Ok && r->Ok_0@ == s,
            Err(e) => r == Err::<Vec<(u64, SegmentHeader)>, TraceError>(e),
        },
{
    walk_until(data, tail_offset, 0)
}

/// Makes entries of a segment table of the segments of a chain.
pub fn index_chain(segments: &Vec<(u64, SegmentHeader)>) -> (r: Vec<SegmentIndexEntry>)
    ensures
        r@ == chain_entries(segments@),
{
    let mut r: Vec<SegmentIndexEntry> = Vec::new();
    let mut i: usize = 0;
    while i < segments.len()
        invariant
            i <= segments@.len(),
            r@ == chain_entries(segments@).take(i as int),
        decreases segments@.len() - i,
    {
        let (offset, h) = segments[i];
        r.push(
            SegmentIndexEntry {
                offset,
                time_start_ps: h.time_start_ps,
                time_end_ps: h.time_end_ps,
            },
        );
        i = i + 1;
        assert(r@ =~= chain_entries(segments@).take(i as int));
    }
    assert(chain_entries(segments@).take(i as int) =~= chain_entries(segments@));
    r
}

/// Where a binary search between `lo` and `hi` ends: the number of segments,
/// as far as it looks, that start at or before `time`.
pub open spec fn search(table: Seq<SegmentIndexEntry>, time: u64, lo: int, hi: int) -> int
    decreases hi - lo,
{
    if lo >= hi {
        lo
    } else {
        let mid = lo + (hi - lo) / 2;
        if table[mid].time_start_ps <= time {
            search(table, time, mid + 1, hi)
        } else {
            search(table, time, lo, mid)
        }
    }
}

/// The segment that a binary search finds for a time.
pub open spec fn segment_for_time(table: Seq<SegmentIndexEntry>, time: u64) -> Option<int> {
    let n = search(table, time, 0, table.len() as int);
    if n == 0 {
        None
    } else {
        Some(n - 1)
    }
}

/// Segments that start one after the other.
pub open spec fn starts_sorted(table: Seq<SegmentIndexEntry>) -> bool {
    forall|i: int, j: int|
        0 <= i <= j < table.len() ==> table[i].time_start_ps <= table[j].time_start_ps
}

proof fn lemma_search(table: Seq<SegmentIndexEntry>, time: u64, lo: int, hi: int)
    requires
        starts_sorted(table),
        0 <= lo <= hi <= table.len(),
        forall|i: int| 0 <= i < lo ==> table[i].time_start_ps <= time,
        forall|i: int| hi <= i < table.len() ==> table[i].time_start_ps > time,
    ensures
        lo <= search(table, time, lo, hi) <= hi,
        forall|i: int|
            0 <= i < table.len() ==> (table[i].time_start_ps <= time <==> i < search(
                table,
                time,
                lo,
                hi,
            )),
    decreases hi - lo,
{
    if lo < hi {
        let mid = lo + (hi - lo) / 2;
        if table[mid].time_start_ps <= time {
            lemma_search(table, time, mid + 1, hi);
        } else {
            lemma_search(table, time, lo, mid);
        }
    }
}

/// In a table of segments that start one after the other, the search finds
/// the last that starts at or before the time, and none where all start later.
pub proof fn law_segment_for_time(table: Seq<SegmentIndexEntry>, time: u64)
    requires
        starts_sorted(table),
    ensures
        match segment_for_time(table, time) {
            Some(i) => {
                &&& 0 <= i < table.len()
                &&& table[i].time_start_ps <= time
                &&& forall|j: int| i < j < table.len() ==> table[j].time_start_ps > time
            },
            None => forall|j: int| 0 <= j < table.len() ==> table[j].time_start_ps > time,
        },
{
    lemma_search(table, time, 0, table.len() as int);
}

/// The search stays inside the table, whatever its order.
pub proof fn lemma_search_bounds(table: Seq<SegmentIndexEntry>, time: u64, lo: int, hi: int)
    requires
        lo <= hi,
    ensures
        lo <= search(table, time, lo, hi) <= hi,
    decreases hi - lo,
{
    if lo < hi {
        let mid = lo + (hi - lo) / 2;
        if table[mid].time_start_ps <= time {
            lemma_search_bounds(table, time, mid + 1, hi);
        } else {
            lemma_search_bounds(table, time, lo, mid);
        }
    }
}

/// Binary search the segment table for the segment containing the given time.
pub fn find_segment_for_time(table: &[SegmentIndexEntry], time_ps: u64) -> (r: Option<usize>)
    ensures
        match segment_for_time(table@, time_ps) {
            Some(i) => r is Some && r->Some_0 == i && 0 <= i < table@.len(),
            None => r is None,
        },
{
    let mut lo: usize = 0;
    let mut hi: usize = table.len();
    proof {
        lemma_search_bounds(table@, time_ps, 0, table@.len() as int);
    }
    while lo < hi
        invariant
            lo <= hi <= table@.len(),
            search(table@, time_ps, 0, table@.len() as int) == search(
                table@,
                time_ps,
                lo as int,
                hi as int,
            ),
        decreases hi - lo,
    {
        let mid: usize = lo + (hi - lo) / 2;
        if table[mid].time_start_ps <= time_ps {
            lo = mid + 1;
        } else {
            hi = mid;
        }
    }
    if lo == 0 {
        None
    } else {
        Some(lo - 1)
    }
}

/// A table of `size` bytes cannot be read from fewer bytes.
proof fn lemma_table_needs(s: Seq<u8>, n: nat)
    requires
        24 * n > s.len(),
    ensures
        decode_n::<SegmentIndexEntry>(s, n) == Err::<(Seq<SegmentIndexEntry>, int), TraceError>(
            TraceError::UnexpectedEof,
        ),
    decreases n,
{
    reveal(decode_n);
    let m = (n - 1) as nat;
    if 24 * m > s.len() {
        lemma_table_needs(s, m);
    } else {
        lemma_table_takes(s, m);
    }
}

/// A table of `n` entries that is there takes 24 bytes for each.
pub proof fn lemma_table_takes(s: Seq<u8>, n: nat)
    requires
        24 * n <= s.len(),
    ensures
        decode_n::<SegmentIndexEntry>(s, n) is Ok,
        decode_n::<SegmentIndexEntry>(s, n)->Ok_0.1 == 24 * n,
    decreases n,
{
    reveal(decode_n);
    if n > 0 {
        lemma_table_takes(s, (n - 1) as nat);
    }
}

/// The segment table of `size` bytes at a byte offset of a trace. Bytes that
/// are no whole entry are left out.
pub open spec fn segment_table(data: Seq<u8>, offset: u64, size: u64) -> Result<
    Seq<SegmentIndexEntry>,
    TraceError,
> {
    match decode_n::<SegmentIndexEntry>(suffix(data, offset as int), (size / 24) as nat) {
        Ok((t, _)) => Ok(t),
        Err(e) => Err(e),
    }
}

/// Read the segment table from a finalized file.
pub fn read_segment_table(data: &[u8], offset: u64, size: u64) -> (r: Result<
    Vec<SegmentIndexEntry>,
    TraceError,
>)
    ensures
        match segment_table(data@, offset, size) {
            Ok(t) => r is Ok && r->Ok_0@ == t,
            Err(e) => r == Err::<Vec<SegmentIndexEntry>, TraceError>(e),
        },
{
    let mut reader = ByteReader::at(data, offset);
    let count: u64 = size / 24;
    let available: u64 = reader.remaining() as u64;
    if count > available / 24 {
        proof {
            lemma_table_needs(reader@, count as nat);
        }
        return Err(TraceError::UnexpectedEof);
    }
    match read_n::<SegmentIndexEntry>(&mut reader, count as usize) {
        Err(e) => Err(e),
        Ok(t) => {
            proof {
                lemma_views_self(t@);
            }
            Ok(t)
        },
    }
}

} // verus!
