//! Trace summary (multi-resolution summary) for fast rendering.
//!
//! A pyramid of min/max/sum buckets over counter deltas and an instruction
//! density mipmap, so that a viewer can pick the appropriate resolution level
//! for the current zoom, and map rows to cycles instantly.

use vstd::prelude::*;
use vstd::string::StringSliceAdditionalSpecFns;
use vstd::utf8::{
    decode_utf8, encode_utf8, encode_utf8_decode_utf8, encode_utf8_valid_utf8, valid_utf8,
};
use crate::bytes::{
    get_u16, get_u32, get_u64, lemma_at_same, lemma_u16_at, lemma_u32_at, lemma_u64_at, put_u16,
    put_u32, put_u64, suffix, u16_at, u16_bytes, u32_at, u32_bytes, u64_at, u64_bytes, ByteReader,
};
pub use crate::embed::{
    embed_counter_summary, embed_trace_summary, read_summary_header, write_summary_header,
};
use crate::error::TraceError;
pub use crate::summarize::{compute_counter_summary, compute_trace_summary};
use crate::text::utf8_str;
use crate::types::{copy_vec, put_slice};
use crate::wire::{
    decode_n, encode_all, law_all_roundtrip, lemma_decode_n_bounds, lemma_join_assoc,
    lemma_suffix_join, lemma_suffix_suffix, read_n, views, write_all, Wire,
};

verus! {

broadcast use crate::bytes::group_le_len;

/// A single mipmap bucket entry for a counter.
#[derive(Debug, Clone, Copy)]
pub struct MipmapEntry {
    /// Minimum per-cycle delta observed in this bucket.
    pub min_delta: u64,
    /// Maximum per-cycle delta observed in this bucket.
    pub max_delta: u64,
    /// Total delta accumulated in this bucket.
    pub sum: u64,
}

impl Default for MipmapEntry {
    fn default() -> (e: MipmapEntry)
        ensures
            e == (MipmapEntry { min_delta: 0, max_delta: 0, sum: 0 }),
    {
        MipmapEntry { min_delta: 0, max_delta: 0, sum: 0 }
    }
}

impl View for MipmapEntry {
    type V = MipmapEntry;

    open spec fn view(&self) -> MipmapEntry {
        *self
    }
}

impl Wire for MipmapEntry {
    open spec fn encode(v: MipmapEntry) -> Seq<u8> {
        u64_bytes(v.min_delta) + u64_bytes(v.max_delta) + u64_bytes(v.sum)
    }

    open spec fn decode(s: Seq<u8>) -> Result<(MipmapEntry, int), TraceError> {
        if s.len() < 24 {
            Err(TraceError::UnexpectedEof)
        } else {
            Ok(
                (
                    MipmapEntry {
                        min_delta: u64_at(s, 0),
                        max_delta: u64_at(s, 8),
                        sum: u64_at(s, 16),
                    },
                    24,
                ),
            )
        }
    }

    open spec fn encodable(v: MipmapEntry) -> bool {
        true
    }

    fn write_to(&self, w: &mut Vec<u8>) {
        put_u64(w, self.min_delta);
        put_u64(w, self.max_delta);
        put_u64(w, self.sum);
        assert(w@ =~= old(w)@ + Self::encode(*self));
    }

    fn read_from(r: &mut ByteReader<'_>) -> (res: Result<MipmapEntry, TraceError>) {
        proof {
            reveal(u16_at);
            reveal(u32_at);
            reveal(u64_at);
        }
        let b = match r.take(24) {
            Err(e) => return Err(e),
            Ok(b) => b,
        };
        Ok(MipmapEntry { min_delta: get_u64(b, 0), max_delta: get_u64(b, 8), sum: get_u64(b, 16) })
    }

    proof fn law_decode_bounds(s: Seq<u8>) {
    }

    proof fn law_roundtrip(v: MipmapEntry, rest: Seq<u8>) {
        let s = Self::encode(v) + rest;
        assert(s.subrange(0, 8) =~= u64_bytes(v.min_delta));
        lemma_u64_at(s, 0, v.min_delta);
        assert(s.subrange(8, 16) =~= u64_bytes(v.max_delta));
        lemma_u64_at(s, 8, v.max_delta);
        assert(s.subrange(16, 24) =~= u64_bytes(v.sum));
        lemma_u64_at(s, 16, v.sum);
    }
}

impl Wire for u32 {
    open spec fn encode(v: u32) -> Seq<u8> {
        u32_bytes(v)
    }

    open spec fn decode(s: Seq<u8>) -> Result<(u32, int), TraceError> {
        if s.len() < 4 {
            Err(TraceError::UnexpectedEof)
        } else {
            Ok((u32_at(s, 0), 4))
        }
    }

    open spec fn encodable(v: u32) -> bool {
        true
    }

    fn write_to(&self, w: &mut Vec<u8>) {
        put_u32(w, *self);
    }

    fn read_from(r: &mut ByteReader<'_>) -> (res: Result<u32, TraceError>) {
        proof {
            reveal(u16_at);
            reveal(u32_at);
        }
        let b = match r.take(4) {
            Err(e) => return Err(e),
            Ok(b) => b,
        };
        Ok(get_u32(b, 0))
    }

    proof fn law_decode_bounds(s: Seq<u8>) {
    }

    proof fn law_roundtrip(v: u32, rest: Seq<u8>) {
        let s = Self::encode(v) + rest;
        assert(s.subrange(0, 4) =~= u32_bytes(v));
        lemma_u32_at(s, 0, v);
    }
}

// ---------------------------------------------------------------------------
// Lists with their length in front, and lists of such lists.

/// The bytes of a level: the number of its entries, then the entries.
pub open spec fn level_bytes<T: Wire>(level: Seq<T::V>) -> Seq<u8> {
    u32_bytes(level.len() as u32) + encode_all::<T>(level)
}

/// The level at the start of `s` and how many bytes it takes.
pub open spec fn parse_level<T: Wire>(s: Seq<u8>) -> Result<(Seq<T::V>, int), TraceError> {
    if s.len() < 4 {
        Err(TraceError::UnexpectedEof)
    } else {
        match decode_n::<T>(suffix(s, 4), u32_at(s, 0) as nat) {
            Err(e) => Err(e),
            Ok((level, k)) => Ok((level, 4 + k)),
        }
    }
}

/// The bytes of some levels.
pub open spec fn levels_bytes<T: Wire>(levels: Seq<Seq<T::V>>) -> Seq<u8>
    decreases levels.len(),
{
    if levels.len() == 0 {
        Seq::empty()
    } else {
        levels_bytes::<T>(levels.drop_last()) + level_bytes::<T>(levels.last())
    }
}

/// The `n` levels at the start of `s` and how many bytes they take.
pub open spec fn parse_levels<T: Wire>(s: Seq<u8>, n: nat) -> Result<
    (Seq<Seq<T::V>>, int),
    TraceError,
>
    decreases n,
{
    if n == 0 {
        Ok((Seq::empty(), 0))
    } else {
        match parse_levels::<T>(s, (n - 1) as nat) {
            Err(e) => Err(e),
            Ok((levels, k)) => match parse_level::<T>(suffix(s, k)) {
                Err(e) => Err(e),
                Ok((level, m)) => Ok((levels.push(level), k + m)),
            },
        }
    }
}

/// The views of the entries of some levels.
pub open spec fn level_views<T: View>(levels: Seq<Vec<T>>) -> Seq<Seq<T::V>> {
    levels.map_values(|l: Vec<T>| views(l@))
}

proof fn lemma_level_bounds<T: Wire>(s: Seq<u8>)
    ensures
        parse_level::<T>(s) is Ok ==> 0 <= parse_level::<T>(s)->Ok_0.1 <= s.len(),
{
    if s.len() >= 4 {
        lemma_decode_n_bounds::<T>(suffix(s, 4), u32_at(s, 0) as nat);
    }
}

proof fn lemma_levels_bounds<T: Wire>(s: Seq<u8>, n: nat)
    ensures
        parse_levels::<T>(s, n) is Ok ==> 0 <= parse_levels::<T>(s, n)->Ok_0.1 <= s.len(),
    decreases n,
{
    if n > 0 {
        lemma_levels_bounds::<T>(s, (n - 1) as nat);
        match parse_levels::<T>(s, (n - 1) as nat) {
            Err(e) => {},
            Ok((levels, k)) => {
                lemma_level_bounds::<T>(suffix(s, k));
            },
        }
    }
}

proof fn lemma_levels_err<T: Wire>(s: Seq<u8>, i: nat, n: nat)
    requires
        i <= n,
        parse_levels::<T>(s, i) is Err,
    ensures
        parse_levels::<T>(s, n) is Err,
        parse_levels::<T>(s, n)->Err_0 == parse_levels::<T>(s, i)->Err_0,
    decreases n,
{
    if i < n {
        lemma_levels_err::<T>(s, i, (n - 1) as nat);
    }
}

/// A level is read back as it was written.
pub proof fn law_level_roundtrip<T: Wire>(level: Seq<T::V>, rest: Seq<u8>)
    requires
        level.len() <= u32::MAX,
        forall|i: int| 0 <= i < level.len() ==> T::encodable(#[trigger] level[i]),
    ensures
        parse_level::<T>(level_bytes::<T>(level) + rest) == Ok::<(Seq<T::V>, int), TraceError>(
            (level, level_bytes::<T>(level).len() as int),
        ),
{
    let s = level_bytes::<T>(level) + rest;
    let n = u32_bytes(level.len() as u32);
    lemma_join_assoc(n, encode_all::<T>(level), rest);
    lemma_suffix_join(n, encode_all::<T>(level) + rest);
    assert(s.subrange(0, 4) =~= n);
    lemma_u32_at(s, 0, level.len() as u32);
    law_all_roundtrip::<T>(level, rest);
}

/// Whether every level is short enough, and every entry can be written.
pub open spec fn levels_encodable<T: Wire>(levels: Seq<Seq<T::V>>) -> bool {
    forall|i: int, j: int|
        0 <= i < levels.len() && 0 <= j < levels[i].len() ==> T::encodable(#[trigger] levels[i][j])
}

/// Whether every level has few enough entries for its count.
pub open spec fn levels_short<V>(levels: Seq<Seq<V>>) -> bool {
    forall|i: int| 0 <= i < levels.len() ==> (#[trigger] levels[i]).len() <= u32::MAX
}

/// Levels are read back as they were written.
pub proof fn law_levels_roundtrip<T: Wire>(levels: Seq<Seq<T::V>>, rest: Seq<u8>)
    requires
        levels_short(levels),
        levels_encodable::<T>(levels),
    ensures
        parse_levels::<T>(levels_bytes::<T>(levels) + rest, levels.len()) == Ok::<
            (Seq<Seq<T::V>>, int),
            TraceError,
        >((levels, levels_bytes::<T>(levels).len() as int)),
    decreases levels.len(),
{
    if levels.len() > 0 {
        let init = levels.drop_last();
        let last = levels.last();
        assert(last == levels[levels.len() - 1]);
        assert forall|i: int| 0 <= i < init.len() implies (#[trigger] init[i]).len()
            <= u32::MAX by {
            assert(init[i] == levels[i]);
        }
        assert forall|i: int, j: int|
            0 <= i < init.len() && 0 <= j < init[i].len() implies T::encodable(
            #[trigger] init[i][j],
        ) by {
            assert(init[i][j] == levels[i][j]);
        }
        assert forall|j: int| 0 <= j < last.len() implies T::encodable(#[trigger] last[j]) by {
            assert(last[j] == levels[levels.len() - 1][j]);
        }
        let front = levels_bytes::<T>(init);
        let tail = level_bytes::<T>(last) + rest;
        law_levels_roundtrip::<T>(init, tail);
        lemma_join_assoc(front, level_bytes::<T>(last), rest);
        lemma_suffix_join(front, tail);
        law_level_roundtrip::<T>(last, rest);
        assert(init.push(last) =~= levels);
    } else {
        assert(levels =~= Seq::empty());
    }
}

/// Appends a level.
fn write_level<T: Wire>(level: &Vec<T>, w: &mut Vec<u8>)
    ensures
        final(w)@ == old(w)@ + level_bytes::<T>(views(level@)),
{
    put_u32(w, level.len() as u32);
    write_all::<T>(level, w);
    assert(w@ =~= old(w)@ + level_bytes::<T>(views(level@)));
}

/// Appends some levels.
fn write_levels<T: Wire>(levels: &Vec<Vec<T>>, w: &mut Vec<u8>)
    ensures
        final(w)@ == old(w)@ + levels_bytes::<T>(level_views(levels@)),
{
    let ghost all = level_views(levels@);
    let mut i: usize = 0;
    assert(all.take(0) =~= Seq::<Seq<T::V>>::empty());
    assert(w@ =~= old(w)@ + levels_bytes::<T>(all.take(0)));
    while i < levels.len()
        invariant
            i <= levels@.len(),
            all == level_views(levels@),
            w@ == old(w)@ + levels_bytes::<T>(all.take(i as int)),
        decreases levels@.len() - i,
    {
        proof {
            assert(all.take(i + 1).drop_last() =~= all.take(i as int));
            assert(all.take(i + 1).last() == views(levels@[i as int]@));
        }
        write_level::<T>(&levels[i], w);
        i = i + 1;
        assert(w@ =~= old(w)@ + levels_bytes::<T>(all.take(i as int)));
    }
    assert(all.take(i as int) =~= all);
}

/// Reads a level.
fn read_level<T: Wire>(r: &mut ByteReader<'_>) -> (res: Result<Vec<T>, TraceError>)
    ensures
        match parse_level::<T>(old(r)@) {
            Ok((level, n)) => 0 <= n <= old(r)@.len() && res is Ok && views(res->Ok_0@) == level
                && final(r)@ == suffix(old(r)@, n),
            Err(e) => res == Err::<Vec<T>, TraceError>(e),
        },
{
    let ghost s = r@;
    let count: u32 = match u32::read_from(r) {
        Err(e) => return Err(e),
        Ok(n) => n,
    };
    proof {
        lemma_level_bounds::<T>(s);
    }
    match read_n::<T>(r, count as usize) {
        Err(e) => Err(e),
        Ok(level) => {
            proof {
                let k = decode_n::<T>(suffix(s, 4), count as nat)->Ok_0.1;
                lemma_suffix_suffix(s, 4, k);
            }
            Ok(level)
        },
    }
}

/// Reads `n` levels.
fn read_levels<T: Wire>(r: &mut ByteReader<'_>, n: usize) -> (res: Result<
    Vec<Vec<T>>,
    TraceError,
>)
    ensures
        match parse_levels::<T>(old(r)@, n as nat) {
            Ok((levels, k)) => 0 <= k <= old(r)@.len() && res is Ok && level_views(res->Ok_0@)
                == levels && final(r)@ == suffix(old(r)@, k),
            Err(e) => res == Err::<Vec<Vec<T>>, TraceError>(e),
        },
{
    let ghost start = r@;
    let mut out: Vec<Vec<T>> = Vec::new();
    let mut i: usize = 0;
    let ghost mut k: int = 0;
    proof {
        assert(level_views(out@) =~= Seq::<Seq<T::V>>::empty());
        assert(suffix(start, 0) =~= start);
    }
    while i < n
        invariant
            i <= n,
            start == old(r)@,
            0 <= k <= start.len(),
            r@ == suffix(start, k),
            parse_levels::<T>(start, i as nat) == Ok::<(Seq<Seq<T::V>>, int), TraceError>(
                (level_views(out@), k),
            ),
        decreases n - i,
    {
        match read_level::<T>(r) {
            Err(e) => {
                proof {
                    lemma_levels_err::<T>(start, (i + 1) as nat, n as nat);
                }
                return Err(e);
            },
            Ok(level) => {
                let ghost before = out@;
                out.push(level);
                proof {
                    let m = parse_level::<T>(suffix(start, k))->Ok_0.1;
                    lemma_suffix_suffix(start, k, m);
                    k = k + m;
                    assert(level_views(out@) =~= level_views(before).push(views(level@)));
                }
                i = i + 1;
            },
        }
    }
    Ok(out)
}

// ---------------------------------------------------------------------------
// Counter mipmaps.

/// Multi-level mipmap for a single counter.
#[derive(Debug)]
pub struct CounterMipmap {
    /// Human-readable counter name.
    pub name: String,
    /// Storage ID in the schema.
    pub storage_id: u16,
    /// Levels from finest (index 0) to coarsest. Each level divides the
    /// resolution by `fan_out`.
    pub levels: Vec<Vec<MipmapEntry>>,
}

/// What a `CounterMipmap` holds.
#[verifier::ext_equal]
pub struct CounterMipmapView {
    pub name: Seq<char>,
    pub storage_id: u16,
    pub levels: Seq<Seq<MipmapEntry>>,
}

impl View for CounterMipmap {
    type V = CounterMipmapView;

    open spec fn view(&self) -> CounterMipmapView {
        CounterMipmapView {
            name: self.name@,
            storage_id: self.storage_id,
            levels: level_views(self.levels@),
        }
    }
}

impl Wire for CounterMipmap {
    open spec fn encode(v: CounterMipmapView) -> Seq<u8> {
        u32_bytes(encode_utf8(v.name).len() as u32) + (encode_utf8(v.name) + (u16_bytes(
            v.storage_id,
        ) + (u32_bytes(v.levels.len() as u32) + levels_bytes::<MipmapEntry>(v.levels))))
    }

    open spec fn decode(s: Seq<u8>) -> Result<(CounterMipmapView, int), TraceError> {
        let n = u32_at(s, 0) as int;
        if s.len() < 4 || s.len() < 4 + n {
            Err(TraceError::UnexpectedEof)
        } else if !valid_utf8(s.subrange(4, 4 + n)) {
            Err(TraceError::InvalidCounterName)
        } else if s.len() < 10 + n {
            Err(TraceError::UnexpectedEof)
        } else {
            match parse_levels::<MipmapEntry>(suffix(s, 10 + n), u32_at(s, 6 + n) as nat) {
                Err(e) => Err(e),
                Ok((levels, k)) => Ok(
                    (
                        CounterMipmapView {
                            name: decode_utf8(s.subrange(4, 4 + n)),
                            storage_id: u16_at(s, 4 + n),
                            levels,
                        },
                        10 + n + k,
                    ),
                ),
            }
        }
    }

    open spec fn encodable(v: CounterMipmapView) -> bool {
        &&& encode_utf8(v.name).len() <= u32::MAX
        &&& v.levels.len() <= u32::MAX
        &&& levels_short(v.levels)
    }

    fn write_to(&self, w: &mut Vec<u8>) {
        let name = self.name.as_str().as_bytes();
        put_u32(w, name.len() as u32);
        put_slice(w, name);
        put_u16(w, self.storage_id);
        put_u32(w, self.levels.len() as u32);
        write_levels::<MipmapEntry>(&self.levels, w);
        assert(w@ =~= old(w)@ + Self::encode(self@));
    }

    fn read_from(r: &mut ByteReader<'_>) -> (res: Result<CounterMipmap, TraceError>) {
        let ghost s = r@;
        let n: u32 = match u32::read_from(r) {
            Err(e) => return Err(e),
            Ok(n) => n,
        };
        let name_bytes = match r.take(n as usize) {
            Err(e) => return Err(e),
            Ok(b) => b,
        };
        assert(name_bytes@ =~= s.subrange(4, 4 + n as int));
        let name: &str = match utf8_str(name_bytes) {
            None => return Err(TraceError::InvalidCounterName),
            Some(t) => t,
        };
        let h = match r.take(6) {
            Err(e) => return Err(e),
            Ok(h) => h,
        };
        let storage_id: u16 = get_u16(h, 0);
        let count: u32 = get_u32(h, 2);
        proof {
            assert(h@ =~= s.subrange(4 + n, 10 + n));
            lemma_at_same(h@, 0, s, 4 + n, 2);
            lemma_at_same(h@, 2, s, 6 + n, 4);
            assert(r@ =~= suffix(s, 10 + n));
        }
        let levels = match read_levels::<MipmapEntry>(r, count as usize) {
            Err(e) => return Err(e),
            Ok(l) => l,
        };
        proof {
            let k = parse_levels::<MipmapEntry>(suffix(s, 10 + n), count as nat)->Ok_0.1;
            lemma_suffix_suffix(s, 10 + n, k);
        }
        Ok(CounterMipmap { name: name.to_owned(), storage_id, levels })
    }

    proof fn law_decode_bounds(s: Seq<u8>) {
        let n = u32_at(s, 0) as int;
        if s.len() >= 10 + n {
            lemma_levels_bounds::<MipmapEntry>(suffix(s, 10 + n), u32_at(s, 6 + n) as nat);
        }
    }

    proof fn law_roundtrip(v: CounterMipmapView, rest: Seq<u8>) {
        let s = Self::encode(v) + rest;
        let name = encode_utf8(v.name);
        let n = name.len() as int;
        let levels = levels_bytes::<MipmapEntry>(v.levels);
        assert(s.subrange(0, 4) =~= u32_bytes(n as u32));
        lemma_u32_at(s, 0, n as u32);
        assert(s.subrange(4, 4 + n) =~= name);
        encode_utf8_valid_utf8(v.name);
        encode_utf8_decode_utf8(v.name);
        assert(s.subrange(4 + n, 6 + n) =~= u16_bytes(v.storage_id));
        lemma_u16_at(s, 4 + n, v.storage_id);
        assert(s.subrange(6 + n, 10 + n) =~= u32_bytes(v.levels.len() as u32));
        lemma_u32_at(s, 6 + n, v.levels.len() as u32);
        assert(suffix(s, 10 + n) =~= levels + rest);
        law_levels_roundtrip::<MipmapEntry>(v.levels, rest);
    }
}

// ---------------------------------------------------------------------------
// Trace summary.

/// Trace summary with instruction density mipmap and counter mipmaps.
#[derive(Debug)]
pub struct TraceSummary {
    /// Number of cycles per level-0 bucket.
    pub base_interval_cycles: u32,
    /// Number of child buckets aggregated into one parent bucket.
    pub fan_out: u32,
    /// Total number of instructions in the trace.
    pub total_instructions: u64,
    /// Instruction count per bucket at each mipmap level.
    /// Level 0 = instruction count per base_interval_cycles bucket.
    /// Level N = aggregated by fan_out from level N-1.
    pub instruction_density: Vec<Vec<u32>>,
    /// Per-counter mipmaps.
    pub counters: Vec<CounterMipmap>,
}

/// What a `TraceSummary` holds.
#[verifier::ext_equal]
pub struct SummaryView {
    pub base_interval_cycles: u32,
    pub fan_out: u32,
    pub total_instructions: u64,
    pub instruction_density: Seq<Seq<u32>>,
    pub counters: Seq<CounterMipmapView>,
}

/// Another name of `TraceSummary`.
pub type CounterSummary = TraceSummary;

impl View for TraceSummary {
    type V = SummaryView;

    open spec fn view(&self) -> SummaryView {
        SummaryView {
            base_interval_cycles: self.base_interval_cycles,
            fan_out: self.fan_out,
            total_instructions: self.total_instructions,
            instruction_density: level_views(self.instruction_density@),
            counters: views(self.counters@),
        }
    }
}

/// "TSUM".
pub const TRACE_SUMMARY_MAGIC: [u8; 4] = [0x54, 0x53, 0x55, 0x4D];

/// "CSUM".
pub const COUNTER_SUMMARY_MAGIC: [u8; 4] = [0x43, 0x53, 0x55, 0x4D];

impl SummaryView {
    /// The serialized summary.
    pub open spec fn encode(self) -> Seq<u8> {
        self.head() + (levels_bytes::<u32>(self.instruction_density) + (u32_bytes(
            self.counters.len() as u32,
        ) + encode_all::<CounterMipmap>(self.counters)))
    }

    /// What stands before the density levels.
    pub open spec fn head(self) -> Seq<u8> {
        TRACE_SUMMARY_MAGIC@ + u32_bytes(self.base_interval_cycles) + u32_bytes(self.fan_out)
            + u64_bytes(self.total_instructions) + u32_bytes(self.instruction_density.len() as u32)
    }

    /// Whether every count fits in its place.
    pub open spec fn encodable(self) -> bool {
        &&& self.instruction_density.len() <= u32::MAX
        &&& levels_short(self.instruction_density)
        &&& self.counters.len() <= u32::MAX
        &&& forall|i: int|
            0 <= i < self.counters.len() ==> CounterMipmap::encodable(#[trigger] self.counters[i])
    }
}

/// The counter mipmaps behind their number at the start of `s`.
pub open spec fn parse_counters(s: Seq<u8>) -> Result<Seq<CounterMipmapView>, TraceError> {
    if s.len() < 4 {
        Err(TraceError::UnexpectedEof)
    } else {
        match decode_n::<CounterMipmap>(suffix(s, 4), u32_at(s, 0) as nat) {
            Err(e) => Err(e),
            Ok((counters, _)) => Ok(counters),
        }
    }
}

/// The summary that `s` holds, with densities or, in its older form, without.
pub open spec fn parse_summary(s: Seq<u8>) -> Result<SummaryView, TraceError> {
    if s.len() < 4 {
        Err(TraceError::UnexpectedEof)
    } else if s.subrange(0, 4) == TRACE_SUMMARY_MAGIC@ {
        if s.len() < 24 {
            Err(TraceError::UnexpectedEof)
        } else {
            match parse_levels::<u32>(suffix(s, 24), u32_at(s, 20) as nat) {
                Err(e) => Err(e),
                Ok((instruction_density, k)) => match parse_counters(suffix(s, 24 + k)) {
                    Err(e) => Err(e),
                    Ok(counters) => Ok(
                        SummaryView {
                            base_interval_cycles: u32_at(s, 4),
                            fan_out: u32_at(s, 8),
                            total_instructions: u64_at(s, 12),
                            instruction_density,
                            counters,
                        },
                    ),
                },
            }
        }
    } else if s.subrange(0, 4) == COUNTER_SUMMARY_MAGIC@ {
        if s.len() < 12 {
            Err(TraceError::UnexpectedEof)
        } else {
            match parse_counters(suffix(s, 12)) {
                Err(e) => Err(e),
                Ok(counters) => Ok(
                    SummaryView {
                        base_interval_cycles: u32_at(s, 4),
                        fan_out: u32_at(s, 8),
                        total_instructions: 0,
                        instruction_density: Seq::empty(),
                        counters,
                    },
                ),
            }
        }
    } else {
        Err(TraceError::InvalidSummaryMagic)
    }
}

/// A summary is read back as it was written.
pub proof fn law_summary_roundtrip(v: SummaryView)
    requires
        v.encodable(),
    ensures
        parse_summary(v.encode()) == Ok::<SummaryView, TraceError>(v),
{
    let s = v.encode();
    let density = levels_bytes::<u32>(v.instruction_density);
    let count = u32_bytes(v.counters.len() as u32);
    let counters = encode_all::<CounterMipmap>(v.counters);
    let tail = density + (count + counters);
    let head = v.head();
    assert(s == head + tail);
    assert(s.subrange(0, 4) =~= TRACE_SUMMARY_MAGIC@);
    assert(s.subrange(4, 8) =~= u32_bytes(v.base_interval_cycles));
    lemma_u32_at(s, 4, v.base_interval_cycles);
    assert(s.subrange(8, 12) =~= u32_bytes(v.fan_out));
    lemma_u32_at(s, 8, v.fan_out);
    assert(s.subrange(12, 20) =~= u64_bytes(v.total_instructions));
    lemma_u64_at(s, 12, v.total_instructions);
    assert(s.subrange(20, 24) =~= u32_bytes(v.instruction_density.len() as u32));
    lemma_u32_at(s, 20, v.instruction_density.len() as u32);
    lemma_suffix_join(head, tail);
    law_levels_roundtrip::<u32>(v.instruction_density, count + counters);
    lemma_suffix_suffix(s, 24, density.len() as int);
    lemma_suffix_join(density, count + counters);
    let c = count + counters;
    assert(c.subrange(0, 4) =~= count);
    lemma_u32_at(c, 0, v.counters.len() as u32);
    lemma_suffix_join(count, counters);
    law_all_roundtrip::<CounterMipmap>(v.counters, Seq::empty());
    assert(counters + Seq::<u8>::empty() =~= counters);
}

/// Serialize a `TraceSummary` to a self-contained byte vector: the magic
/// "TSUM", the base interval, the fan-out, the total, the density levels, and
/// the counters with their names, storages and levels. Each list has its
/// length in front.
pub fn serialize_trace_summary(summary: &TraceSummary) -> (buf: Vec<u8>)
    ensures
        buf@ == summary@.encode(),
{
    let mut buf: Vec<u8> = Vec::new();
    buf.push(TRACE_SUMMARY_MAGIC[0]);
    buf.push(TRACE_SUMMARY_MAGIC[1]);
    buf.push(TRACE_SUMMARY_MAGIC[2]);
    buf.push(TRACE_SUMMARY_MAGIC[3]);
    assert(buf@ =~= TRACE_SUMMARY_MAGIC@);
    put_u32(&mut buf, summary.base_interval_cycles);
    put_u32(&mut buf, summary.fan_out);
    put_u64(&mut buf, summary.total_instructions);
    put_u32(&mut buf, summary.instruction_density.len() as u32);
    assert(buf@ =~= summary@.head());
    write_levels::<u32>(&summary.instruction_density, &mut buf);
    put_u32(&mut buf, summary.counters.len() as u32);
    write_all::<CounterMipmap>(&summary.counters, &mut buf);
    assert(buf@ =~= summary@.encode());
    buf
}

/// Another name of `serialize_trace_summary`.
pub fn serialize_counter_summary(summary: &TraceSummary) -> (buf: Vec<u8>)
    ensures
        buf@ == summary@.encode(),
{
    serialize_trace_summary(summary)
}

/// Reads counter mipmaps behind their number.
fn read_counter_mipmaps(r: &mut ByteReader<'_>) -> (res: Result<Vec<CounterMipmap>, TraceError>)
    ensures
        match parse_counters(old(r)@) {
            Ok(c) => res is Ok && views(res->Ok_0@) == c,
            Err(e) => res == Err::<Vec<CounterMipmap>, TraceError>(e),
        },
{
    let count: u32 = match u32::read_from(r) {
        Err(e) => return Err(e),
        Ok(n) => n,
    };
    read_n::<CounterMipmap>(r, count as usize)
}

/// Deserialize a `TraceSummary` from bytes.
///
/// Handles both TSUM (with density) and CSUM (older, counters only) magic.
pub fn deserialize_trace_summary(data: &[u8]) -> (res: Result<TraceSummary, TraceError>)
    ensures
        match parse_summary(data@) {
            Ok(v) => res is Ok && res->Ok_0@ == v,
            Err(e) => res == Err::<TraceSummary, TraceError>(e),
        },
{
    let ghost s = data@;
    let mut r = ByteReader::new(data);
    let m = match r.take(4) {
        Err(e) => return Err(e),
        Ok(m) => m,
    };
    let t = TRACE_SUMMARY_MAGIC;
    let c = COUNTER_SUMMARY_MAGIC;
    if m[0] == t[0] && m[1] == t[1] && m[2] == t[2] && m[3] == t[3] {
        assert(s.subrange(0, 4) =~= TRACE_SUMMARY_MAGIC@);
        let h = match r.take(20) {
            Err(e) => return Err(e),
            Ok(h) => h,
        };
        proof {
            assert(h@ =~= s.subrange(4, 24));
            lemma_at_same(h@, 0, s, 4, 4);
            lemma_at_same(h@, 4, s, 8, 4);
            lemma_at_same(h@, 8, s, 12, 8);
            lemma_at_same(h@, 16, s, 20, 4);
            assert(r@ =~= suffix(s, 24));
        }
        let num_levels: u32 = get_u32(h, 16);
        let instruction_density = match read_levels::<u32>(&mut r, num_levels as usize) {
            Err(e) => return Err(e),
            Ok(d) => d,
        };
        proof {
            let k = parse_levels::<u32>(suffix(s, 24), num_levels as nat)->Ok_0.1;
            lemma_suffix_suffix(s, 24, k);
        }
        let counters = match read_counter_mipmaps(&mut r) {
            Err(e) => return Err(e),
            Ok(c) => c,
        };
        Ok(
            TraceSummary {
                base_interval_cycles: get_u32(h, 0),
                fan_out: get_u32(h, 4),
                total_instructions: get_u64(h, 8),
                instruction_density,
                counters,
            },
        )
    } else if m[0] == c[0] && m[1] == c[1] && m[2] == c[2] && m[3] == c[3] {
        assert(s.subrange(0, 4) =~= COUNTER_SUMMARY_MAGIC@);
        assert(s.subrange(0, 4)[0] != TRACE_SUMMARY_MAGIC@[0]);
        let h = match r.take(8) {
            Err(e) => return Err(e),
            Ok(h) => h,
        };
        proof {
            assert(h@ =~= s.subrange(4, 12));
            lemma_at_same(h@, 0, s, 4, 4);
            lemma_at_same(h@, 4, s, 8, 4);
            assert(r@ =~= suffix(s, 12));
        }
        let counters = match read_counter_mipmaps(&mut r) {
            Err(e) => return Err(e),
            Ok(c) => c,
        };
        let instruction_density: Vec<Vec<u32>> = Vec::new();
        assert(level_views(instruction_density@) =~= Seq::<Seq<u32>>::empty());
        Ok(
            TraceSummary {
                base_interval_cycles: get_u32(h, 0),
                fan_out: get_u32(h, 4),
                total_instructions: 0,
                instruction_density,
                counters,
            },
        )
    } else {
        Err(TraceError::InvalidSummaryMagic)
    }
}

/// Another name of `deserialize_trace_summary`.
pub fn deserialize_counter_summary(data: &[u8]) -> (res: Result<TraceSummary, TraceError>)
    ensures
        match parse_summary(data@) {
            Ok(v) => res is Ok && res->Ok_0@ == v,
            Err(e) => res == Err::<TraceSummary, TraceError>(e),
        },
{
    deserialize_trace_summary(data)
}

/// Copies some levels.
fn copy_levels<T: Copy + View<V = T>>(levels: &Vec<Vec<T>>) -> (r: Vec<Vec<T>>)
    requires
        forall|t: T| #[trigger] t.view() == t,
    ensures
        level_views(r@) == level_views(levels@),
{
    let mut r: Vec<Vec<T>> = Vec::new();
    let mut i: usize = 0;
    while i < levels.len()
        invariant
            i <= levels@.len(),
            level_views(r@) == level_views(levels@).take(i as int),
        decreases levels@.len() - i,
    {
        let level = copy_vec(&levels[i]);
        let ghost before = level_views(r@);
        r.push(level);
        assert(level_views(r@) =~= before.push(views(level@)));
        i = i + 1;
        assert(level_views(r@) =~= level_views(levels@).take(i as int));
    }
    assert(level_views(r@) =~= level_views(levels@));
    r
}

impl Clone for CounterMipmap {
    fn clone(&self) -> (c: CounterMipmap)
        ensures
            c@ == self@,
    {
        CounterMipmap {
            name: self.name.clone(),
            storage_id: self.storage_id,
            levels: copy_levels(&self.levels),
        }
    }
}

impl Clone for TraceSummary {
    fn clone(&self) -> (s: TraceSummary)
        ensures
            s@ == self@,
    {
        let mut counters: Vec<CounterMipmap> = Vec::new();
        let mut i: usize = 0;
        while i < self.counters.len()
            invariant
                i <= self.counters@.len(),
                views(counters@) == views(self.counters@).take(i as int),
            decreases self.counters@.len() - i,
        {
            let c = self.counters[i].clone();
            let ghost before = views(counters@);
            counters.push(c);
            assert(views(counters@) =~= before.push(c@));
            i = i + 1;
            assert(views(counters@) =~= views(self.counters@).take(i as int));
        }
        assert(views(counters@) =~= views(self.counters@));
        TraceSummary {
            base_interval_cycles: self.base_interval_cycles,
            fan_out: self.fan_out,
            total_instructions: self.total_instructions,
            instruction_density: copy_levels(&self.instruction_density),
            counters,
        }
    }
}

} // verus!
