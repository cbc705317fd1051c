//! LZ4 compression of delta blobs.

use vstd::prelude::*;
use crate::bytes::{get_u32, u32_at};
use crate::error::TraceError;

verus! {

/// The error of `lz4_flex::decompress_size_prepended`.
#[verifier::external_type_specification]
#[verifier::external_body]
pub struct ExDecompressError(lz4_flex::block::DecompressError);

/// What `lz4_flex::decompress_size_prepended` makes of `data`: the raw bytes,
/// or nothing where it reports an error.
pub uninterp spec fn lz4_decompressed(data: Seq<u8>) -> Option<Seq<u8>>;

/// How many bytes from `i` on are 0xFF.
pub open spec fn run_at(s: Seq<u8>, i: int) -> nat
    decreases s.len() - i,
{
    if 0 <= i < s.len() && s[i] == 0xFF {
        1 + run_at(s, i + 1)
    } else {
        0
    }
}

/// The length that is written at `i`: all bytes up to the first that is not
/// 0xFF, added up. The last may be missing.
pub open spec fn length_at(s: Seq<u8>, i: int) -> int {
    let end = i + run_at(s, i);
    255 * run_at(s, i) + if 0 <= end < s.len() {
        s[end] as int
    } else {
        0
    }
}

/// Where the length that is written at `i` ends.
pub open spec fn length_end(s: Seq<u8>, i: int) -> int {
    i + run_at(s, i) + 1
}

/// Whether no length in the LZ4 sequences from `i` on is above `limit`. A
/// sequence is a token, literals, and two bytes of offset for a match. The
/// token has four bits for the number of literals and four for the length of
/// the match; where these are all set, more of the length is written behind
/// the token, or behind the offset. The last sequence has no match.
pub open spec fn lengths_fit(s: Seq<u8>, i: int, limit: int) -> bool
    decreases s.len() - i,
{
    if i < 0 || i >= s.len() {
        true
    } else {
        let long = s[i] / 16 == 15;
        let extra = if long {
            length_at(s, i + 1)
        } else {
            0
        };
        let literals = if long {
            length_end(s, i + 1)
        } else {
            i + 1
        };
        let behind = literals + s[i] / 16 + extra + 2;
        &&& extra <= limit
        &&& extra >= 0 && behind <= s.len() ==> if s[i] % 16 == 15 {
            let next = length_end(s, behind);
            length_at(s, behind) <= limit && (next <= s.len() ==> lengths_fit(s, next, limit))
        } else {
            lengths_fit(s, behind, limit)
        }
    }
}

/// The raw size that a blob claims to have.
pub open spec fn claimed_size(s: Seq<u8>) -> int {
    if s.len() >= 4 {
        u32_at(s, 0) as int
    } else {
        0
    }
}

/// The largest length that can be added up: in 32 bits by itself, and in a
/// `usize` together with what the token says and the bytes before.
pub open spec fn length_limit(size: int) -> int {
    let room = usize::MAX - 19 - size;
    if room < u32::MAX {
        room
    } else {
        u32::MAX as int
    }
}

/// Whether decompressing `s` stays within the limits of the machine: the raw
/// bytes can be held, and no length overflows. No blob beyond them is valid: a
/// length above the limit is more than there are bytes.
#[verifier::opaque]
pub open spec fn decompressible(s: Seq<u8>) -> bool {
    claimed_size(s) <= isize::MAX && lengths_fit(s, 4, length_limit(claimed_size(s)))
}

/// The raw bytes of a compressed blob, where it is one.
pub open spec fn unpacked(data: Seq<u8>) -> Option<Seq<u8>> {
    if decompressible(data) {
        lz4_decompressed(data)
    } else {
        None
    }
}

/// Whether that many raw bytes can be compressed at once: their number is
/// written in 32 bits, and the room for the blob is computed in a `usize`.
pub open spec fn compressible(n: int) -> bool {
    n <= u32::MAX && n * 110 <= usize::MAX
}

/// The longest blob for that many raw bytes.
pub open spec fn longest_blob(n: int) -> int {
    24 + n * 110 / 100
}

/// Whether that many raw bytes can be compressed at once.
pub(crate) fn is_compressible(n: usize) -> (b: bool)
    ensures
        b == compressible(n as int),
{
    n as u64 <= u32::MAX as u64 && n <= usize::MAX / 110
}

/// `lz4_flex::compress_prepend_size`: a blob that claims the size of `raw` and
/// decompresses to it. It is at most four bytes longer than
/// `get_maximum_output_size` allows, which multiplies the size by 110 in a
/// `usize`. No length in it is above the size of `raw`, so that decompressing
/// it overflows nothing. Which blob comes out is left unsaid: it depends on the
/// machine, whose byte order and width of addresses decide how repetitions are
/// looked for.
#[verifier::external_body]
pub(crate) fn lz4_compress(raw: &[u8]) -> (out: Vec<u8>)
    requires
        compressible(raw@.len() as int),
    ensures
        lz4_decompressed(out@) == Some(raw@),
        claimed_size(out@) == raw@.len(),
        decompressible(out@),
        out@.len() <= longest_blob(raw@.len() as int),
{
    lz4_flex::compress_prepend_size(raw)
}

/// `lz4_flex::decompress_size_prepended`: the raw bytes, or an error, as the
/// blob alone decides. It makes room for as many bytes as the blob claims and
/// adds up lengths in 32 bits and in a `usize`; blobs for which that would
/// panic are kept out.
#[verifier::external_body]
pub(crate) fn lz4_decompress(data: &[u8]) -> (r: Result<Vec<u8>, lz4_flex::block::DecompressError>)
    requires
        decompressible(data@),
    ensures
        match r {
            Ok(raw) => lz4_decompressed(data@) == Some(raw@),
            Err(_) => lz4_decompressed(data@) is None,
        },
{
    lz4_flex::decompress_size_prepended(data)
}

/// Adds up the length that is written at `from`. Gives it with where it ends,
/// where it does, and nothing if it is above the limit.
fn add_length(data: &[u8], from: usize, limit: u64) -> (r: Option<(u64, Option<usize>)>)
    requires
        from <= data@.len(),
        limit <= u32::MAX,
    ensures
        match r {
            None => length_at(data@, from as int) > limit,
            Some((n, end)) => {
                &&& n == length_at(data@, from as int)
                &&& n <= limit
                &&& match end {
                    Some(e) => e == length_end(data@, from as int) && e <= data@.len(),
                    None => length_end(data@, from as int) > data@.len(),
                }
            },
        },
{
    let mut sum: u64 = 0;
    let mut i: usize = from;
    while i < data.len() && data[i] == 0xFF
        invariant
            from <= i <= data@.len(),
            limit <= u32::MAX,
            sum == 255 * (i - from),
            sum <= limit,
            run_at(data@, from as int) == i - from + run_at(data@, i as int),
        decreases data@.len() - i,
    {
        sum = sum + 255;
        i = i + 1;
        if sum > limit {
            return None;
        }
    }
    if i >= data.len() {
        return Some((sum, None));
    }
    sum = sum + data[i] as u64;
    if sum > limit {
        return None;
    }
    Some((sum, Some(i + 1)))
}

/// Whether no length in the sequences of a blob is above the limit.
fn check_lengths(data: &[u8], limit: u64) -> (b: bool)
    requires
        limit <= u32::MAX,
    ensures
        b == lengths_fit(data@, 4, limit as int),
{
    let mut i: usize = 4;
    while i < data.len()
        invariant
            limit <= u32::MAX,
            lengths_fit(data@, 4, limit as int) == lengths_fit(data@, i as int, limit as int),
        decreases data@.len() - i,
    {
        let token: u8 = data[i];
        let mut extra: u64 = 0;
        let mut literals: usize = i + 1;
        if token / 16 == 15 {
            match add_length(data, i + 1, limit) {
                None => return false,
                Some((_, None)) => return true,
                Some((n, Some(end))) => {
                    extra = n;
                    literals = end;
                },
            }
        }
        let needed: u64 = (token / 16) as u64 + extra + 2;
        let left: usize = data.len() - literals;
        if needed > left as u64 {
            return true;
        }
        let behind: usize = literals + needed as usize;
        if token % 16 == 15 {
            match add_length(data, behind, limit) {
                None => return false,
                Some((_, None)) => return true,
                Some((_, Some(end))) => {
                    i = end;
                },
            }
        } else {
            i = behind;
        }
    }
    true
}

/// Whether decompressing a blob stays within the limits of the machine.
fn is_decompressible(data: &[u8]) -> (b: bool)
    ensures
        b == decompressible(data@),
{
    reveal(decompressible);
    let size: u64 = if data.len() >= 4 {
        get_u32(data, 0) as u64
    } else {
        0
    };
    if size > isize::MAX as u64 {
        return false;
    }
    let room: u64 = usize::MAX as u64 - 19 - size;
    let limit: u64 = if room < u32::MAX as u64 {
        room
    } else {
        u32::MAX as u64
    };
    check_lengths(data, limit)
}

/// The raw bytes of a compressed blob.
pub fn decompress(data: &[u8]) -> (r: Result<Vec<u8>, TraceError>)
    ensures
        match unpacked(data@) {
            Some(raw) => r is Ok && r->Ok_0@ == raw,
            None => r == Err::<Vec<u8>, TraceError>(TraceError::Decompress),
        },
{
    if !is_decompressible(data) {
        return Err(TraceError::Decompress);
    }
    match lz4_decompress(data) {
        Ok(raw) => Ok(raw),
        Err(_) => Err(TraceError::Decompress),
    }
}

} // verus!
