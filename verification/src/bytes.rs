//! Little-endian integers inside byte sequences, and a reader that walks
//! over a byte slice.

use vstd::prelude::*;
use crate::error::TraceError;
use byteorder::{LittleEndian, ReadBytesExt, WriteBytesExt};

verus! {

/// The 16-bit integer stored little-endian at `i`.
#[verifier::opaque]
pub open spec fn u16_at(s: Seq<u8>, i: int) -> u16 {
    (s[i] as int + 0x100 * (s[i + 1] as int)) as u16
}

/// The 32-bit integer stored little-endian at `i`.
#[verifier::opaque]
pub open spec fn u32_at(s: Seq<u8>, i: int) -> u32 {
    (u16_at(s, i) as int + 0x1_0000 * (u16_at(s, i + 2) as int)) as u32
}

/// The 64-bit integer stored little-endian at `i`.
#[verifier::opaque]
pub open spec fn u64_at(s: Seq<u8>, i: int) -> u64 {
    (u32_at(s, i) as int + 0x1_0000_0000 * (u32_at(s, i + 4) as int)) as u64
}

/// The two bytes of `v`, least significant first.
#[verifier::opaque]
pub open spec fn u16_bytes(v: u16) -> Seq<u8> {
    seq![(v % 0x100) as u8, (v / 0x100) as u8]
}

/// The four bytes of `v`, least significant first.
#[verifier::opaque]
pub open spec fn u32_bytes(v: u32) -> Seq<u8> {
    u16_bytes((v % 0x1_0000) as u16) + u16_bytes((v / 0x1_0000) as u16)
}

/// The eight bytes of `v`, least significant first.
#[verifier::opaque]
pub open spec fn u64_bytes(v: u64) -> Seq<u8> {
    u32_bytes((v % 0x1_0000_0000) as u32) + u32_bytes((v / 0x1_0000_0000) as u32)
}

pub broadcast proof fn lemma_u16_bytes_len(v: u16)
    ensures
        #[trigger] u16_bytes(v).len() == 2,
{
    reveal(u16_bytes);
}

pub broadcast proof fn lemma_u32_bytes_len(v: u32)
    ensures
        #[trigger] u32_bytes(v).len() == 4,
{
    reveal(u16_bytes);
    reveal(u32_bytes);
}

pub broadcast proof fn lemma_u64_bytes_len(v: u64)
    ensures
        #[trigger] u64_bytes(v).len() == 8,
{
    reveal(u16_bytes);
    reveal(u32_bytes);
    reveal(u64_bytes);
}

/// How long the bytes of an integer are.
pub broadcast group group_le_len {
    lemma_u16_bytes_len,
    lemma_u32_bytes_len,
    lemma_u64_bytes_len,
}

/// Reading at `i` the two bytes of `v` gives `v`.
pub proof fn lemma_u16_at(s: Seq<u8>, i: int, v: u16)
    requires
        0 <= i,
        i + 2 <= s.len(),
        s.subrange(i, i + 2) == u16_bytes(v),
    ensures
        u16_at(s, i) == v,
{
    reveal(u16_bytes);
    reveal(u16_at);
    assert(s[i] == s.subrange(i, i + 2)[0]);
    assert(s[i + 1] == s.subrange(i, i + 2)[1]);
}

/// Reading at `i` the four bytes of `v` gives `v`.
pub proof fn lemma_u32_at(s: Seq<u8>, i: int, v: u32)
    requires
        0 <= i,
        i + 4 <= s.len(),
        s.subrange(i, i + 4) == u32_bytes(v),
    ensures
        u32_at(s, i) == v,
{
    broadcast use group_le_len;
    reveal(u32_bytes);
    reveal(u32_at);
    let b = u32_bytes(v);
    assert(b.subrange(0, 2) =~= u16_bytes((v % 0x1_0000) as u16));
    assert(b.subrange(2, 4) =~= u16_bytes((v / 0x1_0000) as u16));
    assert(s.subrange(i, i + 2) =~= s.subrange(i, i + 4).subrange(0, 2));
    assert(s.subrange(i + 2, i + 4) =~= s.subrange(i, i + 4).subrange(2, 4));
    lemma_u16_at(s, i, (v % 0x1_0000) as u16);
    lemma_u16_at(s, i + 2, (v / 0x1_0000) as u16);
}

/// Reading at `i` the eight bytes of `v` gives `v`.
pub proof fn lemma_u64_at(s: Seq<u8>, i: int, v: u64)
    requires
        0 <= i,
        i + 8 <= s.len(),
        s.subrange(i, i + 8) == u64_bytes(v),
    ensures
        u64_at(s, i) == v,
{
    broadcast use group_le_len;
    reveal(u64_bytes);
    reveal(u64_at);
    let b = u64_bytes(v);
    assert(b.subrange(0, 4) =~= u32_bytes((v % 0x1_0000_0000) as u32));
    assert(b.subrange(4, 8) =~= u32_bytes((v / 0x1_0000_0000) as u32));
    assert(s.subrange(i, i + 4) =~= s.subrange(i, i + 8).subrange(0, 4));
    assert(s.subrange(i + 4, i + 8) =~= s.subrange(i, i + 8).subrange(4, 8));
    lemma_u32_at(s, i, (v % 0x1_0000_0000) as u32);
    lemma_u32_at(s, i + 4, (v / 0x1_0000_0000) as u32);
}

/// An integer depends on its bytes alone.
pub proof fn lemma_at_same(a: Seq<u8>, i: int, b: Seq<u8>, j: int, n: int)
    requires
        forall|k: int| 0 <= k < n ==> #[trigger] a[i + k] == b[j + k],
    ensures
        n >= 2 ==> u16_at(a, i) == u16_at(b, j),
        n >= 4 ==> u32_at(a, i) == u32_at(b, j),
        n >= 8 ==> u64_at(a, i) == u64_at(b, j),
{
    reveal(u16_at);
    reveal(u32_at);
    reveal(u64_at);
    if n >= 2 {
        assert(a[i + 0] == b[j + 0]);
        assert(a[i + 1] == b[j + 1]);
    }
    if n >= 4 {
        assert(a[i + 2] == b[j + 2]);
        assert(a[i + 3] == b[j + 3]);
    }
    if n >= 8 {
        assert(a[i + 4] == b[j + 4]);
        assert(a[i + 5] == b[j + 5]);
        assert(a[i + 6] == b[j + 6]);
        assert(a[i + 7] == b[j + 7]);
    }
}

/// `byteorder::ReadBytesExt::read_u16::<LittleEndian>` on the bytes from
/// `pos`: the two bytes there, least significant first.
#[verifier::external_body]
pub(crate) fn get_u16(buf: &[u8], pos: usize) -> (v: u16)
    requires
        pos + 2 <= buf@.len(),
    ensures
        v == u16_at(buf@, pos as int),
{
    let mut r = &buf[pos..];
    r.read_u16::<LittleEndian>().unwrap()
}

/// `byteorder::ReadBytesExt::read_u32::<LittleEndian>` on the bytes from
/// `pos`: the four bytes there, least significant first.
#[verifier::external_body]
pub(crate) fn get_u32(buf: &[u8], pos: usize) -> (v: u32)
    requires
        pos + 4 <= buf@.len(),
    ensures
        v == u32_at(buf@, pos as int),
{
    let mut r = &buf[pos..];
    r.read_u32::<LittleEndian>().unwrap()
}

/// `byteorder::ReadBytesExt::read_u64::<LittleEndian>` on the bytes from
/// `pos`: the eight bytes there, least significant first.
#[verifier::external_body]
pub(crate) fn get_u64(buf: &[u8], pos: usize) -> (v: u64)
    requires
        pos + 8 <= buf@.len(),
    ensures
        v == u64_at(buf@, pos as int),
{
    let mut r = &buf[pos..];
    r.read_u64::<LittleEndian>().unwrap()
}

/// `byteorder::WriteBytesExt::write_u16::<LittleEndian>` on a vector, which
/// never fails: the two bytes of `v` are appended.
#[verifier::external_body]
pub(crate) fn put_u16(w: &mut Vec<u8>, v: u16)
    ensures
        final(w)@ == old(w)@ + u16_bytes(v),
{
    w.write_u16::<LittleEndian>(v).unwrap()
}

/// `byteorder::WriteBytesExt::write_u32::<LittleEndian>` on a vector, which
/// never fails: the four bytes of `v` are appended.
#[verifier::external_body]
pub(crate) fn put_u32(w: &mut Vec<u8>, v: u32)
    ensures
        final(w)@ == old(w)@ + u32_bytes(v),
{
    w.write_u32::<LittleEndian>(v).unwrap()
}

/// `byteorder::WriteBytesExt::write_u64::<LittleEndian>` on a vector, which
/// never fails: the eight bytes of `v` are appended.
#[verifier::external_body]
pub(crate) fn put_u64(w: &mut Vec<u8>, v: u64)
    ensures
        final(w)@ == old(w)@ + u64_bytes(v),
{
    w.write_u64::<LittleEndian>(v).unwrap()
}

/// What is left of `s` from byte `offset` on: nothing, past its end.
pub open spec fn suffix(s: Seq<u8>, offset: int) -> Seq<u8> {
    if 0 <= offset <= s.len() {
        s.subrange(offset, s.len() as int)
    } else {
        Seq::empty()
    }
}

/// Walks over a byte slice. Its view is what is still to be read.
pub struct ByteReader<'a> {
    data: &'a [u8],
    pos: usize,
}

impl<'a> View for ByteReader<'a> {
    type V = Seq<u8>;

    closed spec fn view(&self) -> Seq<u8> {
        suffix(self.data@, self.pos as int)
    }
}

impl<'a> ByteReader<'a> {
    /// A reader that stands at the first byte of `data`.
    pub fn new(data: &'a [u8]) -> (r: Self)
        ensures
            r@ == data@,
    {
        let r = ByteReader { data, pos: 0 };
        assert(data@.subrange(0, data@.len() as int) =~= data@);
        r
    }

    /// A reader that stands at byte `offset` of `data`.
    pub fn at(data: &'a [u8], offset: u64) -> (r: Self)
        ensures
            r@ == suffix(data@, offset as int),
    {
        let len: u64 = data.len() as u64;
        if offset > len {
            let r = ByteReader { data, pos: data.len() };
            assert(r@ =~= Seq::<u8>::empty());
            r
        } else {
            ByteReader { data, pos: offset as usize }
        }
    }

    /// How many bytes are still to be read.
    pub fn remaining(&self) -> (n: usize)
        ensures
            n == self@.len(),
    {
        if self.pos <= self.data.len() {
            self.data.len() - self.pos
        } else {
            0
        }
    }

    /// The bytes still to be read.
    pub fn peek(&self) -> (b: &'a [u8])
        ensures
            b@ == self@,
    {
        let len: usize = self.data.len();
        if self.pos <= len {
            vstd::slice::slice_subrange(self.data, self.pos, len)
        } else {
            let b: &'a [u8] = vstd::slice::slice_subrange(self.data, len, len);
            assert(b@ =~= Seq::<u8>::empty());
            b
        }
    }

    /// Reads exactly `n` bytes.
    pub fn take(&mut self, n: usize) -> (res: Result<&'a [u8], TraceError>)
        ensures
            match res {
                Ok(b) => n <= old(self)@.len() && b@ == old(self)@.subrange(0, n as int)
                    && final(self)@ == suffix(old(self)@, n as int),
                Err(e) => e == TraceError::UnexpectedEof && old(self)@.len() < n && final(self)@
                    == old(self)@,
            },
    {
        if self.remaining() < n {
            return Err(TraceError::UnexpectedEof);
        }
        if n == 0 && self.pos > self.data.len() {
            let b: &'a [u8] = vstd::slice::slice_subrange(self.data, 0, 0);
            assert(b@ =~= old(self)@.subrange(0, 0));
            assert(self@ =~= suffix(old(self)@, 0));
            return Ok(b);
        }
        let len: usize = self.data.len();
        let start: usize = self.pos;
        assert(start + n <= len);
        let b: &'a [u8] = vstd::slice::slice_subrange(self.data, start, start + n);
        self.pos = start + n;
        assert(b@ =~= old(self)@.subrange(0, n as int));
        assert(self@ =~= suffix(old(self)@, n as int));
        Ok(b)
    }
}

} // verus!
