//! Schema-level string pool: packed null-terminated UTF-8 strings, max 64 KB.
//! Offsets are u16, used by DUT properties, scope names, field names, etc.

use vstd::prelude::*;
use vstd::hash_map::StringHashMap;
use vstd::string::StringSliceAdditionalSpecFns;
use vstd::utf8::{
    decode_utf8, encode_utf8, encode_utf8_decode_utf8, encode_utf8_valid_utf8, valid_utf8,
};
use crate::numerals::texts_of;
use crate::text::{lemma_encode_no_nul, utf8_str};
use crate::types::put_slice;

verus! {

/// What a pool holds: its bytes, and where each inserted string starts.
#[verifier::ext_equal]
pub struct Pool {
    pub data: Seq<u8>,
    pub index: Map<Seq<char>, u16>,
}

impl Pool {
    pub open spec fn empty() -> Pool {
        Pool { data: Seq::empty(), index: Map::empty() }
    }

    /// Whether the bytes of `s`, and a zero byte, stand at `offset`.
    pub open spec fn holds(self, offset: int, s: Seq<char>) -> bool {
        let b = encode_utf8(s);
        &&& 0 <= offset
        &&& offset + b.len() < self.data.len()
        &&& self.data.subrange(offset, offset + b.len()) == b
        &&& self.data[offset + b.len()] == 0
    }

    /// Every string stands where the index says.
    pub open spec fn wf(self) -> bool {
        &&& self.data.len() <= u16::MAX
        &&& forall|s: Seq<char>| #[trigger]
            self.index.contains_key(s) ==> self.holds(self.index[s] as int, s)
    }

    /// Whether `s` is there or there is room for it.
    pub open spec fn fits(self, s: Seq<char>) -> bool {
        self.index.contains_key(s) || self.data.len() + encode_utf8(s).len() + 1 <= u16::MAX
    }

    /// The pool after `s` was inserted: a string is stored once.
    pub open spec fn insert(self, s: Seq<char>) -> Pool {
        if self.index.contains_key(s) {
            self
        } else {
            Pool {
                data: self.data + encode_utf8(s) + seq![0u8],
                index: self.index.insert(s, self.data.len() as u16),
            }
        }
    }

    /// The pool after all of `names` were inserted, in turn.
    pub open spec fn insert_all(self, names: Seq<Seq<char>>) -> Pool
        decreases names.len(),
    {
        if names.len() == 0 {
            self
        } else {
            self.insert_all(names.drop_last()).insert(names.last())
        }
    }

    /// Whether there is room for all of `names`, inserted in turn.
    pub open spec fn fits_all(self, names: Seq<Seq<char>>) -> bool
        decreases names.len(),
    {
        names.len() == 0 || self.fits_all(names.drop_last()) && self.insert_all(
            names.drop_last(),
        ).fits(names.last())
    }
}

/// Inserting keeps a pool valid, and keeps every string where it was.
pub proof fn law_insert_keeps(p: Pool, s: Seq<char>)
    requires
        p.wf(),
        p.fits(s),
    ensures
        p.insert(s).wf(),
        p.insert(s).index.contains_key(s),
        forall|t: Seq<char>| #[trigger]
            p.index.contains_key(t) ==> p.insert(s).index.contains_key(t) && p.insert(s).index[t]
                == p.index[t],
        p.data.len() <= p.insert(s).data.len(),
        p.insert(s).data.take(p.data.len() as int) == p.data,
{
    let q = p.insert(s);
    assert(q.data.take(p.data.len() as int) =~= p.data);
    if !p.index.contains_key(s) {
        let b = encode_utf8(s);
        assert forall|t: Seq<char>| #[trigger] q.index.contains_key(t) implies q.holds(
            q.index[t] as int,
            t,
        ) by {
            if t == s {
                let o = p.data.len() as int;
                assert(q.data.subrange(o, o + b.len()) =~= b);
            } else {
                assert(p.index.contains_key(t));
                let o = p.index[t] as int;
                let n = encode_utf8(t).len() as int;
                assert(q.data.subrange(o, o + n) =~= p.data.subrange(o, o + n));
            }
        }
    }
}

/// Inserting many keeps a pool valid, holds them all, and keeps what was there.
pub proof fn law_insert_all_keeps(p: Pool, names: Seq<Seq<char>>)
    requires
        p.wf(),
        p.fits_all(names),
    ensures
        p.insert_all(names).wf(),
        forall|i: int|
            0 <= i < names.len() ==> p.insert_all(names).index.contains_key(#[trigger] names[i]),
        forall|t: Seq<char>| #[trigger]
            p.index.contains_key(t) ==> p.insert_all(names).index.contains_key(t) && p.insert_all(
                names,
            ).index[t] == p.index[t],
    decreases names.len(),
{
    if names.len() > 0 {
        let init = names.drop_last();
        law_insert_all_keeps(p, init);
        law_insert_keeps(p.insert_all(init), names.last());
        assert forall|i: int| 0 <= i < names.len() implies p.insert_all(names).index.contains_key(
            #[trigger] names[i],
        ) by {
            if i < init.len() {
                assert(init[i] == names[i]);
            }
        }
    }
}

/// Inserting some and then others is inserting them all.
pub proof fn lemma_insert_all_join(p: Pool, a: Seq<Seq<char>>, b: Seq<Seq<char>>)
    ensures
        p.insert_all(a + b) == p.insert_all(a).insert_all(b),
        p.fits_all(a + b) == (p.fits_all(a) && p.insert_all(a).fits_all(b)),
    decreases b.len(),
{
    if b.len() == 0 {
        assert(a + b =~= a);
    } else {
        lemma_insert_all_join(p, a, b.drop_last());
        assert((a + b).drop_last() =~= a + b.drop_last());
        assert((a + b).last() == b.last());
    }
}

/// Inserting one after some.
pub proof fn lemma_insert_all_push(p: Pool, a: Seq<Seq<char>>, s: Seq<char>)
    ensures
        p.insert_all(a.push(s)) == p.insert_all(a).insert(s),
        p.fits_all(a.push(s)) == (p.fits_all(a) && p.insert_all(a).fits(s)),
{
    assert(a.push(s).drop_last() =~= a);
}

/// Builds a string pool by inserting strings and returning their offsets.
pub struct StringPoolBuilder {
    data: Vec<u8>,
    index: StringHashMap<u16>,
}

impl View for StringPoolBuilder {
    type V = Pool;

    closed spec fn view(&self) -> Pool {
        Pool { data: self.data@, index: self.index@ }
    }
}

impl StringPoolBuilder {
    #[verifier::type_invariant]
    closed spec fn inv(self) -> bool {
        self@.wf()
    }

    /// An empty pool.
    pub fn new() -> (p: StringPoolBuilder)
        ensures
            p@ == Pool::empty(),
            p@.wf(),
    {
        let p = StringPoolBuilder { data: Vec::new(), index: StringHashMap::new() };
        assert(p@ =~= Pool::empty());
        p
    }

    /// Insert a string into the pool. Returns its u16 offset.
    /// If the string already exists, returns the existing offset.
    /// There must be room for it: the pool holds at most 64 KB.
    pub fn insert(&mut self, s: &str) -> (offset: u16)
        requires
            old(self)@.fits(s@),
        ensures
            final(self)@ == old(self)@.insert(s@),
            final(self)@.wf(),
            final(self)@.index.contains_key(s@),
            offset == final(self)@.index[s@],
    {
        proof {
            use_type_invariant(&*self);
            law_insert_keeps(self@, s@);
        }
        match self.index.get(s) {
            Some(offset) => return *offset,
            None => {},
        }
        let offset: u16 = self.data.len() as u16;
        let mut data: Vec<u8> = Vec::new();
        let mut index: StringHashMap<u16> = StringHashMap::new();
        proof {
            assert(Pool { data: data@, index: index@ } =~= Pool::empty());
        }
        let mut spare = StringPoolBuilder { data, index };
        std::mem::swap(self, &mut spare);
        let StringPoolBuilder { data: mut data, index: mut index } = spare;
        put_slice(&mut data, s.as_bytes());
        data.push(0);
        index.insert(s.to_owned(), offset);
        proof {
            assert(data@ =~= old(self)@.insert(s@).data);
            assert(Pool { data: data@, index: index@ } =~= old(self)@.insert(s@));
        }
        *self = StringPoolBuilder { data, index };
        offset
    }

    /// Whether a string is there or there is room for it.
    pub fn has_room(&self, s: &str) -> (b: bool)
        ensures
            b == self@.fits(s@),
    {
        proof {
            use_type_invariant(self);
        }
        if self.index.get(s).is_some() {
            return true;
        }
        let n: usize = s.as_bytes().len();
        n < u16::MAX as usize - self.data.len()
    }

    /// Returns the serialized string pool bytes.
    pub fn data(&self) -> (d: &[u8])
        ensures
            d@ == self@.data,
    {
        self.data.as_slice()
    }

    /// Returns the total size of the pool in bytes.
    pub fn len(&self) -> (n: usize)
        ensures
            n == self@.data.len(),
            self@.wf(),
    {
        proof {
            use_type_invariant(self);
        }
        self.data.len()
    }

    /// Whether nothing was inserted yet.
    pub fn is_empty(&self) -> (b: bool)
        ensures
            b == (self@.data.len() == 0),
    {
        self.data.len() == 0
    }
}

impl Default for StringPoolBuilder {
    fn default() -> (p: StringPoolBuilder)
        ensures
            p@ == Pool::empty(),
    {
        StringPoolBuilder::new()
    }
}

/// The first zero byte of `data` at or after `i`.
pub open spec fn first_nul(data: Seq<u8>, i: int) -> Option<int>
    decreases data.len() - i,
{
    if i < 0 || i >= data.len() {
        None
    } else if data[i] == 0 {
        Some(i)
    } else {
        first_nul(data, i + 1)
    }
}

/// The null-terminated string at `offset` of a pool, if there is one.
pub open spec fn pool_get(data: Seq<u8>, offset: int) -> Option<Seq<char>> {
    match first_nul(data, offset) {
        None => None,
        Some(end) => {
            let b = data.subrange(offset, end);
            if valid_utf8(b) {
                Some(decode_utf8(b))
            } else {
                None
            }
        },
    }
}

proof fn lemma_first_nul(data: Seq<u8>, i: int, end: int)
    requires
        0 <= i <= end < data.len(),
        data[end] == 0,
        forall|j: int| i <= j < end ==> data[j] != 0,
    ensures
        first_nul(data, i) == Some(end),
    decreases end - i,
{
    if i < end {
        lemma_first_nul(data, i + 1, end);
    }
}

/// An inserted string is found again at its offset, unless it holds a NUL.
pub proof fn law_pool_roundtrip(p: Pool, s: Seq<char>)
    requires
        p.wf(),
        p.index.contains_key(s),
        !s.contains('\0'),
    ensures
        pool_get(p.data, p.index[s] as int) == Some(s),
{
    let o = p.index[s] as int;
    let b = encode_utf8(s);
    let end = o + b.len();
    lemma_encode_no_nul(s);
    assert forall|j: int| o <= j < end implies p.data[j] != 0 by {
        assert(p.data.subrange(o, end)[j - o] == p.data[j]);
        assert(b[j - o] != 0);
    }
    lemma_first_nul(p.data, o, end);
    encode_utf8_valid_utf8(s);
    encode_utf8_decode_utf8(s);
}

/// Reader for a string pool. Reads null-terminated strings at given offsets.
#[derive(Debug)]
pub struct StringPoolReader<'a> {
    data: &'a [u8],
}

impl<'a> View for StringPoolReader<'a> {
    type V = Seq<u8>;

    closed spec fn view(&self) -> Seq<u8> {
        self.data@
    }
}

impl<'a> StringPoolReader<'a> {
    /// A reader for the bytes of a pool.
    pub fn new(data: &'a [u8]) -> (r: Self)
        ensures
            r@ == data@,
    {
        StringPoolReader { data }
    }

    /// Read the null-terminated string at the given offset.
    pub fn get(&self, offset: u16) -> (r: Option<&'a str>)
        ensures
            match pool_get(self@, offset as int) {
                Some(s) => r is Some && r->Some_0@ == s,
                None => r is None,
            },
    {
        let start: usize = offset as usize;
        let mut end: usize = start;
        while end < self.data.len()
            invariant
                start <= end,
                start == offset,
                end <= self.data@.len() || end == start,
                first_nul(self.data@, start as int) == first_nul(self.data@, end as int),
            decreases self.data@.len() - end,
        {
            if self.data[end] == 0 {
                return utf8_str(vstd::slice::slice_subrange(self.data, start, end));
            }
            end = end + 1;
        }
        None
    }
}

/// Where all names fit, the first of them do.
pub proof fn lemma_fits_prefix(p: Pool, names: Seq<Seq<char>>, k: int)
    requires
        0 <= k <= names.len(),
        p.fits_all(names),
    ensures
        p.fits_all(names.take(k)),
{
    lemma_insert_all_join(p, names.take(k), names.skip(k));
    assert(names.take(k) + names.skip(k) =~= names);
}

/// Whether there is room for some names in an empty pool.
pub fn all_fit(names: &Vec<String>) -> (b: bool)
    ensures
        b == Pool::empty().fits_all(texts_of(names@)),
{
    let ghost all = texts_of(names@);
    let ghost p = Pool::empty();
    let mut pool = StringPoolBuilder::new();
    let mut i: usize = 0;
    assert(all.take(0) =~= Seq::<Seq<char>>::empty());
    while i < names.len()
        invariant
            i <= names@.len(),
            all == texts_of(names@),
            p == Pool::empty(),
            pool@ == p.insert_all(all.take(i as int)),
            p.fits_all(all.take(i as int)),
        decreases names@.len() - i,
    {
        let name = names[i].as_str();
        proof {
            assert(all.take(i + 1) =~= all.take(i as int).push(name@));
            lemma_insert_all_push(p, all.take(i as int), name@);
        }
        if !pool.has_room(name) {
            proof {
                if p.fits_all(all) {
                    lemma_fits_prefix(p, all, i + 1);
                }
            }
            return false;
        }
        let _offset: u16 = pool.insert(name);
        i = i + 1;
    }
    assert(all.take(i as int) =~= all);
    true
}

/// The size of some names in a pool, each with its zero byte.
pub open spec fn names_size(names: Seq<Seq<char>>) -> nat
    decreases names.len(),
{
    if names.len() == 0 {
        0
    } else {
        names_size(names.drop_last()) + encode_utf8(names.last()).len() + 1
    }
}

/// Names that take no more than 64 KB together fit.
pub proof fn law_fits_by_size(names: Seq<Seq<char>>)
    requires
        names_size(names) <= u16::MAX,
    ensures
        Pool::empty().fits_all(names),
        Pool::empty().insert_all(names).data.len() <= names_size(names),
    decreases names.len(),
{
    if names.len() > 0 {
        law_fits_by_size(names.drop_last());
    }
}

} // verus!
