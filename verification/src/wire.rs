//! Values with a binary form.

use vstd::prelude::*;
use crate::bytes::{suffix, ByteReader};
use crate::error::TraceError;

verus! {

/// A value that is stored in a trace.
///
/// `encode` is its binary form. `decode` says what a reader that stands at
/// `s` makes of it: the value and the number of bytes it takes, or the error.
pub trait Wire: Sized + View {
    /// The bytes of a value.
    spec fn encode(v: <Self as View>::V) -> Seq<u8>;

    /// The value at the start of `s` and how many bytes it takes.
    spec fn decode(s: Seq<u8>) -> Result<(<Self as View>::V, int), TraceError>;

    /// Whether the counts held in the value are those of its parts.
    spec fn encodable(v: <Self as View>::V) -> bool;

    /// Appends the bytes of the value.
    fn write_to(&self, w: &mut Vec<u8>)
        ensures
            final(w)@ == old(w)@ + Self::encode(self@),
    ;

    /// Reads one value.
    fn read_from(r: &mut ByteReader<'_>) -> (res: Result<Self, TraceError>)
        ensures
            match Self::decode(old(r)@) {
                Ok((v, n)) => 0 <= n <= old(r)@.len() && res is Ok && res->Ok_0@ == v && final(r)@
                    == suffix(old(r)@, n),
                Err(e) => res == Err::<Self, TraceError>(e),
            },
    ;

    /// A value is read from the bytes that are there.
    proof fn law_decode_bounds(s: Seq<u8>)
        ensures
            Self::decode(s) is Ok ==> 0 <= Self::decode(s)->Ok_0.1 <= s.len(),
    ;

    /// What is written is read back, whatever follows it.
    proof fn law_roundtrip(v: <Self as View>::V, rest: Seq<u8>)
        requires
            Self::encodable(v),
        ensures
            Self::decode(Self::encode(v) + rest) == Ok::<(<Self as View>::V, int), TraceError>(
                (v, Self::encode(v).len() as int),
            ),
    ;
}

/// The views of the items of a sequence.
pub open spec fn views<T: View>(s: Seq<T>) -> Seq<T::V> {
    s.map_values(|t: T| t@)
}

/// The bytes of a sequence of values, one after the other.
#[verifier::opaque]
pub open spec fn encode_all<T: Wire>(vs: Seq<<T as View>::V>) -> Seq<u8>
    decreases vs.len(),
{
    if vs.len() == 0 {
        Seq::empty()
    } else {
        encode_all::<T>(vs.drop_last()) + T::encode(vs.last())
    }
}

/// The `n` values at the start of `s` and how many bytes they take.
#[verifier::opaque]
pub open spec fn decode_n<T: Wire>(s: Seq<u8>, n: nat) -> Result<
    (Seq<<T as View>::V>, int),
    TraceError,
>
    decreases n,
{
    if n == 0 {
        Ok((Seq::empty(), 0))
    } else {
        match decode_n::<T>(s, (n - 1) as nat) {
            Err(e) => Err(e),
            Ok((vs, k)) => match T::decode(suffix(s, k)) {
                Err(e) => Err(e),
                Ok((v, m)) => Ok((vs.push(v), k + m)),
            },
        }
    }
}

/// Once reading `i` values fails, reading more of them fails in the same way.
pub proof fn lemma_decode_n_err<T: Wire>(s: Seq<u8>, i: nat, n: nat, e: TraceError)
    requires
        i <= n,
        decode_n::<T>(s, i) == Err::<(Seq<<T as View>::V>, int), TraceError>(e),
    ensures
        decode_n::<T>(s, n) == Err::<(Seq<<T as View>::V>, int), TraceError>(e),
    decreases n,
{
    reveal(decode_n);
    if i < n {
        lemma_decode_n_err::<T>(s, i, (n - 1) as nat, e);
    }
}

/// Values are read from the bytes that are there.
pub proof fn lemma_decode_n_bounds<T: Wire>(s: Seq<u8>, n: nat)
    ensures
        decode_n::<T>(s, n) is Ok ==> 0 <= decode_n::<T>(s, n)->Ok_0.1 <= s.len(),
    decreases n,
{
    reveal(decode_n);
    if n > 0 {
        lemma_decode_n_bounds::<T>(s, (n - 1) as nat);
        match decode_n::<T>(s, (n - 1) as nat) {
            Err(e) => {},
            Ok((vs, k)) => {
                T::law_decode_bounds(suffix(s, k));
            },
        }
    }
}

/// Dropping `a` and then `b` bytes is dropping `a + b` bytes.
pub proof fn lemma_suffix_suffix(s: Seq<u8>, a: int, b: int)
    requires
        0 <= a <= s.len(),
        0 <= b <= s.len() - a,
    ensures
        suffix(suffix(s, a), b) == suffix(s, a + b),
{
    assert(suffix(suffix(s, a), b) =~= suffix(s, a + b));
}

/// Joining is associative.
pub proof fn lemma_join_assoc(a: Seq<u8>, b: Seq<u8>, c: Seq<u8>)
    ensures
        (a + b) + c == a + (b + c),
{
    assert((a + b) + c =~= a + (b + c));
}

/// Dropping the first of two joined sequences leaves the second.
pub proof fn lemma_suffix_join(a: Seq<u8>, b: Seq<u8>)
    ensures
        suffix(a + b, a.len() as int) == b,
{
    assert(suffix(a + b, a.len() as int) =~= b);
}

/// A sequence of values is read back as it was written.
pub proof fn law_all_roundtrip<T: Wire>(vs: Seq<<T as View>::V>, rest: Seq<u8>)
    requires
        forall|i: int| 0 <= i < vs.len() ==> T::encodable(#[trigger] vs[i]),
    ensures
        decode_n::<T>(encode_all::<T>(vs) + rest, vs.len()) == Ok::<
            (Seq<<T as View>::V>, int),
            TraceError,
        >((vs, encode_all::<T>(vs).len() as int)),
    decreases vs.len(),
{
    reveal(decode_n);
    reveal(encode_all);
    if vs.len() > 0 {
        let init = vs.drop_last();
        let last = vs.last();
        let tail = T::encode(last) + rest;
        assert forall|i: int| 0 <= i < init.len() implies T::encodable(#[trigger] init[i]) by {
            assert(init[i] == vs[i]);
        }
        assert(T::encodable(vs[vs.len() - 1]));
        law_all_roundtrip::<T>(init, tail);
        assert(encode_all::<T>(vs) + rest =~= encode_all::<T>(init) + tail);
        lemma_suffix_join(encode_all::<T>(init), tail);
        T::law_roundtrip(last, rest);
        assert(init.push(last) =~= vs);
    } else {
        assert(vs =~= Seq::empty());
    }
}

/// Appends the bytes of every item.
pub fn write_all<T: Wire>(items: &Vec<T>, w: &mut Vec<u8>)
    ensures
        final(w)@ == old(w)@ + encode_all::<T>(views(items@)),
{
    let mut i: usize = 0;
    proof {
        reveal(encode_all);
        assert(views(items@.take(0)) =~= Seq::<T::V>::empty());
        assert(w@ =~= old(w)@ + encode_all::<T>(views(items@.take(0))));
    }
    while i < items.len()
        invariant
            i <= items@.len(),
            w@ == old(w)@ + encode_all::<T>(views(items@.take(i as int))),
        decreases items@.len() - i,
    {
        items[i].write_to(w);
        proof {
            reveal(encode_all);
            let before = views(items@.take(i as int));
            let after = views(items@.take(i + 1));
            assert(after.drop_last() =~= before);
            assert(after.last() == items@[i as int]@);
            assert(w@ =~= old(w)@ + encode_all::<T>(after));
        }
        i = i + 1;
    }
    assert(items@.take(items@.len() as int) =~= items@);
}

/// Reads `n` values.
pub fn read_n<T: Wire>(r: &mut ByteReader<'_>, n: usize) -> (res: Result<Vec<T>, TraceError>)
    ensures
        match decode_n::<T>(old(r)@, n as nat) {
            Ok((vs, k)) => 0 <= k <= old(r)@.len() && res is Ok && views(res->Ok_0@) == vs
                && final(r)@ == suffix(old(r)@, k),
            Err(e) => res == Err::<Vec<T>, TraceError>(e),
        },
{
    let ghost start = r@;
    let mut out: Vec<T> = Vec::new();
    let mut i: usize = 0;
    let ghost mut k: int = 0;
    proof {
        reveal(decode_n);
        assert(views(out@) =~= Seq::<T::V>::empty());
        assert(suffix(start, 0) =~= start);
    }
    while i < n
        invariant
            i <= n,
            start == old(r)@,
            0 <= k <= start.len(),
            r@ == suffix(start, k),
            decode_n::<T>(start, i as nat) == Ok::<(Seq<<T as View>::V>, int), TraceError>(
                (views(out@), k),
            ),
        decreases n - i,
    {
        proof {
            reveal(decode_n);
        }
        match T::read_from(r) {
            Err(e) => {
                proof {
                    lemma_decode_n_err::<T>(start, (i + 1) as nat, n as nat, e);
                }
                return Err(e);
            },
            Ok(v) => {
                let ghost before = out@;
                out.push(v);
                proof {
                    let m = T::decode(suffix(start, k))->Ok_0.1;
                    lemma_suffix_suffix(start, k, m);
                    k = k + m;
                    assert(views(out@) =~= views(before).push(v@));
                }
                i = i + 1;
            },
        }
    }
    Ok(out)
}

} // verus!
