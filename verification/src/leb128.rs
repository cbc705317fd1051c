//! Unsigned LEB128.

use vstd::prelude::*;
pub use crate::error::DecodeError;

verus! {

/// The LEB128 bytes of `v`: seven bits a byte, least significant first, the
/// top bit set on every byte but the last.
pub open spec fn leb_bytes(v: nat) -> Seq<u8>
    decreases v,
{
    if v < 128 {
        seq![v as u8]
    } else {
        seq![(128 + v % 128) as u8] + leb_bytes(v / 128)
    }
}

/// 128 to the power of `k`.
pub open spec fn pow128(k: nat) -> nat
    decreases k,
{
    if k == 0 {
        1
    } else {
        128 * pow128((k - 1) as nat)
    }
}

/// The number made of the low seven bits of the first `n` bytes.
pub open spec fn leb_value(s: Seq<u8>, n: nat) -> nat
    decreases n,
{
    if n == 0 {
        0
    } else {
        leb_value(s, (n - 1) as nat) + (s[n - 1] % 128) as nat * pow128((n - 1) as nat)
    }
}

/// How many bytes the value at the start of `s` takes, given that the first
/// `i` all have the top bit set. No value takes more than ten.
pub open spec fn leb_scan(s: Seq<u8>, i: int) -> Result<int, DecodeError>
    decreases s.len() - i,
{
    if i < 0 || i >= s.len() {
        Err(DecodeError::Incomplete)
    } else if i >= 10 {
        Err(DecodeError::Overflow)
    } else if s[i] < 128 {
        Ok(i + 1)
    } else {
        leb_scan(s, i + 1)
    }
}

/// The value at the start of `s`, and how many bytes it takes. A value of 2^64
/// or more is an error.
pub open spec fn leb_decode(s: Seq<u8>) -> Result<(u64, int), DecodeError> {
    match leb_scan(s, 0) {
        Ok(n) => if leb_value(s, n as nat) <= u64::MAX {
            Ok((leb_value(s, n as nat) as u64, n))
        } else {
            Err(DecodeError::Overflow)
        },
        Err(e) => Err(e),
    }
}

proof fn lemma_pow128()
    ensures
        pow128(0) == 1,
        pow128(1) == 0x80,
        pow128(2) == 0x4000,
        pow128(3) == 0x20_0000,
        pow128(4) == 0x1000_0000,
        pow128(5) == 0x8_0000_0000,
        pow128(6) == 0x400_0000_0000,
        pow128(7) == 0x2_0000_0000_0000,
        pow128(8) == 0x100_0000_0000_0000,
        pow128(9) == 0x8000_0000_0000_0000,
        pow128(10) == 0x40_0000_0000_0000_0000,
{
    reveal_with_fuel(pow128, 11);
}

/// A value below 128^k takes at most k bytes.
proof fn lemma_leb_len(v: nat, k: nat)
    requires
        v < pow128(k),
        k > 0,
    ensures
        0 < leb_bytes(v).len() <= k,
    decreases k,
{
    if v >= 128 {
        if k == 1 {
            reveal_with_fuel(pow128, 2);
        } else {
            lemma_leb_len(v / 128, (k - 1) as nat);
        }
    }
}

/// Adding a byte in front shifts the value up by seven bits.
proof fn lemma_leb_value_front(b: u8, t: Seq<u8>, n: nat)
    requires
        n <= t.len(),
    ensures
        leb_value(seq![b] + t, n + 1) == b % 128 + 128 * leb_value(t, n),
    decreases n,
{
    let s = seq![b] + t;
    if n == 0 {
        assert(pow128(0) == 1);
        assert(s[0] == b);
        assert(leb_value(s, 1) == leb_value(s, 0) + (s[0] % 128) as nat * pow128(0));
        assert(leb_value(s, 0) == 0);
        assert(leb_value(t, 0) == 0);
    } else {
        lemma_leb_value_front(b, t, (n - 1) as nat);
        assert(leb_value(s, n) == b % 128 + 128 * leb_value(t, (n - 1) as nat));
        assert(s[n as int] == t[n - 1]);
        let d = (t[n - 1] % 128) as nat;
        let p = pow128((n - 1) as nat);
        assert(pow128(n) == 128 * p);
        assert(leb_value(s, n + 1) == leb_value(s, n) + d * pow128(n));
        assert(leb_value(t, n) == leb_value(t, (n - 1) as nat) + d * p);
        assert(d * (128 * p) == 128 * (d * p)) by (nonlinear_arith);
    }
}

/// The bytes before the last have the top bit set, the last has not.
proof fn lemma_leb_scan(v: nat, rest: Seq<u8>, front: Seq<u8>)
    requires
        front.len() + leb_bytes(v).len() <= 10,
    ensures
        leb_scan(front + leb_bytes(v) + rest, front.len() as int) == Ok::<int, DecodeError>(
            (front.len() + leb_bytes(v).len()) as int,
        ),
    decreases v,
{
    let s = front + leb_bytes(v) + rest;
    if v < 128 {
        assert(s[front.len() as int] == v as u8);
    } else {
        let b = (128 + v % 128) as u8;
        assert(s[front.len() as int] == b);
        lemma_leb_scan(v / 128, rest, front.push(b));
        assert(front.push(b) + leb_bytes(v / 128) + rest =~= s);
    }
}

proof fn lemma_leb_value(v: nat, rest: Seq<u8>)
    ensures
        leb_value(leb_bytes(v) + rest, leb_bytes(v).len()) == v,
    decreases v,
{
    let s = leb_bytes(v) + rest;
    if v < 128 {
        assert(s[0] == v as u8);
        assert(pow128(0) == 1);
        assert(leb_value(s, 0) == 0);
        assert(leb_value(s, 1) == leb_value(s, 0) + (s[0] % 128) as nat * pow128(0));
    } else {
        let b = (128 + v % 128) as u8;
        let t = leb_bytes(v / 128) + rest;
        assert(s =~= seq![b] + t);
        lemma_leb_value(v / 128, rest);
        lemma_leb_value_front(b, t, leb_bytes(v / 128).len());
    }
}

/// What is encoded is decoded again, whatever follows it.
pub proof fn law_leb_roundtrip(v: u64, rest: Seq<u8>)
    ensures
        leb_decode(leb_bytes(v as nat) + rest) == Ok::<(u64, int), DecodeError>(
            (v, leb_bytes(v as nat).len() as int),
        ),
{
    law_leb_len(v);
    lemma_leb_scan(v as nat, rest, Seq::empty());
    assert(Seq::<u8>::empty() + leb_bytes(v as nat) + rest =~= leb_bytes(v as nat) + rest);
    lemma_leb_value(v as nat, rest);
}

/// An encoding takes between one and ten bytes.
pub proof fn law_leb_len(v: u64)
    ensures
        1 <= leb_bytes(v as nat).len() <= 10,
{
    lemma_pow128();
    lemma_leb_len(v as nat, 10);
}

/// Encode a u64 as unsigned LEB128 into the given buffer.
/// Returns the number of bytes written.
pub fn encode_u64(value: u64, buf: &mut [u8]) -> (n: usize)
    requires
        leb_bytes(value as nat).len() <= old(buf)@.len(),
    ensures
        n == leb_bytes(value as nat).len(),
        final(buf)@ == leb_bytes(value as nat) + old(buf)@.skip(n as int),
{
    let mut rest: u64 = value;
    let mut i: usize = 0;
    let ghost all = leb_bytes(value as nat);
    assert(buf@ =~= all.take(0) + old(buf)@.skip(0));
    while rest >= 128
        invariant
            all == leb_bytes(value as nat),
            all.len() <= old(buf)@.len(),
            i < all.len(),
            all.skip(i as int) == leb_bytes(rest as nat),
            buf@ == all.take(i as int) + old(buf)@.skip(i as int),
        decreases rest,
    {
        let byte: u8 = (128 + rest % 128) as u8;
        proof {
            assert(all[i as int] == all.skip(i as int)[0]);
            assert(leb_bytes((rest / 128) as nat).len() > 0) by {
                lemma_pow128();
                lemma_leb_len((rest / 128) as nat, 10);
            }
            assert(all.skip(i + 1) =~= all.skip(i as int).skip(1));
            assert(all.skip(i as int).skip(1) =~= leb_bytes((rest / 128) as nat));
            assert(all.skip(i + 1).len() == all.len() - (i + 1));
        }
        buf[i] = byte;
        i = i + 1;
        rest = rest / 128;
        assert(buf@ =~= all.take(i as int) + old(buf)@.skip(i as int));
    }
    assert(all[i as int] == all.skip(i as int)[0]);
    assert(all.len() == i + 1);
    buf[i] = rest as u8;
    assert(buf@ =~= all + old(buf)@.skip(i + 1));
    i + 1
}

/// Encode a u64 as unsigned LEB128, appending to a Vec.
pub fn encode_u64_vec(value: u64, out: &mut Vec<u8>)
    ensures
        final(out)@ == old(out)@ + leb_bytes(value as nat),
{
    let mut rest: u64 = value;
    let ghost mut done: Seq<u8> = Seq::empty();
    assert(out@ =~= old(out)@ + done);
    while rest >= 128
        invariant
            done + leb_bytes(rest as nat) == leb_bytes(value as nat),
            out@ == old(out)@ + done,
        decreases rest,
    {
        let byte: u8 = (128 + rest % 128) as u8;
        out.push(byte);
        proof {
            assert(done.push(byte) + leb_bytes((rest / 128) as nat) =~= done + leb_bytes(
                rest as nat,
            ));
            done = done.push(byte);
        }
        rest = rest / 128;
        assert(out@ =~= old(out)@ + done);
    }
    out.push(rest as u8);
    assert(out@ =~= old(out)@ + leb_bytes(value as nat));
}

/// Decode an unsigned LEB128 value from a byte slice.
/// Returns (value, bytes_consumed).
pub fn decode_u64(data: &[u8]) -> (res: Result<(u64, usize), DecodeError>)
    ensures
        match leb_decode(data@) {
            Ok((v, n)) => res is Ok && res->Ok_0.0 == v && res->Ok_0.1 == n && 0 < n <= data@.len(),
            Err(e) => res == Err::<(u64, usize), DecodeError>(e),
        },
{
    let mut result: u64 = 0;
    let mut scale: u64 = 1;
    let mut i: usize = 0;
    proof {
        lemma_pow128();
    }
    while i < data.len()
        invariant
            i <= data@.len(),
            i <= 10,
            leb_scan(data@, 0) == leb_scan(data@, i as int),
            i < 10 ==> result == leb_value(data@, i as nat) && result < pow128(i as nat) && scale
                == pow128(i as nat),
        decreases data@.len() - i,
    {
        if i >= 10 {
            return Err(DecodeError::Overflow);
        }
        let byte: u8 = data[i];
        let low: u64 = (byte % 128) as u64;
        proof {
            lemma_pow128();
            let p = pow128(i as nat);
            assert(low * p <= 127 * p) by (nonlinear_arith)
                requires
                    low <= 127,
                    p >= 0,
            ;
            assert(leb_value(data@, (i + 1) as nat) == leb_value(data@, i as nat) + low * p);
        }
        if i < 9 {
            result = result + low * scale;
            proof {
                assert(result < pow128((i + 1) as nat));
            }
        } else if low <= 1 {
            result = result + low * 0x8000_0000_0000_0000;
        } else if byte < 128 {
            // Only one bit of the tenth byte fits.
            assert(leb_scan(data@, i as int) == Ok::<int, DecodeError>(i + 1));
            assert(leb_value(data@, 10) > u64::MAX);
            return Err(DecodeError::Overflow);
        }
        if byte < 128 {
            proof {
                assert(leb_scan(data@, i as int) == Ok::<int, DecodeError>(i + 1));
                assert(leb_value(data@, (i + 1) as nat) == result);
            }
            return Ok((result, i + 1));
        }
        if i < 9 {
            scale = scale * 128;
        }
        i = i + 1;
    }
    Err(DecodeError::Incomplete)
}

} // verus!
