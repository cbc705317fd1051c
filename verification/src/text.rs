//! Text as UTF-8 bytes.

use vstd::prelude::*;
use vstd::string::StringSliceAdditionalSpecFns;
use vstd::utf8::{
    char_u32_cast, decode_utf8, encode_scalar, encode_utf8, encode_utf8_decode_utf8,
    has_width_1_encoding, last_continuation_byte, leading_byte_width_1, leading_byte_width_2,
    leading_byte_width_3, leading_byte_width_4, second_last_continuation_byte,
    third_last_continuation_byte, valid_utf8,
};

verus! {

/// `core::str::from_utf8`: the text whose UTF-8 form is `b`, where `b` is
/// valid UTF-8.
#[verifier::external_body]
pub(crate) fn utf8_str<'a>(b: &'a [u8]) -> (r: Option<&'a str>)
    ensures
        match r {
            Some(s) => valid_utf8(b@) && s@ == decode_utf8(b@),
            None => !valid_utf8(b@),
        },
{
    core::str::from_utf8(b).ok()
}

/// What `String::from_utf8_lossy` makes of bytes that are not UTF-8: a text
/// with a replacement character for every part that is not valid.
pub uninterp spec fn utf8_lossy(b: Seq<u8>) -> Seq<char>;

/// The text that some bytes stand for, as far as they are UTF-8.
pub open spec fn lossy_text(b: Seq<u8>) -> Seq<char> {
    if valid_utf8(b) {
        decode_utf8(b)
    } else {
        utf8_lossy(b)
    }
}

/// `String::from_utf8_lossy`: of valid UTF-8 it gives the text, of other bytes
/// a text that depends on them alone.
#[verifier::external_body]
pub(crate) fn lossy_string(b: &[u8]) -> (s: String)
    ensures
        valid_utf8(b@) ==> s@ == decode_utf8(b@),
        !valid_utf8(b@) ==> s@ == utf8_lossy(b@),
{
    String::from_utf8_lossy(b).into_owned()
}

/// Whether two texts have the same characters.
pub fn str_eq(a: &str, b: &str) -> (r: bool)
    ensures
        r == (a@ == b@),
{
    let x = a.as_bytes();
    let y = b.as_bytes();
    proof {
        encode_utf8_decode_utf8(a@);
        encode_utf8_decode_utf8(b@);
    }
    if x.len() != y.len() {
        return false;
    }
    let mut i: usize = 0;
    while i < x.len()
        invariant
            i <= x@.len(),
            x@.len() == y@.len(),
            x@ == encode_utf8(a@),
            y@ == encode_utf8(b@),
            forall|j: int| 0 <= j < i ==> x@[j] == y@[j],
        decreases x@.len() - i,
    {
        if x[i] != y[i] {
            return false;
        }
        i = i + 1;
    }
    assert(x@ =~= y@);
    true
}

proof fn lemma_scalar_no_nul(c: u32)
    by (bit_vector)
    requires
        c != 0,
    ensures
        has_width_1_encoding(c) ==> leading_byte_width_1(c) != 0,
        leading_byte_width_2(c) != 0,
        leading_byte_width_3(c) != 0,
        leading_byte_width_4(c) != 0,
        last_continuation_byte(c) != 0,
        second_last_continuation_byte(c) != 0,
        third_last_continuation_byte(c) != 0,
{
}

/// The UTF-8 form of a text without NUL characters has no zero byte.
pub proof fn lemma_encode_no_nul(t: Seq<char>)
    requires
        !t.contains('\0'),
    ensures
        forall|i: int| 0 <= i < encode_utf8(t).len() ==> #[trigger] encode_utf8(t)[i] != 0,
    decreases t.len(),
{
    if t.len() > 0 {
        let rest = t.drop_first();
        assert(t[0] != '\0' && !rest.contains('\0')) by {
            assert(t.contains(t[0]));
            assert forall|i: int| 0 <= i < rest.len() implies rest[i] != '\0' by {
                assert(rest[i] == t[i + 1]);
                assert(t.contains(t[i + 1]));
            }
        }
        lemma_encode_no_nul(rest);
        char_u32_cast(t[0], t[0] as u32);
        char_u32_cast('\0', 0);
        lemma_scalar_no_nul(t[0] as u32);
        let head = encode_scalar(t[0] as u32);
        assert forall|i: int| 0 <= i < encode_utf8(t).len() implies #[trigger] encode_utf8(t)[i]
            != 0 by {
            if i < head.len() {
                assert(encode_utf8(t)[i] == head[i]);
            } else {
                assert(encode_utf8(t)[i] == encode_utf8(rest)[i - head.len()]);
            }
        }
    }
}

} // verus!
