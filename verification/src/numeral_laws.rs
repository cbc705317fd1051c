//! Numbers that were written as text are read back as the same numbers.

use vstd::prelude::*;
use crate::chars::{
    digit_value, is_white, law_joined_parts, number_of, parsed, skip_white, word_end,
};
use crate::cpu::builder::{bare_address, first_word, names_address};
use crate::konata::pc_of;
use crate::numerals::{decimal, digit, digits, hex, joined};
use crate::query::stage_text;
use crate::report::range_of;

verus! {

proof fn lemma_digit(n: int)
    requires
        0 <= n < 16,
    ensures
        digit_value(digit(n)) == Some(n as nat),
        digit(n) != '+',
        digit(n) != ':',
        digit(n) != 'x',
        !is_white(digit(n)),
{
}

/// The digits of a number stand for the number.
pub proof fn law_digits(n: nat, base: nat)
    requires
        2 <= base <= 16,
    ensures
        number_of(digits(n, base), base) == Some(n),
        digits(n, base).len() > 0,
        forall|i: int|
            0 <= i < digits(n, base).len() ==> #[trigger] digits(n, base)[i] != '+' && digits(
                n,
                base,
            )[i] != ':' && digits(n, base)[i] != 'x' && !is_white(digits(n, base)[i]),
    decreases n,
{
    let d = digits(n, base);
    if n < base {
        lemma_digit(n as int);
        assert(d.drop_last() =~= Seq::<char>::empty());
        assert(number_of(Seq::<char>::empty(), base) == Some(0nat));
        assert(0 * base == 0) by (nonlinear_arith);
    } else {
        assert(n / base < n) by (nonlinear_arith)
            requires
                n >= base,
                base >= 2,
        ;
        law_digits(n / base, base);
        let m = n % base;
        assert(m < base) by (nonlinear_arith)
            requires
                m == n % base,
                base >= 2,
        ;
        lemma_digit(m as int);
        assert(d.drop_last() =~= digits(n / base, base));
        vstd::arithmetic::div_mod::lemma_fundamental_div_mod(n as int, base as int);
        assert((n / base) * base == base * (n / base)) by (nonlinear_arith);
        assert forall|i: int| 0 <= i < d.len() implies #[trigger] d[i] != '+' && d[i] != ':' && d[i]
            != 'x' && !is_white(d[i]) by {
            if i < d.len() - 1 {
                assert(d[i] == digits(n / base, base)[i]);
            }
        }
    }
}

proof fn lemma_zeros(k: nat, d: Seq<char>, base: nat)
    requires
        base >= 2,
    ensures
        number_of(Seq::new(k, |i: int| '0') + d, base) == number_of(d, base),
    decreases d.len(), k,
{
    let z = Seq::new(k, |i: int| '0');
    if d.len() > 0 {
        lemma_zeros(k, d.drop_last(), base);
        assert((z + d).drop_last() =~= z + d.drop_last());
        assert((z + d).last() == d.last());
    } else if k > 0 {
        let y = Seq::new((k - 1) as nat, |i: int| '0');
        lemma_zeros((k - 1) as nat, d, base);
        assert((z + d).drop_last() =~= y + d);
        assert((z + d).last() == '0');
        assert(digit_value('0') == Some(0nat));
        assert(0 * base == 0) by (nonlinear_arith);
    } else {
        assert(z + d =~= d);
    }
}

/// A number in decimal is read as that number.
pub proof fn law_decimal_read(n: nat, max: nat)
    requires
        n <= max,
    ensures
        parsed(decimal(n), 10, max) == Some(n),
{
    law_digits(n, 10);
    assert(decimal(n)[0] != '+');
}

/// A number in hexadecimal, with or without leading zeros, is read as that
/// number.
pub proof fn law_hex_read(n: nat, width: nat, max: nat)
    requires
        n <= max,
    ensures
        parsed(hex(n, width), 16, max) == Some(n),
        hex(n, width).len() >= width,
        forall|i: int|
            0 <= i < hex(n, width).len() ==> #[trigger] hex(n, width)[i] != '+' && hex(
                n,
                width,
            )[i] != ':' && hex(n, width)[i] != 'x' && !is_white(hex(n, width)[i]),
{
    let d = digits(n, 16);
    law_digits(n, 16);
    let k = if d.len() < width {
        (width - d.len()) as nat
    } else {
        0
    };
    lemma_zeros(k, d, 16);
    let h = hex(n, width);
    assert(h =~= Seq::new(k, |i: int| '0') + d);
    assert forall|i: int| 0 <= i < h.len() implies #[trigger] h[i] != '+' && h[i] != ':' && h[i]
        != 'x' && !is_white(h[i]) by {
        if i >= k {
            assert(h[i] == d[i - k]);
        }
    }
    assert(h[0] != '+');
}

/// Different numbers are written differently.
pub proof fn law_decimal_distinct(a: nat, b: nat)
    requires
        decimal(a) == decimal(b),
    ensures
        a == b,
{
    law_digits(a, 10);
    law_digits(b, 10);
}

/// A range that was written as two numbers with a colon between them is read
/// as these numbers.
pub proof fn law_range_read(a: u32, b: u32)
    ensures
        range_of(joined(seq![decimal(a as nat), decimal(b as nat)], seq![':'])) == Some((a, b)),
{
    let (x, y) = (decimal(a as nat), decimal(b as nat));
    law_digits(a as nat, 10);
    law_digits(b as nat, 10);
    law_decimal_read(a as nat, u32::MAX as nat);
    law_decimal_read(b as nat, u32::MAX as nat);
    let p = seq![x, y];
    assert forall|i: int| 0 <= i < p.len() implies !(#[trigger] p[i]).contains(':') by {}
    law_joined_parts(p, ':');
}

/// A word that is followed by white space or nothing is the first word.
proof fn lemma_word_end(s: Seq<char>, from: int, to: int)
    requires
        0 <= from <= to <= s.len(),
        forall|i: int| from <= i < to ==> !is_white(#[trigger] s[i]),
        to < s.len() ==> is_white(s[to]),
    ensures
        word_end(s, from) == to,
    decreases to - from,
{
    if from < to {
        assert(!is_white(s[from]));
        lemma_word_end(s, from + 1, to);
    }
}

/// Whether a text starts with a number in hexadecimal, with or without "0x" in
/// front and a colon behind, and then ends or goes on with white space.
pub open spec fn opens_with(
    text: Seq<char>,
    n: nat,
    width: nat,
    prefix: bool,
    colon: bool,
) -> bool {
    let word = (if prefix {
        seq!['0', 'x']
    } else {
        Seq::empty()
    }) + hex(n, width) + (if colon {
        seq![':']
    } else {
        Seq::empty()
    });
    &&& word.len() <= text.len()
    &&& text.take(word.len() as int) == word
    &&& word.len() < text.len() ==> is_white(text[word.len() as int])
}

/// The address at the start of a text is found, whether it is written with
/// "0x" or without and with a colon behind it or without; and it names that
/// address and no other.
pub proof fn law_address_found(
    text: Seq<char>,
    n: u64,
    width: nat,
    prefix: bool,
    colon: bool,
    pc: u64,
)
    requires
        width >= 4,
        opens_with(text, n as nat, width, prefix, colon),
    ensures
        bare_address(first_word(text)) == hex(n as nat, width),
        pc_of(text) == n,
        names_address(text, pc) <==> pc != 0 && pc == n,
{
    let h = hex(n as nat, width);
    law_hex_read(n as nat, width, u64::MAX as nat);
    let a: Seq<char> = if prefix {
        seq!['0', 'x']
    } else {
        Seq::empty()
    };
    let b: Seq<char> = if colon {
        seq![':']
    } else {
        Seq::empty()
    };
    let word = a + h + b;
    let len = word.len() as int;
    assert forall|i: int| 0 <= i < len implies !is_white(#[trigger] text[i]) by {
        assert(text[i] == text.take(len)[i]);
        if a.len() <= i < a.len() + h.len() {
            assert(word[i] == h[i - a.len()]);
        }
    }
    assert(text[0] == text.take(len)[0]);
    assert(!is_white(text[0]));
    assert(skip_white(text, 0) == 0);
    lemma_word_end(text, 0, len);
    assert(first_word(text) =~= word);
    let stem = a + h;
    if colon {
        assert(word.last() == ':');
        assert(word.drop_last() =~= stem);
    } else {
        assert(word =~= stem);
        assert(word.last() == h.last());
        assert(h[h.len() - 1] != ':');
    }
    if prefix {
        assert(stem.subrange(2, stem.len() as int) =~= h);
    } else {
        assert(stem =~= h);
        assert(h[1] != 'x');
    }
}

/// A text whose first word has fewer than four digits has no address.
pub proof fn law_short_address(text: Seq<char>, pc: u64)
    requires
        bare_address(first_word(text)).len() < 4,
    ensures
        pc_of(text) == 0,
        !names_address(text, pc),
{
}

/// A stage without a name is named after its number, and different numbers give
/// different names.
pub proof fn law_unnamed_stage(names: Seq<Seq<char>>, a: u16, b: u16)
    requires
        names.len() <= a,
        names.len() <= b,
        stage_text(names, a) == stage_text(names, b),
    ensures
        a == b,
{
    let (x, y) = (decimal(a as nat), decimal(b as nat));
    let n = "stage_"@.len() as int;
    assert(stage_text(names, a).skip(n) =~= x);
    assert(stage_text(names, b).skip(n) =~= y);
    law_decimal_distinct(a as nat, b as nat);
}

} // verus!
