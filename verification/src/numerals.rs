//! Numbers as text.

use vstd::prelude::*;
use vstd::string::StringExecFns;

verus! {

/// `String::push`: the character stands at the end.
pub assume_specification[ String::push ](s: &mut String, c: char)
    ensures
        final(s)@ == old(s)@.push(c),
;

/// The digit for a number below 16.
pub open spec fn digit(n: int) -> char {
    if n == 0 {
        '0'
    } else if n == 1 {
        '1'
    } else if n == 2 {
        '2'
    } else if n == 3 {
        '3'
    } else if n == 4 {
        '4'
    } else if n == 5 {
        '5'
    } else if n == 6 {
        '6'
    } else if n == 7 {
        '7'
    } else if n == 8 {
        '8'
    } else if n == 9 {
        '9'
    } else if n == 10 {
        'a'
    } else if n == 11 {
        'b'
    } else if n == 12 {
        'c'
    } else if n == 13 {
        'd'
    } else if n == 14 {
        'e'
    } else {
        'f'
    }
}

fn digit_char(n: u64) -> (c: char)
    requires
        n < 16,
    ensures
        c == digit(n as int),
{
    match n {
        0 => '0',
        1 => '1',
        2 => '2',
        3 => '3',
        4 => '4',
        5 => '5',
        6 => '6',
        7 => '7',
        8 => '8',
        9 => '9',
        10 => 'a',
        11 => 'b',
        12 => 'c',
        13 => 'd',
        14 => 'e',
        _ => 'f',
    }
}

/// The digits of a number, without leading zeros.
pub open spec fn digits(n: nat, base: nat) -> Seq<char>
    decreases n,
    via digits_end
{
    if base < 2 || n < base {
        seq![digit(n as int)]
    } else {
        digits(n / base, base).push(digit((n % base) as int))
    }
}

#[via_fn]
proof fn digits_end(n: nat, base: nat) {
    if !(base < 2 || n < base) {
        assert(n / base < n) by (nonlinear_arith)
            requires
                n >= base,
                base >= 2,
        ;
    }
}

/// A number in decimal.
pub open spec fn decimal(n: nat) -> Seq<char> {
    digits(n, 10)
}

/// A number in hexadecimal, with leading zeros up to `width` digits.
pub open spec fn hex(n: nat, width: nat) -> Seq<char> {
    let d = digits(n, 16);
    Seq::new(
        if d.len() < width {
            (width - d.len()) as nat
        } else {
            0
        },
        |i: int| '0',
    ) + d
}

fn push_digits(s: &mut String, n: u64, base: u64)
    requires
        2 <= base <= 16,
    ensures
        final(s)@ == old(s)@ + digits(n as nat, base as nat),
    decreases n,
{
    if n < base {
        s.push(digit_char(n));
        assert(s@ =~= old(s)@ + digits(n as nat, base as nat));
    } else {
        assert(n / base < n) by (nonlinear_arith)
            requires
                n >= base,
                base >= 2,
        ;
        push_digits(s, n / base, base);
        let ghost before = s@;
        s.push(digit_char(n % base));
        assert(s@ =~= old(s)@ + digits(n as nat, base as nat));
    }
}

/// A number in decimal.
pub fn to_decimal(n: u64) -> (s: String)
    ensures
        s@ == decimal(n as nat),
{
    let mut s = String::new();
    push_digits(&mut s, n, 10);
    assert(s@ =~= decimal(n as nat));
    s
}

/// A number of 64 bits has at most 20 decimal and 16 hexadecimal digits.
pub proof fn law_digits_len(n: nat)
    requires
        n <= u64::MAX,
    ensures
        1 <= digits(n, 10).len() <= 20,
        1 <= digits(n, 16).len() <= 16,
{
    reveal_with_fuel(digits, 21);
}

/// A number in hexadecimal, with leading zeros up to `width` digits.
pub fn to_hex(n: u64, width: usize) -> (s: String)
    ensures
        s@ == hex(n as nat, width as nat),
{
    let mut d = String::new();
    push_digits(&mut d, n, 16);
    assert(d@ =~= digits(n as nat, 16));
    let len: usize = vstd::string::StrSliceExecFns::unicode_len(d.as_str());
    let mut s = String::new();
    let mut i: usize = len;
    while i < width
        invariant
            len == d@.len(),
            len <= i,
            i <= width || i == len,
            s@ == Seq::new((i - len) as nat, |j: int| '0'),
        decreases width - i,
    {
        s.push('0');
        i = i + 1;
        assert(s@ =~= Seq::new((i - len) as nat, |j: int| '0'));
    }
    s.append(d.as_str());
    assert(s@ =~= hex(n as nat, width as nat));
    s
}

/// Texts with a separator between them.
pub open spec fn joined(parts: Seq<Seq<char>>, separator: Seq<char>) -> Seq<char>
    decreases parts.len(),
{
    if parts.len() == 0 {
        Seq::empty()
    } else if parts.len() == 1 {
        parts[0]
    } else {
        joined(parts.drop_last(), separator) + separator + parts.last()
    }
}

/// The texts of some strings.
pub open spec fn texts_of(parts: Seq<String>) -> Seq<Seq<char>> {
    parts.map_values(|s: String| s@)
}

/// Joins texts with a separator between them.
pub fn join(parts: &Vec<String>, separator: &str) -> (s: String)
    ensures
        s@ == joined(texts_of(parts@), separator@),
{
    let ghost all = texts_of(parts@);
    let mut s = String::new();
    let mut i: usize = 0;
    while i < parts.len()
        invariant
            i <= parts@.len(),
            all == texts_of(parts@),
            s@ == joined(all.take(i as int), separator@),
        decreases parts@.len() - i,
    {
        assert(all.take(i + 1).drop_last() =~= all.take(i as int));
        if i > 0 {
            s.append(separator);
        }
        s.append(parts[i].as_str());
        i = i + 1;
        assert(s@ =~= joined(all.take(i as int), separator@));
    }
    assert(all.take(i as int) =~= all);
    s
}

} // verus!
