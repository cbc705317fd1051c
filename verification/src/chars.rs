//! Texts character by character: words, prefixes and numbers.

use vstd::prelude::*;

verus! {

/// The characters of a text.
pub fn chars_of(s: &str) -> (v: Vec<char>)
    ensures
        v@ == s@,
{
    let mut v: Vec<char> = Vec::new();
    for c in it: s.chars()
        invariant
            it.seq() == s@,
            v@ == it.seq().take(it.index() as int),
    {
        v.push(c);
        assert(v@ =~= it.seq().take(it.index() + 1));
    }
    assert(v@ =~= s@);
    v
}

/// The text of the characters from `from` up to but not with `to`.
pub fn text_of(v: &Vec<char>, from: usize, to: usize) -> (s: String)
    requires
        from <= to <= v@.len(),
    ensures
        s@ == v@.subrange(from as int, to as int),
{
    let mut s = String::new();
    let mut i: usize = from;
    assert(s@ =~= v@.subrange(from as int, i as int));
    while i < to
        invariant
            from <= i <= to <= v@.len(),
            s@ == v@.subrange(from as int, i as int),
        decreases to - i,
    {
        s.push(v[i]);
        i = i + 1;
        assert(s@ =~= v@.subrange(from as int, i as int));
    }
    s
}

/// Whether a character is white space: the characters with the Unicode
/// property White_Space.
pub open spec fn is_white(c: char) -> bool {
    ||| 0x09 <= c as u32 <= 0x0D
    ||| c as u32 == 0x20
    ||| c as u32 == 0x85
    ||| c as u32 == 0xA0
    ||| c as u32 == 0x1680
    ||| 0x2000 <= c as u32 <= 0x200A
    ||| c as u32 == 0x2028
    ||| c as u32 == 0x2029
    ||| c as u32 == 0x202F
    ||| c as u32 == 0x205F
    ||| c as u32 == 0x3000
}

/// Whether a character is white space.
pub fn white(c: char) -> (b: bool)
    ensures
        b == is_white(c),
{
    let u: u32 = c as u32;
    (0x09 <= u && u <= 0x0D) || u == 0x20 || u == 0x85 || u == 0xA0 || u == 0x1680 || (0x2000 <= u
        && u <= 0x200A) || u == 0x2028 || u == 0x2029 || u == 0x202F || u == 0x205F || u == 0x3000
}

/// The first place from `from` on at which the text is not white.
pub open spec fn skip_white(s: Seq<char>, from: int) -> int
    decreases s.len() - from,
{
    if 0 <= from < s.len() && is_white(s[from]) {
        skip_white(s, from + 1)
    } else {
        from
    }
}

/// The first place from `from` on at which the text is white or ends.
pub open spec fn word_end(s: Seq<char>, from: int) -> int
    decreases s.len() - from,
{
    if 0 <= from < s.len() && !is_white(s[from]) {
        word_end(s, from + 1)
    } else {
        from
    }
}

/// The last place up to `to` before which the text is not white.
pub open spec fn trim_back(s: Seq<char>, from: int, to: int) -> int
    decreases to - from,
{
    if from < to && is_white(s[to - 1]) {
        trim_back(s, from, to - 1)
    } else {
        to
    }
}

/// A text without the white space at its ends.
pub open spec fn trimmed(s: Seq<char>) -> Seq<char> {
    let from = skip_white(s, 0);
    s.subrange(from, trim_back(s, from, s.len() as int))
}

pub proof fn lemma_trim_bounds(s: Seq<char>, from: int, to: int)
    requires
        0 <= from <= to <= s.len(),
    ensures
        from <= skip_white(s, from) <= s.len(),
        from <= word_end(s, from) <= s.len(),
        from <= trim_back(s, from, to) <= to,
    decreases s.len() - from, to - from,
{
    if from < s.len() {
        lemma_trim_bounds(s, from + 1, s.len() as int);
    }
    if from < to {
        lemma_trim_bounds(s, from, to - 1);
    }
}

/// Finds the first place from `from` on at which the text is not white.
pub fn skip_blanks(v: &Vec<char>, from: usize) -> (i: usize)
    requires
        from <= v@.len(),
    ensures
        i == skip_white(v@, from as int),
        from <= i <= v@.len(),
{
    let mut i: usize = from;
    while i < v.len() && white(v[i])
        invariant
            from <= i <= v@.len(),
            skip_white(v@, from as int) == skip_white(v@, i as int),
        decreases v@.len() - i,
    {
        i = i + 1;
    }
    i
}

/// Finds the end of the word that starts at `from`.
pub fn find_word_end(v: &Vec<char>, from: usize) -> (i: usize)
    requires
        from <= v@.len(),
    ensures
        i == word_end(v@, from as int),
        from <= i <= v@.len(),
{
    let mut i: usize = from;
    while i < v.len() && !white(v[i])
        invariant
            from <= i <= v@.len(),
            word_end(v@, from as int) == word_end(v@, i as int),
        decreases v@.len() - i,
    {
        i = i + 1;
    }
    i
}

/// The text without the white space at its ends.
pub fn trim_text(v: &Vec<char>) -> (s: String)
    ensures
        s@ == trimmed(v@),
{
    let from: usize = skip_blanks(v, 0);
    let n: usize = v.len();
    let mut to: usize = n;
    while from < to && white(v[to - 1])
        invariant
            from <= to <= n,
            n == v@.len(),
            trim_back(v@, from as int, n as int) == trim_back(v@, from as int, to as int),
        decreases to,
    {
        to = to - 1;
    }
    text_of(v, from, to)
}

/// The value of a digit in base 16, where it is one.
pub open spec fn digit_value(c: char) -> Option<nat> {
    let u = c as u32;
    if 0x30 <= u <= 0x39 {
        Some((u - 0x30) as nat)
    } else if 0x61 <= u <= 0x66 {
        Some((u - 0x61 + 10) as nat)
    } else if 0x41 <= u <= 0x46 {
        Some((u - 0x41 + 10) as nat)
    } else {
        None
    }
}

/// The number that some digits stand for, where all are digits of the base.
pub open spec fn number_of(s: Seq<char>, base: nat) -> Option<nat>
    decreases s.len(),
{
    if s.len() == 0 {
        Some(0)
    } else {
        match (number_of(s.drop_last(), base), digit_value(s.last())) {
            (Some(n), Some(d)) => if d < base {
                Some(n * base + d)
            } else {
                None
            },
            _ => None,
        }
    }
}

/// The number that a text stands for, as `from_str_radix` and `parse` of the
/// unsigned integers have it: digits, at least one, behind a plus sign or
/// none, and not above `max`.
pub open spec fn parsed(s: Seq<char>, base: nat, max: nat) -> Option<nat> {
    let d = if s.len() > 0 && s[0] == '+' {
        s.subrange(1, s.len() as int)
    } else {
        s
    };
    if d.len() == 0 {
        None
    } else {
        match number_of(d, base) {
            Some(n) => if n <= max {
                Some(n)
            } else {
                None
            },
            None => None,
        }
    }
}

/// The value of a digit.
fn value_of_digit(c: char) -> (d: Option<u64>)
    ensures
        match digit_value(c) {
            Some(n) => d is Some && d->Some_0 == n && n < 16,
            None => d is None,
        },
{
    let u: u32 = c as u32;
    if 0x30 <= u && u <= 0x39 {
        Some((u - 0x30) as u64)
    } else if 0x61 <= u && u <= 0x66 {
        Some((u - 0x61 + 10) as u64)
    } else if 0x41 <= u && u <= 0x46 {
        Some((u - 0x41 + 10) as u64)
    } else {
        None
    }
}

/// More digits make no smaller number.
proof fn lemma_number_grows(s: Seq<char>, k: int, base: nat)
    requires
        0 <= k <= s.len(),
        base >= 1,
    ensures
        number_of(s, base) is Some ==> number_of(s.take(k), base) is Some && number_of(
            s.take(k),
            base,
        )->Some_0 <= number_of(s, base)->Some_0,
    decreases s.len(),
{
    if k == s.len() {
        assert(s.take(k) =~= s);
    } else {
        lemma_number_grows(s.drop_last(), k, base);
        assert(s.drop_last().take(k) =~= s.take(k));
        if number_of(s, base) is Some {
            let n = number_of(s.drop_last(), base)->Some_0;
            assert(n <= n * base) by (nonlinear_arith)
                requires
                    base >= 1,
            ;
        }
    }
}

/// Reads the number that the characters from `from` up to but not with `to`
/// stand for.
pub fn parse_number(v: &Vec<char>, from: usize, to: usize, base: u64, max: u64) -> (r: Option<u64>)
    requires
        from <= to <= v@.len(),
        2 <= base <= 16,
    ensures
        match parsed(v@.subrange(from as int, to as int), base as nat, max as nat) {
            Some(n) => r is Some && r->Some_0 == n,
            None => r is None,
        },
{
    let ghost s = v@.subrange(from as int, to as int);
    let mut start: usize = from;
    if from < to && v[from] == '+' {
        start = from + 1;
    }
    let ghost d = v@.subrange(start as int, to as int);
    proof {
        if start > from {
            assert(s[0] == '+');
            assert(s.subrange(1, s.len() as int) =~= d);
        } else {
            assert(from < to ==> s[0] == v@[from as int]);
        }
    }
    if start >= to {
        return None;
    }
    let mut n: u64 = 0;
    let mut i: usize = start;
    assert(d.take(0) =~= Seq::<char>::empty());
    while i < to
        invariant
            from <= start <= i <= to <= v@.len(),
            start < to,
            2 <= base <= 16,
            d == v@.subrange(start as int, to as int),
            s == v@.subrange(from as int, to as int),
            parsed(s, base as nat, max as nat) == match number_of(d, base as nat) {
                Some(x) => if x <= max {
                    Some(x)
                } else {
                    None
                },
                None => None::<nat>,
            },
            number_of(d.take(i - start), base as nat) == Some(n as nat),
            n <= max,
        decreases to - i,
    {
        let ghost k = i - start;
        proof {
            assert(d.take(k + 1).drop_last() =~= d.take(k));
            assert(d.take(k + 1).last() == v@[i as int]);
            lemma_number_grows(d, k + 1, base as nat);
        }
        let digit: u64 = match value_of_digit(v[i]) {
            Some(x) => x,
            None => return None,
        };
        if digit >= base {
            return None;
        }
        let next: u64 = match n.checked_mul(base) {
            Some(x) => match x.checked_add(digit) {
                Some(y) => y,
                None => return None,
            },
            None => return None,
        };
        if next > max {
            return None;
        }
        n = next;
        i = i + 1;
    }
    assert(d.take(to - start) =~= d);
    Some(n)
}

// ---------------------------------------------------------------------------
// Splitting.

/// The parts of a text between separators, the first starting at `start`;
/// between `start` and `i` there is no separator.
pub open spec fn parts_from(s: Seq<char>, separator: char, start: int, i: int) -> Seq<Seq<char>>
    decreases s.len() - i,
{
    if i >= s.len() {
        seq![s.subrange(start, s.len() as int)]
    } else if s[i] == separator {
        seq![s.subrange(start, i)] + parts_from(s, separator, i + 1, i + 1)
    } else {
        parts_from(s, separator, start, i + 1)
    }
}

/// The parts of a text between separators.
pub open spec fn parts(s: Seq<char>, separator: char) -> Seq<Seq<char>> {
    parts_from(s, separator, 0, 0)
}

/// The contents of some lists of characters.
pub open spec fn char_seqs(v: Seq<Vec<char>>) -> Seq<Seq<char>> {
    v.map_values(|c: Vec<char>| c@)
}

/// The characters from `from` up to but not with `to`.
pub fn sub_chars(v: &Vec<char>, from: usize, to: usize) -> (r: Vec<char>)
    requires
        from <= to <= v@.len(),
    ensures
        r@ == v@.subrange(from as int, to as int),
{
    let mut r: Vec<char> = Vec::new();
    let mut i: usize = from;
    assert(r@ =~= v@.subrange(from as int, i as int));
    while i < to
        invariant
            from <= i <= to <= v@.len(),
            r@ == v@.subrange(from as int, i as int),
        decreases to - i,
    {
        r.push(v[i]);
        i = i + 1;
        assert(r@ =~= v@.subrange(from as int, i as int));
    }
    r
}

/// Splits a text at the separators.
pub fn split(v: &Vec<char>, separator: char) -> (r: Vec<Vec<char>>)
    ensures
        char_seqs(r@) == parts(v@, separator),
{
    let mut r: Vec<Vec<char>> = Vec::new();
    let ghost whole = parts(v@, separator);
    let mut start: usize = 0;
    let mut i: usize = 0;
    assert(char_seqs(r@) + parts_from(v@, separator, 0, 0) =~= whole);
    while i < v.len()
        invariant
            start <= i <= v@.len(),
            whole == char_seqs(r@) + parts_from(v@, separator, start as int, i as int),
        decreases v@.len() - i,
    {
        if v[i] == separator {
            let ghost before = char_seqs(r@);
            let part = sub_chars(v, start, i);
            r.push(part);
            assert(char_seqs(r@) =~= before.push(part@));
            assert(before.push(part@) + parts_from(v@, separator, i + 1, i + 1) =~= before + (
            seq![part@] + parts_from(v@, separator, i + 1, i + 1)));
            start = i + 1;
        }
        i = i + 1;
    }
    let ghost before = char_seqs(r@);
    let part = sub_chars(v, start, i);
    r.push(part);
    assert(char_seqs(r@) =~= before + seq![part@]);
    r
}

/// The parts of a text, with the separator between them, are the text.
pub proof fn law_parts_joined(s: Seq<char>, separator: char, start: int, i: int)
    requires
        0 <= start <= i <= s.len(),
    ensures
        parts_from(s, separator, start, i).len() > 0,
        crate::numerals::joined(parts_from(s, separator, start, i), seq![separator])
            == s.subrange(start, s.len() as int),
    decreases s.len() - i,
{
    let all = parts_from(s, separator, start, i);
    if i < s.len() {
        if s[i] == separator {
            let more = parts_from(s, separator, i + 1, i + 1);
            law_parts_joined(s, separator, i + 1, i + 1);
            lemma_joined_front(s.subrange(start, i), more, seq![separator]);
            assert(s.subrange(start, i) + seq![separator] + s.subrange(i + 1, s.len() as int)
                =~= s.subrange(start, s.len() as int));
        } else {
            law_parts_joined(s, separator, start, i + 1);
        }
    }
}

proof fn lemma_joined_front(first: Seq<char>, more: Seq<Seq<char>>, separator: Seq<char>)
    requires
        more.len() > 0,
    ensures
        crate::numerals::joined(seq![first] + more, separator) == first + separator
            + crate::numerals::joined(more, separator),
    decreases more.len(),
{
    let all = seq![first] + more;
    assert(all.drop_last() =~= seq![first] + more.drop_last());
    if more.len() == 1 {
        assert(all.drop_last() =~= seq![first]);
        assert(crate::numerals::joined(all.drop_last(), separator) == first);
    } else {
        lemma_joined_front(first, more.drop_last(), separator);
        let x = crate::numerals::joined(more.drop_last(), separator);
        assert(first + separator + x + separator + more.last() =~= first + separator + (x
            + separator + more.last()));
    }
}

/// What stands before a text does not matter to its parts.
proof fn lemma_parts_behind(a: Seq<char>, t: Seq<char>, separator: char, start: int, i: int)
    requires
        0 <= start <= i <= t.len(),
    ensures
        parts_from(a + t, separator, a.len() + start, a.len() + i) == parts_from(
            t,
            separator,
            start,
            i,
        ),
    decreases t.len() - i,
{
    let s = a + t;
    if i < t.len() {
        assert(s[a.len() + i] == t[i]);
        if t[i] == separator {
            lemma_parts_behind(a, t, separator, i + 1, i + 1);
            assert(s.subrange(a.len() + start, a.len() + i) =~= t.subrange(start, i));
        } else {
            lemma_parts_behind(a, t, separator, start, i + 1);
        }
    } else {
        assert(s.subrange(a.len() + start, s.len() as int) =~= t.subrange(start, t.len() as int));
    }
}

/// A part ends where the first separator stands.
proof fn lemma_first_part(s: Seq<char>, separator: char, i: int, end: int)
    requires
        0 <= i <= end <= s.len(),
        forall|j: int| 0 <= j < end ==> s[j] != separator,
    ensures
        parts_from(s, separator, 0, i) == parts_from(s, separator, 0, end),
    decreases end - i,
{
    if i < end {
        lemma_first_part(s, separator, i + 1, end);
    }
}

/// Texts without a separator, joined by it, are the parts of what they are
/// joined to.
pub proof fn law_joined_parts(texts: Seq<Seq<char>>, separator: char)
    requires
        texts.len() > 0,
        forall|i: int| 0 <= i < texts.len() ==> !(#[trigger] texts[i]).contains(separator),
    ensures
        parts(crate::numerals::joined(texts, seq![separator]), separator) == texts,
    decreases texts.len(),
{
    let first = texts[0];
    let s = crate::numerals::joined(texts, seq![separator]);
    let n = first.len() as int;
    assert(!first.contains(separator));
    assert forall|j: int| 0 <= j < n implies first[j] != separator by {
        assert(first.contains(first[j]));
    }
    if texts.len() == 1 {
        lemma_first_part(s, separator, 0, n);
        assert(parts_from(s, separator, 0, n) =~= texts) by {
            assert(s.subrange(0, n) =~= first);
        }
    } else {
        let more = texts.drop_first();
        assert(texts =~= seq![first] + more);
        lemma_joined_front(first, more, seq![separator]);
        let rest = crate::numerals::joined(more, seq![separator]);
        let head = first + seq![separator];
        assert(s == head + rest);
        assert forall|j: int| 0 <= j < n implies s[j] != separator by {
            assert(s[j] == first[j]);
        }
        lemma_first_part(s, separator, 0, n);
        assert(s[n] == separator);
        lemma_parts_behind(head, rest, separator, 0, 0);
        assert forall|i: int| 0 <= i < more.len() implies !(#[trigger] more[i]).contains(
            separator,
        ) by {
            assert(more[i] == texts[i + 1]);
        }
        law_joined_parts(more, separator);
        assert(s.subrange(0, n) =~= first);
        assert(parts_from(s, separator, 0, n) =~= seq![first] + more);
    }
}

// ---------------------------------------------------------------------------
// Trimming.

proof fn lemma_skip_white(s: Seq<char>, from: int)
    requires
        0 <= from <= s.len(),
    ensures
        from <= skip_white(s, from) <= s.len(),
        forall|i: int| from <= i < skip_white(s, from) ==> is_white(#[trigger] s[i]),
        skip_white(s, from) < s.len() ==> !is_white(s[skip_white(s, from)]),
    decreases s.len() - from,
{
    if from < s.len() && is_white(s[from]) {
        lemma_skip_white(s, from + 1);
    }
}

proof fn lemma_trim_back(s: Seq<char>, from: int, to: int)
    requires
        0 <= from <= to <= s.len(),
    ensures
        from <= trim_back(s, from, to) <= to,
        forall|i: int| trim_back(s, from, to) <= i < to ==> is_white(#[trigger] s[i]),
        trim_back(s, from, to) > from ==> !is_white(s[trim_back(s, from, to) - 1]),
    decreases to - from,
{
    if from < to && is_white(s[to - 1]) {
        lemma_trim_back(s, from, to - 1);
    }
}

/// A text without the white space at its ends has none at its ends, and only
/// white space was taken away.
pub proof fn law_trimmed(s: Seq<char>)
    ensures
        trimmed(s).len() > 0 ==> !is_white(trimmed(s)[0]) && !is_white(trimmed(s).last()),
        exists|from: int, to: int|
            0 <= from <= to <= s.len() && trimmed(s) == #[trigger] s.subrange(from, to) && (
            forall|i: int| 0 <= i < from || to <= i < s.len() ==> is_white(#[trigger] s[i])),
{
    let from = skip_white(s, 0);
    lemma_skip_white(s, 0);
    let to = trim_back(s, from, s.len() as int);
    lemma_trim_back(s, from, s.len() as int);
    let t = s.subrange(from, to);
    assert(trimmed(s) == t);
    if t.len() > 0 {
        assert(t[0] == s[from]);
        assert(t.last() == s[to - 1]);
    }
}

} // verus!
