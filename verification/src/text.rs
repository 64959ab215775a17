//! Character-level helpers for fixed-width text fields.
//!
//! A line is handled as a sequence of characters; a field is the part of the
//! line between two column positions. Everything here is stated over
//! `Seq<char>` so that the record decoders can be specified column by column.

use vstd::prelude::*;

verus! {

/// Appending one character to a `String` (`String::push` of the standard
/// library): the text afterwards is the text before followed by `ch`.
pub assume_specification[ String::push ](s: &mut String, ch: char)
    ensures
        final(s)@ == old(s)@.push(ch),
;

/// Whether `c` is white space in the sense of the Unicode `White_Space`
/// property, which is what trimming removes.
pub open spec fn is_whitespace(c: char) -> bool {
    let n = c as u32;
    ||| 0x09 <= n <= 0x0D
    ||| n == 0x20
    ||| n == 0x85
    ||| n == 0xA0
    ||| n == 0x1680
    ||| 0x2000 <= n <= 0x200A
    ||| n == 0x2028
    ||| n == 0x2029
    ||| n == 0x202F
    ||| n == 0x205F
    ||| n == 0x3000
}

/// Number of white-space characters at the start of `s`.
pub open spec fn leading_whitespace(s: Seq<char>) -> nat
    decreases s.len(),
{
    if s.len() > 0 && is_whitespace(s[0]) {
        1 + leading_whitespace(s.drop_first())
    } else {
        0
    }
}

/// Number of white-space characters at the end of `s`.
pub open spec fn trailing_whitespace(s: Seq<char>) -> nat
    decreases s.len(),
{
    if s.len() > 0 && is_whitespace(s.last()) {
        1 + trailing_whitespace(s.drop_last())
    } else {
        0
    }
}

/// `s` without its leading and trailing white space.
pub open spec fn trim(s: Seq<char>) -> Seq<char> {
    let t = s.skip(leading_whitespace(s) as int);
    t.take(t.len() - trailing_whitespace(t))
}

/// `s` with every comma removed.
pub open spec fn without_commas(s: Seq<char>) -> Seq<char> {
    s.filter(|c: char| c != ',')
}

/// Whether `c` is one of the ASCII digits.
pub open spec fn is_digit(c: char) -> bool {
    0x30 <= c as u32 <= 0x39
}

/// The value of the ASCII digit `c`.
pub open spec fn digit_value(c: char) -> int {
    c as u32 - 0x30
}

/// Whether every character of `s` is an ASCII digit.
pub open spec fn all_digits(s: Seq<char>) -> bool {
    forall|i: int| 0 <= i < s.len() ==> is_digit(#[trigger] s[i])
}

/// The number that the decimal digits of `s` write.
pub open spec fn decimal_value(s: Seq<char>) -> int
    decreases s.len(),
{
    if s.len() == 0 {
        0
    } else {
        decimal_value(s.drop_last()) * 10 + digit_value(s.last())
    }
}

/// Code point of `c` with the ASCII capital letters folded onto the small ones.
pub open spec fn lowercase_code(c: char) -> u32 {
    if 0x41 <= c as u32 <= 0x5A {
        (c as u32 + 32) as u32
    } else {
        c as u32
    }
}

/// Whether `s` spells `word` when ASCII letter case is ignored in `s`.
pub open spec fn spells(s: Seq<char>, word: Seq<char>) -> bool {
    &&& s.len() == word.len()
    &&& forall|i: int| 0 <= i < s.len() ==> lowercase_code(#[trigger] s[i]) == word[i] as u32
}

/// An upper bound on the value of a short run of digits.
pub proof fn lemma_decimal_value_bound(s: Seq<char>)
    requires
        all_digits(s),
        s.len() <= 9,
    ensures
        0 <= decimal_value(s) < pow10(s.len()),
    decreases s.len(),
{
    if s.len() > 0 {
        assert(is_digit(s[s.len() - 1]));
        assert forall|i: int| 0 <= i < s.drop_last().len() implies is_digit(
            #[trigger] s.drop_last()[i],
        ) by {
            assert(s.drop_last()[i] == s[i]);
        }
        lemma_decimal_value_bound(s.drop_last());
    }
}

/// Ten to the power `n`.
pub open spec fn pow10(n: nat) -> int
    decreases n,
{
    if n == 0 {
        1
    } else {
        10 * pow10((n - 1) as nat)
    }
}

/// Whether `c` is white space.
pub fn char_is_whitespace(c: char) -> (b: bool)
    ensures
        b == is_whitespace(c),
{
    let n: u32 = c as u32;
    (0x09 <= n && n <= 0x0D) || n == 0x20 || n == 0x85 || n == 0xA0 || n == 0x1680 || (0x2000 <= n
        && n <= 0x200A) || n == 0x2028 || n == 0x2029 || n == 0x202F || n == 0x205F || n == 0x3000
}

/// The characters of `s`, in order.
pub fn chars_of(s: &str) -> (chars: Vec<char>)
    ensures
        chars@ == s@,
{
    let mut chars: Vec<char> = Vec::new();
    for c in it: s.chars()
        invariant
            chars@ == it.seq().take(it.index() as int),
            it.seq() == s@,
    {
        chars.push(c);
    }
    chars
}

/// The text made of the characters of `line` from column `from` up to, not
/// including, column `to`.
pub fn string_of(line: &[char], from: usize, to: usize) -> (s: String)
    requires
        from <= to <= line@.len(),
    ensures
        s@ == line@.subrange(from as int, to as int),
{
    let mut s = String::new();
    let mut i: usize = from;
    while i < to
        invariant
            from <= i <= to <= line@.len(),
            s@ == line@.subrange(from as int, i as int),
        decreases to - i,
    {
        s.push(line[i]);
        i += 1;
    }
    s
}

/// The bounds of the field `from..to` of `line` once its leading and trailing
/// white space is left out.
pub fn trimmed_bounds(line: &[char], from: usize, to: usize) -> (bounds: (usize, usize))
    requires
        from <= to <= line@.len(),
    ensures
        from <= bounds.0 <= bounds.1 <= to,
        line@.subrange(bounds.0 as int, bounds.1 as int) == trim(
            line@.subrange(from as int, to as int),
        ),
{
    let ghost field = line@.subrange(from as int, to as int);
    let mut a: usize = from;
    while a < to && char_is_whitespace(line[a])
        invariant
            from <= a <= to <= line@.len(),
            leading_whitespace(field) == (a - from) + leading_whitespace(
                line@.subrange(a as int, to as int),
            ),
        decreases to - a,
    {
        assert(line@.subrange(a as int, to as int).drop_first() == line@.subrange(
            a as int + 1,
            to as int,
        ));
        a += 1;
    }
    assert(leading_whitespace(field) == a - from);
    let ghost rest = field.skip((a - from) as int);
    assert(rest == line@.subrange(a as int, to as int));
    let mut b: usize = to;
    while a < b && char_is_whitespace(line[b - 1])
        invariant
            a <= b <= to <= line@.len(),
            trailing_whitespace(rest) == (to - b) + trailing_whitespace(
                line@.subrange(a as int, b as int),
            ),
            rest == line@.subrange(a as int, to as int),
        decreases b - a,
    {
        assert(line@.subrange(a as int, b as int).drop_last() == line@.subrange(
            a as int,
            b as int - 1,
        ));
        b -= 1;
    }
    assert(trailing_whitespace(rest) == to - b);
    assert(rest.take(rest.len() - (to - b)) == line@.subrange(a as int, b as int));
    (a, b)
}

/// The field `from..to` of `line`, trimmed, as a `String`.
pub fn trimmed_field(line: &[char], from: usize, to: usize) -> (s: String)
    requires
        from <= to <= line@.len(),
    ensures
        s@ == trim(line@.subrange(from as int, to as int)),
{
    let (a, b) = trimmed_bounds(line, from, to);
    string_of(line, a, b)
}

/// The field `from..to` of `line`, trimmed and with its commas removed.
pub fn trimmed_field_without_commas(line: &[char], from: usize, to: usize) -> (s: String)
    requires
        from <= to <= line@.len(),
    ensures
        s@ == without_commas(trim(line@.subrange(from as int, to as int))),
{
    let (a, b) = trimmed_bounds(line, from, to);
    let ghost kept = line@.subrange(a as int, b as int);
    let ghost wanted = |c: char| c != ',';
    let mut s = String::new();
    let mut i: usize = a;
    proof {
        reveal(Seq::filter);
        assert(kept.take(0) == Seq::<char>::empty());
    }
    while i < b
        invariant
            a <= i <= b <= line@.len(),
            kept == line@.subrange(a as int, b as int),
            wanted == |c: char| c != ',',
            s@ == kept.take(i - a).filter(wanted),
        decreases b - i,
    {
        let c = line[i];
        proof {
            reveal(Seq::filter);
            let next = kept.take(i - a + 1);
            assert(next.drop_last() == kept.take(i - a));
            assert(next.last() == c);
        }
        if c != ',' {
            s.push(c);
        }
        i += 1;
    }
    assert(kept.take(b - a) == kept);
    s
}

/// Reads the field `from..to` of `line` as an unsigned decimal number: `None`
/// unless every character of the field is an ASCII digit.
pub fn parse_decimal(line: &[char], from: usize, to: usize) -> (value: Option<u32>)
    requires
        from <= to <= line@.len(),
        to - from <= 9,
    ensures
        value is Some <==> all_digits(line@.subrange(from as int, to as int)),
        value matches Some(v) ==> v == decimal_value(line@.subrange(from as int, to as int)),
{
    let ghost field = line@.subrange(from as int, to as int);
    let mut value: u32 = 0;
    let mut i: usize = from;
    proof {
        assert(field.take(0) == Seq::<char>::empty());
    }
    while i < to
        invariant
            from <= i <= to <= line@.len(),
            to - from <= 9,
            field == line@.subrange(from as int, to as int),
            all_digits(field.take(i - from)),
            value == decimal_value(field.take(i - from)),
        decreases to - i,
    {
        let n: u32 = line[i] as u32;
        if n < 0x30 || n > 0x39 {
            assert(!is_digit(field[i - from]));
            return None;
        }
        proof {
            let next = field.take(i - from + 1);
            assert(next.drop_last() == field.take(i - from));
            assert(next.last() == line@[i as int]);
            assert forall|j: int| 0 <= j < next.len() implies is_digit(#[trigger] next[j]) by {
                if j < i - from {
                    assert(field.take(i - from)[j] == next[j]);
                }
            }
            lemma_decimal_value_bound(field.take(i - from));
            lemma_pow10_small((i - from) as nat);
        }
        value = value * 10 + (n - 0x30);
        i += 1;
    }
    proof {
        assert(field.take(to - from) == field);
        lemma_decimal_value_bound(field);
        lemma_pow10_small((to - from) as nat);
    }
    Some(value)
}

/// The powers of ten that the widths of time and date fields call for.
pub proof fn lemma_pow10_values()
    ensures
        pow10(2) == 100,
        pow10(4) == 10_000,
{
    reveal_with_fuel(pow10, 5);
}

/// Powers of ten of up to nine digits stay far below `u32::MAX / 10`.
proof fn lemma_pow10_small(n: nat)
    requires
        n <= 9,
    ensures
        pow10(n) <= 1_000_000_000,
        n <= 8 ==> pow10(n) <= 100_000_000,
{
    reveal_with_fuel(pow10, 10);
}

/// Whether the field `from..to` of `line` spells `word`, ASCII letter case in
/// the field ignored.
pub fn field_spells(line: &[char], from: usize, to: usize, word: &str) -> (b: bool)
    requires
        from <= to <= line@.len(),
    ensures
        b == spells(line@.subrange(from as int, to as int), word@),
{
    let ghost field = line@.subrange(from as int, to as int);
    let n: usize = word.unicode_len();
    if to - from != n {
        return false;
    }
    let mut i: usize = 0;
    while i < n
        invariant
            from <= to <= line@.len(),
            n == to - from,
            n == word@.len(),
            i <= n,
            field == line@.subrange(from as int, to as int),
            forall|j: int| 0 <= j < i ==> lowercase_code(#[trigger] field[j]) == word@[j] as u32,
        decreases n - i,
    {
        let c: u32 = line[from + i] as u32;
        let folded: u32 = if 0x41 <= c && c <= 0x5A {
            c + 32
        } else {
            c
        };
        let w: u32 = word.get_char(i) as u32;
        if folded != w {
            assert(lowercase_code(field[i as int]) != word@[i as int] as u32);
            return false;
        }
        i += 1;
    }
    true
}

/// Whether the field `from..to` of `line` is exactly `word`.
pub fn field_is(line: &[char], from: usize, to: usize, word: &str) -> (b: bool)
    requires
        from <= to <= line@.len(),
    ensures
        b == (line@.subrange(from as int, to as int) == word@),
{
    let ghost field = line@.subrange(from as int, to as int);
    let n: usize = word.unicode_len();
    if to - from != n {
        return false;
    }
    let mut i: usize = 0;
    while i < n
        invariant
            from <= to <= line@.len(),
            n == to - from,
            n == word@.len(),
            i <= n,
            field == line@.subrange(from as int, to as int),
            forall|j: int| 0 <= j < i ==> field[j] == word@[j],
        decreases n - i,
    {
        if line[from + i] != word.get_char(i) {
            assert(field[i as int] != word@[i as int]);
            return false;
        }
        i += 1;
    }
    assert(field =~= word@);
    true
}

} // verus!
