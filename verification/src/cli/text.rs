//! Reading and writing the text of arguments and messages.

use vstd::arithmetic::div_mod::lemma_div_denominator;
use vstd::arithmetic::power::{lemma_pow_positive, pow};
use vstd::prelude::*;

verus! {

/// `String::push` puts a character at the end of a text.
pub assume_specification[ String::push ](text: &mut String, c: char)
    ensures
        final(text)@ == old(text)@.push(c),
;

/// Whether two texts are the same.
#[must_use]
pub fn same(a: &str, b: &str) -> (result: bool)
    ensures
        result == (a@ == b@),
{
    let a = a.to_owned();
    let b = b.to_owned();
    a == b
}

/// Whether `text` begins with `prefix`.
pub open spec fn begins_with(text: Seq<char>, prefix: Seq<char>) -> bool {
    prefix.len() <= text.len() && text.subrange(0, prefix.len() as int) == prefix
}

/// Whether `text` ends in `suffix`.
pub open spec fn ends_in(text: Seq<char>, suffix: Seq<char>) -> bool {
    suffix.len() <= text.len() && text.subrange(text.len() - suffix.len(), text.len() as int)
        == suffix
}

#[must_use]
pub fn starts_with(text: &str, prefix: &str) -> (result: bool)
    ensures
        result == begins_with(text@, prefix@),
{
    let length: usize = prefix.unicode_len();
    if text.unicode_len() < length {
        return false;
    }
    same(text.substring_char(0, length), prefix)
}

#[must_use]
pub fn ends_with(text: &str, suffix: &str) -> (result: bool)
    ensures
        result == ends_in(text@, suffix@),
{
    let length: usize = suffix.unicode_len();
    let total: usize = text.unicode_len();
    if total < length {
        return false;
    }
    same(text.substring_char(total - length, total), suffix)
}

/// The text from `start` on.
#[must_use]
pub fn skip<'a>(text: &'a str, start: usize) -> (result: &'a str)
    requires
        start <= text@.len(),
    ensures
        result@ == text@.skip(start as int),
{
    let result = text.substring_char(start, text.unicode_len());
    assert(result@ =~= text@.skip(start as int));
    result
}

/// The text up to `end`.
#[must_use]
pub fn take<'a>(text: &'a str, end: usize) -> (result: &'a str)
    requires
        end <= text@.len(),
    ensures
        result@ == text@.take(end as int),
{
    let result = text.substring_char(0, end);
    assert(result@ =~= text@.take(end as int));
    result
}

/// The number of bytes of a text.
pub open spec fn byte_length(text: Seq<char>) -> nat {
    vstd::utf8::encode_utf8(text).len()
}

#[must_use]
pub fn length_in_bytes(text: &str) -> (result: usize)
    ensures
        result == byte_length(text@),
{
    text.as_bytes().len()
}

/// The first byte of a text, as a character.
pub open spec fn first_byte(text: Seq<char>) -> char {
    vstd::utf8::encode_utf8(text)[0] as char
}

/// The least index from `start` on at which `found` holds, or the length of the text.
pub open spec fn first_where(text: Seq<char>, start: int, found: spec_fn(char) -> bool) -> int
    decreases text.len() - start,
{
    if start >= text.len() || found(text[start]) {
        start
    } else {
        first_where(text, start + 1, found)
    }
}

pub open spec fn is_digit(c: char) -> bool {
    '0' <= c <= '9'
}

/// The parts of a text between separators.
pub open spec fn split(text: Seq<char>, separator: char) -> Seq<Seq<char>>
    decreases text.len(),
{
    if text.len() == 0 {
        seq![Seq::empty()]
    } else {
        let rest = split(text.drop_last(), separator);
        if text.last() == separator {
            rest.push(Seq::empty())
        } else {
            rest.update(rest.len() - 1, rest.last().push(text.last()))
        }
    }
}

/// A number in decimal digits.
pub open spec fn decimal(n: nat) -> Seq<char>
    decreases n,
{
    if n < 10 {
        seq![digit(n)]
    } else {
        decimal(n / 10).push(digit(n % 10))
    }
}

pub open spec fn digit(n: nat) -> char {
    ('0' as nat + n) as char
}

#[must_use]
fn digit_text(n: u128) -> (result: &'static str)
    requires
        n < 10,
    ensures
        result@ == seq![digit(n as nat)],
{
    proof {
        reveal_strlit("0");
        reveal_strlit("1");
        reveal_strlit("2");
        reveal_strlit("3");
        reveal_strlit("4");
        reveal_strlit("5");
        reveal_strlit("6");
        reveal_strlit("7");
        reveal_strlit("8");
        reveal_strlit("9");
    }
    match n {
        0 => "0",
        1 => "1",
        2 => "2",
        3 => "3",
        4 => "4",
        5 => "5",
        6 => "6",
        7 => "7",
        8 => "8",
        _ => "9",
    }
}

/// Writes a number in decimal digits.
#[must_use]
pub fn decimal_text(n: u128) -> (result: String)
    ensures
        result@ == decimal(n as nat),
    decreases n,
{
    if n < 10 {
        digit_text(n).to_owned()
    } else {
        let mut text = decimal_text(n / 10);
        text.append(digit_text(n % 10));
        assert(text@ =~= decimal(n as nat));
        text
    }
}

/// A number in so many hexadecimal digits.
pub open spec fn hexadecimal(n: nat, width: nat) -> Seq<char>
    decreases width,
{
    if width == 0 {
        Seq::empty()
    } else {
        hexadecimal(n / 16, (width - 1) as nat).push(hexadecimal_digit(n % 16))
    }
}

pub open spec fn hexadecimal_digit(n: nat) -> char {
    if n < 10 {
        digit(n)
    } else {
        ('a' as nat + n - 10) as char
    }
}

/// Writes a number in so many hexadecimal digits.
#[must_use]
pub fn hexadecimal_text(n: u128, width: u32) -> (result: String)
    ensures
        result@ == hexadecimal(n as nat, width as nat),
    decreases width,
{
    if width == 0 {
        return String::new();
    }
    let mut text = hexadecimal_text(n / 16, width - 1);
    let value: u8 = (n % 16) as u8;
    let c = if value < 10 {
        (48 + value) as char
    } else {
        (87 + value) as char
    };
    text.push(c);
    assert(text@ =~= hexadecimal(n as nat, width as nat));
    text
}

#[must_use]
pub fn join2(a: &str, b: &str) -> (result: String)
    ensures
        result@ == a@ + b@,
{
    let mut text = a.to_owned();
    text.append(b);
    text
}

#[must_use]
pub fn join3(a: &str, b: &str, c: &str) -> (result: String)
    ensures
        result@ == a@ + b@ + c@,
{
    let mut text = join2(a, b);
    text.append(c);
    text
}

#[must_use]
pub fn join4(a: &str, b: &str, c: &str, d: &str) -> (result: String)
    ensures
        result@ == a@ + b@ + c@ + d@,
{
    let mut text = join3(a, b, c);
    text.append(d);
    text
}

#[must_use]
pub fn join5(a: &str, b: &str, c: &str, d: &str, e: &str) -> (result: String)
    ensures
        result@ == a@ + b@ + c@ + d@ + e@,
{
    let mut text = join4(a, b, c, d);
    text.append(e);
    text
}

/// Parts with separators between them.
pub open spec fn joined(parts: Seq<Seq<char>>, separator: char) -> Seq<char>
    decreases parts.len(),
{
    if parts.len() == 0 {
        Seq::empty()
    } else if parts.len() == 1 {
        parts[0]
    } else {
        joined(parts.drop_last(), separator) + seq![separator] + parts.last()
    }
}

/// None of the parts holds the separator.
pub open spec fn are_parts(parts: Seq<Seq<char>>, separator: char) -> bool {
    forall|i: int, k: int|
        0 <= i < parts.len() && 0 <= k < parts[i].len() ==> #[trigger] parts[i][k] != separator
}

/// A text of parts with separators between them is parted into those parts, in their order.
pub proof fn law_split_gives_the_parts(parts: Seq<Seq<char>>, separator: char)
    requires
        parts.len() > 0,
        are_parts(parts, separator),
    ensures
        split(joined(parts, separator), separator) == parts,
    decreases parts.len(),
{
    let last = parts.last();
    if parts.len() == 1 {
        assert(split(Seq::empty(), separator) =~= Seq::empty().push(Seq::empty()));
        lemma_split_last(Seq::empty(), Seq::empty(), last, separator);
        assert(Seq::empty() + last =~= last);
        assert(parts =~= Seq::empty().push(last));
    } else {
        let front = parts.drop_last();
        assert forall|i: int, k: int| 0 <= i < front.len() && 0 <= k < front[i].len() implies
            #[trigger] front[i][k] != separator by {
            assert(parts[i][k] != separator);
        }
        law_split_gives_the_parts(front, separator);
        let start = joined(front, separator) + seq![separator];
        assert(start.drop_last() =~= joined(front, separator));
        lemma_split_last(start, front, last, separator);
        assert(parts =~= front.push(last));
    }
}

/// What follows the last separator is the last part.
proof fn lemma_split_last(
    start: Seq<char>,
    front: Seq<Seq<char>>,
    last: Seq<char>,
    separator: char,
)
    requires
        split(start, separator) == front.push(Seq::empty()),
        forall|k: int| 0 <= k < last.len() ==> #[trigger] last[k] != separator,
    ensures
        split(start + last, separator) == front.push(last),
    decreases last.len(),
{
    if last.len() == 0 {
        assert(start + last =~= start);
        assert(last =~= Seq::empty());
    } else {
        let shorter = last.drop_last();
        assert forall|k: int| 0 <= k < shorter.len() implies #[trigger] shorter[k] != separator by {
            assert(last[k] != separator);
        }
        lemma_split_last(start, front, shorter, separator);
        assert((start + last).drop_last() =~= start + shorter);
        assert(last[last.len() - 1] != separator);
        assert(shorter.push(last.last()) =~= last);
        assert(front.push(shorter).update(front.len() as int, last) =~= front.push(last));
    }
}

/// Hexadecimal digits are written in lower case, the most significant first.
pub proof fn law_hexadecimal_digits_are_written(n: nat, width: nat, i: int)
    requires
        0 <= i < width,
    ensures
        hexadecimal(n, width).len() == width,
        hexadecimal(n, width)[width - 1 - i] == "0123456789abcdef"@[n as int / pow(16, i as nat)
            % 16],
    decreases width,
{
    reveal(pow);
    reveal_strlit("0123456789abcdef");
    let front = hexadecimal(n / 16, (width - 1) as nat);
    lemma_hexadecimal_len(n / 16, (width - 1) as nat);
    if i == 0 {
        assert(n as int / 1 == n);
    } else {
        law_hexadecimal_digits_are_written(n / 16, (width - 1) as nat, i - 1);
        assert(hexadecimal(n, width)[width - 1 - i] == front[width - 1 - i]);
        lemma_pow_positive(16, (i - 1) as nat);
        lemma_div_denominator(n as int, 16, pow(16, (i - 1) as nat));
    }
}

proof fn lemma_hexadecimal_len(n: nat, width: nat)
    ensures
        hexadecimal(n, width).len() == width,
    decreases width,
{
    if width > 0 {
        lemma_hexadecimal_len(n / 16, (width - 1) as nat);
    }
}

} // verus!
