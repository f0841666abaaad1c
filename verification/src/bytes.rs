//! Little-endian integers in byte sequences.

use vstd::arithmetic::div_mod::lemma_div_denominator;
use vstd::arithmetic::power::{lemma_pow_positive, pow};
use vstd::prelude::*;

verus! {

/// The integer that `bytes` hold, least significant byte first.
pub open spec fn le_value(bytes: Seq<u8>) -> nat
    decreases bytes.len(),
{
    if bytes.len() == 0 {
        0
    } else {
        (bytes[0] + 256 * le_value(bytes.drop_first())) as nat
    }
}

/// The `width` least significant bytes of `value`, least significant first.
pub open spec fn le_bytes(value: nat, width: nat) -> Seq<u8>
    decreases width,
{
    if width == 0 {
        Seq::empty()
    } else {
        seq![(value % 256) as u8] + le_bytes(value / 256, (width - 1) as nat)
    }
}

/// How many values `width` bytes can hold.
pub open spec fn byte_span(width: nat) -> nat
    decreases width,
{
    if width == 0 {
        1
    } else {
        256 * byte_span((width - 1) as nat)
    }
}

/// Zeroes.
pub open spec fn zeroes(count: nat) -> Seq<u8> {
    Seq::new(count, |i: int| 0u8)
}

/// `width` bytes hold less than their span.
pub proof fn lemma_le_value_bound(bytes: Seq<u8>)
    ensures
        le_value(bytes) < byte_span(bytes.len()),
    decreases bytes.len(),
{
    if bytes.len() > 0 {
        lemma_le_value_bound(bytes.drop_first());
    }
}

pub proof fn lemma_le_bytes_len(value: nat, width: nat)
    ensures
        le_bytes(value, width).len() == width,
    decreases width,
{
    if width > 0 {
        lemma_le_bytes_len(value / 256, (width - 1) as nat);
    }
}

/// Reading back what was written gives the value.
pub proof fn law_le_bytes_round_trip(value: nat, width: nat)
    requires
        value < byte_span(width),
    ensures
        le_value(le_bytes(value, width)) == value,
        le_bytes(value, width).len() == width,
    decreases width,
{
    lemma_le_bytes_len(value, width);
    if width > 0 {
        let rest = le_bytes(value / 256, (width - 1) as nat);
        law_le_bytes_round_trip(value / 256, (width - 1) as nat);
        assert(le_bytes(value, width).drop_first() =~= rest);
    }
}

/// Writing what was read gives the bytes.
pub proof fn law_le_value_round_trip(bytes: Seq<u8>)
    ensures
        le_bytes(le_value(bytes), bytes.len()) == bytes,
    decreases bytes.len(),
{
    if bytes.len() > 0 {
        let rest = bytes.drop_first();
        law_le_value_round_trip(rest);
        let value = le_value(bytes);
        assert(value % 256 == bytes[0] && value / 256 == le_value(rest)) by (nonlinear_arith)
            requires
                value == bytes[0] + 256 * le_value(rest),
        ;
        assert(le_bytes(value, bytes.len()) =~= seq![bytes[0]] + rest);
        assert(bytes =~= seq![bytes[0]] + rest);
    } else {
        assert(le_bytes(le_value(bytes), bytes.len()) =~= bytes);
    }
}

/// Zeroes hold zero.
pub proof fn lemma_le_value_zeroes(bytes: Seq<u8>)
    requires
        forall|i: int| 0 <= i < bytes.len() ==> #[trigger] bytes[i] == 0,
    ensures
        le_value(bytes) == 0,
    decreases bytes.len(),
{
    if bytes.len() > 0 {
        assert(bytes[0] == 0);
        let rest = bytes.drop_first();
        assert forall|i: int| 0 <= i < rest.len() implies #[trigger] rest[i] == 0 by {
            assert(rest[i] == bytes[i + 1]);
        }
        lemma_le_value_zeroes(rest);
    }
}

/// The spans of the integer types.
pub proof fn lemma_byte_spans()
    ensures
        byte_span(2) == 0x1_0000,
        byte_span(4) == 0x1_0000_0000,
        byte_span(8) == 0x1_0000_0000_0000_0000,
        byte_span(16) == u128::MAX + 1,
{
    reveal_with_fuel(byte_span, 17);
}

pub proof fn lemma_byte_span_monotonic(a: nat, b: nat)
    requires
        a <= b,
    ensures
        0 < byte_span(a) <= byte_span(b),
    decreases b,
{
    if a < b {
        lemma_byte_span_monotonic(a, (b - 1) as nat);
    } else if b > 0 {
        lemma_byte_span_monotonic((a - 1) as nat, (b - 1) as nat);
    }
}

/// Reads `width` bytes from `offset` on.
pub fn read_le(bytes: &[u8], offset: usize, width: usize) -> (result: u128)
    requires
        width <= 16,
        offset + width <= bytes@.len(),
    ensures
        result == le_value(bytes@.subrange(offset as int, offset + width)),
        result < byte_span(width as nat),
{
    let length: usize = bytes.len();
    let mut value: u128 = 0;
    let mut i: usize = width;
    while i > 0
        invariant
            length == bytes@.len(),
            i <= width <= 16,
            offset + width <= bytes@.len(),
            value == le_value(bytes@.subrange(offset + i, offset + width)),
        decreases i,
    {
        let ghost here = bytes@.subrange(offset + i - 1, offset + width);
        proof {
            assert(here.drop_first() =~= bytes@.subrange(offset + i, offset + width));
            lemma_le_value_bound(here);
            lemma_byte_span_monotonic(here.len(), 16);
            lemma_byte_spans();
        }
        i = i - 1;
        value = value * 256 + bytes[offset + i] as u128;
    }
    proof {
        lemma_le_value_bound(bytes@.subrange(offset as int, offset + width));
    }
    value
}

/// Appends the `width` least significant bytes of a value.
pub fn push_le(bytes: &mut Vec<u8>, value: u128, width: usize)
    ensures
        final(bytes)@ == old(bytes)@ + le_bytes(value as nat, width as nat),
{
    let ghost before = bytes@;
    let mut rest: u128 = value;
    let mut left: usize = width;
    while left > 0
        invariant
            left <= width,
            bytes@ + le_bytes(rest as nat, left as nat) == before + le_bytes(
                value as nat,
                width as nat,
            ),
        decreases left,
    {
        let ghost prior = bytes@;
        bytes.push((rest % 256) as u8);
        proof {
            assert(bytes@ + le_bytes((rest / 256) as nat, (left - 1) as nat) =~= prior + le_bytes(
                rest as nat,
                left as nat,
            ));
        }
        rest = rest / 256;
        left = left - 1;
    }
    assert(bytes@ + le_bytes(rest as nat, 0) =~= bytes@);
}

/// Appends zeroes.
pub fn push_zeroes(bytes: &mut Vec<u8>, count: usize)
    ensures
        final(bytes)@ == old(bytes)@ + zeroes(count as nat),
{
    let ghost before = bytes@;
    let mut i: usize = 0;
    while i < count
        invariant
            i <= count,
            bytes@ == before + zeroes(i as nat),
        decreases count - i,
    {
        bytes.push(0);
        i = i + 1;
        assert(bytes@ =~= before + zeroes(i as nat));
    }
}

/// Appends bytes.
pub fn push_bytes(bytes: &mut Vec<u8>, more: &[u8])
    ensures
        final(bytes)@ == old(bytes)@ + more@,
{
    let ghost before = bytes@;
    let mut i: usize = 0;
    while i < more.len()
        invariant
            i <= more@.len(),
            bytes@ == before + more@.subrange(0, i as int),
        decreases more@.len() - i,
    {
        bytes.push(more[i]);
        i = i + 1;
        assert(bytes@ =~= before + more@.subrange(0, i as int));
    }
    assert(more@.subrange(0, i as int) =~= more@);
}

/// Copies `N` bytes from `offset` on into an array.
pub fn array_at<const N: usize>(bytes: &[u8], offset: usize) -> (result: [u8; N])
    requires
        offset + N <= bytes@.len(),
    ensures
        result@ == bytes@.subrange(offset as int, offset + N),
{
    let length: usize = bytes.len();
    let mut result: [u8; N] = vstd::array::array_fill_for_copy_types(0u8);
    let mut i: usize = 0;
    while i < N
        invariant
            length == bytes@.len(),
            i <= N,
            offset + N <= bytes@.len(),
            result@.len() == N,
            forall|k: int| 0 <= k < i ==> #[trigger] result@[k] == bytes@[offset + k],
        decreases N - i,
    {
        result[i] = bytes[offset + i];
        i = i + 1;
    }
    assert(result@ =~= bytes@.subrange(offset as int, offset + N));
    result
}

/// Whether `count` bytes from `offset` on are all zero.
pub fn is_zeroed(bytes: &[u8], offset: usize, count: usize) -> (result: bool)
    requires
        offset + count <= bytes@.len(),
    ensures
        result == (bytes@.subrange(offset as int, offset + count) == zeroes(count as nat)),
{
    let length: usize = bytes.len();
    let mut i: usize = 0;
    while i < count
        invariant
            length == bytes@.len(),
            i <= count,
            offset + count <= bytes@.len(),
            forall|k: int| offset <= k < offset + i ==> #[trigger] bytes@[k] == 0,
        decreases count - i,
    {
        if bytes[offset + i] != 0 {
            assert(bytes@.subrange(offset as int, offset + count)[i as int] != zeroes(
                count as nat,
            )[i as int]);
            return false;
        }
        i = i + 1;
    }
    assert(bytes@.subrange(offset as int, offset + count) =~= zeroes(count as nat));
    true
}

/// The bytes of a value are its digits to the base 256, the least significant first.
pub proof fn law_bytes_are_digits(value: nat, width: nat, index: int)
    requires
        0 <= index < width,
    ensures
        le_bytes(value, width).len() == width,
        le_bytes(value, width)[index] == value as int / pow(256, index as nat) % 256,
    decreases width,
{
    lemma_le_bytes_len(value, width);
    let rest = le_bytes(value / 256, (width - 1) as nat);
    lemma_le_bytes_len(value / 256, (width - 1) as nat);
    if index == 0 {
        reveal(pow);
        assert(value as int / 1 == value);
        assert(le_bytes(value, width)[0] == seq![(value % 256) as u8][0]);
    } else {
        let unit = pow(256, (index - 1) as nat);
        law_bytes_are_digits(value / 256, (width - 1) as nat, index - 1);
        assert(le_bytes(value, width)[index] == rest[index - 1]);
        reveal(pow);
        lemma_pow_positive(256, (index - 1) as nat);
        lemma_div_denominator(value as int, 256, unit);
    }
}

/// Bytes hold the sum of each byte times the power of 256 at its place.
pub proof fn law_value_is_the_sum_of_its_bytes(bytes: Seq<u8>)
    requires
        bytes.len() > 0,
    ensures
        le_value(bytes) == le_value(bytes.drop_last()) + bytes.last() * pow(
            256,
            (bytes.len() - 1) as nat,
        ),
    decreases bytes.len(),
{
    reveal(pow);
    let rest = bytes.drop_first();
    if rest.len() == 0 {
        assert(bytes.drop_last() =~= Seq::<u8>::empty());
        assert(rest =~= Seq::<u8>::empty());
        assert(bytes.last() * 1 == bytes.last());
    } else {
        law_value_is_the_sum_of_its_bytes(rest);
        assert(bytes.drop_last().drop_first() =~= rest.drop_last());
        assert(bytes.drop_last()[0] == bytes[0]);
        let unit = pow(256, (rest.len() - 1) as nat);
        let last = bytes.last() as int;
        assert(rest.last() == bytes.last());
        assert(256 * (last * unit) == last * (256 * unit)) by (nonlinear_arith);
    }
}

} // verus!
