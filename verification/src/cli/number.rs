//! Integers, sizes, ratios and durations as users write them.

use crate::cli::text::{
    begins_with, decimal, decimal_text, digit, first_where, is_digit, join2, same, skip,
    starts_with, take,
};
use vstd::prelude::*;

verus! {

/// Why a text is no integer.
#[derive(Clone, Copy, Debug, PartialEq, Eq, Structural)]
pub enum ParseIntError {
    Overflow,
    InvalidCharacter,
    LeadingZero,
}

/// How an integer may be written.
#[derive(Clone, Copy, Debug, PartialEq, Eq, Structural)]
pub struct ParseIntOptions {
    /// Whether `007` is an integer.
    pub allow_leading_zero: bool,
    /// Whether `1_000` is an integer.
    pub allow_separators: bool,
}

impl ParseIntOptions {
    /// How flags are written: with separators, without leading zeros.
    pub open spec fn spec_strict() -> ParseIntOptions {
        ParseIntOptions { allow_leading_zero: false, allow_separators: true }
    }

    /// With separators and leading zeros.
    pub open spec fn spec_lenient() -> ParseIntOptions {
        ParseIntOptions { allow_leading_zero: true, allow_separators: true }
    }

    #[must_use]
    pub fn strict() -> (result: ParseIntOptions)
        ensures
            result == ParseIntOptions::spec_strict(),
    {
        ParseIntOptions { allow_leading_zero: false, allow_separators: true }
    }

    #[must_use]
    pub fn lenient() -> (result: ParseIntOptions)
        ensures
            result == ParseIntOptions::spec_lenient(),
    {
        ParseIntOptions { allow_leading_zero: true, allow_separators: true }
    }
}

/// The number that decimal digits denote. Separators do not count.
pub open spec fn int_value(text: Seq<char>) -> nat
    decreases text.len(),
{
    if text.len() == 0 {
        0
    } else if text.last() == '_' {
        int_value(text.drop_last())
    } else {
        int_value(text.drop_last()) * 10 + (text.last() as nat - '0' as nat) as nat
    }
}

/// Digits, with separators between them if those are allowed.
pub open spec fn is_int(text: Seq<char>, options: ParseIntOptions) -> bool {
    &&& text.len() > 0
    &&& is_digit(text[0])
    &&& is_digit(text.last())
    &&& forall|i: int|
        0 <= i < text.len() ==> is_digit(#[trigger] text[i]) || (options.allow_separators && text[i]
            == '_')
}

/// What a text says as an integer that is at most `max`.
pub open spec fn parsed_int(
    text: Seq<char>,
    options: ParseIntOptions,
    max: nat,
) -> Result<nat, ParseIntError> {
    if !options.allow_leading_zero && text.len() > 1 && text[0] == '0' {
        Err(ParseIntError::LeadingZero)
    } else if !is_int(text, options) {
        Err(ParseIntError::InvalidCharacter)
    } else if int_value(text) > max {
        Err(ParseIntError::Overflow)
    } else {
        Ok(int_value(text))
    }
}

/// Reads an integer that is at most `max`.
pub fn parse_int(text: &str, options: ParseIntOptions, max: u128) -> (result: Result<
    u128,
    ParseIntError,
>)
    requires
        max >= 9,
    ensures
        match result {
            Ok(value) => parsed_int(text@, options, max as nat) == Ok::<nat, ParseIntError>(
                value as nat,
            ),
            Err(error) => parsed_int(text@, options, max as nat) == Err::<nat, ParseIntError>(
                error,
            ),
        },
{
    let length: usize = text.unicode_len();
    if !options.allow_leading_zero && length > 1 && text.get_char(0) == '0' {
        return Err(ParseIntError::LeadingZero);
    }
    if length == 0 || text.get_char(0) == '_' || text.get_char(length - 1) == '_' {
        return Err(ParseIntError::InvalidCharacter);
    }
    // `None` once the value exceeds `max`.
    let mut value: Option<u128> = Some(0);
    let mut i: usize = 0;
    while i < length
        invariant
            length == text@.len(),
            i <= length,
            max >= 9,
            !(!options.allow_leading_zero && length > 1 && text@[0] == '0'),
            forall|k: int|
                0 <= k < i ==> is_digit(#[trigger] text@[k]) || (options.allow_separators
                    && text@[k] == '_'),
            match value {
                Some(value) => value == int_value(text@.take(i as int)) && value <= max,
                None => int_value(text@.take(i as int)) > max,
            },
        decreases length - i,
    {
        let c = text.get_char(i);
        proof {
            assert(text@.take(i + 1).drop_last() =~= text@.take(i as int));
            assert(text@.take(i + 1).last() == c);
        }
        if '0' <= c && c <= '9' {
            let digit: u128 = (c as u32 - '0' as u32) as u128;
            value = match value {
                Some(value) => if value <= (max - digit) / 10 {
                    Some(value * 10 + digit)
                } else {
                    None
                },
                None => None,
            };
        } else if !(options.allow_separators && c == '_') {
            assert(!is_int(text@, options)) by {
                assert(!is_digit(text@[i as int]));
            }
            return Err(ParseIntError::InvalidCharacter);
        }
        i = i + 1;
    }
    assert(text@.take(length as int) =~= text@);
    assert(is_digit(text@[0]));
    assert(is_digit(text@[length - 1]));
    match value {
        Some(value) => Ok(value),
        None => Err(ParseIntError::Overflow),
    }
}

/// A unit of sizes.
#[derive(Clone, Copy, Debug, PartialEq, Eq, Structural)]
pub enum ByteSizeUnit {
    Bytes,
    Kib,
    Mib,
    Gib,
    Tib,
}

impl ByteSizeUnit {
    pub open spec fn spec_bytes(self) -> u64 {
        match self {
            ByteSizeUnit::Bytes => 1,
            ByteSizeUnit::Kib => 0x400,
            ByteSizeUnit::Mib => 0x10_0000,
            ByteSizeUnit::Gib => 0x4000_0000,
            ByteSizeUnit::Tib => 0x100_0000_0000,
        }
    }

    /// How many bytes a unit stands for.
    #[must_use]
    pub fn bytes(self) -> (result: u64)
        ensures
            result == self.spec_bytes(),
    {
        match self {
            ByteSizeUnit::Bytes => 1,
            ByteSizeUnit::Kib => 0x400,
            ByteSizeUnit::Mib => 0x10_0000,
            ByteSizeUnit::Gib => 0x4000_0000,
            ByteSizeUnit::Tib => 0x100_0000_0000,
        }
    }

    pub open spec fn spec_suffix(self) -> Seq<char> {
        match self {
            ByteSizeUnit::Bytes => Seq::empty(),
            ByteSizeUnit::Kib => "KiB"@,
            ByteSizeUnit::Mib => "MiB"@,
            ByteSizeUnit::Gib => "GiB"@,
            ByteSizeUnit::Tib => "TiB"@,
        }
    }
}

/// A number of bytes, in the unit in which it was written.
#[derive(Clone, Copy, Debug, PartialEq, Eq, Structural)]
pub struct ByteSize {
    pub value: u64,
    pub unit: ByteSizeUnit,
}

impl ByteSize {
    /// The size fits 64 bits.
    pub open spec fn wf(self) -> bool {
        self.spec_bytes() <= u64::MAX
    }

    pub open spec fn spec_bytes(self) -> nat {
        self.value as nat * self.unit.spec_bytes() as nat
    }

    pub open spec fn spec_of_bytes(value: u64) -> ByteSize {
        ByteSize { value, unit: ByteSizeUnit::Bytes }
    }

    /// A size in bytes.
    #[must_use]
    pub fn of_bytes(value: u64) -> (result: ByteSize)
        ensures
            result == ByteSize::spec_of_bytes(value),
            result.wf(),
            result.spec_bytes() == value,
    {
        assert(value as nat * 1 == value) by (nonlinear_arith);
        ByteSize { value, unit: ByteSizeUnit::Bytes }
    }

    /// The size in bytes.
    #[must_use]
    pub fn bytes(self) -> (result: u64)
        requires
            self.wf(),
        ensures
            result == self.spec_bytes(),
    {
        self.value * self.unit.bytes()
    }

    /// The suffix of the unit.
    #[must_use]
    pub fn suffix(self) -> (result: &'static str)
        ensures
            result@ == self.unit.spec_suffix(),
    {
        match self.unit {
            ByteSizeUnit::Bytes => {
                proof {
                    reveal_strlit("");
                    assert(""@ =~= Seq::empty());
                }
                ""
            },
            ByteSizeUnit::Kib => "KiB",
            ByteSizeUnit::Mib => "MiB",
            ByteSizeUnit::Gib => "GiB",
            ByteSizeUnit::Tib => "TiB",
        }
    }
}

/// Why a text is no size.
#[derive(Clone, Copy, Debug, PartialEq, Eq, Structural)]
pub enum ParseByteSizeError {
    OverflowValue,
    InvalidCharacter,
    LeadingZero,
    InvalidUnit,
    OverflowBytes,
}

/// The unit that a suffix names.
pub open spec fn suffix_unit(suffix: Seq<char>) -> Option<ByteSizeUnit> {
    if suffix.len() == 0 {
        Some(ByteSizeUnit::Bytes)
    } else if suffix == "KiB"@ {
        Some(ByteSizeUnit::Kib)
    } else if suffix == "MiB"@ {
        Some(ByteSizeUnit::Mib)
    } else if suffix == "GiB"@ {
        Some(ByteSizeUnit::Gib)
    } else if suffix == "TiB"@ {
        Some(ByteSizeUnit::Tib)
    } else {
        None
    }
}

/// Where the digits at the start of a size end.
pub open spec fn size_digits(text: Seq<char>) -> int {
    first_where(text, 0, |c: char| !is_digit(c) && c != '_')
}

/// What a text says as a size: a number and a unit.
pub open spec fn parsed_size(text: Seq<char>) -> Result<ByteSize, ParseByteSizeError> {
    let digits = size_digits(text);
    match parsed_int(text.take(digits), ParseIntOptions::spec_strict(), u64::MAX as nat) {
        Err(ParseIntError::Overflow) => Err(ParseByteSizeError::OverflowValue),
        Err(ParseIntError::InvalidCharacter) => Err(ParseByteSizeError::InvalidCharacter),
        Err(ParseIntError::LeadingZero) => Err(ParseByteSizeError::LeadingZero),
        Ok(value) => match suffix_unit(text.skip(digits)) {
            None => Err(ParseByteSizeError::InvalidUnit),
            Some(unit) => {
                let size = ByteSize { value: value as u64, unit };
                if size.wf() {
                    Ok(size)
                } else {
                    Err(ParseByteSizeError::OverflowBytes)
                }
            },
        },
    }
}

fn size_digits_end(text: &str) -> (result: usize)
    ensures
        result == size_digits(text@),
        result <= text@.len(),
{
    let length: usize = text.unicode_len();
    let ghost found = |c: char| !is_digit(c) && c != '_';
    let mut i: usize = 0;
    while i < length
        invariant
            i <= length,
            length == text@.len(),
            found == (|c: char| !is_digit(c) && c != '_'),
            first_where(text@, 0, found) == first_where(text@, i as int, found),
        decreases length - i,
    {
        let c = text.get_char(i);
        if !('0' <= c && c <= '9') && c != '_' {
            return i;
        }
        i = i + 1;
    }
    i
}

/// Reads a size.
pub fn parse_size(text: &str) -> (result: Result<ByteSize, ParseByteSizeError>)
    ensures
        result == parsed_size(text@),
        result matches Ok(size) ==> size.wf(),
{
    let digits: usize = size_digits_end(text);
    let value: u64 = match parse_int(
        take(text, digits),
        ParseIntOptions::strict(),
        u64::MAX as u128,
    ) {
        Ok(value) => value as u64,
        Err(ParseIntError::Overflow) => {
            return Err(ParseByteSizeError::OverflowValue);
        },
        Err(ParseIntError::InvalidCharacter) => {
            return Err(ParseByteSizeError::InvalidCharacter);
        },
        Err(ParseIntError::LeadingZero) => {
            return Err(ParseByteSizeError::LeadingZero);
        },
    };
    let suffix = skip(text, digits);
    let unit = if suffix.unicode_len() == 0 {
        ByteSizeUnit::Bytes
    } else if same(suffix, "KiB") {
        ByteSizeUnit::Kib
    } else if same(suffix, "MiB") {
        ByteSizeUnit::Mib
    } else if same(suffix, "GiB") {
        ByteSizeUnit::Gib
    } else if same(suffix, "TiB") {
        ByteSizeUnit::Tib
    } else {
        return Err(ParseByteSizeError::InvalidUnit);
    };
    if value.checked_mul(unit.bytes()).is_none() {
        return Err(ParseByteSizeError::OverflowBytes);
    }
    Ok(ByteSize { value, unit })
}

/// The number of times that 1024 divides a number, up to `limit`.
pub open spec fn binary_magnitude(n: nat, limit: nat) -> nat
    decreases limit,
{
    if limit == 0 || n == 0 || n % 1024 != 0 {
        0
    } else {
        1 + binary_magnitude(n / 1024, (limit - 1) as nat)
    }
}

/// A number divided by 1024 as often as it goes.
pub open spec fn binary_mantissa(n: nat, limit: nat) -> nat
    decreases limit,
{
    if limit == 0 || n == 0 || n % 1024 != 0 {
        n
    } else {
        binary_mantissa(n / 1024, (limit - 1) as nat)
    }
}

pub open spec fn magnitude_suffix(magnitude: nat) -> Seq<char> {
    if magnitude == 0 {
        "B"@
    } else if magnitude == 1 {
        "KiB"@
    } else if magnitude == 2 {
        "MiB"@
    } else if magnitude == 3 {
        "GiB"@
    } else if magnitude == 4 {
        "TiB"@
    } else if magnitude == 5 {
        "PiB"@
    } else {
        "EiB"@
    }
}

/// A size in the largest unit in which it is a whole number.
pub open spec fn exact_size(n: nat) -> Seq<char> {
    decimal(binary_mantissa(n, 6)) + magnitude_suffix(binary_magnitude(n, 6))
}

/// Writes a size in the largest unit in which it is a whole number.
#[must_use]
pub fn exact_size_text(n: u64) -> (result: String)
    ensures
        result@ == exact_size(n as nat),
{
    let mut mantissa: u64 = n;
    let mut magnitude: u64 = 0;
    while magnitude < 6 && mantissa != 0 && mantissa % 1024 == 0
        invariant
            magnitude <= 6,
            binary_mantissa(n as nat, 6) == binary_mantissa(
                mantissa as nat,
                (6 - magnitude) as nat,
            ),
            binary_magnitude(n as nat, 6) == magnitude + binary_magnitude(
                mantissa as nat,
                (6 - magnitude) as nat,
            ),
        decreases 6 - magnitude,
    {
        mantissa = mantissa / 1024;
        magnitude = magnitude + 1;
    }
    let suffix = match magnitude {
        0 => "B",
        1 => "KiB",
        2 => "MiB",
        3 => "GiB",
        4 => "TiB",
        5 => "PiB",
        _ => "EiB",
    };
    join2(decimal_text(mantissa as u128).as_str(), suffix)
}

/// A probability.
#[derive(Clone, Copy, Debug, PartialEq, Eq, Structural)]
pub struct Ratio {
    /// At most the denominator.
    pub numerator: u64,
    /// Not zero.
    pub denominator: u64,
}

impl Ratio {
    pub open spec fn wf(self) -> bool {
        self.numerator <= self.denominator && self.denominator != 0
    }

    pub open spec fn spec_zero() -> Ratio {
        Ratio { numerator: 0, denominator: 1 }
    }

    /// What never happens.
    #[must_use]
    pub fn zero() -> (result: Ratio)
        ensures
            result == Ratio::spec_zero(),
            result.wf(),
    {
        Ratio { numerator: 0, denominator: 1 }
    }
}

/// Why a text is no ratio.
#[derive(Clone, Copy, Debug, PartialEq, Eq, Structural)]
pub enum ParseRatioError {
    NotARatio,
    InvalidNumerator,
    InvalidDenominator,
    DenominatorZero,
    GreaterThanOne,
}

/// What a text says as a ratio: `0`, or two integers with a slash between them.
pub open spec fn parsed_ratio(text: Seq<char>) -> Result<Ratio, ParseRatioError> {
    let slash = first_where(text, 0, |c: char| c == '/');
    let options = ParseIntOptions::spec_lenient();
    if text.len() == 1 && text[0] == '0' {
        Ok(Ratio::spec_zero())
    } else if slash == text.len() {
        Err(ParseRatioError::NotARatio)
    } else {
        match (
            parsed_int(text.take(slash), options, u64::MAX as nat),
            parsed_int(text.skip(slash + 1), options, u64::MAX as nat),
        ) {
            (Err(_), _) => Err(ParseRatioError::InvalidNumerator),
            (Ok(_), Err(_)) => Err(ParseRatioError::InvalidDenominator),
            (Ok(numerator), Ok(denominator)) => if denominator == 0 {
                Err(ParseRatioError::DenominatorZero)
            } else if numerator > denominator {
                Err(ParseRatioError::GreaterThanOne)
            } else {
                Ok(Ratio { numerator: numerator as u64, denominator: denominator as u64 })
            },
        }
    }
}

/// Reads a ratio.
pub fn parse_ratio(text: &str) -> (result: Result<Ratio, ParseRatioError>)
    ensures
        result == parsed_ratio(text@),
        result matches Ok(ratio) ==> ratio.wf(),
{
    let length: usize = text.unicode_len();
    if length == 1 && text.get_char(0) == '0' {
        return Ok(Ratio::zero());
    }
    let ghost found = |c: char| c == '/';
    let mut slash: usize = 0;
    while slash < length && text.get_char(slash) != '/'
        invariant
            slash <= length,
            length == text@.len(),
            found == (|c: char| c == '/'),
            first_where(text@, 0, found) == first_where(text@, slash as int, found),
        decreases length - slash,
    {
        slash = slash + 1;
    }
    if slash == length {
        return Err(ParseRatioError::NotARatio);
    }
    let options = ParseIntOptions::lenient();
    let numerator: u64 = match parse_int(take(text, slash), options, u64::MAX as u128) {
        Ok(value) => value as u64,
        Err(_) => {
            return Err(ParseRatioError::InvalidNumerator);
        },
    };
    let denominator: u64 = match parse_int(skip(text, slash + 1), options, u64::MAX as u128) {
        Ok(value) => value as u64,
        Err(_) => {
            return Err(ParseRatioError::InvalidDenominator);
        },
    };
    if denominator == 0 {
        return Err(ParseRatioError::DenominatorZero);
    }
    if numerator > denominator {
        return Err(ParseRatioError::GreaterThanOne);
    }
    Ok(Ratio { numerator, denominator })
}

pub const NS_PER_US: u64 = 1_000;

pub const NS_PER_MS: u64 = 1_000_000;

pub const NS_PER_S: u64 = 1_000_000_000;

pub const NS_PER_MIN: u64 = 60_000_000_000;

pub const NS_PER_HOUR: u64 = 3_600_000_000_000;

pub const NS_PER_DAY: u64 = 86_400_000_000_000;

/// Why a text is no duration.
#[derive(Clone, Copy, Debug, PartialEq, Eq, Structural)]
pub enum ParseDurationError {
    MissingUnit,
    MissingValue,
    Overflow,
    LeadingZero,
    UnknownUnit,
    TooLarge,
}

/// The unit at the start of a text: its length, and how many nanoseconds it stands for.
pub open spec fn duration_unit(text: Seq<char>) -> Option<(nat, nat)> {
    if begins_with(text, "ns"@) {
        Some((2, 1))
    } else if begins_with(text, "us"@) {
        Some((2, NS_PER_US as nat))
    } else if begins_with(text, "ms"@) {
        Some((2, NS_PER_MS as nat))
    } else if begins_with(text, "s"@) {
        Some((1, NS_PER_S as nat))
    } else if begins_with(text, "m"@) {
        Some((1, NS_PER_MIN as nat))
    } else if begins_with(text, "h"@) {
        Some((1, NS_PER_HOUR as nat))
    } else if begins_with(text, "d"@) {
        Some((1, NS_PER_DAY as nat))
    } else {
        None
    }
}

/// Where the digits at the start of a duration end.
pub open spec fn duration_digits(text: Seq<char>) -> int {
    first_where(text, 0, |c: char| !is_digit(c))
}

/// The nanoseconds that a sequence of amounts and units adds up to.
pub open spec fn duration_sum(text: Seq<char>) -> Result<nat, ParseDurationError>
    decreases text.len(),
{
    if text.len() == 0 {
        Ok(0)
    } else {
        let digits = duration_digits(text);
        if digits == text.len() {
            Err(ParseDurationError::MissingUnit)
        } else if digits == 0 {
            Err(ParseDurationError::MissingValue)
        } else {
            match parsed_int(text.take(digits), ParseIntOptions::spec_strict(), u64::MAX as nat) {
                Err(ParseIntError::LeadingZero) => Err(ParseDurationError::LeadingZero),
                Err(_) => Err(ParseDurationError::Overflow),
                Ok(amount) => match duration_unit(text.skip(digits)) {
                    None => Err(ParseDurationError::UnknownUnit),
                    Some((length, unit)) => {
                        let rest = text.skip(digits).skip(length as int);
                        if rest.len() >= text.len() {
                            Err(ParseDurationError::UnknownUnit)
                        } else {
                            match duration_sum(rest) {
                                Ok(sum) => Ok(amount * unit + sum),
                                Err(error) => Err(error),
                            }
                        }
                    },
                },
            }
        }
    }
}

/// What a text says as a duration: a sequence such as `1h30m`, of less than a thousand days.
pub open spec fn parsed_duration(text: Seq<char>) -> Result<nat, ParseDurationError> {
    match duration_sum(text) {
        Ok(sum) => if sum >= 1_000 * NS_PER_DAY {
            Err(ParseDurationError::TooLarge)
        } else {
            Ok(sum)
        },
        Err(error) => Err(error),
    }
}

fn duration_digits_end(text: &str) -> (result: usize)
    ensures
        result == duration_digits(text@),
        result <= text@.len(),
{
    let length: usize = text.unicode_len();
    let ghost found = |c: char| !is_digit(c);
    let mut i: usize = 0;
    while i < length
        invariant
            i <= length,
            length == text@.len(),
            found == (|c: char| !is_digit(c)),
            first_where(text@, 0, found) == first_where(text@, i as int, found),
        decreases length - i,
    {
        let c = text.get_char(i);
        if !('0' <= c && c <= '9') {
            return i;
        }
        i = i + 1;
    }
    i
}

fn find_duration_unit(text: &str) -> (result: Option<(usize, u64)>)
    ensures
        match result {
            Some((length, unit)) => duration_unit(text@) == Some((length as nat, unit as nat))
                && 1 <= length <= text@.len() && 1 <= unit <= NS_PER_DAY,
            None => duration_unit(text@) is None,
        },
{
    proof {
        reveal_strlit("ns");
        reveal_strlit("us");
        reveal_strlit("ms");
        reveal_strlit("s");
        reveal_strlit("m");
        reveal_strlit("h");
        reveal_strlit("d");
    }
    if starts_with(text, "ns") {
        Some((2, 1))
    } else if starts_with(text, "us") {
        Some((2, NS_PER_US))
    } else if starts_with(text, "ms") {
        Some((2, NS_PER_MS))
    } else if starts_with(text, "s") {
        Some((1, NS_PER_S))
    } else if starts_with(text, "m") {
        Some((1, NS_PER_MIN))
    } else if starts_with(text, "h") {
        Some((1, NS_PER_HOUR))
    } else if starts_with(text, "d") {
        Some((1, NS_PER_DAY))
    } else {
        None
    }
}

/// Reads a duration, in nanoseconds.
pub fn parse_duration(text: &str) -> (result: Result<u64, ParseDurationError>)
    ensures
        match result {
            Ok(total) => parsed_duration(text@) == Ok::<nat, ParseDurationError>(total as nat),
            Err(error) => parsed_duration(text@) == Err::<nat, ParseDurationError>(error),
        },
{
    let mut remaining = text;
    let mut total: u64 = 0;
    // The sum itself, of which `total` is what fits 64 bits.
    let ghost mut sum: nat = 0;
    while remaining.unicode_len() > 0
        invariant
            total == if sum > u64::MAX {
                u64::MAX as nat
            } else {
                sum
            },
            duration_sum(text@) == match duration_sum(remaining@) {
                Ok(rest) => Ok::<nat, ParseDurationError>(sum + rest),
                Err(error) => Err(error),
            },
        decreases remaining@.len(),
    {
        let length: usize = remaining.unicode_len();
        let digits: usize = duration_digits_end(remaining);
        if digits == length {
            return Err(ParseDurationError::MissingUnit);
        }
        if digits == 0 {
            return Err(ParseDurationError::MissingValue);
        }
        let amount: u64 = match parse_int(
            take(remaining, digits),
            ParseIntOptions::strict(),
            u64::MAX as u128,
        ) {
            Ok(value) => value as u64,
            Err(ParseIntError::LeadingZero) => {
                return Err(ParseDurationError::LeadingZero);
            },
            Err(_) => {
                return Err(ParseDurationError::Overflow);
            },
        };
        let units = skip(remaining, digits);
        let (unit_length, unit) = match find_duration_unit(units) {
            Some(found) => found,
            None => {
                return Err(ParseDurationError::UnknownUnit);
            },
        };
        remaining = skip(units, unit_length);
        proof {
            sum = sum + amount as nat * unit as nat;
        }
        let product: u64 = match amount.checked_mul(unit) {
            Some(product) => product,
            None => u64::MAX,
        };
        total = total.saturating_add(product);
    }
    if total >= 1_000 * NS_PER_DAY {
        return Err(ParseDurationError::TooLarge);
    }
    Ok(total)
}

/// A digit at the end makes a number ten times as large, and adds what it stands for. Separators
/// count for nothing.
pub proof fn law_digits_denote(text: Seq<char>, c: char)
    ensures
        int_value(Seq::empty()) == 0,
        '0' <= c <= '9' ==> int_value(text.push(c)) == 10 * int_value(text) + (c as int - 48),
        int_value(text.push('_')) == int_value(text),
{
    assert(text.push(c).drop_last() =~= text);
    assert(text.push('_').drop_last() =~= text);
}

/// A text is read as an integer if it has digits alone, and separators between them where those are
/// allowed, and no zero in front of other digits unless that is allowed. Then it is read as the
/// number that the digits denote, if that is not too large.
pub proof fn law_integers_are_read(text: Seq<char>, options: ParseIntOptions, max: nat)
    ensures
        parsed_int(text, options, max) is Ok <==> {
            &&& text.len() > 0
            &&& forall|i: int|
                0 <= i < text.len() ==> '0' <= #[trigger] text[i] <= '9' || (text[i] == '_'
                    && options.allow_separators)
            &&& text[0] != '_'
            &&& text[text.len() - 1] != '_'
            &&& text.len() == 1 || text[0] != '0' || options.allow_leading_zero
            &&& int_value(text) <= max
        },
        parsed_int(text, options, max) matches Ok(n) ==> n == int_value(text),
        parsed_int(text, options, max) == Err::<nat, ParseIntError>(ParseIntError::Overflow)
            ==> int_value(text) > max,
{
}

/// The text holds nothing but digits, and does not start with a zero unless that is all of it.
pub open spec fn is_amount(text: Seq<char>) -> bool {
    &&& text.len() > 0
    &&& forall|i: int| 0 <= i < text.len() ==> '0' <= #[trigger] text[i] <= '9'
    &&& text.len() == 1 || text[0] != '0'
}

/// A duration that is less than a thousand days.
pub open spec fn duration_of(ns: nat) -> Result<nat, ParseDurationError> {
    if ns < 86_400_000_000_000_000 {
        Ok(ns)
    } else {
        Err(ParseDurationError::TooLarge)
    }
}

/// Where digits end, the first other character stands.
proof fn lemma_first_where(text: Seq<char>, start: int, end: int, found: spec_fn(char) -> bool)
    requires
        0 <= start <= end <= text.len(),
        forall|i: int| start <= i < end ==> !found(#[trigger] text[i]),
        end < text.len() ==> found(text[end]),
    ensures
        first_where(text, start, found) == end,
    decreases end - start,
{
    if start < end {
        lemma_first_where(text, start + 1, end, found);
    }
}

/// An amount and its unit are read together, and what follows is added.
proof fn lemma_amount(digits: Seq<char>, unit: Seq<char>, rest: Seq<char>, ns: nat)
    requires
        is_amount(digits),
        int_value(digits) <= u64::MAX,
        unit.len() > 0,
        !('0' <= unit[0] <= '9'),
        duration_unit(unit + rest) == Some((unit.len(), ns)),
    ensures
        duration_sum(digits + unit + rest) == match duration_sum(rest) {
            Ok(sum) => Ok::<nat, ParseDurationError>(int_value(digits) * ns + sum),
            Err(error) => Err(error),
        },
        rest.len() == 0 ==> parsed_duration(digits + unit) == duration_of(int_value(digits) * ns),
{
    let text = digits + unit + rest;
    let end = digits.len() as int;
    let found = |c: char| !is_digit(c);
    assert forall|i: int| 0 <= i < end implies !found(#[trigger] text[i]) by {
        assert(text[i] == digits[i]);
    }
    assert(text[end] == unit[0]);
    lemma_first_where(text, 0, end, found);
    assert(text.take(end) =~= digits);
    assert(text.skip(end) =~= unit + rest);
    assert((unit + rest).skip(unit.len() as int) =~= rest);
    assert(is_digit(digits[0]));
    assert(is_int(digits, ParseIntOptions::spec_strict()));
    if rest.len() == 0 {
        assert(digits + unit + rest =~= digits + unit);
    }
}

/// An amount in each of the units is read as so many nanoseconds.
pub proof fn law_durations_have_units(digits: Seq<char>)
    requires
        is_amount(digits),
        int_value(digits) <= u64::MAX,
    ensures
        parsed_duration(digits + "d"@) == duration_of(int_value(digits) * 86_400_000_000_000),
        parsed_duration(digits + "h"@) == duration_of(int_value(digits) * 3_600_000_000_000),
        parsed_duration(digits + "m"@) == duration_of(int_value(digits) * 60_000_000_000),
        parsed_duration(digits + "s"@) == duration_of(int_value(digits) * 1_000_000_000),
        parsed_duration(digits + "ms"@) == duration_of(int_value(digits) * 1_000_000),
        parsed_duration(digits + "us"@) == duration_of(int_value(digits) * 1_000),
        parsed_duration(digits + "ns"@) == duration_of(int_value(digits) * 1),
{
    reveal_strlit("ns");
    reveal_strlit("us");
    reveal_strlit("ms");
    reveal_strlit("s");
    reveal_strlit("m");
    reveal_strlit("h");
    reveal_strlit("d");
    lemma_units_alone();
    lemma_amount(digits, "d"@, Seq::empty(), 86_400_000_000_000);
    lemma_amount(digits, "h"@, Seq::empty(), 3_600_000_000_000);
    lemma_amount(digits, "m"@, Seq::empty(), 60_000_000_000);
    lemma_amount(digits, "s"@, Seq::empty(), 1_000_000_000);
    lemma_amount(digits, "ms"@, Seq::empty(), 1_000_000);
    lemma_amount(digits, "us"@, Seq::empty(), 1_000);
    lemma_amount(digits, "ns"@, Seq::empty(), 1);
}

/// The units, where nothing follows them.
proof fn lemma_units_alone()
    ensures
        duration_unit("d"@ + Seq::empty()) == Some((1nat, 86_400_000_000_000nat)),
        duration_unit("h"@ + Seq::empty()) == Some((1nat, 3_600_000_000_000nat)),
        duration_unit("m"@ + Seq::empty()) == Some((1nat, 60_000_000_000nat)),
        duration_unit("s"@ + Seq::empty()) == Some((1nat, 1_000_000_000nat)),
        duration_unit("ms"@ + Seq::empty()) == Some((2nat, 1_000_000nat)),
        duration_unit("us"@ + Seq::empty()) == Some((2nat, 1_000nat)),
        duration_unit("ns"@ + Seq::empty()) == Some((2nat, 1nat)),
{
    reveal_strlit("ns");
    reveal_strlit("us");
    reveal_strlit("ms");
    reveal_strlit("s");
    reveal_strlit("m");
    reveal_strlit("h");
    reveal_strlit("d");
    lemma_unit_prefixes("d"@ + Seq::empty());
    assert("d"@ + Seq::empty() =~= "d"@);
    lemma_unit_prefixes("h"@ + Seq::empty());
    assert("h"@ + Seq::empty() =~= "h"@);
    lemma_unit_prefixes("m"@ + Seq::empty());
    assert("m"@ + Seq::empty() =~= "m"@);
    lemma_unit_prefixes("s"@ + Seq::empty());
    assert("s"@ + Seq::empty() =~= "s"@);
    lemma_unit_prefixes("ms"@ + Seq::empty());
    assert("ms"@ + Seq::empty() =~= "ms"@);
    lemma_unit_prefixes("us"@ + Seq::empty());
    assert("us"@ + Seq::empty() =~= "us"@);
    lemma_unit_prefixes("ns"@ + Seq::empty());
    assert("ns"@ + Seq::empty() =~= "ns"@);
}

/// One duration after another is read as the sum of both.
pub proof fn law_durations_add_up(a: Seq<char>, b: Seq<char>)
    requires
        parsed_duration(a) is Ok,
        parsed_duration(b) is Ok,
    ensures
        parsed_duration(a + b) == duration_of(parsed_duration(a)->Ok_0 + parsed_duration(b)->Ok_0),
{
    lemma_sum_of_both(a, b);
}

/// What a text begins with, by its first characters.
proof fn lemma_unit_prefixes(text: Seq<char>)
    ensures
        begins_with(text, "ns"@) <==> text.len() >= 2 && text[0] == 'n' && text[1] == 's',
        begins_with(text, "us"@) <==> text.len() >= 2 && text[0] == 'u' && text[1] == 's',
        begins_with(text, "ms"@) <==> text.len() >= 2 && text[0] == 'm' && text[1] == 's',
        begins_with(text, "s"@) <==> text.len() >= 1 && text[0] == 's',
        begins_with(text, "m"@) <==> text.len() >= 1 && text[0] == 'm',
        begins_with(text, "h"@) <==> text.len() >= 1 && text[0] == 'h',
        begins_with(text, "d"@) <==> text.len() >= 1 && text[0] == 'd',
{
    reveal_strlit("ns");
    reveal_strlit("us");
    reveal_strlit("ms");
    reveal_strlit("s");
    reveal_strlit("m");
    reveal_strlit("h");
    reveal_strlit("d");
    lemma_begins_with_two(text, "ns"@);
    lemma_begins_with_two(text, "us"@);
    lemma_begins_with_two(text, "ms"@);
    lemma_begins_with_one(text, "s"@);
    lemma_begins_with_one(text, "m"@);
    lemma_begins_with_one(text, "h"@);
    lemma_begins_with_one(text, "d"@);
}

proof fn lemma_begins_with_two(text: Seq<char>, prefix: Seq<char>)
    requires
        prefix.len() == 2,
    ensures
        begins_with(text, prefix) <==> text.len() >= 2 && text[0] == prefix[0] && text[1]
            == prefix[1],
{
    if text.len() >= 2 {
        let start = text.subrange(0, 2);
        if text[0] == prefix[0] && text[1] == prefix[1] {
            assert(start =~= prefix);
        } else {
            assert(start[0] == text[0] && start[1] == text[1]);
        }
    }
}

proof fn lemma_begins_with_one(text: Seq<char>, prefix: Seq<char>)
    requires
        prefix.len() == 1,
    ensures
        begins_with(text, prefix) <==> text.len() >= 1 && text[0] == prefix[0],
{
    if text.len() >= 1 {
        let start = text.subrange(0, 1);
        if text[0] == prefix[0] {
            assert(start =~= prefix);
        } else {
            assert(start[0] == text[0]);
        }
    }
}

/// What is read first is read the same if another duration follows.
proof fn lemma_sum_of_both(a: Seq<char>, b: Seq<char>)
    requires
        duration_sum(a) is Ok,
        duration_sum(b) is Ok,
    ensures
        duration_sum(a + b) == Ok::<nat, ParseDurationError>(
            duration_sum(a)->Ok_0 + duration_sum(b)->Ok_0,
        ),
    decreases a.len(),
{
    if a.len() == 0 {
        assert(a + b =~= b);
    } else if b.len() == 0 {
        assert(a + b =~= a);
    } else {
        let text = a + b;
        let found = |c: char| !is_digit(c);
        let digits = duration_digits(a);
        lemma_first_found(a, 0, found);
        lemma_first_where(text, 0, digits, found);
        assert(text.take(digits) =~= a.take(digits));
        let units = a.skip(digits);
        assert(text.skip(digits) =~= units + b);
        lemma_first_found(b, 0, found);
        assert(is_digit(b[0]));
        lemma_unit_prefixes(units);
        lemma_unit_prefixes(units + b);
        let length = (duration_unit(units)->0).0 as int;
        assert(duration_unit(units + b) == duration_unit(units));
        let rest = units.skip(length);
        assert((units + b).skip(length) =~= rest + b);
        lemma_sum_of_both(rest, b);
    }
}

/// Nothing is found before the place that is given.
proof fn lemma_first_found(text: Seq<char>, start: int, found: spec_fn(char) -> bool)
    requires
        0 <= start <= text.len(),
    ensures
        start <= first_where(text, start, found) <= text.len(),
        forall|i: int| start <= i < first_where(text, start, found) ==> !found(#[trigger] text[i]),
        first_where(text, start, found) < text.len() ==> found(
            text[first_where(text, start, found)],
        ),
    decreases text.len() - start,
{
    if start < text.len() && !found(text[start]) {
        lemma_first_found(text, start + 1, found);
    }
}

/// A text is read as a size of so many bytes, if they fit 64 bits.
pub open spec fn size_is(text: Seq<char>, bytes: nat) -> bool {
    match parsed_size(text) {
        Ok(size) => {
            &&& size.value * size.unit.spec_bytes() == bytes
            &&& size.spec_bytes() == bytes
            &&& bytes <= u64::MAX
        },
        Err(error) => error == ParseByteSizeError::OverflowBytes && bytes > u64::MAX,
    }
}

/// A number in each of the units is read as so many bytes.
pub proof fn law_sizes_have_units(digits: Seq<char>)
    requires
        is_amount(digits),
        int_value(digits) <= u64::MAX,
    ensures
        size_is(digits, int_value(digits) * 1),
        size_is(digits + "KiB"@, int_value(digits) * 1_024),
        size_is(digits + "MiB"@, int_value(digits) * 1_048_576),
        size_is(digits + "GiB"@, int_value(digits) * 1_073_741_824),
        size_is(digits + "TiB"@, int_value(digits) * 1_099_511_627_776),
{
    reveal_strlit("KiB");
    reveal_strlit("MiB");
    reveal_strlit("GiB");
    reveal_strlit("TiB");
    assert("KiB"@[0] == 'K' && "MiB"@[0] == 'M' && "GiB"@[0] == 'G' && "TiB"@[0] == 'T');
    lemma_size(digits, Seq::empty(), ByteSizeUnit::Bytes);
    assert(digits + Seq::empty() =~= digits);
    lemma_size(digits, "KiB"@, ByteSizeUnit::Kib);
    lemma_size(digits, "MiB"@, ByteSizeUnit::Mib);
    lemma_size(digits, "GiB"@, ByteSizeUnit::Gib);
    lemma_size(digits, "TiB"@, ByteSizeUnit::Tib);
}

/// Digits and a suffix are read together.
proof fn lemma_size(digits: Seq<char>, suffix: Seq<char>, unit: ByteSizeUnit)
    requires
        is_amount(digits),
        int_value(digits) <= u64::MAX,
        suffix.len() > 0 ==> !is_digit(suffix[0]) && suffix[0] != '_',
        suffix_unit(suffix) == Some(unit),
    ensures
        parsed_size(digits + suffix) == {
            let size = ByteSize { value: int_value(digits) as u64, unit };
            if int_value(digits) * unit.spec_bytes() <= u64::MAX {
                Ok(size)
            } else {
                Err(ParseByteSizeError::OverflowBytes)
            }
        },
{
    let text = digits + suffix;
    let end = digits.len() as int;
    let found = |c: char| !is_digit(c) && c != '_';
    assert forall|i: int| 0 <= i < end implies !found(#[trigger] text[i]) by {
        assert(text[i] == digits[i]);
    }
    if suffix.len() > 0 {
        assert(text[end] == suffix[0]);
    }
    lemma_first_where(text, 0, end, found);
    assert(text.take(end) =~= digits);
    assert(text.skip(end) =~= suffix);
    assert(is_digit(digits[0]));
    assert(is_int(digits, ParseIntOptions::spec_strict()));
}

/// Two numbers with a slash between them are read as a ratio, the first over the second, if the
/// second is not zero and the first is no greater.
pub proof fn law_ratios_are_read(a: Seq<char>, b: Seq<char>)
    requires
        is_amount(a),
        is_amount(b),
        int_value(a) <= u64::MAX,
        int_value(b) <= u64::MAX,
    ensures
        parsed_ratio(a + seq!['/'] + b) == if int_value(b) == 0 {
            Err(ParseRatioError::DenominatorZero)
        } else if int_value(a) > int_value(b) {
            Err(ParseRatioError::GreaterThanOne)
        } else {
            Ok(Ratio { numerator: int_value(a) as u64, denominator: int_value(b) as u64 })
        },
        parsed_ratio(seq!['0']) == Ok::<Ratio, ParseRatioError>(
            Ratio { numerator: 0, denominator: 1 },
        ),
{
    let text = a + seq!['/'] + b;
    let end = a.len() as int;
    let found = |c: char| c == '/';
    assert forall|i: int| 0 <= i < end implies !found(#[trigger] text[i]) by {
        assert(text[i] == a[i]);
    }
    lemma_first_where(text, 0, end, found);
    assert(text.take(end) =~= a);
    assert(text.skip(end + 1) =~= b);
    assert(is_digit(a[0]) && is_digit(b[0]));
    assert(is_int(a, ParseIntOptions::spec_lenient()));
    assert(is_int(b, ParseIntOptions::spec_lenient()));
}

/// A number that is written out is read back.
pub proof fn law_decimals_are_read_back(n: nat)
    ensures
        is_amount(decimal(n)),
        int_value(decimal(n)) == n,
    decreases n,
{
    if n < 10 {
        law_digits_denote(Seq::empty(), digit(n));
        assert(decimal(n) =~= Seq::empty().push(digit(n)));
    } else {
        law_decimals_are_read_back(n / 10);
        law_digits_denote(decimal(n / 10), digit(n % 10));
        let text = decimal(n / 10).push(digit(n % 10));
        assert forall|i: int| 0 <= i < text.len() implies '0' <= #[trigger] text[i] <= '9' by {
            if i < text.len() - 1 {
                assert(text[i] == decimal(n / 10)[i]);
            }
        }
        assert(text[0] == decimal(n / 10)[0]);
        if decimal(n / 10).len() == 1 && decimal(n / 10)[0] == '0' {
            assert(decimal(n / 10).drop_last() =~= Seq::empty());
            assert(int_value(Seq::empty()) == 0);
        }
    }
}

/// A size is written in the largest unit in which it is a whole number.
pub proof fn law_sizes_are_written_in_the_largest_unit(n: nat)
    requires
        n % 1_024 != 0,
    ensures
        exact_size(0) == decimal(0) + "B"@,
        exact_size(n) == decimal(n) + "B"@,
        exact_size(n * 1_024) == decimal(n) + "KiB"@,
        exact_size(n * 1_048_576) == decimal(n) + "MiB"@,
        exact_size(n * 1_073_741_824) == decimal(n) + "GiB"@,
        exact_size(n * 1_099_511_627_776) == decimal(n) + "TiB"@,
        exact_size(n * 1_125_899_906_842_624) == decimal(n) + "PiB"@,
        exact_size(n * 1_152_921_504_606_846_976) == decimal(n) + "EiB"@,
{
    reveal_with_fuel(binary_mantissa, 7);
    reveal_with_fuel(binary_magnitude, 7);
    assert(n * 1_024 % 1_024 == 0 && n * 1_024 / 1_024 == n * 1);
    assert(n * 1_048_576 % 1_024 == 0 && n * 1_048_576 / 1_024 == n * 1_024);
    assert(n * 1_073_741_824 % 1_024 == 0 && n * 1_073_741_824 / 1_024 == n * 1_048_576);
    assert(n * 1_099_511_627_776 % 1_024 == 0 && n * 1_099_511_627_776 / 1_024 == n * 1_073_741_824);
    assert(n * 1_125_899_906_842_624 % 1_024 == 0 && n * 1_125_899_906_842_624 / 1_024 == n * 1_099_511_627_776);
    assert(n * 1_152_921_504_606_846_976 % 1_024 == 0 && n * 1_152_921_504_606_846_976 / 1_024 == n * 1_125_899_906_842_624);
}

} // verus!
