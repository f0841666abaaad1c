//! The flags of a command: `--name=value`, and a path at the end.

use crate::cli::address::{
    parse_address_and_port, parsed_address_and_port, parsed_cluster, ClusterAddress,
    ParseAddressesError, SocketAddress,
};
use crate::cli::number::{
    int_value, is_amount, is_int, parse_duration, parse_int, parse_ratio, parse_size,
    parsed_duration, parsed_int, parsed_ratio, parsed_size, ByteSize, ParseByteSizeError,
    ParseDurationError, ParseIntError, ParseIntOptions, ParseRatioError, Ratio,
};
use crate::cli::text::{
    begins_with, decimal, decimal_text, first_byte, is_digit, join2, join3, join4, join5, same,
    skip, starts_with,
};
use vstd::prelude::*;

verus! {

/// The choices of a flag that takes one of a few words.
#[derive(Clone, Copy, Debug, PartialEq, Eq, Structural)]
pub enum Tags {
    Distribution,
    IdOrder,
}

impl Tags {
    pub open spec fn spec_words(self) -> Seq<Seq<char>> {
        match self {
            Tags::Distribution => seq!["zipfian"@, "latest"@, "uniform"@],
            Tags::IdOrder => seq!["tbid"@, "sequential"@, "random"@, "reversed"@],
        }
    }

    /// The words.
    #[must_use]
    pub fn words(self) -> (result: Vec<&'static str>)
        ensures
            texts(result@) == self.spec_words(),
    {
        let mut words: Vec<&'static str> = Vec::new();
        match self {
            Tags::Distribution => {
                words.push("zipfian");
                words.push("latest");
                words.push("uniform");
            },
            Tags::IdOrder => {
                words.push("tbid");
                words.push("sequential");
                words.push("random");
                words.push("reversed");
            },
        }
        assert(texts(words@) =~= self.spec_words());
        words
    }
}

/// What a flag takes.
#[derive(Clone, Copy, Debug, PartialEq, Eq, Structural)]
pub enum NamedKind {
    /// `--flag` sets it, and so does `--flag=true`.
    Bool,
    U8,
    U16,
    U32,
    U64,
    U128,
    /// An integer of six bits.
    U6,
    Usize,
    /// A number of bytes, such as `1GiB`.
    Size,
    /// Any text.
    Text,
    /// The addresses of a cluster.
    Cluster,
    /// An address and a port, of which one may be missing.
    Socket { default_port: u16 },
    Ratio,
    /// A duration, in nanoseconds.
    DurationNs,
    /// One of a few words.
    Enum(Tags),
}

/// A flag that a command knows.
#[derive(Clone, Copy, Debug)]
pub struct Named {
    pub flag: &'static str,
    pub kind: NamedKind,
}

/// The value of a flag.
#[derive(Clone, Debug)]
pub enum Value {
    Bool(bool),
    U8(u8),
    U16(u16),
    U32(u32),
    U64(u64),
    U128(u128),
    Usize(usize),
    Size(ByteSize),
    Text(String),
    Cluster(ClusterAddress),
    Socket(SocketAddress),
    Ratio(Ratio),
    DurationNs(u64),
    Enum(usize),
}

/// What the value of a flag means.
pub enum Meaning {
    Bool(bool),
    U8(u8),
    U16(u16),
    U32(u32),
    U64(u64),
    U128(u128),
    Usize(usize),
    Size(ByteSize),
    Text(Seq<char>),
    Cluster(bool, Seq<SocketAddress>),
    Socket(SocketAddress),
    Ratio(Ratio),
    DurationNs(u64),
    Enum(usize),
}

impl Value {
    pub open spec fn meaning(self) -> Meaning {
        match self {
            Value::Bool(value) => Meaning::Bool(value),
            Value::U8(value) => Meaning::U8(value),
            Value::U16(value) => Meaning::U16(value),
            Value::U32(value) => Meaning::U32(value),
            Value::U64(value) => Meaning::U64(value),
            Value::U128(value) => Meaning::U128(value),
            Value::Usize(value) => Meaning::Usize(value),
            Value::Size(value) => Meaning::Size(value),
            Value::Text(value) => Meaning::Text(value@),
            Value::Cluster(value) => Meaning::Cluster(value.zero, value.addresses@),
            Value::Socket(value) => Meaning::Socket(value),
            Value::Ratio(value) => Meaning::Ratio(value),
            Value::DurationNs(value) => Meaning::DurationNs(value),
            Value::Enum(value) => Meaning::Enum(value),
        }
    }

    /// Sizes fit 64 bits.
    pub open spec fn wf(self) -> bool {
        self matches Value::Size(size) ==> size.wf()
    }
}

/// The texts of a list.
pub open spec fn texts(list: Seq<&'static str>) -> Seq<Seq<char>> {
    Seq::new(list.len(), |i: int| list[i]@)
}

/// The value of an argument that begins with a flag: what comes after `=`.
pub open spec fn split_value(flag: Seq<char>, arg: Seq<char>) -> Result<Seq<char>, Seq<char>> {
    let rest = arg.skip(flag.len() as int);
    if rest.len() == 0 {
        Err(flag + ": expected value separator '='"@)
    } else if rest[0] != '=' {
        Err(
            flag + ": expected value separator '=', but found '"@ + seq![first_byte(rest)]
                + "' in '"@ + arg + "'"@,
        )
    } else if rest.len() == 1 {
        Err(flag + ": argument requires a value"@)
    } else {
        Ok(rest.skip(1))
    }
}

/// The value of an argument that begins with a flag.
///
/// # Errors
/// A message if there is no value.
pub fn split_flag_equals<'a>(flag: &str, arg: &'a str) -> (result: Result<&'a str, String>)
    requires
        begins_with(arg@, flag@),
    ensures
        match result {
            Ok(value) => split_value(flag@, arg@) == Ok::<Seq<char>, Seq<char>>(value@),
            Err(message) => split_value(flag@, arg@) == Err::<Seq<char>, Seq<char>>(message@),
        },
{
    let rest = skip(arg, flag.unicode_len());
    let length: usize = rest.unicode_len();
    if length == 0 {
        return Err(join2(flag, ": expected value separator '='"));
    }
    if rest.get_char(0) != '=' {
        let found = first_byte_text(rest);
        let mut message = join3(
            flag,
            ": expected value separator '=', but found '",
            found.as_str(),
        );
        message.append("' in '");
        message.append(arg);
        message.append("'");
        return Err(message);
    }
    if length == 1 {
        return Err(join2(flag, ": argument requires a value"));
    }
    Ok(skip(rest, 1))
}

fn first_byte_text(text: &str) -> (result: String)
    requires
        text@.len() > 0,
    ensures
        result@ == seq![first_byte(text@)],
{
    proof {
        vstd::utf8::encode_utf8_first_scalar(text@);
    }
    let c = text.as_bytes()[0] as char;
    let mut result = String::new();
    result.push(c);
    assert(result@ =~= seq![c]);
    result
}

/// The message for a text that is no integer of so many bits.
pub open spec fn int_message(
    flag: Seq<char>,
    value: Seq<char>,
    bits: nat,
    error: ParseIntError,
) -> Seq<char> {
    match error {
        ParseIntError::Overflow => flag + ": value exceeds "@ + decimal(bits)
            + "-bit unsigned integer: '"@ + value + "'"@,
        ParseIntError::InvalidCharacter => flag + ": expected an integer value, but found '"@
            + value + "' (invalid digit)"@,
        ParseIntError::LeadingZero => flag + ": leading zero disallowed: '"@ + value + "'"@,
    }
}

fn int_message_text(flag: &str, value: &str, bits: u32, error: ParseIntError) -> (result: String)
    ensures
        result@ == int_message(flag@, value@, bits as nat, error),
{
    match error {
        ParseIntError::Overflow => {
            let digits = decimal_text(bits as u128);
            let mut message = join3(flag, ": value exceeds ", digits.as_str());
            message.append("-bit unsigned integer: '");
            message.append(value);
            message.append("'");
            message
        },
        ParseIntError::InvalidCharacter => join4(
            flag,
            ": expected an integer value, but found '",
            value,
            "' (invalid digit)",
        ),
        ParseIntError::LeadingZero => join4(flag, ": leading zero disallowed: '", value, "'"),
    }
}

/// What a text says as an integer of so many bits.
pub open spec fn int_flag(flag: Seq<char>, value: Seq<char>, bits: nat, max: nat) -> Result<
    nat,
    Seq<char>,
> {
    match parsed_int(value, ParseIntOptions::spec_strict(), max) {
        Ok(n) => Ok(n),
        Err(error) => Err(int_message(flag, value, bits, error)),
    }
}

/// Reads an integer of so many bits, of which `max` is the greatest.
///
/// # Errors
/// A message if the text is no such integer.
pub fn parse_int_flag(flag: &str, value: &str, bits: u32, max: u128) -> (result: Result<
    u128,
    String,
>)
    requires
        max >= 9,
    ensures
        match result {
            Ok(n) => int_flag(flag@, value@, bits as nat, max as nat) == Ok::<nat, Seq<char>>(
                n as nat,
            ) && n <= max,
            Err(message) => int_flag(flag@, value@, bits as nat, max as nat) == Err::<
                nat,
                Seq<char>,
            >(message@),
        },
{
    match parse_int(value, ParseIntOptions::strict(), max) {
        Ok(n) => Ok(n),
        Err(error) => Err(int_message_text(flag, value, bits, error)),
    }
}

/// What is wrong with a size.
pub open spec fn size_diagnostic(error: ParseByteSizeError) -> Seq<char> {
    match error {
        ParseByteSizeError::OverflowValue => "value exceeds 64-bit unsigned integer:"@,
        ParseByteSizeError::InvalidCharacter => "expected a size, but found:"@,
        ParseByteSizeError::LeadingZero => "leading zero disallowed:"@,
        ParseByteSizeError::InvalidUnit => "invalid unit in size, needed KiB, MiB, GiB or TiB:"@,
        ParseByteSizeError::OverflowBytes => "size in bytes exceeds 64-bit unsigned integer:"@,
    }
}

/// What is wrong with a size.
#[must_use]
pub fn byte_size_diagnostic(error: ParseByteSizeError) -> (result: &'static str)
    ensures
        result@ == size_diagnostic(error),
{
    match error {
        ParseByteSizeError::OverflowValue => "value exceeds 64-bit unsigned integer:",
        ParseByteSizeError::InvalidCharacter => "expected a size, but found:",
        ParseByteSizeError::LeadingZero => "leading zero disallowed:",
        ParseByteSizeError::InvalidUnit => "invalid unit in size, needed KiB, MiB, GiB or TiB:",
        ParseByteSizeError::OverflowBytes => "size in bytes exceeds 64-bit unsigned integer:",
    }
}

/// A message on a value: `{flag}: {diagnostic} '{value}'`.
pub open spec fn complaint(flag: Seq<char>, diagnostic: Seq<char>, value: Seq<char>) -> Seq<char> {
    flag + ": "@ + diagnostic + " '"@ + value + "'"@
}

fn complaint_text(flag: &str, diagnostic: &str, value: &str) -> (result: String)
    ensures
        result@ == complaint(flag@, diagnostic@, value@),
{
    let mut message = join5(flag, ": ", diagnostic, " '", value);
    message.append("'");
    message
}

/// What a text says as a size.
pub open spec fn size_flag(flag: Seq<char>, value: Seq<char>) -> Result<ByteSize, Seq<char>> {
    match parsed_size(value) {
        Ok(size) => Ok(size),
        Err(error) => Err(complaint(flag, size_diagnostic(error), value)),
    }
}

/// Reads a size.
///
/// # Errors
/// A message if the text is no size.
pub fn parse_size_flag(flag: &str, value: &str) -> (result: Result<ByteSize, String>)
    ensures
        match result {
            Ok(size) => size_flag(flag@, value@) == Ok::<ByteSize, Seq<char>>(size) && size.wf(),
            Err(message) => size_flag(flag@, value@) == Err::<ByteSize, Seq<char>>(message@),
        },
{
    match parse_size(value) {
        Ok(size) => Ok(size),
        Err(error) => Err(complaint_text(flag, byte_size_diagnostic(error), value)),
    }
}

/// What a text says as the addresses of a cluster.
pub open spec fn cluster_flag(flag: Seq<char>, value: Seq<char>) -> Result<
    Seq<SocketAddress>,
    Seq<char>,
> {
    match parsed_cluster(value) {
        Ok(addresses) => Ok(addresses),
        Err(error) => Err(complaint(flag, error.spec_message(), value)),
    }
}

/// Reads the addresses of a cluster.
///
/// # Errors
/// A message if one of them is no address, or if there are too many.
pub fn parse_cluster_flag(flag: &str, value: &str) -> (result: Result<ClusterAddress, String>)
    ensures
        match result {
            Ok(cluster) => cluster_flag(flag@, value@) == Ok::<Seq<SocketAddress>, Seq<char>>(
                cluster.addresses@,
            ) && cluster.zero == (value@ == "0"@),
            Err(message) => cluster_flag(flag@, value@) == Err::<Seq<SocketAddress>, Seq<char>>(
                message@,
            ),
        },
{
    match ClusterAddress::parse_flag_value(value) {
        Ok(cluster) => Ok(cluster),
        Err(error) => Err(complaint_text(flag, error.message(), value)),
    }
}

/// What is wrong with an address.
pub open spec fn socket_diagnostic(error: ParseAddressesError) -> Seq<char> {
    match error {
        ParseAddressesError::AddressHasTrailingComma => ": invalid trailing comma"@,
        ParseAddressesError::AddressLimitExceeded =>
            ": too many addresses, at most 12 are allowed"@,
        ParseAddressesError::AddressHasMoreThanOneColon =>
            ": invalid address with more than one colon"@,
        ParseAddressesError::PortInvalid => ": invalid port"@,
        ParseAddressesError::AddressInvalid => ": invalid IPv4 or IPv6 address"@,
    }
}

/// What a text says as an address and a port.
pub open spec fn socket_flag(flag: Seq<char>, value: Seq<char>, default_port: u16) -> Result<
    SocketAddress,
    Seq<char>,
> {
    match parsed_address_and_port(value, default_port) {
        Ok(address) => Ok(address),
        Err(error) => Err(flag + socket_diagnostic(error)),
    }
}

/// Reads an address and a port.
///
/// # Errors
/// A message if the text is no address.
pub fn parse_socket_flag(flag: &str, value: &str, default_port: u16) -> (result: Result<
    SocketAddress,
    String,
>)
    ensures
        match result {
            Ok(address) => socket_flag(flag@, value@, default_port) == Ok::<
                SocketAddress,
                Seq<char>,
            >(address),
            Err(message) => socket_flag(flag@, value@, default_port) == Err::<
                SocketAddress,
                Seq<char>,
            >(message@),
        },
{
    match parse_address_and_port(value, default_port) {
        Ok(address) => Ok(address),
        Err(error) => {
            let diagnostic = match error {
                ParseAddressesError::AddressHasTrailingComma => ": invalid trailing comma",
                ParseAddressesError::AddressLimitExceeded =>
                    ": too many addresses, at most 12 are allowed",
                ParseAddressesError::AddressHasMoreThanOneColon =>
                    ": invalid address with more than one colon",
                ParseAddressesError::PortInvalid => ": invalid port",
                ParseAddressesError::AddressInvalid => ": invalid IPv4 or IPv6 address",
            };
            Err(join2(flag, diagnostic))
        },
    }
}

/// What is wrong with a ratio.
pub open spec fn ratio_diagnostic(error: ParseRatioError) -> Seq<char> {
    match error {
        ParseRatioError::NotARatio => "expected 'a/b' ratio, but found:"@,
        ParseRatioError::InvalidNumerator => "invalid numerator:"@,
        ParseRatioError::InvalidDenominator => "invalid denominator:"@,
        ParseRatioError::DenominatorZero => "denominator is zero:"@,
        ParseRatioError::GreaterThanOne => "ratio greater than 1:"@,
    }
}

/// What a text says as a ratio.
pub open spec fn ratio_flag(flag: Seq<char>, value: Seq<char>) -> Result<Ratio, Seq<char>> {
    match parsed_ratio(value) {
        Ok(ratio) => Ok(ratio),
        Err(error) => Err(complaint(flag, ratio_diagnostic(error), value)),
    }
}

/// Reads a ratio.
///
/// # Errors
/// A message if the text is no ratio.
pub fn parse_ratio_flag(flag: &str, value: &str) -> (result: Result<Ratio, String>)
    ensures
        match result {
            Ok(ratio) => ratio_flag(flag@, value@) == Ok::<Ratio, Seq<char>>(ratio) && ratio.wf(),
            Err(message) => ratio_flag(flag@, value@) == Err::<Ratio, Seq<char>>(message@),
        },
{
    match parse_ratio(value) {
        Ok(ratio) => Ok(ratio),
        Err(error) => {
            let diagnostic = match error {
                ParseRatioError::NotARatio => "expected 'a/b' ratio, but found:",
                ParseRatioError::InvalidNumerator => "invalid numerator:",
                ParseRatioError::InvalidDenominator => "invalid denominator:",
                ParseRatioError::DenominatorZero => "denominator is zero:",
                ParseRatioError::GreaterThanOne => "ratio greater than 1:",
            };
            Err(complaint_text(flag, diagnostic, value))
        },
    }
}

/// What is wrong with a duration.
pub open spec fn duration_diagnostic(error: ParseDurationError) -> Seq<char> {
    match error {
        ParseDurationError::MissingUnit => "missing unit; must be one of: d/h/m/s/ms/us/ns:"@,
        ParseDurationError::MissingValue => "missing value:"@,
        ParseDurationError::Overflow => "integer overflow:"@,
        ParseDurationError::LeadingZero => "leading zero disallowed:"@,
        ParseDurationError::UnknownUnit => "unknown unit; must be one of: d/h/m/s/ms/us/ns:"@,
        ParseDurationError::TooLarge => "duration too large:"@,
    }
}

/// What a text says as a duration, in nanoseconds.
pub open spec fn duration_flag(flag: Seq<char>, value: Seq<char>) -> Result<nat, Seq<char>> {
    match parsed_duration(value) {
        Ok(total) => Ok(total),
        Err(error) => Err(complaint(flag, duration_diagnostic(error), value)),
    }
}

/// Reads a duration, in nanoseconds: a sequence such as `1h30m`.
///
/// # Errors
/// A message if the text is no duration.
pub fn parse_duration_flag(flag: &str, value: &str) -> (result: Result<u64, String>)
    ensures
        match result {
            Ok(total) => duration_flag(flag@, value@) == Ok::<nat, Seq<char>>(total as nat),
            Err(message) => duration_flag(flag@, value@) == Err::<nat, Seq<char>>(message@),
        },
{
    match parse_duration(value) {
        Ok(total) => Ok(total),
        Err(error) => {
            let diagnostic = match error {
                ParseDurationError::MissingUnit =>
                    "missing unit; must be one of: d/h/m/s/ms/us/ns:",
                ParseDurationError::MissingValue => "missing value:",
                ParseDurationError::Overflow => "integer overflow:",
                ParseDurationError::LeadingZero => "leading zero disallowed:",
                ParseDurationError::UnknownUnit =>
                    "unknown unit; must be one of: d/h/m/s/ms/us/ns:",
                ParseDurationError::TooLarge => "duration too large:",
            };
            Err(complaint_text(flag, diagnostic, value))
        },
    }
}

/// What stands before a word of a list.
pub open spec fn list_separator(i: int, count: nat) -> Seq<char> {
    if i == 0 {
        ""@
    } else if i + 1 == count && count == 2 {
        " or "@
    } else if i + 1 == count {
        ", or "@
    } else {
        ", "@
    }
}

/// The first words of a list, as in `'a', 'b', or 'c'`.
pub open spec fn word_list(words: Seq<Seq<char>>, end: int) -> Seq<char>
    decreases end,
{
    if end <= 0 {
        ""@
    } else {
        word_list(words, end - 1) + list_separator(end - 1, words.len()) + "'"@ + words[end - 1]
            + "'"@
    }
}

/// The index of the first of the words from `start` on that is the value.
pub open spec fn word_index(words: Seq<Seq<char>>, value: Seq<char>, start: int) -> int
    decreases words.len() - start,
{
    if start >= words.len() || words[start] == value {
        start
    } else {
        word_index(words, value, start + 1)
    }
}

/// What a text says as one of a few words: the index of the word.
pub open spec fn enum_flag(flag: Seq<char>, value: Seq<char>, words: Seq<Seq<char>>) -> Result<
    int,
    Seq<char>,
> {
    let index = word_index(words, value, 0);
    if index < words.len() {
        Ok(index)
    } else {
        Err(
            flag + ": expected one of "@ + word_list(words, words.len() as int)
                + ", but found '"@ + value + "'"@,
        )
    }
}

/// The index of the word that a text is.
///
/// # Errors
/// A message with all the words if the text is none of them.
pub fn parse_enum_flag(flag: &str, value: &str, words: &Vec<&'static str>) -> (result: Result<
    usize,
    String,
>)
    ensures
        match result {
            Ok(index) => enum_flag(flag@, value@, texts(words@)) == Ok::<int, Seq<char>>(
                index as int,
            ) && index < words@.len(),
            Err(message) => enum_flag(flag@, value@, texts(words@)) == Err::<int, Seq<char>>(
                message@,
            ),
        },
{
    let count: usize = words.len();
    let mut i: usize = 0;
    while i < count
        invariant
            i <= count,
            count == words@.len(),
            word_index(texts(words@), value@, 0) == word_index(texts(words@), value@, i as int),
        decreases count - i,
    {
        if same(words[i], value) {
            return Ok(i);
        }
        i = i + 1;
    }
    let mut list = "".to_owned();
    let mut k: usize = 0;
    while k < count
        invariant
            k <= count,
            count == words@.len(),
            list@ == word_list(texts(words@), k as int),
        decreases count - k,
    {
        let separator = if k == 0 {
            ""
        } else if k + 1 == count && count == 2 {
            " or "
        } else if k + 1 == count {
            ", or "
        } else {
            ", "
        };
        list.append(separator);
        list.append("'");
        list.append(words[k]);
        list.append("'");
        k = k + 1;
    }
    let mut message = join3(flag, ": expected one of ", list.as_str());
    message.append(", but found '");
    message.append(value);
    message.append("'");
    Err(message)
}

/// The meaning of a value of some kind.
pub open spec fn value_meaning(flag: Seq<char>, kind: NamedKind, value: Seq<char>) -> Result<
    Meaning,
    Seq<char>,
> {
    match kind {
        NamedKind::Bool => if value == "true"@ {
            Ok(Meaning::Bool(true))
        } else if value == "false"@ {
            Ok(Meaning::Bool(false))
        } else {
            Err(flag + ": expected one of 'true' or 'false', but found '"@ + value + "'"@)
        },
        NamedKind::U8 => match int_flag(flag, value, 8, u8::MAX as nat) {
            Ok(n) => Ok(Meaning::U8(n as u8)),
            Err(message) => Err(message),
        },
        NamedKind::U16 => match int_flag(flag, value, 16, u16::MAX as nat) {
            Ok(n) => Ok(Meaning::U16(n as u16)),
            Err(message) => Err(message),
        },
        NamedKind::U32 => match int_flag(flag, value, 32, u32::MAX as nat) {
            Ok(n) => Ok(Meaning::U32(n as u32)),
            Err(message) => Err(message),
        },
        NamedKind::U64 => match int_flag(flag, value, 64, u64::MAX as nat) {
            Ok(n) => Ok(Meaning::U64(n as u64)),
            Err(message) => Err(message),
        },
        NamedKind::U128 => match int_flag(flag, value, 128, u128::MAX as nat) {
            Ok(n) => Ok(Meaning::U128(n as u128)),
            Err(message) => Err(message),
        },
        NamedKind::U6 => match int_flag(flag, value, 6, 63) {
            Ok(n) => Ok(Meaning::U8(n as u8)),
            Err(message) => Err(message),
        },
        NamedKind::Usize => match int_flag(flag, value, 64, u64::MAX as nat) {
            Ok(n) => if n <= usize::MAX {
                Ok(Meaning::Usize(n as usize))
            } else {
                Err(int_message(flag, value, usize::BITS as nat, ParseIntError::Overflow))
            },
            Err(message) => Err(message),
        },
        NamedKind::Size => match size_flag(flag, value) {
            Ok(size) => Ok(Meaning::Size(size)),
            Err(message) => Err(message),
        },
        NamedKind::Text => Ok(Meaning::Text(value)),
        NamedKind::Cluster => match cluster_flag(flag, value) {
            Ok(addresses) => Ok(Meaning::Cluster(value == "0"@, addresses)),
            Err(message) => Err(message),
        },
        NamedKind::Socket { default_port } => match socket_flag(flag, value, default_port) {
            Ok(address) => Ok(Meaning::Socket(address)),
            Err(message) => Err(message),
        },
        NamedKind::Ratio => match ratio_flag(flag, value) {
            Ok(ratio) => Ok(Meaning::Ratio(ratio)),
            Err(message) => Err(message),
        },
        NamedKind::DurationNs => match duration_flag(flag, value) {
            Ok(total) => Ok(Meaning::DurationNs(total as u64)),
            Err(message) => Err(message),
        },
        NamedKind::Enum(tags) => match enum_flag(flag, value, tags.spec_words()) {
            Ok(index) => Ok(Meaning::Enum(index as usize)),
            Err(message) => Err(message),
        },
    }
}

/// The meaning of an argument that begins with a flag.
pub open spec fn argument_meaning(flag: Seq<char>, kind: NamedKind, arg: Seq<char>) -> Result<
    Meaning,
    Seq<char>,
> {
    if kind == NamedKind::Bool && arg == flag {
        Ok(Meaning::Bool(true))
    } else {
        match split_value(flag, arg) {
            Ok(value) => value_meaning(flag, kind, value),
            Err(message) => Err(message),
        }
    }
}

/// Reads an argument that begins with a flag.
///
/// # Errors
/// A message if it has no value, or one that the flag does not take.
#[verifier::rlimit(40)]
pub fn parse_flag_value(def: Named, arg: &str) -> (result: Result<Value, String>)
    requires
        begins_with(arg@, def.flag@),
    ensures
        match result {
            Ok(value) => argument_meaning(def.flag@, def.kind, arg@) == Ok::<Meaning, Seq<char>>(
                value.meaning(),
            ) && value.wf(),
            Err(message) => argument_meaning(def.flag@, def.kind, arg@) == Err::<
                Meaning,
                Seq<char>,
            >(message@),
        },
{
    let flag = def.flag;
    let is_bool = match def.kind {
        NamedKind::Bool => true,
        _ => false,
    };
    if is_bool && same(arg, flag) {
        return Ok(Value::Bool(true));
    }
    let value = match split_flag_equals(flag, arg) {
        Ok(value) => value,
        Err(message) => {
            return Err(message);
        },
    };
    match def.kind {
        NamedKind::Bool => if same(value, "true") {
            Ok(Value::Bool(true))
        } else if same(value, "false") {
            Ok(Value::Bool(false))
        } else {
            Err(join4(flag, ": expected one of 'true' or 'false', but found '", value, "'"))
        },
        NamedKind::U8 => match parse_int_flag(flag, value, 8, u8::MAX as u128) {
            Ok(n) => Ok(Value::U8(n as u8)),
            Err(message) => Err(message),
        },
        NamedKind::U16 => match parse_int_flag(flag, value, 16, u16::MAX as u128) {
            Ok(n) => Ok(Value::U16(n as u16)),
            Err(message) => Err(message),
        },
        NamedKind::U32 => match parse_int_flag(flag, value, 32, u32::MAX as u128) {
            Ok(n) => Ok(Value::U32(n as u32)),
            Err(message) => Err(message),
        },
        NamedKind::U64 => match parse_int_flag(flag, value, 64, u64::MAX as u128) {
            Ok(n) => Ok(Value::U64(n as u64)),
            Err(message) => Err(message),
        },
        NamedKind::U128 => match parse_int_flag(flag, value, 128, u128::MAX) {
            Ok(n) => Ok(Value::U128(n)),
            Err(message) => Err(message),
        },
        NamedKind::U6 => match parse_int_flag(flag, value, 6, 63) {
            Ok(n) => Ok(Value::U8(n as u8)),
            Err(message) => Err(message),
        },
        NamedKind::Usize => match parse_int_flag(flag, value, 64, u64::MAX as u128) {
            Ok(n) => if n <= usize::MAX as u128 {
                Ok(Value::Usize(n as usize))
            } else {
                Err(int_message_text(flag, value, usize::BITS, ParseIntError::Overflow))
            },
            Err(message) => Err(message),
        },
        NamedKind::Size => match parse_size_flag(flag, value) {
            Ok(size) => Ok(Value::Size(size)),
            Err(message) => Err(message),
        },
        NamedKind::Text => Ok(Value::Text(value.to_owned())),
        NamedKind::Cluster => match parse_cluster_flag(flag, value) {
            Ok(cluster) => Ok(Value::Cluster(cluster)),
            Err(message) => Err(message),
        },
        NamedKind::Socket { default_port } => match parse_socket_flag(flag, value, default_port) {
            Ok(address) => Ok(Value::Socket(address)),
            Err(message) => Err(message),
        },
        NamedKind::Ratio => match parse_ratio_flag(flag, value) {
            Ok(ratio) => Ok(Value::Ratio(ratio)),
            Err(message) => Err(message),
        },
        NamedKind::DurationNs => match parse_duration_flag(flag, value) {
            Ok(total) => Ok(Value::DurationNs(total)),
            Err(message) => Err(message),
        },
        NamedKind::Enum(tags) => match parse_enum_flag(flag, value, &tags.words()) {
            Ok(index) => Ok(Value::Enum(index)),
            Err(message) => Err(message),
        },
    }
}

/// The flags and the positional arguments of a command.
pub struct Scan {
    pub named: Seq<(Seq<char>, Meaning)>,
    pub positionals: Seq<Seq<char>>,
}

/// The index of the first of the flags from `start` on that has the name, or how many there are.
pub open spec fn flag_index(
    named: Seq<(Seq<char>, Meaning)>,
    flag: Seq<char>,
    start: int,
) -> int
    decreases named.len() - start,
{
    if start >= named.len() || named[start].0 == flag {
        start
    } else {
        flag_index(named, flag, start + 1)
    }
}

impl Scan {
    /// Whether a flag was given.
    pub open spec fn has(self, flag: Seq<char>) -> bool {
        flag_index(self.named, flag, 0) < self.named.len()
    }

    /// The meaning of a flag that was given.
    pub open spec fn get(self, flag: Seq<char>) -> Option<Meaning> {
        if self.has(flag) {
            Some(self.named[flag_index(self.named, flag, 0)].1)
        } else {
            None
        }
    }

    /// Whether a flag was given, other than as `--flag=false`.
    pub open spec fn is_set(self, flag: Seq<char>) -> bool {
        match self.get(flag) {
            Some(Meaning::Bool(value)) => value,
            Some(_) => true,
            None => false,
        }
    }

    pub open spec fn bool(self, flag: Seq<char>) -> bool {
        self.get(flag) == Some(Meaning::Bool(true))
    }

    pub open spec fn u8(self, flag: Seq<char>) -> Option<u8> {
        match self.get(flag) {
            Some(Meaning::U8(value)) => Some(value),
            _ => None,
        }
    }

    pub open spec fn u16(self, flag: Seq<char>) -> Option<u16> {
        match self.get(flag) {
            Some(Meaning::U16(value)) => Some(value),
            _ => None,
        }
    }

    pub open spec fn u32(self, flag: Seq<char>) -> Option<u32> {
        match self.get(flag) {
            Some(Meaning::U32(value)) => Some(value),
            _ => None,
        }
    }

    pub open spec fn u64(self, flag: Seq<char>) -> Option<u64> {
        match self.get(flag) {
            Some(Meaning::U64(value)) => Some(value),
            _ => None,
        }
    }

    pub open spec fn u128(self, flag: Seq<char>) -> Option<u128> {
        match self.get(flag) {
            Some(Meaning::U128(value)) => Some(value),
            _ => None,
        }
    }

    pub open spec fn usize(self, flag: Seq<char>) -> Option<usize> {
        match self.get(flag) {
            Some(Meaning::Usize(value)) => Some(value),
            _ => None,
        }
    }

    pub open spec fn size(self, flag: Seq<char>) -> Option<ByteSize> {
        match self.get(flag) {
            Some(Meaning::Size(value)) => Some(value),
            _ => None,
        }
    }

    pub open spec fn text(self, flag: Seq<char>) -> Option<Seq<char>> {
        match self.get(flag) {
            Some(Meaning::Text(value)) => Some(value),
            _ => None,
        }
    }

    pub open spec fn cluster(self, flag: Seq<char>) -> Option<(bool, Seq<SocketAddress>)> {
        match self.get(flag) {
            Some(Meaning::Cluster(zero, addresses)) => Some((zero, addresses)),
            _ => None,
        }
    }

    pub open spec fn socket(self, flag: Seq<char>) -> Option<SocketAddress> {
        match self.get(flag) {
            Some(Meaning::Socket(value)) => Some(value),
            _ => None,
        }
    }

    pub open spec fn ratio(self, flag: Seq<char>) -> Option<Ratio> {
        match self.get(flag) {
            Some(Meaning::Ratio(value)) => Some(value),
            _ => None,
        }
    }

    pub open spec fn duration(self, flag: Seq<char>) -> Option<u64> {
        match self.get(flag) {
            Some(Meaning::DurationNs(value)) => Some(value),
            _ => None,
        }
    }

    pub open spec fn word(self, flag: Seq<char>) -> Option<usize> {
        match self.get(flag) {
            Some(Meaning::Enum(value)) => Some(value),
            _ => None,
        }
    }
}

/// The index of the longest of the first flags with which the argument begins, or -1.
pub open spec fn longest_flag(named: Seq<Named>, end: int, arg: Seq<char>) -> int
    decreases end,
{
    if end <= 0 {
        -1
    } else {
        let rest = longest_flag(named, end - 1, arg);
        if begins_with(arg, named[end - 1].flag@) && (rest < 0 || named[rest].flag@.len()
            < named[end - 1].flag@.len()) {
            end - 1
        } else {
            rest
        }
    }
}

/// An argument is read as the longest flag with which it begins: `--aof-file=x` is not `--aof`.
pub proof fn law_longest_flag_wins(named: Seq<Named>, end: int, arg: Seq<char>)
    requires
        0 <= end <= named.len(),
    ensures
        ({
            let found = longest_flag(named, end, arg);
            if found < 0 {
                forall|i: int| 0 <= i < end ==> !begins_with(arg, (#[trigger] named[i]).flag@)
            } else {
                &&& found < end
                &&& begins_with(arg, named[found].flag@)
                &&& forall|i: int|
                    0 <= i < end && begins_with(arg, (#[trigger] named[i]).flag@)
                        ==> named[i].flag@.len() <= named[found].flag@.len()
            }
        }),
    decreases end,
{
    if end > 0 {
        law_longest_flag_wins(named, end - 1, arg);
    }
}

/// The flags and positional arguments with one argument more.
pub open spec fn scan_step(
    scan: Scan,
    named: Seq<Named>,
    positional: Option<Seq<char>>,
    arg: Seq<char>,
) -> Result<Scan, Seq<char>> {
    let index = longest_flag(named, named.len() as int, arg);
    if index < 0 {
        match positional {
            None => Err("unexpected argument: '"@ + arg + "'"@),
            Some(name) => if arg.len() == 0 {
                Err(name + ": empty argument"@)
            } else if arg[0] == '-' {
                Err("unexpected argument: '"@ + arg + "'"@)
            } else {
                Ok(Scan { named: scan.named, positionals: scan.positionals.push(arg) })
            },
        }
    } else {
        let flag = named[index].flag@;
        if scan.positionals.len() > 0 {
            Err("unexpected trailing option: '"@ + arg + "'"@)
        } else if scan.has(flag) {
            Err(flag + ": duplicate argument"@)
        } else {
            match argument_meaning(flag, named[index].kind, arg) {
                Ok(meaning) => Ok(
                    Scan {
                        named: scan.named.push((flag, meaning)),
                        positionals: scan.positionals,
                    },
                ),
                Err(message) => Err(message),
            }
        }
    }
}

/// The flags and positional arguments among the first arguments.
pub open spec fn scan_prefix(
    args: Seq<Seq<char>>,
    named: Seq<Named>,
    positional: Option<Seq<char>>,
    end: int,
) -> Result<Scan, Seq<char>>
    decreases end,
{
    if end <= 0 {
        Ok(Scan { named: Seq::empty(), positionals: Seq::empty() })
    } else {
        match scan_prefix(args, named, positional, end - 1) {
            Ok(scan) => scan_step(scan, named, positional, args[end - 1]),
            Err(message) => Err(message),
        }
    }
}

/// The flags and the positional argument of a command, or the message for the first that is wrong.
pub open spec fn scanned(
    args: Seq<Seq<char>>,
    named: Seq<Named>,
    positional: Option<Seq<char>>,
) -> Result<Scan, Seq<char>> {
    match scan_prefix(args, named, positional, args.len() as int) {
        Err(message) => Err(message),
        Ok(scan) => match positional {
            Some(name) => if scan.positionals.len() == 0 {
                Err(name + ": argument is required"@)
            } else if scan.positionals.len() > 1 {
                Err("unexpected argument: '"@ + scan.positionals[1] + "'"@)
            } else {
                Ok(scan)
            },
            None => Ok(scan),
        },
    }
}

/// The texts of arguments.
pub open spec fn arguments(args: Seq<String>) -> Seq<Seq<char>> {
    Seq::new(args.len(), |i: int| args[i]@)
}

/// The flags and the positional argument of a command.
pub struct ParsedFlags {
    pub named: Vec<(&'static str, Value)>,
    pub positionals: Vec<String>,
}

impl ParsedFlags {
    pub open spec fn scan(self) -> Scan {
        Scan {
            named: Seq::new(
                self.named@.len(),
                |i: int| (self.named@[i].0@, self.named@[i].1.meaning()),
            ),
            positionals: arguments(self.positionals@),
        }
    }

    pub open spec fn wf(self) -> bool {
        forall|i: int| 0 <= i < self.named@.len() ==> (#[trigger] self.named@[i]).1.wf()
    }

    /// Where a flag stands.
    fn find(&self, flag: &str) -> (result: Option<usize>)
        ensures
            match result {
                Some(index) => self.scan().has(flag@) && index == flag_index(
                    self.scan().named,
                    flag@,
                    0,
                ) && index < self.named@.len(),
                None => !self.scan().has(flag@),
            },
    {
        let count: usize = self.named.len();
        let mut i: usize = 0;
        while i < count
            invariant
                i <= count,
                count == self.named@.len(),
                flag_index(self.scan().named, flag@, 0) == flag_index(
                    self.scan().named,
                    flag@,
                    i as int,
                ),
            decreases count - i,
        {
            if same(self.named[i].0, flag) {
                return Some(i);
            }
            i = i + 1;
        }
        None
    }

    /// Whether a flag was given, other than as `--flag=false`.
    #[must_use]
    pub fn is_set(&self, flag: &str) -> (result: bool)
        ensures
            result == self.scan().is_set(flag@),
    {
        match self.find(flag) {
            Some(index) => match &self.named[index].1 {
                Value::Bool(value) => *value,
                _ => true,
            },
            None => false,
        }
    }

    /// Whether a flag was set.
    #[must_use]
    pub fn bool(&self, flag: &str) -> (result: bool)
        ensures
            result == self.scan().bool(flag@),
    {
        match self.find(flag) {
            Some(index) => match &self.named[index].1 {
                Value::Bool(value) => *value,
                _ => false,
            },
            None => false,
        }
    }

    #[must_use]
    pub fn u8(&self, flag: &str) -> (result: Option<u8>)
        ensures
            result == self.scan().u8(flag@),
    {
        match self.find(flag) {
            Some(index) => match &self.named[index].1 {
                Value::U8(value) => Some(*value),
                _ => None,
            },
            None => None,
        }
    }

    #[must_use]
    pub fn u16(&self, flag: &str) -> (result: Option<u16>)
        ensures
            result == self.scan().u16(flag@),
    {
        match self.find(flag) {
            Some(index) => match &self.named[index].1 {
                Value::U16(value) => Some(*value),
                _ => None,
            },
            None => None,
        }
    }

    #[must_use]
    pub fn u32(&self, flag: &str) -> (result: Option<u32>)
        ensures
            result == self.scan().u32(flag@),
    {
        match self.find(flag) {
            Some(index) => match &self.named[index].1 {
                Value::U32(value) => Some(*value),
                _ => None,
            },
            None => None,
        }
    }

    #[must_use]
    pub fn u64(&self, flag: &str) -> (result: Option<u64>)
        ensures
            result == self.scan().u64(flag@),
    {
        match self.find(flag) {
            Some(index) => match &self.named[index].1 {
                Value::U64(value) => Some(*value),
                _ => None,
            },
            None => None,
        }
    }

    #[must_use]
    pub fn u128(&self, flag: &str) -> (result: Option<u128>)
        ensures
            result == self.scan().u128(flag@),
    {
        match self.find(flag) {
            Some(index) => match &self.named[index].1 {
                Value::U128(value) => Some(*value),
                _ => None,
            },
            None => None,
        }
    }

    #[must_use]
    pub fn usize(&self, flag: &str) -> (result: Option<usize>)
        ensures
            result == self.scan().usize(flag@),
    {
        match self.find(flag) {
            Some(index) => match &self.named[index].1 {
                Value::Usize(value) => Some(*value),
                _ => None,
            },
            None => None,
        }
    }

    #[must_use]
    pub fn size(&self, flag: &str) -> (result: Option<ByteSize>)
        requires
            self.wf(),
        ensures
            result == self.scan().size(flag@),
            result matches Some(size) ==> size.wf(),
    {
        match self.find(flag) {
            Some(index) => match &self.named[index].1 {
                Value::Size(value) => Some(*value),
                _ => None,
            },
            None => None,
        }
    }

    #[must_use]
    pub fn text(&self, flag: &str) -> (result: Option<String>)
        ensures
            match result {
                Some(text) => self.scan().text(flag@) == Some(text@),
                None => self.scan().text(flag@) is None,
            },
    {
        match self.find(flag) {
            Some(index) => match &self.named[index].1 {
                Value::Text(value) => Some(value.clone()),
                _ => None,
            },
            None => None,
        }
    }

    #[must_use]
    pub fn cluster(&self, flag: &str) -> (result: Option<ClusterAddress>)
        ensures
            match result {
                Some(cluster) => self.scan().cluster(flag@) == Some(
                    (cluster.zero, cluster.addresses@),
                ),
                None => self.scan().cluster(flag@) is None,
            },
    {
        match self.find(flag) {
            Some(index) => match &self.named[index].1 {
                Value::Cluster(value) => Some(value.copy()),
                _ => None,
            },
            None => None,
        }
    }

    #[must_use]
    pub fn socket(&self, flag: &str) -> (result: Option<SocketAddress>)
        ensures
            result == self.scan().socket(flag@),
    {
        match self.find(flag) {
            Some(index) => match &self.named[index].1 {
                Value::Socket(value) => Some(*value),
                _ => None,
            },
            None => None,
        }
    }

    #[must_use]
    pub fn ratio(&self, flag: &str) -> (result: Option<Ratio>)
        ensures
            result == self.scan().ratio(flag@),
    {
        match self.find(flag) {
            Some(index) => match &self.named[index].1 {
                Value::Ratio(value) => Some(*value),
                _ => None,
            },
            None => None,
        }
    }

    #[must_use]
    pub fn duration(&self, flag: &str) -> (result: Option<u64>)
        ensures
            result == self.scan().duration(flag@),
    {
        match self.find(flag) {
            Some(index) => match &self.named[index].1 {
                Value::DurationNs(value) => Some(*value),
                _ => None,
            },
            None => None,
        }
    }

    #[must_use]
    pub fn word(&self, flag: &str) -> (result: Option<usize>)
        ensures
            result == self.scan().word(flag@),
    {
        match self.find(flag) {
            Some(index) => match &self.named[index].1 {
                Value::Enum(value) => Some(*value),
                _ => None,
            },
            None => None,
        }
    }

    /// The positional argument of the command.
    #[must_use]
    pub fn positional(&self) -> (result: String)
        requires
            self.scan().positionals.len() > 0,
        ensures
            result@ == self.scan().positionals[0],
    {
        self.positionals[0].clone()
    }
}

fn find_longest(named: &Vec<Named>, arg: &str) -> (result: Option<usize>)
    ensures
        match result {
            Some(index) => index == longest_flag(named@, named@.len() as int, arg@) && index
                < named@.len(),
            None => longest_flag(named@, named@.len() as int, arg@) < 0,
        },
{
    let count: usize = named.len();
    let mut found: Option<usize> = None;
    let mut i: usize = 0;
    while i < count
        invariant
            i <= count,
            count == named@.len(),
            match found {
                Some(index) => index == longest_flag(named@, i as int, arg@) && index < i,
                None => longest_flag(named@, i as int, arg@) < 0,
            },
        decreases count - i,
    {
        if starts_with(arg, named[i].flag) {
            let longer = match found {
                Some(index) => named[index].flag.unicode_len() < named[i].flag.unicode_len(),
                None => true,
            };
            if longer {
                found = Some(i);
            }
        }
        i = i + 1;
    }
    found
}

proof fn lemma_scan_error(
    args: Seq<Seq<char>>,
    named: Seq<Named>,
    positional: Option<Seq<char>>,
    end: int,
    longer: int,
)
    requires
        0 <= end <= longer,
        scan_prefix(args, named, positional, end) is Err,
    ensures
        scan_prefix(args, named, positional, longer) == scan_prefix(
            args,
            named,
            positional,
            end,
        ),
    decreases longer,
{
    if end < longer {
        lemma_scan_error(args, named, positional, end, longer - 1);
    }
}

/// Reads the arguments of a command: flags first, then at most one positional argument.
///
/// # Errors
/// A message on the first argument that is wrong.
#[verifier::rlimit(40)]
pub fn parse_flags(
    args: &[String],
    named: &Vec<Named>,
    positional: Option<&'static str>,
) -> (result: Result<ParsedFlags, String>)
    ensures
        ({
            let name = match positional {
                Some(name) => Some(name@),
                None => None,
            };
            match result {
                Ok(flags) => scanned(arguments(args@), named@, name) == Ok::<Scan, Seq<char>>(
                    flags.scan(),
                ) && flags.wf() && (positional is Some ==> flags.scan().positionals.len() == 1),
                Err(message) => scanned(arguments(args@), named@, name) == Err::<Scan, Seq<char>>(
                    message@,
                ),
            }
        }),
{
    let ghost name = match positional {
        Some(name) => Some(name@),
        None => None,
    };
    let ghost all = arguments(args@);
    let count: usize = args.len();
    let mut flags = ParsedFlags { named: Vec::new(), positionals: Vec::new() };
    let mut i: usize = 0;
    proof {
        assert(flags.scan().named =~= Seq::empty());
        assert(flags.scan().positionals =~= Seq::empty());
    }
    while i < count
        invariant
            i <= count,
            count == args@.len(),
            all == arguments(args@),
            name == (match positional {
                Some(name) => Some(name@),
                None => None,
            }),
            flags.wf(),
            scan_prefix(all, named@, name, i as int) == Ok::<Scan, Seq<char>>(flags.scan()),
        decreases count - i,
    {
        let arg = args[i].as_str();
        let ghost before = flags.scan();
        proof {
            assert(all[i as int] == arg@);
            law_longest_flag_wins(named@, named@.len() as int, arg@);
            if scan_step(before, named@, name, arg@) is Err {
                lemma_scan_error(all, named@, name, i + 1, count as int);
            }
        }
        match find_longest(named, arg) {
            None => {
                match positional {
                    None => {
                        return Err(join3("unexpected argument: '", arg, "'"));
                    },
                    Some(positional_name) => {
                        if arg.unicode_len() == 0 {
                            return Err(join2(positional_name, ": empty argument"));
                        }
                        if arg.get_char(0) == '-' {
                            return Err(join3("unexpected argument: '", arg, "'"));
                        }
                        flags.positionals.push(args[i].clone());
                        proof {
                            assert(flags.scan().positionals =~= before.positionals.push(arg@));
                            assert(flags.scan().named =~= before.named);
                        }
                    },
                }
            },
            Some(index) => {
                let def = named[index];
                if flags.positionals.len() > 0 {
                    return Err(join3("unexpected trailing option: '", arg, "'"));
                }
                if flags.find(def.flag).is_some() {
                    return Err(join2(def.flag, ": duplicate argument"));
                }
                let value = match parse_flag_value(def, arg) {
                    Ok(value) => value,
                    Err(message) => {
                        return Err(message);
                    },
                };
                let ghost meaning = value.meaning();
                flags.named.push((def.flag, value));
                proof {
                    assert(flags.scan().named =~= before.named.push((def.flag@, meaning)));
                    assert(flags.scan().positionals =~= before.positionals);
                }
            },
        }
        i = i + 1;
    }
    match positional {
        Some(positional_name) => {
            if flags.positionals.len() == 0 {
                return Err(join2(positional_name, ": argument is required"));
            }
            if flags.positionals.len() > 1 {
                return Err(join3("unexpected argument: '", flags.positionals[1].as_str(), "'"));
            }
        },
        None => {},
    }
    Ok(flags)
}

/// No flag holds `=`.
pub open spec fn are_flags_plain(named: Seq<Named>) -> bool {
    forall|i: int, k: int|
        0 <= i < named.len() && 0 <= k < named[i].flag@.len() ==> #[trigger] named[i].flag@[k]
            != '='
}

/// The argument is the flag, `=`, and a value.
pub open spec fn is_setting(arg: Seq<char>, flag: Seq<char>) -> bool {
    arg.len() > flag.len() + 1 && arg.take(flag.len() as int) == flag && arg[flag.len() as int]
        == '='
}

/// Where the first flag of a name stands.
proof fn lemma_flag_index(named: Seq<(Seq<char>, Meaning)>, flag: Seq<char>, start: int)
    requires
        0 <= start <= named.len(),
    ensures
        ({
            let index = flag_index(named, flag, start);
            &&& start <= index <= named.len()
            &&& index < named.len() ==> named[index].0 == flag
            &&& forall|i: int| start <= i < index ==> (#[trigger] named[i]).0 != flag
        }),
    decreases named.len() - start,
{
    if start < named.len() && named[start].0 != flag {
        lemma_flag_index(named, flag, start + 1);
    }
}

/// Each flag has the meaning that was read for it, if any was.
pub proof fn law_flags_are_looked_up(scan: Scan, flag: Seq<char>)
    ensures
        match scan.get(flag) {
            Some(meaning) => scan.named.contains((flag, meaning)),
            None => forall|i: int|
                0 <= i < scan.named.len() ==> (#[trigger] scan.named[i]).0 != flag,
        },
        scan.is_set(flag) <==> scan.get(flag) is Some && scan.get(flag) != Some(
            Meaning::Bool(false),
        ),
        scan.bool(flag) <==> scan.get(flag) == Some(Meaning::Bool(true)),
        match scan.get(flag) {
            Some(Meaning::U8(value)) => scan.u8(flag) == Some(value),
            _ => scan.u8(flag) is None,
        },
        match scan.get(flag) {
            Some(Meaning::U16(value)) => scan.u16(flag) == Some(value),
            _ => scan.u16(flag) is None,
        },
        match scan.get(flag) {
            Some(Meaning::U32(value)) => scan.u32(flag) == Some(value),
            _ => scan.u32(flag) is None,
        },
        match scan.get(flag) {
            Some(Meaning::U64(value)) => scan.u64(flag) == Some(value),
            _ => scan.u64(flag) is None,
        },
        match scan.get(flag) {
            Some(Meaning::U128(value)) => scan.u128(flag) == Some(value),
            _ => scan.u128(flag) is None,
        },
        match scan.get(flag) {
            Some(Meaning::Usize(value)) => scan.usize(flag) == Some(value),
            _ => scan.usize(flag) is None,
        },
        match scan.get(flag) {
            Some(Meaning::Size(value)) => scan.size(flag) == Some(value),
            _ => scan.size(flag) is None,
        },
        match scan.get(flag) {
            Some(Meaning::Text(value)) => scan.text(flag) == Some(value),
            _ => scan.text(flag) is None,
        },
        match scan.get(flag) {
            Some(Meaning::Socket(value)) => scan.socket(flag) == Some(value),
            _ => scan.socket(flag) is None,
        },
        match scan.get(flag) {
            Some(Meaning::Ratio(value)) => scan.ratio(flag) == Some(value),
            _ => scan.ratio(flag) is None,
        },
        match scan.get(flag) {
            Some(Meaning::DurationNs(value)) => scan.duration(flag) == Some(value),
            _ => scan.duration(flag) is None,
        },
        match scan.get(flag) {
            Some(Meaning::Enum(value)) => scan.word(flag) == Some(value),
            _ => scan.word(flag) is None,
        },
        match scan.get(flag) {
            Some(Meaning::Cluster(zero, addresses)) => scan.cluster(flag) == Some(
                (zero, addresses),
            ),
            _ => scan.cluster(flag) is None,
        },
{
    lemma_flag_index(scan.named, flag, 0);
    if scan.has(flag) {
        let index = flag_index(scan.named, flag, 0);
        assert(scan.named[index] == (flag, scan.named[index].1));
    }
}

/// What was read of the first arguments stays as it is.
proof fn lemma_scan_grows(
    args: Seq<Seq<char>>,
    named: Seq<Named>,
    positional: Option<Seq<char>>,
    end: int,
    longer: int,
)
    requires
        0 <= end <= longer,
        scan_prefix(args, named, positional, longer) is Ok,
    ensures
        scan_prefix(args, named, positional, end) is Ok,
        ({
            let before = scan_prefix(args, named, positional, end)->Ok_0.named;
            let after = scan_prefix(args, named, positional, longer)->Ok_0.named;
            before.len() <= after.len() && before == after.take(before.len() as int)
        }),
    decreases longer,
{
    if end < longer {
        lemma_scan_grows(args, named, positional, end, longer - 1);
        let before = scan_prefix(args, named, positional, end)->Ok_0.named;
        let middle = scan_prefix(args, named, positional, longer - 1)->Ok_0.named;
        let after = scan_prefix(args, named, positional, longer)->Ok_0.named;
        assert(after.take(middle.len() as int) =~= middle);
        assert(after.take(before.len() as int) =~= middle.take(before.len() as int));
    } else {
        let after = scan_prefix(args, named, positional, longer)->Ok_0.named;
        assert(after.take(after.len() as int) =~= after);
    }
}

/// A flag with its value is read as that flag, whatever other flags begin alike.
proof fn lemma_flag_of_setting(named: Seq<Named>, k: int, arg: Seq<char>)
    requires
        are_flags_plain(named),
        0 <= k < named.len(),
        is_setting(arg, named[k].flag@) || arg == named[k].flag@,
    ensures
        ({
            let found = longest_flag(named, named.len() as int, arg);
            0 <= found < named.len() && named[found].flag@ == named[k].flag@
        }),
{
    let flag = named[k].flag@;
    law_longest_flag_wins(named, named.len() as int, arg);
    assert(arg.subrange(0, flag.len() as int) =~= flag) by {
        if is_setting(arg, flag) {
            assert(arg.take(flag.len() as int) =~= arg.subrange(0, flag.len() as int));
        }
    }
    assert(begins_with(arg, named[k].flag@));
    let found = longest_flag(named, named.len() as int, arg);
    let other = named[found].flag@;
    assert(arg.subrange(0, other.len() as int) == other);
    if other.len() > flag.len() {
        assert(other[flag.len() as int] == arg[flag.len() as int]);
        assert(named[found].flag@[flag.len() as int] != '=');
    }
    assert(other =~= flag);
}

/// What an argument means that is a flag, alone or with a value.
proof fn lemma_setting_meaning(flag: Seq<char>, kind: NamedKind, arg: Seq<char>)
    requires
        is_setting(arg, flag) || arg == flag,
    ensures
        is_setting(arg, flag) ==> argument_meaning(flag, kind, arg) == value_meaning(
            flag,
            kind,
            arg.skip(flag.len() as int + 1),
        ),
        !is_setting(arg, flag) ==> match argument_meaning(flag, kind, arg) {
            Ok(meaning) => kind == NamedKind::Bool && meaning == Meaning::Bool(true),
            Err(_) => kind != NamedKind::Bool,
        },
{
    if is_setting(arg, flag) {
        assert(arg.skip(flag.len() as int).skip(1) =~= arg.skip(flag.len() as int + 1));
        assert(arg.skip(flag.len() as int)[0] == '=');
        assert(arg != flag);
    } else {
        assert(arg.skip(flag.len() as int).len() == 0);
    }
}

/// A flag that comes after flags of other names is the one that is found.
proof fn lemma_flag_found(
    before: Seq<(Seq<char>, Meaning)>,
    after: Seq<(Seq<char>, Meaning)>,
    flag: Seq<char>,
    meaning: Meaning,
)
    requires
        flag_index(before, flag, 0) >= before.len(),
        before.len() < after.len(),
        after.take(before.len() as int + 1) == before.push((flag, meaning)),
    ensures
        flag_index(after, flag, 0) == before.len(),
        after[before.len() as int].1 == meaning,
{
    let n = before.len() as int;
    lemma_flag_index(before, flag, 0);
    lemma_flag_index(after, flag, 0);
    assert(after[n] == after.take(n + 1)[n]);
    let index = flag_index(after, flag, 0);
    if index < n {
        assert(after[index] == after.take(n + 1)[index]);
        assert(before[index] == before.push((flag, meaning))[index]);
    }
}

/// A flag means what its value means, wherever it stands among the arguments.
#[verifier::rlimit(60)]
pub proof fn law_flags_are_read(
    args: Seq<Seq<char>>,
    named: Seq<Named>,
    positional: Option<Seq<char>>,
    i: int,
    k: int,
)
    requires
        are_flags_plain(named),
        0 <= i < args.len(),
        0 <= k < named.len(),
        forall|j: int|
            0 <= j < named.len() && (#[trigger] named[j]).flag@ == named[k].flag@
                ==> named[j].kind == named[k].kind,
        is_setting(args[i], named[k].flag@) || args[i] == named[k].flag@,
        scanned(args, named, positional) is Ok,
    ensures
        ({
            let flag = named[k].flag@;
            let scan = scanned(args, named, positional)->Ok_0;
            if is_setting(args[i], flag) {
                let value = args[i].skip(flag.len() as int + 1);
                &&& value_meaning(flag, named[k].kind, value) is Ok
                &&& scan.get(flag) == Some(value_meaning(flag, named[k].kind, value)->Ok_0)
            } else {
                &&& named[k].kind == NamedKind::Bool
                &&& scan.get(flag) == Some(Meaning::Bool(true))
            }
        }),
{
    let flag = named[k].flag@;
    let arg = args[i];
    lemma_flag_of_setting(named, k, arg);
    lemma_setting_meaning(flag, named[k].kind, arg);
    lemma_scan_grows(args, named, positional, i, args.len() as int);
    lemma_scan_grows(args, named, positional, i + 1, args.len() as int);
    let before = scan_prefix(args, named, positional, i)->Ok_0;
    let after = scan_prefix(args, named, positional, i + 1)->Ok_0;
    let scan = scanned(args, named, positional)->Ok_0;
    let meaning = argument_meaning(flag, named[k].kind, arg);
    assert(scan_step(before, named, positional, arg) == Ok::<Scan, Seq<char>>(after));
    assert(!before.has(flag));
    assert(meaning is Ok && after.named == before.named.push((flag, meaning->Ok_0)));
    lemma_flag_found(before.named, scan.named, flag, meaning->Ok_0);
}

/// Every flag that was read stands among the arguments.
proof fn lemma_flags_stem_from_arguments(
    args: Seq<Seq<char>>,
    named: Seq<Named>,
    positional: Option<Seq<char>>,
    end: int,
    index: int,
)
    requires
        0 <= end <= args.len(),
        scan_prefix(args, named, positional, end) is Ok,
        0 <= index < scan_prefix(args, named, positional, end)->Ok_0.named.len(),
    ensures
        ({
            let flag = scan_prefix(args, named, positional, end)->Ok_0.named[index].0;
            exists|i: int|
                0 <= i < end && (#[trigger] args[i] == flag || is_setting(args[i], flag))
        }),
    decreases end,
{
    if end > 0 {
        let before = scan_prefix(args, named, positional, end - 1)->Ok_0;
        let after = scan_prefix(args, named, positional, end)->Ok_0;
        let flag = after.named[index].0;
        if index < before.named.len() {
            assert(after.named[index] == before.named[index]);
            lemma_flags_stem_from_arguments(args, named, positional, end - 1, index);
        } else {
            let arg = args[end - 1];
            let found = longest_flag(named, named.len() as int, arg);
            law_longest_flag_wins(named, named.len() as int, arg);
            assert(flag == named[found].flag@);
            let rest = arg.skip(flag.len() as int);
            if arg != flag {
                assert(rest[0] == arg[flag.len() as int]);
                assert(arg.take(flag.len() as int) =~= arg.subrange(0, flag.len() as int));
                assert(is_setting(arg, flag));
            }
        }
    }
}

/// A flag that does not stand among the arguments has no meaning.
pub proof fn law_missing_flags_say_nothing(
    args: Seq<Seq<char>>,
    named: Seq<Named>,
    positional: Option<Seq<char>>,
    flag: Seq<char>,
)
    requires
        scanned(args, named, positional) is Ok,
        forall|i: int|
            0 <= i < args.len() ==> #[trigger] args[i] != flag && !is_setting(args[i], flag),
    ensures
        (scanned(args, named, positional)->Ok_0).get(flag) is None,
{
    let scan = scanned(args, named, positional)->Ok_0;
    lemma_flag_index(scan.named, flag, 0);
    let index = flag_index(scan.named, flag, 0);
    if index < scan.named.len() {
        lemma_flags_stem_from_arguments(args, named, positional, args.len() as int, index);
        let i = choose|i: int|
            0 <= i < args.len() && (#[trigger] args[i] == flag || is_setting(args[i], flag));
        assert(args[i] != flag && !is_setting(args[i], flag));
    }
}

/// The positional arguments come last.
proof fn lemma_positionals_are_last(
    args: Seq<Seq<char>>,
    named: Seq<Named>,
    positional: Option<Seq<char>>,
    end: int,
)
    requires
        0 <= end <= args.len(),
        scan_prefix(args, named, positional, end) is Ok,
    ensures
        ({
            let positionals = scan_prefix(args, named, positional, end)->Ok_0.positionals;
            &&& positionals.len() <= end
            &&& positionals == args.subrange(end - positionals.len(), end)
            &&& positional is None ==> positionals.len() == 0
            &&& forall|i: int|
                0 <= i < positionals.len() ==> (#[trigger] positionals[i]).len() > 0
                    && positionals[i][0] != '-'
        }),
    decreases end,
{
    if end > 0 {
        lemma_positionals_are_last(args, named, positional, end - 1);
        let before = scan_prefix(args, named, positional, end - 1)->Ok_0.positionals;
        let after = scan_prefix(args, named, positional, end)->Ok_0.positionals;
        if after.len() > before.len() {
            assert(after =~= args.subrange(end - after.len(), end)) by {
                assert(before == args.subrange(end - 1 - before.len(), end - 1));
            }
        } else {
            assert(after =~= args.subrange(end - after.len(), end)) by {
                if after.len() > 0 {
                    assert(before == after);
                }
            }
        }
    } else {
        assert(args.subrange(0, 0) =~= Seq::empty());
    }
}

/// The positional argument is the last argument.
pub proof fn law_positional_argument_is_last(
    args: Seq<Seq<char>>,
    named: Seq<Named>,
    positional: Option<Seq<char>>,
)
    requires
        scanned(args, named, positional) is Ok,
    ensures
        ({
            let positionals = scanned(args, named, positional)->Ok_0.positionals;
            match positional {
                Some(_) => {
                    &&& positionals.len() == 1
                    &&& args.len() > 0
                    &&& positionals[0] == args[args.len() - 1]
                    &&& positionals[0].len() > 0
                    &&& positionals[0][0] != '-'
                },
                None => positionals.len() == 0,
            }
        }),
{
    lemma_positionals_are_last(args, named, positional, args.len() as int);
}

/// The argument sets the flag to a value that the flag takes.
pub open spec fn sets(arg: Seq<char>, named: Named) -> bool {
    let flag = named.flag@;
    ||| arg == flag && named.kind == NamedKind::Bool
    ||| is_setting(arg, flag) && value_meaning(flag, named.kind, arg.skip(flag.len() as int + 1)) is Ok
}

#[verifier::rlimit(60)]
proof fn lemma_settings_are_read(
    args: Seq<Seq<char>>,
    named: Seq<Named>,
    positional: Option<Seq<char>>,
    which: Seq<int>,
    end: int,
)
    requires
        are_flags_plain(named),
        forall|i: int, k: int|
            0 <= i < k < named.len() ==> (#[trigger] named[i]).flag@ != (#[trigger] named[k]).flag@,
        0 <= end <= which.len() <= args.len(),
        forall|i: int|
            0 <= i < which.len() ==> 0 <= #[trigger] which[i] < named.len() && sets(
                args[i],
                named[which[i]],
            ),
        which.no_duplicates(),
    ensures
        scan_prefix(args, named, positional, end) is Ok,
        ({
            let scan = scan_prefix(args, named, positional, end)->Ok_0;
            &&& scan.positionals.len() == 0
            &&& scan.named.len() == end
            &&& forall|i: int| 0 <= i < end ==> (#[trigger] scan.named[i]).0 == named[which[i]].flag@
        }),
    decreases end,
{
    if end > 0 {
        lemma_settings_are_read(args, named, positional, which, end - 1);
        let scan = scan_prefix(args, named, positional, end - 1)->Ok_0;
        let arg = args[end - 1];
        let k = which[end - 1];
        let flag = named[k].flag@;
        lemma_flag_of_setting(named, k, arg);
        let found = longest_flag(named, named.len() as int, arg);
        assert(found == k);
        lemma_flag_index(scan.named, flag, 0);
        let index = flag_index(scan.named, flag, 0);
        assert(!scan.has(flag)) by {
            if index < scan.named.len() {
                assert(scan.named[index].0 == named[which[index]].flag@);
                assert(which[index] != which[end - 1]);
                if which[index] < k {
                    assert(named[which[index]].flag@ != named[k].flag@);
                } else {
                    assert(named[k].flag@ != named[which[index]].flag@);
                }
            }
        }
        lemma_setting_meaning(flag, named[k].kind, arg);
        let meaning = argument_meaning(flag, named[k].kind, arg);
        assert(meaning is Ok);
        let after = Scan {
            named: scan.named.push((flag, meaning->Ok_0)),
            positionals: scan.positionals,
        };
        assert(scan_step(scan, named, positional, arg) == Ok::<Scan, Seq<char>>(after));
    }
}

/// Arguments are read if each sets a flag of its own, and the last is positional where the command
/// takes one.
pub proof fn law_right_arguments_are_read(
    args: Seq<Seq<char>>,
    named: Seq<Named>,
    positional: Option<Seq<char>>,
    which: Seq<int>,
)
    requires
        are_flags_plain(named),
        forall|i: int, k: int|
            0 <= i < k < named.len() ==> (#[trigger] named[i]).flag@ != (#[trigger] named[k]).flag@,
        forall|i: int|
            0 <= i < which.len() ==> 0 <= #[trigger] which[i] < named.len() && sets(
                args[i],
                named[which[i]],
            ),
        which.no_duplicates(),
        match positional {
            Some(_) => {
                &&& args.len() == which.len() + 1
                &&& args.last().len() > 0
                &&& args.last()[0] != '-'
                &&& forall|i: int|
                    0 <= i < named.len() ==> !begins_with(args.last(), (#[trigger] named[i]).flag@)
            },
            None => args.len() == which.len(),
        },
    ensures
        scanned(args, named, positional) is Ok,
{
    lemma_settings_are_read(args, named, positional, which, which.len() as int);
    if positional is Some {
        law_longest_flag_wins(named, named.len() as int, args.last());
        assert(args.last() == args[args.len() - 1]);
    }
}

/// A value of each kind is read as what it says.
pub proof fn law_values_are_read(flag: Seq<char>, digits: Seq<char>, text: Seq<char>)
    requires
        is_amount(digits),
    ensures
        ({
            let n = int_value(digits);
            &&& value_meaning(flag, NamedKind::Bool, "true"@) == Ok::<Meaning, Seq<char>>(
                Meaning::Bool(true),
            )
            &&& value_meaning(flag, NamedKind::Bool, "false"@) == Ok::<Meaning, Seq<char>>(
                Meaning::Bool(false),
            )
            &&& value_meaning(flag, NamedKind::Bool, text) is Ok ==> text == "true"@ || text
                == "false"@
            &&& match value_meaning(flag, NamedKind::U8, digits) {
                Ok(meaning) => n <= 255 && meaning == Meaning::U8(n as u8),
                Err(_) => n > 255,
            }
            &&& match value_meaning(flag, NamedKind::U6, digits) {
                Ok(meaning) => n <= 63 && meaning == Meaning::U8(n as u8),
                Err(_) => n > 63,
            }
            &&& match value_meaning(flag, NamedKind::U16, digits) {
                Ok(meaning) => n <= 65_535 && meaning == Meaning::U16(n as u16),
                Err(_) => n > 65_535,
            }
            &&& match value_meaning(flag, NamedKind::U32, digits) {
                Ok(meaning) => n <= 0xffff_ffff && meaning == Meaning::U32(n as u32),
                Err(_) => n > 0xffff_ffff,
            }
            &&& match value_meaning(flag, NamedKind::U64, digits) {
                Ok(meaning) => n <= 0xffff_ffff_ffff_ffff && meaning == Meaning::U64(n as u64),
                Err(_) => n > 0xffff_ffff_ffff_ffff,
            }
            &&& match value_meaning(flag, NamedKind::U128, digits) {
                Ok(meaning) => n <= u128::MAX && meaning == Meaning::U128(n as u128),
                Err(_) => n > u128::MAX,
            }
            &&& match value_meaning(flag, NamedKind::Usize, digits) {
                Ok(meaning) => n <= usize::MAX && meaning == Meaning::Usize(n as usize),
                Err(_) => n > usize::MAX,
            }
            &&& value_meaning(flag, NamedKind::Text, text) == Ok::<Meaning, Seq<char>>(
                Meaning::Text(text),
            )
        }),
{
    reveal_strlit("true");
    reveal_strlit("false");
    assert("true"@.len() != "false"@.len());
    assert(is_digit(digits[0]));
    assert(is_int(digits, ParseIntOptions::spec_strict()));
}

/// A value of each of the other kinds is read as what it says.
pub proof fn law_values_are_read_in_their_grammars(flag: Seq<char>, text: Seq<char>, port: u16)
    ensures
        match value_meaning(flag, NamedKind::Size, text) {
            Ok(meaning) => parsed_size(text) is Ok && meaning == Meaning::Size(
                parsed_size(text)->Ok_0,
            ),
            Err(_) => parsed_size(text) is Err,
        },
        match value_meaning(flag, NamedKind::Cluster, text) {
            Ok(meaning) => parsed_cluster(text) is Ok && meaning == Meaning::Cluster(
                text == "0"@,
                parsed_cluster(text)->Ok_0,
            ),
            Err(_) => parsed_cluster(text) is Err,
        },
        match value_meaning(flag, NamedKind::Socket { default_port: port }, text) {
            Ok(meaning) => parsed_address_and_port(text, port) is Ok && meaning == Meaning::Socket(
                parsed_address_and_port(text, port)->Ok_0,
            ),
            Err(_) => parsed_address_and_port(text, port) is Err,
        },
        match value_meaning(flag, NamedKind::Ratio, text) {
            Ok(meaning) => parsed_ratio(text) is Ok && meaning == Meaning::Ratio(
                parsed_ratio(text)->Ok_0,
            ),
            Err(_) => parsed_ratio(text) is Err,
        },
        match value_meaning(flag, NamedKind::DurationNs, text) {
            Ok(meaning) => parsed_duration(text) is Ok && meaning == Meaning::DurationNs(
                parsed_duration(text)->Ok_0 as u64,
            ),
            Err(_) => parsed_duration(text) is Err,
        },
{
}

/// The words of a flag stand for their places in the list, and nothing else is one of them.
pub proof fn law_words_have_places(flag: Seq<char>, text: Seq<char>)
    ensures
        value_meaning(flag, NamedKind::Enum(Tags::Distribution), text) == Ok::<Meaning, Seq<char>>(
            Meaning::Enum(0),
        ) <==> text == "zipfian"@,
        value_meaning(flag, NamedKind::Enum(Tags::Distribution), text) == Ok::<Meaning, Seq<char>>(
            Meaning::Enum(1),
        ) <==> text == "latest"@,
        value_meaning(flag, NamedKind::Enum(Tags::Distribution), text) == Ok::<Meaning, Seq<char>>(
            Meaning::Enum(2),
        ) <==> text == "uniform"@,
        value_meaning(flag, NamedKind::Enum(Tags::Distribution), text) is Ok ==> text
            == "zipfian"@ || text == "latest"@ || text == "uniform"@,
        value_meaning(flag, NamedKind::Enum(Tags::IdOrder), text) == Ok::<Meaning, Seq<char>>(
            Meaning::Enum(0),
        ) <==> text == "tbid"@,
        value_meaning(flag, NamedKind::Enum(Tags::IdOrder), text) == Ok::<Meaning, Seq<char>>(
            Meaning::Enum(1),
        ) <==> text == "sequential"@,
        value_meaning(flag, NamedKind::Enum(Tags::IdOrder), text) == Ok::<Meaning, Seq<char>>(
            Meaning::Enum(2),
        ) <==> text == "random"@,
        value_meaning(flag, NamedKind::Enum(Tags::IdOrder), text) == Ok::<Meaning, Seq<char>>(
            Meaning::Enum(3),
        ) <==> text == "reversed"@,
        value_meaning(flag, NamedKind::Enum(Tags::IdOrder), text) is Ok ==> text == "tbid"@ || text
            == "sequential"@ || text == "random"@ || text == "reversed"@,
{
    reveal_with_fuel(word_index, 5);
    reveal_strlit("zipfian");
    reveal_strlit("latest");
    reveal_strlit("uniform");
    reveal_strlit("tbid");
    reveal_strlit("sequential");
    reveal_strlit("random");
    reveal_strlit("reversed");
    assert("zipfian"@[0] != "uniform"@[0]);
}

/// A flag takes `=` and a value after it, and nothing else. Only a switch may stand alone.
pub proof fn law_flags_take_values(flag: Seq<char>, kind: NamedKind, arg: Seq<char>)
    requires
        begins_with(arg, flag),
        argument_meaning(flag, kind, arg) is Ok,
    ensures
        is_setting(arg, flag) || (arg == flag && kind == NamedKind::Bool),
{
    let rest = arg.skip(flag.len() as int);
    assert(arg.take(flag.len() as int) =~= flag) by {
        assert(arg.subrange(0, flag.len() as int) =~= arg.take(flag.len() as int));
    }
    if rest.len() == 0 {
        assert(arg =~= flag);
    } else {
        assert(rest[0] == arg[flag.len() as int]);
    }
}

} // verus!
