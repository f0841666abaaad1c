//! The addresses of replicas.

use crate::cli::number::{
    int_value, is_amount, is_int, parse_int, parsed_int, ParseIntError, ParseIntOptions,
};
use crate::cli::text::{
    are_parts, is_digit, joined, law_split_gives_the_parts, same, skip, split, take,
};
use crate::constants::MEMBERS_MAX;
use vstd::prelude::*;

verus! {

/// `127.0.0.1`, where an address is not given.
pub const ADDRESS_DEFAULT: u32 = 0x7f00_0001;

/// The port where none is given.
pub const PORT_DEFAULT: u16 = 3000;

/// An address on the network, as the number that its bytes spell, most significant first.
#[derive(Clone, Copy, Debug, PartialEq, Eq, Structural)]
pub enum IpAddress {
    V4(u32),
    V6(u128),
}

/// Where a process listens.
#[derive(Clone, Copy, Debug, PartialEq, Eq, Structural)]
pub struct SocketAddress {
    pub ip: IpAddress,
    pub port: u16,
}

/// Why a text names no address.
#[derive(Clone, Copy, Debug, PartialEq, Eq, Structural)]
pub enum ParseAddressesError {
    AddressHasTrailingComma,
    AddressLimitExceeded,
    AddressHasMoreThanOneColon,
    PortInvalid,
    AddressInvalid,
}

impl ParseAddressesError {
    pub open spec fn spec_message(self) -> Seq<char> {
        match self {
            ParseAddressesError::AddressHasTrailingComma => "invalid trailing comma:"@,
            ParseAddressesError::AddressLimitExceeded =>
                "too many addresses, at most 12 are allowed:"@,
            ParseAddressesError::AddressHasMoreThanOneColon =>
                "invalid address with more than one colon:"@,
            ParseAddressesError::PortInvalid => "invalid port:"@,
            ParseAddressesError::AddressInvalid => "invalid IPv4 or IPv6 address:"@,
        }
    }

    #[must_use]
    pub fn message(self) -> (result: &'static str)
        ensures
            result@ == self.spec_message(),
    {
        match self {
            ParseAddressesError::AddressHasTrailingComma => "invalid trailing comma:",
            ParseAddressesError::AddressLimitExceeded =>
                "too many addresses, at most 12 are allowed:",
            ParseAddressesError::AddressHasMoreThanOneColon =>
                "invalid address with more than one colon:",
            ParseAddressesError::PortInvalid => "invalid port:",
            ParseAddressesError::AddressInvalid => "invalid IPv4 or IPv6 address:",
        }
    }
}

/// The parts of a text.
pub open spec fn views(parts: Seq<&str>) -> Seq<Seq<char>> {
    Seq::new(parts.len(), |i: int| parts[i]@)
}

/// Parts a text at its separators.
#[must_use]
pub fn split_text<'a>(text: &'a str, separator: char) -> (result: Vec<&'a str>)
    ensures
        views(result@) == split(text@, separator),
        result@.len() >= 1,
{
    let length: usize = text.unicode_len();
    let mut parts: Vec<&'a str> = Vec::new();
    let mut start: usize = 0;
    let mut i: usize = 0;
    proof {
        assert(text@.take(0) =~= Seq::empty());
        assert(text@.subrange(0, 0) =~= Seq::empty());
        assert(views(parts@).push(Seq::empty()) =~= seq![Seq::empty()]);
    }
    while i < length
        invariant
            length == text@.len(),
            start <= i <= length,
            split(text@.take(i as int), separator) == views(parts@).push(
                text@.subrange(start as int, i as int),
            ),
        decreases length - i,
    {
        let c = text.get_char(i);
        let ghost before = views(parts@);
        let ghost whole = text@.take(i + 1);
        proof {
            assert(whole.drop_last() =~= text@.take(i as int));
            assert(whole.last() == c);
        }
        if c == separator {
            parts.push(text.substring_char(start, i));
            start = i + 1;
            proof {
                assert(views(parts@) =~= before.push(parts@.last()@));
                assert(text@.subrange(start as int, i + 1) =~= Seq::empty());
            }
        } else {
            proof {
                let rest = split(text@.take(i as int), separator);
                assert(text@.subrange(start as int, i + 1) =~= rest.last().push(c));
                assert(rest.update(rest.len() - 1, rest.last().push(c)) =~= before.push(
                    text@.subrange(start as int, i + 1),
                ));
            }
        }
        i = i + 1;
    }
    let ghost before = views(parts@);
    parts.push(text.substring_char(start, length));
    proof {
        assert(text@.take(length as int) =~= text@);
        assert(views(parts@) =~= before.push(parts@.last()@));
    }
    parts
}

pub open spec fn spec_octet_options() -> ParseIntOptions {
    ParseIntOptions { allow_leading_zero: false, allow_separators: false }
}

/// One of the four numbers of an address.
pub open spec fn octet(text: Seq<char>) -> Option<nat> {
    match parsed_int(text, spec_octet_options(), 255) {
        Ok(value) => Some(value),
        Err(_) => None,
    }
}

/// What a text says as an address of four numbers with dots between them.
pub open spec fn parsed_ipv4(text: Seq<char>) -> Option<nat> {
    let parts = split(text, '.');
    if parts.len() != 4 {
        None
    } else {
        match (octet(parts[0]), octet(parts[1]), octet(parts[2]), octet(parts[3])) {
            (Some(a), Some(b), Some(c), Some(d)) => Some(
                a * 0x100_0000 + b * 0x1_0000 + c * 0x100 + d,
            ),
            _ => None,
        }
    }
}

fn parse_octet(text: &str) -> (result: Option<u32>)
    ensures
        match result {
            Some(value) => octet(text@) == Some(value as nat) && value <= 255,
            None => octet(text@) is None,
        },
{
    let options = ParseIntOptions { allow_leading_zero: false, allow_separators: false };
    match parse_int(text, options, 255) {
        Ok(value) => Some(value as u32),
        Err(_) => None,
    }
}

/// Reads an address of four numbers with dots between them.
pub fn parse_ipv4(text: &str) -> (result: Option<u32>)
    ensures
        match result {
            Some(value) => parsed_ipv4(text@) == Some(value as nat),
            None => parsed_ipv4(text@) is None,
        },
{
    let parts = split_text(text, '.');
    proof {
        assert(views(parts@).len() == parts@.len());
    }
    if parts.len() != 4 {
        return None;
    }
    proof {
        assert(split(text@, '.')[0] == parts@[0]@);
        assert(split(text@, '.')[1] == parts@[1]@);
        assert(split(text@, '.')[2] == parts@[2]@);
        assert(split(text@, '.')[3] == parts@[3]@);
    }
    match (
        parse_octet(parts[0]),
        parse_octet(parts[1]),
        parse_octet(parts[2]),
        parse_octet(parts[3]),
    ) {
        (Some(a), Some(b), Some(c), Some(d)) => Some(
            a * 0x100_0000 + b * 0x1_0000 + c * 0x100 + d,
        ),
        _ => None,
    }
}

/// The value of a hexadecimal digit.
pub open spec fn hex_digit(c: char) -> Option<nat> {
    if '0' <= c <= '9' {
        Some((c as nat - '0' as nat) as nat)
    } else if 'a' <= c <= 'f' {
        Some((c as nat - 'a' as nat + 10) as nat)
    } else if 'A' <= c <= 'F' {
        Some((c as nat - 'A' as nat + 10) as nat)
    } else {
        None
    }
}

/// The value of hexadecimal digits.
pub open spec fn hex_value(text: Seq<char>) -> Option<nat>
    decreases text.len(),
{
    if text.len() == 0 {
        Some(0)
    } else {
        match (hex_value(text.drop_last()), hex_digit(text.last())) {
            (Some(value), Some(digit)) => Some(value * 16 + digit),
            _ => None,
        }
    }
}

/// One of the groups of an address: up to four hexadecimal digits.
pub open spec fn hex_group(text: Seq<char>) -> Option<nat> {
    if 1 <= text.len() <= 4 {
        hex_value(text)
    } else {
        None
    }
}

fn parse_hex_group(text: &str) -> (result: Option<u16>)
    ensures
        match result {
            Some(value) => hex_group(text@) == Some(value as nat),
            None => hex_group(text@) is None,
        },
{
    let length: usize = text.unicode_len();
    if length == 0 || length > 4 {
        return None;
    }
    let mut value: u32 = 0;
    let mut i: usize = 0;
    while i < length
        invariant
            i <= length <= 4,
            length == text@.len(),
            hex_value(text@.take(i as int)) == Some(value as nat),
            i == 0 ==> value == 0,
            i == 1 ==> value < 0x10,
            i == 2 ==> value < 0x100,
            i == 3 ==> value < 0x1000,
            i == 4 ==> value < 0x1_0000,
        decreases length - i,
    {
        let c = text.get_char(i);
        proof {
            assert(text@.take(i + 1).drop_last() =~= text@.take(i as int));
            assert(text@.take(i + 1).last() == c);
        }
        let digit: u32 = if '0' <= c && c <= '9' {
            c as u32 - '0' as u32
        } else if 'a' <= c && c <= 'f' {
            c as u32 - 'a' as u32 + 10
        } else if 'A' <= c && c <= 'F' {
            c as u32 - 'A' as u32 + 10
        } else {
            proof {
                lemma_hex_prefix(text@, i + 1);
            }
            return None;
        };
        value = value * 16 + digit;
        i = i + 1;
    }
    assert(text@.take(length as int) =~= text@);
    Some(value as u16)
}

/// What is no number at its start is no number.
proof fn lemma_hex_prefix(text: Seq<char>, end: int)
    requires
        0 <= end <= text.len(),
        hex_value(text.take(end)) is None,
    ensures
        hex_value(text) is None,
    decreases text.len(),
{
    if end < text.len() {
        assert(text.drop_last().take(end) =~= text.take(end));
        lemma_hex_prefix(text.drop_last(), end);
    } else {
        assert(text.take(end) =~= text);
    }
}

/// The groups of a part of an address, or `None` if one of them is no group.
pub open spec fn hex_groups(text: Seq<char>) -> Option<Seq<nat>> {
    if text.len() == 0 {
        Some(Seq::empty())
    } else {
        let parts = split(text, ':');
        if forall|i: int| 0 <= i < parts.len() ==> hex_group(#[trigger] parts[i]) is Some {
            Some(Seq::new(parts.len(), |i: int| hex_group(parts[i])->0))
        } else {
            None
        }
    }
}

/// The number that groups spell.
pub open spec fn groups_value(groups: Seq<nat>) -> nat
    decreases groups.len(),
{
    if groups.len() == 0 {
        0
    } else {
        groups_value(groups.drop_last()) * 0x1_0000 + groups.last()
    }
}

/// The least index of two colons in a row from `start` on, or the length of the text.
pub open spec fn double_colon(text: Seq<char>, start: int) -> int
    decreases text.len() - start,
{
    if start + 1 >= text.len() {
        text.len() as int
    } else if text[start] == ':' && text[start + 1] == ':' {
        start
    } else {
        double_colon(text, start + 1)
    }
}

/// What a text says as an address of eight groups with colons between them. Two colons in a row,
/// once, stand for the zeroes that are missing.
pub open spec fn parsed_ipv6(text: Seq<char>) -> Option<nat> {
    let gap = double_colon(text, 0);
    if gap == text.len() {
        match hex_groups(text) {
            Some(groups) => if groups.len() == 8 {
                Some(groups_value(groups))
            } else {
                None
            },
            None => None,
        }
    } else {
        match (hex_groups(text.take(gap)), hex_groups(text.skip(gap + 2))) {
            (Some(left), Some(right)) => if left.len() + right.len() < 8 {
                Some(
                    groups_value(
                        left + Seq::new((8 - left.len() - right.len()) as nat, |i: int| 0nat)
                            + right,
                    ),
                )
            } else {
                None
            },
            _ => None,
        }
    }
}

/// Groups as numbers.
pub open spec fn numbers(groups: Seq<u16>) -> Seq<nat> {
    Seq::new(groups.len(), |i: int| groups[i] as nat)
}

fn parse_hex_groups(text: &str) -> (result: Option<Vec<u16>>)
    ensures
        match result {
            Some(groups) => hex_groups(text@) == Some(numbers(groups@)),
            None => hex_groups(text@) is None,
        },
{
    let mut groups: Vec<u16> = Vec::new();
    if text.unicode_len() == 0 {
        assert(numbers(groups@) =~= Seq::empty());
        return Some(groups);
    }
    let parts = split_text(text, ':');
    let ghost all = split(text@, ':');
    let count: usize = parts.len();
    proof {
        assert(views(parts@).len() == count);
        assert forall|i: int| 0 <= i < count implies #[trigger] all[i] == parts@[i]@ by {
            assert(views(parts@)[i] == parts@[i]@);
        }
    }
    let mut i: usize = 0;
    while i < count
        invariant
            i <= count,
            count == parts@.len(),
            count == all.len(),
            text@.len() > 0,
            all == split(text@, ':'),
            forall|k: int| 0 <= k < count ==> #[trigger] all[k] == parts@[k]@,
            groups@.len() == i,
            forall|k: int|
                0 <= k < i ==> hex_group(#[trigger] all[k]) == Some(groups@[k] as nat),
        decreases count - i,
    {
        match parse_hex_group(parts[i]) {
            Some(group) => {
                groups.push(group);
            },
            None => {
                assert(hex_group(all[i as int]) is None);
                return None;
            },
        }
        i = i + 1;
    }
    assert(hex_groups(text@)->0 =~= numbers(groups@));
    Some(groups)
}

/// The first number that takes more than `count` groups to spell.
spec fn groups_limit(count: nat) -> nat
    decreases count,
{
    if count == 0 {
        1
    } else {
        groups_limit((count - 1) as nat) * 0x1_0000
    }
}

fn spell(groups: &Vec<u16>) -> (result: u128)
    requires
        groups@.len() == 8,
    ensures
        result == groups_value(numbers(groups@)),
{
    let mut value: u128 = 0;
    let mut i: usize = 0;
    proof {
        reveal_with_fuel(groups_limit, 9);
        assert(groups_limit(8) == 0x1_0000_0000_0000_0000_0000_0000_0000_0000nat);
        assert(numbers(groups@).take(0) =~= Seq::empty());
    }
    while i < 8
        invariant
            i <= 8,
            groups@.len() == 8,
            value == groups_value(numbers(groups@).take(i as int)),
            value < groups_limit(i as nat),
            groups_limit(8) == 0x1_0000_0000_0000_0000_0000_0000_0000_0000nat,
        decreases 8 - i,
    {
        proof {
            let next = numbers(groups@).take(i + 1);
            assert(next.drop_last() =~= numbers(groups@).take(i as int));
            lemma_groups_limit_grows((i + 1) as nat, 8);
        }
        value = value * 0x1_0000 + groups[i] as u128;
        i = i + 1;
    }
    assert(numbers(groups@).take(8) =~= numbers(groups@));
    value
}

proof fn lemma_groups_limit_grows(a: nat, b: nat)
    requires
        a <= b,
    ensures
        groups_limit(a) <= groups_limit(b),
    decreases b,
{
    if a < b {
        lemma_groups_limit_grows(a, (b - 1) as nat);
    }
}

/// Reads an address of eight groups with colons between them.
pub fn parse_ipv6(text: &str) -> (result: Option<u128>)
    ensures
        match result {
            Some(value) => parsed_ipv6(text@) == Some(value as nat),
            None => parsed_ipv6(text@) is None,
        },
{
    let length: usize = text.unicode_len();
    let mut gap: usize = 0;
    while gap < length && !(gap + 1 < length && text.get_char(gap) == ':' && text.get_char(gap + 1)
        == ':')
        invariant
            gap <= length,
            length == text@.len(),
            double_colon(text@, 0) == double_colon(text@, gap as int),
        decreases length - gap,
    {
        gap = gap + 1;
    }
    if gap == length {
        match parse_hex_groups(text) {
            Some(groups) => if groups.len() == 8 {
                Some(spell(&groups))
            } else {
                None
            },
            None => None,
        }
    } else {
        let left = parse_hex_groups(take(text, gap));
        let right = parse_hex_groups(skip(text, gap + 2));
        match (left, right) {
            (Some(left), Some(right)) => {
                if left.len() >= 8 || right.len() >= 8 - left.len() {
                    return None;
                }
                let mut groups = left;
                let ghost zeroes = Seq::new(
                    (8 - left@.len() - right@.len()) as nat,
                    |i: int| 0nat,
                );
                while groups.len() < 8 - right.len()
                    invariant
                        right@.len() < 8,
                        left@.len() <= groups@.len() <= 8 - right@.len(),
                        forall|i: int|
                            0 <= i < left@.len() ==> #[trigger] groups@[i] == left@[i],
                        forall|i: int|
                            left@.len() <= i < groups@.len() ==> #[trigger] groups@[i] == 0,
                    decreases 8 - right@.len() - groups@.len(),
                {
                    groups.push(0);
                }
                let mut right = right;
                let ghost tail = right@;
                groups.append(&mut right);
                assert(numbers(groups@) =~= numbers(left@) + zeroes + numbers(tail));
                Some(spell(&groups))
            },
            _ => None,
        }
    }
}

/// What a text says as an address: eight groups in brackets, or four numbers.
pub open spec fn parsed_address(text: Seq<char>, port: u16) -> Result<
    SocketAddress,
    ParseAddressesError,
> {
    if text.len() == 0 {
        Err(ParseAddressesError::AddressInvalid)
    } else if text.last() == ':' {
        Err(ParseAddressesError::AddressHasMoreThanOneColon)
    } else if text.len() >= 2 && text[0] == '[' && text.last() == ']' {
        match parsed_ipv6(text.subrange(1, text.len() - 1)) {
            Some(value) => Ok(SocketAddress { ip: IpAddress::V6(value as u128), port }),
            None => Err(ParseAddressesError::AddressInvalid),
        }
    } else {
        match parsed_ipv4(text) {
            Some(value) => Ok(SocketAddress { ip: IpAddress::V4(value as u32), port }),
            None => Err(ParseAddressesError::AddressInvalid),
        }
    }
}

fn parse_address(text: &str, port: u16) -> (result: Result<SocketAddress, ParseAddressesError>)
    ensures
        result == parsed_address(text@, port),
{
    let length: usize = text.unicode_len();
    if length == 0 {
        return Err(ParseAddressesError::AddressInvalid);
    }
    let last = text.get_char(length - 1);
    if last == ':' {
        return Err(ParseAddressesError::AddressHasMoreThanOneColon);
    }
    if length >= 2 && text.get_char(0) == '[' && last == ']' {
        match parse_ipv6(text.substring_char(1, length - 1)) {
            Some(value) => Ok(SocketAddress { ip: IpAddress::V6(value), port }),
            None => Err(ParseAddressesError::AddressInvalid),
        }
    } else {
        match parse_ipv4(text) {
            Some(value) => Ok(SocketAddress { ip: IpAddress::V4(value), port }),
            None => Err(ParseAddressesError::AddressInvalid),
        }
    }
}

/// The greatest index of a colon, a dot or a bracket before `end`, or -1.
pub open spec fn last_mark(text: Seq<char>, end: int) -> int
    decreases end,
{
    if end <= 0 {
        -1
    } else if text[end - 1] == ':' || text[end - 1] == '.' || text[end - 1] == ']' {
        end - 1
    } else {
        last_mark(text, end - 1)
    }
}

/// What a text says as an address and a port, of which one may be missing.
pub open spec fn parsed_address_and_port(text: Seq<char>, port_default: u16) -> Result<
    SocketAddress,
    ParseAddressesError,
> {
    let mark = last_mark(text, text.len() as int);
    let options = ParseIntOptions::spec_lenient();
    if mark < 0 {
        // A port alone.
        match parsed_int(text, options, u16::MAX as nat) {
            Ok(port) => Ok(
                SocketAddress { ip: IpAddress::V4(ADDRESS_DEFAULT), port: port as u16 },
            ),
            Err(ParseIntError::Overflow) => Err(ParseAddressesError::PortInvalid),
            Err(_) => Err(ParseAddressesError::AddressInvalid),
        }
    } else if text[mark] == ':' {
        match parsed_int(text.skip(mark + 1), options, u16::MAX as nat) {
            Ok(port) => parsed_address(text.take(mark), port as u16),
            Err(_) => Err(ParseAddressesError::PortInvalid),
        }
    } else {
        parsed_address(text, port_default)
    }
}

/// Reads an address and a port, of which one may be missing.
pub fn parse_address_and_port(text: &str, port_default: u16) -> (result: Result<
    SocketAddress,
    ParseAddressesError,
>)
    ensures
        result == parsed_address_and_port(text@, port_default),
{
    let length: usize = text.unicode_len();
    let mut end: usize = length;
    while end > 0 && text.get_char(end - 1) != ':' && text.get_char(end - 1) != '.'
        && text.get_char(end - 1) != ']'
        invariant
            end <= length,
            length == text@.len(),
            last_mark(text@, length as int) == last_mark(text@, end as int),
        decreases end,
    {
        end = end - 1;
    }
    let options = ParseIntOptions::lenient();
    if end == 0 {
        match parse_int(text, options, u16::MAX as u128) {
            Ok(port) => Ok(
                SocketAddress { ip: IpAddress::V4(ADDRESS_DEFAULT), port: port as u16 },
            ),
            Err(ParseIntError::Overflow) => Err(ParseAddressesError::PortInvalid),
            Err(_) => Err(ParseAddressesError::AddressInvalid),
        }
    } else if text.get_char(end - 1) == ':' {
        match parse_int(skip(text, end), options, u16::MAX as u128) {
            Ok(port) => parse_address(take(text, end - 1), port as u16),
            Err(_) => Err(ParseAddressesError::PortInvalid),
        }
    } else {
        parse_address(text, port_default)
    }
}

/// The addresses of a cluster, by the index of the replica.
#[derive(Clone, Debug, PartialEq, Eq)]
pub struct ClusterAddress {
    /// Whether the user wrote `0`: any free port will do.
    pub zero: bool,
    pub addresses: Vec<SocketAddress>,
}

/// What a list of addresses says. The first that is wrong decides on the error.
pub open spec fn parsed_addresses(parts: Seq<Seq<char>>) -> Result<
    Seq<SocketAddress>,
    ParseAddressesError,
>
    decreases parts.len(),
{
    if parts.len() == 0 {
        Ok(Seq::empty())
    } else {
        match parsed_addresses(parts.drop_last()) {
            Err(error) => Err(error),
            Ok(addresses) => if parts.last().len() == 0 {
                Err(ParseAddressesError::AddressHasTrailingComma)
            } else {
                match parsed_address_and_port(parts.last(), PORT_DEFAULT) {
                    Ok(address) => Ok(addresses.push(address)),
                    Err(error) => Err(error),
                }
            },
        }
    }
}

/// What a text says as the addresses of a cluster.
pub open spec fn parsed_cluster(text: Seq<char>) -> Result<
    Seq<SocketAddress>,
    ParseAddressesError,
> {
    let parts = split(text, ',');
    if parts.len() > MEMBERS_MAX {
        Err(ParseAddressesError::AddressLimitExceeded)
    } else {
        parsed_addresses(parts)
    }
}

/// An error is not mended by what follows.
proof fn lemma_addresses_error(parts: Seq<Seq<char>>, end: int)
    requires
        0 <= end <= parts.len(),
        parsed_addresses(parts.take(end)) is Err,
    ensures
        parsed_addresses(parts) == parsed_addresses(parts.take(end)),
    decreases parts.len(),
{
    if end < parts.len() {
        assert(parts.drop_last().take(end) =~= parts.take(end));
        lemma_addresses_error(parts.drop_last(), end);
    } else {
        assert(parts.take(end) =~= parts);
    }
}

impl ClusterAddress {
    /// How many members the cluster has.
    #[must_use]
    pub fn members_count(&self) -> (result: usize)
        ensures
            result == self.addresses@.len(),
    {
        self.addresses.len()
    }

    /// The same addresses.
    #[must_use]
    pub fn copy(&self) -> (result: ClusterAddress)
        ensures
            result.zero == self.zero,
            result.addresses@ == self.addresses@,
    {
        let addresses = vstd::slice::slice_to_vec(self.addresses.as_slice());
        ClusterAddress { zero: self.zero, addresses }
    }

    /// Reads the addresses of a cluster.
    pub fn parse_flag_value(text: &str) -> (result: Result<ClusterAddress, ParseAddressesError>)
        ensures
            match result {
                Ok(cluster) => parsed_cluster(text@) == Ok::<
                    Seq<SocketAddress>,
                    ParseAddressesError,
                >(cluster.addresses@) && cluster.zero == (text@ == "0"@),
                Err(error) => parsed_cluster(text@) == Err::<
                    Seq<SocketAddress>,
                    ParseAddressesError,
                >(error),
            },
    {
        let parts = split_text(text, ',');
        let ghost all = split(text@, ',');
        let count: usize = parts.len();
        proof {
            assert(views(parts@).len() == count);
        }
        if count > MEMBERS_MAX {
            return Err(ParseAddressesError::AddressLimitExceeded);
        }
        let mut addresses: Vec<SocketAddress> = Vec::new();
        let mut i: usize = 0;
        assert(all.take(0) =~= Seq::empty());
        while i < count
            invariant
                i <= count,
                count == parts@.len(),
                count <= MEMBERS_MAX,
                all == split(text@, ','),
                all == views(parts@),
                parsed_addresses(all.take(i as int)) == Ok::<
                    Seq<SocketAddress>,
                    ParseAddressesError,
                >(addresses@),
            decreases count - i,
        {
            let ghost next = all.take(i + 1);
            proof {
                assert(next.drop_last() =~= all.take(i as int));
                assert(next.last() == parts@[i as int]@);
            }
            if parts[i].unicode_len() == 0 {
                proof {
                    lemma_addresses_error(all, i + 1);
                }
                return Err(ParseAddressesError::AddressHasTrailingComma);
            }
            match parse_address_and_port(parts[i], PORT_DEFAULT) {
                Ok(address) => {
                    addresses.push(address);
                },
                Err(error) => {
                    proof {
                        lemma_addresses_error(all, i + 1);
                    }
                    return Err(error);
                },
            }
            i = i + 1;
        }
        assert(all.take(count as int) =~= all);
        Ok(ClusterAddress { zero: same(text, "0"), addresses })
    }
}

/// The addresses of a cluster are those between the commas: as many, in their order, each read as an
/// address and a port of its own. They are read unless there are too many, or one of them is no
/// address.
pub proof fn law_addresses_follow_the_list(parts: Seq<Seq<char>>)
    requires
        parts.len() > 0,
        are_parts(parts, ','),
    ensures
        match parsed_cluster(joined(parts, ',')) {
            Ok(addresses) => {
                &&& addresses.len() == parts.len() <= 12
                &&& forall|i: int|
                    0 <= i < parts.len() ==> {
                        &&& (#[trigger] parts[i]).len() > 0
                        &&& parsed_address_and_port(parts[i], 3000) == Ok::<
                            SocketAddress,
                            ParseAddressesError,
                        >(addresses[i])
                    }
            },
            Err(error) => {
                ||| parts.len() > 12
                ||| exists|i: int|
                    0 <= i < parts.len() && ((#[trigger] parts[i]).len() == 0
                        || parsed_address_and_port(parts[i], 3000) is Err)
            },
        },
{
    law_split_gives_the_parts(parts, ',');
    lemma_addresses_each(parts);
}

proof fn lemma_addresses_each(parts: Seq<Seq<char>>)
    ensures
        match parsed_addresses(parts) {
            Ok(addresses) => {
                &&& addresses.len() == parts.len()
                &&& forall|i: int|
                    0 <= i < parts.len() ==> {
                        &&& (#[trigger] parts[i]).len() > 0
                        &&& parsed_address_and_port(parts[i], 3000) == Ok::<
                            SocketAddress,
                            ParseAddressesError,
                        >(addresses[i])
                    }
            },
            Err(_) => exists|i: int|
                0 <= i < parts.len() && ((#[trigger] parts[i]).len() == 0
                    || parsed_address_and_port(parts[i], 3000) is Err),
        },
    decreases parts.len(),
{
    if parts.len() > 0 {
        let front = parts.drop_last();
        lemma_addresses_each(front);
        match parsed_addresses(front) {
            Ok(addresses) => {
                assert forall|i: int| 0 <= i < front.len() implies (#[trigger] parts[i]).len() > 0
                    && parsed_address_and_port(parts[i], 3000) == Ok::<
                    SocketAddress,
                    ParseAddressesError,
                >(addresses[i]) by {
                    assert(parts[i] == front[i]);
                }
                assert(parts[parts.len() - 1] == parts.last());
            },
            Err(_) => {
                let i = choose|i: int|
                    0 <= i < front.len() && ((#[trigger] front[i]).len() == 0
                        || parsed_address_and_port(front[i], 3000) is Err);
                assert(parts[i] == front[i]);
            },
        }
    }
}

/// A number alone is a port of this machine.
pub proof fn law_ports_are_read(digits: Seq<char>, port_default: u16)
    requires
        is_amount(digits),
        int_value(digits) <= 65_535,
    ensures
        parsed_address_and_port(digits, port_default) == Ok::<SocketAddress, ParseAddressesError>(
            SocketAddress { ip: IpAddress::V4(0x7f00_0001), port: int_value(digits) as u16 },
        ),
{
    lemma_no_mark(digits, digits.len() as int);
    assert(is_digit(digits[0]));
    assert(is_int(digits, ParseIntOptions::spec_lenient()));
}

proof fn lemma_no_mark(text: Seq<char>, end: int)
    requires
        0 <= end <= text.len(),
        forall|i: int| 0 <= i < end ==> '0' <= #[trigger] text[i] <= '9',
    ensures
        last_mark(text, end) == -1,
    decreases end,
{
    if end > 0 {
        assert('0' <= text[end - 1] <= '9');
        lemma_no_mark(text, end - 1);
    }
}

/// The last mark is where only digits follow it.
proof fn lemma_last_mark(text: Seq<char>, mark: int, end: int)
    requires
        0 <= mark < end <= text.len(),
        text[mark] == ':' || text[mark] == '.' || text[mark] == ']',
        forall|i: int| mark < i < end ==> '0' <= #[trigger] text[i] <= '9',
    ensures
        last_mark(text, end) == mark,
    decreases end,
{
    if mark < end - 1 {
        assert('0' <= text[end - 1] <= '9');
        lemma_last_mark(text, mark, end - 1);
    }
}

/// Numbers with dots between them.
pub open spec fn dotted(a: Seq<char>, b: Seq<char>, c: Seq<char>, d: Seq<char>) -> Seq<char> {
    a + seq!['.'] + b + seq!['.'] + c + seq!['.'] + d
}

/// One of the numbers of an address.
pub open spec fn is_octet(text: Seq<char>) -> bool {
    is_amount(text) && int_value(text) <= 255
}

/// Four numbers with dots between them are an address, the most significant first. After a colon
/// comes the port.
#[verifier::rlimit(40)]
pub proof fn law_dotted_addresses_are_read(
    a: Seq<char>,
    b: Seq<char>,
    c: Seq<char>,
    d: Seq<char>,
    port: Seq<char>,
    port_default: u16,
)
    requires
        is_octet(a),
        is_octet(b),
        is_octet(c),
        is_octet(d),
        is_amount(port),
        int_value(port) <= 65_535,
    ensures
        ({
            let ip = IpAddress::V4(
                (((int_value(a) * 256 + int_value(b)) * 256 + int_value(c)) * 256 + int_value(
                    d,
                )) as u32,
            );
            let text = dotted(a, b, c, d);
            &&& parsed_address_and_port(text, port_default) == Ok::<
                SocketAddress,
                ParseAddressesError,
            >(SocketAddress { ip, port: port_default })
            &&& parsed_address_and_port(text + seq![':'] + port, port_default) == Ok::<
                SocketAddress,
                ParseAddressesError,
            >(SocketAddress { ip, port: int_value(port) as u16 })
        }),
{
    let text = dotted(a, b, c, d);
    let parts = seq![a, b, c, d];
    reveal_with_fuel(joined, 5);
    assert(parts.drop_last() =~= seq![a, b, c]);
    assert(parts.drop_last().drop_last() =~= seq![a, b]);
    assert(parts.drop_last().drop_last().drop_last() =~= seq![a]);
    assert(joined(parts, '.') =~= text);
    assert forall|i: int, k: int| 0 <= i < parts.len() && 0 <= k < parts[i].len() implies
        #[trigger] parts[i][k] != '.' by {
        assert(is_octet(parts[i]));
        assert('0' <= parts[i][k] <= '9');
    }
    law_split_gives_the_parts(parts, '.');
    assert forall|part: Seq<char>| #[trigger] is_octet(part) implies octet(part) == Some(
        int_value(part),
    ) by {
        assert(is_digit(part[0]));
        assert(is_int(part, spec_octet_options()));
    }
    assert(is_octet(a) && is_octet(b) && is_octet(c) && is_octet(d));
    let dot = (a.len() + 1 + b.len() + 1 + c.len()) as int;
    assert(text[dot] == '.');
    assert forall|i: int| dot < i < text.len() implies '0' <= #[trigger] text[i] <= '9' by {
        assert(text[i] == d[i - dot - 1]);
    }
    lemma_last_mark(text, dot, text.len() as int);
    assert(text[text.len() - 1] == d[d.len() - 1]);
    assert('0' <= d[d.len() - 1] <= '9');
    assert(text[0] == a[0]);
    assert('0' <= a[0] <= '9');
    lemma_port_follows(text, port, port_default);
}

/// A hexadecimal digit at the end makes a number sixteen times as large, and adds what it stands
/// for.
pub proof fn law_hexadecimal_digits_denote(text: Seq<char>, c: char)
    requires
        hex_value(text) is Some,
    ensures
        hex_value(Seq::empty()) == Some(0nat),
        hex_value(text.push(c)) == if '0' <= c <= '9' {
            Some((16 * hex_value(text)->0 + (c as int - 48)) as nat)
        } else if 'a' <= c <= 'f' {
            Some((16 * hex_value(text)->0 + (c as int - 87)) as nat)
        } else if 'A' <= c <= 'F' {
            Some((16 * hex_value(text)->0 + (c as int - 55)) as nat)
        } else {
            None
        },
{
    assert(text.push(c).drop_last() =~= text);
}

/// Up to four hexadecimal digits.
pub open spec fn is_group(text: Seq<char>) -> bool {
    1 <= text.len() <= 4 && hex_value(text) is Some
}

/// The number that groups spell, the most significant first.
pub open spec fn spelled(groups: Seq<Seq<char>>) -> nat
    decreases groups.len(),
{
    if groups.len() == 0 {
        0
    } else {
        spelled(groups.drop_last()) * 65_536 + hex_value(groups.last())->0
    }
}

/// Eight groups with colons between them are an address. Two colons in a row stand for groups of
/// zeroes.
pub proof fn law_groups_are_read(left: Seq<Seq<char>>, right: Seq<Seq<char>>, zeroes: nat)
    requires
        forall|i: int| 0 <= i < left.len() ==> is_group(#[trigger] left[i]),
        forall|i: int| 0 <= i < right.len() ==> is_group(#[trigger] right[i]),
        left.len() + zeroes + right.len() == 8,
    ensures
        zeroes == 0 ==> parsed_ipv6(joined(left + right, ':')) == Some(spelled(left + right)),
        zeroes > 0 ==> parsed_ipv6(joined(left, ':') + seq![':', ':'] + joined(right, ':'))
            == Some(spelled(left + Seq::new(zeroes, |i: int| seq!['0']) + right)),
{
    if zeroes == 0 {
        let all = left + right;
        assert forall|i: int| 0 <= i < all.len() implies is_group(#[trigger] all[i]) by {
            if i < left.len() {
                assert(all[i] == left[i]);
            } else {
                assert(all[i] == right[i - left.len()]);
            }
        }
        let text = joined(all, ':');
        lemma_groups_text(all);
        lemma_no_double_colon(text, 0);
        lemma_groups(all);
        lemma_spelled(all);
    } else {
        let l = joined(left, ':');
        let r = joined(right, ':');
        let text = l + seq![':', ':'] + r;
        let gap = l.len() as int;
        lemma_groups_text(left);
        lemma_groups_text(right);
        lemma_first_double_colon(text, 0, gap);
        assert(text.take(gap) =~= l);
        assert(text.skip(gap + 2) =~= r);
        lemma_groups(left);
        lemma_groups(right);
        let blank = Seq::new(zeroes, |i: int| seq!['0']);
        let all = left + blank + right;
        assert(hex_value(seq!['0']) == Some(0nat)) by {
            law_hexadecimal_digits_denote(Seq::empty(), '0');
            assert(Seq::empty().push('0') =~= seq!['0']);
        }
        lemma_spelled(all);
        let values = Seq::new(all.len(), |i: int| hex_value(all[i])->0);
        assert(values =~= hex_groups(l)->0 + Seq::new(zeroes, |i: int| 0nat) + hex_groups(r)->0);
        assert(zeroes == (8 - left.len() - right.len()) as nat);
    }
}

/// The number that groups spell is that of their values.
proof fn lemma_spelled(groups: Seq<Seq<char>>)
    ensures
        spelled(groups) == groups_value(
            Seq::new(groups.len(), |i: int| hex_value(groups[i])->0),
        ),
    decreases groups.len(),
{
    if groups.len() > 0 {
        let front = groups.drop_last();
        lemma_spelled(front);
        let values = Seq::new(groups.len(), |i: int| hex_value(groups[i])->0);
        assert(values.drop_last() =~= Seq::new(front.len(), |i: int| hex_value(front[i])->0));
    }
}

/// Groups with colons between them are read as those groups.
proof fn lemma_groups(groups: Seq<Seq<char>>)
    requires
        forall|i: int| 0 <= i < groups.len() ==> is_group(#[trigger] groups[i]),
    ensures
        hex_groups(joined(groups, ':')) == Some(
            Seq::new(groups.len(), |i: int| hex_value(groups[i])->0),
        ),
{
    let values = Seq::new(groups.len(), |i: int| hex_value(groups[i])->0);
    if groups.len() == 0 {
        assert(values =~= Seq::empty());
    } else {
        lemma_groups_text(groups);
        assert forall|i: int, k: int| 0 <= i < groups.len() && 0 <= k < groups[i].len() implies
            #[trigger] groups[i][k] != ':' by {
            assert(is_group(groups[i]));
            lemma_hex_digits(groups[i], k);
        }
        law_split_gives_the_parts(groups, ':');
        assert forall|i: int| 0 <= i < groups.len() implies hex_group(#[trigger] groups[i])
            is Some by {
            assert(is_group(groups[i]));
        }
        assert(hex_groups(joined(groups, ':'))->0 =~= values);
    }
}

/// What is read as a number holds digits only.
proof fn lemma_hex_digits(text: Seq<char>, k: int)
    requires
        hex_value(text) is Some,
        0 <= k < text.len(),
    ensures
        hex_digit(text[k]) is Some,
    decreases text.len(),
{
    if k < text.len() - 1 {
        assert(text.drop_last()[k] == text[k]);
        lemma_hex_digits(text.drop_last(), k);
    }
}

/// The text has no two colons in a row, nor one at its start or its end.
spec fn has_single_colons(text: Seq<char>) -> bool {
    &&& text.len() > 0 ==> text[0] != ':' && text[text.len() - 1] != ':'
    &&& forall|i: int| 0 <= i < text.len() - 1 && #[trigger] text[i] == ':' ==> text[i + 1] != ':'
}

proof fn lemma_groups_text(groups: Seq<Seq<char>>)
    requires
        forall|i: int| 0 <= i < groups.len() ==> is_group(#[trigger] groups[i]),
    ensures
        has_single_colons(joined(groups, ':')),
        groups.len() > 0 ==> joined(groups, ':').len() > 0,
    decreases groups.len(),
{
    if groups.len() > 0 {
        let last = groups.last();
        assert(is_group(groups[groups.len() - 1]));
        assert forall|k: int| 0 <= k < last.len() implies #[trigger] last[k] != ':' by {
            lemma_hex_digits(last, k);
        }
        if groups.len() > 1 {
            let front = groups.drop_last();
            assert forall|i: int| 0 <= i < front.len() implies is_group(#[trigger] front[i]) by {
                assert(front[i] == groups[i]);
            }
            lemma_groups_text(front);
            let start = joined(front, ':');
            let text = start + seq![':'] + last;
            assert(text[0] == start[0]);
            assert(text[text.len() - 1] == last[last.len() - 1]);
            assert forall|i: int|
                0 <= i < text.len() - 1 && #[trigger] text[i] == ':' implies text[i + 1] != ':' by {
                if i < start.len() - 1 {
                    assert(start[i] == ':');
                    assert(text[i + 1] == start[i + 1]);
                } else if i == start.len() - 1 {
                    assert(text[i] == start[start.len() - 1]);
                } else if i == start.len() {
                    assert(text[i + 1] == last[0]);
                } else {
                    assert(text[i] == last[i - start.len() - 1]);
                }
            }
        }
    }
}

proof fn lemma_no_double_colon(text: Seq<char>, start: int)
    requires
        has_single_colons(text),
        0 <= start,
    ensures
        double_colon(text, start) == text.len(),
    decreases text.len() - start,
{
    if start + 1 < text.len() {
        lemma_no_double_colon(text, start + 1);
    }
}

proof fn lemma_first_double_colon(text: Seq<char>, start: int, gap: int)
    requires
        0 <= start <= gap,
        gap + 1 < text.len(),
        text[gap] == ':',
        text[gap + 1] == ':',
        has_single_colons(text.take(gap)),
    ensures
        double_colon(text, start) == gap,
    decreases gap - start,
{
    if start < gap {
        let before = text.take(gap);
        assert(before[start] == text[start]);
        if start + 1 < gap {
            assert(before[start + 1] == text[start + 1]);
        } else {
            assert(before[before.len() - 1] != ':');
        }
        lemma_first_double_colon(text, start + 1, gap);
    }
}

/// An address, a colon and digits are the address with that port.
proof fn lemma_port_follows(text: Seq<char>, port: Seq<char>, port_default: u16)
    requires
        is_amount(port),
        int_value(port) <= 65_535,
    ensures
        parsed_address_and_port(text + seq![':'] + port, port_default) == parsed_address(
            text,
            int_value(port) as u16,
        ),
{
    let whole = text + seq![':'] + port;
    let colon = text.len() as int;
    assert forall|i: int| colon < i < whole.len() implies '0' <= #[trigger] whole[i] <= '9' by {
        assert(whole[i] == port[i - colon - 1]);
    }
    lemma_last_mark(whole, colon, whole.len() as int);
    assert(whole.take(colon) =~= text);
    assert(whole.skip(colon + 1) =~= port);
    assert(is_digit(port[0]));
    assert(is_int(port, ParseIntOptions::spec_lenient()));
}

/// What stands in brackets is read as groups.
proof fn lemma_brackets(text: Seq<char>, ip: u128, port: u16)
    requires
        parsed_ipv6(text) == Some(ip as nat),
    ensures
        parsed_address(seq!['['] + text + seq![']'], port) == Ok::<
            SocketAddress,
            ParseAddressesError,
        >(SocketAddress { ip: IpAddress::V6(ip), port }),
{
    let bracketed = seq!['['] + text + seq![']'];
    assert(bracketed.last() == ']');
    assert(bracketed[0] == '[');
    assert(bracketed.subrange(1, bracketed.len() - 1) =~= text);
}

/// Eight groups in brackets are an address. After a colon comes the port.
pub proof fn law_bracketed_addresses_are_read(
    text: Seq<char>,
    ip: u128,
    port: Seq<char>,
    port_default: u16,
)
    requires
        parsed_ipv6(text) == Some(ip as nat),
        is_amount(port),
        int_value(port) <= 65_535,
    ensures
        parsed_address_and_port(seq!['['] + text + seq![']'], port_default) == Ok::<
            SocketAddress,
            ParseAddressesError,
        >(SocketAddress { ip: IpAddress::V6(ip), port: port_default }),
        parsed_address_and_port(seq!['['] + text + seq![']', ':'] + port, port_default) == Ok::<
            SocketAddress,
            ParseAddressesError,
        >(SocketAddress { ip: IpAddress::V6(ip), port: int_value(port) as u16 }),
{
    let bracketed = seq!['['] + text + seq![']'];
    let n = bracketed.len() as int;
    lemma_brackets(text, ip, port_default);
    lemma_brackets(text, ip, int_value(port) as u16);
    lemma_last_mark(bracketed, n - 1, n);
    lemma_port_follows(bracketed, port, port_default);
    assert(seq!['['] + text + seq![']', ':'] + port =~= bracketed + seq![':'] + port);
}

/// The first part that is no address tells what is wrong: too many addresses go first, and an empty
/// part is a comma too many.
pub proof fn law_first_wrong_address_is_told(parts: Seq<Seq<char>>, i: int)
    requires
        are_parts(parts, ','),
        0 <= i < parts.len(),
        forall|k: int|
            0 <= k < i ==> (#[trigger] parts[k]).len() > 0 && parsed_address_and_port(
                parts[k],
                3000,
            ) is Ok,
        parts[i].len() == 0 || parsed_address_and_port(parts[i], 3000) is Err,
    ensures
        parsed_cluster(joined(parts, ',')) == Err::<Seq<SocketAddress>, ParseAddressesError>(
            if parts.len() > 12 {
                ParseAddressesError::AddressLimitExceeded
            } else if parts[i].len() == 0 {
                ParseAddressesError::AddressHasTrailingComma
            } else {
                parsed_address_and_port(parts[i], 3000)->Err_0
            },
        ),
{
    law_split_gives_the_parts(parts, ',');
    let before = parts.take(i);
    let first = parts.take(i + 1);
    lemma_addresses_each(before);
    assert(first.drop_last() =~= before);
    assert(first.last() == parts[i]);
    if parsed_addresses(before) is Err {
        let k = choose|k: int|
            0 <= k < before.len() && ((#[trigger] before[k]).len() == 0
                || parsed_address_and_port(before[k], 3000) is Err);
        assert(parts[k] == before[k]);
    }
    lemma_addresses_error(parts, i + 1);
}

} // verus!
