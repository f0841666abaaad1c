//! The command that runs a replica.

use crate::cli::command::{cluster_meaning, optional_text, CommandStart};
use crate::cli::flags::{
    arguments, parse_flags, scanned, texts, Named, NamedKind, ParsedFlags, Scan,
};
use crate::cli::number::{exact_size, exact_size_text, ByteSize};
use crate::cli::text::{
    byte_length, decimal, decimal_text, ends_in, ends_with, join2, join3, join5, length_in_bytes,
};
use crate::constants::{
    ACCOUNT_SIZE, BLOCK_ADDRESS_SIZE, BLOCK_SIZE, CACHE_ACCOUNTS_SIZE_DEFAULT, CACHE_LINE_SIZE,
    CACHE_TRANSFERS_PENDING_SIZE_DEFAULT, CACHE_TRANSFERS_SIZE_DEFAULT, CLIENTS_MAX,
    COMPACTION_BLOCK_MEMORY_SIZE_MAX, DATA_FILE_SIZE_MIN, GRID_CACHE_SIZE_DEFAULT,
    LSM_COMPACTION_IOPS_WRITE_MAX, LSM_COMPACTION_QUEUE_READ_MAX,
    LSM_MANIFEST_MEMORY_SIZE_DEFAULT, LSM_MANIFEST_MEMORY_SIZE_MAX,
    LSM_MANIFEST_MEMORY_SIZE_MIN, LSM_MANIFEST_MEMORY_SIZE_MULTIPLIER, LSM_MANIFEST_NODE_SIZE,
    MESSAGE_SIZE_MAX, PIPELINE_PREPARE_QUEUE_MAX, PIPELINE_REQUEST_QUEUE_MAX, SECTOR_SIZE,
    STORAGE_SIZE_LIMIT_DEFAULT, STORAGE_SIZE_LIMIT_MAX, TICK_MS, TRANSFER_PENDING_SIZE,
    TRANSFER_SIZE,
};
use crate::set_associative_cache::{spec_value_count_multiple, value_count_multiple};
use vstd::prelude::*;

verus! {

/// The bytes of the longest path.
pub const PATH_MAX_BYTES: usize = 4096;

/// The least size of a request.
pub const REQUEST_SIZE_LIMIT_MIN: u64 = 4096;

/// The blocks that a compaction takes at least: an index and a value block of the table that it
/// writes, the index blocks of three tables that it reads, and the value blocks that it reads
/// ahead.
pub const LSM_COMPACTION_BLOCK_COUNT_MIN: u64 = 5 + LSM_COMPACTION_QUEUE_READ_MAX as u64;

/// The ways of a set, in every cache.
pub const CACHE_WAYS: u64 = 16;

/// The bits of a count, in every cache.
pub const CACHE_CLOCK_BITS: u64 = 2;

pub open spec fn spec_start_flags() -> Seq<Named> {
    seq![
        Named { flag: "--timeout-grid-repair-message-ms", kind: NamedKind::U64 },
        Named { flag: "--commit-stall-multiple-max", kind: NamedKind::U16 },
        Named { flag: "--commit-stall-probability", kind: NamedKind::Ratio },
        Named { flag: "--commit-stall-lag-max", kind: NamedKind::U32 },
        Named { flag: "--commit-stall-lag-min", kind: NamedKind::U32 },
        Named { flag: "--timeout-prepare-ms", kind: NamedKind::U64 },
        Named { flag: "--limit-pipeline-requests", kind: NamedKind::U32 },
        Named { flag: "--cache-transfers-pending", kind: NamedKind::Size },
        Named { flag: "--memory-lsm-compaction", kind: NamedKind::Size },
        Named { flag: "--memory-lsm-manifest", kind: NamedKind::Size },
        Named { flag: "--aof-recovery", kind: NamedKind::Bool },
        Named { flag: "--aof-file", kind: NamedKind::Text },
        Named { flag: "--cache-transfers", kind: NamedKind::Size },
        Named { flag: "--cache-accounts", kind: NamedKind::Size },
        Named { flag: "--limit-request", kind: NamedKind::Size },
        Named { flag: "--limit-storage", kind: NamedKind::Size },
        Named { flag: "--cache-grid", kind: NamedKind::Size },
        Named { flag: "--replicate-star", kind: NamedKind::Bool },
        Named { flag: "--experimental", kind: NamedKind::Bool },
        Named { flag: "--development", kind: NamedKind::Bool },
        Named { flag: "--log-trace", kind: NamedKind::Bool },
        Named { flag: "--log-debug", kind: NamedKind::Bool },
        Named { flag: "--addresses", kind: NamedKind::Cluster },
        Named { flag: "--memory", kind: NamedKind::Size },
        Named { flag: "--trace", kind: NamedKind::Text },
        Named { flag: "--statsd", kind: NamedKind::Socket { default_port: 8125 } },
        Named { flag: "--aof", kind: NamedKind::Bool },
    ]
}

fn start_flags() -> (result: Vec<Named>)
    ensures
        result@ == spec_start_flags(),
{
    let mut flags: Vec<Named> = Vec::new();
    flags.push(Named { flag: "--timeout-grid-repair-message-ms", kind: NamedKind::U64 });
    flags.push(Named { flag: "--commit-stall-multiple-max", kind: NamedKind::U16 });
    flags.push(Named { flag: "--commit-stall-probability", kind: NamedKind::Ratio });
    flags.push(Named { flag: "--commit-stall-lag-max", kind: NamedKind::U32 });
    flags.push(Named { flag: "--commit-stall-lag-min", kind: NamedKind::U32 });
    flags.push(Named { flag: "--timeout-prepare-ms", kind: NamedKind::U64 });
    flags.push(Named { flag: "--limit-pipeline-requests", kind: NamedKind::U32 });
    flags.push(Named { flag: "--cache-transfers-pending", kind: NamedKind::Size });
    flags.push(Named { flag: "--memory-lsm-compaction", kind: NamedKind::Size });
    flags.push(Named { flag: "--memory-lsm-manifest", kind: NamedKind::Size });
    flags.push(Named { flag: "--aof-recovery", kind: NamedKind::Bool });
    flags.push(Named { flag: "--aof-file", kind: NamedKind::Text });
    flags.push(Named { flag: "--cache-transfers", kind: NamedKind::Size });
    flags.push(Named { flag: "--cache-accounts", kind: NamedKind::Size });
    flags.push(Named { flag: "--limit-request", kind: NamedKind::Size });
    flags.push(Named { flag: "--limit-storage", kind: NamedKind::Size });
    flags.push(Named { flag: "--cache-grid", kind: NamedKind::Size });
    flags.push(Named { flag: "--replicate-star", kind: NamedKind::Bool });
    flags.push(Named { flag: "--experimental", kind: NamedKind::Bool });
    flags.push(Named { flag: "--development", kind: NamedKind::Bool });
    flags.push(Named { flag: "--log-trace", kind: NamedKind::Bool });
    flags.push(Named { flag: "--log-debug", kind: NamedKind::Bool });
    flags.push(Named { flag: "--addresses", kind: NamedKind::Cluster });
    flags.push(Named { flag: "--memory", kind: NamedKind::Size });
    flags.push(Named { flag: "--trace", kind: NamedKind::Text });
    flags.push(Named { flag: "--statsd", kind: NamedKind::Socket { default_port: 8125 } });
    flags.push(Named { flag: "--aof", kind: NamedKind::Bool });
    assert(flags@ =~= spec_start_flags());
    flags
}

/// One message, or else another.
pub open spec fn or_else(a: Option<Seq<char>>, b: Option<Seq<char>>) -> Option<Seq<char>> {
    if a is Some {
        a
    } else {
        b
    }
}

/// The flags that take `--experimental`.
pub open spec fn spec_experimental_flags() -> Seq<Seq<char>> {
    seq![
        "--limit-storage"@,
        "--limit-pipeline-requests"@,
        "--limit-request"@,
        "--memory"@,
        "--cache-accounts"@,
        "--cache-transfers"@,
        "--cache-transfers-pending"@,
        "--memory-lsm-manifest"@,
        "--memory-lsm-compaction"@,
        "--trace"@,
        "--log-debug"@,
        "--log-trace"@,
        "--timeout-prepare-ms"@,
        "--timeout-grid-repair-message-ms"@,
        "--commit-stall-probability"@,
        "--commit-stall-lag-min"@,
        "--commit-stall-lag-max"@,
        "--commit-stall-multiple-max"@,
        "--replicate-star"@,
        "--aof-file"@,
        "--aof"@,
        "--aof-recovery"@,
        "--statsd"@,
    ]
}

fn experimental_flags() -> (result: Vec<&'static str>)
    ensures
        texts(result@) == spec_experimental_flags(),
{
    let mut flags: Vec<&'static str> = Vec::new();
    flags.push("--limit-storage");
    flags.push("--limit-pipeline-requests");
    flags.push("--limit-request");
    flags.push("--memory");
    flags.push("--cache-accounts");
    flags.push("--cache-transfers");
    flags.push("--cache-transfers-pending");
    flags.push("--memory-lsm-manifest");
    flags.push("--memory-lsm-compaction");
    flags.push("--trace");
    flags.push("--log-debug");
    flags.push("--log-trace");
    flags.push("--timeout-prepare-ms");
    flags.push("--timeout-grid-repair-message-ms");
    flags.push("--commit-stall-probability");
    flags.push("--commit-stall-lag-min");
    flags.push("--commit-stall-lag-max");
    flags.push("--commit-stall-multiple-max");
    flags.push("--replicate-star");
    flags.push("--aof-file");
    flags.push("--aof");
    flags.push("--aof-recovery");
    flags.push("--statsd");
    assert(texts(flags@) =~= spec_experimental_flags());
    flags
}

/// The flags that `--memory` stands in for.
pub open spec fn spec_memory_exclusive_flags() -> Seq<Seq<char>> {
    seq![
        "--cache-grid"@,
        "--cache-accounts"@,
        "--cache-transfers"@,
        "--cache-transfers-pending"@,
    ]
}

fn memory_exclusive_flags() -> (result: Vec<&'static str>)
    ensures
        texts(result@) == spec_memory_exclusive_flags(),
{
    let mut flags: Vec<&'static str> = Vec::new();
    flags.push("--cache-grid");
    flags.push("--cache-accounts");
    flags.push("--cache-transfers");
    flags.push("--cache-transfers-pending");
    assert(texts(flags@) =~= spec_memory_exclusive_flags());
    flags
}

/// The index of the first of the flags from `start` on that is set.
pub open spec fn first_set(scan: Scan, flags: Seq<Seq<char>>, start: int) -> int
    decreases flags.len() - start,
{
    if start >= flags.len() || scan.is_set(flags[start]) {
        start
    } else {
        first_set(scan, flags, start + 1)
    }
}

fn find_set(flags: &ParsedFlags, list: &Vec<&'static str>) -> (result: Option<&'static str>)
    ensures
        ({
            let first = first_set(flags.scan(), texts(list@), 0);
            match result {
                Some(flag) => first < list@.len() && flag@ == texts(list@)[first],
                None => first == list@.len(),
            }
        }),
{
    let count: usize = list.len();
    let mut i: usize = 0;
    while i < count
        invariant
            i <= count,
            count == list@.len(),
            first_set(flags.scan(), texts(list@), 0) == first_set(
                flags.scan(),
                texts(list@),
                i as int,
            ),
        decreases count - i,
    {
        if flags.is_set(list[i]) {
            return Some(list[i]);
        }
        i = i + 1;
    }
    None
}

/// An experimental flag without `--experimental`.
pub open spec fn experimental_error(scan: Scan) -> Option<Seq<char>> {
    let list = spec_experimental_flags();
    let first = first_set(scan, list, 0);
    if !scan.bool("--experimental"@) && first < list.len() {
        Some(list[first] + " is marked experimental, add `--experimental` to continue."@)
    } else {
        None
    }
}

/// `--memory` together with a flag that it stands in for.
pub open spec fn memory_error(scan: Scan) -> Option<Seq<char>> {
    let list = spec_memory_exclusive_flags();
    let first = first_set(scan, list, 0);
    if scan.size("--memory"@) is Some && first < list.len() {
        Some("--memory is mutually exclusive with "@ + list[first])
    } else {
        None
    }
}

fn check_experimental(flags: &ParsedFlags) -> (result: Result<(), String>)
    ensures
        match result {
            Ok(_) => experimental_error(flags.scan()) is None,
            Err(message) => experimental_error(flags.scan()) == Some(message@),
        },
{
    if !flags.bool("--experimental") {
        if let Some(flag) = find_set(flags, &experimental_flags()) {
            return Err(
                join2(flag, " is marked experimental, add `--experimental` to continue."),
            );
        }
    }
    Ok(())
}

fn check_memory(flags: &ParsedFlags) -> (result: Result<(), String>)
    requires
        flags.wf(),
    ensures
        match result {
            Ok(_) => memory_error(flags.scan()) is None,
            Err(message) => memory_error(flags.scan()) == Some(message@),
        },
{
    if flags.size("--memory").is_some() {
        if let Some(flag) = find_set(flags, &memory_exclusive_flags()) {
            return Err(join2("--memory is mutually exclusive with ", flag));
        }
    }
    Ok(())
}

/// A message on a size.
pub open spec fn size_message(
    flag: Seq<char>,
    size: ByteSize,
    text: Seq<char>,
    bound: nat,
) -> Seq<char> {
    flag + ": size "@ + decimal(size.value as nat) + size.unit.spec_suffix() + text + exact_size(
        bound,
    )
}

fn size_message_text(flag: &str, size: ByteSize, text: &str, bound: u64) -> (result: String)
    ensures
        result@ == size_message(flag@, size, text@, bound as nat),
{
    let mut message = join5(
        flag,
        ": size ",
        decimal_text(size.value as u128).as_str(),
        size.suffix(),
        text,
    );
    message.append(exact_size_text(bound).as_str());
    message
}

/// A size out of bounds.
pub open spec fn bounds_error(
    flag: Seq<char>,
    size: ByteSize,
    least: nat,
    most: nat,
) -> Option<Seq<char>> {
    if size.spec_bytes() > most {
        Some(size_message(flag, size, " exceeds maximum: "@, most))
    } else if size.spec_bytes() < least {
        Some(size_message(flag, size, " is below minimum: "@, least))
    } else {
        None
    }
}

fn check_bounds(flag: &str, size: ByteSize, least: u64, most: u64) -> (result: Result<(), String>)
    requires
        size.wf(),
    ensures
        match result {
            Ok(_) => bounds_error(flag@, size, least as nat, most as nat) is None,
            Err(message) => bounds_error(flag@, size, least as nat, most as nat) == Some(message@),
        },
{
    if size.bytes() > most {
        return Err(size_message_text(flag, size, " exceeds maximum: ", most));
    }
    if size.bytes() < least {
        return Err(size_message_text(flag, size, " is below minimum: ", least));
    }
    Ok(())
}

/// A size that is out of bounds, or no multiple of what it should be.
pub open spec fn multiple_error(
    flag: Seq<char>,
    size: ByteSize,
    least: nat,
    most: nat,
    multiple: nat,
) -> Option<Seq<char>> {
    or_else(
        bounds_error(flag, size, least, most),
        if size.spec_bytes() % multiple != 0 {
            Some(size_message(flag, size, " must be a multiple of "@, multiple))
        } else {
            None
        },
    )
}

/// Checks that a size is within bounds, and a multiple of what it should be.
pub fn check_multiple(flag: &str, size: ByteSize, least: u64, most: u64, multiple: u64) -> (result:
    Result<(), String>)
    requires
        size.wf(),
        multiple > 0,
    ensures
        match result {
            Ok(_) => multiple_error(flag@, size, least as nat, most as nat, multiple as nat)
                is None,
            Err(message) => multiple_error(
                flag@,
                size,
                least as nat,
                most as nat,
                multiple as nat,
            ) == Some(message@),
        },
{
    match check_bounds(flag, size, least, most) {
        Ok(_) => {},
        Err(message) => {
            return Err(message);
        },
    }
    if size.bytes() % multiple != 0 {
        return Err(size_message_text(flag, size, " must be a multiple of ", multiple));
    }
    Ok(())
}

/// What is wrong with the memory for manifests.
pub open spec fn manifest_memory_error(size: ByteSize) -> Option<Seq<char>> {
    multiple_error(
        "--memory-lsm-manifest"@,
        size,
        LSM_MANIFEST_MEMORY_SIZE_MIN as nat,
        LSM_MANIFEST_MEMORY_SIZE_MAX as nat,
        LSM_MANIFEST_MEMORY_SIZE_MULTIPLIER as nat,
    )
}

/// The memory for manifests.
pub open spec fn manifest_memory(scan: Scan) -> ByteSize {
    match scan.size("--memory-lsm-manifest"@) {
        Some(size) => size,
        None => ByteSize::spec_of_bytes(LSM_MANIFEST_MEMORY_SIZE_DEFAULT),
    }
}

/// How many nodes fit the memory for manifests.
pub open spec fn manifest_node_count(scan: Scan) -> int {
    manifest_memory(scan).spec_bytes() as int / LSM_MANIFEST_NODE_SIZE as int
}

/// How many nodes of manifests there is memory for.
///
/// # Errors
/// A message if there is too little memory, or too much, or a fraction of the unit.
pub fn parse_manifest_memory(flags: &ParsedFlags) -> (result: Result<u32, String>)
    requires
        flags.wf(),
    ensures
        match result {
            Ok(count) => manifest_memory_error(manifest_memory(flags.scan())) is None && count
                == manifest_node_count(flags.scan()),
            Err(message) => manifest_memory_error(manifest_memory(flags.scan())) == Some(message@),
        },
{
    let size = match flags.size("--memory-lsm-manifest") {
        Some(size) => size,
        None => ByteSize::of_bytes(LSM_MANIFEST_MEMORY_SIZE_DEFAULT),
    };
    match check_multiple(
        "--memory-lsm-manifest",
        size,
        LSM_MANIFEST_MEMORY_SIZE_MIN,
        LSM_MANIFEST_MEMORY_SIZE_MAX,
        LSM_MANIFEST_MEMORY_SIZE_MULTIPLIER,
    ) {
        Ok(_) => Ok((size.bytes() / LSM_MANIFEST_NODE_SIZE as u64) as u32),
        Err(message) => Err(message),
    }
}

/// What `start` takes for flags that are not given.
pub struct StartDefaults {
    pub limit_pipeline_requests: u32,
    pub limit_request: u32,
    pub cache_accounts: u64,
    pub cache_transfers: u64,
    pub cache_transfers_pending: u64,
    pub cache_grid: u64,
    pub memory_lsm_compaction: u64,
}

pub open spec fn spec_start_defaults(development: bool) -> StartDefaults {
    if development {
        StartDefaults {
            limit_pipeline_requests: 0,
            limit_request: 0x8000,
            cache_accounts: 0,
            cache_transfers: 0,
            cache_transfers_pending: 0,
            cache_grid: (BLOCK_SIZE * spec_grid_multiple()) as u64,
            memory_lsm_compaction: (LSM_COMPACTION_BLOCK_COUNT_MIN * BLOCK_SIZE) as u64,
        }
    } else {
        StartDefaults {
            limit_pipeline_requests: ((CLIENTS_MAX + 1) / 2 - PIPELINE_PREPARE_QUEUE_MAX) as u32,
            limit_request: MESSAGE_SIZE_MAX,
            cache_accounts: CACHE_ACCOUNTS_SIZE_DEFAULT,
            cache_transfers: CACHE_TRANSFERS_SIZE_DEFAULT,
            cache_transfers_pending: CACHE_TRANSFERS_PENDING_SIZE_DEFAULT,
            cache_grid: GRID_CACHE_SIZE_DEFAULT,
            memory_lsm_compaction: ((LSM_COMPACTION_BLOCK_COUNT_MIN + LSM_COMPACTION_IOPS_WRITE_MAX)
                * BLOCK_SIZE) as u64,
        }
    }
}

/// What a replica in production takes for flags that are not given.
#[must_use]
pub fn start_defaults_production() -> (result: StartDefaults)
    ensures
        result == spec_start_defaults(false),
{
    let blocks: u64 = LSM_COMPACTION_BLOCK_COUNT_MIN + LSM_COMPACTION_IOPS_WRITE_MAX as u64;
    assert(blocks * BLOCK_SIZE <= u64::MAX) by (nonlinear_arith)
        requires
            blocks <= 100,
            BLOCK_SIZE == 4096,
    ;
    StartDefaults {
        limit_pipeline_requests: (CLIENTS_MAX + 1) / 2 - PIPELINE_PREPARE_QUEUE_MAX,
        limit_request: MESSAGE_SIZE_MAX,
        cache_accounts: CACHE_ACCOUNTS_SIZE_DEFAULT,
        cache_transfers: CACHE_TRANSFERS_SIZE_DEFAULT,
        cache_transfers_pending: CACHE_TRANSFERS_PENDING_SIZE_DEFAULT,
        cache_grid: GRID_CACHE_SIZE_DEFAULT,
        memory_lsm_compaction: blocks * BLOCK_SIZE as u64,
    }
}

/// What a replica in development takes for flags that are not given.
#[must_use]
pub fn start_defaults_development() -> (result: StartDefaults)
    ensures
        result == spec_start_defaults(true),
{
    let blocks: u64 = LSM_COMPACTION_BLOCK_COUNT_MIN;
    assert(blocks * BLOCK_SIZE <= u64::MAX) by (nonlinear_arith)
        requires
            blocks <= 100,
            BLOCK_SIZE == 4096,
    ;
    StartDefaults {
        limit_pipeline_requests: 0,
        limit_request: 0x8000,
        cache_accounts: 0,
        cache_transfers: 0,
        cache_transfers_pending: 0,
        cache_grid: BLOCK_SIZE as u64 * cache_value_count_max_multiple(),
        memory_lsm_compaction: blocks * BLOCK_SIZE as u64,
    }
}

/// What the number of values of a given size in a cache is a multiple of.
pub open spec fn spec_cache_multiple(value_size: u64) -> int {
    spec_value_count_multiple(value_size, CACHE_WAYS, CACHE_LINE_SIZE as u64, CACHE_CLOCK_BITS)
}

/// What the number of blocks in the cache of the grid is a multiple of.
pub open spec fn spec_grid_multiple() -> int {
    spec_cache_multiple(BLOCK_ADDRESS_SIZE)
}

fn cache_multiple(value_size: u64) -> (result: u64)
    requires
        value_size == ACCOUNT_SIZE || value_size == TRANSFER_SIZE || value_size
            == TRANSFER_PENDING_SIZE || value_size == BLOCK_ADDRESS_SIZE,
    ensures
        result == spec_cache_multiple(value_size),
        result == 256,
{
    assert(128int / 64 * 16 == 32 && 64int / 16 * 16 == 64 && 64int / 8 * 16 == 128)
        by (nonlinear_arith);
    value_count_multiple(value_size, CACHE_WAYS, CACHE_LINE_SIZE as u64, CACHE_CLOCK_BITS)
}

/// What the number of blocks in the cache of the grid is a multiple of.
#[must_use]
pub fn cache_value_count_max_multiple() -> (result: u64)
    ensures
        result == spec_grid_multiple(),
        result == 256,
{
    cache_multiple(BLOCK_ADDRESS_SIZE)
}

pub open spec fn spec_memory_split(memory: nat, percent: nat) -> nat {
    (if memory * percent > u64::MAX {
        u64::MAX as nat
    } else {
        memory * percent
    }) / 100
}

/// A share of the memory, in percent. The product with the percentage stops at what fits 64 bits.
#[must_use]
pub fn memory_split_bytes(memory_bytes: u64, percent: u64) -> (result: u64)
    requires
        percent <= 100,
    ensures
        result == spec_memory_split(memory_bytes as nat, percent as nat),
{
    match memory_bytes.checked_mul(percent) {
        Some(product) => product / 100,
        None => u64::MAX / 100,
    }
}

/// The size of a cache: its share of `--memory`, or what its own flag says, or the default.
pub open spec fn cache_size(scan: Scan, flag: Seq<char>, percent: nat, default: u64) -> ByteSize {
    match scan.size("--memory"@) {
        Some(memory) => ByteSize::spec_of_bytes(
            spec_memory_split(memory.spec_bytes(), percent) as u64,
        ),
        None => match scan.size(flag) {
            Some(size) => size,
            None => ByteSize::spec_of_bytes(default),
        },
    }
}

fn find_cache_size(flags: &ParsedFlags, flag: &str, percent: u64, default: u64) -> (result:
    ByteSize)
    requires
        flags.wf(),
        percent <= 100,
    ensures
        result == cache_size(flags.scan(), flag@, percent as nat, default),
        result.wf(),
{
    match flags.size("--memory") {
        Some(memory) => ByteSize::of_bytes(memory_split_bytes(memory.bytes(), percent)),
        None => match flags.size(flag) {
            Some(size) => size,
            None => ByteSize::of_bytes(default),
        },
    }
}

/// The share of `--memory` for blocks of the grid, in percent.
pub const MEMORY_SPLIT_CACHE_GRID: u64 = 64;

/// The share of `--memory` for accounts, in percent.
pub const MEMORY_SPLIT_CACHE_ACCOUNTS: u64 = 32;

/// The share of `--memory` for transfers, in percent.
pub const MEMORY_SPLIT_CACHE_TRANSFERS: u64 = 0;

/// The share of `--memory` for pending transfers, in percent.
pub const MEMORY_SPLIT_CACHE_TRANSFERS_PENDING: u64 = 4;

/// The shares of `--memory` make up all of it.
pub proof fn law_memory_is_split_whole()
    ensures
        MEMORY_SPLIT_CACHE_GRID + MEMORY_SPLIT_CACHE_ACCOUNTS + MEMORY_SPLIT_CACHE_TRANSFERS
            + MEMORY_SPLIT_CACHE_TRANSFERS_PENDING == 100,
{
}

/// How many values fit a cache, rounded down to a multiple.
pub open spec fn cache_count(value_size: nat, multiple: nat, size: nat) -> nat {
    (size / value_size) / multiple * multiple
}

/// A cache of too many values.
pub open spec fn cache_error(
    flag: Seq<char>,
    value_size: nat,
    multiple: nat,
    size: ByteSize,
) -> Option<Seq<char>> {
    if cache_count(value_size, multiple, size.spec_bytes()) > u32::MAX {
        Some(flag + ": exceeds the limit"@)
    } else {
        None
    }
}

/// How many values fit a cache, rounded down to a multiple.
///
/// # Errors
/// A message if they are too many.
pub fn parse_cache_size_to_count(
    value_size: u64,
    value_count_max_multiple: u64,
    size: ByteSize,
    cli_flag: &str,
) -> (result: Result<u32, String>)
    requires
        value_size > 0,
        value_count_max_multiple > 0,
        size.wf(),
    ensures
        match result {
            Ok(count) => count == cache_count(
                value_size as nat,
                value_count_max_multiple as nat,
                size.spec_bytes(),
            ) && count * value_size <= size.spec_bytes() && cache_error(
                cli_flag@,
                value_size as nat,
                value_count_max_multiple as nat,
                size,
            ) is None,
            Err(message) => cache_error(
                cli_flag@,
                value_size as nat,
                value_count_max_multiple as nat,
                size,
            ) == Some(message@),
        },
{
    let limit: u64 = size.bytes() / value_size;
    proof {
        let a = limit as int;
        let m = value_count_max_multiple as int;
        let v = value_size as int;
        let s = size.spec_bytes() as int;
        vstd::arithmetic::div_mod::lemma_fundamental_div_mod(a, m);
        vstd::arithmetic::div_mod::lemma_fundamental_div_mod(s, v);
        vstd::arithmetic::mul::lemma_mul_is_commutative(m, a / m);
        vstd::arithmetic::mul::lemma_mul_is_commutative(v, s / v);
        vstd::arithmetic::mul::lemma_mul_inequality(a / m * m, a, v);
    }
    let count: u64 = (limit / value_count_max_multiple) * value_count_max_multiple;
    if count > u32::MAX as u64 {
        return Err(join2(cli_flag, ": exceeds the limit"));
    }
    Ok(count as u32)
}

/// A timeout that is no number of ticks.
pub open spec fn timeout_error(flag: Seq<char>, timeout_ms: Option<u64>) -> Option<Seq<char>> {
    match timeout_ms {
        None => None,
        Some(ms) => if ms == 0 {
            Some(flag + ": timeout "@ + decimal(ms as nat) + "ms be nonzero"@)
        } else if ms % TICK_MS != 0 {
            Some(
                flag + ": timeout "@ + decimal(ms as nat) + "ms must be a multiple of "@ + decimal(
                    TICK_MS as nat,
                ) + "ms"@,
            )
        } else {
            None
        },
    }
}

/// A timeout in ticks.
pub open spec fn timeout_ticks(timeout_ms: Option<u64>) -> Option<u64> {
    match timeout_ms {
        None => None,
        Some(ms) => Some((ms / TICK_MS) as u64),
    }
}

/// A timeout in ticks.
///
/// # Errors
/// A message if the timeout is zero, or no multiple of a tick.
pub fn parse_timeout_to_ticks(timeout_ms: Option<u64>, cli_flag: &str) -> (result: Result<
    Option<u64>,
    String,
>)
    ensures
        match result {
            Ok(ticks) => timeout_error(cli_flag@, timeout_ms) is None && ticks == timeout_ticks(
                timeout_ms,
            ),
            Err(message) => timeout_error(cli_flag@, timeout_ms) == Some(message@),
        },
{
    match timeout_ms {
        None => Ok(None),
        Some(ms) => {
            if ms == 0 {
                let mut message = join3(cli_flag, ": timeout ", decimal_text(ms as u128).as_str());
                message.append("ms be nonzero");
                return Err(message);
            }
            if ms % TICK_MS != 0 {
                let mut message = join3(cli_flag, ": timeout ", decimal_text(ms as u128).as_str());
                message.append("ms must be a multiple of ");
                message.append(decimal_text(TICK_MS as u128).as_str());
                message.append("ms");
                return Err(message);
            }
            Ok(Some(ms / TICK_MS))
        },
    }
}

/// The size to which the data file may grow.
pub open spec fn storage_limit(scan: Scan) -> ByteSize {
    match scan.size("--limit-storage"@) {
        Some(size) => size,
        None => ByteSize::spec_of_bytes(STORAGE_SIZE_LIMIT_DEFAULT),
    }
}

pub open spec fn storage_error(size: ByteSize) -> Option<Seq<char>> {
    or_else(
        bounds_error(
            "--limit-storage"@,
            size,
            DATA_FILE_SIZE_MIN as nat,
            STORAGE_SIZE_LIMIT_MAX as nat,
        ),
        if size.spec_bytes() % SECTOR_SIZE as nat != 0 {
            Some(
                size_message(
                    "--limit-storage"@,
                    size,
                    " must be a multiple of sector size ("@,
                    SECTOR_SIZE as nat,
                ) + ")"@,
            )
        } else {
            None
        },
    )
}

fn parse_storage_limit(flags: &ParsedFlags) -> (result: Result<u64, String>)
    requires
        flags.wf(),
    ensures
        match result {
            Ok(limit) => storage_error(storage_limit(flags.scan())) is None && limit
                == storage_limit(flags.scan()).spec_bytes(),
            Err(message) => storage_error(storage_limit(flags.scan())) == Some(message@),
        },
{
    let size = match flags.size("--limit-storage") {
        Some(size) => size,
        None => ByteSize::of_bytes(STORAGE_SIZE_LIMIT_DEFAULT),
    };
    match check_bounds("--limit-storage", size, DATA_FILE_SIZE_MIN, STORAGE_SIZE_LIMIT_MAX) {
        Ok(_) => {},
        Err(message) => {
            return Err(message);
        },
    }
    if size.bytes() % SECTOR_SIZE != 0 {
        let mut message = size_message_text(
            "--limit-storage",
            size,
            " must be a multiple of sector size (",
            SECTOR_SIZE,
        );
        message.append(")");
        return Err(message);
    }
    Ok(size.bytes())
}

/// The requests that may wait.
pub open spec fn pipeline_limit(scan: Scan) -> u32 {
    match scan.u32("--limit-pipeline-requests"@) {
        Some(limit) => limit,
        None => spec_start_defaults(scan.bool("--development"@)).limit_pipeline_requests,
    }
}

pub open spec fn pipeline_error(limit: u32) -> Option<Seq<char>> {
    if limit > PIPELINE_REQUEST_QUEUE_MAX {
        Some(
            "--limit-pipeline-requests: count "@ + decimal(limit as nat) + " exceeds maximum: "@
                + decimal(PIPELINE_REQUEST_QUEUE_MAX as nat),
        )
    } else {
        None
    }
}

fn parse_pipeline_limit(flags: &ParsedFlags, defaults: &StartDefaults) -> (result: Result<
    u32,
    String,
>)
    requires
        *defaults == spec_start_defaults(flags.scan().bool("--development"@)),
    ensures
        match result {
            Ok(limit) => pipeline_error(pipeline_limit(flags.scan())) is None && limit
                == pipeline_limit(flags.scan()),
            Err(message) => pipeline_error(pipeline_limit(flags.scan())) == Some(message@),
        },
{
    let limit: u32 = match flags.u32("--limit-pipeline-requests") {
        Some(limit) => limit,
        None => defaults.limit_pipeline_requests,
    };
    if limit > PIPELINE_REQUEST_QUEUE_MAX {
        let mut message = join3(
            "--limit-pipeline-requests: count ",
            decimal_text(limit as u128).as_str(),
            " exceeds maximum: ",
        );
        message.append(decimal_text(PIPELINE_REQUEST_QUEUE_MAX as u128).as_str());
        return Err(message);
    }
    Ok(limit)
}

/// The size of a request.
pub open spec fn request_limit(scan: Scan) -> ByteSize {
    match scan.size("--limit-request"@) {
        Some(size) => size,
        None => ByteSize::spec_of_bytes(
            spec_start_defaults(scan.bool("--development"@)).limit_request as u64,
        ),
    }
}

pub open spec fn request_error(size: ByteSize) -> Option<Seq<char>> {
    bounds_error(
        "--limit-request"@,
        size,
        REQUEST_SIZE_LIMIT_MIN as nat,
        MESSAGE_SIZE_MAX as nat,
    )
}

fn parse_request_limit(flags: &ParsedFlags, defaults: &StartDefaults) -> (result: Result<
    u32,
    String,
>)
    requires
        flags.wf(),
        *defaults == spec_start_defaults(flags.scan().bool("--development"@)),
    ensures
        match result {
            Ok(limit) => request_error(request_limit(flags.scan())) is None && limit
                == request_limit(flags.scan()).spec_bytes(),
            Err(message) => request_error(request_limit(flags.scan())) == Some(message@),
        },
{
    let size = match flags.size("--limit-request") {
        Some(size) => size,
        None => ByteSize::of_bytes(defaults.limit_request as u64),
    };
    match check_bounds(
        "--limit-request",
        size,
        REQUEST_SIZE_LIMIT_MIN,
        MESSAGE_SIZE_MAX as u64,
    ) {
        Ok(_) => Ok(size.bytes() as u32),
        Err(message) => Err(message),
    }
}

/// The memory for blocks of compactions.
pub open spec fn compaction_memory(scan: Scan) -> ByteSize {
    match scan.size("--memory-lsm-compaction"@) {
        Some(size) => size,
        None => ByteSize::spec_of_bytes(
            spec_start_defaults(scan.bool("--development"@)).memory_lsm_compaction,
        ),
    }
}

pub open spec fn compaction_error(size: ByteSize) -> Option<Seq<char>> {
    multiple_error(
        "--memory-lsm-compaction"@,
        size,
        (LSM_COMPACTION_BLOCK_COUNT_MIN * BLOCK_SIZE) as nat,
        COMPACTION_BLOCK_MEMORY_SIZE_MAX as nat,
        BLOCK_SIZE as nat,
    )
}

fn parse_compaction_memory(flags: &ParsedFlags, defaults: &StartDefaults) -> (result: Result<
    u32,
    String,
>)
    requires
        flags.wf(),
        *defaults == spec_start_defaults(flags.scan().bool("--development"@)),
    ensures
        match result {
            Ok(count) => compaction_error(compaction_memory(flags.scan())) is None && count
                == compaction_memory(flags.scan()).spec_bytes() as int / BLOCK_SIZE as int,
            Err(message) => compaction_error(compaction_memory(flags.scan())) == Some(message@),
        },
{
    let size = match flags.size("--memory-lsm-compaction") {
        Some(size) => size,
        None => ByteSize::of_bytes(defaults.memory_lsm_compaction),
    };
    match check_multiple(
        "--memory-lsm-compaction",
        size,
        LSM_COMPACTION_BLOCK_COUNT_MIN * BLOCK_SIZE as u64,
        COMPACTION_BLOCK_MEMORY_SIZE_MAX,
        BLOCK_SIZE as u64,
    ) {
        Ok(_) => Ok((size.bytes() / BLOCK_SIZE as u64) as u32),
        Err(message) => Err(message),
    }
}

/// What is wrong with the file for the log of requests.
pub open spec fn aof_error(scan: Scan) -> Option<Seq<char>> {
    let path = scan.positionals[0];
    if scan.bool("--aof"@) {
        if scan.text("--aof-file"@) is Some {
            Some("--aof is mutually exclusive with --aof-file"@)
        } else if byte_length(path) + 4 > PATH_MAX_BYTES {
            Some("data file path is too long for --aof. use --aof-file"@)
        } else {
            None
        }
    } else {
        match scan.text("--aof-file"@) {
            Some(file) => if !ends_in(file, ".aof"@) {
                Some("--aof-file must end with .aof: '"@ + file + "'"@)
            } else if byte_length(file) > PATH_MAX_BYTES {
                Some("--aof-file path is too long"@)
            } else {
                None
            },
            None => None,
        }
    }
}

/// The file for the log of requests.
pub open spec fn aof_file(scan: Scan) -> Option<Seq<char>> {
    if scan.bool("--aof"@) {
        Some(scan.positionals[0] + ".aof"@)
    } else {
        scan.text("--aof-file"@)
    }
}

fn parse_aof_file(flags: &ParsedFlags, path: &str) -> (result: Result<Option<String>, String>)
    requires
        flags.scan().positionals.len() > 0,
        path@ == flags.scan().positionals[0],
    ensures
        match result {
            Ok(file) => aof_error(flags.scan()) is None && optional_text(file) == aof_file(
                flags.scan(),
            ),
            Err(message) => aof_error(flags.scan()) == Some(message@),
        },
{
    if flags.bool("--aof") {
        if flags.text("--aof-file").is_some() {
            return Err("--aof is mutually exclusive with --aof-file".to_owned());
        }
        if length_in_bytes(path) > PATH_MAX_BYTES - 4 {
            return Err("data file path is too long for --aof. use --aof-file".to_owned());
        }
        return Ok(Some(join2(path, ".aof")));
    }
    match flags.text("--aof-file") {
        Some(file) => {
            if !ends_with(file.as_str(), ".aof") {
                return Err(join3("--aof-file must end with .aof: '", file.as_str(), "'"));
            }
            if length_in_bytes(file.as_str()) > PATH_MAX_BYTES {
                return Err("--aof-file path is too long".to_owned());
            }
            Ok(Some(file))
        },
        None => Ok(None),
    }
}

/// What is wrong with the levels of logs.
pub open spec fn log_error(scan: Scan) -> Option<Seq<char>> {
    if scan.bool("--log-trace"@) && !scan.bool("--log-debug"@) {
        Some("--log-debug must be provided when using --log-trace"@)
    } else {
        None
    }
}

/// The sizes of the caches.
pub open spec fn accounts_size(scan: Scan) -> ByteSize {
    cache_size(
        scan,
        "--cache-accounts"@,
        MEMORY_SPLIT_CACHE_ACCOUNTS as nat,
        spec_start_defaults(scan.bool("--development"@)).cache_accounts,
    )
}

pub open spec fn transfers_size(scan: Scan) -> ByteSize {
    cache_size(
        scan,
        "--cache-transfers"@,
        MEMORY_SPLIT_CACHE_TRANSFERS as nat,
        spec_start_defaults(scan.bool("--development"@)).cache_transfers,
    )
}

pub open spec fn transfers_pending_size(scan: Scan) -> ByteSize {
    cache_size(
        scan,
        "--cache-transfers-pending"@,
        MEMORY_SPLIT_CACHE_TRANSFERS_PENDING as nat,
        spec_start_defaults(scan.bool("--development"@)).cache_transfers_pending,
    )
}

pub open spec fn grid_size(scan: Scan) -> ByteSize {
    cache_size(
        scan,
        "--cache-grid"@,
        MEMORY_SPLIT_CACHE_GRID as nat,
        spec_start_defaults(scan.bool("--development"@)).cache_grid,
    )
}

pub open spec fn caches_error(scan: Scan) -> Option<Seq<char>> {
    or_else(
        cache_error(
            "--cache-accounts"@,
            ACCOUNT_SIZE as nat,
            spec_cache_multiple(ACCOUNT_SIZE) as nat,
            accounts_size(scan),
        ),
        or_else(
            cache_error(
                "--cache-transfers"@,
                TRANSFER_SIZE as nat,
                spec_cache_multiple(TRANSFER_SIZE) as nat,
                transfers_size(scan),
            ),
            or_else(
                cache_error(
                    "--cache-transfers-pending"@,
                    TRANSFER_PENDING_SIZE as nat,
                    spec_cache_multiple(TRANSFER_PENDING_SIZE) as nat,
                    transfers_pending_size(scan),
                ),
                cache_error(
                    "--cache-grid"@,
                    BLOCK_SIZE as nat,
                    spec_grid_multiple() as nat,
                    grid_size(scan),
                ),
            ),
        ),
    )
}

/// The sizes of the caches, in values.
pub struct CacheCounts {
    pub accounts: u32,
    pub transfers: u32,
    pub transfers_pending: u32,
    pub grid_blocks: u32,
}

/// The numbers of values that the flags say.
pub open spec fn is_cache_counts(counts: CacheCounts, scan: Scan) -> bool {
    &&& counts.accounts == cache_count(
        ACCOUNT_SIZE as nat,
        spec_cache_multiple(ACCOUNT_SIZE) as nat,
        accounts_size(scan).spec_bytes(),
    )
    &&& counts.transfers == cache_count(
        TRANSFER_SIZE as nat,
        spec_cache_multiple(TRANSFER_SIZE) as nat,
        transfers_size(scan).spec_bytes(),
    )
    &&& counts.transfers_pending == cache_count(
        TRANSFER_PENDING_SIZE as nat,
        spec_cache_multiple(TRANSFER_PENDING_SIZE) as nat,
        transfers_pending_size(scan).spec_bytes(),
    )
    &&& counts.grid_blocks == cache_count(
        BLOCK_SIZE as nat,
        spec_grid_multiple() as nat,
        grid_size(scan).spec_bytes(),
    )
}

fn parse_cache_counts(flags: &ParsedFlags, defaults: &StartDefaults) -> (result: Result<
    CacheCounts,
    String,
>)
    requires
        flags.wf(),
        *defaults == spec_start_defaults(flags.scan().bool("--development"@)),
    ensures
        match result {
            Ok(counts) => caches_error(flags.scan()) is None && is_cache_counts(
                counts,
                flags.scan(),
            ),
            Err(message) => caches_error(flags.scan()) == Some(message@),
        },
{
    let accounts: u32 = match parse_cache_size_to_count(
        ACCOUNT_SIZE,
        cache_multiple(ACCOUNT_SIZE),
        find_cache_size(
            flags,
            "--cache-accounts",
            MEMORY_SPLIT_CACHE_ACCOUNTS,
            defaults.cache_accounts,
        ),
        "--cache-accounts",
    ) {
        Ok(count) => count,
        Err(message) => {
            return Err(message);
        },
    };
    let transfers: u32 = match parse_cache_size_to_count(
        TRANSFER_SIZE,
        cache_multiple(TRANSFER_SIZE),
        find_cache_size(
            flags,
            "--cache-transfers",
            MEMORY_SPLIT_CACHE_TRANSFERS,
            defaults.cache_transfers,
        ),
        "--cache-transfers",
    ) {
        Ok(count) => count,
        Err(message) => {
            return Err(message);
        },
    };
    let transfers_pending: u32 = match parse_cache_size_to_count(
        TRANSFER_PENDING_SIZE,
        cache_multiple(TRANSFER_PENDING_SIZE),
        find_cache_size(
            flags,
            "--cache-transfers-pending",
            MEMORY_SPLIT_CACHE_TRANSFERS_PENDING,
            defaults.cache_transfers_pending,
        ),
        "--cache-transfers-pending",
    ) {
        Ok(count) => count,
        Err(message) => {
            return Err(message);
        },
    };
    let grid_blocks: u32 = match parse_cache_size_to_count(
        BLOCK_SIZE as u64,
        cache_value_count_max_multiple(),
        find_cache_size(flags, "--cache-grid", MEMORY_SPLIT_CACHE_GRID, defaults.cache_grid),
        "--cache-grid",
    ) {
        Ok(count) => count,
        Err(message) => {
            return Err(message);
        },
    };
    Ok(CacheCounts { accounts, transfers, transfers_pending, grid_blocks })
}

/// What is wrong with the timeouts.
pub open spec fn timeouts_error(scan: Scan) -> Option<Seq<char>> {
    or_else(
        timeout_error("--timeout-prepare-ms"@, scan.u64("--timeout-prepare-ms"@)),
        timeout_error(
            "--timeout-grid-repair-message-ms"@,
            scan.u64("--timeout-grid-repair-message-ms"@),
        ),
    )
}

/// What is wrong with the limits of a replica.
pub open spec fn limits_error(scan: Scan) -> Option<Seq<char>> {
    or_else(
        storage_error(storage_limit(scan)),
        or_else(
            pipeline_error(pipeline_limit(scan)),
            or_else(
                request_error(request_limit(scan)),
                or_else(
                    manifest_memory_error(manifest_memory(scan)),
                    compaction_error(compaction_memory(scan)),
                ),
            ),
        ),
    )
}

/// The first thing that is wrong with the flags of `start`.
pub open spec fn start_error(scan: Scan) -> Option<Seq<char>> {
    if scan.cluster("--addresses"@) is None {
        Some("--addresses: argument is required"@)
    } else {
        or_else(
            experimental_error(scan),
            or_else(
                memory_error(scan),
                or_else(
                    limits_error(scan),
                    or_else(
                        aof_error(scan),
                        or_else(
                            log_error(scan),
                            or_else(caches_error(scan), timeouts_error(scan)),
                        ),
                    ),
                ),
            ),
        )
    }
}

/// The command that the flags of `start` say.
pub open spec fn is_start(command: CommandStart, scan: Scan) -> bool {
    &&& Some(cluster_meaning(command.addresses)) == scan.cluster("--addresses"@)
    &&& is_cache_counts(
        CacheCounts {
            accounts: command.cache_accounts,
            transfers: command.cache_transfers,
            transfers_pending: command.cache_transfers_pending,
            grid_blocks: command.cache_grid_blocks,
        },
        scan,
    )
    &&& command.storage_size_limit == storage_limit(scan).spec_bytes()
    &&& command.pipeline_requests_limit == pipeline_limit(scan)
    &&& command.request_size_limit == request_limit(scan).spec_bytes()
    &&& command.lsm_forest_compaction_block_count == compaction_memory(scan).spec_bytes() as int
        / BLOCK_SIZE as int
    &&& command.lsm_forest_node_count == manifest_node_count(scan)
    &&& command.timeout_prepare_ticks == timeout_ticks(scan.u64("--timeout-prepare-ms"@))
    &&& command.timeout_grid_repair_message_ticks == timeout_ticks(
        scan.u64("--timeout-grid-repair-message-ms"@),
    )
    &&& command.commit_stall_probability == scan.ratio("--commit-stall-probability"@)
    &&& command.commit_stall_lag_min == scan.u32("--commit-stall-lag-min"@)
    &&& command.commit_stall_lag_max == scan.u32("--commit-stall-lag-max"@)
    &&& command.commit_stall_multiple_max == scan.u16("--commit-stall-multiple-max"@)
    &&& optional_text(command.trace) == scan.text("--trace"@)
    &&& command.development == scan.bool("--development"@)
    &&& command.experimental == scan.bool("--experimental"@)
    &&& command.replicate_star == scan.bool("--replicate-star"@)
    &&& optional_text(command.aof_file) == aof_file(scan)
    &&& command.aof_recovery == scan.bool("--aof-recovery"@)
    &&& command.path@ == scan.positionals[0]
    &&& command.log_debug == scan.bool("--log-debug"@)
    &&& command.log_trace == scan.bool("--log-trace"@)
    &&& command.statsd == scan.socket("--statsd"@)
}

/// What `start` gives for its arguments.
pub open spec fn start_outcome(
    args: Seq<Seq<char>>,
    result: Result<CommandStart, String>,
) -> bool {
    match (scanned(args, spec_start_flags(), Some("path"@)), result) {
        (Err(message), Err(text)) => text@ == message,
        (Err(_), Ok(_)) => false,
        (Ok(scan), Err(text)) => start_error(scan) == Some(text@),
        (Ok(scan), Ok(command)) => start_error(scan) is None && is_start(command, scan),
    }
}

/// Reads the arguments of `start`.
///
/// # Errors
/// A message on the first thing that is wrong with them.
#[verifier::rlimit(60)]
pub fn parse_args_start(args: &[String]) -> (result: Result<CommandStart, String>)
    ensures
        start_outcome(arguments(args@), result),
{
    let flags = match parse_flags(args, &start_flags(), Some("path")) {
        Ok(flags) => flags,
        Err(message) => {
            return Err(message);
        },
    };
    let addresses = match flags.cluster("--addresses") {
        Some(addresses) => addresses,
        None => {
            return Err("--addresses: argument is required".to_owned());
        },
    };
    match check_experimental(&flags) {
        Ok(_) => {},
        Err(message) => {
            return Err(message);
        },
    }
    match check_memory(&flags) {
        Ok(_) => {},
        Err(message) => {
            return Err(message);
        },
    }
    let development = flags.bool("--development");
    let defaults = if development {
        start_defaults_development()
    } else {
        start_defaults_production()
    };
    let storage_size_limit: u64 = match parse_storage_limit(&flags) {
        Ok(limit) => limit,
        Err(message) => {
            return Err(message);
        },
    };
    let pipeline_requests_limit: u32 = match parse_pipeline_limit(&flags, &defaults) {
        Ok(limit) => limit,
        Err(message) => {
            return Err(message);
        },
    };
    let request_size_limit: u32 = match parse_request_limit(&flags, &defaults) {
        Ok(limit) => limit,
        Err(message) => {
            return Err(message);
        },
    };
    let lsm_forest_node_count: u32 = match parse_manifest_memory(&flags) {
        Ok(count) => count,
        Err(message) => {
            return Err(message);
        },
    };
    let lsm_forest_compaction_block_count: u32 = match parse_compaction_memory(&flags, &defaults) {
        Ok(count) => count,
        Err(message) => {
            return Err(message);
        },
    };
    let path = flags.positional();
    let aof_file = match parse_aof_file(&flags, path.as_str()) {
        Ok(file) => file,
        Err(message) => {
            return Err(message);
        },
    };
    let log_debug = flags.bool("--log-debug");
    let log_trace = flags.bool("--log-trace");
    if log_trace && !log_debug {
        return Err("--log-debug must be provided when using --log-trace".to_owned());
    }
    let caches = match parse_cache_counts(&flags, &defaults) {
        Ok(counts) => counts,
        Err(message) => {
            return Err(message);
        },
    };
    let timeout_prepare_ticks = match parse_timeout_to_ticks(
        flags.u64("--timeout-prepare-ms"),
        "--timeout-prepare-ms",
    ) {
        Ok(ticks) => ticks,
        Err(message) => {
            return Err(message);
        },
    };
    let timeout_grid_repair_message_ticks = match parse_timeout_to_ticks(
        flags.u64("--timeout-grid-repair-message-ms"),
        "--timeout-grid-repair-message-ms",
    ) {
        Ok(ticks) => ticks,
        Err(message) => {
            return Err(message);
        },
    };
    Ok(
        CommandStart {
            addresses,
            cache_accounts: caches.accounts,
            cache_transfers: caches.transfers,
            cache_transfers_pending: caches.transfers_pending,
            storage_size_limit,
            pipeline_requests_limit,
            request_size_limit,
            cache_grid_blocks: caches.grid_blocks,
            lsm_forest_compaction_block_count,
            lsm_forest_node_count,
            timeout_prepare_ticks,
            timeout_grid_repair_message_ticks,
            commit_stall_probability: flags.ratio("--commit-stall-probability"),
            commit_stall_lag_min: flags.u32("--commit-stall-lag-min"),
            commit_stall_lag_max: flags.u32("--commit-stall-lag-max"),
            commit_stall_multiple_max: flags.u16("--commit-stall-multiple-max"),
            trace: flags.text("--trace"),
            development,
            experimental: flags.bool("--experimental"),
            replicate_star: flags.bool("--replicate-star"),
            aof_file,
            aof_recovery: flags.bool("--aof-recovery"),
            path,
            log_debug,
            log_trace,
            statsd: flags.socket("--statsd"),
        },
    )
}

/// The first thing that is wrong with the flags of `start`, as far as it comes before the file for
/// the log of requests.
pub open spec fn early_error(scan: Scan) -> Option<Seq<char>> {
    if scan.cluster("--addresses"@) is None {
        Some("--addresses: argument is required"@)
    } else {
        or_else(experimental_error(scan), or_else(memory_error(scan), limits_error(scan)))
    }
}

/// Whether the flags of `start` are right up to the file for the log of requests.
fn is_right_early(flags: &ParsedFlags) -> (result: bool)
    requires
        flags.wf(),
    ensures
        result == (early_error(flags.scan()) is None),
{
    let defaults = if flags.bool("--development") {
        start_defaults_development()
    } else {
        start_defaults_production()
    };
    flags.cluster("--addresses").is_some() && check_experimental(flags).is_ok() && check_memory(
        flags,
    ).is_ok() && parse_storage_limit(flags).is_ok() && parse_pipeline_limit(
        flags,
        &defaults,
    ).is_ok() && parse_request_limit(flags, &defaults).is_ok() && parse_manifest_memory(
        flags,
    ).is_ok() && parse_compaction_memory(flags, &defaults).is_ok()
}

/// What an operator should know about the arguments of `start`. Each line is due once everything
/// that is looked at before it is right, also if something after it is wrong.
pub open spec fn spec_start_notices(args: Seq<Seq<char>>) -> Seq<Seq<char>> {
    match scanned(args, spec_start_flags(), Some("path"@)) {
        Err(_) => Seq::empty(),
        Ok(scan) => if early_error(scan) is Some || aof_error(scan) is Some {
            Seq::empty()
        } else {
            let aof = if scan.bool("--aof"@) {
                seq![
                    "--aof is deprecated. consider switching to '--aof-file="@ + (
                    scan.positionals[0] + ".aof"@) + "'"@,
                ]
            } else {
                Seq::empty()
            };
            if log_error(scan) is None && scan.bool("--replicate-star"@) {
                aof.push(
                    "--replicate-star is deprecated; star replication is now the default."@,
                )
            } else {
                aof
            }
        },
    }
}

/// What an operator should know about the arguments of `start`.
#[must_use]
pub fn start_notices(args: &[String]) -> (result: Vec<String>)
    ensures
        arguments(result@) == spec_start_notices(arguments(args@)),
{
    let mut lines: Vec<String> = Vec::new();
    assert(arguments(lines@) =~= Seq::empty());
    let flags = match parse_flags(args, &start_flags(), Some("path")) {
        Ok(flags) => flags,
        Err(_) => {
            return lines;
        },
    };
    if !is_right_early(&flags) {
        return lines;
    }
    let path = flags.positional();
    let file = match parse_aof_file(&flags, path.as_str()) {
        Ok(file) => file,
        Err(_) => {
            return lines;
        },
    };
    if flags.bool("--aof") {
        if let Some(file) = file {
            lines.push(
                join3(
                    "--aof is deprecated. consider switching to '--aof-file=",
                    file.as_str(),
                    "'",
                ),
            );
        }
    }
    if !(flags.bool("--log-trace") && !flags.bool("--log-debug")) {
        if flags.bool("--replicate-star") {
            lines.push(
                "--replicate-star is deprecated; star replication is now the default.".to_owned(),
            );
        }
    }
    assert(arguments(lines@) =~= spec_start_notices(arguments(args@)));
    lines
}

/// The bytes that a flag says, or else the default.
pub open spec fn given_bytes(scan: Scan, flag: Seq<char>, default: nat) -> nat {
    match scan.size(flag) {
        Some(size) => size.spec_bytes(),
        None => default,
    }
}

/// The bytes of a cache: its percentage of `--memory`, up to what fits 64 bits, or else what its
/// own flag says, or else the default.
pub open spec fn cache_bytes(scan: Scan, flag: Seq<char>, percent: nat, default: nat) -> nat {
    match scan.size("--memory"@) {
        Some(memory) => if memory.spec_bytes() * percent <= 0xffff_ffff_ffff_ffff {
            memory.spec_bytes() * percent / 100
        } else {
            0xffff_ffff_ffff_ffffnat / 100
        },
        None => given_bytes(scan, flag, default),
    }
}

/// How many values of a size fit the bytes, in steps of 256.
pub open spec fn values_of_256(bytes: nat, value_size: nat) -> nat {
    bytes / value_size / 256 * 256
}

/// Every cache holds a multiple of 256 values.
proof fn lemma_cache_multiples()
    ensures
        spec_cache_multiple(128) == 256,
        spec_cache_multiple(16) == 256,
        spec_cache_multiple(8) == 256,
{
    assert(128int / 64 * 16 == 32 && 64int / 16 * 16 == 64 && 64int / 8 * 16 == 128)
        by (nonlinear_arith);
}

/// Counts of values in literal numbers.
proof fn lemma_cache_count(value_size: nat, multiple: nat, size: nat)
    by (nonlinear_arith)
    requires
        value_size == 128 || value_size == 16 || value_size == 4096,
        multiple == 256,
    ensures
        cache_count(value_size, multiple, size) == if value_size == 128 {
            size / 128 / 256 * 256
        } else if value_size == 16 {
            size / 16 / 256 * 256
        } else {
            size / 4096 / 256 * 256
        },
{
}

proof fn lemma_cache_counts(scan: Scan)
    ensures
        cache_count(
            ACCOUNT_SIZE as nat,
            spec_cache_multiple(ACCOUNT_SIZE) as nat,
            accounts_size(scan).spec_bytes(),
        ) == accounts_size(scan).spec_bytes() / 128 / 256 * 256,
        cache_count(
            TRANSFER_SIZE as nat,
            spec_cache_multiple(TRANSFER_SIZE) as nat,
            transfers_size(scan).spec_bytes(),
        ) == transfers_size(scan).spec_bytes() / 128 / 256 * 256,
        cache_count(
            TRANSFER_PENDING_SIZE as nat,
            spec_cache_multiple(TRANSFER_PENDING_SIZE) as nat,
            transfers_pending_size(scan).spec_bytes(),
        ) == transfers_pending_size(scan).spec_bytes() / 16 / 256 * 256,
        cache_count(BLOCK_SIZE as nat, spec_grid_multiple() as nat, grid_size(scan).spec_bytes())
            == grid_size(scan).spec_bytes() / 4096 / 256 * 256,
{
    lemma_cache_multiples();
    lemma_cache_count(128, 256, accounts_size(scan).spec_bytes());
    lemma_cache_count(128, 256, transfers_size(scan).spec_bytes());
    lemma_cache_count(16, 256, transfers_pending_size(scan).spec_bytes());
    lemma_cache_count(4096, 256, grid_size(scan).spec_bytes());
}

/// The defaults in literal numbers.
proof fn lemma_start_defaults()
    ensures
        LSM_COMPACTION_BLOCK_COUNT_MIN * BLOCK_SIZE == 53_248,
        (LSM_COMPACTION_BLOCK_COUNT_MIN + LSM_COMPACTION_IOPS_WRITE_MAX) * BLOCK_SIZE == 118_784,
        BLOCK_SIZE * spec_grid_multiple() == 0x10_0000,
{
    lemma_cache_multiples();
    let count = LSM_COMPACTION_BLOCK_COUNT_MIN as int;
    let more = count + LSM_COMPACTION_IOPS_WRITE_MAX;
    let multiple = spec_grid_multiple();
    let size = BLOCK_SIZE as int;
    assert(count * size == 53_248 && more * size == 118_784 && size * multiple == 0x10_0000)
        by (nonlinear_arith)
        requires
            count == 13,
            more == 29,
            size == 4096,
            multiple == 256,
    ;
}

/// The bytes of a share.
proof fn lemma_cache_bytes(scan: Scan, flag: Seq<char>, percent: nat, default: u64)
    requires
        percent <= 100,
    ensures
        cache_size(scan, flag, percent, default).spec_bytes() == cache_bytes(
            scan,
            flag,
            percent,
            default as nat,
        ),
{
}

proof fn lemma_caches_bytes(scan: Scan)
    ensures
        ({
            let defaults = spec_start_defaults(scan.bool("--development"@));
            &&& accounts_size(scan).spec_bytes() == cache_bytes(
                scan,
                "--cache-accounts"@,
                32,
                defaults.cache_accounts as nat,
            )
            &&& transfers_size(scan).spec_bytes() == cache_bytes(
                scan,
                "--cache-transfers"@,
                0,
                defaults.cache_transfers as nat,
            )
            &&& transfers_pending_size(scan).spec_bytes() == cache_bytes(
                scan,
                "--cache-transfers-pending"@,
                4,
                defaults.cache_transfers_pending as nat,
            )
            &&& grid_size(scan).spec_bytes() == cache_bytes(
                scan,
                "--cache-grid"@,
                64,
                defaults.cache_grid as nat,
            )
        }),
{
    let defaults = spec_start_defaults(scan.bool("--development"@));
    lemma_cache_bytes(scan, "--cache-accounts"@, 32, defaults.cache_accounts);
    lemma_cache_bytes(scan, "--cache-transfers"@, 0, defaults.cache_transfers);
    lemma_cache_bytes(scan, "--cache-transfers-pending"@, 4, defaults.cache_transfers_pending);
    lemma_cache_bytes(scan, "--cache-grid"@, 64, defaults.cache_grid);
}

/// The four caches divide `--memory` among them: the one of accounts gets 32 percent, the one of
/// pending transfers 4, the one of transfers nothing and the one of the grid 64. Each holds as many
/// of its own values as fit there, in steps of 256.
pub proof fn law_caches_divide_the_memory(counts: CacheCounts, scan: Scan)
    requires
        is_cache_counts(counts, scan),
        scan.size("--memory"@) is Some,
    ensures
        ({
            let memory = (scan.size("--memory"@)->0).spec_bytes();
            &&& memory * 64 <= 0xffff_ffff_ffff_ffff
            &&& counts.accounts == memory * 32 / 100 / 128 / 256 * 256
            &&& counts.transfers == 0
            &&& counts.transfers_pending == memory * 4 / 100 / 16 / 256 * 256
            &&& counts.grid_blocks == memory * 64 / 100 / 4096 / 256 * 256
        }),
{
    lemma_cache_counts(scan);
    lemma_caches_bytes(scan);
}

/// Without `--memory`, each cache has the bytes that its own flag says, or a default.
pub proof fn law_caches_have_flags_of_their_own(counts: CacheCounts, scan: Scan)
    requires
        is_cache_counts(counts, scan),
        scan.size("--memory"@) is None,
    ensures
        ({
            let development = scan.bool("--development"@);
            let accounts = given_bytes(
                scan,
                "--cache-accounts"@,
                if development {
                    0
                } else {
                    0x800_0000
                },
            );
            let transfers = given_bytes(scan, "--cache-transfers"@, 0);
            let transfers_pending = given_bytes(
                scan,
                "--cache-transfers-pending"@,
                if development {
                    0
                } else {
                    0x100_0000
                },
            );
            let grid = given_bytes(
                scan,
                "--cache-grid"@,
                if development {
                    0x10_0000
                } else {
                    0xc000_0000
                },
            );
            &&& counts.accounts == accounts / 128 / 256 * 256
            &&& counts.transfers == transfers / 128 / 256 * 256
            &&& counts.transfers_pending == transfers_pending / 16 / 256 * 256
            &&& counts.grid_blocks == grid / 4096 / 256 * 256
        }),
{
    lemma_cache_counts(scan);
    lemma_caches_bytes(scan);
    lemma_start_defaults();
}

/// None of the flags is set where the first that is set comes after all of them.
proof fn lemma_first_set(scan: Scan, flags: Seq<Seq<char>>, start: int)
    requires
        0 <= start <= flags.len(),
    ensures
        start <= first_set(scan, flags, start) <= flags.len(),
        first_set(scan, flags, start) == flags.len() <==> forall|i: int|
            start <= i < flags.len() ==> !scan.is_set(#[trigger] flags[i]),
    decreases flags.len() - start,
{
    if start < flags.len() && !scan.is_set(flags[start]) {
        lemma_first_set(scan, flags, start + 1);
    }
}

/// No flag is set that is for experiments.
pub open spec fn is_not_experimental(scan: Scan) -> bool {
    &&& !scan.is_set("--limit-storage"@)
    &&& !scan.is_set("--limit-pipeline-requests"@)
    &&& !scan.is_set("--limit-request"@)
    &&& !scan.is_set("--memory"@)
    &&& !scan.is_set("--cache-accounts"@)
    &&& !scan.is_set("--cache-transfers"@)
    &&& !scan.is_set("--cache-transfers-pending"@)
    &&& !scan.is_set("--memory-lsm-manifest"@)
    &&& !scan.is_set("--memory-lsm-compaction"@)
    &&& !scan.is_set("--trace"@)
    &&& !scan.is_set("--log-debug"@)
    &&& !scan.is_set("--log-trace"@)
    &&& !scan.is_set("--timeout-prepare-ms"@)
    &&& !scan.is_set("--timeout-grid-repair-message-ms"@)
    &&& !scan.is_set("--commit-stall-probability"@)
    &&& !scan.is_set("--commit-stall-lag-min"@)
    &&& !scan.is_set("--commit-stall-lag-max"@)
    &&& !scan.is_set("--commit-stall-multiple-max"@)
    &&& !scan.is_set("--replicate-star"@)
    &&& !scan.is_set("--aof-file"@)
    &&& !scan.is_set("--aof"@)
    &&& !scan.is_set("--aof-recovery"@)
    &&& !scan.is_set("--statsd"@)
}

proof fn lemma_experimental(scan: Scan)
    ensures
        experimental_error(scan) is None <==> scan.bool("--experimental"@) || is_not_experimental(
            scan,
        ),
{
    let list = spec_experimental_flags();
    lemma_first_set(scan, list, 0);
    if is_not_experimental(scan) {
        assert forall|i: int| 0 <= i < list.len() implies !scan.is_set(#[trigger] list[i]) by {}
    }
    if forall|i: int| 0 <= i < list.len() ==> !scan.is_set(#[trigger] list[i]) {
        assert(!scan.is_set(list[0]) && !scan.is_set(list[1]) && !scan.is_set(list[2]));
        assert(!scan.is_set(list[3]) && !scan.is_set(list[4]) && !scan.is_set(list[5]));
        assert(!scan.is_set(list[6]) && !scan.is_set(list[7]) && !scan.is_set(list[8]));
        assert(!scan.is_set(list[9]) && !scan.is_set(list[10]) && !scan.is_set(list[11]));
        assert(!scan.is_set(list[12]) && !scan.is_set(list[13]) && !scan.is_set(list[14]));
        assert(!scan.is_set(list[15]) && !scan.is_set(list[16]) && !scan.is_set(list[17]));
        assert(!scan.is_set(list[18]) && !scan.is_set(list[19]) && !scan.is_set(list[20]));
        assert(!scan.is_set(list[21]) && !scan.is_set(list[22]));
    }
}

proof fn lemma_memory_excludes(scan: Scan)
    ensures
        memory_error(scan) is None <==> scan.size("--memory"@) is None || {
            &&& !scan.is_set("--cache-grid"@)
            &&& !scan.is_set("--cache-accounts"@)
            &&& !scan.is_set("--cache-transfers"@)
            &&& !scan.is_set("--cache-transfers-pending"@)
        },
{
    let list = spec_memory_exclusive_flags();
    lemma_first_set(scan, list, 0);
    if forall|i: int| 0 <= i < list.len() ==> !scan.is_set(#[trigger] list[i]) {
        assert(!scan.is_set(list[0]) && !scan.is_set(list[1]));
        assert(!scan.is_set(list[2]) && !scan.is_set(list[3]));
    }
}

/// A timeout is a number of ticks of ten milliseconds, and not zero.
pub open spec fn is_timeout(timeout_ms: Option<u64>) -> bool {
    timeout_ms matches Some(ms) ==> ms > 0 && ms % 10 == 0
}

/// The limits within which a replica is started.
pub open spec fn is_within_limits(scan: Scan) -> bool {
    let development = scan.bool("--development"@);
    let storage = given_bytes(scan, "--limit-storage"@, 0x4000_0000);
    let request = given_bytes(
        scan,
        "--limit-request"@,
        if development {
            0x8000
        } else {
            4096
        },
    );
    let manifest = given_bytes(scan, "--memory-lsm-manifest"@, 0x800_0000);
    let compaction = given_bytes(
        scan,
        "--memory-lsm-compaction"@,
        if development {
            53_248
        } else {
            118_784
        },
    );
    &&& 0x10_0000 <= storage <= 0x4000_0000 && storage % 4096 == 0
    &&& (scan.u32("--limit-pipeline-requests"@) matches Some(limit) ==> limit <= 3)
    &&& request == 4096
    &&& 0x10_0000 <= manifest <= 0x10_0000_0000 && manifest % 0x10_0000 == 0
    &&& 53_248 <= compaction <= 0xfff_ffff_f000 && compaction % 4096 == 0
}

/// The file for the log of requests is named once, and not by too long a path.
pub open spec fn is_aof_file(scan: Scan) -> bool {
    if scan.bool("--aof"@) {
        scan.text("--aof-file"@) is None && byte_length(scan.positionals[0]) <= 4092
    } else {
        scan.text("--aof-file"@) matches Some(file) ==> byte_length(file) <= 4096 && ends_in(
            file,
            ".aof"@,
        )
    }
}

/// No cache has more values than fit 32 bits.
pub open spec fn are_caches_small(scan: Scan) -> bool {
    let development = scan.bool("--development"@);
    let accounts = cache_bytes(
        scan,
        "--cache-accounts"@,
        32,
        if development {
            0
        } else {
            0x800_0000
        },
    );
    let transfers = cache_bytes(scan, "--cache-transfers"@, 0, 0);
    let transfers_pending = cache_bytes(
        scan,
        "--cache-transfers-pending"@,
        4,
        if development {
            0
        } else {
            0x100_0000
        },
    );
    let grid = cache_bytes(
        scan,
        "--cache-grid"@,
        64,
        if development {
            0x10_0000
        } else {
            0xc000_0000
        },
    );
    &&& values_of_256(accounts, 128) <= 0xffff_ffff
    &&& values_of_256(transfers, 128) <= 0xffff_ffff
    &&& values_of_256(transfers_pending, 16) <= 0xffff_ffff
    &&& values_of_256(grid, 4096) <= 0xffff_ffff
}

/// A number of bytes is that many bytes.
proof fn lemma_bytes(value: u64)
    ensures
        ByteSize::spec_of_bytes(value).spec_bytes() == value,
{
    assert(value as nat * 1 == value) by (nonlinear_arith);
}

/// The limits that hold where nothing else is said.
pub proof fn lemma_given_bytes(scan: Scan)
    ensures
        ({
            let development = scan.bool("--development"@);
            &&& storage_limit(scan).spec_bytes() == given_bytes(
                scan,
                "--limit-storage"@,
                0x4000_0000,
            )
            &&& request_limit(scan).spec_bytes() == given_bytes(
                scan,
                "--limit-request"@,
                if development {
                    0x8000
                } else {
                    4096
                },
            )
            &&& manifest_memory(scan).spec_bytes() == given_bytes(
                scan,
                "--memory-lsm-manifest"@,
                0x800_0000,
            )
            &&& compaction_memory(scan).spec_bytes() == given_bytes(
                scan,
                "--memory-lsm-compaction"@,
                if development {
                    53_248
                } else {
                    118_784
                },
            )
        }),
{
    lemma_start_defaults();
    lemma_bytes(0x4000_0000);
    lemma_bytes(0x8000);
    lemma_bytes(4096);
    lemma_bytes(0x800_0000);
    lemma_bytes(53_248);
    lemma_bytes(118_784);
}

proof fn lemma_limits(scan: Scan)
    ensures
        limits_error(scan) is None <==> is_within_limits(scan),
{
    lemma_start_defaults();
    lemma_given_bytes(scan);
    assert(pipeline_error(pipeline_limit(scan)) is None <==> match scan.u32(
        "--limit-pipeline-requests"@,
    ) {
        Some(limit) => limit <= 3,
        None => true,
    });
    assert(storage_error(storage_limit(scan)) is None <==> ({
        let storage = given_bytes(scan, "--limit-storage"@, 0x4000_0000);
        0x10_0000 <= storage <= 0x4000_0000 && storage % 4096 == 0
    }));
    assert(request_error(request_limit(scan)) is None <==> given_bytes(
        scan,
        "--limit-request"@,
        if scan.bool("--development"@) {
            0x8000
        } else {
            4096
        },
    ) == 4096);
    assert(manifest_memory_error(manifest_memory(scan)) is None <==> ({
        let manifest = given_bytes(scan, "--memory-lsm-manifest"@, 0x800_0000);
        0x10_0000 <= manifest <= 0x10_0000_0000 && manifest % 0x10_0000 == 0
    }));
    assert(compaction_error(compaction_memory(scan)) is None <==> ({
        let compaction = given_bytes(
            scan,
            "--memory-lsm-compaction"@,
            if scan.bool("--development"@) {
                53_248
            } else {
                118_784
            },
        );
        53_248 <= compaction <= 0xfff_ffff_f000 && compaction % 4096 == 0
    }));
}

/// A replica is started if its addresses are known, no flag is set without the one that it takes,
/// every size is within its limits, and no two flags say the same thing.
#[verifier::rlimit(40)]
pub proof fn law_start_has_limits(scan: Scan)
    ensures
        start_error(scan) is None <==> {
            &&& scan.cluster("--addresses"@) is Some
            &&& scan.bool("--experimental"@) || is_not_experimental(scan)
            &&& scan.size("--memory"@) is None || {
                &&& !scan.is_set("--cache-grid"@)
                &&& !scan.is_set("--cache-accounts"@)
                &&& !scan.is_set("--cache-transfers"@)
                &&& !scan.is_set("--cache-transfers-pending"@)
            }
            &&& is_within_limits(scan)
            &&& is_aof_file(scan)
            &&& scan.bool("--log-trace"@) ==> scan.bool("--log-debug"@)
            &&& are_caches_small(scan)
            &&& is_timeout(scan.u64("--timeout-prepare-ms"@))
            &&& is_timeout(scan.u64("--timeout-grid-repair-message-ms"@))
        },
{
    lemma_experimental(scan);
    lemma_memory_excludes(scan);
    lemma_cache_counts(scan);
    lemma_caches_bytes(scan);
    lemma_start_defaults();
    lemma_limits(scan);
    assert(aof_error(scan) is None <==> is_aof_file(scan));
    assert(caches_error(scan) is None <==> are_caches_small(scan));
}

/// Every flag of `start` goes to a field of its own.
pub proof fn law_start_takes_its_flags(args: Seq<Seq<char>>, command: CommandStart)
    requires
        start_outcome(args, Ok::<CommandStart, String>(command)),
    ensures
        scanned(args, spec_start_flags(), Some("path"@)) is Ok,
        ({
            let scan = scanned(args, spec_start_flags(), Some("path"@))->Ok_0;
            let development = scan.bool("--development"@);
            &&& start_error(scan) is None
            &&& scan.cluster("--addresses"@) == Some(
                (command.addresses.zero, command.addresses.addresses@),
            )
            &&& command.storage_size_limit == given_bytes(scan, "--limit-storage"@, 0x4000_0000)
            &&& command.pipeline_requests_limit == match scan.u32("--limit-pipeline-requests"@) {
                Some(limit) => limit,
                None => 0,
            }
            &&& command.request_size_limit == given_bytes(
                scan,
                "--limit-request"@,
                if development {
                    0x8000
                } else {
                    4096
                },
            )
            &&& command.lsm_forest_node_count == given_bytes(
                scan,
                "--memory-lsm-manifest"@,
                0x800_0000,
            ) / 16_384
            &&& command.lsm_forest_compaction_block_count == given_bytes(
                scan,
                "--memory-lsm-compaction"@,
                if development {
                    53_248
                } else {
                    118_784
                },
            ) / 4096
            &&& command.timeout_prepare_ticks == match scan.u64("--timeout-prepare-ms"@) {
                Some(ms) => Some((ms / 10) as u64),
                None => None,
            }
            &&& command.timeout_grid_repair_message_ticks == match scan.u64(
                "--timeout-grid-repair-message-ms"@,
            ) {
                Some(ms) => Some((ms / 10) as u64),
                None => None,
            }
            &&& command.commit_stall_probability == scan.ratio("--commit-stall-probability"@)
            &&& command.commit_stall_lag_min == scan.u32("--commit-stall-lag-min"@)
            &&& command.commit_stall_lag_max == scan.u32("--commit-stall-lag-max"@)
            &&& command.commit_stall_multiple_max == scan.u16("--commit-stall-multiple-max"@)
            &&& optional_text(command.trace) == scan.text("--trace"@)
            &&& command.development == scan.bool("--development"@)
            &&& command.experimental == scan.bool("--experimental"@)
            &&& command.replicate_star == scan.bool("--replicate-star"@)
            &&& optional_text(command.aof_file) == if scan.bool("--aof"@) {
                Some(command.path@ + ".aof"@)
            } else {
                scan.text("--aof-file"@)
            }
            &&& command.aof_recovery == scan.bool("--aof-recovery"@)
            &&& command.path@ == scan.positionals[0]
            &&& command.log_debug == scan.bool("--log-debug"@)
            &&& command.log_trace == scan.bool("--log-trace"@)
            &&& command.statsd == scan.socket("--statsd"@)
            &&& is_cache_counts(
                CacheCounts {
                    accounts: command.cache_accounts,
                    transfers: command.cache_transfers,
                    transfers_pending: command.cache_transfers_pending,
                    grid_blocks: command.cache_grid_blocks,
                },
                scan,
            )
        }),
{
    lemma_start_defaults();
    lemma_given_bytes(scanned(args, spec_start_flags(), Some("path"@))->Ok_0);
}

/// What each flag of `start` takes.
pub proof fn law_start_flags_have_kinds()
    ensures
        spec_start_flags().len() == 27,
        spec_start_flags().contains((Named { flag: "--addresses", kind: NamedKind::Cluster })),
        spec_start_flags().contains((Named { flag: "--aof", kind: NamedKind::Bool })),
        spec_start_flags().contains((Named { flag: "--aof-file", kind: NamedKind::Text })),
        spec_start_flags().contains((Named { flag: "--aof-recovery", kind: NamedKind::Bool })),
        spec_start_flags().contains((Named { flag: "--cache-accounts", kind: NamedKind::Size })),
        spec_start_flags().contains((Named { flag: "--cache-grid", kind: NamedKind::Size })),
        spec_start_flags().contains((Named { flag: "--cache-transfers", kind: NamedKind::Size })),
        spec_start_flags().contains(
            (Named { flag: "--cache-transfers-pending", kind: NamedKind::Size }),
        ),
        spec_start_flags().contains(
            (Named { flag: "--commit-stall-lag-max", kind: NamedKind::U32 }),
        ),
        spec_start_flags().contains(
            (Named { flag: "--commit-stall-lag-min", kind: NamedKind::U32 }),
        ),
        spec_start_flags().contains(
            (Named { flag: "--commit-stall-multiple-max", kind: NamedKind::U16 }),
        ),
        spec_start_flags().contains(
            (Named { flag: "--commit-stall-probability", kind: NamedKind::Ratio }),
        ),
        spec_start_flags().contains((Named { flag: "--development", kind: NamedKind::Bool })),
        spec_start_flags().contains((Named { flag: "--experimental", kind: NamedKind::Bool })),
        spec_start_flags().contains(
            (Named { flag: "--limit-pipeline-requests", kind: NamedKind::U32 }),
        ),
        spec_start_flags().contains((Named { flag: "--limit-request", kind: NamedKind::Size })),
        spec_start_flags().contains((Named { flag: "--limit-storage", kind: NamedKind::Size })),
        spec_start_flags().contains((Named { flag: "--log-debug", kind: NamedKind::Bool })),
        spec_start_flags().contains((Named { flag: "--log-trace", kind: NamedKind::Bool })),
        spec_start_flags().contains((Named { flag: "--memory", kind: NamedKind::Size })),
        spec_start_flags().contains(
            (Named { flag: "--memory-lsm-compaction", kind: NamedKind::Size }),
        ),
        spec_start_flags().contains(
            (Named { flag: "--memory-lsm-manifest", kind: NamedKind::Size }),
        ),
        spec_start_flags().contains((Named { flag: "--replicate-star", kind: NamedKind::Bool })),
        spec_start_flags().contains(
            (Named { flag: "--statsd", kind: NamedKind::Socket { default_port: 8125 } }),
        ),
        spec_start_flags().contains(
            (Named { flag: "--timeout-grid-repair-message-ms", kind: NamedKind::U64 }),
        ),
        spec_start_flags().contains((Named { flag: "--timeout-prepare-ms", kind: NamedKind::U64 })),
        spec_start_flags().contains((Named { flag: "--trace", kind: NamedKind::Text })),
{
    let flags = spec_start_flags();
    assert(flags[0] == (Named { flag: "--timeout-grid-repair-message-ms", kind: NamedKind::U64 }));
    assert(flags[1] == (Named { flag: "--commit-stall-multiple-max", kind: NamedKind::U16 }));
    assert(flags[2] == (Named { flag: "--commit-stall-probability", kind: NamedKind::Ratio }));
    assert(flags[3] == (Named { flag: "--commit-stall-lag-max", kind: NamedKind::U32 }));
    assert(flags[4] == (Named { flag: "--commit-stall-lag-min", kind: NamedKind::U32 }));
    assert(flags[5] == (Named { flag: "--timeout-prepare-ms", kind: NamedKind::U64 }));
    assert(flags[6] == (Named { flag: "--limit-pipeline-requests", kind: NamedKind::U32 }));
    assert(flags[7] == (Named { flag: "--cache-transfers-pending", kind: NamedKind::Size }));
    assert(flags[8] == (Named { flag: "--memory-lsm-compaction", kind: NamedKind::Size }));
    assert(flags[9] == (Named { flag: "--memory-lsm-manifest", kind: NamedKind::Size }));
    assert(flags[10] == (Named { flag: "--aof-recovery", kind: NamedKind::Bool }));
    assert(flags[11] == (Named { flag: "--aof-file", kind: NamedKind::Text }));
    assert(flags[12] == (Named { flag: "--cache-transfers", kind: NamedKind::Size }));
    assert(flags[13] == (Named { flag: "--cache-accounts", kind: NamedKind::Size }));
    assert(flags[14] == (Named { flag: "--limit-request", kind: NamedKind::Size }));
    assert(flags[15] == (Named { flag: "--limit-storage", kind: NamedKind::Size }));
    assert(flags[16] == (Named { flag: "--cache-grid", kind: NamedKind::Size }));
    assert(flags[17] == (Named { flag: "--replicate-star", kind: NamedKind::Bool }));
    assert(flags[18] == (Named { flag: "--experimental", kind: NamedKind::Bool }));
    assert(flags[19] == (Named { flag: "--development", kind: NamedKind::Bool }));
    assert(flags[20] == (Named { flag: "--log-trace", kind: NamedKind::Bool }));
    assert(flags[21] == (Named { flag: "--log-debug", kind: NamedKind::Bool }));
    assert(flags[22] == (Named { flag: "--addresses", kind: NamedKind::Cluster }));
    assert(flags[23] == (Named { flag: "--memory", kind: NamedKind::Size }));
    assert(flags[24] == (Named { flag: "--trace", kind: NamedKind::Text }));
    assert(flags[25] == (Named { flag: "--statsd", kind: NamedKind::Socket { default_port: 8125 } }));
    assert(flags[26] == (Named { flag: "--aof", kind: NamedKind::Bool }));
}

/// An operator is told of the deprecated flags that are set, where nothing is wrong.
pub proof fn law_deprecated_flags_are_told(args: Seq<Seq<char>>)
    requires
        scanned(args, spec_start_flags(), Some("path"@)) is Ok,
        start_error(scanned(args, spec_start_flags(), Some("path"@))->Ok_0) is None,
    ensures
        ({
            let scan = scanned(args, spec_start_flags(), Some("path"@))->Ok_0;
            let lines = spec_start_notices(args);
            &&& lines.len() == (if scan.bool("--aof"@) {
                1int
            } else {
                0int
            }) + if scan.bool("--replicate-star"@) {
                1int
            } else {
                0int
            }
            &&& scan.bool("--aof"@) ==> lines[0]
                == "--aof is deprecated. consider switching to '--aof-file="@ + (
            scan.positionals[0] + ".aof"@) + "'"@
            &&& scan.bool("--replicate-star"@) ==> lines[lines.len() - 1]
                == "--replicate-star is deprecated; star replication is now the default."@
        }),
{
}

} // verus!
