//! The command that measures a cluster.

use crate::cli::command::{
    cluster_meaning, optional_text, BenchmarkDistribution, BenchmarkIdOrder, CommandBenchmark,
};
use crate::cli::flags::{arguments, parse_flags, scanned, Named, NamedKind, Scan, Tags};
use crate::cli::text::{decimal, decimal_text, join2};
use crate::constants::{ACCOUNT_SIZE, MESSAGE_BODY_SIZE_MAX, TRANSFER_SIZE};
use vstd::prelude::*;

verus! {

/// The accounts in a message at most.
pub const ACCOUNT_BATCH_COUNT_MAX: u32 = 30;

/// The transfers in a message at most.
pub const TRANSFER_BATCH_COUNT_MAX: u32 = 30;

/// The largest batches fill a message.
pub proof fn law_largest_batches_fill_a_message()
    ensures
        ACCOUNT_BATCH_COUNT_MAX == MESSAGE_BODY_SIZE_MAX as int / ACCOUNT_SIZE as int,
        TRANSFER_BATCH_COUNT_MAX == MESSAGE_BODY_SIZE_MAX as int / TRANSFER_SIZE as int,
{
}

pub open spec fn spec_benchmark_flags() -> Seq<Named> {
    seq![
        Named { flag: "--cache-transfers-pending", kind: NamedKind::Text },
        Named { flag: "--checksum-performance", kind: NamedKind::Bool },
        Named { flag: "--print-batch-timings", kind: NamedKind::Bool },
        Named { flag: "--transfer-batch-count", kind: NamedKind::U32 },
        Named { flag: "--transfer-hot-percent", kind: NamedKind::U32 },
        Named { flag: "--account-batch-count", kind: NamedKind::U32 },
        Named { flag: "--account-distribution", kind: NamedKind::Enum(Tags::Distribution) },
        Named { flag: "--account-count-hot", kind: NamedKind::U32 },
        Named { flag: "--transfer-batch-delay", kind: NamedKind::DurationNs },
        Named { flag: "--log-debug-replica", kind: NamedKind::Bool },
        Named { flag: "--cache-transfers", kind: NamedKind::Text },
        Named { flag: "--cache-accounts", kind: NamedKind::Text },
        Named { flag: "--account-count", kind: NamedKind::U64 },
        Named { flag: "--transfer-count", kind: NamedKind::U64 },
        Named { flag: "--no-history", kind: NamedKind::Bool },
        Named { flag: "--transfer-pending", kind: NamedKind::Bool },
        Named { flag: "--query-count", kind: NamedKind::U32 },
        Named { flag: "--cache-grid", kind: NamedKind::Text },
        Named { flag: "--log-debug", kind: NamedKind::Bool },
        Named { flag: "--id-order", kind: NamedKind::Enum(Tags::IdOrder) },
        Named { flag: "--validate", kind: NamedKind::Bool },
        Named { flag: "--imported", kind: NamedKind::Bool },
        Named { flag: "--clients", kind: NamedKind::U32 },
        Named { flag: "--memory", kind: NamedKind::Text },
        Named { flag: "--statsd", kind: NamedKind::Text },
        Named { flag: "--trace", kind: NamedKind::Text },
        Named { flag: "--seed", kind: NamedKind::Text },
        Named { flag: "--file", kind: NamedKind::Text },
        Named { flag: "--addresses", kind: NamedKind::Cluster },
    ]
}

fn benchmark_flags() -> (result: Vec<Named>)
    ensures
        result@ == spec_benchmark_flags(),
{
    let mut flags: Vec<Named> = Vec::new();
    flags.push(Named { flag: "--cache-transfers-pending", kind: NamedKind::Text });
    flags.push(Named { flag: "--checksum-performance", kind: NamedKind::Bool });
    flags.push(Named { flag: "--print-batch-timings", kind: NamedKind::Bool });
    flags.push(Named { flag: "--transfer-batch-count", kind: NamedKind::U32 });
    flags.push(Named { flag: "--transfer-hot-percent", kind: NamedKind::U32 });
    flags.push(Named { flag: "--account-batch-count", kind: NamedKind::U32 });
    flags.push(Named { flag: "--account-distribution", kind: NamedKind::Enum(Tags::Distribution) });
    flags.push(Named { flag: "--account-count-hot", kind: NamedKind::U32 });
    flags.push(Named { flag: "--transfer-batch-delay", kind: NamedKind::DurationNs });
    flags.push(Named { flag: "--log-debug-replica", kind: NamedKind::Bool });
    flags.push(Named { flag: "--cache-transfers", kind: NamedKind::Text });
    flags.push(Named { flag: "--cache-accounts", kind: NamedKind::Text });
    flags.push(Named { flag: "--account-count", kind: NamedKind::U64 });
    flags.push(Named { flag: "--transfer-count", kind: NamedKind::U64 });
    flags.push(Named { flag: "--no-history", kind: NamedKind::Bool });
    flags.push(Named { flag: "--transfer-pending", kind: NamedKind::Bool });
    flags.push(Named { flag: "--query-count", kind: NamedKind::U32 });
    flags.push(Named { flag: "--cache-grid", kind: NamedKind::Text });
    flags.push(Named { flag: "--log-debug", kind: NamedKind::Bool });
    flags.push(Named { flag: "--id-order", kind: NamedKind::Enum(Tags::IdOrder) });
    flags.push(Named { flag: "--validate", kind: NamedKind::Bool });
    flags.push(Named { flag: "--imported", kind: NamedKind::Bool });
    flags.push(Named { flag: "--clients", kind: NamedKind::U32 });
    flags.push(Named { flag: "--memory", kind: NamedKind::Text });
    flags.push(Named { flag: "--statsd", kind: NamedKind::Text });
    flags.push(Named { flag: "--trace", kind: NamedKind::Text });
    flags.push(Named { flag: "--seed", kind: NamedKind::Text });
    flags.push(Named { flag: "--file", kind: NamedKind::Text });
    flags.push(Named { flag: "--addresses", kind: NamedKind::Cluster });
    assert(flags@ =~= spec_benchmark_flags());
    flags
}

/// A value that was given, or else the default.
pub open spec fn given<T>(value: Option<T>, default: T) -> T {
    match value {
        Some(value) => value,
        None => default,
    }
}

fn or_default<T>(value: Option<T>, default: T) -> (result: T)
    ensures
        result == given(value, default),
{
    match value {
        Some(value) => value,
        None => default,
    }
}

/// Which accounts a word picks.
pub open spec fn spec_distribution(word: Option<usize>) -> BenchmarkDistribution {
    if word == Some(0usize) {
        BenchmarkDistribution::Zipfian
    } else if word == Some(1usize) {
        BenchmarkDistribution::Latest
    } else {
        BenchmarkDistribution::Uniform
    }
}

fn distribution(word: Option<usize>) -> (result: BenchmarkDistribution)
    ensures
        result == spec_distribution(word),
{
    match word {
        Some(0) => BenchmarkDistribution::Zipfian,
        Some(1) => BenchmarkDistribution::Latest,
        _ => BenchmarkDistribution::Uniform,
    }
}

/// The order of ids that a word means.
pub open spec fn spec_id_order(word: Option<usize>) -> BenchmarkIdOrder {
    if word == Some(1usize) {
        BenchmarkIdOrder::Sequential
    } else if word == Some(2usize) {
        BenchmarkIdOrder::Random
    } else if word == Some(3usize) {
        BenchmarkIdOrder::Reversed
    } else {
        BenchmarkIdOrder::Tbid
    }
}

fn id_order(word: Option<usize>) -> (result: BenchmarkIdOrder)
    ensures
        result == spec_id_order(word),
{
    match word {
        Some(1) => BenchmarkIdOrder::Sequential,
        Some(2) => BenchmarkIdOrder::Random,
        Some(3) => BenchmarkIdOrder::Reversed,
        _ => BenchmarkIdOrder::Tbid,
    }
}

/// A batch that is empty or too large.
pub open spec fn batch_error(flag: Seq<char>, count: u32, most: u32) -> Option<Seq<char>> {
    if count == 0 {
        Some(flag + " must be greater than 0"@)
    } else if count > most {
        Some(flag + " must be less than or equal to "@ + decimal(most as nat))
    } else {
        None
    }
}

fn check_batch(flag: &str, count: u32, most: u32) -> (result: Result<(), String>)
    ensures
        match result {
            Ok(_) => batch_error(flag@, count, most) is None,
            Err(message) => batch_error(flag@, count, most) == Some(message@),
        },
{
    if count == 0 {
        return Err(join2(flag, " must be greater than 0"));
    }
    if count > most {
        let mut message = join2(flag, " must be less than or equal to ");
        message.append(decimal_text(most as u128).as_str());
        return Err(message);
    }
    Ok(())
}

/// What is wrong with the flags of `benchmark`.
pub open spec fn benchmark_error(scan: Scan) -> Option<Seq<char>> {
    let accounts = batch_error(
        "--account-batch-count"@,
        given(scan.u32("--account-batch-count"@), ACCOUNT_BATCH_COUNT_MAX),
        ACCOUNT_BATCH_COUNT_MAX,
    );
    if scan.cluster("--addresses"@) is Some && scan.text("--file"@) is Some {
        Some("--file: --addresses and --file are mutually exclusive"@)
    } else if accounts is Some {
        accounts
    } else {
        batch_error(
            "--transfer-batch-count"@,
            given(scan.u32("--transfer-batch-count"@), TRANSFER_BATCH_COUNT_MAX),
            TRANSFER_BATCH_COUNT_MAX,
        )
    }
}

/// The command that the flags of `benchmark` say.
pub open spec fn is_benchmark(command: CommandBenchmark, scan: Scan) -> bool {
    &&& optional_text(command.cache_accounts) == scan.text("--cache-accounts"@)
    &&& optional_text(command.cache_transfers) == scan.text("--cache-transfers"@)
    &&& optional_text(command.cache_transfers_pending) == scan.text("--cache-transfers-pending"@)
    &&& optional_text(command.cache_grid) == scan.text("--cache-grid"@)
    &&& optional_text(command.memory) == scan.text("--memory"@)
    &&& optional_text(command.statsd) == scan.text("--statsd"@)
    &&& optional_text(command.trace) == scan.text("--trace"@)
    &&& optional_text(command.file) == scan.text("--file"@)
    &&& optional_text(command.seed) == scan.text("--seed"@)
    &&& command.log_debug == scan.bool("--log-debug"@)
    &&& command.log_debug_replica == scan.bool("--log-debug-replica"@)
    &&& command.no_history == scan.bool("--no-history"@)
    &&& command.imported == scan.bool("--imported"@)
    &&& command.transfer_pending == scan.bool("--transfer-pending"@)
    &&& command.validate == scan.bool("--validate"@)
    &&& command.checksum_performance == scan.bool("--checksum-performance"@)
    &&& command.print_batch_timings == scan.bool("--print-batch-timings"@)
    &&& command.account_count == given(scan.u64("--account-count"@), 10_000u64)
    &&& command.account_count_hot == given(scan.u32("--account-count-hot"@), 0u32)
    &&& command.account_batch_count == given(
        scan.u32("--account-batch-count"@),
        ACCOUNT_BATCH_COUNT_MAX,
    )
    &&& command.transfer_count == given(scan.u64("--transfer-count"@), 10_000_000u64)
    &&& command.transfer_hot_percent == given(scan.u32("--transfer-hot-percent"@), 100u32)
    &&& command.transfer_batch_count == given(
        scan.u32("--transfer-batch-count"@),
        TRANSFER_BATCH_COUNT_MAX,
    )
    &&& command.query_count == given(scan.u32("--query-count"@), 100u32)
    &&& command.clients == given(scan.u32("--clients"@), 1u32)
    &&& command.transfer_batch_delay == given(scan.duration("--transfer-batch-delay"@), 0u64)
    &&& command.account_distribution == spec_distribution(scan.word("--account-distribution"@))
    &&& command.id_order == spec_id_order(scan.word("--id-order"@))
    &&& scan.cluster("--addresses"@) == match command.addresses {
        Some(addresses) => Some(cluster_meaning(addresses)),
        None => None,
    }
}

/// What `benchmark` gives for its arguments.
pub open spec fn benchmark_outcome(
    args: Seq<Seq<char>>,
    result: Result<CommandBenchmark, String>,
) -> bool {
    match (scanned(args, spec_benchmark_flags(), None), result) {
        (Err(message), Err(text)) => text@ == message,
        (Err(_), Ok(_)) => false,
        (Ok(scan), Err(text)) => benchmark_error(scan) == Some(text@),
        (Ok(scan), Ok(command)) => benchmark_error(scan) is None && is_benchmark(
            command,
            scan,
        ),
    }
}

/// Reads the arguments of `benchmark`.
///
/// # Errors
/// A message if the arguments are no command.
#[verifier::rlimit(60)]
pub fn parse_args_benchmark(args: &[String]) -> (result: Result<CommandBenchmark, String>)
    ensures
        benchmark_outcome(arguments(args@), result),
{
    let flags = match parse_flags(args, &benchmark_flags(), None) {
        Ok(flags) => flags,
        Err(message) => {
            return Err(message);
        },
    };
    let addresses = flags.cluster("--addresses");
    let file = flags.text("--file");
    if addresses.is_some() && file.is_some() {
        return Err("--file: --addresses and --file are mutually exclusive".to_owned());
    }
    let account_batch_count: u32 = or_default(
        flags.u32("--account-batch-count"),
        ACCOUNT_BATCH_COUNT_MAX,
    );
    match check_batch("--account-batch-count", account_batch_count, ACCOUNT_BATCH_COUNT_MAX) {
        Ok(_) => {},
        Err(message) => {
            return Err(message);
        },
    }
    let transfer_batch_count: u32 = or_default(
        flags.u32("--transfer-batch-count"),
        TRANSFER_BATCH_COUNT_MAX,
    );
    match check_batch("--transfer-batch-count", transfer_batch_count, TRANSFER_BATCH_COUNT_MAX) {
        Ok(_) => {},
        Err(message) => {
            return Err(message);
        },
    }
    Ok(
        CommandBenchmark {
            cache_accounts: flags.text("--cache-accounts"),
            cache_transfers: flags.text("--cache-transfers"),
            cache_transfers_pending: flags.text("--cache-transfers-pending"),
            cache_grid: flags.text("--cache-grid"),
            memory: flags.text("--memory"),
            log_debug: flags.bool("--log-debug"),
            log_debug_replica: flags.bool("--log-debug-replica"),
            account_count: or_default(flags.u64("--account-count"), 10_000),
            account_count_hot: or_default(flags.u32("--account-count-hot"), 0),
            account_distribution: distribution(flags.word("--account-distribution")),
            no_history: flags.bool("--no-history"),
            imported: flags.bool("--imported"),
            account_batch_count,
            transfer_count: or_default(flags.u64("--transfer-count"), 10_000_000),
            transfer_hot_percent: or_default(flags.u32("--transfer-hot-percent"), 100),
            transfer_pending: flags.bool("--transfer-pending"),
            transfer_batch_count,
            transfer_batch_delay: or_default(flags.duration("--transfer-batch-delay"), 0),
            validate: flags.bool("--validate"),
            checksum_performance: flags.bool("--checksum-performance"),
            query_count: or_default(flags.u32("--query-count"), 100),
            print_batch_timings: flags.bool("--print-batch-timings"),
            id_order: id_order(flags.word("--id-order")),
            clients: or_default(flags.u32("--clients"), 1),
            statsd: flags.text("--statsd"),
            trace: flags.text("--trace"),
            file,
            addresses,
            seed: flags.text("--seed"),
        },
    )
}

/// What each flag of `benchmark` takes.
pub proof fn law_benchmark_flags_have_kinds()
    ensures
        spec_benchmark_flags().len() == 29,
        spec_benchmark_flags().contains(
            (Named { flag: "--account-batch-count", kind: NamedKind::U32 }),
        ),
        spec_benchmark_flags().contains((Named { flag: "--account-count", kind: NamedKind::U64 })),
        spec_benchmark_flags().contains(
            (Named { flag: "--account-count-hot", kind: NamedKind::U32 }),
        ),
        spec_benchmark_flags().contains(
            (Named { flag: "--account-distribution", kind: NamedKind::Enum(Tags::Distribution) }),
        ),
        spec_benchmark_flags().contains((Named { flag: "--addresses", kind: NamedKind::Cluster })),
        spec_benchmark_flags().contains(
            (Named { flag: "--cache-accounts", kind: NamedKind::Text }),
        ),
        spec_benchmark_flags().contains((Named { flag: "--cache-grid", kind: NamedKind::Text })),
        spec_benchmark_flags().contains(
            (Named { flag: "--cache-transfers", kind: NamedKind::Text }),
        ),
        spec_benchmark_flags().contains(
            (Named { flag: "--cache-transfers-pending", kind: NamedKind::Text }),
        ),
        spec_benchmark_flags().contains(
            (Named { flag: "--checksum-performance", kind: NamedKind::Bool }),
        ),
        spec_benchmark_flags().contains((Named { flag: "--clients", kind: NamedKind::U32 })),
        spec_benchmark_flags().contains((Named { flag: "--file", kind: NamedKind::Text })),
        spec_benchmark_flags().contains(
            (Named { flag: "--id-order", kind: NamedKind::Enum(Tags::IdOrder) }),
        ),
        spec_benchmark_flags().contains((Named { flag: "--imported", kind: NamedKind::Bool })),
        spec_benchmark_flags().contains((Named { flag: "--log-debug", kind: NamedKind::Bool })),
        spec_benchmark_flags().contains(
            (Named { flag: "--log-debug-replica", kind: NamedKind::Bool }),
        ),
        spec_benchmark_flags().contains((Named { flag: "--memory", kind: NamedKind::Text })),
        spec_benchmark_flags().contains((Named { flag: "--no-history", kind: NamedKind::Bool })),
        spec_benchmark_flags().contains(
            (Named { flag: "--print-batch-timings", kind: NamedKind::Bool }),
        ),
        spec_benchmark_flags().contains((Named { flag: "--query-count", kind: NamedKind::U32 })),
        spec_benchmark_flags().contains((Named { flag: "--seed", kind: NamedKind::Text })),
        spec_benchmark_flags().contains((Named { flag: "--statsd", kind: NamedKind::Text })),
        spec_benchmark_flags().contains((Named { flag: "--trace", kind: NamedKind::Text })),
        spec_benchmark_flags().contains(
            (Named { flag: "--transfer-batch-count", kind: NamedKind::U32 }),
        ),
        spec_benchmark_flags().contains(
            (Named { flag: "--transfer-batch-delay", kind: NamedKind::DurationNs }),
        ),
        spec_benchmark_flags().contains((Named { flag: "--transfer-count", kind: NamedKind::U64 })),
        spec_benchmark_flags().contains(
            (Named { flag: "--transfer-hot-percent", kind: NamedKind::U32 }),
        ),
        spec_benchmark_flags().contains(
            (Named { flag: "--transfer-pending", kind: NamedKind::Bool }),
        ),
        spec_benchmark_flags().contains((Named { flag: "--validate", kind: NamedKind::Bool })),
{
    let flags = spec_benchmark_flags();
    assert(flags[0] == (Named { flag: "--cache-transfers-pending", kind: NamedKind::Text }));
    assert(flags[1] == (Named { flag: "--checksum-performance", kind: NamedKind::Bool }));
    assert(flags[2] == (Named { flag: "--print-batch-timings", kind: NamedKind::Bool }));
    assert(flags[3] == (Named { flag: "--transfer-batch-count", kind: NamedKind::U32 }));
    assert(flags[4] == (Named { flag: "--transfer-hot-percent", kind: NamedKind::U32 }));
    assert(flags[5] == (Named { flag: "--account-batch-count", kind: NamedKind::U32 }));
    assert(flags[6] == (Named { flag: "--account-distribution", kind: NamedKind::Enum(Tags::Distribution) }));
    assert(flags[7] == (Named { flag: "--account-count-hot", kind: NamedKind::U32 }));
    assert(flags[8] == (Named { flag: "--transfer-batch-delay", kind: NamedKind::DurationNs }));
    assert(flags[9] == (Named { flag: "--log-debug-replica", kind: NamedKind::Bool }));
    assert(flags[10] == (Named { flag: "--cache-transfers", kind: NamedKind::Text }));
    assert(flags[11] == (Named { flag: "--cache-accounts", kind: NamedKind::Text }));
    assert(flags[12] == (Named { flag: "--account-count", kind: NamedKind::U64 }));
    assert(flags[13] == (Named { flag: "--transfer-count", kind: NamedKind::U64 }));
    assert(flags[14] == (Named { flag: "--no-history", kind: NamedKind::Bool }));
    assert(flags[15] == (Named { flag: "--transfer-pending", kind: NamedKind::Bool }));
    assert(flags[16] == (Named { flag: "--query-count", kind: NamedKind::U32 }));
    assert(flags[17] == (Named { flag: "--cache-grid", kind: NamedKind::Text }));
    assert(flags[18] == (Named { flag: "--log-debug", kind: NamedKind::Bool }));
    assert(flags[19] == (Named { flag: "--id-order", kind: NamedKind::Enum(Tags::IdOrder) }));
    assert(flags[20] == (Named { flag: "--validate", kind: NamedKind::Bool }));
    assert(flags[21] == (Named { flag: "--imported", kind: NamedKind::Bool }));
    assert(flags[22] == (Named { flag: "--clients", kind: NamedKind::U32 }));
    assert(flags[23] == (Named { flag: "--memory", kind: NamedKind::Text }));
    assert(flags[24] == (Named { flag: "--statsd", kind: NamedKind::Text }));
    assert(flags[25] == (Named { flag: "--trace", kind: NamedKind::Text }));
    assert(flags[26] == (Named { flag: "--seed", kind: NamedKind::Text }));
    assert(flags[27] == (Named { flag: "--file", kind: NamedKind::Text }));
    assert(flags[28] == (Named { flag: "--addresses", kind: NamedKind::Cluster }));
}


/// A cluster is measured where it is, or in a file, but not both. A batch holds one to thirty
/// accounts or transfers. Every flag goes to a field of its own.
#[verifier::rlimit(40)]
pub proof fn law_benchmark_takes_its_flags(
    args: Seq<Seq<char>>,
    result: Result<CommandBenchmark, String>,
)
    requires
        benchmark_outcome(args, result),
        scanned(args, spec_benchmark_flags(), None) is Ok,
    ensures
        ({
            let scan = scanned(args, spec_benchmark_flags(), None)->Ok_0;
            &&& result is Ok <==> {
                &&& scan.cluster("--addresses"@) is None || scan.text("--file"@) is None
                &&& match scan.u32("--account-batch-count"@) {
                    Some(count) => 1 <= count <= 30,
                    None => true,
                }
                &&& match scan.u32("--transfer-batch-count"@) {
                    Some(count) => 1 <= count <= 30,
                    None => true,
                }
            }
            &&& result matches Ok(command) ==> {
                &&& optional_text(command.cache_accounts) == scan.text("--cache-accounts"@)
                &&& optional_text(command.cache_transfers) == scan.text("--cache-transfers"@)
                &&& optional_text(command.cache_transfers_pending) == scan.text("--cache-transfers-pending"@)
                &&& optional_text(command.cache_grid) == scan.text("--cache-grid"@)
                &&& optional_text(command.memory) == scan.text("--memory"@)
                &&& optional_text(command.statsd) == scan.text("--statsd"@)
                &&& optional_text(command.trace) == scan.text("--trace"@)
                &&& optional_text(command.file) == scan.text("--file"@)
                &&& optional_text(command.seed) == scan.text("--seed"@)
                &&& command.log_debug == scan.bool("--log-debug"@)
                &&& command.log_debug_replica == scan.bool("--log-debug-replica"@)
                &&& command.no_history == scan.bool("--no-history"@)
                &&& command.imported == scan.bool("--imported"@)
                &&& command.transfer_pending == scan.bool("--transfer-pending"@)
                &&& command.validate == scan.bool("--validate"@)
                &&& command.checksum_performance == scan.bool("--checksum-performance"@)
                &&& command.print_batch_timings == scan.bool("--print-batch-timings"@)
                &&& match scan.u64("--account-count"@) {
                    Some(value) => command.account_count == value,
                    None => command.account_count == 10_000,
                }
                &&& match scan.u32("--account-count-hot"@) {
                    Some(value) => command.account_count_hot == value,
                    None => command.account_count_hot == 0,
                }
                &&& match scan.u32("--account-batch-count"@) {
                    Some(value) => command.account_batch_count == value,
                    None => command.account_batch_count == 30,
                }
                &&& match scan.u64("--transfer-count"@) {
                    Some(value) => command.transfer_count == value,
                    None => command.transfer_count == 10_000_000,
                }
                &&& match scan.u32("--transfer-hot-percent"@) {
                    Some(value) => command.transfer_hot_percent == value,
                    None => command.transfer_hot_percent == 100,
                }
                &&& match scan.u32("--transfer-batch-count"@) {
                    Some(value) => command.transfer_batch_count == value,
                    None => command.transfer_batch_count == 30,
                }
                &&& match scan.u32("--query-count"@) {
                    Some(value) => command.query_count == value,
                    None => command.query_count == 100,
                }
                &&& match scan.u32("--clients"@) {
                    Some(value) => command.clients == value,
                    None => command.clients == 1,
                }
                &&& match scan.duration("--transfer-batch-delay"@) {
                    Some(value) => command.transfer_batch_delay == value,
                    None => command.transfer_batch_delay == 0,
                }
                &&& command.account_distribution == match scan.word("--account-distribution"@) {
                    Some(0) => BenchmarkDistribution::Zipfian,
                    Some(1) => BenchmarkDistribution::Latest,
                    _ => BenchmarkDistribution::Uniform,
                }
                &&& command.id_order == match scan.word("--id-order"@) {
                    Some(1) => BenchmarkIdOrder::Sequential,
                    Some(2) => BenchmarkIdOrder::Random,
                    Some(3) => BenchmarkIdOrder::Reversed,
                    _ => BenchmarkIdOrder::Tbid,
                }
                &&& match command.addresses {
                    Some(addresses) => scan.cluster("--addresses"@) == Some(
                        (addresses.zero, addresses.addresses@),
                    ),
                    None => scan.cluster("--addresses"@) is None,
                }
            }
        }),
{
}

} // verus!
