//! Commands, as they come out of valid arguments.

use crate::cli::address::{ClusterAddress, SocketAddress};
use crate::cli::number::Ratio;
use vstd::prelude::*;

verus! {

/// What to do with arguments that are no command.
#[derive(Debug, PartialEq, Eq)]
pub enum ParseFailure {
    /// Print the text: the user asked for help.
    Help(&'static str),
    /// Print the message and fail.
    Fatal(String),
}

/// A command.
#[derive(Debug, PartialEq, Eq)]
pub enum Command {
    Format(CommandFormat),
    Recover(CommandRecover),
    Start(CommandStart),
    Version(CommandVersion),
    Repl(CommandRepl),
    Benchmark(CommandBenchmark),
    Inspect(CommandInspect),
    Multiversion(CommandMultiversion),
    Amqp(CommandAmqp),
}

/// Create the data file of a replica.
#[derive(Debug, PartialEq, Eq)]
pub struct CommandFormat {
    pub cluster: u128,
    pub replica: u8,
    pub replica_count: u8,
    pub development: bool,
    pub path: String,
    pub log_debug: bool,
}

/// Create the data file of a replica that lost its own.
#[derive(Debug, PartialEq, Eq)]
pub struct CommandRecover {
    pub cluster: u128,
    pub addresses: ClusterAddress,
    pub replica: u8,
    pub replica_count: u8,
    pub development: bool,
    pub path: String,
    pub log_debug: bool,
}

/// Run a replica.
#[derive(Debug, PartialEq, Eq)]
pub struct CommandStart {
    pub addresses: ClusterAddress,
    pub cache_accounts: u32,
    pub cache_transfers: u32,
    pub cache_transfers_pending: u32,
    pub storage_size_limit: u64,
    pub pipeline_requests_limit: u32,
    pub request_size_limit: u32,
    pub cache_grid_blocks: u32,
    pub lsm_forest_compaction_block_count: u32,
    pub lsm_forest_node_count: u32,
    pub timeout_prepare_ticks: Option<u64>,
    pub timeout_grid_repair_message_ticks: Option<u64>,
    pub commit_stall_probability: Option<Ratio>,
    pub commit_stall_lag_min: Option<u32>,
    pub commit_stall_lag_max: Option<u32>,
    pub commit_stall_multiple_max: Option<u16>,
    pub trace: Option<String>,
    pub development: bool,
    pub experimental: bool,
    pub replicate_star: bool,
    /// Present only if `--aof` or `--aof-file` was given.
    pub aof_file: Option<String>,
    pub aof_recovery: bool,
    pub path: String,
    pub log_debug: bool,
    pub log_trace: bool,
    pub statsd: Option<SocketAddress>,
}

/// Print the version.
#[derive(Debug, PartialEq, Eq)]
pub struct CommandVersion {
    pub verbose: bool,
}

/// Talk to a cluster.
#[derive(Debug, PartialEq, Eq)]
pub struct CommandRepl {
    pub addresses: ClusterAddress,
    pub cluster: u128,
    pub verbose: bool,
    pub statements: String,
    pub log_debug: bool,
}

/// Measure a cluster.
#[derive(Debug, PartialEq, Eq)]
pub struct CommandBenchmark {
    pub cache_accounts: Option<String>,
    pub cache_transfers: Option<String>,
    pub cache_transfers_pending: Option<String>,
    pub cache_grid: Option<String>,
    pub memory: Option<String>,
    pub log_debug: bool,
    pub log_debug_replica: bool,
    pub account_count: u64,
    pub account_count_hot: u32,
    pub account_distribution: BenchmarkDistribution,
    pub no_history: bool,
    pub imported: bool,
    pub account_batch_count: u32,
    pub transfer_count: u64,
    pub transfer_hot_percent: u32,
    pub transfer_pending: bool,
    pub transfer_batch_count: u32,
    /// In nanoseconds.
    pub transfer_batch_delay: u64,
    pub validate: bool,
    pub checksum_performance: bool,
    pub query_count: u32,
    pub print_batch_timings: bool,
    pub id_order: BenchmarkIdOrder,
    pub clients: u32,
    pub statsd: Option<String>,
    pub trace: Option<String>,
    pub file: Option<String>,
    pub addresses: Option<ClusterAddress>,
    pub seed: Option<String>,
}

/// The order of ids in a benchmark.
#[derive(Clone, Copy, Debug, PartialEq, Eq, Structural)]
pub enum BenchmarkIdOrder {
    Tbid,
    Sequential,
    Random,
    Reversed,
}

/// Which accounts a benchmark picks.
#[derive(Clone, Copy, Debug, PartialEq, Eq, Structural)]
pub enum BenchmarkDistribution {
    Zipfian,
    Latest,
    Uniform,
}

/// Look into a data file.
#[derive(Debug, PartialEq, Eq)]
pub enum CommandInspect {
    Constants,
    Metrics,
    Op(u64),
    DataFile(CommandInspectDataFile),
    Integrity(CommandInspectIntegrity),
}

/// Look at a part of a data file.
#[derive(Debug, PartialEq, Eq)]
pub struct CommandInspectDataFile {
    pub path: String,
    pub query: InspectQuery,
}

/// The part of a data file to look at.
#[derive(Debug, PartialEq, Eq)]
pub enum InspectQuery {
    Superblock,
    Wal { slot: Option<usize> },
    Replies { slot: Option<usize>, superblock_copy: Option<u8> },
    Grid { block: Option<u64>, superblock_copy: Option<u8> },
    Manifest { superblock_copy: Option<u8> },
    Tables { superblock_copy: Option<u8>, tree: String, level: Option<u8> },
}

/// Check all of a data file.
#[derive(Debug, PartialEq, Eq)]
pub struct CommandInspectIntegrity {
    pub path: String,
    pub log_debug: bool,
    pub seed: Option<String>,
    pub lsm_forest_node_count: u32,
    pub skip_wal: bool,
    pub skip_client_replies: bool,
    pub skip_grid: bool,
}

/// Print the versions in a binary.
#[derive(Debug, PartialEq, Eq)]
pub struct CommandMultiversion {
    pub path: String,
    pub log_debug: bool,
}

/// Publish events to a queue.
#[derive(Debug, PartialEq, Eq)]
pub struct CommandAmqp {
    pub addresses: ClusterAddress,
    pub cluster: u128,
    pub host: SocketAddress,
    pub user: String,
    pub password: String,
    pub vhost: String,
    pub publish_exchange: Option<String>,
    pub publish_routing_key: Option<String>,
    pub event_count_max: Option<u32>,
    pub idle_interval_ms: Option<u32>,
    pub requests_per_second_limit: Option<u32>,
    pub amqp_timeout_seconds: Option<u32>,
    pub tigerbeetle_timeout_seconds: Option<u32>,
    pub timestamp_last: Option<u64>,
    pub log_debug: bool,
}

impl Command {
    pub open spec fn spec_name(self) -> Seq<char> {
        match self {
            Command::Format(_) => "format"@,
            Command::Recover(_) => "recover"@,
            Command::Start(_) => "start"@,
            Command::Version(_) => "version"@,
            Command::Repl(_) => "repl"@,
            Command::Benchmark(_) => "benchmark"@,
            Command::Inspect(_) => "inspect"@,
            Command::Multiversion(_) => "multiversion"@,
            Command::Amqp(_) => "amqp"@,
        }
    }

    /// The name of the command, as the user writes it.
    #[must_use]
    pub fn name(&self) -> (result: &'static str)
        ensures
            result@ == self.spec_name(),
    {
        match self {
            Command::Format(_) => "format",
            Command::Recover(_) => "recover",
            Command::Start(_) => "start",
            Command::Version(_) => "version",
            Command::Repl(_) => "repl",
            Command::Benchmark(_) => "benchmark",
            Command::Inspect(_) => "inspect",
            Command::Multiversion(_) => "multiversion",
            Command::Amqp(_) => "amqp",
        }
    }
}

impl InspectQuery {
    pub open spec fn spec_name(self) -> Seq<char> {
        match self {
            InspectQuery::Superblock => "superblock"@,
            InspectQuery::Wal { .. } => "wal"@,
            InspectQuery::Replies { .. } => "replies"@,
            InspectQuery::Grid { .. } => "grid"@,
            InspectQuery::Manifest { .. } => "manifest"@,
            InspectQuery::Tables { .. } => "tables"@,
        }
    }
}

impl CommandInspect {
    pub open spec fn spec_name(self) -> Seq<char> {
        match self {
            CommandInspect::Constants => "constants"@,
            CommandInspect::Metrics => "metrics"@,
            CommandInspect::Op(_) => "op"@,
            CommandInspect::DataFile(_) => "data-file"@,
            CommandInspect::Integrity(_) => "integrity"@,
        }
    }
}

/// The name of a part of a data file.
#[must_use]
pub fn inspect_query_name(query: &InspectQuery) -> (result: &'static str)
    ensures
        result@ == query.spec_name(),
{
    match query {
        InspectQuery::Superblock => "superblock",
        InspectQuery::Wal { .. } => "wal",
        InspectQuery::Replies { .. } => "replies",
        InspectQuery::Grid { .. } => "grid",
        InspectQuery::Manifest { .. } => "manifest",
        InspectQuery::Tables { .. } => "tables",
    }
}

/// The name of a way to inspect.
#[must_use]
pub fn inspect_subcommand_name(command: &CommandInspect) -> (result: &'static str)
    ensures
        result@ == command.spec_name(),
{
    match command {
        CommandInspect::Constants => "constants",
        CommandInspect::Metrics => "metrics",
        CommandInspect::Op(_) => "op",
        CommandInspect::DataFile(_) => "data-file",
        CommandInspect::Integrity(_) => "integrity",
    }
}

/// The text of an optional string.
pub open spec fn optional_text(text: Option<String>) -> Option<Seq<char>> {
    match text {
        Some(text) => Some(text@),
        None => None,
    }
}

/// What the addresses of a cluster say.
pub open spec fn cluster_meaning(cluster: ClusterAddress) -> (bool, Seq<SocketAddress>) {
    (cluster.zero, cluster.addresses@)
}

} // verus!
