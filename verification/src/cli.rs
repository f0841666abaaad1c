//! The command line: commands are read and checked here, as far as that can be done without the
//! data file.

pub mod address;
pub mod amqp;
pub mod benchmark;
pub mod command;
pub mod flags;
pub mod help;
pub mod inspect;
pub mod number;
pub mod replica;
pub mod start;
pub mod text;

pub use crate::cli::command::{
    inspect_query_name, inspect_subcommand_name, BenchmarkDistribution, BenchmarkIdOrder, Command,
    CommandAmqp, CommandBenchmark, CommandFormat, CommandInspect, CommandInspectDataFile,
    CommandInspectIntegrity, CommandMultiversion, CommandRecover, CommandRepl, CommandStart,
    CommandVersion, InspectQuery, ParseFailure,
};
pub use crate::cli::help::{HELP, INSPECT_HELP};
pub use crate::cli::number::{ByteSize, ByteSizeUnit, Ratio};

use crate::cli::amqp::{amqp_outcome, parse_args_amqp};
use crate::cli::benchmark::{benchmark_outcome, parse_args_benchmark};
use crate::cli::flags::arguments;
use crate::cli::inspect::{inspect_outcome, parse_args_inspect};
use crate::cli::replica::{
    format_outcome, multiversion_outcome, parse_args_format, parse_args_multiversion,
    parse_args_recover, parse_args_repl, parse_args_version, recover_outcome, repl_outcome,
    version_outcome,
};
use crate::cli::start::{parse_args_start, spec_start_notices, start_notices, start_outcome};
use crate::cli::text::{
    begins_with, decimal, decimal_text, hexadecimal, hexadecimal_text, join2, join3, same,
    starts_with,
};
use crate::constants::{
    BLOCK_SIZE, DATA_FILE_SIZE_MIN, GRID_CACHE_SIZE_DEFAULT, MEMBERS_MAX, MESSAGE_SIZE_MAX,
    STORAGE_SIZE_LIMIT_MAX, SUPERBLOCK_COPIES, SUPERBLOCK_VERSION,
};
use vstd::prelude::*;

verus! {

/// The version of the program.
pub const VERSION: &'static str = "0.1.0";

/// The commands.
pub const SUBCOMMANDS: &'static str =
    "format, recover, start, version, repl, benchmark, inspect, multiversion, amqp";

/// The result of a command, or the message with which it failed.
pub type CliResult<T> = Result<T, String>;

/// What the program makes of its arguments: the command that the first of them names, read from
/// the others. A cluster that `format` does not name gets an id made from `drawn`.
pub open spec fn outcome(
    argv: Seq<Seq<char>>,
    drawn: u64,
    result: Result<Command, ParseFailure>,
) -> bool {
    if argv.len() == 0 {
        result matches Err(ParseFailure::Fatal(message)) && message@
            == "subcommand required, expected "@ + SUBCOMMANDS@
    } else if argv[0] == "-h"@ || argv[0] == "--help"@ {
        result matches Err(ParseFailure::Help(help)) && help@ == HELP@
    } else {
        let rest = argv.skip(1);
        if argv[0] == "format"@ {
            match result {
                Ok(Command::Format(command)) => format_outcome(
                    rest,
                    drawn,
                    Ok(command),
                ),
                Err(ParseFailure::Fatal(message)) => format_outcome(
                    rest,
                    drawn,
                    Err(message),
                ),
                _ => false,
            }
        } else if argv[0] == "recover"@ {
            match result {
                Ok(Command::Recover(command)) => recover_outcome(rest, Ok(command)),
                Err(ParseFailure::Fatal(message)) => recover_outcome(rest, Err(message)),
                _ => false,
            }
        } else if argv[0] == "start"@ {
            match result {
                Ok(Command::Start(command)) => start_outcome(rest, Ok(command)),
                Err(ParseFailure::Fatal(message)) => start_outcome(rest, Err(message)),
                _ => false,
            }
        } else if argv[0] == "version"@ {
            match result {
                Ok(Command::Version(command)) => version_outcome(rest, Ok(command)),
                Err(ParseFailure::Fatal(message)) => version_outcome(rest, Err(message)),
                _ => false,
            }
        } else if argv[0] == "repl"@ {
            match result {
                Ok(Command::Repl(command)) => repl_outcome(rest, Ok(command)),
                Err(ParseFailure::Fatal(message)) => repl_outcome(rest, Err(message)),
                _ => false,
            }
        } else if argv[0] == "benchmark"@ {
            match result {
                Ok(Command::Benchmark(command)) => benchmark_outcome(rest, Ok(command)),
                Err(ParseFailure::Fatal(message)) => benchmark_outcome(rest, Err(message)),
                _ => false,
            }
        } else if argv[0] == "inspect"@ {
            match result {
                Ok(Command::Inspect(command)) => inspect_outcome(rest, Ok(command)),
                Err(failure) => inspect_outcome(rest, Err(failure)),
                _ => false,
            }
        } else if argv[0] == "multiversion"@ {
            match result {
                Ok(Command::Multiversion(command)) => multiversion_outcome(rest, Ok(command)),
                Err(ParseFailure::Fatal(message)) => multiversion_outcome(rest, Err(message)),
                _ => false,
            }
        } else if argv[0] == "amqp"@ {
            match result {
                Ok(Command::Amqp(command)) => amqp_outcome(rest, Ok(command)),
                Err(ParseFailure::Fatal(message)) => amqp_outcome(rest, Err(message)),
                _ => false,
            }
        } else {
            result matches Err(ParseFailure::Fatal(message)) && message@
                == "unknown subcommand: '"@ + argv[0] + "'"@
        }
    }
}

/// Reads the arguments of the program, without its name.
///
/// # Errors
/// A message if the arguments are no command, or the help that was asked for.
pub fn parse_args(argv: &[String], drawn: u64) -> (result: Result<
    Command,
    ParseFailure,
>)
    ensures
        outcome(arguments(argv@), drawn, result),
{
    if argv.len() == 0 {
        return Err(ParseFailure::Fatal(join2("subcommand required, expected ", SUBCOMMANDS)));
    }
    let word = argv[0].as_str();
    if same(word, "-h") || same(word, "--help") {
        return Err(ParseFailure::Help(HELP));
    }
    let rest = vstd::slice::slice_subrange(argv, 1, argv.len());
    assert(arguments(rest@) =~= arguments(argv@).skip(1));
    if same(word, "format") {
        match parse_args_format(rest, drawn) {
            Ok(command) => Ok(Command::Format(command)),
            Err(message) => Err(ParseFailure::Fatal(message)),
        }
    } else if same(word, "recover") {
        match parse_args_recover(rest) {
            Ok(command) => Ok(Command::Recover(command)),
            Err(message) => Err(ParseFailure::Fatal(message)),
        }
    } else if same(word, "start") {
        match parse_args_start(rest) {
            Ok(command) => Ok(Command::Start(command)),
            Err(message) => Err(ParseFailure::Fatal(message)),
        }
    } else if same(word, "version") {
        match parse_args_version(rest) {
            Ok(command) => Ok(Command::Version(command)),
            Err(message) => Err(ParseFailure::Fatal(message)),
        }
    } else if same(word, "repl") {
        match parse_args_repl(rest) {
            Ok(command) => Ok(Command::Repl(command)),
            Err(message) => Err(ParseFailure::Fatal(message)),
        }
    } else if same(word, "benchmark") {
        match parse_args_benchmark(rest) {
            Ok(command) => Ok(Command::Benchmark(command)),
            Err(message) => Err(ParseFailure::Fatal(message)),
        }
    } else if same(word, "inspect") {
        match parse_args_inspect(rest) {
            Ok(command) => Ok(Command::Inspect(command)),
            Err(failure) => Err(failure),
        }
    } else if same(word, "multiversion") {
        match parse_args_multiversion(rest) {
            Ok(command) => Ok(Command::Multiversion(command)),
            Err(message) => Err(ParseFailure::Fatal(message)),
        }
    } else if same(word, "amqp") {
        match parse_args_amqp(rest) {
            Ok(command) => Ok(Command::Amqp(command)),
            Err(message) => Err(ParseFailure::Fatal(message)),
        }
    } else {
        Err(ParseFailure::Fatal(join3("unknown subcommand: '", word, "'")))
    }
}

/// What the program does for a command.
#[derive(Debug, PartialEq, Eq)]
pub enum Action {
    /// Print the lines.
    Print(Vec<String>),
    /// Create a data file of the given size.
    Format { size: u64 },
    /// Print the superblock of a data file.
    InspectSuperblock,
    /// Fail: nothing runs the command.
    Fail(String),
}

/// The message for a command that nothing runs.
pub open spec fn deferred(command: Command) -> Seq<char> {
    match command {
        Command::Inspect(CommandInspect::DataFile(data_file)) => "inspect data-file query '"@
            + data_file.query.spec_name()
            + "' is parsed and validated but not yet implemented in this port (the async event loop is deferred)"@,
        Command::Inspect(inspect) => "inspect subcommand '"@ + inspect.spec_name()
            + "' is parsed and validated but not yet implemented in this port (the async event loop is deferred)"@,
        _ => "the '"@ + command.spec_name()
            + "' subcommand is parsed and validated but not yet implemented in this port (the async event loop is deferred)"@,
    }
}

/// The lines that `version` prints.
pub open spec fn version_lines(verbose: bool, cluster_checksum: u128) -> Seq<Seq<char>> {
    let first = "TigerBeetle version "@ + VERSION@;
    if verbose {
        seq![
            first,
            ""@,
            "cluster.checksum = 0x"@ + hexadecimal(cluster_checksum as nat, 32),
            "cluster.members_count = "@ + decimal(MEMBERS_MAX as nat),
            "process.block_size = "@ + decimal(BLOCK_SIZE as nat),
            "process.message_size_max = "@ + decimal(MESSAGE_SIZE_MAX as nat),
            "process.grid_cache_size_default = "@ + decimal(GRID_CACHE_SIZE_DEFAULT as nat),
            "process.storage_size_limit_max = "@ + decimal(STORAGE_SIZE_LIMIT_MAX as nat),
        ]
    } else {
        seq![first]
    }
}

/// The lines that `version` prints, with the checksum of the configuration of the cluster.
#[must_use]
pub fn command_version(command: &CommandVersion, cluster_checksum: u128) -> (result: Vec<String>)
    ensures
        arguments(result@) == version_lines(command.verbose, cluster_checksum),
{
    let mut lines: Vec<String> = Vec::new();
    lines.push(join2("TigerBeetle version ", VERSION));
    if command.verbose {
        lines.push("".to_owned());
        lines.push(
            join2("cluster.checksum = 0x", hexadecimal_text(cluster_checksum, 32).as_str()),
        );
        lines.push(
            join2("cluster.members_count = ", decimal_text(MEMBERS_MAX as u128).as_str()),
        );
        lines.push(join2("process.block_size = ", decimal_text(BLOCK_SIZE as u128).as_str()));
        lines.push(
            join2(
                "process.message_size_max = ",
                decimal_text(MESSAGE_SIZE_MAX as u128).as_str(),
            ),
        );
        lines.push(
            join2(
                "process.grid_cache_size_default = ",
                decimal_text(GRID_CACHE_SIZE_DEFAULT as u128).as_str(),
            ),
        );
        lines.push(
            join2(
                "process.storage_size_limit_max = ",
                decimal_text(STORAGE_SIZE_LIMIT_MAX as u128).as_str(),
            ),
        );
    }
    assert(arguments(lines@) =~= version_lines(command.verbose, cluster_checksum));
    lines
}

/// The size of the data file that `format` creates.
#[must_use]
pub fn cmd_storage_size(_command: &CommandFormat) -> (result: u64)
    ensures
        result == DATA_FILE_SIZE_MIN,
{
    DATA_FILE_SIZE_MIN
}

/// The lines that `format` prints once the data file is written.
pub open spec fn format_lines(command: CommandFormat, size: u64, sequence: u64) -> Seq<
    Seq<char>,
> {
    seq![
        "info(data_file): checking '"@ + command.path@ + "'..."@,
        "info(format): cluster = "@ + decimal(command.cluster as nat),
        "info(format): replica = "@ + decimal(command.replica as nat),
        "info(format): replica_count = "@ + decimal(command.replica_count as nat),
        "info(format): data_file_size = "@ + decimal(size as nat),
        "info(format): superblock.sequence = "@ + decimal(sequence as nat),
    ]
}

/// The lines that `format` prints once the data file is written, with the size of the file and
/// the sequence number of its superblock.
#[must_use]
pub fn format_report(command: &CommandFormat, size: u64, sequence: u64) -> (result: Vec<String>)
    ensures
        arguments(result@) == format_lines(*command, size, sequence),
{
    let mut lines: Vec<String> = Vec::new();
    lines.push(join3("info(data_file): checking '", command.path.as_str(), "'..."));
    lines.push(join2("info(format): cluster = ", decimal_text(command.cluster).as_str()));
    lines.push(join2("info(format): replica = ", decimal_text(command.replica as u128).as_str()));
    lines.push(
        join2(
            "info(format): replica_count = ",
            decimal_text(command.replica_count as u128).as_str(),
        ),
    );
    lines.push(join2("info(format): data_file_size = ", decimal_text(size as u128).as_str()));
    lines.push(
        join2("info(format): superblock.sequence = ", decimal_text(sequence as u128).as_str()),
    );
    assert(arguments(lines@) =~= format_lines(*command, size, sequence));
    lines
}

/// Decides what the program does for a command. Commands that take the event loop of a replica
/// are not run. `version` prints the checksum of the configuration of the cluster.
#[must_use]
pub fn run_command(command: &Command, cluster_checksum: u128) -> (result: Action)
    ensures
        match command {
            Command::Version(version) => result matches Action::Print(lines) && arguments(lines@)
                == version_lines(version.verbose, cluster_checksum),
            Command::Format(_) => result == (Action::Format { size: DATA_FILE_SIZE_MIN }),
            Command::Inspect(
                CommandInspect::DataFile(
                    CommandInspectDataFile { query: InspectQuery::Superblock, .. },
                ),
            ) => result == Action::InspectSuperblock,
            _ => result matches Action::Fail(message) && message@ == deferred(*command),
        },
{
    match command {
        Command::Version(version) => Action::Print(
            command_version(version, cluster_checksum),
        ),
        Command::Format(format) => Action::Format { size: cmd_storage_size(format) },
        Command::Inspect(inspect) => command_inspect(inspect),
        _ => Action::Fail(
            join3(
                "the '",
                command.name(),
                "' subcommand is parsed and validated but not yet implemented in this port (the async event loop is deferred)",
            ),
        ),
    }
}

/// Decides what the program does for a way to inspect.
#[must_use]
pub fn command_inspect(inspect: &CommandInspect) -> (result: Action)
    ensures
        match inspect {
            CommandInspect::DataFile(
                CommandInspectDataFile { query: InspectQuery::Superblock, .. },
            ) => result == Action::InspectSuperblock,
            _ => result matches Action::Fail(message) && message@ == deferred(
                Command::Inspect(*inspect),
            ),
        },
{
    match inspect {
        CommandInspect::DataFile(data_file) => match &data_file.query {
            InspectQuery::Superblock => Action::InspectSuperblock,
            query => Action::Fail(
                join3(
                    "inspect data-file query '",
                    inspect_query_name(query),
                    "' is parsed and validated but not yet implemented in this port (the async event loop is deferred)",
                ),
            ),
        },
        _ => Action::Fail(
            join3(
                "inspect subcommand '",
                inspect_subcommand_name(inspect),
                "' is parsed and validated but not yet implemented in this port (the async event loop is deferred)",
            ),
        ),
    }
}

/// Checks the size of a data file that is to be inspected.
///
/// # Errors
/// A message if the file is too short to hold a superblock.
pub fn check_data_file_size(size: u64) -> (result: CliResult<()>)
    ensures
        match result {
            Ok(_) => size >= DATA_FILE_SIZE_MIN,
            Err(message) => size < DATA_FILE_SIZE_MIN && message@
                == "data file inode size was truncated or corrupted"@,
        },
{
    if size < DATA_FILE_SIZE_MIN {
        return Err("data file inode size was truncated or corrupted".to_owned());
    }
    Ok(())
}

/// Checks the version of a superblock that is to be printed.
///
/// # Errors
/// A message if the version is another one than is understood.
pub fn check_superblock_version(version: u16, path: &str) -> (result: CliResult<()>)
    ensures
        match result {
            Ok(_) => version == SUPERBLOCK_VERSION,
            Err(message) => version != SUPERBLOCK_VERSION && message@
                == "invalid superblock version; inspector supports version="@ + decimal(
                SUPERBLOCK_VERSION as nat,
            ) + ", version in "@ + path@ + "="@ + decimal(version as nat),
        },
{
    if version != SUPERBLOCK_VERSION {
        let mut message = join3(
            "invalid superblock version; inspector supports version=",
            decimal_text(SUPERBLOCK_VERSION as u128).as_str(),
            ", version in ",
        );
        message.append(path);
        message.append("=");
        message.append(decimal_text(version as u128).as_str());
        return Err(message);
    }
    Ok(())
}

/// The headers of the copies of the superblock, cut out of the zone that holds the copies one
/// after the other.
#[must_use]
pub fn superblock_headers<'a>(zone: &'a [u8], copy_size: usize, header_size: usize) -> (result:
    Vec<&'a [u8]>)
    requires
        header_size <= copy_size,
        zone@.len() == SUPERBLOCK_COPIES * copy_size,
    ensures
        result@.len() == SUPERBLOCK_COPIES,
        forall|i: int|
            0 <= i < SUPERBLOCK_COPIES ==> (#[trigger] result@[i])@ == zone@.subrange(
                i * copy_size,
                i * copy_size + header_size,
            ),
{
    let length: usize = zone.len();
    let mut headers: Vec<&'a [u8]> = Vec::new();
    let mut offset: usize = 0;
    let mut copy: usize = 0;
    while copy < SUPERBLOCK_COPIES
        invariant
            copy <= SUPERBLOCK_COPIES,
            offset == copy * copy_size,
            header_size <= copy_size,
            zone@.len() == length,
            length == SUPERBLOCK_COPIES * copy_size,
            headers@.len() == copy,
            forall|i: int|
                0 <= i < copy ==> (#[trigger] headers@[i])@ == zone@.subrange(
                    i * copy_size,
                    i * copy_size + header_size,
                ),
        decreases SUPERBLOCK_COPIES - copy,
    {
        assert(offset + copy_size == (copy + 1) * copy_size && (copy + 1) * copy_size
            <= SUPERBLOCK_COPIES * copy_size) by (nonlinear_arith)
            requires
                offset == copy * copy_size,
                copy + 1 <= SUPERBLOCK_COPIES,
        ;
        headers.push(vstd::slice::slice_subrange(zone, offset, offset + header_size));
        offset = offset + copy_size;
        copy = copy + 1;
    }
    headers
}

/// Whether one of the arguments begins with a flag.
pub open spec fn mentions(argv: Seq<Seq<char>>, flag: Seq<char>) -> bool {
    exists|i: int| 0 <= i < argv.len() && begins_with(#[trigger] argv[i], flag)
}

fn any_begins_with(argv: &[String], flag: &str) -> (result: bool)
    ensures
        result == mentions(arguments(argv@), flag@),
{
    let count: usize = argv.len();
    let mut i: usize = 0;
    while i < count
        invariant
            i <= count,
            count == argv@.len(),
            forall|k: int| 0 <= k < i ==> !begins_with(#[trigger] arguments(argv@)[k], flag@),
        decreases count - i,
    {
        if starts_with(argv[i].as_str(), flag) {
            assert(begins_with(arguments(argv@)[i as int], flag@));
            return true;
        }
        i = i + 1;
    }
    false
}

/// What an operator should know about arguments, and what was read from them.
pub open spec fn spec_notices(
    argv: Seq<Seq<char>>,
    parsed: Result<Command, ParseFailure>,
) -> Seq<Seq<char>> {
    match parsed {
        Ok(Command::Format(format)) => if !mentions(argv, "--cluster"@) {
            seq!["generated random cluster id: "@ + decimal(format.cluster as nat)]
        } else if format.cluster == 0 {
            seq![
                "a cluster id of 0 is reserved for testing and benchmarking, do not use in production"@,
                "omit --cluster=0 to randomly generate a suitable id"@,
            ]
        } else {
            Seq::empty()
        },
        _ => if argv.len() > 0 && argv[0] == "start"@ {
            spec_start_notices(argv.skip(1))
        } else {
            Seq::empty()
        },
    }
}

/// What an operator should know about arguments, and what was read from them. It is due before the
/// command is run, or before the message is printed with which reading them failed.
#[must_use]
pub fn notices(argv: &[String], parsed: &Result<Command, ParseFailure>) -> (result: Vec<String>)
    ensures
        arguments(result@) == spec_notices(arguments(argv@), *parsed),
{
    let mut lines: Vec<String> = Vec::new();
    match parsed {
        Ok(Command::Format(format)) => {
            if !any_begins_with(argv, "--cluster") {
                lines.push(
                    join2("generated random cluster id: ", decimal_text(format.cluster).as_str()),
                );
            } else if format.cluster == 0 {
                lines.push(
                    "a cluster id of 0 is reserved for testing and benchmarking, do not use in production".to_owned(),
                );
                lines.push("omit --cluster=0 to randomly generate a suitable id".to_owned());
            }
        },
        _ => {
            if argv.len() > 0 && same(argv[0].as_str(), "start") {
                let rest = vstd::slice::slice_subrange(argv, 1, argv.len());
                assert(arguments(rest@) =~= arguments(argv@).skip(1));
                return start_notices(rest);
            }
        },
    }
    assert(arguments(lines@) =~= spec_notices(arguments(argv@), *parsed));
    lines
}

/// The first argument is the name of the command, and the others are the command's own.
pub proof fn law_first_argument_names_the_command(
    argv: Seq<Seq<char>>,
    drawn: u64,
    command: Command,
)
    requires
        outcome(argv, drawn, Ok::<Command, ParseFailure>(command)),
    ensures
        argv.len() > 0,
        argv[0] == command.spec_name(),
        ({
            let rest = argv.skip(1);
            match command {
                Command::Format(format) => argv[0] == "format"@ && format_outcome(
                    rest,
                    drawn,
                    Ok::<CommandFormat, String>(format),
                ),
                Command::Recover(recover) => argv[0] == "recover"@ && recover_outcome(
                    rest,
                    Ok::<CommandRecover, String>(recover),
                ),
                Command::Start(start) => argv[0] == "start"@ && start_outcome(
                    rest,
                    Ok::<CommandStart, String>(start),
                ),
                Command::Version(version) => argv[0] == "version"@ && version_outcome(
                    rest,
                    Ok::<CommandVersion, String>(version),
                ),
                Command::Repl(repl) => argv[0] == "repl"@ && repl_outcome(
                    rest,
                    Ok::<CommandRepl, String>(repl),
                ),
                Command::Benchmark(benchmark) => argv[0] == "benchmark"@ && benchmark_outcome(
                    rest,
                    Ok::<CommandBenchmark, String>(benchmark),
                ),
                Command::Inspect(inspect) => argv[0] == "inspect"@ && inspect_outcome(
                    rest,
                    Ok::<CommandInspect, ParseFailure>(inspect),
                ),
                Command::Multiversion(multiversion) => argv[0] == "multiversion"@
                    && multiversion_outcome(
                    rest,
                    Ok::<CommandMultiversion, String>(multiversion),
                ),
                Command::Amqp(amqp) => argv[0] == "amqp"@ && amqp_outcome(
                    rest,
                    Ok::<CommandAmqp, String>(amqp),
                ),
            }
        }),
{
}

/// Help is given where it is asked for first, and nowhere else but after `inspect`.
pub proof fn law_help_is_asked_for(
    argv: Seq<Seq<char>>,
    drawn: u64,
    result: Result<Command, ParseFailure>,
)
    requires
        outcome(argv, drawn, result),
    ensures
        argv.len() > 0 && (argv[0] == "-h"@ || argv[0] == "--help"@) ==> (result matches Err(
            ParseFailure::Help(help),
        ) && help@ == HELP@),
        result matches Err(ParseFailure::Help(_)) ==> argv.len() > 0 && (argv[0] == "-h"@ || argv[0]
            == "--help"@ || (argv[0] == "inspect"@ && argv.len() > 1 && (argv[1] == "-h"@
            || argv[1] == "--help"@))),
{
}

/// A new cluster that was not named is announced by its number, and one with the number zero is
/// warned about.
pub proof fn law_clusters_are_announced(argv: Seq<Seq<char>>, format: CommandFormat)
    ensures
        ({
            let lines = spec_notices(
                argv,
                Ok::<Command, ParseFailure>(Command::Format(format)),
            );
            let named = exists|i: int|
                0 <= i < argv.len() && begins_with(#[trigger] argv[i], "--cluster"@);
            &&& !named ==> lines == seq![
                "generated random cluster id: "@ + decimal(format.cluster as nat),
            ]
            &&& named && format.cluster == 0 ==> lines.len() == 2
            &&& named && format.cluster != 0 ==> lines.len() == 0
        }),
{
}

/// What `version` prints of the configuration.
pub proof fn law_version_prints_the_configuration(verbose: bool, cluster_checksum: u128)
    ensures
        ({
            let lines = version_lines(verbose, cluster_checksum);
            &&& lines.len() == if verbose {
                8nat
            } else {
                1nat
            }
            &&& lines[0] == "TigerBeetle version "@ + "0.1.0"@
            &&& verbose ==> {
                &&& lines[1].len() == 0
                &&& lines[2] == "cluster.checksum = 0x"@ + hexadecimal(cluster_checksum as nat, 32)
                &&& lines[3] == "cluster.members_count = "@ + decimal(12)
                &&& lines[4] == "process.block_size = "@ + decimal(4096)
                &&& lines[5] == "process.message_size_max = "@ + decimal(4096)
                &&& lines[6] == "process.grid_cache_size_default = "@ + decimal(0xc000_0000)
                &&& lines[7] == "process.storage_size_limit_max = "@ + decimal(0x4000_0000)
            }
        }),
{
    reveal_strlit("");
}

/// `format` tells what it was told, and how large the file has become.
pub proof fn law_format_tells_what_it_did(command: CommandFormat, size: u64, sequence: u64)
    ensures
        ({
            let lines = format_lines(command, size, sequence);
            &&& lines.len() == 6
            &&& lines[0] == "info(data_file): checking '"@ + command.path@ + "'..."@
            &&& lines[1] == "info(format): cluster = "@ + decimal(command.cluster as nat)
            &&& lines[2] == "info(format): replica = "@ + decimal(command.replica as nat)
            &&& lines[3] == "info(format): replica_count = "@ + decimal(
                command.replica_count as nat,
            )
            &&& lines[4] == "info(format): data_file_size = "@ + decimal(size as nat)
            &&& lines[5] == "info(format): superblock.sequence = "@ + decimal(sequence as nat)
        }),
{
}

} // verus!
