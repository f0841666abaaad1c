//! The commands that take a replica or a cluster and little else.

use crate::cli::command::{
    cluster_meaning, CommandFormat, CommandMultiversion, CommandRecover, CommandRepl,
    CommandVersion,
};
use crate::cli::flags::{
    arguments, law_positional_argument_is_last, parse_flags, scanned, Meaning, Named, NamedKind,
    Scan,
};
use crate::cli::text::{decimal, decimal_text};
use crate::constants::{REPLICAS_MAX, STANDBYS_MAX};
use vstd::prelude::*;

verus! {

/// The message for a value that is too large.
pub open spec fn too_large(flag: Seq<char>, value: nat, most: nat) -> Seq<char> {
    flag + ": value is too large ("@ + decimal(value) + "), at most "@ + decimal(most)
        + " is allowed"@
}

fn too_large_text(flag: &str, value: u8, most: u8) -> (result: String)
    ensures
        result@ == too_large(flag@, value as nat, most as nat),
{
    let mut message = flag.to_owned();
    message.append(": value is too large (");
    message.append(decimal_text(value as u128).as_str());
    message.append("), at most ");
    message.append(decimal_text(most as u128).as_str());
    message.append(" is allowed");
    message
}

/// The message for a value that is too small.
pub open spec fn too_small(flag: Seq<char>, value: nat, least: nat) -> Seq<char> {
    flag + ": value is too small ("@ + decimal(value) + "), at least "@ + decimal(least)
        + " is required"@
}

fn too_small_text(flag: &str, value: u8, least: u8) -> (result: String)
    ensures
        result@ == too_small(flag@, value as nat, least as nat),
{
    let mut message = flag.to_owned();
    message.append(": value is too small (");
    message.append(decimal_text(value as u128).as_str());
    message.append("), at least ");
    message.append(decimal_text(least as u128).as_str());
    message.append(" is required");
    message
}

/// What is wrong with the number of replicas.
pub open spec fn replica_count_error(replica_count: u8) -> Option<Seq<char>> {
    if replica_count == 0 {
        Some("--replica-count: value needs to be greater than zero"@)
    } else if replica_count > REPLICAS_MAX {
        Some(too_large("--replica-count"@, replica_count as nat, REPLICAS_MAX as nat))
    } else {
        None
    }
}

fn check_replica_count(replica_count: u8) -> (result: Result<(), String>)
    ensures
        match result {
            Ok(_) => replica_count_error(replica_count) is None,
            Err(message) => replica_count_error(replica_count) == Some(message@),
        },
{
    if replica_count == 0 {
        return Err("--replica-count: value needs to be greater than zero".to_owned());
    }
    if replica_count > REPLICAS_MAX {
        return Err(too_large_text("--replica-count", replica_count, REPLICAS_MAX));
    }
    Ok(())
}

pub open spec fn spec_format_flags() -> Seq<Named> {
    seq![
        Named { flag: "--replica-count", kind: NamedKind::U8 },
        Named { flag: "--replica", kind: NamedKind::U8 },
        Named { flag: "--standby", kind: NamedKind::U8 },
        Named { flag: "--cluster", kind: NamedKind::U128 },
        Named { flag: "--development", kind: NamedKind::Bool },
        Named { flag: "--log-debug", kind: NamedKind::Bool },
    ]
}

fn format_flags() -> (result: Vec<Named>)
    ensures
        result@ == spec_format_flags(),
{
    let mut flags: Vec<Named> = Vec::new();
    flags.push(Named { flag: "--replica-count", kind: NamedKind::U8 });
    flags.push(Named { flag: "--replica", kind: NamedKind::U8 });
    flags.push(Named { flag: "--standby", kind: NamedKind::U8 });
    flags.push(Named { flag: "--cluster", kind: NamedKind::U128 });
    flags.push(Named { flag: "--development", kind: NamedKind::Bool });
    flags.push(Named { flag: "--log-debug", kind: NamedKind::Bool });
    assert(flags@ =~= spec_format_flags());
    flags
}

/// What is wrong with the flags of `format`.
pub open spec fn format_error(scan: Scan) -> Option<Seq<char>> {
    let replica = scan.u8("--replica"@);
    let standby = scan.u8("--standby"@);
    match scan.u8("--replica-count"@) {
        None => Some("--replica-count: argument is required"@),
        Some(replica_count) => if replica_count_error(replica_count) is Some {
            replica_count_error(replica_count)
        } else {
            match (replica, standby) {
                (None, None) => Some("--replica: argument is required"@),
                (Some(_), Some(_)) => Some("--standby: conflicts with '--replica'"@),
                (Some(replica), None) => if replica >= replica_count {
                    Some(too_large("--replica"@, replica as nat, (replica_count - 1) as nat))
                } else {
                    None
                },
                (None, Some(standby)) => if standby < replica_count {
                    Some(too_small("--standby"@, standby as nat, replica_count as nat))
                } else if standby >= replica_count + STANDBYS_MAX {
                    Some(
                        too_large(
                            "--standby"@,
                            standby as nat,
                            (replica_count + STANDBYS_MAX - 1) as nat,
                        ),
                    )
                } else {
                    None
                },
            }
        },
    }
}

/// The id of a cluster that is made from a number drawn at random: the number, or the one after
/// it, so that the id is odd.
pub open spec fn generated_cluster(drawn: u64) -> int {
    if drawn % 2 == 0 {
        drawn + 1
    } else {
        drawn as int
    }
}

/// An id for a cluster, which is never zero.
#[must_use]
pub fn generate_cluster(drawn: u64) -> (result: u128)
    ensures
        result == generated_cluster(drawn),
        result != 0,
{
    proof {
        let wide = drawn as u128;
        assert(wide | 1 == if wide % 2 == 0 {
            (wide + 1) as u128
        } else {
            wide
        }) by (bit_vector)
            requires
                wide <= 0xffff_ffff_ffff_ffff,
        ;
    }
    drawn as u128 | 1
}

/// The command that the flags of `format` say. A cluster that is not given gets an id made from
/// `drawn`, which is not zero.
pub open spec fn is_format(command: CommandFormat, scan: Scan, drawn: u64) -> bool {
    &&& match scan.u128("--cluster"@) {
        Some(cluster) => command.cluster == cluster,
        None => command.cluster == generated_cluster(drawn) && command.cluster != 0,
    }
    &&& Some(command.replica) == match scan.u8("--replica"@) {
        Some(replica) => Some(replica),
        None => scan.u8("--standby"@),
    }
    &&& Some(command.replica_count) == scan.u8("--replica-count"@)
    &&& command.development == scan.bool("--development"@)
    &&& command.log_debug == scan.bool("--log-debug"@)
    &&& command.path@ == scan.positionals[0]
}

/// What `format` gives for its arguments.
pub open spec fn format_outcome(
    args: Seq<Seq<char>>,
    drawn: u64,
    result: Result<CommandFormat, String>,
) -> bool {
    match (scanned(args, spec_format_flags(), Some("path"@)), result) {
        (Err(message), Err(text)) => text@ == message,
        (Err(_), Ok(_)) => false,
        (Ok(scan), Err(text)) => format_error(scan) == Some(text@),
        (Ok(scan), Ok(command)) => format_error(scan) is None && is_format(
            command,
            scan,
            drawn,
        ) && command.replica < command.replica_count + STANDBYS_MAX,
    }
}

/// Reads the arguments of `format`.
///
/// # Errors
/// A message if the arguments are no command.
pub fn parse_args_format(args: &[String], drawn: u64) -> (result: Result<
    CommandFormat,
    String,
>)
    ensures
        format_outcome(arguments(args@), drawn, result),
{
    let flags = match parse_flags(args, &format_flags(), Some("path")) {
        Ok(flags) => flags,
        Err(message) => {
            return Err(message);
        },
    };
    let replica_count: u8 = match flags.u8("--replica-count") {
        Some(replica_count) => replica_count,
        None => {
            return Err("--replica-count: argument is required".to_owned());
        },
    };
    match check_replica_count(replica_count) {
        Ok(_) => {},
        Err(message) => {
            return Err(message);
        },
    }
    let replica: u8 = match (flags.u8("--replica"), flags.u8("--standby")) {
        (None, None) => {
            return Err("--replica: argument is required".to_owned());
        },
        (Some(_), Some(_)) => {
            return Err("--standby: conflicts with '--replica'".to_owned());
        },
        (Some(replica), None) => {
            if replica >= replica_count {
                return Err(too_large_text("--replica", replica, replica_count - 1));
            }
            replica
        },
        (None, Some(standby)) => {
            if standby < replica_count {
                return Err(too_small_text("--standby", standby, replica_count));
            }
            if standby >= replica_count + STANDBYS_MAX {
                return Err(
                    too_large_text("--standby", standby, replica_count + STANDBYS_MAX - 1),
                );
            }
            standby
        },
    };
    let cluster: u128 = match flags.u128("--cluster") {
        Some(cluster) => cluster,
        None => generate_cluster(drawn),
    };
    Ok(
        CommandFormat {
            cluster,
            replica,
            replica_count,
            development: flags.bool("--development"),
            path: flags.positional(),
            log_debug: flags.bool("--log-debug"),
        },
    )
}

pub open spec fn spec_recover_flags() -> Seq<Named> {
    seq![
        Named { flag: "--replica-count", kind: NamedKind::U8 },
        Named { flag: "--replica", kind: NamedKind::U8 },
        Named { flag: "--addresses", kind: NamedKind::Cluster },
        Named { flag: "--cluster", kind: NamedKind::U128 },
        Named { flag: "--development", kind: NamedKind::Bool },
        Named { flag: "--log-debug", kind: NamedKind::Bool },
    ]
}

fn recover_flags() -> (result: Vec<Named>)
    ensures
        result@ == spec_recover_flags(),
{
    let mut flags: Vec<Named> = Vec::new();
    flags.push(Named { flag: "--replica-count", kind: NamedKind::U8 });
    flags.push(Named { flag: "--replica", kind: NamedKind::U8 });
    flags.push(Named { flag: "--addresses", kind: NamedKind::Cluster });
    flags.push(Named { flag: "--cluster", kind: NamedKind::U128 });
    flags.push(Named { flag: "--development", kind: NamedKind::Bool });
    flags.push(Named { flag: "--log-debug", kind: NamedKind::Bool });
    assert(flags@ =~= spec_recover_flags());
    flags
}

/// What is wrong with the flags of `recover`.
pub open spec fn recover_error(scan: Scan) -> Option<Seq<char>> {
    if scan.u128("--cluster"@) is None {
        Some("--cluster: argument is required"@)
    } else if scan.cluster("--addresses"@) is None {
        Some("--addresses: argument is required"@)
    } else {
        match (scan.u8("--replica"@), scan.u8("--replica-count"@)) {
            (None, _) => Some("--replica: argument is required"@),
            (Some(_), None) => Some("--replica-count: argument is required"@),
            (Some(replica), Some(replica_count)) => if replica_count_error(replica_count) is Some {
                replica_count_error(replica_count)
            } else if replica >= replica_count {
                Some(too_large("--replica"@, replica as nat, (replica_count - 1) as nat))
            } else if replica_count <= 2 {
                Some("--replica-count: 1- or 2- replica clusters don't support 'recover'"@)
            } else {
                None
            },
        }
    }
}

/// The command that the flags of `recover` say.
pub open spec fn is_recover(command: CommandRecover, scan: Scan) -> bool {
    &&& Some(command.cluster) == scan.u128("--cluster"@)
    &&& Some(cluster_meaning(command.addresses)) == scan.cluster("--addresses"@)
    &&& Some(command.replica) == scan.u8("--replica"@)
    &&& Some(command.replica_count) == scan.u8("--replica-count"@)
    &&& command.development == scan.bool("--development"@)
    &&& command.log_debug == scan.bool("--log-debug"@)
    &&& command.path@ == scan.positionals[0]
}

/// What `recover` gives for its arguments.
pub open spec fn recover_outcome(
    args: Seq<Seq<char>>,
    result: Result<CommandRecover, String>,
) -> bool {
    match (scanned(args, spec_recover_flags(), Some("path"@)), result) {
        (Err(message), Err(text)) => text@ == message,
        (Err(_), Ok(_)) => false,
        (Ok(scan), Err(text)) => recover_error(scan) == Some(text@),
        (Ok(scan), Ok(command)) => recover_error(scan) is None && is_recover(command, scan)
            && command.replica < command.replica_count,
    }
}

/// Reads the arguments of `recover`.
///
/// # Errors
/// A message if the arguments are no command.
pub fn parse_args_recover(args: &[String]) -> (result: Result<CommandRecover, String>)
    ensures
        recover_outcome(arguments(args@), result),
{
    let flags = match parse_flags(args, &recover_flags(), Some("path")) {
        Ok(flags) => flags,
        Err(message) => {
            return Err(message);
        },
    };
    let cluster: u128 = match flags.u128("--cluster") {
        Some(cluster) => cluster,
        None => {
            return Err("--cluster: argument is required".to_owned());
        },
    };
    let addresses = match flags.cluster("--addresses") {
        Some(addresses) => addresses,
        None => {
            return Err("--addresses: argument is required".to_owned());
        },
    };
    let replica: u8 = match flags.u8("--replica") {
        Some(replica) => replica,
        None => {
            return Err("--replica: argument is required".to_owned());
        },
    };
    let replica_count: u8 = match flags.u8("--replica-count") {
        Some(replica_count) => replica_count,
        None => {
            return Err("--replica-count: argument is required".to_owned());
        },
    };
    match check_replica_count(replica_count) {
        Ok(_) => {},
        Err(message) => {
            return Err(message);
        },
    }
    if replica >= replica_count {
        return Err(too_large_text("--replica", replica, replica_count - 1));
    }
    if replica_count <= 2 {
        return Err(
            "--replica-count: 1- or 2- replica clusters don't support 'recover'".to_owned(),
        );
    }
    Ok(
        CommandRecover {
            cluster,
            addresses,
            replica,
            replica_count,
            development: flags.bool("--development"),
            path: flags.positional(),
            log_debug: flags.bool("--log-debug"),
        },
    )
}

pub open spec fn spec_version_flags() -> Seq<Named> {
    seq![Named { flag: "--verbose", kind: NamedKind::Bool }]
}

/// What `version` gives for its arguments.
pub open spec fn version_outcome(
    args: Seq<Seq<char>>,
    result: Result<CommandVersion, String>,
) -> bool {
    match (scanned(args, spec_version_flags(), None), result) {
        (Err(message), Err(text)) => text@ == message,
        (Ok(scan), Ok(command)) => command.verbose == scan.bool("--verbose"@),
        _ => false,
    }
}

/// Reads the arguments of `version`.
///
/// # Errors
/// A message if the arguments are no command.
pub fn parse_args_version(args: &[String]) -> (result: Result<CommandVersion, String>)
    ensures
        version_outcome(arguments(args@), result),
{
    let mut named: Vec<Named> = Vec::new();
    named.push(Named { flag: "--verbose", kind: NamedKind::Bool });
    assert(named@ =~= spec_version_flags());
    match parse_flags(args, &named, None) {
        Ok(flags) => Ok(CommandVersion { verbose: flags.bool("--verbose") }),
        Err(message) => Err(message),
    }
}

pub open spec fn spec_repl_flags() -> Seq<Named> {
    seq![
        Named { flag: "--addresses", kind: NamedKind::Cluster },
        Named { flag: "--cluster", kind: NamedKind::U128 },
        Named { flag: "--verbose", kind: NamedKind::Bool },
        Named { flag: "--command", kind: NamedKind::Text },
        Named { flag: "--log-debug", kind: NamedKind::Bool },
    ]
}

fn repl_flags() -> (result: Vec<Named>)
    ensures
        result@ == spec_repl_flags(),
{
    let mut flags: Vec<Named> = Vec::new();
    flags.push(Named { flag: "--addresses", kind: NamedKind::Cluster });
    flags.push(Named { flag: "--cluster", kind: NamedKind::U128 });
    flags.push(Named { flag: "--verbose", kind: NamedKind::Bool });
    flags.push(Named { flag: "--command", kind: NamedKind::Text });
    flags.push(Named { flag: "--log-debug", kind: NamedKind::Bool });
    assert(flags@ =~= spec_repl_flags());
    flags
}

/// What is wrong with the flags of `repl`.
pub open spec fn repl_error(scan: Scan) -> Option<Seq<char>> {
    if scan.cluster("--addresses"@) is None {
        Some("--addresses: argument is required"@)
    } else if scan.u128("--cluster"@) is None {
        Some("--cluster: argument is required"@)
    } else {
        None
    }
}

/// The command that the flags of `repl` say.
pub open spec fn is_repl(command: CommandRepl, scan: Scan) -> bool {
    &&& Some(cluster_meaning(command.addresses)) == scan.cluster("--addresses"@)
    &&& Some(command.cluster) == scan.u128("--cluster"@)
    &&& command.verbose == scan.bool("--verbose"@)
    &&& command.statements@ == match scan.text("--command"@) {
        Some(statements) => statements,
        None => Seq::empty(),
    }
    &&& command.log_debug == scan.bool("--log-debug"@)
}

/// What `repl` gives for its arguments.
pub open spec fn repl_outcome(
    args: Seq<Seq<char>>,
    result: Result<CommandRepl, String>,
) -> bool {
    match (scanned(args, spec_repl_flags(), None), result) {
        (Err(message), Err(text)) => text@ == message,
        (Err(_), Ok(_)) => false,
        (Ok(scan), Err(text)) => repl_error(scan) == Some(text@),
        (Ok(scan), Ok(command)) => repl_error(scan) is None && is_repl(command, scan),
    }
}

/// Reads the arguments of `repl`.
///
/// # Errors
/// A message if the arguments are no command.
pub fn parse_args_repl(args: &[String]) -> (result: Result<CommandRepl, String>)
    ensures
        repl_outcome(arguments(args@), result),
{
    let flags = match parse_flags(args, &repl_flags(), None) {
        Ok(flags) => flags,
        Err(message) => {
            return Err(message);
        },
    };
    let addresses = match flags.cluster("--addresses") {
        Some(addresses) => addresses,
        None => {
            return Err("--addresses: argument is required".to_owned());
        },
    };
    let cluster: u128 = match flags.u128("--cluster") {
        Some(cluster) => cluster,
        None => {
            return Err("--cluster: argument is required".to_owned());
        },
    };
    let statements = match flags.text("--command") {
        Some(statements) => statements,
        None => String::new(),
    };
    Ok(
        CommandRepl {
            addresses,
            cluster,
            verbose: flags.bool("--verbose"),
            statements,
            log_debug: flags.bool("--log-debug"),
        },
    )
}

pub open spec fn spec_multiversion_flags() -> Seq<Named> {
    seq![Named { flag: "--log-debug", kind: NamedKind::Bool }]
}

/// What `multiversion` gives for its arguments.
pub open spec fn multiversion_outcome(
    args: Seq<Seq<char>>,
    result: Result<CommandMultiversion, String>,
) -> bool {
    match (scanned(args, spec_multiversion_flags(), Some("path"@)), result) {
        (Err(message), Err(text)) => text@ == message,
        (Ok(scan), Ok(command)) => command.path@ == scan.positionals[0] && command.log_debug
            == scan.bool("--log-debug"@),
        _ => false,
    }
}

/// Reads the arguments of `multiversion`.
///
/// # Errors
/// A message if the arguments are no command.
pub fn parse_args_multiversion(args: &[String]) -> (result: Result<CommandMultiversion, String>)
    ensures
        multiversion_outcome(arguments(args@), result),
{
    let mut named: Vec<Named> = Vec::new();
    named.push(Named { flag: "--log-debug", kind: NamedKind::Bool });
    assert(named@ =~= spec_multiversion_flags());
    match parse_flags(args, &named, Some("path")) {
        Ok(flags) => Ok(
            CommandMultiversion {
                path: flags.positional(),
                log_debug: flags.bool("--log-debug"),
            },
        ),
        Err(message) => Err(message),
    }
}

/// What each flag of `format` takes.
pub proof fn law_format_flags_have_kinds()
    ensures
        spec_format_flags().len() == 6,
        spec_format_flags().contains((Named { flag: "--cluster", kind: NamedKind::U128 })),
        spec_format_flags().contains((Named { flag: "--development", kind: NamedKind::Bool })),
        spec_format_flags().contains((Named { flag: "--log-debug", kind: NamedKind::Bool })),
        spec_format_flags().contains((Named { flag: "--replica", kind: NamedKind::U8 })),
        spec_format_flags().contains((Named { flag: "--replica-count", kind: NamedKind::U8 })),
        spec_format_flags().contains((Named { flag: "--standby", kind: NamedKind::U8 })),
{
    let flags = spec_format_flags();
    assert(flags[0] == (Named { flag: "--replica-count", kind: NamedKind::U8 }));
    assert(flags[1] == (Named { flag: "--replica", kind: NamedKind::U8 }));
    assert(flags[2] == (Named { flag: "--standby", kind: NamedKind::U8 }));
    assert(flags[3] == (Named { flag: "--cluster", kind: NamedKind::U128 }));
    assert(flags[4] == (Named { flag: "--development", kind: NamedKind::Bool }));
    assert(flags[5] == (Named { flag: "--log-debug", kind: NamedKind::Bool }));
}

/// What each flag of `recover` takes.
pub proof fn law_recover_flags_have_kinds()
    ensures
        spec_recover_flags().len() == 6,
        spec_recover_flags().contains((Named { flag: "--addresses", kind: NamedKind::Cluster })),
        spec_recover_flags().contains((Named { flag: "--cluster", kind: NamedKind::U128 })),
        spec_recover_flags().contains((Named { flag: "--development", kind: NamedKind::Bool })),
        spec_recover_flags().contains((Named { flag: "--log-debug", kind: NamedKind::Bool })),
        spec_recover_flags().contains((Named { flag: "--replica", kind: NamedKind::U8 })),
        spec_recover_flags().contains((Named { flag: "--replica-count", kind: NamedKind::U8 })),
{
    let flags = spec_recover_flags();
    assert(flags[0] == (Named { flag: "--replica-count", kind: NamedKind::U8 }));
    assert(flags[1] == (Named { flag: "--replica", kind: NamedKind::U8 }));
    assert(flags[2] == (Named { flag: "--addresses", kind: NamedKind::Cluster }));
    assert(flags[3] == (Named { flag: "--cluster", kind: NamedKind::U128 }));
    assert(flags[4] == (Named { flag: "--development", kind: NamedKind::Bool }));
    assert(flags[5] == (Named { flag: "--log-debug", kind: NamedKind::Bool }));
}

/// What each flag of `repl` takes.
pub proof fn law_repl_flags_have_kinds()
    ensures
        spec_repl_flags().len() == 5,
        spec_repl_flags().contains((Named { flag: "--addresses", kind: NamedKind::Cluster })),
        spec_repl_flags().contains((Named { flag: "--cluster", kind: NamedKind::U128 })),
        spec_repl_flags().contains((Named { flag: "--command", kind: NamedKind::Text })),
        spec_repl_flags().contains((Named { flag: "--log-debug", kind: NamedKind::Bool })),
        spec_repl_flags().contains((Named { flag: "--verbose", kind: NamedKind::Bool })),
{
    let flags = spec_repl_flags();
    assert(flags[0] == (Named { flag: "--addresses", kind: NamedKind::Cluster }));
    assert(flags[1] == (Named { flag: "--cluster", kind: NamedKind::U128 }));
    assert(flags[2] == (Named { flag: "--verbose", kind: NamedKind::Bool }));
    assert(flags[3] == (Named { flag: "--command", kind: NamedKind::Text }));
    assert(flags[4] == (Named { flag: "--log-debug", kind: NamedKind::Bool }));
}


/// What the flags of `version` and `multiversion` take.
pub proof fn law_short_commands_have_switches()
    ensures
        spec_version_flags() == seq![Named { flag: "--verbose", kind: NamedKind::Bool }],
        spec_multiversion_flags() == seq![Named { flag: "--log-debug", kind: NamedKind::Bool }],
{
}

/// A data file is formatted for a replica of one to six, or for one of six standbys after them. A
/// cluster that is not named gets an odd number within one of the number that was drawn.
pub proof fn law_format_takes_its_flags(
    args: Seq<Seq<char>>,
    drawn: u64,
    result: Result<CommandFormat, String>,
)
    requires
        format_outcome(args, drawn, result),
        scanned(args, spec_format_flags(), Some("path"@)) is Ok,
    ensures
        ({
            let scan = scanned(args, spec_format_flags(), Some("path"@))->Ok_0;
            &&& result is Ok <==> match scan.u8("--replica-count"@) {
                Some(count) => {
                    &&& 1 <= count <= 6
                    &&& match (scan.u8("--replica"@), scan.u8("--standby"@)) {
                        (Some(replica), None) => replica < count,
                        (None, Some(standby)) => count <= standby < count + 6,
                        _ => false,
                    }
                },
                None => false,
            }
            &&& result matches Ok(command) ==> {
                &&& scan.u8("--replica-count"@) == Some(command.replica_count)
                &&& scan.u8("--replica"@) == Some(command.replica) || scan.u8("--standby"@) == Some(
                    command.replica,
                )
                &&& command.development == scan.bool("--development"@)
                &&& command.log_debug == scan.bool("--log-debug"@)
                &&& scan.positionals == seq![command.path@]
                &&& match scan.u128("--cluster"@) {
                    Some(cluster) => command.cluster == cluster,
                    None => command.cluster % 2 == 1 && drawn <= command.cluster <= drawn + 1,
                }
            }
        }),
{
    law_positional_argument_is_last(args, spec_format_flags(), Some("path"@));
    let scan = scanned(args, spec_format_flags(), Some("path"@))->Ok_0;
    assert(scan.positionals =~= seq![scan.positionals[0]]);
}

/// A replica is recovered in a cluster of three to six.
pub proof fn law_recover_takes_its_flags(
    args: Seq<Seq<char>>,
    result: Result<CommandRecover, String>,
)
    requires
        recover_outcome(args, result),
        scanned(args, spec_recover_flags(), Some("path"@)) is Ok,
    ensures
        ({
            let scan = scanned(args, spec_recover_flags(), Some("path"@))->Ok_0;
            &&& result is Ok <==> {
                &&& scan.u128("--cluster"@) is Some
                &&& scan.cluster("--addresses"@) is Some
                &&& match (scan.u8("--replica"@), scan.u8("--replica-count"@)) {
                    (Some(replica), Some(count)) => 3 <= count <= 6 && replica < count,
                    _ => false,
                }
            }
            &&& result matches Ok(command) ==> {
                &&& scan.u128("--cluster"@) == Some(command.cluster)
                &&& scan.cluster("--addresses"@) == Some(
                    (command.addresses.zero, command.addresses.addresses@),
                )
                &&& scan.u8("--replica"@) == Some(command.replica)
                &&& scan.u8("--replica-count"@) == Some(command.replica_count)
                &&& command.development == scan.bool("--development"@)
                &&& command.log_debug == scan.bool("--log-debug"@)
                &&& scan.positionals == seq![command.path@]
            }
        }),
{
    law_positional_argument_is_last(args, spec_recover_flags(), Some("path"@));
    let scan = scanned(args, spec_recover_flags(), Some("path"@))->Ok_0;
    assert(scan.positionals =~= seq![scan.positionals[0]]);
}

/// Talking to a cluster takes its addresses and its number, and no more.
pub proof fn law_repl_takes_its_flags(args: Seq<Seq<char>>, result: Result<CommandRepl, String>)
    requires
        repl_outcome(args, result),
        scanned(args, spec_repl_flags(), None) is Ok,
    ensures
        ({
            let scan = scanned(args, spec_repl_flags(), None)->Ok_0;
            &&& result is Ok <==> scan.u128("--cluster"@) is Some && scan.cluster("--addresses"@)
                is Some
            &&& result matches Ok(command) ==> {
                &&& scan.u128("--cluster"@) == Some(command.cluster)
                &&& scan.cluster("--addresses"@) == Some(
                    (command.addresses.zero, command.addresses.addresses@),
                )
                &&& command.verbose == scan.bool("--verbose"@)
                &&& command.log_debug == scan.bool("--log-debug"@)
                &&& scan.text("--command"@) == Some(command.statements@) || (scan.text(
                    "--command"@,
                ) is None && command.statements@.len() == 0)
            }
        }),
{
}

/// The versions are printed as the flags say, whatever they say.
pub proof fn law_versions_take_their_flags(
    args: Seq<Seq<char>>,
    version: Result<CommandVersion, String>,
    multiversion: Result<CommandMultiversion, String>,
)
    requires
        version_outcome(args, version),
        multiversion_outcome(args, multiversion),
    ensures
        match scanned(args, spec_version_flags(), None) {
            Ok(scan) => version == Ok::<CommandVersion, String>(
                CommandVersion { verbose: scan.get("--verbose"@) == Some(Meaning::Bool(true)) },
            ),
            Err(_) => version is Err,
        },
        match scanned(args, spec_multiversion_flags(), Some("path"@)) {
            Ok(scan) => {
                &&& multiversion matches Ok(command)
                &&& command.path@ == args.last()
                &&& command.log_debug == (scan.get("--log-debug"@) == Some(Meaning::Bool(true)))
            },
            Err(_) => multiversion is Err,
        },
{
    if scanned(args, spec_multiversion_flags(), Some("path"@)) is Ok {
        law_positional_argument_is_last(args, spec_multiversion_flags(), Some("path"@));
    }
}

} // verus!
