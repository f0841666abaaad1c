//! The command that publishes events to a queue.

use crate::cli::command::{cluster_meaning, optional_text, CommandAmqp};
use crate::cli::flags::{arguments, parse_flags, scanned, Named, NamedKind, Scan};
use vstd::prelude::*;

verus! {

pub open spec fn spec_amqp_flags() -> Seq<Named> {
    seq![
        Named { flag: "--requests-per-second-limit", kind: NamedKind::U32 },
        Named { flag: "--publish-routing-key", kind: NamedKind::Text },
        Named { flag: "--tigerbeetle-timeout-seconds", kind: NamedKind::U32 },
        Named { flag: "--amqp-timeout-seconds", kind: NamedKind::U32 },
        Named { flag: "--event-count-max", kind: NamedKind::U32 },
        Named { flag: "--idle-interval-ms", kind: NamedKind::U32 },
        Named { flag: "--publish-exchange", kind: NamedKind::Text },
        Named { flag: "--timestamp-last", kind: NamedKind::U64 },
        Named { flag: "--addresses", kind: NamedKind::Cluster },
        Named { flag: "--cluster", kind: NamedKind::U128 },
        Named { flag: "--verbose", kind: NamedKind::Bool },
        Named { flag: "--password", kind: NamedKind::Text },
        Named { flag: "--host", kind: NamedKind::Socket { default_port: 5672 } },
        Named { flag: "--vhost", kind: NamedKind::Text },
        Named { flag: "--user", kind: NamedKind::Text },
    ]
}

fn amqp_flags() -> (result: Vec<Named>)
    ensures
        result@ == spec_amqp_flags(),
{
    let mut flags: Vec<Named> = Vec::new();
    flags.push(Named { flag: "--requests-per-second-limit", kind: NamedKind::U32 });
    flags.push(Named { flag: "--publish-routing-key", kind: NamedKind::Text });
    flags.push(Named { flag: "--tigerbeetle-timeout-seconds", kind: NamedKind::U32 });
    flags.push(Named { flag: "--amqp-timeout-seconds", kind: NamedKind::U32 });
    flags.push(Named { flag: "--event-count-max", kind: NamedKind::U32 });
    flags.push(Named { flag: "--idle-interval-ms", kind: NamedKind::U32 });
    flags.push(Named { flag: "--publish-exchange", kind: NamedKind::Text });
    flags.push(Named { flag: "--timestamp-last", kind: NamedKind::U64 });
    flags.push(Named { flag: "--addresses", kind: NamedKind::Cluster });
    flags.push(Named { flag: "--cluster", kind: NamedKind::U128 });
    flags.push(Named { flag: "--verbose", kind: NamedKind::Bool });
    flags.push(Named { flag: "--password", kind: NamedKind::Text });
    flags.push(Named { flag: "--host", kind: NamedKind::Socket { default_port: 5672 } });
    flags.push(Named { flag: "--vhost", kind: NamedKind::Text });
    flags.push(Named { flag: "--user", kind: NamedKind::Text });
    assert(flags@ =~= spec_amqp_flags());
    flags
}

/// What is wrong with the flags of `amqp`.
pub open spec fn amqp_error(scan: Scan) -> Option<Seq<char>> {
    if scan.cluster("--addresses"@) is None {
        Some("--addresses: argument is required"@)
    } else if scan.u128("--cluster"@) is None {
        Some("--cluster: argument is required"@)
    } else if scan.socket("--host"@) is None {
        Some("--host: argument is required"@)
    } else if scan.text("--user"@) is None {
        Some("--user: argument is required"@)
    } else if scan.text("--password"@) is None {
        Some("--password: argument is required"@)
    } else if scan.text("--vhost"@) is None {
        Some("--vhost: argument is required"@)
    } else if scan.text("--publish-exchange"@) is None && scan.text("--publish-routing-key"@)
        is None {
        Some("--publish-exchange and --publish-routing-key cannot both be empty."@)
    } else if scan.u32("--requests-per-second-limit"@) == Some(0u32) {
        Some("--requests-per-second-limit must not be zero."@)
    } else if scan.u32("--idle-interval-ms"@) == Some(0u32) {
        Some("--idle-interval-ms must not be zero."@)
    } else if scan.u32("--amqp-timeout-seconds"@) == Some(0u32) {
        Some("--amqp-timeout-seconds must not be zero."@)
    } else if scan.u32("--tigerbeetle-timeout-seconds"@) == Some(0u32) {
        Some("--tigerbeetle-timeout-seconds must not be zero."@)
    } else {
        None
    }
}

/// The command that the flags of `amqp` say.
pub open spec fn is_amqp(command: CommandAmqp, scan: Scan) -> bool {
    &&& Some(cluster_meaning(command.addresses)) == scan.cluster("--addresses"@)
    &&& Some(command.cluster) == scan.u128("--cluster"@)
    &&& Some(command.host) == scan.socket("--host"@)
    &&& Some(command.user@) == scan.text("--user"@)
    &&& Some(command.password@) == scan.text("--password"@)
    &&& Some(command.vhost@) == scan.text("--vhost"@)
    &&& optional_text(command.publish_exchange) == scan.text("--publish-exchange"@)
    &&& optional_text(command.publish_routing_key) == scan.text("--publish-routing-key"@)
    &&& command.event_count_max == scan.u32("--event-count-max"@)
    &&& command.idle_interval_ms == scan.u32("--idle-interval-ms"@)
    &&& command.requests_per_second_limit == scan.u32("--requests-per-second-limit"@)
    &&& command.amqp_timeout_seconds == scan.u32("--amqp-timeout-seconds"@)
    &&& command.tigerbeetle_timeout_seconds == scan.u32("--tigerbeetle-timeout-seconds"@)
    &&& command.timestamp_last == scan.u64("--timestamp-last"@)
    &&& command.log_debug == scan.bool("--verbose"@)
}

fn is_zero(value: Option<u32>) -> (result: bool)
    ensures
        result == (value == Some(0u32)),
{
    match value {
        Some(value) => value == 0,
        None => false,
    }
}

/// What `amqp` gives for its arguments.
pub open spec fn amqp_outcome(
    args: Seq<Seq<char>>,
    result: Result<CommandAmqp, String>,
) -> bool {
    match (scanned(args, spec_amqp_flags(), None), result) {
        (Err(message), Err(text)) => text@ == message,
        (Err(_), Ok(_)) => false,
        (Ok(scan), Err(text)) => amqp_error(scan) == Some(text@),
        (Ok(scan), Ok(command)) => amqp_error(scan) is None && is_amqp(command, scan),
    }
}

/// Reads the arguments of `amqp`.
///
/// # Errors
/// A message if the arguments are no command.
#[verifier::rlimit(40)]
pub fn parse_args_amqp(args: &[String]) -> (result: Result<CommandAmqp, String>)
    ensures
        amqp_outcome(arguments(args@), result),
{
    let flags = match parse_flags(args, &amqp_flags(), None) {
        Ok(flags) => flags,
        Err(message) => {
            return Err(message);
        },
    };
    let addresses = match flags.cluster("--addresses") {
        Some(addresses) => addresses,
        None => {
            return Err("--addresses: argument is required".to_owned());
        },
    };
    let cluster: u128 = match flags.u128("--cluster") {
        Some(cluster) => cluster,
        None => {
            return Err("--cluster: argument is required".to_owned());
        },
    };
    let host = match flags.socket("--host") {
        Some(host) => host,
        None => {
            return Err("--host: argument is required".to_owned());
        },
    };
    let user = match flags.text("--user") {
        Some(user) => user,
        None => {
            return Err("--user: argument is required".to_owned());
        },
    };
    let password = match flags.text("--password") {
        Some(password) => password,
        None => {
            return Err("--password: argument is required".to_owned());
        },
    };
    let vhost = match flags.text("--vhost") {
        Some(vhost) => vhost,
        None => {
            return Err("--vhost: argument is required".to_owned());
        },
    };
    let publish_exchange = flags.text("--publish-exchange");
    let publish_routing_key = flags.text("--publish-routing-key");
    if publish_exchange.is_none() && publish_routing_key.is_none() {
        return Err(
            "--publish-exchange and --publish-routing-key cannot both be empty.".to_owned(),
        );
    }
    let requests_per_second_limit = flags.u32("--requests-per-second-limit");
    if is_zero(requests_per_second_limit) {
        return Err("--requests-per-second-limit must not be zero.".to_owned());
    }
    let idle_interval_ms = flags.u32("--idle-interval-ms");
    if is_zero(idle_interval_ms) {
        return Err("--idle-interval-ms must not be zero.".to_owned());
    }
    let amqp_timeout_seconds = flags.u32("--amqp-timeout-seconds");
    if is_zero(amqp_timeout_seconds) {
        return Err("--amqp-timeout-seconds must not be zero.".to_owned());
    }
    let tigerbeetle_timeout_seconds = flags.u32("--tigerbeetle-timeout-seconds");
    if is_zero(tigerbeetle_timeout_seconds) {
        return Err("--tigerbeetle-timeout-seconds must not be zero.".to_owned());
    }
    Ok(
        CommandAmqp {
            addresses,
            cluster,
            host,
            user,
            password,
            vhost,
            publish_exchange,
            publish_routing_key,
            event_count_max: flags.u32("--event-count-max"),
            idle_interval_ms,
            requests_per_second_limit,
            amqp_timeout_seconds,
            tigerbeetle_timeout_seconds,
            timestamp_last: flags.u64("--timestamp-last"),
            log_debug: flags.bool("--verbose"),
        },
    )
}

/// What each flag of `amqp` takes.
pub proof fn law_amqp_flags_have_kinds()
    ensures
        spec_amqp_flags().len() == 15,
        spec_amqp_flags().contains((Named { flag: "--addresses", kind: NamedKind::Cluster })),
        spec_amqp_flags().contains(
            (Named { flag: "--amqp-timeout-seconds", kind: NamedKind::U32 }),
        ),
        spec_amqp_flags().contains((Named { flag: "--cluster", kind: NamedKind::U128 })),
        spec_amqp_flags().contains((Named { flag: "--event-count-max", kind: NamedKind::U32 })),
        spec_amqp_flags().contains(
            (Named { flag: "--host", kind: NamedKind::Socket { default_port: 5672 } }),
        ),
        spec_amqp_flags().contains((Named { flag: "--idle-interval-ms", kind: NamedKind::U32 })),
        spec_amqp_flags().contains((Named { flag: "--password", kind: NamedKind::Text })),
        spec_amqp_flags().contains((Named { flag: "--publish-exchange", kind: NamedKind::Text })),
        spec_amqp_flags().contains(
            (Named { flag: "--publish-routing-key", kind: NamedKind::Text }),
        ),
        spec_amqp_flags().contains(
            (Named { flag: "--requests-per-second-limit", kind: NamedKind::U32 }),
        ),
        spec_amqp_flags().contains(
            (Named { flag: "--tigerbeetle-timeout-seconds", kind: NamedKind::U32 }),
        ),
        spec_amqp_flags().contains((Named { flag: "--timestamp-last", kind: NamedKind::U64 })),
        spec_amqp_flags().contains((Named { flag: "--user", kind: NamedKind::Text })),
        spec_amqp_flags().contains((Named { flag: "--verbose", kind: NamedKind::Bool })),
        spec_amqp_flags().contains((Named { flag: "--vhost", kind: NamedKind::Text })),
{
    let flags = spec_amqp_flags();
    assert(flags[0] == (Named { flag: "--requests-per-second-limit", kind: NamedKind::U32 }));
    assert(flags[1] == (Named { flag: "--publish-routing-key", kind: NamedKind::Text }));
    assert(flags[2] == (Named { flag: "--tigerbeetle-timeout-seconds", kind: NamedKind::U32 }));
    assert(flags[3] == (Named { flag: "--amqp-timeout-seconds", kind: NamedKind::U32 }));
    assert(flags[4] == (Named { flag: "--event-count-max", kind: NamedKind::U32 }));
    assert(flags[5] == (Named { flag: "--idle-interval-ms", kind: NamedKind::U32 }));
    assert(flags[6] == (Named { flag: "--publish-exchange", kind: NamedKind::Text }));
    assert(flags[7] == (Named { flag: "--timestamp-last", kind: NamedKind::U64 }));
    assert(flags[8] == (Named { flag: "--addresses", kind: NamedKind::Cluster }));
    assert(flags[9] == (Named { flag: "--cluster", kind: NamedKind::U128 }));
    assert(flags[10] == (Named { flag: "--verbose", kind: NamedKind::Bool }));
    assert(flags[11] == (Named { flag: "--password", kind: NamedKind::Text }));
    assert(flags[12] == (Named { flag: "--host", kind: NamedKind::Socket { default_port: 5672 } }));
    assert(flags[13] == (Named { flag: "--vhost", kind: NamedKind::Text }));
    assert(flags[14] == (Named { flag: "--user", kind: NamedKind::Text }));
}


/// Events are published if the cluster, the queue and the user are known, if it is known where to,
/// and if nothing is limited to zero.
pub proof fn law_amqp_takes_its_flags(args: Seq<Seq<char>>, result: Result<CommandAmqp, String>)
    requires
        amqp_outcome(args, result),
        scanned(args, spec_amqp_flags(), None) is Ok,
    ensures
        ({
            let scan = scanned(args, spec_amqp_flags(), None)->Ok_0;
            &&& result is Ok <==> {
                &&& scan.cluster("--addresses"@) is Some
                &&& scan.u128("--cluster"@) is Some
                &&& scan.socket("--host"@) is Some
                &&& scan.text("--user"@) is Some
                &&& scan.text("--password"@) is Some
                &&& scan.text("--vhost"@) is Some
                &&& scan.text("--publish-exchange"@) is Some || scan.text("--publish-routing-key"@)
                    is Some
                &&& scan.u32("--requests-per-second-limit"@) != Some(0u32)
                &&& scan.u32("--idle-interval-ms"@) != Some(0u32)
                &&& scan.u32("--amqp-timeout-seconds"@) != Some(0u32)
                &&& scan.u32("--tigerbeetle-timeout-seconds"@) != Some(0u32)
            }
            &&& result matches Ok(command) ==> {
                &&& scan.cluster("--addresses"@) == Some(
                    (command.addresses.zero, command.addresses.addresses@),
                )
                &&& scan.u128("--cluster"@) == Some(command.cluster)
                &&& scan.socket("--host"@) == Some(command.host)
                &&& scan.text("--user"@) == Some(command.user@)
                &&& scan.text("--password"@) == Some(command.password@)
                &&& scan.text("--vhost"@) == Some(command.vhost@)
                &&& scan.text("--publish-exchange"@) == optional_text(command.publish_exchange)
                &&& scan.text("--publish-routing-key"@) == optional_text(
                    command.publish_routing_key,
                )
                &&& scan.u32("--event-count-max"@) == command.event_count_max
                &&& scan.u32("--idle-interval-ms"@) == command.idle_interval_ms
                &&& scan.u32("--requests-per-second-limit"@) == command.requests_per_second_limit
                &&& scan.u32("--amqp-timeout-seconds"@) == command.amqp_timeout_seconds
                &&& scan.u32("--tigerbeetle-timeout-seconds"@)
                    == command.tigerbeetle_timeout_seconds
                &&& scan.u64("--timestamp-last"@) == command.timestamp_last
                &&& scan.bool("--verbose"@) == command.log_debug
            }
        }),
{
}

} // verus!
