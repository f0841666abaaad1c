use tigerbeetle::cli::address::{IpAddress, SocketAddress};
use tigerbeetle::cli::flags::{
    parse_cluster_flag, parse_duration_flag, parse_ratio_flag, parse_size_flag, parse_socket_flag,
};
use tigerbeetle::cli::number::{
    exact_size_text, NS_PER_HOUR, NS_PER_MIN, NS_PER_MS, NS_PER_US,
};
use tigerbeetle::cli::replica::generate_cluster;
use tigerbeetle::cli::start::{
    cache_value_count_max_multiple, memory_split_bytes, start_defaults_development,
    start_defaults_production,
};
use tigerbeetle::cli::{
    check_data_file_size, check_superblock_version, cmd_storage_size, command_version,
    format_report, notices, parse_args, run_command, superblock_headers, Action,
    BenchmarkDistribution, BenchmarkIdOrder, ByteSizeUnit, Command, CommandFormat, CommandInspect,
    CommandInspectDataFile, CommandInspectIntegrity, CommandVersion, InspectQuery, ParseFailure,
    Ratio, HELP, INSPECT_HELP, VERSION,
};
use tigerbeetle::constants::{
    BLOCK_SIZE, DATA_FILE_SIZE_MIN, LSM_MANIFEST_MEMORY_SIZE_DEFAULT, LSM_MANIFEST_NODE_SIZE,
};

/// The checksum of the configuration.
const CLUSTER_CHECKSUM: u128 = 0xc0fe;

/// What the id of clusters that are not named is made from.
const DRAWN: u64 = 0xc0;

fn args(list: &[&str]) -> Vec<String> {
    list.iter().map(|s| String::from(*s)).collect()
}

fn parse(argv: &[String]) -> Result<Command, ParseFailure> {
    parse_args(argv, DRAWN)
}

fn fatal(list: &[&str]) -> String {
    match parse(&args(list)) {
        Err(ParseFailure::Fatal(message)) => message,
        other => panic!("{other:?}"),
    }
}

#[test]
fn format_full() {
    let cmd = parse(&args(&[
        "format",
        "--cluster=0",
        "--replica=0",
        "--replica-count=6",
        "0_0.tigerbeetle",
    ]))
    .unwrap();
    assert_eq!(
        cmd,
        Command::Format(CommandFormat {
            cluster: 0,
            replica: 0,
            replica_count: 6,
            development: false,
            path: "0_0.tigerbeetle".into(),
            log_debug: false,
        })
    );
}

#[test]
fn format_standby() {
    let cmd =
        parse(&args(&["format", "--standby=7", "--replica-count=6", "0_6.tigerbeetle"]))
            .unwrap();
    let Command::Format(cmd) = cmd else { unreachable!() };
    assert_eq!(cmd.replica, 7);
    assert_eq!(cmd.replica_count, 6);
}

#[test]
fn format_errors() {
    // Missing subcommand.
    assert_eq!(
        parse(&args(&[])),
        Err(ParseFailure::Fatal(
            "subcommand required, expected format, recover, start, version, repl, \
             benchmark, inspect, multiversion, amqp"
                .into()
        ))
    );
    // Unknown subcommand.
    assert_eq!(
        parse(&args(&["formattt", "0_0.tigerbeetle"])),
        Err(ParseFailure::Fatal("unknown subcommand: 'formattt'".into()))
    );
    // Missing required flags.
    assert_eq!(
        parse(&args(&["format", "--replica-count=6", "path"])),
        Err(ParseFailure::Fatal("--replica: argument is required".into()))
    );
    assert_eq!(
        parse(&args(&["format", "--replica=0", "path"])),
        Err(ParseFailure::Fatal("--replica-count: argument is required".into()))
    );
    assert_eq!(
        parse(&args(&["format", "--replica=0", "--replica-count=6"])),
        Err(ParseFailure::Fatal("path: argument is required".into()))
    );
    // replica-count bounds.
    assert_eq!(
        parse(&args(&["format", "--replica=0", "--replica-count=0", "path"])),
        Err(ParseFailure::Fatal("--replica-count: value needs to be greater than zero".into()))
    );
    assert_eq!(
        parse(&args(&["format", "--replica=0", "--replica-count=7", "path"])),
        Err(ParseFailure::Fatal(
            "--replica-count: value is too large (7), at most 6 is allowed".into()
        ))
    );
    // replica / standby conflicts.
    assert_eq!(
        parse(&args(&[
            "format",
            "--replica=0",
            "--standby=7",
            "--replica-count=6",
            "path"
        ])),
        Err(ParseFailure::Fatal("--standby: conflicts with '--replica'".into()))
    );
    assert_eq!(
        parse(&args(&["format", "--replica=6", "--replica-count=6", "path"])),
        Err(ParseFailure::Fatal(
            "--replica: value is too large (6), at most 5 is allowed".into()
        ))
    );
    // Duplicate argument.
    assert_eq!(
        parse(&args(&[
            "format",
            "--replica=0",
            "--replica=1",
            "--replica-count=6",
            "path"
        ])),
        Err(ParseFailure::Fatal("--replica: duplicate argument".into()))
    );
    // Int overflow / invalid digit / leading zero.
    assert_eq!(
        parse(&args(&["format", "--replica=256", "--replica-count=6", "path"])),
        Err(ParseFailure::Fatal(
            "--replica: value exceeds 8-bit unsigned integer: '256'".into()
        ))
    );
    assert_eq!(
        parse(&args(&["format", "--replica=0a", "--replica-count=6", "path"])),
        Err(ParseFailure::Fatal("--replica: leading zero disallowed: '0a'".into()))
    );
    assert_eq!(
        parse(&args(&["format", "--replica=00", "--replica-count=6", "path"])),
        Err(ParseFailure::Fatal("--replica: leading zero disallowed: '00'".into()))
    );
}
#[test]
fn flag_separator_errors() {
    // A bare non-boolean flag without `=` reports a missing separator.
    assert_eq!(
        parse(&args(&["format", "--replica-count"])),
        Err(ParseFailure::Fatal("--replica-count: expected value separator '='".into()))
    );
    // An empty `--flag=` value reports a missing argument.
    assert_eq!(
        parse(&args(&["format", "--replica-count=", "path"])),
        Err(ParseFailure::Fatal("--replica-count: argument requires a value".into()))
    );
}

#[test]
fn format_cluster_zero_warns() {
    // cluster=0 is accepted (with a warning) and preserved.
    let cmd = parse(&args(&[
        "format",
        "--cluster=0",
        "--replica=0",
        "--replica-count=3",
        "0_0.tigerbeetle",
    ]))
    .unwrap();
    let Command::Format(cmd) = cmd else { unreachable!() };
    assert_eq!(cmd.cluster, 0);
}

#[test]
fn recover_root() {
    let cmd = parse(&args(&[
        "recover",
        "--cluster=0",
        "--addresses=3003,3001,3002",
        "--replica=1",
        "--replica-count=3",
        "0_1.tigerbeetle",
    ]))
    .unwrap();
    let Command::Recover(cmd) = cmd else { unreachable!() };
    assert_eq!(cmd.cluster, 0);
    assert_eq!(cmd.replica, 1);
    assert_eq!(cmd.replica_count, 3);
    assert_eq!(cmd.addresses.members_count(), 3);
}

#[test]
fn recover_errors() {
    assert_eq!(
        parse(&args(&[
            "recover",
            "--cluster=0",
            "--addresses=3003",
            "--replica=1",
            "--replica-count=1",
            "path",
        ])),
        Err(ParseFailure::Fatal(
            "--replica: value is too large (1), at most 0 is allowed".into()
        ))
    );
    assert_eq!(
        parse(&args(&[
            "recover",
            "--cluster=0",
            "--addresses=3003",
            "--replica=0",
            "--replica-count=2",
            "path",
        ])),
        Err(ParseFailure::Fatal(
            "--replica-count: 1- or 2- replica clusters don't support 'recover'".into()
        ))
    );
    assert_eq!(
        parse(&args(&[
            "recover",
            "--addresses=3003",
            "--replica=0",
            "--replica-count=3",
            "path",
        ])),
        Err(ParseFailure::Fatal("--cluster: argument is required".into()))
    );
}

#[test]
fn start_development_defaults() {
    // The default size of requests exceeds the size of messages, so that it has to be given.
    let defaults = start_defaults_development();
    assert_eq!(defaults.limit_pipeline_requests, 0);
    assert_eq!(defaults.limit_request, 32 * 1024);
    assert_eq!(defaults.cache_accounts, 0);

    let cmd = parse(&args(&[
        "start",
        "--addresses=3000,3001,3002",
        "--experimental",
        "--development",
        "--limit-request=4KiB",
        "0_0.tigerbeetle",
    ]))
    .unwrap();
    let Command::Start(cmd) = cmd else { unreachable!() };
    assert_eq!(cmd.addresses.members_count(), 3);
    assert!(cmd.development);
    // `data_file_size_min` is the minimum storage size, and it is satisfiable.
    assert!(cmd.storage_size_limit >= DATA_FILE_SIZE_MIN);
    assert_eq!(cmd.pipeline_requests_limit, 0);
    assert_eq!(cmd.request_size_limit, 4096);
    assert_eq!(cmd.cache_accounts, 0);
    assert!(!cmd.log_debug);
}

#[test]
fn start_experimental_gate() {
    assert_eq!(
        parse(&args(&[
            "start",
            "--addresses=3000",
            "--cache-accounts=1GiB",
            "0_0.tigerbeetle",
        ])),
        Err(ParseFailure::Fatal(
            "--cache-accounts is marked experimental, add `--experimental` to continue.".into()
        ))
    );
    // With --experimental the same flag is accepted.
    let _ = parse(&args(&[
        "start",
        "--addresses=3000",
        "--experimental",
        "--cache-accounts=4MiB",
        "0_0.tigerbeetle",
    ]))
    .unwrap();
}

#[test]
fn start_memory_split() {
    // Value caches must be rounded to the SetAssociativeCache multiple; the grid cache
    // to `Grid.Cache`'s multiple.
    let cmd = parse(&args(&[
        "start",
        "--addresses=3000",
        "--experimental",
        "--memory=64MiB",
        "0_0.tigerbeetle",
    ]))
    .unwrap();
    let Command::Start(cmd) = cmd else { unreachable!() };
    let grid_bytes = memory_split_bytes(64 * 1024 * 1024, 64);
    let multiple = cache_value_count_max_multiple() as u32;
    // The grid cache rounds the block count down to a multiple of the cache-value count.
    assert_eq!(
        cmd.cache_grid_blocks,
        (grid_bytes / BLOCK_SIZE as u64) as u32 / multiple * multiple
    );
    assert_eq!(cmd.cache_grid_blocks % multiple, 0);
    assert!(cmd.cache_grid_blocks as u64 * BLOCK_SIZE as u64 <= grid_bytes);
}

#[test]
fn start_errors() {
    assert_eq!(
        parse(&args(&["start", "0_0.tigerbeetle"])),
        Err(ParseFailure::Fatal("--addresses: argument is required".into()))
    );
    // Missing positional.
    assert_eq!(
        parse(&args(&["start", "--addresses=3000"])),
        Err(ParseFailure::Fatal("path: argument is required".into()))
    );
    // trailing option after positional.
    assert_eq!(
        parse(&args(&["start", "--addresses=3000", "path", "--development"])),
        Err(ParseFailure::Fatal("unexpected trailing option: '--development'".into()))
    );
    // empty positional.
    assert_eq!(
        parse(&args(&["start", "--addresses=3000", ""])),
        Err(ParseFailure::Fatal("path: empty argument".into()))
    );
}

#[test]
fn version_verbose() {
    let cmd = parse(&args(&["version", "--verbose"])).unwrap();
    let Command::Version(cmd) = cmd else { unreachable!() };
    assert!(cmd.verbose);
}

#[test]
fn repl_requires_addresses_and_cluster() {
    assert_eq!(
        parse(&args(&["repl"])),
        Err(ParseFailure::Fatal("--addresses: argument is required".into()))
    );
    let cmd = parse(&args(&["repl", "--addresses=3000", "--cluster=0"])).unwrap();
    let Command::Repl(cmd) = cmd else { unreachable!() };
    assert_eq!(cmd.cluster, 0);
    assert_eq!(cmd.statements, "");
}

#[test]
fn benchmark_enums_and_vectors() {
    // Longest-prefix: `--transfer-batch-count` vs `--transfer-count`.
    let cmd = parse(&args(&[
        "benchmark",
        "--account-distribution=zipfian",
        "--id-order=sequential",
        "--transfer-count=77",
        "--transfer-batch-count=22",
    ]))
    .unwrap();
    let Command::Benchmark(cmd) = cmd else { unreachable!() };
    assert_eq!(cmd.account_distribution, BenchmarkDistribution::Zipfian);
    assert_eq!(cmd.id_order, BenchmarkIdOrder::Sequential);
    assert_eq!(cmd.transfer_count, 77);
    assert_eq!(cmd.transfer_batch_count, 22);

    assert_eq!(
        parse(&args(&["benchmark", "--account-distribution=bogus"])),
        Err(ParseFailure::Fatal(
            "--account-distribution: expected one of 'zipfian', 'latest', or 'uniform', \
             but found 'bogus'"
                .into()
        ))
    );
    assert_eq!(
        parse(&args(&["benchmark", "--id-order=bogus"])),
        Err(ParseFailure::Fatal(
            "--id-order: expected one of 'tbid', 'sequential', 'random', or 'reversed', \
             but found 'bogus'"
                .into()
        ))
    );
}

#[test]
fn duration_flag_value() {
    assert_eq!(parse_duration_flag("--transfer-batch-delay", "1h").unwrap(), NS_PER_HOUR);
    assert_eq!(
        parse_duration_flag("--transfer-batch-delay", "1h2m").unwrap(),
        NS_PER_HOUR + 2 * NS_PER_MIN
    );
    assert_eq!(
        parse_duration_flag("--transfer-batch-delay", "1ms2us3ns").unwrap(),
        NS_PER_MS + 2 * NS_PER_US + 3
    );
    for (input, expected) in [
        ("h", "missing value"),
        ("1", "missing unit; must be one of: d/h/m/s/ms/us/ns"),
        ("1H", "unknown unit; must be one of: d/h/m/s/ms/us/ns"),
        ("1h2x", "unknown unit; must be one of: d/h/m/s/ms/us/ns"),
        ("1_0h", "unknown unit; must be one of: d/h/m/s/ms/us/ns"),
        ("1h 2m", "missing value"),
        ("18446744073709551616ns", "integer overflow"),
        ("1844674407370955161s", "duration too large"),
        ("0024h", "leading zero disallowed"),
    ] {
        assert_eq!(
            parse_duration_flag("--transfer-batch-delay", input),
            Err(format!("--transfer-batch-delay: {expected}: '{input}'")),
            "{input}"
        );
    }
}

#[test]
fn ratio_flag_value() {
    assert_eq!(parse_ratio_flag("--commit-stall-probability", "0").unwrap(), Ratio::zero());
    assert_eq!(
        parse_ratio_flag("--commit-stall-probability", "3/4").unwrap(),
        Ratio { numerator: 3, denominator: 4 }
    );
    assert_eq!(
        parse_ratio_flag("--commit-stall-probability", "1/0"),
        Err("--commit-stall-probability: denominator is zero: '1/0'".into())
    );
    assert_eq!(
        parse_ratio_flag("--commit-stall-probability", "2/1"),
        Err("--commit-stall-probability: ratio greater than 1: '2/1'".into())
    );
    assert_eq!(
        parse_ratio_flag("--commit-stall-probability", "1"),
        Err("--commit-stall-probability: expected 'a/b' ratio, but found: '1'".into())
    );
}

#[test]
fn cluster_address_flag_value() {
    assert_eq!(
        parse_cluster_flag("--addresses", "127.0.0.1:3000,127.0.0.1:3001")
            .unwrap()
            .members_count(),
        2
    );
    assert_eq!(parse_cluster_flag("--addresses", "3000,3001,3002").unwrap().members_count(), 3);
    assert!(parse_cluster_flag("--addresses", "0").unwrap().zero);
    assert_eq!(parse_cluster_flag("--addresses", "[::1]:3000").unwrap().members_count(), 1);

    assert_eq!(
        parse_cluster_flag("--addresses", "1.2.3.4:567,1.2.3.4:"),
        Err("--addresses: invalid port: '1.2.3.4:567,1.2.3.4:'".into())
    );
    // A bare "3000:3000" parses the port but fails on the "3000" host.
    assert_eq!(
        parse_cluster_flag("--addresses", "3000:3000"),
        Err("--addresses: invalid IPv4 or IPv6 address: '3000:3000'".into())
    );
    // Bare ports (including "1") are valid against the default address.
    assert_eq!(parse_cluster_flag("--addresses", "3000,3001,1").unwrap().members_count(), 3);
}

#[test]
fn inspect_commands() {
    assert_eq!(
        parse(&args(&["inspect", "constants"])).unwrap(),
        Command::Inspect(CommandInspect::Constants)
    );
    assert_eq!(
        parse(&args(&["inspect", "op", "19"])).unwrap(),
        Command::Inspect(CommandInspect::Op(19))
    );
    assert_eq!(
        parse(&args(&["inspect", "superblock", "0_0.tigerbeetle"])).unwrap(),
        Command::Inspect(CommandInspect::DataFile(CommandInspectDataFile {
            path: "0_0.tigerbeetle".into(),
            query: InspectQuery::Superblock,
        }))
    );
    assert_eq!(
        parse(&args(&["inspect", "wal", "--slot=4", "0_0.tigerbeetle"])).unwrap(),
        Command::Inspect(CommandInspect::DataFile(CommandInspectDataFile {
            path: "0_0.tigerbeetle".into(),
            query: InspectQuery::Wal { slot: Some(4) },
        }))
    );
    assert_eq!(
        parse(&args(&[
            "inspect",
            "tables",
            "--tree=transfers",
            "--level=2",
            "0_0.tigerbeetle"
        ]))
        .unwrap(),
        Command::Inspect(CommandInspect::DataFile(CommandInspectDataFile {
            path: "0_0.tigerbeetle".into(),
            query: InspectQuery::Tables {
                superblock_copy: None,
                tree: "transfers".into(),
                level: Some(2),
            },
        }))
    );
    assert_eq!(
        parse(&args(&["inspect", "integrity", "0_0.tigerbeetle"])).unwrap(),
        Command::Inspect(CommandInspect::Integrity(CommandInspectIntegrity {
            path: "0_0.tigerbeetle".into(),
            log_debug: false,
            seed: None,
            lsm_forest_node_count: (LSM_MANIFEST_MEMORY_SIZE_DEFAULT / LSM_MANIFEST_NODE_SIZE as u64)
                as u32,
            skip_wal: false,
            skip_client_replies: false,
            skip_grid: false,
        }))
    );
}

#[test]
fn amqp_validation() {
    assert_eq!(
        parse(&args(&[
            "amqp",
            "--addresses=3000",
            "--cluster=0",
            "--host=127.0.0.1",
            "--user=u",
            "--password=p",
            "--vhost=/",
        ])),
        Err(ParseFailure::Fatal(
            "--publish-exchange and --publish-routing-key cannot both be empty.".into()
        ))
    );
    let cmd = parse(&args(&[
        "amqp",
        "--addresses=3000",
        "--cluster=0",
        "--host=127.0.0.1",
        "--user=u",
        "--password=p",
        "--vhost=/",
        "--publish-exchange=x",
    ]))
    .unwrap();
    let Command::Amqp(cmd) = cmd else { unreachable!() };
    assert!(cmd.publish_exchange.is_some());
    // Default AMQP port 5672 fills in for a bare host.
    assert_eq!(cmd.host.port, 5672);
}

#[test]
fn bytesize_flag_value() {
    let size = parse_size_flag("--cache-grid", "4MiB").unwrap();
    assert_eq!(size.bytes(), 4 * 1024 * 1024);
    assert_eq!(size.unit, ByteSizeUnit::Mib);
    assert_eq!(
        parse_size_flag("--cache-grid", "4xb"),
        Err("--cache-grid: invalid unit in size, needed KiB, MiB, GiB or TiB: '4xb'".into())
    );
    // A bare magnitude is a valid byte size.
    assert_eq!(parse_size_flag("--cache-grid", "4").unwrap().bytes(), 4);
    assert_eq!(
        parse_size_flag("--cache-grid", "04MiB"),
        Err("--cache-grid: leading zero disallowed: '04MiB'".into())
    );
    assert_eq!(
        parse_size_flag("--cache-grid", "0000000000000000000001KiB"),
        Err("--cache-grid: leading zero disallowed: '0000000000000000000001KiB'".into())
    );
}

#[test]
fn help_texts_present() {
    assert!(HELP.contains("tigerbeetle format"));
    assert!(INSPECT_HELP.contains("inspect integrity"));
    assert_eq!(parse(&args(&["-h"])), Err(ParseFailure::Help(HELP)));
    assert_eq!(parse(&args(&["--help"])), Err(ParseFailure::Help(HELP)));
    assert_eq!(
        parse(&args(&["inspect", "--help"])),
        Err(ParseFailure::Help(INSPECT_HELP))
    );
}

#[test]
fn format_generates_a_cluster_id() {
    let argv = args(&["format", "--replica=0", "--replica-count=1", "path"]);
    let parsed = parse(&argv);
    assert_eq!(notices(&argv, &parsed), vec!["generated random cluster id: 193".to_owned()]);
    let Ok(Command::Format(format)) = parsed else { unreachable!() };
    assert_eq!(format.cluster, 0xc1);

    assert_eq!(generate_cluster(0), 1);
    assert_eq!(generate_cluster(1), 1);
    assert_eq!(generate_cluster(u64::MAX), u128::from(u64::MAX));

    let argv = args(&["format", "--cluster=0", "--replica=0", "--replica-count=1", "path"]);
    assert_eq!(notices(&argv, &parse(&argv)).len(), 2);

    let argv = args(&["format", "--cluster=7", "--replica=0", "--replica-count=1", "path"]);
    assert!(notices(&argv, &parse(&argv)).is_empty());
}

#[test]
fn format_standby_bounds() {
    assert_eq!(
        fatal(&["format", "--standby=5", "--replica-count=6", "path"]),
        "--standby: value is too small (5), at least 6 is required"
    );
    assert_eq!(
        fatal(&["format", "--standby=12", "--replica-count=6", "path"]),
        "--standby: value is too large (12), at most 11 is allowed"
    );
}

#[test]
fn integers_take_separators_but_no_stray_characters() {
    let command = parse(&args(&["inspect", "op", "1_000"])).unwrap();
    assert_eq!(command, Command::Inspect(CommandInspect::Op(1000)));
    for op in ["1_", "_1", "1a", "a"] {
        assert_eq!(
            fatal(&["inspect", "op", op]),
            format!("op: expected an integer value, but found '{op}' (invalid digit)")
        );
    }
    assert_eq!(
        fatal(&["inspect", "op", "18446744073709551616"]),
        "op: value exceeds 64-bit unsigned integer: '18446744073709551616'"
    );
    let command = parse(&args(&["inspect", "op", "18446744073709551615"])).unwrap();
    assert_eq!(command, Command::Inspect(CommandInspect::Op(u64::MAX)));
}

#[test]
fn levels_have_six_bits() {
    let command = parse(&args(&["inspect", "tables", "--level=63", "path"])).unwrap();
    assert_eq!(
        command,
        Command::Inspect(CommandInspect::DataFile(CommandInspectDataFile {
            path: "path".to_owned(),
            query: InspectQuery::Tables {
                superblock_copy: None,
                tree: String::new(),
                level: Some(63)
            },
        }))
    );
    for level in ["64", "255", "256"] {
        assert_eq!(
            fatal(&["inspect", "tables", &format!("--level={level}"), "path"]),
            format!("--level: value exceeds 6-bit unsigned integer: '{level}'")
        );
    }
}

#[test]
fn bool_flags_take_true_and_false() {
    for (flag, expected) in
        [("--verbose", true), ("--verbose=true", true), ("--verbose=false", false)]
    {
        let command = parse(&args(&["version", flag])).unwrap();
        assert_eq!(command, Command::Version(CommandVersion { verbose: expected }));
    }
    assert_eq!(
        fatal(&["version", "--verbose=yes"]),
        "--verbose: expected one of 'true' or 'false', but found 'yes'"
    );
}

#[test]
fn separators_are_named_by_their_first_byte() {
    assert_eq!(
        fatal(&["format", "--replica:0", "path"]),
        "--replica: expected value separator '=', but found ':' in '--replica:0'"
    );
    // The first byte of the letter is 0xc3.
    assert_eq!(
        fatal(&["format", "--replica\u{e9}", "path"]),
        "--replica: expected value separator '=', but found '\u{c3}' in '--replica\u{e9}'"
    );
}

#[test]
fn the_longest_flag_wins() {
    let command = parse(&args(&[
        "start",
        "--addresses=3000",
        "--experimental",
        "--aof-file=x.aof",
        "path",
    ]))
    .unwrap();
    let Command::Start(start) = command else { unreachable!() };
    assert_eq!(start.aof_file, Some("x.aof".to_owned()));
}

#[test]
fn start_aof() {
    let argv = args(&["start", "--addresses=3000", "--experimental", "--aof", "path"]);
    let parsed = parse(&argv);
    assert_eq!(
        notices(&argv, &parsed),
        vec!["--aof is deprecated. consider switching to '--aof-file=path.aof'".to_owned()]
    );
    let Ok(Command::Start(start)) = parsed else { unreachable!() };
    assert_eq!(start.aof_file, Some("path.aof".to_owned()));

    let start = ["start", "--addresses=3000", "--experimental"];
    assert_eq!(
        fatal(&[&start[..], &["--aof", "--aof-file=x.aof", "path"][..]].concat()),
        "--aof is mutually exclusive with --aof-file"
    );
    assert_eq!(
        fatal(&[&start[..], &["--aof-file=x.log", "path"][..]].concat()),
        "--aof-file must end with .aof: 'x.log'"
    );
    let long = "p".repeat(4093);
    assert_eq!(
        fatal(&[&start[..], &["--aof", &long][..]].concat()),
        "data file path is too long for --aof. use --aof-file"
    );
    assert!(parse(&args(&[&start[..], &["--aof", &long[1..]][..]].concat())).is_ok());
    let long = format!("--aof-file={}.aof", "p".repeat(4093));
    assert_eq!(
        fatal(&[&start[..], &[&long[..], "path"][..]].concat()),
        "--aof-file path is too long"
    );
}

#[test]
fn start_limits() {
    let start = |flag: &str| fatal(&["start", "--addresses=3000", "--experimental", flag, "path"]);
    assert_eq!(start("--limit-storage=2GiB"), "--limit-storage: size 2GiB exceeds maximum: 1GiB");
    assert_eq!(
        start("--limit-storage=512KiB"),
        "--limit-storage: size 512KiB is below minimum: 1MiB"
    );
    assert_eq!(
        start("--limit-storage=1048577"),
        "--limit-storage: size 1048577 must be a multiple of sector size (4KiB)"
    );
    assert_eq!(
        start("--limit-pipeline-requests=4"),
        "--limit-pipeline-requests: count 4 exceeds maximum: 3"
    );
    assert_eq!(start("--limit-request=8KiB"), "--limit-request: size 8KiB exceeds maximum: 4KiB");
    assert_eq!(start("--limit-request=1KiB"), "--limit-request: size 1KiB is below minimum: 4KiB");
    assert_eq!(
        start("--memory-lsm-manifest=1KiB"),
        "--memory-lsm-manifest: size 1KiB is below minimum: 1MiB"
    );
    assert_eq!(
        start("--memory-lsm-manifest=65GiB"),
        "--memory-lsm-manifest: size 65GiB exceeds maximum: 64GiB"
    );
    assert_eq!(
        start("--memory-lsm-manifest=1025KiB"),
        "--memory-lsm-manifest: size 1025KiB must be a multiple of 1MiB"
    );
    assert_eq!(
        start("--memory-lsm-compaction=4KiB"),
        "--memory-lsm-compaction: size 4KiB is below minimum: 52KiB"
    );
    assert_eq!(
        start("--memory-lsm-compaction=53KiB"),
        "--memory-lsm-compaction: size 53KiB must be a multiple of 4KiB"
    );
    assert_eq!(
        start("--log-trace"),
        "--log-debug must be provided when using --log-trace"
    );
    assert_eq!(start("--cache-accounts=512GiB"), "--cache-accounts: exceeds the limit");
    assert_eq!(
        start("--timeout-prepare-ms=0"),
        "--timeout-prepare-ms: timeout 0ms be nonzero"
    );
    assert_eq!(
        start("--timeout-prepare-ms=15"),
        "--timeout-prepare-ms: timeout 15ms must be a multiple of 10ms"
    );
    assert_eq!(
        fatal(&[
            "start",
            "--addresses=3000",
            "--experimental",
            "--memory=1GiB",
            "--cache-transfers=1MiB",
            "path"
        ]),
        "--memory is mutually exclusive with --cache-transfers"
    );
}

#[test]
fn start_counts() {
    let command = parse(&args(&[
        "start",
        "--addresses=3000",
        "--experimental",
        "--cache-accounts=4MiB",
        "--memory-lsm-compaction=56KiB",
        "--timeout-prepare-ms=20",
        "--statsd=127.0.0.1",
        "--replicate-star",
        "path",
    ]))
    .unwrap();
    let Command::Start(start) = command else { unreachable!() };
    assert_eq!(start.cache_accounts, 32768);
    assert_eq!(start.lsm_forest_compaction_block_count, 14);
    assert_eq!(start.timeout_prepare_ticks, Some(2));
    assert_eq!(start.timeout_grid_repair_message_ticks, None);
    assert_eq!(start.statsd.unwrap().port, 8125);
    let defaults = start_defaults_production();
    assert_eq!(start.pipeline_requests_limit, defaults.limit_pipeline_requests);
    assert_eq!(start.request_size_limit, defaults.limit_request);
    assert!(start.replicate_star);
}

#[test]
fn memory_is_split_by_percent() {
    assert_eq!(memory_split_bytes(1000, 64), 640);
    assert_eq!(memory_split_bytes(u64::MAX, 100), u64::MAX / 100);
    assert_eq!(cache_value_count_max_multiple(), 256);
}

#[test]
fn benchmark_bounds() {
    let command = parse(&args(&["benchmark"])).unwrap();
    let Command::Benchmark(benchmark) = command else { unreachable!() };
    assert_eq!(benchmark.account_batch_count, 30);
    assert_eq!(benchmark.transfer_batch_count, 30);
    assert_eq!(benchmark.account_distribution, BenchmarkDistribution::Uniform);
    assert_eq!(benchmark.id_order, BenchmarkIdOrder::Tbid);
    assert_eq!(benchmark.account_count, 10_000);
    assert_eq!(benchmark.transfer_count, 10_000_000);
    assert_eq!(benchmark.transfer_hot_percent, 100);
    assert_eq!(benchmark.query_count, 100);
    assert_eq!(benchmark.clients, 1);

    assert_eq!(
        fatal(&["benchmark", "--account-batch-count=0"]),
        "--account-batch-count must be greater than 0"
    );
    assert_eq!(
        fatal(&["benchmark", "--account-batch-count=31"]),
        "--account-batch-count must be less than or equal to 30"
    );
    assert_eq!(
        fatal(&["benchmark", "--transfer-batch-count=0"]),
        "--transfer-batch-count must be greater than 0"
    );
    assert_eq!(
        fatal(&["benchmark", "--transfer-batch-count=31"]),
        "--transfer-batch-count must be less than or equal to 30"
    );
    assert_eq!(
        fatal(&["benchmark", "--addresses=3000", "--file=x"]),
        "--file: --addresses and --file are mutually exclusive"
    );
    assert_eq!(fatal(&["benchmark", "path"]), "unexpected argument: 'path'");
}

#[test]
fn amqp_requires_its_flags() {
    let all = [
        "--addresses=3000",
        "--cluster=0",
        "--host=127.0.0.1:1",
        "--user=u",
        "--password=p",
        "--vhost=/",
    ];
    for i in 0..all.len() {
        let mut list = vec!["amqp"];
        list.extend(all[..i].iter());
        list.extend(all[i + 1..].iter());
        list.push("--publish-exchange=x");
        let name = all[i].split('=').next().unwrap();
        assert_eq!(fatal(&list), format!("{name}: argument is required"));
    }
    for flag in [
        "--requests-per-second-limit",
        "--idle-interval-ms",
        "--amqp-timeout-seconds",
        "--tigerbeetle-timeout-seconds",
    ] {
        let zero = format!("{flag}=0");
        let mut list = vec!["amqp"];
        list.extend(all.iter());
        list.push("--publish-exchange=x");
        list.push(&zero);
        assert_eq!(fatal(&list), format!("{flag} must not be zero."));
    }
}

#[test]
fn addresses() {
    let v4 = |ip: u32, port: u16| SocketAddress { ip: IpAddress::V4(ip), port };
    let v6 = |ip: u128, port: u16| SocketAddress { ip: IpAddress::V6(ip), port };
    for (text, expected) in [
        ("1.2.3.4:567", v4(0x0102_0304, 567)),
        ("255.255.255.255", v4(0xffff_ffff, 3000)),
        ("3001", v4(0x7f00_0001, 3001)),
        ("[::1]:3002", v6(1, 3002)),
        ("[::]", v6(0, 3000)),
        ("[1:2:3:4:5:6:7:8]", v6(0x0001_0002_0003_0004_0005_0006_0007_0008, 3000)),
        ("[fe80::AbCd:1]:1", v6(0xfe80_0000_0000_0000_0000_0000_abcd_0001, 1)),
        ("[1::]", v6(0x0001_0000_0000_0000_0000_0000_0000_0000, 3000)),
    ] {
        let cluster = parse_cluster_flag("--addresses", text).unwrap();
        assert_eq!(cluster.addresses, vec![expected], "{text}");
        assert!(!cluster.zero);
    }
    for (text, expected) in [
        ("1.2.3.4:7777,", "invalid trailing comma:"),
        ("1.2.3.4:7777,2.3.4.5::8888", "invalid address with more than one colon:"),
        ("1.2.3.4:65536", "invalid port:"),
        ("65536", "invalid port:"),
        ("1.2.3.4:x", "invalid port:"),
        ("1.2.3", "invalid IPv4 or IPv6 address:"),
        ("1.2.3.04", "invalid IPv4 or IPv6 address:"),
        ("1.2.3.256", "invalid IPv4 or IPv6 address:"),
        ("x", "invalid IPv4 or IPv6 address:"),
        ("[1:2:3:4:5:6:7]", "invalid IPv4 or IPv6 address:"),
        ("[1:2:3:4:5:6:7:8:9]", "invalid IPv4 or IPv6 address:"),
        ("[1::2::3]", "invalid IPv4 or IPv6 address:"),
        ("[1:2:3:4::5:6:7:8]", "invalid IPv4 or IPv6 address:"),
        ("[12345::]", "invalid IPv4 or IPv6 address:"),
        ("[g::]", "invalid IPv4 or IPv6 address:"),
    ] {
        assert_eq!(
            parse_cluster_flag("--addresses", text),
            Err(format!("--addresses: {expected} '{text}'"))
        );
    }
    let many = vec!["1"; 13].join(",");
    assert_eq!(
        parse_cluster_flag("--addresses", &many),
        Err(format!("--addresses: too many addresses, at most 12 are allowed: '{many}'"))
    );
    assert!(parse_cluster_flag("--addresses", &many[2..]).is_ok());
}

#[test]
fn sockets() {
    let address = parse_socket_flag("--host", "1.2.3.4", 99).unwrap();
    assert_eq!(address, SocketAddress { ip: IpAddress::V4(0x0102_0304), port: 99 });
    for (text, expected) in [
        ("1.2.3.4:", "--host: invalid port"),
        ("1.2.3.4::1", "--host: invalid address with more than one colon"),
        ("a.b", "--host: invalid IPv4 or IPv6 address"),
    ] {
        assert_eq!(parse_socket_flag("--host", text, 99), Err(expected.to_owned()));
    }
}

#[test]
fn sizes() {
    for (text, value, unit, bytes) in [
        ("1_000", 1000, ByteSizeUnit::Bytes, 1000),
        ("3KiB", 3, ByteSizeUnit::Kib, 3 << 10),
        ("3GiB", 3, ByteSizeUnit::Gib, 3 << 30),
        ("3TiB", 3, ByteSizeUnit::Tib, 3 << 40),
    ] {
        let size = parse_size_flag("--x", text).unwrap();
        assert_eq!((size.value, size.unit, size.bytes()), (value, unit, bytes));
    }
    for (text, expected) in [
        ("KiB", "expected a size, but found:"),
        ("18446744073709551616", "value exceeds 64-bit unsigned integer:"),
        ("18446744073709551615KiB", "size in bytes exceeds 64-bit unsigned integer:"),
    ] {
        assert_eq!(parse_size_flag("--x", text), Err(format!("--x: {expected} '{text}'")));
    }
    for (n, expected) in [
        (0, "0B"),
        (1000, "1000B"),
        (4096, "4KiB"),
        (3 << 20, "3MiB"),
        (5 << 30, "5GiB"),
        (7 << 40, "7TiB"),
        (1 << 60, "1EiB"),
    ] {
        assert_eq!(exact_size_text(n), expected);
    }
}

#[test]
fn ratios() {
    assert_eq!(
        parse_ratio_flag("--x", "a/1"),
        Err("--x: invalid numerator: 'a/1'".to_owned())
    );
    assert_eq!(
        parse_ratio_flag("--x", "1/"),
        Err("--x: invalid denominator: '1/'".to_owned())
    );
    assert_eq!(parse_ratio_flag("--x", "0/5"), Ok(Ratio { numerator: 0, denominator: 5 }));
}

#[test]
fn durations_are_less_than_a_thousand_days() {
    assert_eq!(parse_duration_flag("--x", ""), Ok(0));
    assert_eq!(parse_duration_flag("--x", "999d"), Ok(999 * 24 * NS_PER_HOUR));
    assert_eq!(
        parse_duration_flag("--x", "1000d"),
        Err("--x: duration too large: '1000d'".to_owned())
    );
}

#[test]
fn actions() {
    let version = parse(&args(&["version"])).unwrap();
    assert_eq!(
        run_command(&version, CLUSTER_CHECKSUM),
        Action::Print(vec![format!("TigerBeetle version {VERSION}")])
    );
    assert_eq!(
        command_version(&CommandVersion { verbose: true }, CLUSTER_CHECKSUM),
        vec![
            format!("TigerBeetle version {VERSION}"),
            String::new(),
            "cluster.checksum = 0x0000000000000000000000000000c0fe".to_owned(),
            "cluster.members_count = 12".to_owned(),
            "process.block_size = 4096".to_owned(),
            "process.message_size_max = 4096".to_owned(),
            "process.grid_cache_size_default = 3221225472".to_owned(),
            "process.storage_size_limit_max = 1073741824".to_owned(),
        ]
    );
    let greatest = command_version(&CommandVersion { verbose: true }, u128::MAX);
    assert_eq!(greatest[2], "cluster.checksum = 0xffffffffffffffffffffffffffffffff");
    let format =
        parse(&args(&["format", "--replica=0", "--replica-count=1", "path"])).unwrap();
    assert_eq!(run_command(&format, CLUSTER_CHECKSUM), Action::Format { size: DATA_FILE_SIZE_MIN });
    let Command::Format(format) = format else { unreachable!() };
    assert_eq!(cmd_storage_size(&format), DATA_FILE_SIZE_MIN);
    let superblock = parse(&args(&["inspect", "superblock", "path"])).unwrap();
    assert_eq!(run_command(&superblock, CLUSTER_CHECKSUM), Action::InspectSuperblock);
    let wal = parse(&args(&["inspect", "wal", "path"])).unwrap();
    let deferred = "is parsed and validated but not yet implemented in this port \
        (the async event loop is deferred)";
    assert_eq!(
        run_command(&wal, CLUSTER_CHECKSUM),
        Action::Fail(format!("inspect data-file query 'wal' {deferred}"))
    );
    let constants = parse(&args(&["inspect", "constants"])).unwrap();
    assert_eq!(
        run_command(&constants, CLUSTER_CHECKSUM),
        Action::Fail(format!("inspect subcommand 'constants' {deferred}"))
    );
    let repl = parse(&args(&["repl", "--addresses=3000", "--cluster=0"])).unwrap();
    assert_eq!(
        run_command(&repl, CLUSTER_CHECKSUM),
        Action::Fail(format!("the 'repl' subcommand {deferred}"))
    );
}

#[test]
fn data_file_checks() {
    assert_eq!(check_data_file_size(DATA_FILE_SIZE_MIN), Ok(()));
    assert_eq!(
        check_data_file_size(4096),
        Err("data file inode size was truncated or corrupted".to_owned())
    );
    assert_eq!(check_superblock_version(2, "x"), Ok(()));
    assert_eq!(
        check_superblock_version(3, "x"),
        Err("invalid superblock version; inspector supports version=2, version in x=3".to_owned())
    );
}

#[test]
fn format_reports_what_was_written() {
    let command = parse(&args(&["format", "--cluster=7", "--replica=1", "--replica-count=3", "f"]));
    let Ok(Command::Format(format)) = command else { unreachable!() };
    assert_eq!(
        format_report(&format, 4096, 9),
        vec![
            "info(data_file): checking 'f'...",
            "info(format): cluster = 7",
            "info(format): replica = 1",
            "info(format): replica_count = 3",
            "info(format): data_file_size = 4096",
            "info(format): superblock.sequence = 9",
        ]
    );
}

#[test]
fn superblock_headers_are_cut_out_of_the_zone() {
    let zone: Vec<u8> = (0..12).collect();
    assert_eq!(superblock_headers(&zone, 3, 2), vec![&[0u8, 1], &[3, 4], &[6, 7], &[9, 10]]);
    assert_eq!(superblock_headers(&[], 0, 0), vec![&[0u8; 0]; 4]);
}

#[test]
fn start_notices_come_before_later_errors() {
    let notices_of = |list: &[&str]| {
        let argv = args(&[&["start", "--addresses=3000", "--experimental"], list].concat());
        let parsed = parse(&argv);
        assert!(parsed.is_err());
        notices(&argv, &parsed)
    };
    let aof = "--aof is deprecated. consider switching to '--aof-file=path.aof'".to_owned();
    let star = "--replicate-star is deprecated; star replication is now the default.".to_owned();
    let late = ["--aof", "--replicate-star", "--timeout-prepare-ms=7", "path"];
    assert_eq!(notices_of(&late), vec![aof.clone(), star]);
    assert_eq!(notices_of(&["--aof", "--replicate-star", "--log-trace", "path"]), vec![aof]);
    assert!(notices_of(&["--aof", "--limit-request=1KiB", "path"]).is_empty());
}
