//! The command that looks into a data file.

use crate::cli::command::{
    optional_text, CommandInspect, CommandInspectDataFile, CommandInspectIntegrity, InspectQuery,
    ParseFailure,
};
use crate::cli::flags::{
    arguments, int_flag, law_positional_argument_is_last, law_right_arguments_are_read,
    law_values_are_read, parse_flags, parse_int_flag, scanned, Named, NamedKind, Scan,
};
use crate::cli::help::INSPECT_HELP;
use crate::cli::number::{int_value, is_amount};
use crate::cli::start::{
    given_bytes, lemma_given_bytes, manifest_memory, manifest_memory_error, manifest_node_count, parse_manifest_memory,
};
use crate::cli::text::{join2, join3, same};
use vstd::prelude::*;

verus! {

/// The ways to inspect.
pub const INSPECT_SUBCOMMANDS: &'static str =
    "constants, metrics, op, superblock, wal, replies, grid, manifest, tables, integrity";

/// A part of a data file.
#[derive(Clone, Copy, Debug, PartialEq, Eq, Structural)]
pub enum DataFilePart {
    Superblock,
    Wal,
    Replies,
    Grid,
    Manifest,
    Tables,
}

/// A result with the text of its message.
pub open spec fn told(result: Result<CommandInspect, String>) -> Result<
    CommandInspect,
    Seq<char>,
> {
    match result {
        Ok(command) => Ok(command),
        Err(message) => Err(message@),
    }
}

/// What `inspect op` gives for its arguments: the number that they are.
pub open spec fn op_outcome(
    args: Seq<Seq<char>>,
    result: Result<CommandInspect, Seq<char>>,
) -> bool {
    match scanned(args, Seq::empty(), Some("op"@)) {
        Err(message) => result == Err::<CommandInspect, Seq<char>>(message),
        Ok(scan) => match int_flag("op"@, scan.positionals[0], 64, u64::MAX as nat) {
            Err(message) => result == Err::<CommandInspect, Seq<char>>(message),
            Ok(op) => result == Ok::<CommandInspect, Seq<char>>(CommandInspect::Op(op as u64)),
        },
    }
}

/// Reads the arguments of `inspect op`: a number.
///
/// # Errors
/// A message if the arguments are no command.
pub fn parse_args_inspect_op(args: &[String]) -> (result: Result<CommandInspect, String>)
    ensures
        op_outcome(arguments(args@), told(result)),
{
    let named: Vec<Named> = Vec::new();
    assert(named@ =~= Seq::empty());
    let flags = match parse_flags(args, &named, Some("op")) {
        Ok(flags) => flags,
        Err(message) => {
            return Err(message);
        },
    };
    let op = flags.positional();
    match parse_int_flag("op", op.as_str(), 64, u64::MAX as u128) {
        Ok(op) => Ok(CommandInspect::Op(op as u64)),
        Err(message) => Err(message),
    }
}

pub open spec fn spec_data_file_flags() -> Seq<Named> {
    seq![
        Named { flag: "--superblock-copy", kind: NamedKind::U8 },
        Named { flag: "--slot", kind: NamedKind::Usize },
        Named { flag: "--block", kind: NamedKind::U64 },
        Named { flag: "--tree", kind: NamedKind::Text },
        Named { flag: "--level", kind: NamedKind::U6 },
    ]
}

fn data_file_flags() -> (result: Vec<Named>)
    ensures
        result@ == spec_data_file_flags(),
{
    let mut flags: Vec<Named> = Vec::new();
    flags.push(Named { flag: "--superblock-copy", kind: NamedKind::U8 });
    flags.push(Named { flag: "--slot", kind: NamedKind::Usize });
    flags.push(Named { flag: "--block", kind: NamedKind::U64 });
    flags.push(Named { flag: "--tree", kind: NamedKind::Text });
    flags.push(Named { flag: "--level", kind: NamedKind::U6 });
    assert(flags@ =~= spec_data_file_flags());
    flags
}

/// The question about a part of a data file that the flags say.
pub open spec fn is_query(query: InspectQuery, part: DataFilePart, scan: Scan) -> bool {
    match (part, query) {
        (DataFilePart::Superblock, InspectQuery::Superblock) => true,
        (DataFilePart::Wal, InspectQuery::Wal { slot }) => slot == scan.usize("--slot"@),
        (DataFilePart::Replies, InspectQuery::Replies { slot, superblock_copy }) => slot
            == scan.usize("--slot"@) && superblock_copy == scan.u8("--superblock-copy"@),
        (DataFilePart::Grid, InspectQuery::Grid { block, superblock_copy }) => block == scan.u64(
            "--block"@,
        ) && superblock_copy == scan.u8("--superblock-copy"@),
        (DataFilePart::Manifest, InspectQuery::Manifest { superblock_copy }) => superblock_copy
            == scan.u8("--superblock-copy"@),
        (DataFilePart::Tables, InspectQuery::Tables { superblock_copy, tree, level }) => {
            &&& superblock_copy == scan.u8("--superblock-copy"@)
            &&& level == scan.u8("--level"@)
            &&& tree@ == match scan.text("--tree"@) {
                Some(tree) => tree,
                None => Seq::empty(),
            }
        },
        _ => false,
    }
}

/// What `inspect` gives for a part of a data file.
pub open spec fn data_file_outcome(
    args: Seq<Seq<char>>,
    part: DataFilePart,
    result: Result<CommandInspect, Seq<char>>,
) -> bool {
    match scanned(args, spec_data_file_flags(), Some("path"@)) {
        Err(message) => result == Err::<CommandInspect, Seq<char>>(message),
        Ok(scan) => match result {
            Ok(CommandInspect::DataFile(data_file)) => data_file.path@ == scan.positionals[0]
                && is_query(data_file.query, part, scan),
            _ => false,
        },
    }
}

/// Reads the arguments of `inspect` for a part of a data file.
///
/// # Errors
/// A message if the arguments are no command.
pub fn parse_args_inspect_data_file(args: &[String], part: DataFilePart) -> (result: Result<
    CommandInspect,
    String,
>)
    ensures
        data_file_outcome(arguments(args@), part, told(result)),
{
    let flags = match parse_flags(args, &data_file_flags(), Some("path")) {
        Ok(flags) => flags,
        Err(message) => {
            return Err(message);
        },
    };
    let superblock_copy = flags.u8("--superblock-copy");
    let query = match part {
        DataFilePart::Superblock => InspectQuery::Superblock,
        DataFilePart::Wal => InspectQuery::Wal { slot: flags.usize("--slot") },
        DataFilePart::Replies => InspectQuery::Replies {
            slot: flags.usize("--slot"),
            superblock_copy,
        },
        DataFilePart::Grid => InspectQuery::Grid { block: flags.u64("--block"), superblock_copy },
        DataFilePart::Manifest => InspectQuery::Manifest { superblock_copy },
        DataFilePart::Tables => {
            let tree = match flags.text("--tree") {
                Some(tree) => tree,
                None => String::new(),
            };
            InspectQuery::Tables { superblock_copy, tree, level: flags.u8("--level") }
        },
    };
    Ok(CommandInspect::DataFile(CommandInspectDataFile { path: flags.positional(), query }))
}

pub open spec fn spec_integrity_flags() -> Seq<Named> {
    seq![
        Named { flag: "--memory-lsm-manifest", kind: NamedKind::Size },
        Named { flag: "--skip-client-replies", kind: NamedKind::Bool },
        Named { flag: "--log-debug", kind: NamedKind::Bool },
        Named { flag: "--skip-grid", kind: NamedKind::Bool },
        Named { flag: "--skip-wal", kind: NamedKind::Bool },
        Named { flag: "--seed", kind: NamedKind::Text },
    ]
}

fn integrity_flags() -> (result: Vec<Named>)
    ensures
        result@ == spec_integrity_flags(),
{
    let mut flags: Vec<Named> = Vec::new();
    flags.push(Named { flag: "--memory-lsm-manifest", kind: NamedKind::Size });
    flags.push(Named { flag: "--skip-client-replies", kind: NamedKind::Bool });
    flags.push(Named { flag: "--log-debug", kind: NamedKind::Bool });
    flags.push(Named { flag: "--skip-grid", kind: NamedKind::Bool });
    flags.push(Named { flag: "--skip-wal", kind: NamedKind::Bool });
    flags.push(Named { flag: "--seed", kind: NamedKind::Text });
    assert(flags@ =~= spec_integrity_flags());
    flags
}

/// The command that the flags of `inspect integrity` say.
pub open spec fn is_integrity(command: CommandInspectIntegrity, scan: Scan) -> bool {
    &&& command.path@ == scan.positionals[0]
    &&& command.log_debug == scan.bool("--log-debug"@)
    &&& optional_text(command.seed) == scan.text("--seed"@)
    &&& command.lsm_forest_node_count == manifest_node_count(scan)
    &&& command.skip_wal == scan.bool("--skip-wal"@)
    &&& command.skip_client_replies == scan.bool("--skip-client-replies"@)
    &&& command.skip_grid == scan.bool("--skip-grid"@)
}

/// What `inspect integrity` gives for its arguments.
pub open spec fn integrity_outcome(
    args: Seq<Seq<char>>,
    result: Result<CommandInspect, Seq<char>>,
) -> bool {
    match scanned(args, spec_integrity_flags(), Some("path"@)) {
        Err(message) => result == Err::<CommandInspect, Seq<char>>(message),
        Ok(scan) => match manifest_memory_error(manifest_memory(scan)) {
            Some(message) => result == Err::<CommandInspect, Seq<char>>(message),
            None => match result {
                Ok(CommandInspect::Integrity(integrity)) => is_integrity(integrity, scan),
                _ => false,
            },
        },
    }
}

/// Reads the arguments of `inspect integrity`.
///
/// # Errors
/// A message if the arguments are no command.
pub fn parse_args_inspect_integrity(args: &[String]) -> (result: Result<CommandInspect, String>)
    ensures
        integrity_outcome(arguments(args@), told(result)),
{
    let flags = match parse_flags(args, &integrity_flags(), Some("path")) {
        Ok(flags) => flags,
        Err(message) => {
            return Err(message);
        },
    };
    let lsm_forest_node_count: u32 = match parse_manifest_memory(&flags) {
        Ok(count) => count,
        Err(message) => {
            return Err(message);
        },
    };
    Ok(
        CommandInspect::Integrity(
            CommandInspectIntegrity {
                path: flags.positional(),
                log_debug: flags.bool("--log-debug"),
                seed: flags.text("--seed"),
                lsm_forest_node_count,
                skip_wal: flags.bool("--skip-wal"),
                skip_client_replies: flags.bool("--skip-client-replies"),
                skip_grid: flags.bool("--skip-grid"),
            },
        ),
    )
}

/// What `inspect` gives for the word and the arguments after it.
pub open spec fn inspects(
    word: Seq<char>,
    rest: Seq<Seq<char>>,
    result: Result<CommandInspect, Seq<char>>,
) -> bool {
    if word == "constants"@ || word == "metrics"@ {
        match result {
            Ok(command) => rest.len() == 0 && command == if word == "constants"@ {
                CommandInspect::Constants
            } else {
                CommandInspect::Metrics
            },
            Err(message) => rest.len() > 0 && message == "unexpected argument: '"@ + rest[0]
                + "'"@,
        }
    } else if word == "op"@ {
        op_outcome(rest, result)
    } else if word == "integrity"@ {
        integrity_outcome(rest, result)
    } else {
        match spec_data_file_part(word) {
            Some(part) => data_file_outcome(rest, part, result),
            None => result == Err::<CommandInspect, Seq<char>>(
                "unknown subcommand: '"@ + word + "'"@,
            ),
        }
    }
}

/// The part of a data file that a word names.
pub open spec fn spec_data_file_part(word: Seq<char>) -> Option<DataFilePart> {
    if word == "superblock"@ {
        Some(DataFilePart::Superblock)
    } else if word == "wal"@ {
        Some(DataFilePart::Wal)
    } else if word == "replies"@ {
        Some(DataFilePart::Replies)
    } else if word == "grid"@ {
        Some(DataFilePart::Grid)
    } else if word == "manifest"@ {
        Some(DataFilePart::Manifest)
    } else if word == "tables"@ {
        Some(DataFilePart::Tables)
    } else {
        None
    }
}

fn data_file_part(word: &str) -> (result: Option<DataFilePart>)
    ensures
        result == spec_data_file_part(word@),
{
    if same(word, "superblock") {
        Some(DataFilePart::Superblock)
    } else if same(word, "wal") {
        Some(DataFilePart::Wal)
    } else if same(word, "replies") {
        Some(DataFilePart::Replies)
    } else if same(word, "grid") {
        Some(DataFilePart::Grid)
    } else if same(word, "manifest") {
        Some(DataFilePart::Manifest)
    } else if same(word, "tables") {
        Some(DataFilePart::Tables)
    } else {
        None
    }
}

fn inspect_word(word: &str, rest: &[String]) -> (result: Result<CommandInspect, String>)
    ensures
        inspects(word@, arguments(rest@), told(result)),
{
    if same(word, "constants") || same(word, "metrics") {
        if rest.len() > 0 {
            return Err(join3("unexpected argument: '", rest[0].as_str(), "'"));
        }
        if same(word, "constants") {
            Ok(CommandInspect::Constants)
        } else {
            Ok(CommandInspect::Metrics)
        }
    } else if same(word, "op") {
        parse_args_inspect_op(rest)
    } else if same(word, "integrity") {
        parse_args_inspect_integrity(rest)
    } else {
        match data_file_part(word) {
            Some(part) => parse_args_inspect_data_file(rest, part),
            None => Err(join3("unknown subcommand: '", word, "'")),
        }
    }
}

/// What `inspect` gives for its arguments.
pub open spec fn inspect_outcome(
    args: Seq<Seq<char>>,
    result: Result<CommandInspect, ParseFailure>,
) -> bool {
    if args.len() == 0 {
        result matches Err(ParseFailure::Fatal(message)) && message@
            == "subcommand required, expected "@ + INSPECT_SUBCOMMANDS@
    } else if args[0] == "-h"@ || args[0] == "--help"@ {
        result matches Err(ParseFailure::Help(help)) && help@ == INSPECT_HELP@
    } else {
        match result {
            Ok(command) => inspects(args[0], args.skip(1), Ok(command)),
            Err(ParseFailure::Fatal(message)) => inspects(
                args[0],
                args.skip(1),
                Err(message@),
            ),
            Err(ParseFailure::Help(_)) => false,
        }
    }
}

/// Reads the arguments of `inspect`.
///
/// # Errors
/// A message if the arguments are no command, or the help that was asked for.
pub fn parse_args_inspect(args: &[String]) -> (result: Result<CommandInspect, ParseFailure>)
    ensures
        inspect_outcome(arguments(args@), result),
{
    if args.len() == 0 {
        return Err(
            ParseFailure::Fatal(join2("subcommand required, expected ", INSPECT_SUBCOMMANDS)),
        );
    }
    let word = args[0].as_str();
    if same(word, "-h") || same(word, "--help") {
        return Err(ParseFailure::Help(INSPECT_HELP));
    }
    let rest = vstd::slice::slice_subrange(args, 1, args.len());
    assert(arguments(rest@) =~= arguments(args@).skip(1));
    match inspect_word(word, rest) {
        Ok(command) => Ok(command),
        Err(message) => Err(ParseFailure::Fatal(message)),
    }
}

/// What each flag on a part of a data file takes.
pub proof fn law_data_file_flags_have_kinds()
    ensures
        spec_data_file_flags().len() == 5,
        spec_data_file_flags().contains((Named { flag: "--block", kind: NamedKind::U64 })),
        spec_data_file_flags().contains((Named { flag: "--level", kind: NamedKind::U6 })),
        spec_data_file_flags().contains((Named { flag: "--slot", kind: NamedKind::Usize })),
        spec_data_file_flags().contains((Named { flag: "--superblock-copy", kind: NamedKind::U8 })),
        spec_data_file_flags().contains((Named { flag: "--tree", kind: NamedKind::Text })),
{
    let flags = spec_data_file_flags();
    assert(flags[0] == (Named { flag: "--superblock-copy", kind: NamedKind::U8 }));
    assert(flags[1] == (Named { flag: "--slot", kind: NamedKind::Usize }));
    assert(flags[2] == (Named { flag: "--block", kind: NamedKind::U64 }));
    assert(flags[3] == (Named { flag: "--tree", kind: NamedKind::Text }));
    assert(flags[4] == (Named { flag: "--level", kind: NamedKind::U6 }));
}

/// What each flag of `inspect integrity` takes.
pub proof fn law_integrity_flags_have_kinds()
    ensures
        spec_integrity_flags().len() == 6,
        spec_integrity_flags().contains((Named { flag: "--log-debug", kind: NamedKind::Bool })),
        spec_integrity_flags().contains(
            (Named { flag: "--memory-lsm-manifest", kind: NamedKind::Size }),
        ),
        spec_integrity_flags().contains((Named { flag: "--seed", kind: NamedKind::Text })),
        spec_integrity_flags().contains(
            (Named { flag: "--skip-client-replies", kind: NamedKind::Bool }),
        ),
        spec_integrity_flags().contains((Named { flag: "--skip-grid", kind: NamedKind::Bool })),
        spec_integrity_flags().contains((Named { flag: "--skip-wal", kind: NamedKind::Bool })),
{
    let flags = spec_integrity_flags();
    assert(flags[0] == (Named { flag: "--memory-lsm-manifest", kind: NamedKind::Size }));
    assert(flags[1] == (Named { flag: "--skip-client-replies", kind: NamedKind::Bool }));
    assert(flags[2] == (Named { flag: "--log-debug", kind: NamedKind::Bool }));
    assert(flags[3] == (Named { flag: "--skip-grid", kind: NamedKind::Bool }));
    assert(flags[4] == (Named { flag: "--skip-wal", kind: NamedKind::Bool }));
    assert(flags[5] == (Named { flag: "--seed", kind: NamedKind::Text }));
}


/// A number of an operation is read as that number.
pub proof fn law_inspected_op_is_the_number(
    digits: Seq<char>,
    result: Result<CommandInspect, Seq<char>>,
)
    requires
        is_amount(digits),
        op_outcome(seq![digits], result),
    ensures
        match result {
            Ok(command) => command == CommandInspect::Op(int_value(digits) as u64) && int_value(
                digits,
            ) <= 0xffff_ffff_ffff_ffff,
            Err(_) => int_value(digits) > 0xffff_ffff_ffff_ffff,
        },
{
    let args = seq![digits];
    assert('0' <= digits[0] <= '9');
    law_right_arguments_are_read(args, Seq::empty(), Some("op"@), Seq::empty());
    law_positional_argument_is_last(args, Seq::empty(), Some("op"@));
    law_values_are_read("op"@, digits, digits);
}

/// Each word names a part of its own.
proof fn lemma_part_words()
    ensures
        spec_data_file_part("superblock"@) == Some(DataFilePart::Superblock),
        spec_data_file_part("wal"@) == Some(DataFilePart::Wal),
        spec_data_file_part("replies"@) == Some(DataFilePart::Replies),
        spec_data_file_part("grid"@) == Some(DataFilePart::Grid),
        spec_data_file_part("manifest"@) == Some(DataFilePart::Manifest),
        spec_data_file_part("tables"@) == Some(DataFilePart::Tables),
        spec_data_file_part("constants"@) is None,
        spec_data_file_part("metrics"@) is None,
        spec_data_file_part("op"@) is None,
        spec_data_file_part("integrity"@) is None,
{
    reveal_strlit("superblock");
    reveal_strlit("wal");
    reveal_strlit("replies");
    reveal_strlit("grid");
    reveal_strlit("manifest");
    reveal_strlit("tables");
    reveal_strlit("constants");
    reveal_strlit("metrics");
    reveal_strlit("op");
    reveal_strlit("integrity");
    assert("superblock"@.len() == 10 && "wal"@.len() == 3 && "grid"@.len() == 4);
    assert("manifest"@.len() == 8 && "tables"@.len() == 6 && "op"@.len() == 2);
    assert("replies"@.len() == 7 && "metrics"@.len() == 7);
    assert("constants"@.len() == 9 && "integrity"@.len() == 9);
    assert("replies"@[0] == 'r' && "metrics"@[0] == 'm');
}

/// Each part of a data file is asked about with its own flags.
pub proof fn law_inspected_parts_take_their_flags(
    args: Seq<Seq<char>>,
    result: Result<CommandInspect, Seq<char>>,
)
    requires
        args.len() > 0,
        inspects(args[0], args.skip(1), result),
        scanned(args.skip(1), spec_data_file_flags(), Some("path"@)) is Ok,
        args[0] == "superblock"@ || args[0] == "wal"@ || args[0] == "replies"@ || args[0]
            == "grid"@ || args[0] == "manifest"@ || args[0] == "tables"@,
    ensures
        result matches Ok(CommandInspect::DataFile(data_file)) && {
            let scan = scanned(args.skip(1), spec_data_file_flags(), Some("path"@))->Ok_0;
            let copy = scan.u8("--superblock-copy"@);
            &&& data_file.path@ == args.last()
            &&& args[0] == "superblock"@ ==> data_file.query == InspectQuery::Superblock
            &&& args[0] == "wal"@ ==> data_file.query == (InspectQuery::Wal {
                slot: scan.usize("--slot"@),
            })
            &&& args[0] == "replies"@ ==> data_file.query == (InspectQuery::Replies {
                slot: scan.usize("--slot"@),
                superblock_copy: copy,
            })
            &&& args[0] == "grid"@ ==> data_file.query == (InspectQuery::Grid {
                block: scan.u64("--block"@),
                superblock_copy: copy,
            })
            &&& args[0] == "manifest"@ ==> data_file.query == (InspectQuery::Manifest {
                superblock_copy: copy,
            })
            &&& args[0] == "tables"@ ==> {
                &&& data_file.query matches InspectQuery::Tables { superblock_copy, tree, level }
                &&& superblock_copy == copy
                &&& level == scan.u8("--level"@)
                &&& scan.text("--tree"@) == Some(tree@) || (scan.text("--tree"@) is None
                    && tree@.len() == 0)
            }
        },
{
    lemma_part_words();
    law_positional_argument_is_last(args.skip(1), spec_data_file_flags(), Some("path"@));
}

/// The whole of a data file is checked with as many nodes of manifests as there is memory for.
pub proof fn law_integrity_takes_its_flags(
    args: Seq<Seq<char>>,
    result: Result<CommandInspect, Seq<char>>,
)
    requires
        integrity_outcome(args, result),
        scanned(args, spec_integrity_flags(), Some("path"@)) is Ok,
    ensures
        ({
            let scan = scanned(args, spec_integrity_flags(), Some("path"@))->Ok_0;
            let memory = given_bytes(scan, "--memory-lsm-manifest"@, 0x800_0000);
            &&& result is Ok <==> 0x10_0000 <= memory <= 0x10_0000_0000 && memory % 0x10_0000 == 0
            &&& result matches Ok(command) ==> {
                &&& command matches CommandInspect::Integrity(integrity)
                &&& integrity.path@ == args.last()
                &&& integrity.lsm_forest_node_count == memory / 16_384
                &&& integrity.log_debug == scan.bool("--log-debug"@)
                &&& optional_text(integrity.seed) == scan.text("--seed"@)
                &&& integrity.skip_wal == scan.bool("--skip-wal"@)
                &&& integrity.skip_client_replies == scan.bool("--skip-client-replies"@)
                &&& integrity.skip_grid == scan.bool("--skip-grid"@)
            }
        }),
{
    let scan = scanned(args, spec_integrity_flags(), Some("path"@))->Ok_0;
    lemma_given_bytes(scan);
    law_positional_argument_is_last(args, spec_integrity_flags(), Some("path"@));
}

} // verus!
