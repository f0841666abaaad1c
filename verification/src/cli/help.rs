//! What the program prints when it is asked for help.

use vstd::prelude::*;

verus! {

/// How to use the program.
pub const HELP: &'static str = "Usage:

  tigerbeetle [-h | --help]

  tigerbeetle format [--cluster=<integer>] --replica=<index> --replica-count=<integer> <path>

  tigerbeetle start --addresses=<addresses> [--cache-grid=<size><KiB|MiB|GiB>] <path>

  tigerbeetle recover --cluster=<integer> --addresses=<addresses>
                      --replica=<index> --replica-count=<integer> <path>

  tigerbeetle version [--verbose]

  tigerbeetle repl --cluster=<integer> --addresses=<addresses>

Commands:

  format     Create a TigerBeetle replica data file at <path>.
             The --replica and --replica-count arguments are required.
             Each TigerBeetle replica must have its own data file.

  start      Run a TigerBeetle replica from the data file at <path>.

  recover    Create a TigerBeetle replica data file at <path> for recovery.
             Used when a replica's data file is completely lost.
             Replicas with recovered data files must sync with the cluster before
             they can participate in consensus.

  version    Print the TigerBeetle build version and the compile-time config values.

  repl       Enter the TigerBeetle client REPL.

  amqp       CDC connector for AMQP targets.

Options:

  -h, --help
        Print this help message and exit.

  --cluster=<integer>
        Set the cluster ID to the provided 128-bit unsigned decimal integer.
        Defaults to generating a random cluster ID.

  --replica=<index>
        Set the zero-based index that will be used for the replica process.
        An index greater than or equal to \"replica-count\" makes the replica a standby.
        The value of this argument will be interpreted as an index into the --addresses array.

  --replica-count=<integer>
        Set the number of replicas participating in replication.

  --addresses=<addresses>
        The addresses of all replicas in the cluster.
        Accepts a comma-separated list of IPv4/IPv6 addresses with port numbers.
        The order is significant and must match across all replicas and clients.
        Either the address or port number (but not both) may be omitted,
        in which case a default of 127.0.0.1 or 3000 will be used.
        \"addresses[i]\" corresponds to replica \"i\".

  --cache-grid=<size><KiB|MiB|GiB>
        Set the grid cache size. The grid cache acts like a page cache for TigerBeetle,
        and should be set as large as possible.
        On a machine running only TigerBeetle, this is somewhere around
        (Total RAM) - 3GiB (TigerBeetle) - 1GiB (System), eg 12GiB for a 16GiB machine.
        Defaults to 3GiB.

  --verbose
        Print compile-time configuration along with the build version.

  --development
        Allow the replica to format/start/recover even when Direct IO is unavailable.
        Additionally, use smaller cache sizes and batch size by default.

        Since this shrinks the batch size, note that:
        * All replicas should use the same batch size. That is, if any replica in the cluster has
          \"--development\", then all replicas should have \"--development\".
        * It is always possible to increase the batch size by restarting without \"--development\".
        * Shrinking the batch size of an existing cluster is possible, but not recommended.

        For safety, production replicas should always enforce Direct IO -- this flag should only be
        used for testing and development. It should not be used for production or benchmarks.

Examples:

  tigerbeetle format --cluster=0 --replica=0 --replica-count=3 0_0.tigerbeetle
  tigerbeetle format --cluster=0 --replica=1 --replica-count=3 0_1.tigerbeetle
  tigerbeetle format --cluster=0 --replica=2 --replica-count=3 0_2.tigerbeetle

  tigerbeetle start --addresses=127.0.0.1:3000,127.0.0.1:3001,127.0.0.1:3002 0_0.tigerbeetle
  tigerbeetle start --addresses=3000,3001,3002 0_1.tigerbeetle
  tigerbeetle start --addresses=3000,3001,3002 0_2.tigerbeetle

  tigerbeetle start --addresses=192.168.0.1,192.168.0.2,192.168.0.3 0_0.tigerbeetle

  tigerbeetle start --addresses='[::1]:3000,[::1]:3001,[::1]:3002' 0_0.tigerbeetle

  tigerbeetle recover --cluster=0 --addresses=3003,3001,3002 \\
                      --replica=1 --replica-count=3 0_1.tigerbeetle

  tigerbeetle version --verbose

  tigerbeetle repl --addresses=3000,3001,3002 --cluster=0

  tigerbeetle amqp --addresses=3000,3001,3002 --cluster=0 \\
      --host=127.0.0.1 --vhost=/ --user=guest --password=guest \\
      --publish-exchange=my_exchange_name
";

/// How to use `inspect`.
pub const INSPECT_HELP: &'static str = "Usage:

  tigerbeetle inspect [-h | --help]

  tigerbeetle inspect constants

  tigerbeetle inspect metrics

  tigerbeetle inspect op <op>

  tigerbeetle inspect superblock <path>

  tigerbeetle inspect wal [--slot=<slot>] <path>

  tigerbeetle inspect replies [--slot=<slot>] <path>

  tigerbeetle inspect grid [--block=<address>] <path>

  tigerbeetle inspect manifest <path>

  tigerbeetle inspect tables --tree=<name|id> [--level=<integer>] <path>

  tigerbeetle inspect integrity [--log-debug] [--seed=<seed>]
                                [--memory-lsm-manifest=<size>]
                                [--skip-wal] [--skip-client-replies] [--skip-grid]
                                <path>

Options:

  When `--superblock-copy` is set, use the trailer referenced by that superblock copy.
  Otherwise, the current quorum will be used by default.

  -h, --help
        Print this help message and exit.
";

} // verus!
