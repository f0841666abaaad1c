//! The configuration that the storage engine is built for.
//!
//! It is the small one that tests run with. A cluster in production has larger values, such as a
//! growth factor of 8.

use vstd::prelude::*;

verus! {

/// Levels of an LSM tree.
pub const LSM_LEVELS: u8 = 7;

/// How many times more tables each level holds than the one above it.
pub const LSM_GROWTH_FACTOR: u32 = 4;

/// Operations per bar of compaction.
pub const LSM_COMPACTION_OPS: usize = 4;

/// Value blocks that a compaction reads ahead.
pub const LSM_COMPACTION_QUEUE_READ_MAX: usize = 8;

/// Blocks that a compaction writes at once.
pub const LSM_COMPACTION_IOPS_WRITE_MAX: usize = 16;

/// Bytes of a manifest node.
pub const LSM_MANIFEST_NODE_SIZE: usize = 16384;

/// How full, in percent, a table has to be for it not to be worth coalescing.
pub const LSM_TABLE_COALESCING_THRESHOLD_PERCENT: u64 = 50;

/// Bytes of a cache line.
pub const CACHE_LINE_SIZE: usize = 64;

/// Bytes of a sector.
pub const SECTOR_SIZE: u64 = 4096;

/// Bytes of a grid block.
pub const BLOCK_SIZE: usize = 4096;

/// Bytes of a block's header.
pub const HEADER_SIZE: usize = 256;

/// The members of a cluster that take part in replication.
pub const REPLICAS_MAX: u8 = 6;

/// The members of a cluster that stand by.
pub const STANDBYS_MAX: u8 = 6;

/// The members of a cluster.
pub const MEMBERS_MAX: usize = 12;

/// The clients of a cluster.
pub const CLIENTS_MAX: u32 = 7;

/// The prepares that may be in flight.
pub const PIPELINE_PREPARE_QUEUE_MAX: u32 = 4;

/// The requests that may wait for a prepare.
pub const PIPELINE_REQUEST_QUEUE_MAX: u32 = 3;

/// The size of a message, with its header.
pub const MESSAGE_SIZE_MAX: u32 = 4096;

/// The size of a message without its header.
pub const MESSAGE_BODY_SIZE_MAX: u32 = 3840;

/// The duration of a tick.
pub const TICK_MS: u64 = 10;

/// The copies of the superblock in a data file.
pub const SUPERBLOCK_COPIES: usize = 4;

/// The version of the superblock that is understood.
pub const SUPERBLOCK_VERSION: u16 = 2;

/// The size of a data file with an empty grid.
pub const DATA_FILE_SIZE_MIN: u64 = 0x10_0000;

/// The size to which a data file may grow, unless the operator says otherwise.
pub const STORAGE_SIZE_LIMIT_DEFAULT: u64 = 0x4000_0000;

/// The size to which a data file may grow at most.
pub const STORAGE_SIZE_LIMIT_MAX: u64 = 0x4000_0000;

/// The memory for manifests, unless the operator says otherwise.
pub const LSM_MANIFEST_MEMORY_SIZE_DEFAULT: u64 = 0x800_0000;

/// The least memory for manifests.
pub const LSM_MANIFEST_MEMORY_SIZE_MIN: u64 = 0x10_0000;

/// The greatest memory for manifests.
pub const LSM_MANIFEST_MEMORY_SIZE_MAX: u64 = 0x10_0000_0000;

/// What the memory for manifests is a multiple of.
pub const LSM_MANIFEST_MEMORY_SIZE_MULTIPLIER: u64 = 0x10_0000;

/// The greatest memory for the blocks of compactions.
pub const COMPACTION_BLOCK_MEMORY_SIZE_MAX: u64 = 0xfff_ffff_f000;

/// The memory for blocks of the grid, unless the operator says otherwise.
pub const GRID_CACHE_SIZE_DEFAULT: u64 = 0xc000_0000;

/// The memory for accounts, unless the operator says otherwise.
pub const CACHE_ACCOUNTS_SIZE_DEFAULT: u64 = 0x800_0000;

/// The memory for transfers, unless the operator says otherwise.
pub const CACHE_TRANSFERS_SIZE_DEFAULT: u64 = 0;

/// The memory for pending transfers, unless the operator says otherwise.
pub const CACHE_TRANSFERS_PENDING_SIZE_DEFAULT: u64 = 0x100_0000;

/// The size of an account.
pub const ACCOUNT_SIZE: u64 = 128;

/// The size of a transfer.
pub const TRANSFER_SIZE: u64 = 128;

/// The size of the state of a pending transfer.
pub const TRANSFER_PENDING_SIZE: u64 = 16;

/// The size of the address of a block.
pub const BLOCK_ADDRESS_SIZE: u64 = 8;

} // verus!
