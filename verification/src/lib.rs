//! An LSM storage engine core and its command line, verified with Verus.

pub mod binary_search;
pub mod bounded_array;
pub mod bytes;
pub mod cache_map;
pub mod cli;
pub mod compaction;
pub mod composite_key;
pub mod constants;
pub mod direction;
pub mod free_set;
pub mod k_way_merge;
pub mod key;
pub mod manifest;
pub mod manifest_level;
pub mod node_pool;
pub mod schema;
pub mod scratch_memory;
pub mod segmented_array;
pub mod set_associative_cache;
pub mod table_memory;
pub mod timestamp_range;
pub mod tree;
pub mod unique_key;
pub mod zig_zag_merge;
