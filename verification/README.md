# tigerbeetle

The storage engine structures and the command line of a replicated accounting database, written in
Rust and verified with Verus. Every function of `src/` states in its contract what it returns or
changes, and Verus proves that it does.

## Layout

- `src/` is the library.
  - Searching and ordering: `key`, `direction`, `binary_search`, `composite_key`, `unique_key`,
    `timestamp_range`.
  - Containers: `bounded_array`, `segmented_array`, `node_pool`, `scratch_memory`,
    `set_associative_cache`, `cache_map`.
  - Merging: `k_way_merge` (the union of sorted streams), `zig_zag_merge` (their intersection).
  - The LSM tree: `tree`, `table_memory` (values in memory), `manifest_level` and `manifest` (which
    tables there are), `compaction`, `schema` (entries on disk), `bytes`.
  - The grid: `free_set` (which blocks are free), with its bit sets and its run-length encoding.
  - The command line: `cli`, one module per group of commands.
- `tests/` runs the library.
- `app/` is the program: arguments, the console, and data files. It calls the core crate for the
  checksum of the configuration, and the replica crate, which writes and reads data files.

## Reading a contract

A structure has a view, such as the sequence of values that a segmented array holds or the map from
keys to values that a cache holds, and a predicate `wf` that every operation keeps. Operations are
described over views. Facts that span several functions are proof functions whose names begin with
`law_`.

Traits such as `SegmentedArraySpec` describe what a structure holds. Their spec functions say what
the executable functions beside them compute; contracts speak of the former.
