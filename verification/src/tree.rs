//! What a tree, its manifest and the forest that owns them agree on.

use crate::constants::LSM_LEVELS;
use vstd::arithmetic::power::{lemma_pow_increases, lemma_pow_positive, pow};
use vstd::prelude::*;

verus! {

/// What becomes of the changes made in a scope when it closes.
#[derive(Clone, Copy, Debug, PartialEq, Eq, Structural)]
pub enum ScopeCloseMode {
    Persist,
    Discard,
}

/// The snapshot that sees every table that was not deleted.
///
/// A table that was not deleted has the greatest `u64` for its `snapshot_max`. No query asks for
/// that very snapshot, so the latest one is the one before.
pub const SNAPSHOT_LATEST: u64 = u64::MAX - 1;

/// The most tables of a single tree.
pub const TABLE_COUNT_MAX: u32 = 21_844;

/// A tree's identity.
#[derive(Clone, Copy, Debug, PartialEq, Eq)]
pub struct TreeConfig {
    /// Unique and stable across all trees in the forest.
    pub id: u16,
    /// For people to read.
    pub name: &'static str,
}

/// The tables of the first `levels_count` levels.
pub open spec fn spec_table_count_max_for_tree(growth_factor: int, levels_count: nat) -> int
    decreases levels_count,
{
    if levels_count == 0 {
        0
    } else {
        spec_table_count_max_for_tree(growth_factor, (levels_count - 1) as nat) + pow(
            growth_factor,
            levels_count,
        )
    }
}

/// How many tables fit into `levels_count` levels together.
#[must_use]
pub fn table_count_max_for_tree(growth_factor: u32, levels_count: u32) -> (result: u32)
    requires
        4 <= growth_factor <= 16,
        2 <= levels_count <= 10,
        levels_count <= LSM_LEVELS,
    ensures
        result == spec_table_count_max_for_tree(growth_factor as int, levels_count as nat),
{
    let mut count: u32 = 0;
    let mut level: u32 = 0;
    while level < levels_count
        invariant
            4 <= growth_factor <= 16,
            level <= levels_count <= LSM_LEVELS,
            count == spec_table_count_max_for_tree(growth_factor as int, level as nat),
            count <= level * 268_435_456,
        decreases levels_count - level,
    {
        proof {
            lemma_level_fits(growth_factor as int, (level + 1) as nat);
        }
        count = count + table_count_max_for_level(growth_factor, level);
        level = level + 1;
    }
    count
}

/// No level outgrows a `u32`.
pub proof fn lemma_level_fits(growth_factor: int, exponent: nat)
    requires
        4 <= growth_factor <= 16,
        1 <= exponent <= 7,
    ensures
        0 < pow(growth_factor, exponent) <= 268_435_456,
{
    lemma_pow_positive(growth_factor, exponent);
    lemma_pow_increases(growth_factor as nat, exponent, 7);
    lemma_pow_base_increases(growth_factor, 16, 7);
    reveal_with_fuel(pow, 8);
    assert(pow(16, 7) == 268_435_456);
}

proof fn lemma_pow_base_increases(a: int, b: int, exponent: nat)
    requires
        0 < a <= b,
    ensures
        0 < pow(a, exponent) <= pow(b, exponent),
    decreases exponent,
{
    reveal(pow);
    if exponent > 0 {
        let e = (exponent - 1) as nat;
        lemma_pow_base_increases(a, b, e);
        assert(0 < a * pow(a, e) <= b * pow(b, e)) by (nonlinear_arith)
            requires
                0 < a <= b,
                0 < pow(a, e) <= pow(b, e),
        ;
    }
}

/// How many tables fit into one level.
#[must_use]
pub fn table_count_max_for_level(growth_factor: u32, level: u32) -> (result: u32)
    requires
        level < LSM_LEVELS,
        pow(growth_factor as int, (level + 1) as nat) <= u32::MAX,
    ensures
        result == pow(growth_factor as int, (level + 1) as nat),
{
    let mut count: u32 = growth_factor;
    let mut exponent: u32 = 1;
    proof {
        reveal_with_fuel(pow, 2);
    }
    while exponent < level + 1
        invariant
            1 <= exponent <= level + 1 <= LSM_LEVELS,
            count == pow(growth_factor as int, exponent as nat),
            pow(growth_factor as int, (level + 1) as nat) <= u32::MAX,
        decreases level + 1 - exponent,
    {
        proof {
            let g = growth_factor as int;
            assert(pow(g, (exponent + 1) as nat) == g * pow(g, exponent as nat)) by {
                reveal(pow);
            }
            assert(g * count == count * g) by (nonlinear_arith);
            if g > 0 {
                lemma_pow_increases(g as nat, (exponent + 1) as nat, (level + 1) as nat);
            } else {
                assert(g * count == 0) by (nonlinear_arith)
                    requires
                        g == 0,
                ;
            }
        }
        count = count * growth_factor;
        exponent = exponent + 1;
    }
    count
}

/// `TABLE_COUNT_MAX` is what the configured levels hold together.
pub proof fn law_table_count_max_spans_all_levels()
    ensures
        TABLE_COUNT_MAX == spec_table_count_max_for_tree(
            crate::constants::LSM_GROWTH_FACTOR as int,
            LSM_LEVELS as nat,
        ),
{
    reveal_with_fuel(pow, 8);
    reveal_with_fuel(spec_table_count_max_for_tree, 8);
}

/// The levels grow as a geometric series.
pub proof fn law_levels_are_a_geometric_series(growth_factor: int, levels_count: nat)
    ensures
        (growth_factor - 1) * spec_table_count_max_for_tree(growth_factor, levels_count) == pow(
            growth_factor,
            levels_count + 1,
        ) - growth_factor,
    decreases levels_count,
{
    reveal(pow);
    let g = growth_factor;
    if levels_count == 0 {
        assert(pow(g, 1) == g * pow(g, 0));
        assert(g * 1 == g && (g - 1) * 0 == 0) by (nonlinear_arith);
    } else {
        let n = (levels_count - 1) as nat;
        law_levels_are_a_geometric_series(g, n);
        let before = spec_table_count_max_for_tree(g, n);
        let level = pow(g, levels_count);
        assert((g - 1) * (before + level) == (g - 1) * before + g * level - level)
            by (nonlinear_arith);
    }
}

} // verus!
