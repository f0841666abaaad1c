//! The layout of entries on disk.

use crate::bytes::{is_zeroed, le_value, read_le, zeroes};
use vstd::prelude::*;

pub mod manifest_node;

verus! {

/// Bytes of the metadata area in a grid block's header.
pub const METADATA_SIZE: usize = 96;

/// The `u16` at `offset`.
pub fn le_u16_at(bytes: &[u8], offset: usize) -> (result: u16)
    requires
        offset + 2 <= bytes@.len(),
    ensures
        result == le_value(bytes@.subrange(offset as int, offset + 2)),
{
    proof {
        crate::bytes::lemma_byte_spans();
    }
    read_le(bytes, offset, 2) as u16
}

/// The `u32` at `offset`.
pub fn le_u32_at(bytes: &[u8], offset: usize) -> (result: u32)
    requires
        offset + 4 <= bytes@.len(),
    ensures
        result == le_value(bytes@.subrange(offset as int, offset + 4)),
{
    proof {
        crate::bytes::lemma_byte_spans();
    }
    read_le(bytes, offset, 4) as u32
}

/// The `u64` at `offset`.
pub fn le_u64_at(bytes: &[u8], offset: usize) -> (result: u64)
    requires
        offset + 8 <= bytes@.len(),
    ensures
        result == le_value(bytes@.subrange(offset as int, offset + 8)),
{
    proof {
        crate::bytes::lemma_byte_spans();
    }
    read_le(bytes, offset, 8) as u64
}

/// The `u128` at `offset`.
pub fn le_u128_at(bytes: &[u8], offset: usize) -> (result: u128)
    requires
        offset + 16 <= bytes@.len(),
    ensures
        result == le_value(bytes@.subrange(offset as int, offset + 16)),
{
    read_le(bytes, offset, 16)
}

/// Whether the `len` bytes from `offset` on are zero, as a reserved area has to be.
pub fn assert_area_zeroed(bytes: &[u8], offset: usize, len: usize) -> (result: bool)
    requires
        offset + len <= bytes@.len(),
    ensures
        result == (bytes@.subrange(offset as int, offset + len) == zeroes(len as nat)),
{
    is_zeroed(bytes, offset, len)
}

} // verus!
