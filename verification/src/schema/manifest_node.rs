//! The body of a manifest block: an array of table entries.

use super::{le_u128_at, le_u16_at, le_u32_at, le_u64_at, METADATA_SIZE};
use crate::bytes::{
    array_at, law_le_bytes_round_trip, law_le_value_round_trip, le_bytes, le_value,
    lemma_byte_spans, push_bytes, push_le, push_zeroes, zeroes,
};
use crate::constants::{BLOCK_SIZE, HEADER_SIZE};
use vstd::prelude::*;

verus! {

/// Bytes of a table entry.
pub const ENTRY_SIZE: usize = 128;

/// The most entries that fit a block.
pub const ENTRY_COUNT_MAX: usize = (BLOCK_SIZE - HEADER_SIZE) / ENTRY_SIZE;

/// The metadata of a manifest block.
#[derive(Clone, Copy, Debug, PartialEq, Eq)]
pub struct Metadata {
    pub previous_manifest_block_checksum: u128,
    pub previous_manifest_block_address: u64,
    pub entry_count: u32,
}

impl Metadata {
    /// The metadata on disk: the checksum, padded to twice its width, the address, the count, and
    /// a reserved area.
    pub open spec fn spec_to_wire(self) -> Seq<u8> {
        le_bytes(self.previous_manifest_block_checksum as nat, 16) + zeroes(16) + le_bytes(
            self.previous_manifest_block_address as nat,
            8,
        ) + le_bytes(self.entry_count as nat, 4) + zeroes(52)
    }

    /// The padding and the reserved area are zero.
    pub open spec fn wire_valid(bytes: Seq<u8>) -> bool {
        &&& bytes.len() == METADATA_SIZE
        &&& bytes.subrange(16, 32) == zeroes(16)
        &&& bytes.subrange(44, 96) == zeroes(52)
    }

    /// Reads metadata.
    #[must_use]
    pub fn from_wire(bytes: &[u8; METADATA_SIZE]) -> (result: Self)
        requires
            Self::wire_valid(bytes@),
        ensures
            result.previous_manifest_block_checksum == le_value(bytes@.subrange(0, 16)),
            result.previous_manifest_block_address == le_value(bytes@.subrange(32, 40)),
            result.entry_count == le_value(bytes@.subrange(40, 44)),
    {
        let bytes = bytes.as_slice();
        Metadata {
            previous_manifest_block_checksum: le_u128_at(bytes, 0),
            previous_manifest_block_address: le_u64_at(bytes, 32),
            entry_count: le_u32_at(bytes, 40),
        }
    }

    /// Writes metadata, with zeroes for the padding and the reserved area.
    #[must_use]
    pub fn to_wire(self) -> (result: [u8; METADATA_SIZE])
        ensures
            result@ == self.spec_to_wire(),
            Self::wire_valid(result@),
    {
        let mut bytes: Vec<u8> = Vec::new();
        push_le(&mut bytes, self.previous_manifest_block_checksum, 16);
        push_zeroes(&mut bytes, 16);
        push_le(&mut bytes, self.previous_manifest_block_address as u128, 8);
        push_le(&mut bytes, self.entry_count as u128, 4);
        push_zeroes(&mut bytes, 52);
        proof {
            assert(Seq::<u8>::empty() + le_bytes(
                self.previous_manifest_block_checksum as nat,
                16,
            ) =~= le_bytes(self.previous_manifest_block_checksum as nat, 16));
            self.law_metadata_round_trip();
            assert(bytes@ =~= self.spec_to_wire());
            assert(bytes@.subrange(0, METADATA_SIZE as int) =~= bytes@);
        }
        array_at::<METADATA_SIZE>(bytes.as_slice(), 0)
    }

    /// Reading metadata back gives what was written.
    pub proof fn law_metadata_round_trip(self)
        ensures
            Self::wire_valid(self.spec_to_wire()),
            le_value(self.spec_to_wire().subrange(0, 16)) == self.previous_manifest_block_checksum,
            le_value(self.spec_to_wire().subrange(32, 40)) == self.previous_manifest_block_address,
            le_value(self.spec_to_wire().subrange(40, 44)) == self.entry_count,
    {
        let w = self.spec_to_wire();
        lemma_byte_spans();
        law_le_bytes_round_trip(self.previous_manifest_block_checksum as nat, 16);
        law_le_bytes_round_trip(self.previous_manifest_block_address as nat, 8);
        law_le_bytes_round_trip(self.entry_count as nat, 4);
        assert(w.subrange(0, 16) =~= le_bytes(self.previous_manifest_block_checksum as nat, 16));
        assert(w.subrange(16, 32) =~= zeroes(16));
        assert(w.subrange(32, 40) =~= le_bytes(self.previous_manifest_block_address as nat, 8));
        assert(w.subrange(40, 44) =~= le_bytes(self.entry_count as nat, 4));
        assert(w.subrange(44, 96) =~= zeroes(52));
    }
}

/// Writing metadata that was read gives the bytes back.
pub proof fn law_metadata_bytes_round_trip(bytes: Seq<u8>, metadata: Metadata)
    requires
        Metadata::wire_valid(bytes),
        metadata.previous_manifest_block_checksum == le_value(bytes.subrange(0, 16)),
        metadata.previous_manifest_block_address == le_value(bytes.subrange(32, 40)),
        metadata.entry_count == le_value(bytes.subrange(40, 44)),
    ensures
        metadata.spec_to_wire() == bytes,
{
    law_le_value_round_trip(bytes.subrange(0, 16));
    law_le_value_round_trip(bytes.subrange(32, 40));
    law_le_value_round_trip(bytes.subrange(40, 44));
    let w = metadata.spec_to_wire();
    assert(w =~= bytes.subrange(0, 16) + bytes.subrange(16, 32) + bytes.subrange(32, 40)
        + bytes.subrange(40, 44) + bytes.subrange(44, 96));
    assert(w =~= bytes);
}

/// What happened to a table.
#[derive(Clone, Copy, Debug, PartialEq, Eq, Structural)]
pub enum Event {
    Reserved,
    Insert,
    Update,
    Remove,
}

impl Event {
    /// The number of the event on disk.
    pub open spec fn ordinal(self) -> int {
        match self {
            Event::Reserved => 0,
            Event::Insert => 1,
            Event::Update => 2,
            Event::Remove => 3,
        }
    }
}

/// A level and an event, in one byte on disk.
#[derive(Clone, Copy, Debug, PartialEq, Eq, Structural)]
pub struct Label {
    pub level: u8,
    pub event: Event,
}

impl Label {
    /// The label on disk: the event in the two most significant bits, the level in the others.
    pub open spec fn spec_to_u8(self) -> int {
        self.event.ordinal() * 64 + self.level
    }

    /// Packs the label.
    #[must_use]
    pub fn to_u8(self) -> (result: u8)
        requires
            self.level <= 63,
        ensures
            result == self.spec_to_u8(),
    {
        let ordinal: u8 = match self.event {
            Event::Reserved => 0,
            Event::Insert => 1,
            Event::Update => 2,
            Event::Remove => 3,
        };
        ordinal * 64 + self.level
    }

    /// Unpacks a label.
    #[must_use]
    pub fn from_u8(bits: u8) -> (result: Self)
        ensures
            result.level <= 63,
            result.spec_to_u8() == bits,
    {
        let ordinal: u8 = bits / 64;
        let event = if ordinal == 0 {
            Event::Reserved
        } else if ordinal == 1 {
            Event::Insert
        } else if ordinal == 2 {
            Event::Update
        } else {
            Event::Remove
        };
        Label { level: bits % 64, event }
    }
}

/// Labels of the levels that there are pack into distinct bytes.
pub proof fn law_labels_round_trip(a: Label, b: Label)
    requires
        a.level <= 63,
        b.level <= 63,
        a.spec_to_u8() == b.spec_to_u8(),
    ensures
        a == b,
{
}

/// The entry of a table.
#[derive(Clone, Copy, Debug, PartialEq, Eq)]
pub struct TableInfo {
    /// Little-endian, padded to the widest key.
    pub key_min: [u8; 32],
    pub key_max: [u8; 32],
    pub checksum: u128,
    pub address: u64,
    pub snapshot_min: u64,
    pub snapshot_max: u64,
    pub value_count: u32,
    pub tree_id: u16,
    pub label: Label,
}

impl TableInfo {
    pub const SIZE: usize = 128;

    /// The entry on disk: the keys, the checksum, padded to twice its width, the other fields, and
    /// a reserved byte.
    pub open spec fn spec_to_wire(self) -> Seq<u8> {
        self.key_min@ + self.key_max@ + le_bytes(self.checksum as nat, 16) + zeroes(16) + le_bytes(
            self.address as nat,
            8,
        ) + le_bytes(self.snapshot_min as nat, 8) + le_bytes(self.snapshot_max as nat, 8)
            + le_bytes(self.value_count as nat, 4) + le_bytes(self.tree_id as nat, 2) + seq![
            self.label.spec_to_u8() as u8,
        ] + zeroes(1)
    }

    /// The padding and the reserved byte are zero.
    pub open spec fn wire_valid(bytes: Seq<u8>) -> bool {
        &&& bytes.len() == ENTRY_SIZE
        &&& bytes.subrange(80, 96) == zeroes(16)
        &&& bytes[127] == 0
    }

    /// The entry holds what `bytes` say.
    pub open spec fn matches_wire(self, bytes: Seq<u8>) -> bool {
        &&& self.key_min@ == bytes.subrange(0, 32)
        &&& self.key_max@ == bytes.subrange(32, 64)
        &&& self.checksum == le_value(bytes.subrange(64, 80))
        &&& self.address == le_value(bytes.subrange(96, 104))
        &&& self.snapshot_min == le_value(bytes.subrange(104, 112))
        &&& self.snapshot_max == le_value(bytes.subrange(112, 120))
        &&& self.value_count == le_value(bytes.subrange(120, 124))
        &&& self.tree_id == le_value(bytes.subrange(124, 126))
        &&& self.label.level <= 63
        &&& self.label.spec_to_u8() == bytes[126]
    }

    /// Reads an entry.
    #[must_use]
    pub fn from_wire(bytes: &[u8; 128]) -> (result: Self)
        requires
            Self::wire_valid(bytes@),
        ensures
            result.matches_wire(bytes@),
    {
        let bytes = bytes.as_slice();
        TableInfo {
            key_min: array_at::<32>(bytes, 0),
            key_max: array_at::<32>(bytes, 32),
            checksum: le_u128_at(bytes, 64),
            address: le_u64_at(bytes, 96),
            snapshot_min: le_u64_at(bytes, 104),
            snapshot_max: le_u64_at(bytes, 112),
            value_count: le_u32_at(bytes, 120),
            tree_id: le_u16_at(bytes, 124),
            label: Label::from_u8(bytes[126]),
        }
    }

    /// Writes an entry, with zeroes for the padding and the reserved byte.
    #[must_use]
    pub fn to_wire(self) -> (result: [u8; 128])
        requires
            self.label.level <= 63,
        ensures
            result@ == self.spec_to_wire(),
            Self::wire_valid(result@),
    {
        let mut bytes: Vec<u8> = Vec::new();
        push_bytes(&mut bytes, self.key_min.as_slice());
        push_bytes(&mut bytes, self.key_max.as_slice());
        push_le(&mut bytes, self.checksum, 16);
        push_zeroes(&mut bytes, 16);
        push_le(&mut bytes, self.address as u128, 8);
        push_le(&mut bytes, self.snapshot_min as u128, 8);
        push_le(&mut bytes, self.snapshot_max as u128, 8);
        push_le(&mut bytes, self.value_count as u128, 4);
        push_le(&mut bytes, self.tree_id as u128, 2);
        bytes.push(self.label.to_u8());
        bytes.push(0);
        proof {
            self.law_entry_round_trip();
            assert(bytes@ =~= self.spec_to_wire());
            assert(bytes@.subrange(0, 128) =~= bytes@);
        }
        array_at::<128>(bytes.as_slice(), 0)
    }

    /// Reading an entry back gives what was written.
    pub proof fn law_entry_round_trip(self)
        requires
            self.label.level <= 63,
        ensures
            Self::wire_valid(self.spec_to_wire()),
            self.matches_wire(self.spec_to_wire()),
    {
        let w = self.spec_to_wire();
        lemma_byte_spans();
        law_le_bytes_round_trip(self.checksum as nat, 16);
        law_le_bytes_round_trip(self.address as nat, 8);
        law_le_bytes_round_trip(self.snapshot_min as nat, 8);
        law_le_bytes_round_trip(self.snapshot_max as nat, 8);
        law_le_bytes_round_trip(self.value_count as nat, 4);
        law_le_bytes_round_trip(self.tree_id as nat, 2);
        assert(w.subrange(0, 32) =~= self.key_min@);
        assert(w.subrange(32, 64) =~= self.key_max@);
        assert(w.subrange(64, 80) =~= le_bytes(self.checksum as nat, 16));
        assert(w.subrange(80, 96) =~= zeroes(16));
        assert(w.subrange(96, 104) =~= le_bytes(self.address as nat, 8));
        assert(w.subrange(104, 112) =~= le_bytes(self.snapshot_min as nat, 8));
        assert(w.subrange(112, 120) =~= le_bytes(self.snapshot_max as nat, 8));
        assert(w.subrange(120, 124) =~= le_bytes(self.value_count as nat, 4));
        assert(w.subrange(124, 126) =~= le_bytes(self.tree_id as nat, 2));
    }
}

/// Writing an entry that was read gives the bytes back.
pub proof fn law_entry_bytes_round_trip(bytes: Seq<u8>, entry: TableInfo)
    requires
        TableInfo::wire_valid(bytes),
        entry.matches_wire(bytes),
    ensures
        entry.spec_to_wire() == bytes,
{
    law_le_value_round_trip(bytes.subrange(64, 80));
    law_le_value_round_trip(bytes.subrange(96, 104));
    law_le_value_round_trip(bytes.subrange(104, 112));
    law_le_value_round_trip(bytes.subrange(112, 120));
    law_le_value_round_trip(bytes.subrange(120, 124));
    law_le_value_round_trip(bytes.subrange(124, 126));
    let w = entry.spec_to_wire();
    assert(w =~= bytes.subrange(0, 32) + bytes.subrange(32, 64) + bytes.subrange(64, 80)
        + bytes.subrange(80, 96) + bytes.subrange(96, 104) + bytes.subrange(104, 112)
        + bytes.subrange(112, 120) + bytes.subrange(120, 124) + bytes.subrange(124, 126) + seq![
        bytes[126],
    ] + zeroes(1));
    assert(w =~= bytes);
}

/// Where each field of an entry stands on disk.
pub proof fn law_entry_has_a_layout(entry: TableInfo)
    requires
        entry.label.level <= 63,
    ensures
        ({
            let bytes = entry.spec_to_wire();
            &&& bytes.len() == 128
            &&& forall|i: int|
                0 <= i < 32 ==> #[trigger] bytes[i] == entry.key_min@[i]
            &&& forall|i: int| 32 <= i < 64 ==> #[trigger] bytes[i] == entry.key_max@[i - 32]
            &&& bytes.subrange(64, 80) == le_bytes(entry.checksum as nat, 16)
            &&& forall|i: int| 80 <= i < 96 ==> #[trigger] bytes[i] == 0
            &&& bytes.subrange(96, 104) == le_bytes(entry.address as nat, 8)
            &&& bytes.subrange(104, 112) == le_bytes(entry.snapshot_min as nat, 8)
            &&& bytes.subrange(112, 120) == le_bytes(entry.snapshot_max as nat, 8)
            &&& bytes.subrange(120, 124) == le_bytes(entry.value_count as nat, 4)
            &&& bytes.subrange(124, 126) == le_bytes(entry.tree_id as nat, 2)
            &&& bytes[126] == entry.label.level + match entry.label.event {
                Event::Reserved => 0int,
                Event::Insert => 64,
                Event::Update => 128,
                Event::Remove => 192,
            }
            &&& bytes[127] == 0
        }),
{
    entry.law_entry_round_trip();
    let w = entry.spec_to_wire();
    lemma_byte_spans();
    law_le_bytes_round_trip(entry.checksum as nat, 16);
    law_le_bytes_round_trip(entry.address as nat, 8);
    law_le_bytes_round_trip(entry.snapshot_min as nat, 8);
    law_le_bytes_round_trip(entry.snapshot_max as nat, 8);
    law_le_bytes_round_trip(entry.value_count as nat, 4);
    law_le_bytes_round_trip(entry.tree_id as nat, 2);
    assert forall|i: int| 80 <= i < 96 implies #[trigger] w[i] == 0 by {
        assert(w.subrange(80, 96)[i - 80] == zeroes(16)[i - 80]);
    }
}

/// Where each field of the metadata stands on disk.
pub proof fn law_metadata_has_a_layout(metadata: Metadata)
    ensures
        ({
            let bytes = metadata.spec_to_wire();
            &&& bytes.len() == 96
            &&& bytes.subrange(0, 16) == le_bytes(
                metadata.previous_manifest_block_checksum as nat,
                16,
            )
            &&& forall|i: int| 16 <= i < 32 ==> #[trigger] bytes[i] == 0
            &&& bytes.subrange(32, 40) == le_bytes(
                metadata.previous_manifest_block_address as nat,
                8,
            )
            &&& bytes.subrange(40, 44) == le_bytes(metadata.entry_count as nat, 4)
            &&& forall|i: int| 44 <= i < 96 ==> #[trigger] bytes[i] == 0
        }),
{
    metadata.law_metadata_round_trip();
    let w = metadata.spec_to_wire();
    lemma_byte_spans();
    law_le_bytes_round_trip(metadata.previous_manifest_block_checksum as nat, 16);
    law_le_bytes_round_trip(metadata.previous_manifest_block_address as nat, 8);
    law_le_bytes_round_trip(metadata.entry_count as nat, 4);
    assert forall|i: int| 16 <= i < 32 implies #[trigger] w[i] == 0 by {
        assert(w.subrange(16, 32)[i - 16] == zeroes(16)[i - 16]);
    }
    assert forall|i: int| 44 <= i < 96 implies #[trigger] w[i] == 0 by {
        assert(w.subrange(44, 96)[i - 44] == zeroes(52)[i - 44]);
    }
}

} // verus!
