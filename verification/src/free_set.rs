//! Tracks which blocks of the grid are acquired, and which are free.
//!
//! The address zero is a sentinel: it is never handed out. The address of a block is one more than
//! its index.
//!
//! Jobs run concurrently, but the blocks that they acquire must not depend on how they are
//! scheduled. So a job reserves as many blocks as it may need, before any of them runs. Then it
//! acquires blocks of its own reservation, and forfeits the reservation when it is done. Once all
//! reservations are forfeited, the blocks that were reserved and not acquired can be reserved
//! again.

pub mod bit_set;
pub mod ewah;

use crate::constants::{BLOCK_SIZE, CACHE_LINE_SIZE};
use crate::free_set::bit_set::{
    bit, find_bit, is_first, lemma_ones, lemma_ones_update, none_in, ones, BitKind, BitSet,
};
use crate::free_set::ewah::{
    chunk_words, encode_size_max, encoded, expanded, is_encoding, law_decode_undoes_encode,
    law_encoding_fits, lemma_chunk_words, lemma_trimmed, repeated, spec_encode_size_max,
    trailing_zero_runs, trimmed, whole_words, words_of, Encoder,
};
use vstd::arithmetic::power2::pow2;
use vstd::bits::lemma_u64_shr_is_div;
use vstd::prelude::*;

verus! {

/// The cache lines of a shard.
pub const SHARD_CACHE_LINES: usize = 8;

/// The blocks of a shard.
pub const SHARD_BITS: usize = SHARD_CACHE_LINES * CACHE_LINE_SIZE * 8;

/// Blocks that a job may acquire. They include blocks that are acquired already.
#[derive(Clone, Copy, Debug, PartialEq, Eq, Structural)]
pub struct Reservation {
    pub block_base: usize,
    pub block_count: usize,
    /// Which cycle of reservations it belongs to.
    pub session: usize,
}

/// No block belongs to both reservations.
pub open spec fn disjoint(a: Reservation, b: Reservation) -> bool {
    a.block_base + a.block_count <= b.block_base || b.block_base + b.block_count <= a.block_base
}

/// Blocks that were released while the checkpoint was not durable.
#[derive(Clone, Debug, Default)]
pub struct ReleasedPriorCheckpointDurability {
    pub keys: Vec<u64>,
    pub capacity: usize,
}

impl View for ReleasedPriorCheckpointDurability {
    type V = Seq<u64>;

    open spec fn view(&self) -> Seq<u64> {
        self.keys@
    }
}

impl ReleasedPriorCheckpointDurability {
    #[must_use]
    pub fn count(&self) -> (result: usize)
        ensures
            result == self@.len(),
    {
        self.keys.len()
    }

    #[must_use]
    pub fn contains(&self, key: u64) -> (result: bool)
        ensures
            result == self@.contains(key),
    {
        let mut i: usize = 0;
        while i < self.keys.len()
            invariant
                i <= self.keys@.len(),
                forall|k: int| 0 <= k < i ==> #[trigger] self.keys@[k] != key,
            decreases self.keys@.len() - i,
        {
            if self.keys[i] == key {
                return true;
            }
            i = i + 1;
        }
        false
    }

    fn put_assume_capacity(&mut self, key: u64)
        requires
            old(self)@.len() < old(self).capacity,
        ensures
            final(self)@ == old(self)@.push(key),
            final(self).capacity == old(self).capacity,
    {
        self.keys.push(key);
    }
}

/// Whether reservations are being made, or forfeited.
#[derive(Clone, Copy, Debug, PartialEq, Eq, Structural)]
pub enum ReservationState {
    Reserving,
    Forfeiting,
}

#[derive(Clone, Copy, Debug, PartialEq, Eq, Structural)]
pub enum BitsetKind {
    BlocksAcquired,
    BlocksReleased,
}

/// How many blocks are free from `start` up to but not at `end`.
pub open spec fn free_in(acquired: Seq<bool>, start: int, end: int) -> nat
    decreases end - start,
{
    if end <= start {
        0
    } else {
        free_in(acquired, start, end - 1) + if acquired[end - 1] {
            0nat
        } else {
            1nat
        }
    }
}

/// A range has no free blocks if and only if all its blocks are acquired. Acquiring a block of a
/// range leaves one free block less in it, so that a reservation gives as many blocks as were
/// reserved with it.
pub proof fn law_acquisitions_use_up_a_reservation(
    acquired: Seq<bool>,
    start: int,
    end: int,
    block: int,
)
    requires
        0 <= start <= end <= acquired.len(),
    ensures
        free_in(acquired, start, end) == 0 <==> none_in(acquired, start, end, false),
        start <= block < end && !acquired[block] ==> free_in(
            acquired.update(block, true),
            start,
            end,
        ) == free_in(acquired, start, end) - 1,
        !(start <= block < end) && 0 <= block < acquired.len() ==> free_in(
            acquired.update(block, true),
            start,
            end,
        ) == free_in(acquired, start, end),
    decreases end - start,
{
    if start < end {
        law_acquisitions_use_up_a_reservation(acquired, start, end - 1, block);
        if none_in(acquired, start, end, false) {
            assert(acquired[end - 1]);
        }
    }
}

/// Jobs with disjoint reservations may acquire blocks in any order: none takes a block from
/// another, and each gets the blocks that it would get alone.
pub proof fn law_acquisitions_commute(
    acquired: Seq<bool>,
    a: Reservation,
    b: Reservation,
    block_a: int,
    block_b: int,
)
    requires
        disjoint(a, b),
        a.block_base + a.block_count <= acquired.len(),
        b.block_base + b.block_count <= acquired.len(),
        is_first(
            acquired,
            a.block_base as int,
            a.block_base + a.block_count,
            false,
            block_a,
        ),
        is_first(
            acquired,
            b.block_base as int,
            b.block_base + b.block_count,
            false,
            block_b,
        ),
    ensures
        block_a != block_b,
        is_first(
            acquired.update(block_b, true),
            a.block_base as int,
            a.block_base + a.block_count,
            false,
            block_a,
        ),
        is_first(
            acquired.update(block_a, true),
            b.block_base as int,
            b.block_base + b.block_count,
            false,
            block_b,
        ),
        acquired.update(block_a, true).update(block_b, true) == acquired.update(
            block_b,
            true,
        ).update(block_a, true),
{
    assert(acquired.update(block_a, true).update(block_b, true) =~= acquired.update(
        block_b,
        true,
    ).update(block_a, true));
}

proof fn lemma_free_in_monotonic(acquired: Seq<bool>, start: int, a: int, b: int)
    requires
        a <= b,
    ensures
        free_in(acquired, start, a) <= free_in(acquired, start, b),
    decreases b - a,
{
    if a < b {
        lemma_free_in_monotonic(acquired, start, a, b - 1);
    }
}

proof fn lemma_none_free(acquired: Seq<bool>, start: int, a: int, b: int)
    requires
        start <= a <= b,
        none_in(acquired, a, b, false),
    ensures
        free_in(acquired, start, a) == free_in(acquired, start, b),
    decreases b - a,
{
    if a < b {
        lemma_none_free(acquired, start, a, b - 1);
        assert(acquired[b - 1]);
    }
}

/// Whether a shard has no free blocks.
pub open spec fn shard_full(acquired: Seq<bool>, shard: int) -> bool {
    none_in(acquired, shard * 4096, shard * 4096 + 4096, false)
}

/// The index has a bit for every shard. It is set where the shard has no free blocks.
pub open spec fn index_matches(index: Seq<bool>, acquired: Seq<bool>) -> bool {
    forall|shard: int|
        0 <= shard < index.len() ==> #[trigger] index[shard] == shard_full(acquired, shard)
}

/// Shards without free blocks have no free blocks.
proof fn lemma_full_shards(index: Seq<bool>, acquired: Seq<bool>, a: int, b: int)
    requires
        index_matches(index, acquired),
        0 <= a <= b <= index.len(),
        none_in(index, a, b, false),
    ensures
        none_in(acquired, a * 4096, b * 4096, false),
{
    assert forall|k: int| a * 4096 <= k < b * 4096 implies #[trigger] acquired[k] != false by {
        let shard = k / 4096;
        assert(index[shard] != false);
        assert(shard_full(acquired, shard));
    }
}

/// The bits of words.
pub open spec fn bits_of(words: Seq<u64>, count: nat) -> Seq<bool> {
    Seq::new(count, |i: int| bit(words[i / 64], (i % 64) as u64))
}

/// The blocks that chunks stand for.
pub open spec fn decoded(chunks: Seq<Seq<u8>>, count: nat) -> Seq<bool> {
    let words = expanded(chunk_words(chunks));
    bits_of(words + repeated(0, count / 64 - words.len()), count)
}

/// Whether chunks stand for at most `count` blocks.
pub open spec fn is_decodable(chunks: Seq<Seq<u8>>, count: nat) -> bool {
    &&& whole_words(chunks)
    &&& is_encoding(chunk_words(chunks))
    &&& expanded(chunk_words(chunks)).len() <= count / 64
}

/// Whether chunks have room for the words of an encoding.
pub open spec fn has_room(chunks: Seq<Seq<u8>>, count: nat) -> bool {
    &&& count > 0
    &&& count <= chunk_words(chunks).len()
    &&& forall|i: int|
        0 <= i < chunks.len() && chunk_words(chunks.take(i)).len() < count ==> {
            &&& (#[trigger] chunks[i]).len() > 0
            &&& chunks[i].len() % 8 == 0
        }
}

/// Blocks, and those at some addresses.
pub open spec fn with_addresses(blocks: Seq<bool>, addresses: Seq<u64>) -> Seq<bool> {
    Seq::new(blocks.len(), |i: int| blocks[i] || addresses.contains((i + 1) as u64))
}

/// The blocks at addresses.
pub open spec fn blocks_at(addresses: Seq<u64>) -> Seq<u64> {
    addresses.map_values(|address: u64| (address - 1) as u64)
}

/// The addresses ascend, and blocks at them are free.
pub open spec fn are_free(blocks: Seq<bool>, addresses: Seq<u64>) -> bool {
    &&& forall|i: int|
        0 <= i < addresses.len() ==> 0 < (#[trigger] addresses[i]) <= blocks.len()
            && !blocks[addresses[i] - 1]
    &&& forall|i: int, j: int|
        0 <= i < j < addresses.len() ==> #[trigger] addresses[i] < #[trigger] addresses[j]
}

/// No block is set.
pub open spec fn none_set(blocks: Seq<bool>) -> bool {
    none_in(blocks, 0, blocks.len() as int, true)
}

/// Which blocks are acquired, and which are released.
#[derive(Clone, Debug)]
pub struct FreeSet {
    /// The free set is kept in the grid: it is not known before it was read.
    pub opened: bool,
    pub checkpoint_durable: bool,
    /// A bit is set where a shard has no free blocks.
    pub index: BitSet,
    /// How many blocks can be reserved at most.
    pub blocks_count_limit: u64,
    /// Acquired blocks.
    pub blocks_acquired: BitSet,
    /// Blocks released since the last checkpoint, which are freed when the next one is durable.
    pub blocks_released: BitSet,
    pub blocks_released_prior_checkpoint_durability: ReleasedPriorCheckpointDurability,
    /// How many blocks are reserved, acquired ones included.
    pub reservation_blocks: usize,
    /// How many reservations were not forfeited.
    pub reservation_count: usize,
    pub reservation_state: ReservationState,
    /// Tells reservations of one cycle from those of another.
    pub reservation_session: usize,
}

impl FreeSet {
    spec fn shape(&self) -> bool {
        &&& self.index.wf()
        &&& self.blocks_acquired.wf()
        &&& self.blocks_released.wf()
        &&& self.acquired().len() == self.released().len()
        &&& self.acquired().len() == self.index@.len() * 4096
        &&& self.acquired().len() + 63 <= usize::MAX
    }

    spec fn blocks_match(&self) -> bool {
        &&& forall|i: int|
            0 <= i < self.acquired().len() && #[trigger] self.released()[i] ==> self.acquired()[i]
        &&& forall|i: int|
            0 <= i < self.prior().len() ==> {
                &&& (#[trigger] self.prior()[i]) < self.acquired().len()
                &&& self.acquired()[self.prior()[i] as int]
                &&& !self.released()[self.prior()[i] as int]
            }
        &&& self.prior().no_duplicates()
        &&& self.checkpoint_durable ==> self.prior().len() == 0
    }

    spec fn reservations_match(&self) -> bool {
        &&& self.reservation_count <= self.reservation_blocks <= self.acquired().len()
        &&& self.reservation_count == 0 ==> self.reservation_blocks == 0
        &&& self.reservation_count == 0 ==> self.reservation_state == ReservationState::Reserving
    }

    pub closed spec fn wf(&self) -> bool {
        &&& self.shape()
        &&& index_matches(self.index@, self.acquired())
        &&& self.blocks_match()
        &&& self.reservations_match()
    }

    pub open spec fn acquired(&self) -> Seq<bool> {
        self.blocks_acquired@
    }

    pub open spec fn released(&self) -> Seq<bool> {
        self.blocks_released@
    }

    /// The blocks that were released while the checkpoint was not durable.
    pub open spec fn prior(&self) -> Seq<u64> {
        self.blocks_released_prior_checkpoint_durability@
    }

    /// Nothing is acquired, released or reserved.
    pub open spec fn is_pristine(&self) -> bool {
        &&& none_set(self.acquired())
        &&& none_set(self.released())
        &&& self.prior().len() == 0
        &&& self.reservation_count == 0
        &&& self.reservation_blocks == 0
    }

    /// Whether a reservation can be used.
    pub open spec fn is_active(&self, reservation: Reservation) -> bool {
        &&& reservation.session == self.reservation_session
        &&& reservation.block_count > 0
        &&& reservation.block_base + reservation.block_count <= self.reservation_blocks
    }

    /// All but the blocks are the same.
    pub open spec fn same_reservations(&self, other: &Self) -> bool {
        &&& self.opened == other.opened
        &&& self.reservation_blocks == other.reservation_blocks
        &&& self.reservation_count == other.reservation_count
        &&& self.reservation_state == other.reservation_state
        &&& self.reservation_session == other.reservation_session
        &&& self.same_limits(other)
    }

    /// The number of blocks is the same.
    pub open spec fn same_limits(&self, other: &Self) -> bool {
        &&& self.acquired().len() == other.acquired().len()
        &&& self.released().len() == other.released().len()
        &&& self.index@.len() == other.index@.len()
        &&& self.blocks_count_limit == other.blocks_count_limit
        &&& self.blocks_released_prior_checkpoint_durability.capacity
            == other.blocks_released_prior_checkpoint_durability.capacity
    }

    /// The blocks are the same.
    pub open spec fn same_blocks(&self, other: &Self) -> bool {
        &&& self.acquired() == other.acquired()
        &&& self.released() == other.released()
        &&& self.prior() == other.prior()
        &&& self.index@ == other.index@
        &&& self.checkpoint_durable == other.checkpoint_durable
        &&& self.same_limits(other)
    }

    /// A block is acquired if it is released. The index says which shards have no free blocks.
    pub proof fn law_released_blocks_are_acquired(&self)
        requires
            self.wf(),
        ensures
            forall|i: int|
                0 <= i < self.released().len() && #[trigger] self.released()[i]
                    ==> self.acquired()[i],
            forall|i: int|
                0 <= i < self.prior().len() ==> (#[trigger] self.prior()[i])
                    < self.acquired().len() && self.acquired()[self.prior()[i] as int]
                    && !self.released()[self.prior()[i] as int],
            index_matches(self.index@, self.acquired()),
            self.index@.len() * 4096 == self.acquired().len(),
            self.released().len() == self.acquired().len(),
    {
    }

    /// How many blocks the bit sets hold: the limit, rounded up to whole shards.
    pub open spec fn spec_block_count_max(grid_size_limit: usize) -> int {
        ((grid_size_limit / BLOCK_SIZE) + 4095) / 4096 * 4096
    }

    /// How many blocks the free set of a grid can tell apart.
    #[must_use]
    pub fn block_count_max(grid_size_limit: usize) -> (result: usize)
        ensures
            result == Self::spec_block_count_max(grid_size_limit),
    {
        let block_count_limit: usize = grid_size_limit / BLOCK_SIZE;
        (block_count_limit + (SHARD_BITS - 1)) / SHARD_BITS * SHARD_BITS
    }

    /// How many blocks may be released before a checkpoint is durable: those that the replica
    /// releases, and those that hold the free set.
    pub open spec fn spec_prior_capacity(grid_size_limit: usize, released_max: usize) -> int {
        released_max + 2 * ((spec_encode_size_max(
            Self::spec_block_count_max(grid_size_limit) / 64,
        ) + BLOCK_SIZE - 1) / (BLOCK_SIZE as int))
    }

    /// A free set that is not open.
    #[must_use]
    pub fn new(
        grid_size_limit: usize,
        blocks_released_prior_checkpoint_durability_max: usize,
    ) -> (result: Self)
        requires
            Self::spec_prior_capacity(
                grid_size_limit,
                blocks_released_prior_checkpoint_durability_max,
            ) <= usize::MAX,
        ensures
            result.wf(),
            !result.opened,
            !result.checkpoint_durable,
            result.is_pristine(),
            result.acquired().len() == Self::spec_block_count_max(grid_size_limit),
            result.blocks_count_limit == grid_size_limit / BLOCK_SIZE,
            result.reservation_session == 1,
            result.blocks_released_prior_checkpoint_durability.capacity
                == Self::spec_prior_capacity(
                grid_size_limit,
                blocks_released_prior_checkpoint_durability_max,
            ),
    {
        let blocks_count: usize = Self::block_count_max(grid_size_limit);
        let encoded_size: usize = encode_size_max(blocks_count / 64);
        let trailer_blocks: usize = checkpoint_trailer_block_count_for_trailer_size(encoded_size);
        let result = FreeSet {
            opened: false,
            checkpoint_durable: false,
            index: BitSet::new_empty(blocks_count / SHARD_BITS),
            blocks_count_limit: (grid_size_limit / BLOCK_SIZE) as u64,
            blocks_acquired: BitSet::new_empty(blocks_count),
            blocks_released: BitSet::new_empty(blocks_count),
            blocks_released_prior_checkpoint_durability: ReleasedPriorCheckpointDurability {
                keys: Vec::new(),
                capacity: blocks_released_prior_checkpoint_durability_max + 2 * trailer_blocks,
            },
            reservation_blocks: 0,
            reservation_count: 0,
            reservation_state: ReservationState::Reserving,
            reservation_session: 1,
        };
        proof {
            lemma_nothing_full(result.index@, result.acquired());
        }
        result
    }

    /// Forgets everything.
    pub fn reset(&mut self)
        requires
            old(self).wf(),
        ensures
            final(self).wf(),
            !final(self).opened,
            !final(self).checkpoint_durable,
            final(self).is_pristine(),
            final(self).same_limits(old(self)),
            final(self).reservation_session == old(self).reservation_session.wrapping_add(1),
    {
        self.index = BitSet::new_empty(self.index.len());
        self.blocks_acquired = BitSet::new_empty(self.blocks_acquired.len());
        self.blocks_released = BitSet::new_empty(self.blocks_released.len());
        self.blocks_released_prior_checkpoint_durability.keys.truncate(0);
        self.opened = false;
        self.checkpoint_durable = false;
        self.reservation_blocks = 0;
        self.reservation_count = 0;
        self.reservation_state = ReservationState::Reserving;
        self.reservation_session = self.reservation_session.wrapping_add(1);
        proof {
            lemma_nothing_full(self.index@, self.acquired());
        }
    }

    /// Opens the free set: reads the bit sets, and marks the blocks that hold them as released.
    pub fn open(
        &mut self,
        encoded_blocks_acquired: &[&[u8]],
        encoded_blocks_released: &[&[u8]],
        free_set_block_addresses_blocks_acquired: &[u64],
        free_set_block_addresses_blocks_released: &[u64],
    )
        requires
            old(self).wf(),
            !old(self).opened,
            !old(self).checkpoint_durable,
            old(self).is_pristine(),
            (encoded_blocks_acquired@.len() == 0 && encoded_blocks_released@.len() == 0) == (
            free_set_block_addresses_blocks_acquired@.len() == 0
                && free_set_block_addresses_blocks_released@.len() == 0),
            ({
                let count = old(self).acquired().len();
                let acquired = decoded(chunks_of(encoded_blocks_acquired@), count);
                let released = decoded(chunks_of(encoded_blocks_released@), count);
                &&& is_decodable(chunks_of(encoded_blocks_acquired@), count)
                &&& is_decodable(chunks_of(encoded_blocks_released@), count)
                &&& forall|i: int| 0 <= i < count && #[trigger] released[i] ==> acquired[i]
                &&& are_free(acquired, free_set_block_addresses_blocks_acquired@)
                &&& are_free(
                    with_addresses(acquired, free_set_block_addresses_blocks_acquired@),
                    free_set_block_addresses_blocks_released@,
                )
            }),
            free_set_block_addresses_blocks_acquired@.len()
                + free_set_block_addresses_blocks_released@.len()
                <= old(self).blocks_released_prior_checkpoint_durability.capacity,
        ensures
            final(self).wf(),
            final(self).opened,
            !final(self).checkpoint_durable,
            final(self).acquired() == with_addresses(
                with_addresses(
                    decoded(chunks_of(encoded_blocks_acquired@), old(self).acquired().len()),
                    free_set_block_addresses_blocks_acquired@,
                ),
                free_set_block_addresses_blocks_released@,
            ),
            final(self).released() == decoded(
                chunks_of(encoded_blocks_released@),
                old(self).acquired().len(),
            ),
            final(self).prior() == blocks_at(free_set_block_addresses_blocks_acquired@)
                + blocks_at(free_set_block_addresses_blocks_released@),
            final(self).reservation_count == 0,
            final(self).reservation_session == old(self).reservation_session,
            final(self).same_limits(old(self)),
    {
        self.decode(BitsetKind::BlocksAcquired, encoded_blocks_acquired);
        self.decode(BitsetKind::BlocksReleased, encoded_blocks_released);
        self.mark_released(free_set_block_addresses_blocks_acquired);
        self.mark_released(free_set_block_addresses_blocks_released);
        self.opened = true;
        assert(Seq::<u64>::empty() + blocks_at(free_set_block_addresses_blocks_acquired@)
            =~= blocks_at(free_set_block_addresses_blocks_acquired@));
    }

    /// A free set for `blocks_count` blocks that is not open.
    #[must_use]
    pub fn init_empty(blocks_count: usize) -> (result: Self)
        requires
            blocks_count % SHARD_BITS == 0,
            blocks_count * BLOCK_SIZE <= usize::MAX,
        ensures
            result.wf(),
            !result.opened,
            !result.checkpoint_durable,
            result.is_pristine(),
            result.acquired().len() == blocks_count,
            result.blocks_count_limit == blocks_count,
            result.reservation_session == 1,
    {
        proof {
            assert(SHARD_BITS == 4096);
            assert(blocks_count % 4096 == 0);
            assert((blocks_count * 4096) / 4096 == blocks_count);
        }
        Self::new(blocks_count * BLOCK_SIZE, 0)
    }

    /// An open free set for `blocks_count` blocks, all of them free. The checkpoint is durable.
    #[must_use]
    pub fn open_empty(blocks_count: usize) -> (result: Self)
        requires
            blocks_count % SHARD_BITS == 0,
            blocks_count * BLOCK_SIZE <= usize::MAX,
        ensures
            result.wf(),
            result.opened,
            result.checkpoint_durable,
            result.is_pristine(),
            result.acquired().len() == blocks_count,
            result.blocks_count_limit == blocks_count,
            result.reservation_session == 1,
    {
        let mut set = Self::init_empty(blocks_count);
        let chunks: [&[u8]; 0] = [];
        let addresses: [u64; 0] = [];
        proof {
            lemma_nothing_encoded(blocks_count as nat);
            assert(chunks_of(chunks@) =~= Seq::<Seq<u8>>::empty());
        }
        set.open(&chunks, &chunks, &addresses, &addresses);
        set.checkpoint_durable = true;
        set
    }

    /// How many reservations were not forfeited.
    #[must_use]
    pub fn count_reservations(&self) -> (result: usize)
        requires
            self.opened,
        ensures
            result == self.reservation_count,
    {
        self.reservation_count
    }

    /// How many blocks are free.
    #[must_use]
    pub fn count_free(&self) -> (result: usize)
        requires
            self.wf(),
            self.opened,
        ensures
            result == self.acquired().len() - ones(self.acquired()),
    {
        proof {
            lemma_ones(self.acquired());
        }
        self.blocks_acquired.len() - self.blocks_acquired.count()
    }

    /// How many blocks are acquired.
    #[must_use]
    pub fn count_acquired(&self) -> (result: usize)
        requires
            self.wf(),
            self.opened,
        ensures
            result == ones(self.acquired()),
    {
        self.blocks_acquired.count()
    }

    /// How many blocks are released.
    #[must_use]
    pub fn count_released(&self) -> (result: usize)
        requires
            self.wf(),
            self.opened,
        ensures
            result == ones(self.released()) + self.prior().len(),
    {
        proof {
            lemma_ones_and_others(self.released(), self.prior());
        }
        self.blocks_released.count() + self.blocks_released_prior_checkpoint_durability.count()
    }

    /// The highest address that is acquired.
    #[must_use]
    pub fn highest_address_acquired(&self) -> (result: Option<u64>)
        requires
            self.wf(),
            self.opened,
        ensures
            match result {
                Some(address) => {
                    &&& 0 < address <= self.acquired().len()
                    &&& self.acquired()[address - 1]
                    &&& none_in(
                        self.acquired(),
                        address as int,
                        self.acquired().len() as int,
                        true,
                    )
                },
                None => none_set(self.acquired()),
            },
    {
        match self.blocks_acquired.highest() {
            Some(block) => Some(block as u64 + 1),
            None => None,
        }
    }

    /// The highest address that is released. If the checkpoint is not durable, blocks released
    /// since are left out.
    #[must_use]
    pub fn highest_address_released(&self) -> (result: Option<u64>)
        requires
            self.wf(),
            self.opened,
            none_set(self.released()) ==> self.prior().len() == 0,
        ensures
            match result {
                Some(address) => {
                    &&& 0 < address <= self.released().len()
                    &&& self.released()[address - 1]
                    &&& none_in(
                        self.released(),
                        address as int,
                        self.released().len() as int,
                        true,
                    )
                },
                None => none_set(self.released()),
            },
    {
        match self.blocks_released.highest() {
            Some(block) => Some(block as u64 + 1),
            None => None,
        }
    }

    /// Reserves free blocks, if there are as many. The reservation covers them, and acquired blocks
    /// between them. No block belongs to two reservations.
    pub fn reserve(&mut self, reserve_count: usize) -> (result: Option<Reservation>)
        requires
            old(self).wf(),
            old(self).opened,
            old(self).reservation_state == ReservationState::Reserving,
            reserve_count > 0,
        ensures
            final(self).wf(),
            final(self).same_blocks(old(self)),
            final(self).opened == old(self).opened,
            final(self).reservation_state == old(self).reservation_state,
            final(self).reservation_session == old(self).reservation_session,
            result is Some <==> free_in(
                old(self).acquired(),
                old(self).reservation_blocks as int,
                old(self).reservable(),
            ) >= reserve_count,
            match result {
                Some(reservation) => {
                    let end = reservation.block_base + reservation.block_count;
                    &&& reservation.block_base == old(self).reservation_blocks
                    &&& reservation.session == old(self).reservation_session
                    &&& reservation.block_count > 0
                    &&& end <= old(self).reservable()
                    &&& free_in(old(self).acquired(), reservation.block_base as int, end)
                        == reserve_count
                    &&& !old(self).acquired()[end - 1]
                    &&& final(self).reservation_blocks == end
                    &&& final(self).reservation_count == old(self).reservation_count + 1
                    &&& final(self).is_active(reservation)
                    &&& forall|other: Reservation| #[trigger]
                        old(self).is_active(other) ==> final(self).is_active(other) && disjoint(
                            other,
                            reservation,
                        )
                },
                None => {
                    &&& final(self).reservation_blocks == old(self).reservation_blocks
                    &&& final(self).reservation_count == old(self).reservation_count
                },
            },
    {
        let ghost acquired = self.acquired();
        let ghost start = self.reservation_blocks as int;
        let length: usize = self.blocks_acquired.len();
        let shard_first: usize = self.reservation_blocks / SHARD_BITS;
        let shard_start: usize = match find_bit(
            &self.index,
            shard_first,
            self.index.len(),
            BitKind::Zero,
        ) {
            Some(shard) => shard,
            None => {
                proof {
                    lemma_full_shards(
                        self.index@,
                        acquired,
                        shard_first as int,
                        self.index@.len() as int,
                    );
                    lemma_none_free(acquired, start, start, length as int);
                    lemma_free_in_monotonic(acquired, start, self.reservable(), length as int);
                }
                return None;
            },
        };
        proof {
            lemma_full_shards(self.index@, acquired, shard_first as int, shard_start as int);
        }
        let mut block: usize = shard_start * SHARD_BITS;
        if block < self.reservation_blocks {
            block = self.reservation_blocks;
        }
        proof {
            lemma_none_free(acquired, start, start, block as int);
        }
        let mut found: usize = 0;
        while found < reserve_count
            invariant
                self == old(self),
                self.wf(),
                self.opened,
                acquired == self.acquired(),
                start == self.reservation_blocks,
                length == acquired.len(),
                start <= block <= length,
                found <= reserve_count,
                free_in(acquired, start, block as int) == found,
                found > 0 ==> block > start && !acquired[block - 1] && block
                    <= self.blocks_count_limit,
            decreases reserve_count - found,
        {
            match find_bit(&self.blocks_acquired, block, length, BitKind::Zero) {
                Some(free) => {
                    proof {
                        lemma_none_free(acquired, start, block as int, free as int);
                        if free + 1 > self.blocks_count_limit {
                            lemma_free_in_monotonic(
                                acquired,
                                start,
                                self.reservable(),
                                free as int,
                            );
                        }
                    }
                    block = free + 1;
                    if block as u64 > self.blocks_count_limit {
                        return None;
                    }
                },
                None => {
                    proof {
                        lemma_none_free(acquired, start, block as int, length as int);
                        lemma_free_in_monotonic(acquired, start, self.reservable(), length as int);
                    }
                    return None;
                },
            }
            found = found + 1;
        }
        proof {
            lemma_free_in_monotonic(acquired, start, block as int, self.reservable());
        }
        let reservation = Reservation {
            block_base: self.reservation_blocks,
            block_count: block - self.reservation_blocks,
            session: self.reservation_session,
        };
        self.reservation_blocks = block;
        self.reservation_count = self.reservation_count + 1;
        Some(reservation)
    }

    /// The first block that cannot be reserved.
    pub open spec fn reservable(&self) -> int {
        if self.blocks_count_limit < self.acquired().len() {
            self.blocks_count_limit as int
        } else {
            self.acquired().len() as int
        }
    }

    /// Gives a reservation up. When it was the last one, blocks can be reserved again.
    pub fn forfeit(&mut self, reservation: Reservation)
        requires
            old(self).wf(),
            old(self).opened,
            old(self).reservation_session == reservation.session,
            old(self).reservation_count > 0,
        ensures
            final(self).wf(),
            final(self).same_blocks(old(self)),
            final(self).opened == old(self).opened,
            final(self).reservation_count == old(self).reservation_count - 1,
            if old(self).reservation_count == 1 {
                &&& final(self).reservation_blocks == 0
                &&& final(self).reservation_session == old(self).reservation_session.wrapping_add(1)
                &&& final(self).reservation_state == ReservationState::Reserving
            } else {
                &&& final(self).reservation_blocks == old(self).reservation_blocks
                &&& final(self).reservation_session == old(self).reservation_session
                &&& final(self).reservation_state == ReservationState::Forfeiting
            },
    {
        self.reservation_count = self.reservation_count - 1;
        if self.reservation_count == 0 {
            self.reservation_blocks = 0;
            self.reservation_session = self.reservation_session.wrapping_add(1);
            self.reservation_state = ReservationState::Reserving;
        } else {
            self.reservation_state = ReservationState::Forfeiting;
        }
    }

    /// Acquires the first free block of a reservation, and returns its address.
    pub fn acquire(&mut self, reservation: Reservation) -> (result: Option<u64>)
        requires
            old(self).wf(),
            old(self).opened,
            old(self).reservation_count > 0,
            old(self).is_active(reservation),
        ensures
            final(self).wf(),
            final(self).same_reservations(old(self)),
            final(self).released() == old(self).released(),
            final(self).prior() == old(self).prior(),
            final(self).checkpoint_durable == old(self).checkpoint_durable,
            match result {
                Some(address) => {
                    &&& address > 0
                    &&& is_first(
                        old(self).acquired(),
                        reservation.block_base as int,
                        reservation.block_base + reservation.block_count,
                        false,
                        address - 1,
                    )
                    &&& final(self).acquired() == old(self).acquired().update(address - 1, true)
                },
                None => {
                    &&& none_in(
                        old(self).acquired(),
                        reservation.block_base as int,
                        reservation.block_base + reservation.block_count,
                        false,
                    )
                    &&& final(self).acquired() == old(self).acquired()
                },
            },
    {
        let length: usize = self.blocks_acquired.len();
        let end: usize = reservation.block_base + reservation.block_count;
        let shard_first: usize = reservation.block_base / SHARD_BITS;
        let shard_end: usize = if end % SHARD_BITS == 0 {
            end / SHARD_BITS
        } else {
            end / SHARD_BITS + 1
        };
        let shard_start: usize = match find_bit(
            &self.index,
            shard_first,
            shard_end,
            BitKind::Zero,
        ) {
            Some(shard) => shard,
            None => {
                proof {
                    lemma_full_shards(
                        self.index@,
                        self.acquired(),
                        shard_first as int,
                        shard_end as int,
                    );
                }
                return None;
            },
        };
        proof {
            lemma_full_shards(
                self.index@,
                self.acquired(),
                shard_first as int,
                shard_start as int,
            );
        }
        let mut reservation_start: usize = shard_start * SHARD_BITS;
        if reservation_start < reservation.block_base {
            reservation_start = reservation.block_base;
        }
        match find_bit(&self.blocks_acquired, reservation_start, end, BitKind::Zero) {
            Some(block) => {
                self.mark_acquired(block);
                Some(block as u64 + 1)
            },
            None => None,
        }
    }

    /// Marks a free block as acquired.
    fn mark_acquired(&mut self, block: usize)
        requires
            old(self).wf(),
            block < old(self).acquired().len(),
            !old(self).acquired()[block as int],
        ensures
            final(self).wf(),
            final(self).acquired() == old(self).acquired().update(block as int, true),
            final(self).released() == old(self).released(),
            final(self).prior() == old(self).prior(),
            final(self).checkpoint_durable == old(self).checkpoint_durable,
            final(self).same_reservations(old(self)),
    {
        let ghost before = self.acquired();
        let ghost index = self.index@;
        let shard: usize = block / SHARD_BITS;
        self.blocks_acquired.set(block);
        proof {
            assert forall|other: int| 0 <= other < index.len() && other != shard implies shard_full(
                self.acquired(),
                other,
            ) == #[trigger] index[other] by {
                lemma_same_shard(before, self.acquired(), other);
            }
            assert(index[shard as int] == shard_full(before, shard as int));
            assert(!before[block as int]);
        }
        if self.find_free_block_in_shard(shard).is_none() {
            self.index.set(shard);
        }
    }

    /// The first free block of a shard.
    fn find_free_block_in_shard(&self, shard: usize) -> (result: Option<usize>)
        requires
            self.shape(),
            shard < self.index@.len(),
        ensures
            match result {
                Some(block) => is_first(
                    self.acquired(),
                    shard * 4096,
                    shard * 4096 + 4096,
                    false,
                    block as int,
                ),
                None => shard_full(self.acquired(), shard as int),
            },
            result is None <==> shard_full(self.acquired(), shard as int),
    {
        let length: usize = self.blocks_acquired.len();
        let shard_start: usize = shard * SHARD_BITS;
        find_bit(&self.blocks_acquired, shard_start, shard_start + SHARD_BITS, BitKind::Zero)
    }

    /// Whether the block at an address is free. A free set that is not open takes all blocks for
    /// acquired.
    #[must_use]
    pub fn is_free(&self, address: u64) -> (result: bool)
        requires
            self.wf(),
            self.opened ==> 0 < address <= self.acquired().len(),
        ensures
            result == (self.opened && !self.acquired()[address - 1]),
    {
        if self.opened {
            let length: usize = self.blocks_acquired.len();
            !self.blocks_acquired.get((address - 1) as usize)
        } else {
            false
        }
    }

    /// Whether the block at an address is released.
    #[must_use]
    pub fn is_released(&self, address: u64) -> (result: bool)
        requires
            self.wf(),
            self.opened,
            0 < address <= self.acquired().len(),
        ensures
            result == (self.released()[address - 1] || self.prior().contains((address - 1) as u64)),
    {
        let length: usize = self.blocks_released.len();
        let block: u64 = address - 1;
        self.blocks_released_prior_checkpoint_durability.contains(block)
            || self.blocks_released.get(block as usize)
    }

    /// Whether the block at an address is freed when the checkpoint becomes durable.
    #[must_use]
    pub fn to_be_freed_at_checkpoint_durability(&self, address: u64) -> (result: bool)
        requires
            self.wf(),
            self.opened,
            !self.checkpoint_durable,
            0 < address <= self.acquired().len(),
            self.acquired()[address - 1],
        ensures
            result == self.released()[address - 1],
    {
        let length: usize = self.blocks_released.len();
        self.blocks_released.get((address - 1) as usize)
    }

    /// Releases a block. It stays acquired until the next checkpoint is durable.
    pub fn release(&mut self, address: u64)
        requires
            old(self).wf(),
            old(self).opened,
            0 < address <= old(self).acquired().len(),
            old(self).acquired()[address - 1],
            !old(self).released()[address - 1],
            !old(self).prior().contains((address - 1) as u64),
            !old(self).checkpoint_durable ==> old(self).prior().len()
                < old(self).blocks_released_prior_checkpoint_durability.capacity,
        ensures
            final(self).wf(),
            final(self).same_reservations(old(self)),
            final(self).acquired() == old(self).acquired(),
            final(self).index@ == old(self).index@,
            final(self).checkpoint_durable == old(self).checkpoint_durable,
            if old(self).checkpoint_durable {
                &&& final(self).released() == old(self).released().update(address - 1, true)
                &&& final(self).prior() == old(self).prior()
            } else {
                &&& final(self).released() == old(self).released()
                &&& final(self).prior() == old(self).prior().push((address - 1) as u64)
            },
    {
        let length: usize = self.blocks_released.len();
        let block: u64 = address - 1;
        if self.checkpoint_durable {
            self.blocks_released.set(block as usize);
        } else {
            self.blocks_released_prior_checkpoint_durability.put_assume_capacity(block);
        }
    }

    /// Marks blocks that hold the free set itself as acquired, and released: the next checkpoint
    /// has other ones.
    fn mark_released(&mut self, addresses: &[u64])
        requires
            old(self).wf(),
            !old(self).opened,
            !old(self).checkpoint_durable,
            are_free(old(self).acquired(), addresses@),
            old(self).prior().len() + addresses@.len()
                <= old(self).blocks_released_prior_checkpoint_durability.capacity,
        ensures
            final(self).wf(),
            final(self).acquired() == with_addresses(old(self).acquired(), addresses@),
            final(self).released() == old(self).released(),
            final(self).prior() == old(self).prior() + blocks_at(addresses@),
            !final(self).checkpoint_durable,
            final(self).same_reservations(old(self)),
    {
        let ghost before = self.acquired();
        let ghost prior = self.prior();
        let length: usize = self.blocks_acquired.len();
        let mut i: usize = 0;
        proof {
            assert(with_addresses(before, addresses@.take(0)) =~= before);
            assert(prior + blocks_at(addresses@.take(0)) =~= prior);
        }
        while i < addresses.len()
            invariant
                self.wf(),
                !self.opened,
                !self.checkpoint_durable,
                i <= addresses@.len(),
                length == before.len(),
                are_free(before, addresses@),
                before.len() == self.acquired().len(),
                self.acquired() == with_addresses(before, addresses@.take(i as int)),
                self.released() == old(self).released(),
                self.prior() == prior + blocks_at(addresses@.take(i as int)),
                prior.len() + addresses@.len()
                    <= self.blocks_released_prior_checkpoint_durability.capacity,
                self.same_reservations(old(self)),
            decreases addresses@.len() - i,
        {
            let address: u64 = addresses[i];
            let ghost done = addresses@.take(i as int);
            let ghost now = addresses@.take(i + 1);
            proof {
                assert(addresses@[i as int] == address);
                assert forall|k: int| 0 <= k < done.len() implies #[trigger] done[k] != address by {
                    assert(addresses@[k] < addresses@[i as int]);
                }
                assert(!self.acquired()[address - 1]);
                assert forall|k: int| 0 <= k < self.prior().len() implies #[trigger] self.prior()[k]
                    != address - 1 by {}
            }
            self.mark_acquired((address - 1) as usize);
            self.blocks_released_prior_checkpoint_durability.put_assume_capacity(address - 1);
            proof {
                assert(now =~= done.push(address));
                assert forall|other: u64| #[trigger] now.contains(other) == (done.contains(other)
                    || other == address) by {
                    if done.contains(other) {
                        let m = choose|m: int| 0 <= m < done.len() && done[m] == other;
                        assert(now[m] == other);
                    }
                    assert(now[i as int] == address);
                }
                assert(self.acquired() =~= with_addresses(before, now));
                assert(self.prior() =~= prior + blocks_at(now));
            }
            i = i + 1;
        }
        assert(addresses@.take(addresses@.len() as int) =~= addresses@);
    }

    /// Frees a block that was released.
    pub fn free(&mut self, address: u64)
        requires
            old(self).wf(),
            old(self).opened,
            old(self).checkpoint_durable,
            0 < address <= old(self).acquired().len(),
            old(self).acquired()[address - 1],
            old(self).released()[address - 1],
            old(self).reservation_count == 0,
        ensures
            final(self).wf(),
            final(self).same_reservations(old(self)),
            final(self).acquired() == old(self).acquired().update(address - 1, false),
            final(self).released() == old(self).released().update(address - 1, false),
            final(self).prior() == old(self).prior(),
            final(self).checkpoint_durable == old(self).checkpoint_durable,
    {
        let ghost before = self.acquired();
        let ghost index = self.index@;
        let length: usize = self.blocks_acquired.len();
        let block: usize = (address - 1) as usize;
        let shard: usize = block / SHARD_BITS;
        self.index.unset(shard);
        self.blocks_acquired.unset(block);
        self.blocks_released.unset(block);
        proof {
            assert forall|other: int| 0 <= other < index.len() implies #[trigger] self.index@[other]
                == shard_full(self.acquired(), other) by {
                if other == shard {
                    assert(!self.acquired()[block as int]);
                } else {
                    assert(index[other] == shard_full(before, other));
                    lemma_same_shard(before, self.acquired(), other);
                }
            }
        }
    }

    /// A checkpoint was made that is not durable yet.
    pub fn mark_checkpoint_not_durable(&mut self)
        requires
            old(self).wf(),
            old(self).opened,
            old(self).checkpoint_durable,
        ensures
            final(self).wf(),
            final(self).same_reservations(old(self)),
            final(self).acquired() == old(self).acquired(),
            final(self).released() == old(self).released(),
            final(self).prior() == old(self).prior(),
            final(self).index@ == old(self).index@,
            !final(self).checkpoint_durable,
    {
        self.checkpoint_durable = false;
    }

    /// The checkpoint has become durable. The blocks released before it are free now, and those
    /// released since are to be freed at the next one.
    pub fn mark_checkpoint_durable(&mut self)
        requires
            old(self).wf(),
            old(self).opened,
            !old(self).checkpoint_durable,
            none_set(old(self).released()) || old(self).reservation_count == 0,
        ensures
            final(self).wf(),
            final(self).same_reservations(old(self)),
            final(self).checkpoint_durable,
            final(self).acquired() == Seq::new(
                old(self).acquired().len(),
                |i: int| old(self).acquired()[i] && !old(self).released()[i],
            ),
            final(self).released() == Seq::new(
                old(self).released().len(),
                |i: int| old(self).prior().contains(i as u64),
            ),
            final(self).prior().len() == 0,
    {
        let ghost acquired = self.acquired();
        let ghost released = self.released();
        let ghost prior = self.prior();
        let mut blocks: Vec<u64> = Vec::new();
        std::mem::swap(&mut blocks, &mut self.blocks_released_prior_checkpoint_durability.keys);
        self.checkpoint_durable = true;
        let length: usize = self.blocks_released.len();
        let mut block: usize = 0;
        while block < length
            invariant
                self.wf(),
                self.opened,
                self.checkpoint_durable,
                self.same_reservations(old(self)),
                none_set(released) || self.reservation_count == 0,
                self.prior().len() == 0,
                length == acquired.len() == released.len(),
                block <= length,
                self.acquired().len() == length,
                self.released().len() == length,
                forall|i: int|
                    0 <= i < length ==> #[trigger] self.acquired()[i] == (acquired[i] && !(
                    released[i] && i < block)),
                forall|i: int|
                    0 <= i < length ==> #[trigger] self.released()[i] == (released[i] && i
                        >= block),
                forall|i: int| 0 <= i < length && #[trigger] released[i] ==> acquired[i],
            decreases length - block,
        {
            if self.blocks_released.get(block) {
                assert(released[block as int]);
                self.free(block as u64 + 1);
            }
            block = block + 1;
        }
        let ghost freed = self.acquired();
        while blocks.len() > 0
            invariant
                self.wf(),
                self.opened,
                self.checkpoint_durable,
                self.same_reservations(old(self)),
                self.prior().len() == 0,
                length == acquired.len() == released.len(),
                self.acquired() == freed,
                freed.len() == length,
                self.released().len() == length,
                blocks@.len() <= prior.len(),
                blocks@ == prior.take(blocks@.len() as int),
                forall|i: int| 0 <= i < prior.len() ==> (#[trigger] prior[i]) < length,
                forall|i: int| 0 <= i < prior.len() ==> freed[(#[trigger] prior[i]) as int],
                forall|i: int|
                    0 <= i < length ==> #[trigger] self.released()[i] == prior.skip(
                        blocks@.len() as int,
                    ).contains(i as u64),
            decreases blocks@.len(),
        {
            let ghost later = prior.skip(blocks@.len() as int);
            let ghost last = blocks@.last();
            if let Some(block) = blocks.pop() {
                proof {
                    assert(prior[blocks@.len() as int] == block);
                }
                self.blocks_released.set(block as usize);
                proof {
                    let now = prior.skip(blocks@.len() as int);
                    assert(now =~= seq![block] + later);
                    assert forall|i: int| 0 <= i < length implies #[trigger] self.released()[i]
                        == now.contains(i as u64) by {
                        if later.contains(i as u64) {
                            let m = choose|m: int| 0 <= m < later.len() && later[m] == i as u64;
                            assert(now[m + 1] == i as u64);
                        }
                        assert(now[0] == block);
                    }
                    assert(blocks@ =~= prior.take(blocks@.len() as int));
                }
            }
        }
        proof {
            assert(prior.skip(0) =~= prior);
        }
    }

    /// How many bytes the encoding of a bit set takes up at most.
    #[must_use]
    pub fn encode_size_max(&self) -> (result: usize)
        requires
            self.wf(),
        ensures
            result == spec_encode_size_max(self.acquired().len() as int / 64),
    {
        let length: usize = self.blocks_acquired.len();
        encode_size_max(length / 64)
    }

    /// Sets the bits of the index.
    fn rebuild_index(&mut self)
        requires
            old(self).shape(),
            none_set(old(self).index@),
        ensures
            final(self).shape(),
            index_matches(final(self).index@, final(self).acquired()),
            final(self).acquired() == old(self).acquired(),
            final(self).released() == old(self).released(),
            final(self).prior() == old(self).prior(),
            final(self).checkpoint_durable == old(self).checkpoint_durable,
            final(self).same_reservations(old(self)),
            final(self).blocks_acquired == old(self).blocks_acquired,
            final(self).blocks_released == old(self).blocks_released,
    {
        let mut shard: usize = 0;
        while shard < self.index.len()
            invariant
                self.shape(),
                shard <= self.index@.len(),
                self.acquired() == old(self).acquired(),
                self.released() == old(self).released(),
                self.prior() == old(self).prior(),
                self.checkpoint_durable == old(self).checkpoint_durable,
                self.same_reservations(old(self)),
                self.blocks_acquired == old(self).blocks_acquired,
                self.blocks_released == old(self).blocks_released,
                forall|k: int|
                    0 <= k < shard ==> #[trigger] self.index@[k] == shard_full(self.acquired(), k),
                forall|k: int| shard <= k < self.index@.len() ==> !#[trigger] self.index@[k],
            decreases self.index@.len() - shard,
        {
            if self.find_free_block_in_shard(shard).is_none() {
                self.index.set(shard);
            }
            shard = shard + 1;
        }
    }

    /// Reads one of the bit sets.
    pub fn decode(&mut self, target_bitset: BitsetKind, source_chunks: &[&[u8]])
        requires
            old(self).wf(),
            !old(self).opened,
            !old(self).checkpoint_durable,
            old(self).prior().len() == 0,
            old(self).reservation_count == 0,
            is_decodable(chunks_of(source_chunks@), old(self).acquired().len()),
            match target_bitset {
                BitsetKind::BlocksAcquired => {
                    &&& none_set(old(self).acquired())
                    &&& none_set(old(self).released())
                },
                BitsetKind::BlocksReleased => {
                    &&& none_set(old(self).released())
                    &&& forall|i: int|
                        0 <= i < old(self).acquired().len() && #[trigger] decoded(
                            chunks_of(source_chunks@),
                            old(self).acquired().len(),
                        )[i] ==> old(self).acquired()[i]
                },
            },
        ensures
            final(self).wf(),
            final(self).same_reservations(old(self)),
            final(self).prior() == old(self).prior(),
            final(self).checkpoint_durable == old(self).checkpoint_durable,
            match target_bitset {
                BitsetKind::BlocksAcquired => {
                    &&& final(self).acquired() == decoded(
                        chunks_of(source_chunks@),
                        old(self).acquired().len(),
                    )
                    &&& final(self).released() == old(self).released()
                },
                BitsetKind::BlocksReleased => {
                    &&& final(self).released() == decoded(
                        chunks_of(source_chunks@),
                        old(self).acquired().len(),
                    )
                    &&& final(self).acquired() == old(self).acquired()
                },
            },
    {
        let length: usize = self.blocks_acquired.len();
        match target_bitset {
            BitsetKind::BlocksAcquired => {
                self.blocks_acquired = decode_bits(length, source_chunks);
                self.index = BitSet::new_empty(self.index.len());
                self.rebuild_index();
            },
            BitsetKind::BlocksReleased => {
                self.blocks_released = decode_bits(length, source_chunks);
            },
        }
    }

    /// Reads both bit sets into a free set without acquired blocks.
    pub fn decode_chunks(
        &mut self,
        source_chunks_blocks_acquired: &[&[u8]],
        source_chunks_blocks_released: &[&[u8]],
    )
        requires
            old(self).wf(),
            !old(self).opened,
            !old(self).checkpoint_durable,
            old(self).is_pristine(),
            is_decodable(chunks_of(source_chunks_blocks_acquired@), old(self).acquired().len()),
            is_decodable(chunks_of(source_chunks_blocks_released@), old(self).acquired().len()),
            ({
                let count = old(self).acquired().len();
                let acquired = decoded(chunks_of(source_chunks_blocks_acquired@), count);
                let released = decoded(chunks_of(source_chunks_blocks_released@), count);
                forall|i: int| 0 <= i < count && #[trigger] released[i] ==> acquired[i]
            }),
        ensures
            final(self).wf(),
            final(self).same_reservations(old(self)),
            final(self).prior() == old(self).prior(),
            final(self).checkpoint_durable == old(self).checkpoint_durable,
            final(self).acquired() == decoded(
                chunks_of(source_chunks_blocks_acquired@),
                old(self).acquired().len(),
            ),
            final(self).released() == decoded(
                chunks_of(source_chunks_blocks_released@),
                old(self).acquired().len(),
            ),
    {
        self.decode(BitsetKind::BlocksAcquired, source_chunks_blocks_acquired);
        self.decode(BitsetKind::BlocksReleased, source_chunks_blocks_released);
    }

    /// The words of a bit set.
    pub open spec fn words_of_kind(&self, kind: BitsetKind) -> Seq<u64> {
        match kind {
            BitsetKind::BlocksAcquired => self.blocks_acquired.words@,
            BitsetKind::BlocksReleased => self.blocks_released.words@,
        }
    }

    /// Writes one of the bit sets into chunks. Returns how many bytes count: zeroes at the end are
    /// left out, so that the encoding does not depend on how many blocks there are.
    pub fn encode_one(&self, source_bitset: BitsetKind, target_chunks: &mut Vec<Vec<u8>>) -> (result:
        usize)
        requires
            self.wf(),
            self.opened,
            self.checkpoint_durable,
            has_room(
                vec_chunks_of(old(target_chunks)@),
                encoded(self.words_of_kind(source_bitset)).len(),
            ),
        ensures
            final(target_chunks)@.len() == old(target_chunks)@.len(),
            forall|i: int|
                0 <= i < old(target_chunks)@.len() ==> (#[trigger] final(target_chunks)@[i])@.len()
                    == old(target_chunks)@[i]@.len(),
            result == 8 * trimmed(self.words_of_kind(source_bitset)).len(),
            result as int / 8 <= chunk_words(vec_chunks_of(final(target_chunks)@)).len(),
            chunk_words(vec_chunks_of(final(target_chunks)@)).take(result as int / 8) == trimmed(
                self.words_of_kind(source_bitset),
            ),
    {
        let words: &[u64] = match source_bitset {
            BitsetKind::BlocksAcquired => self.blocks_acquired.words(),
            BitsetKind::BlocksReleased => self.blocks_released.words(),
        };
        encode_words(words, target_chunks)
    }

    /// Writes both bit sets into chunks. Returns how many bytes of each count.
    pub fn encode_chunks(
        &self,
        target_chunks_blocks_acquired: &mut Vec<Vec<u8>>,
        target_chunks_blocks_released: &mut Vec<Vec<u8>>,
    ) -> (result: (usize, usize))
        requires
            self.wf(),
            self.opened,
            self.checkpoint_durable,
            self.reservation_count == 0,
            has_room(
                vec_chunks_of(old(target_chunks_blocks_acquired)@),
                encoded(self.blocks_acquired.words@).len(),
            ),
            has_room(
                vec_chunks_of(old(target_chunks_blocks_released)@),
                encoded(self.blocks_released.words@).len(),
            ),
        ensures
            result.0 == 8 * trimmed(self.blocks_acquired.words@).len(),
            result.1 == 8 * trimmed(self.blocks_released.words@).len(),
            chunk_words(vec_chunks_of(final(target_chunks_blocks_acquired)@)).take(
                result.0 as int / 8,
            ) == trimmed(self.blocks_acquired.words@),
            chunk_words(vec_chunks_of(final(target_chunks_blocks_released)@)).take(
                result.1 as int / 8,
            ) == trimmed(self.blocks_released.words@),
    {
        let acquired: usize = self.encode_one(
            BitsetKind::BlocksAcquired,
            target_chunks_blocks_acquired,
        );
        let released: usize = self.encode_one(
            BitsetKind::BlocksReleased,
            target_chunks_blocks_released,
        );
        (acquired, released)
    }
}

/// Chunks of bytes.
pub open spec fn chunks_of(chunks: Seq<&[u8]>) -> Seq<Seq<u8>> {
    Seq::new(chunks.len(), |i: int| chunks[i]@)
}

/// Chunks of bytes.
pub open spec fn vec_chunks_of(chunks: Seq<Vec<u8>>) -> Seq<Seq<u8>> {
    Seq::new(chunks.len(), |i: int| chunks[i]@)
}

/// The blocks that hold a trailer.
fn checkpoint_trailer_block_count_for_trailer_size(trailer_size: usize) -> (result: usize)
    ensures
        result == (trailer_size + BLOCK_SIZE - 1) / (BLOCK_SIZE as int),
{
    if trailer_size % BLOCK_SIZE == 0 {
        trailer_size / BLOCK_SIZE
    } else {
        trailer_size / BLOCK_SIZE + 1
    }
}

/// Blocks that are not set, each named once, and those that are set are no more than all blocks.
proof fn lemma_ones_and_others(blocks: Seq<bool>, others: Seq<u64>)
    requires
        others.no_duplicates(),
        forall|i: int|
            0 <= i < others.len() ==> (#[trigger] others[i]) < blocks.len()
                && !blocks[others[i] as int],
    ensures
        ones(blocks) + others.len() <= blocks.len(),
    decreases others.len(),
{
    if others.len() == 0 {
        lemma_ones(blocks);
    } else {
        let block = others.last() as int;
        let rest = others.drop_last();
        let more = blocks.update(block, true);
        lemma_ones_update(blocks, block, true);
        assert forall|i: int| 0 <= i < rest.len() implies (#[trigger] rest[i]) < more.len()
            && !more[rest[i] as int] by {
            assert(rest[i] == others[i]);
        }
        lemma_ones_and_others(more, rest);
    }
}

/// Where no block is acquired, no shard is full.
proof fn lemma_nothing_full(index: Seq<bool>, acquired: Seq<bool>)
    requires
        index.len() * 4096 == acquired.len(),
        forall|i: int| 0 <= i < acquired.len() ==> !#[trigger] acquired[i],
        forall|i: int| 0 <= i < index.len() ==> !#[trigger] index[i],
    ensures
        index_matches(index, acquired),
{
    assert forall|shard: int| 0 <= shard < index.len() implies #[trigger] index[shard]
        == shard_full(acquired, shard) by {
        assert(!acquired[shard * 4096]);
    }
}

/// Whether a shard is full depends on its own blocks alone.
proof fn lemma_same_shard(before: Seq<bool>, after: Seq<bool>, shard: int)
    requires
        forall|i: int|
            shard * 4096 <= i < shard * 4096 + 4096 ==> #[trigger] after[i] == before[i],
    ensures
        shard_full(after, shard) == shard_full(before, shard),
{
    if shard_full(before, shard) {
        assert forall|i: int| shard * 4096 <= i < shard * 4096 + 4096 implies #[trigger] after[i]
            != false by {
            assert(before[i] != false);
        }
    }
    if shard_full(after, shard) {
        assert forall|i: int| shard * 4096 <= i < shard * 4096 + 4096 implies #[trigger] before[i]
            != false by {
            assert(after[i] != false);
        }
    }
}

/// No chunks stand for no blocks.
proof fn lemma_nothing_encoded(count: nat)
    requires
        count % 4096 == 0,
    ensures
        is_decodable(Seq::empty(), count),
        decoded(Seq::empty(), count).len() == count,
        forall|i: int| 0 <= i < count ==> !#[trigger] decoded(Seq::empty(), count)[i],
{
    let words = expanded(chunk_words(Seq::empty()));
    assert(chunk_words(Seq::empty()) == Seq::<u64>::empty());
    assert(words == Seq::<u64>::empty());
    let zeroes = words + repeated(0, count / 64 - words.len());
    assert(zeroes.len() == count / 64);
    assert(decoded(Seq::empty(), count) == bits_of(zeroes, count));
    assert forall|i: int| 0 <= i < count implies !#[trigger] decoded(Seq::empty(), count)[i] by {
        let shift = (i % 64) as u64;
        assert((0u64 >> shift) & 1 != 1) by (bit_vector);
        assert(zeroes[i / 64] == 0);
    }
}

/// Reading what was written gives the blocks back, also into a bit set of another size, as long as
/// all the blocks that are set fit.
pub proof fn law_decode_restores_blocks(words: Seq<u64>, chunks: Seq<Seq<u8>>, count: nat)
    requires
        count % 64 == 0,
        whole_words(chunks),
        chunk_words(chunks) == trimmed(words),
        expanded(trimmed(words)).len() <= count / 64,
    ensures
        is_decodable(chunks, count),
        forall|i: int|
            0 <= i < count ==> #[trigger] decoded(chunks, count)[i] == (i / 64 < words.len() && bit(
                words[i / 64],
                (i % 64) as u64,
            )),
        count == 64 * words.len() ==> decoded(chunks, count) == bits_of(words, count),
{
    law_decode_undoes_encode(words);
    let known = expanded(trimmed(words));
    assert forall|i: int| 0 <= i < count implies #[trigger] decoded(chunks, count)[i] == (i / 64
        < words.len() && bit(words[i / 64], (i % 64) as u64)) by {
        let place = i / 64;
        let shift = (i % 64) as u64;
        assert((0u64 >> shift) & 1 != 1) by (bit_vector);
        if place < known.len() {
            assert(words[place] == known[place]);
        } else if place < words.len() {
            assert(words[place] == repeated(0, words.len() - known.len())[place - known.len()]);
        }
    }
    if count == 64 * words.len() {
        assert(decoded(chunks, count) =~= bits_of(words, count));
    }
}

/// Reads a bit set.
fn decode_bits(bit_length: usize, source_chunks: &[&[u8]]) -> (result: BitSet)
    requires
        bit_length % 4096 == 0,
        bit_length + 63 <= usize::MAX,
        is_decodable(chunks_of(source_chunks@), bit_length as nat),
    ensures
        result.wf(),
        result@ == decoded(chunks_of(source_chunks@), bit_length as nat),
        result.words@ == expanded(chunk_words(chunks_of(source_chunks@))) + repeated(
            0,
            bit_length as int / 64 - expanded(chunk_words(chunks_of(source_chunks@))).len(),
        ),
{
    let mut result = BitSet::new_empty(bit_length);
    let ghost before = result.words@;
    let _ = ewah::decode(source_chunks, &mut result.words);
    proof {
        let words = expanded(chunk_words(chunks_of(source_chunks@)));
        assert(before.skip(words.len() as int) =~= repeated(
            0,
            bit_length as int / 64 - words.len(),
        ));
        assert(result@ =~= decoded(chunks_of(source_chunks@), bit_length as nat));
    }
    result
}

/// Writes words into chunks. Returns how many bytes count.
fn encode_words(words: &[u64], target_chunks: &mut Vec<Vec<u8>>) -> (result: usize)
    requires
        spec_encode_size_max(words@.len() as int) <= usize::MAX,
        has_room(vec_chunks_of(old(target_chunks)@), encoded(words@).len()),
    ensures
        final(target_chunks)@.len() == old(target_chunks)@.len(),
        forall|i: int|
            0 <= i < old(target_chunks)@.len() ==> (#[trigger] final(target_chunks)@[i])@.len()
                == old(target_chunks)@[i]@.len(),
        result == 8 * trimmed(words@).len(),
        result as int / 8 <= chunk_words(vec_chunks_of(final(target_chunks)@)).len(),
        chunk_words(vec_chunks_of(final(target_chunks)@)).take(result as int / 8) == trimmed(
            words@,
        ),
{
    let ghost code = encoded(words@);
    let ghost before = vec_chunks_of(target_chunks@);
    let ghost mut done: int = 0;
    let count: usize = target_chunks.len();
    let mut encoder = Encoder::new(words);
    let mut total: usize = 0;
    let mut i: usize = 0;
    proof {
        assert(before.take(0) =~= Seq::<Seq<u8>>::empty());
        assert(code.skip(0) =~= code);
        assert(code.take(0) =~= Seq::<u64>::empty());
        law_encoding_fits(words@);
        reveal(room);
    }
    loop
        invariant_except_break
            encoder.wf(),
            encoder.trailing() == trailing_zero_runs(words@, 0),
            before == vec_chunks_of(old(target_chunks)@),
            room(before, code.len()),
            code.len() * 8 <= usize::MAX,
            target_chunks@.len() == before.len() == count,
            i <= before.len(),
            forall|k: int|
                0 <= k < before.len() ==> (#[trigger] target_chunks@[k])@.len() == before[k].len(),
            total == 8 * done,
            0 <= done < code.len(),
            encoder.pending() == code.skip(done),
            chunk_words(vec_chunks_of(target_chunks@).take(i as int)) == code.take(done),
            chunk_words(before.take(i as int)).len() == done,
        ensures
            encoder.wf(),
            encoder.trailing() == trailing_zero_runs(words@, 0),
            encoder.pending().len() == 0,
            total == 8 * code.len(),
            target_chunks@.len() == before.len(),
            forall|k: int|
                0 <= k < before.len() ==> (#[trigger] target_chunks@[k])@.len() == before[k].len(),
            code.len() <= chunk_words(vec_chunks_of(target_chunks@)).len(),
            chunk_words(vec_chunks_of(target_chunks@)).take(code.len() as int) == code,
        decreases code.len() - done,
    {
        let ghost prior = vec_chunks_of(target_chunks@);
        proof {
            lemma_room(before, code.len(), i as int);
            assert(before[i as int].len() == target_chunks@[i as int]@.len());
        }
        let bytes_encoded: usize = encoder.encode_chunk(&mut target_chunks[i]);
        let ghost now = vec_chunks_of(target_chunks@);
        let ghost written = bytes_encoded as int / 8;
        proof {
            assert(now =~= prior.update(i as int, now[i as int]));
            lemma_chunk_written(before, prior, now, i as int, code, done, written);
        }
        total = total + bytes_encoded;
        i = i + 1;
        proof {
            done = done + written;
        }
        if encoder.done() {
            break;
        }
    }
    proof {
        lemma_trimmed(words@, 0);
        let all = chunk_words(vec_chunks_of(target_chunks@));
        let count = code.len() - trailing_zero_runs(words@, 0);
        assert(all.take(count) =~= code.take(count));
    }
    total - encoder.trailing_zero_runs_count() * 8
}

/// Whether chunks have room for the words of an encoding.
#[verifier::opaque]
spec fn room(chunks: Seq<Seq<u8>>, count: nat) -> bool {
    has_room(chunks, count)
}

/// As long as the encoding is not complete, there is a chunk that is not full.
proof fn lemma_room(chunks: Seq<Seq<u8>>, count: nat, i: int)
    requires
        room(chunks, count),
        0 <= i <= chunks.len(),
        chunk_words(chunks.take(i)).len() < count,
    ensures
        i < chunks.len(),
        chunks[i].len() > 0,
        chunks[i].len() % 8 == 0,
{
    reveal(room);
    if i == chunks.len() {
        assert(chunks.take(i) =~= chunks);
    }
}

/// Chunks hold what was written into them.
proof fn lemma_chunk_written(
    before: Seq<Seq<u8>>,
    prior: Seq<Seq<u8>>,
    now: Seq<Seq<u8>>,
    i: int,
    code: Seq<u64>,
    done: int,
    written: int,
)
    requires
        before.len() == prior.len() == now.len(),
        0 <= i < now.len(),
        now == prior.update(i, now[i]),
        before[i].len() == now[i].len(),
        0 <= done <= code.len(),
        0 <= written <= code.len() - done,
        chunk_words(prior.take(i)) == code.take(done),
        chunk_words(before.take(i)).len() == done,
        words_of(now[i]) == code.skip(done).take(written) + repeated(
            0,
            now[i].len() as int / 8 - written,
        ),
        written <= now[i].len() as int / 8,
        written < now[i].len() as int / 8 ==> done + written == code.len(),
    ensures
        code.skip(done).skip(written) == code.skip(done + written),
        done + written < code.len() ==> chunk_words(now.take(i + 1)) == code.take(done + written)
            && chunk_words(before.take(i + 1)).len() == done + written,
        done + written == code.len() ==> code.len() <= chunk_words(now).len() && chunk_words(
            now,
        ).take(code.len() as int) == code,
{
    let chunk = words_of(now[i]);
    assert(now.take(i) =~= prior.take(i));
    lemma_chunk_words(now, i);
    lemma_chunk_words(before, i);
    assert(code.skip(done).skip(written) =~= code.skip(done + written));
    let upto = chunk_words(now.take(i + 1));
    assert(upto == code.take(done) + chunk);
    assert(upto.take(done + written) =~= code.take(done + written));
    if done + written < code.len() {
        assert(upto =~= code.take(done + written));
    } else {
        let all = chunk_words(now);
        assert(all.take(code.len() as int) =~= all.take(upto.len() as int).take(code.len() as int));
        assert(code.take(code.len() as int) =~= code);
    }
}

/// The first free block is the one with the lowest number, and there is none where all blocks are
/// acquired.
pub proof fn law_first_free_block_is_the_lowest(
    acquired: Seq<bool>,
    start: int,
    end: int,
    block: int,
    other: int,
)
    requires
        0 <= start <= other < end <= acquired.len(),
        !acquired[other],
    ensures
        is_first(acquired, start, end, false, block) ==> start <= block <= other
            && !acquired[block],
        !none_in(acquired, start, end, false),
{
}

/// The free blocks of a range are those that are not acquired.
pub proof fn law_free_blocks_are_counted(acquired: Seq<bool>, start: int, end: int)
    requires
        0 <= start <= end <= acquired.len(),
    ensures
        free_in(acquired, start, end) == acquired.subrange(start, end).filter(|b: bool| !b).len(),
    decreases end - start,
{
    reveal(Seq::filter);
    if start < end {
        law_free_blocks_are_counted(acquired, start, end - 1);
        assert(acquired.subrange(start, end).drop_last() =~= acquired.subrange(start, end - 1));
        assert(acquired.subrange(start, end).last() == acquired[end - 1]);
    }
}

/// Addresses start at one: the block at an address has the number before it.
pub proof fn law_addresses_start_at_one(blocks: Seq<bool>, addresses: Seq<u64>, i: int)
    requires
        0 <= i < addresses.len(),
        0 < addresses[i] <= blocks.len() <= 0xffff_ffff_ffff_ffff,
    ensures
        blocks_at(addresses).len() == addresses.len(),
        blocks_at(addresses)[i] == addresses[i] - 1,
        with_addresses(blocks, addresses).len() == blocks.len(),
        with_addresses(blocks, addresses)[addresses[i] - 1],
        forall|block: int|
            0 <= block < blocks.len() && blocks[block] ==> #[trigger] with_addresses(
                blocks,
                addresses,
            )[block],
{
    assert(addresses.contains((addresses[i] - 1 + 1) as u64));
}

/// The blocks of a grid are rounded up to whole shards of 4096.
pub proof fn law_blocks_fill_whole_shards(grid_size_limit: usize)
    ensures
        ({
            let blocks = grid_size_limit as int / 4096;
            let count = FreeSet::spec_block_count_max(grid_size_limit);
            &&& count % 4096 == 0
            &&& blocks <= count < blocks + 4096
        }),
{
}

/// Bits are counted from the least significant of the first word on.
pub proof fn law_bits_are_counted_from_the_lowest(words: Seq<u64>, count: nat, i: int)
    requires
        0 <= i < count,
    ensures
        bits_of(words, count).len() == count,
        bits_of(words, count)[i] <==> words[i / 64] as int / pow2((i % 64) as nat) as int % 2 == 1,
{
    let word = words[i / 64];
    let place = (i % 64) as u64;
    lemma_u64_shr_is_div(word, place);
    let shifted = word >> place;
    assert(shifted & 1 == shifted % 2) by (bit_vector);
}

} // verus!
