//! Small unsigned integers, packed into words.

use vstd::prelude::*;

verus! {

/// How many words hold `size_bytes` bytes.
pub open spec fn words_for(size_bytes: int) -> int {
    (size_bytes + 7) / 8
}

/// The greatest integer of some bits.
pub open spec fn mask_of(bits_per_uint: u32) -> u64 {
    ((1u64 << bits_per_uint) - 1) as u64
}

/// The integer at a bit of a word.
pub open spec fn slot(word: u64, bit: u32, mask: u64) -> u64 {
    (word >> bit) & mask
}

/// A word with another integer at a bit.
pub open spec fn with_slot(word: u64, bit: u32, mask: u64, value: u64) -> u64 {
    (word & !(mask << bit)) | (value << bit)
}

/// The integers of a word are one, two or four bits wide.
pub open spec fn is_width(bits_per_uint: u32) -> bool {
    bits_per_uint == 1 || bits_per_uint == 2 || bits_per_uint == 4
}

proof fn lemma_same_slot(word: u64, bits: u32, bit: u32, mask: u64, value: u64)
    requires
        is_width(bits),
        bit + bits <= 64,
        mask == mask_of(bits),
        value <= mask,
    ensures
        slot(with_slot(word, bit, mask, value), bit, mask) == value,
{
    assert((((word & !(mask << bit)) | (value << bit)) >> bit) & mask == value) by (bit_vector)
        requires
            bits == 1 || bits == 2 || bits == 4,
            bit + bits <= 64,
            mask == ((1u64 << bits) - 1) as u64,
            value <= mask,
    ;
}

proof fn lemma_other_slot(word: u64, bits: u32, bit: u32, other: u32, mask: u64, value: u64)
    requires
        is_width(bits),
        bit + bits <= 64,
        other + bits <= 64,
        bit + bits <= other || other + bits <= bit,
        mask == mask_of(bits),
        value <= mask,
    ensures
        slot(with_slot(word, bit, mask, value), other, mask) == slot(word, other, mask),
{
    assert((((word & !(mask << bit)) | (value << bit)) >> other) & mask == (word >> other) & mask)
        by (bit_vector)
        requires
            bits == 1 || bits == 2 || bits == 4,
            bit + bits <= 64,
            other + bits <= 64,
            bit + bits <= other || other + bits <= bit,
            mask == ((1u64 << bits) - 1) as u64,
            value <= mask,
    ;
}

/// What a mask is, and what it lets through.
pub proof fn lemma_mask(bits: u32)
    requires
        is_width(bits),
    ensures
        mask_of(bits) == if bits == 1 {
            1u64
        } else if bits == 2 {
            3u64
        } else {
            15u64
        },
        forall|word: u64, bit: u32| #[trigger] slot(word, bit, mask_of(bits)) <= mask_of(bits),
        forall|bit: u32| #[trigger] slot(0, bit, mask_of(bits)) == 0,
{
    assert(((1u64 << 1u32) - 1) as u64 == 1 && ((1u64 << 2u32) - 1) as u64 == 3 && ((1u64 << 4u32)
        - 1) as u64 == 15) by (bit_vector);
    assert forall|word: u64, bit: u32| #[trigger]
        slot(word, bit, mask_of(bits)) <= mask_of(bits) by {
        let mask = mask_of(bits);
        let shifted = word >> bit;
        assert(shifted & mask <= mask) by (bit_vector);
    }
    assert forall|bit: u32| #[trigger] slot(0, bit, mask_of(bits)) == 0 by {
        let mask = mask_of(bits);
        assert((0u64 >> bit) & mask == 0) by (bit_vector);
    }
}

/// Small unsigned integers, packed into words.
pub struct PackedUnsignedIntegerArray {
    pub bits_per_uint: u32,
    pub words: Vec<u64>,
}

impl View for PackedUnsignedIntegerArray {
    type V = Seq<u64>;

    open spec fn view(&self) -> Seq<u64> {
        Seq::new(
            (self.words@.len() * self.per_word()) as nat,
            |i: int|
                slot(
                    self.words@[i / self.per_word()],
                    self.bit(i) as u32,
                    mask_of(self.bits_per_uint),
                ),
        )
    }
}

impl PackedUnsignedIntegerArray {
    pub open spec fn wf(&self) -> bool {
        &&& is_width(self.bits_per_uint)
        &&& self.words@.len() * self.per_word() <= u64::MAX
    }

    /// How many integers a word holds.
    pub open spec fn per_word(&self) -> int {
        64int / (self.bits_per_uint as int)
    }

    /// Where an integer starts in its word.
    pub open spec fn bit(&self, index: int) -> int {
        (index % self.per_word()) * self.bits_per_uint
    }

    proof fn lemma_place(&self, index: int)
        requires
            is_width(self.bits_per_uint),
            0 <= index < self.words@.len() * self.per_word(),
        ensures
            0 <= index / self.per_word() < self.words@.len() <= usize::MAX,
            0 <= self.bit(index),
            self.bit(index) + self.bits_per_uint <= 64,
    {
        let per_word = self.per_word();
        let words = self.words@.len() as int;
        assert(0 <= index / per_word < words) by (nonlinear_arith)
            requires
                0 <= index < words * per_word,
                per_word > 0,
        ;
        assert(0 <= index % per_word < per_word);
        assert(self.words@.len() == self.words.len());
    }

    /// No integer is greater than the mask.
    pub proof fn lemma_bounded(&self)
        requires
            self.wf(),
        ensures
            forall|i: int|
                0 <= i < self@.len() ==> #[trigger] self@[i] <= mask_of(self.bits_per_uint),
    {
        lemma_mask(self.bits_per_uint);
    }

    /// Zeros that take up `size_bytes` bytes.
    #[must_use]
    pub fn new(bits_per_uint: u32, size_bytes: u64) -> (result: Self)
        requires
            is_width(bits_per_uint),
            size_bytes <= usize::MAX,
            size_bytes * 8 + 64 <= u64::MAX,
        ensures
            result.wf(),
            result.bits_per_uint == bits_per_uint,
            result.words@.len() == words_for(size_bytes as int),
            forall|i: int| 0 <= i < result.words@.len() ==> #[trigger] result.words@[i] == 0,
            forall|i: int| 0 <= i < result@.len() ==> #[trigger] result@[i] == 0,
    {
        let count: usize = if size_bytes % 8 == 0 {
            (size_bytes / 8) as usize
        } else {
            (size_bytes / 8) as usize + 1
        };
        let mut words: Vec<u64> = Vec::new();
        while words.len() < count
            invariant
                words@.len() <= count,
                forall|i: int| 0 <= i < words@.len() ==> #[trigger] words@[i] == 0,
            decreases count - words@.len(),
        {
            words.push(0);
        }
        let result = PackedUnsignedIntegerArray { bits_per_uint, words };
        proof {
            lemma_mask(bits_per_uint);
            let per_word = result.per_word();
            assert(count * per_word <= count * 64) by (nonlinear_arith)
                requires
                    per_word <= 64,
            ;
            assert forall|i: int| 0 <= i < result@.len() implies #[trigger] result@[i] == 0 by {
                result.lemma_place(i);
            }
        }
        result
    }

    /// Makes all integers zero.
    pub fn reset(&mut self)
        requires
            old(self).wf(),
        ensures
            final(self).wf(),
            final(self).bits_per_uint == old(self).bits_per_uint,
            final(self).words@.len() == old(self).words@.len(),
            forall|i: int| 0 <= i < final(self).words@.len() ==> #[trigger] final(self).words@[i] == 0,
            final(self)@.len() == old(self)@.len(),
            forall|i: int| 0 <= i < final(self)@.len() ==> #[trigger] final(self)@[i] == 0,
    {
        let mut i: usize = 0;
        while i < self.words.len()
            invariant
                i <= self.words@.len(),
                self.words@.len() == old(self).words@.len(),
                self.bits_per_uint == old(self).bits_per_uint,
                forall|k: int| 0 <= k < i ==> #[trigger] self.words@[k] == 0,
            decreases self.words@.len() - i,
        {
            self.words[i] = 0;
            i = i + 1;
        }
        proof {
            lemma_mask(self.bits_per_uint);
            assert forall|i: int| 0 <= i < self@.len() implies #[trigger] self@[i] == 0 by {
                self.lemma_place(i);
            }
        }
    }

    /// How many integers a word holds.
    fn uints_per_word(&self) -> (result: u64)
        requires
            self.wf(),
        ensures
            result == self.per_word(),
    {
        64 / (self.bits_per_uint as u64)
    }

    /// The greatest integer.
    #[must_use]
    pub fn mask(&self) -> (result: u64)
        requires
            self.wf(),
        ensures
            result == mask_of(self.bits_per_uint),
            result == if self.bits_per_uint == 1 {
                1u64
            } else if self.bits_per_uint == 2 {
                3u64
            } else {
                15u64
            },
    {
        proof {
            lemma_mask(self.bits_per_uint);
        }
        match self.bits_per_uint {
            1 => 1,
            2 => 3,
            _ => 15,
        }
    }

    /// The integer at `index`.
    #[must_use]
    pub fn get(&self, index: u64) -> (result: u64)
        requires
            self.wf(),
            index < self@.len(),
        ensures
            result == self@[index as int],
            result <= mask_of(self.bits_per_uint),
    {
        proof {
            self.lemma_place(index as int);
            lemma_mask(self.bits_per_uint);
        }
        let bit: u32 = self.bits_index(index);
        (self.word(index) >> bit) & self.mask()
    }

    /// Replaces the integer at `index`.
    pub fn set(&mut self, index: u64, value: u64)
        requires
            old(self).wf(),
            index < old(self)@.len(),
            value <= mask_of(old(self).bits_per_uint),
        ensures
            final(self).wf(),
            final(self).bits_per_uint == old(self).bits_per_uint,
            final(self)@ == old(self)@.update(index as int, value),
    {
        let ghost before = *self;
        let ghost bits = self.bits_per_uint;
        let ghost per_word = self.per_word();
        proof {
            self.lemma_place(index as int);
            lemma_mask(bits);
        }
        let mask: u64 = self.mask();
        let bit: u32 = self.bits_index(index);
        let place: usize = (index / self.uints_per_word()) as usize;
        let word: u64 = self.words[place];
        self.words[place] = (word & !(mask << bit)) | (value << bit);
        proof {
            assert forall|i: int| 0 <= i < self@.len() implies #[trigger] self@[i]
                == before@.update(index as int, value)[i] by {
                before.lemma_place(i);
                let other = before.bit(i) as u32;
                if i == index {
                    lemma_same_slot(word, bits, bit, mask, value);
                } else if i / per_word == (index as int) / per_word {
                    assert(i % per_word != (index as int) % per_word) by (nonlinear_arith)
                        requires
                            i / per_word == (index as int) / per_word,
                            i != index,
                            per_word > 0,
                    ;
                    lemma_other_slot(word, bits, bit, other, mask, value);
                }
            }
            assert(self@ =~= before@.update(index as int, value));
        }
    }

    fn word(&self, index: u64) -> (result: u64)
        requires
            self.wf(),
            index < self@.len(),
        ensures
            result == self.words@[(index as int) / self.per_word()],
    {
        proof {
            self.lemma_place(index as int);
        }
        self.words[(index / self.uints_per_word()) as usize]
    }

    /// Where the integer at `index` starts in its word.
    fn bits_index(&self, index: u64) -> (result: u32)
        requires
            self.wf(),
            index < self@.len(),
        ensures
            result == self.bit(index as int),
            result + self.bits_per_uint <= 64,
    {
        proof {
            self.lemma_place(index as int);
        }
        (index % self.uints_per_word()) as u32 * self.bits_per_uint
    }
}

} // verus!
