//! Bits, packed into words.

use vstd::prelude::*;

verus! {

/// The bits of a word.
pub const WORD_BITS: usize = 64;

/// Whether a bit is looked for that is set, or one that is not.
#[derive(Clone, Copy, Debug, PartialEq, Eq, Structural)]
pub enum BitKind {
    One,
    Zero,
}

/// A bit of a word.
pub open spec fn bit(word: u64, i: u64) -> bool {
    (word >> i) & 1 == 1
}

/// How many bits are set.
pub open spec fn ones(bits: Seq<bool>) -> nat
    decreases bits.len(),
{
    if bits.len() == 0 {
        0
    } else {
        ones(bits.drop_last()) + if bits.last() {
            1nat
        } else {
            0nat
        }
    }
}

/// There are at most as many ones as bits, and none only if all bits are zero.
pub proof fn lemma_ones(bits: Seq<bool>)
    ensures
        ones(bits) <= bits.len(),
        ones(bits) == 0 <==> forall|i: int| 0 <= i < bits.len() ==> !#[trigger] bits[i],
    decreases bits.len(),
{
    if bits.len() > 0 {
        let front = bits.drop_last();
        lemma_ones(front);
        if ones(bits) == 0 {
            assert forall|i: int| 0 <= i < bits.len() implies !#[trigger] bits[i] by {
                if i < front.len() {
                    assert(!front[i]);
                }
            }
        } else if forall|i: int| 0 <= i < bits.len() ==> !#[trigger] bits[i] {
            assert forall|i: int| 0 <= i < front.len() implies !#[trigger] front[i] by {
                assert(!bits[i]);
            }
            assert(!bits[bits.len() - 1]);
        }
    }
}

/// What changing a bit does to the number of ones.
pub proof fn lemma_ones_update(bits: Seq<bool>, i: int, value: bool)
    requires
        0 <= i < bits.len(),
    ensures
        ones(bits.update(i, value)) == ones(bits) + (if value {
            1int
        } else {
            0int
        }) - (if bits[i] {
            1int
        } else {
            0int
        }),
    decreases bits.len(),
{
    let after = bits.update(i, value);
    if i == bits.len() - 1 {
        assert(after.drop_last() =~= bits.drop_last());
    } else {
        assert(after.drop_last() =~= bits.drop_last().update(i, value));
        lemma_ones_update(bits.drop_last(), i, value);
    }
}

/// The first bit of a kind from `min` up to but not at `max`.
pub open spec fn is_first(bits: Seq<bool>, min: int, max: int, value: bool, i: int) -> bool {
    &&& min <= i < max
    &&& bits[i] == value
    &&& forall|k: int| min <= k < i ==> #[trigger] bits[k] != value
}

/// No bit is of a kind from `min` up to but not at `max`.
pub open spec fn none_in(bits: Seq<bool>, min: int, max: int, value: bool) -> bool {
    forall|k: int| min <= k < max ==> #[trigger] bits[k] != value
}

/// Bits, packed into words.
#[derive(Clone, Debug)]
pub struct BitSet {
    pub bit_length: usize,
    pub words: Vec<u64>,
}

impl View for BitSet {
    type V = Seq<bool>;

    open spec fn view(&self) -> Seq<bool> {
        Seq::new(
            self.bit_length as nat,
            |i: int| bit(self.words@[i / 64], (i % 64) as u64),
        )
    }
}

impl BitSet {
    pub open spec fn wf(&self) -> bool {
        self.words@.len() == (self.bit_length + 63) / 64
    }

    /// Bits that are not set.
    #[must_use]
    pub fn new_empty(bit_length: usize) -> (result: Self)
        requires
            bit_length + 63 <= usize::MAX,
        ensures
            result.wf(),
            result@.len() == bit_length,
            forall|i: int| 0 <= i < bit_length ==> !#[trigger] result@[i],
            forall|i: int| 0 <= i < result.words@.len() ==> #[trigger] result.words@[i] == 0,
    {
        let count: usize = (bit_length + 63) / 64;
        let mut words: Vec<u64> = Vec::new();
        while words.len() < count
            invariant
                words@.len() <= count,
                forall|i: int| 0 <= i < words@.len() ==> #[trigger] words@[i] == 0,
            decreases count - words@.len(),
        {
            words.push(0);
        }
        let result = BitSet { bit_length, words };
        proof {
            assert forall|i: int| 0 <= i < bit_length implies !#[trigger] result@[i] by {
                let shift = (i % 64) as u64;
                assert((0u64 >> shift) & 1 != 1) by (bit_vector);
            }
        }
        result
    }

    /// How many bits there are.
    #[must_use]
    pub fn len(&self) -> (result: usize)
        ensures
            result == self@.len(),
    {
        self.bit_length
    }

    /// Whether there are no bits.
    #[must_use]
    pub fn is_empty(&self) -> (result: bool)
        ensures
            result == (self@.len() == 0),
    {
        self.bit_length == 0
    }

    #[must_use]
    pub fn words(&self) -> (result: &[u64])
        ensures
            result@ == self.words@,
    {
        self.words.as_slice()
    }

    #[must_use]
    pub fn get(&self, index: usize) -> (result: bool)
        requires
            self.wf(),
            index < self@.len(),
        ensures
            result == self@[index as int],
    {
        let shift: u64 = (index % 64) as u64;
        (self.words[index / 64] >> shift) & 1 == 1
    }

    /// Sets a bit.
    pub fn set(&mut self, index: usize)
        requires
            old(self).wf(),
            index < old(self)@.len(),
        ensures
            final(self).wf(),
            final(self)@ == old(self)@.update(index as int, true),
    {
        let ghost before = *self;
        let place: usize = index / 64;
        let shift: u64 = (index % 64) as u64;
        let word: u64 = self.words[place];
        self.words[place] = word | (1u64 << shift);
        proof {
            assert forall|i: int| 0 <= i < self@.len() implies #[trigger] self@[i]
                == before@.update(index as int, true)[i] by {
                let other = (i % 64) as u64;
                assert(((word | (1u64 << shift)) >> other) & 1 == 1 <==> other == shift || (word
                    >> other) & 1 == 1) by (bit_vector)
                    requires
                        shift < 64,
                        other < 64,
                ;
            }
            assert(self@ =~= before@.update(index as int, true));
        }
    }

    /// Clears a bit.
    pub fn unset(&mut self, index: usize)
        requires
            old(self).wf(),
            index < old(self)@.len(),
        ensures
            final(self).wf(),
            final(self)@ == old(self)@.update(index as int, false),
    {
        let ghost before = *self;
        let place: usize = index / 64;
        let shift: u64 = (index % 64) as u64;
        let word: u64 = self.words[place];
        self.words[place] = word & !(1u64 << shift);
        proof {
            assert forall|i: int| 0 <= i < self@.len() implies #[trigger] self@[i]
                == before@.update(index as int, false)[i] by {
                let other = (i % 64) as u64;
                assert(((word & !(1u64 << shift)) >> other) & 1 == 1 <==> other != shift && (word
                    >> other) & 1 == 1) by (bit_vector)
                    requires
                        shift < 64,
                        other < 64,
                ;
            }
            assert(self@ =~= before@.update(index as int, false));
        }
    }

    /// How many bits are set.
    #[must_use]
    pub fn count(&self) -> (result: usize)
        requires
            self.wf(),
        ensures
            result == ones(self@),
    {
        let mut count: usize = 0;
        let mut i: usize = 0;
        while i < self.bit_length
            invariant
                self.wf(),
                i <= self.bit_length,
                count == ones(self@.take(i as int)),
                count <= i,
            decreases self.bit_length - i,
        {
            proof {
                assert(self@.take(i + 1).drop_last() =~= self@.take(i as int));
            }
            if self.get(i) {
                count = count + 1;
            }
            i = i + 1;
        }
        assert(self@.take(self@.len() as int) =~= self@);
        count
    }

    /// The highest bit that is set.
    #[must_use]
    pub fn highest(&self) -> (result: Option<usize>)
        requires
            self.wf(),
        ensures
            match result {
                Some(i) => i < self@.len() && self@[i as int] && none_in(
                    self@,
                    i + 1,
                    self@.len() as int,
                    true,
                ),
                None => none_in(self@, 0, self@.len() as int, true),
            },
    {
        let mut i: usize = self.bit_length;
        while i > 0
            invariant
                self.wf(),
                i <= self@.len(),
                none_in(self@, i as int, self@.len() as int, true),
            decreases i,
        {
            if self.get(i - 1) {
                return Some(i - 1);
            }
            i = i - 1;
        }
        None
    }
}

/// The bits of a word from one on.
proof fn lemma_from(word: u64, start: u64, i: u64)
    requires
        start < 64,
        i < 64,
    ensures
        bit(word & (0xffff_ffff_ffff_ffffu64 << start), i) == (i >= start && bit(word, i)),
{
    assert(((word & (0xffff_ffff_ffff_ffffu64 << start)) >> i) & 1 == 1 <==> i >= start && (word
        >> i) & 1 == 1) by (bit_vector)
        requires
            start < 64,
            i < 64,
    ;
}

/// The bits of a word before one.
proof fn lemma_before(word: u64, keep: u64, i: u64)
    requires
        0 < keep <= 64,
        i < 64,
    ensures
        bit(word & (0xffff_ffff_ffff_ffffu64 >> ((64 - keep) as u64)), i) == (i < keep && bit(
            word,
            i,
        )),
{
    let drop = (64 - keep) as u64;
    assert(((word & (0xffff_ffff_ffff_ffffu64 >> drop)) >> i) & 1 == 1 <==> i + drop < 64 && (word
        >> i) & 1 == 1) by (bit_vector)
        requires
            drop < 64,
            i < 64,
    ;
}

proof fn lemma_flipped(word: u64, i: u64)
    requires
        i < 64,
    ensures
        bit(!word, i) == !bit(word, i),
{
    assert((!word >> i) & 1 == 1 <==> (word >> i) & 1 != 1) by (bit_vector)
        requires
            i < 64,
    ;
}

/// The first bit of a kind from `bit_min` up to but not at `bit_max`.
#[must_use]
pub fn find_bit(bit_set: &BitSet, bit_min: usize, bit_max: usize, kind: BitKind) -> (result: Option<
    usize,
>)
    requires
        bit_set.wf(),
        bit_min <= bit_max <= bit_set@.len(),
        bit_set@.len() + 63 <= usize::MAX,
    ensures
        match result {
            Some(i) => is_first(
                bit_set@,
                bit_min as int,
                bit_max as int,
                kind == BitKind::One,
                i as int,
            ),
            None => none_in(bit_set@, bit_min as int, bit_max as int, kind == BitKind::One),
        },
{
    let ghost value = kind == BitKind::One;
    let word_end: usize = (bit_max + 63) / 64;
    let mut w: usize = bit_min / 64;
    while w < word_end
        invariant
            bit_set.wf(),
            bit_min <= bit_max <= bit_set@.len(),
            bit_set@.len() + 63 <= usize::MAX,
            value == (kind == BitKind::One),
            word_end == (bit_max + 63) / 64,
            bit_min / 64 <= w,
            forall|k: int| bit_min <= k < bit_max && k < w * 64 ==> #[trigger] bit_set@[k] != value,
        decreases word_end - w,
    {
        let word: u64 = bit_set.words[w];
        let base: usize = w * 64;
        let mut candidates: u64 = match kind {
            BitKind::One => word,
            BitKind::Zero => !word,
        };
        proof {
            assert forall|i: u64| i < 64 implies #[trigger] bit(candidates, i) == (bit(word, i)
                == value) by {
                lemma_flipped(word, i);
            }
        }
        if w == bit_min / 64 {
            let start: u64 = (bit_min % 64) as u64;
            let ghost before = candidates;
            candidates = candidates & (0xffff_ffff_ffff_ffffu64 << start);
            proof {
                assert forall|i: u64| i < 64 implies #[trigger] bit(candidates, i) == (i >= start
                    && bit(before, i)) by {
                    lemma_from(before, start, i);
                }
            }
        }
        let ghost started = candidates;
        assert(forall|i: u64|
            i < 64 ==> #[trigger] bit(started, i) == (base + i >= bit_min && bit(word, i)
                == value));
        if bit_max - base < 64 {
            let keep: u64 = (bit_max - base) as u64;
            candidates = candidates & (0xffff_ffff_ffff_ffffu64 >> (64 - keep));
            proof {
                assert forall|i: u64| i < 64 implies #[trigger] bit(candidates, i) == (i < keep
                    && bit(started, i)) by {
                    lemma_before(started, keep, i);
                }
            }
        }
        assert(forall|i: u64|
            i < 64 ==> #[trigger] bit(candidates, i) == (bit_min <= base + i < bit_max && bit(word, i)
                == value));
        let zeros: u32 = candidates.trailing_zeros();
        proof {
            vstd::std_specs::bits::axiom_u64_trailing_zeros(candidates);
            assert forall|k: int|
                bit_min <= k < bit_max && base <= k < base + zeros implies #[trigger] bit_set@[k]
                != value by {
                let i = (k - base) as u64;
                assert(k / 64 == w && k % 64 == k - base);
                assert((candidates >> i) & 1 == 0);
                assert(!bit(candidates, i));
            }
        }
        if candidates != 0 {
            let found: usize = base + zeros as usize;
            proof {
                assert(bit(candidates, zeros as u64));
                assert((found as int) / 64 == w && (found as int) % 64 == zeros);
            }
            return Some(found);
        }
        w = w + 1;
    }
    None
}

} // verus!
