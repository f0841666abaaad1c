//! Compresses words: runs of words whose bits are all the same take up one word.
//!
//! The encoding is a sequence of markers. A marker says how many words with all bits zero, or all
//! bits one, come next, and how many other words, the literals, come after them. The literals
//! follow their marker as they are.
//!
//! A marker holds the bit of the uniform words in its lowest bit, their count in the next 31 bits,
//! and the count of the literals in the highest 32 bits.

use crate::bytes::{
    law_le_bytes_round_trip, le_bytes, le_value, lemma_byte_spans, lemma_le_bytes_len, push_le,
    read_le,
};
use vstd::prelude::*;

verus! {

/// The uniform words of a marker at most.
pub const UNIFORM_WORD_COUNT_MAX: u64 = 0x7fff_ffff;

/// The literals of a marker at most.
pub const LITERAL_WORD_COUNT_MAX: u64 = 0xffff_ffff;

/// A word with all bits one.
pub const WORD_ONES: u64 = 0xffff_ffff_ffff_ffff;

/// Whether some bits of a word are zero, and others one.
pub open spec fn is_literal(word: u64) -> bool {
    word != 0 && word != WORD_ONES
}

pub open spec fn marker(ones: bool, uniform: int, literal: int) -> u64 {
    ((if ones {
        1int
    } else {
        0int
    }) + 2 * uniform + 0x1_0000_0000 * literal) as u64
}

/// The word that a marker stands for.
pub open spec fn uniform_word(marker: u64) -> u64 {
    if marker % 2 == 1 {
        WORD_ONES
    } else {
        0
    }
}

pub open spec fn uniform_count(marker: u64) -> int {
    ((marker / 2) % 0x8000_0000) as int
}

pub open spec fn literal_count(marker: u64) -> int {
    (marker / 0x1_0000_0000) as int
}

/// How many words at the start are all the same as one, up to a limit.
pub open spec fn uniform_run(words: Seq<u64>, word: u64, limit: int) -> int
    decreases words.len(),
{
    if words.len() == 0 || limit <= 0 || words[0] != word {
        0
    } else {
        1 + uniform_run(words.drop_first(), word, limit - 1)
    }
}

/// How many words at the start are literals, up to a limit.
pub open spec fn literal_run(words: Seq<u64>, limit: int) -> int
    decreases words.len(),
{
    if words.len() == 0 || limit <= 0 || !is_literal(words[0]) {
        0
    } else {
        1 + literal_run(words.drop_first(), limit - 1)
    }
}

/// The uniform words of the first marker.
pub open spec fn first_uniform(words: Seq<u64>) -> int {
    if words.len() == 0 || is_literal(words[0]) {
        0
    } else {
        uniform_run(words, words[0], UNIFORM_WORD_COUNT_MAX as int)
    }
}

/// The literals of the first marker.
pub open spec fn first_literal(words: Seq<u64>) -> int {
    literal_run(words.skip(first_uniform(words)), LITERAL_WORD_COUNT_MAX as int)
}

/// The first marker.
pub open spec fn first_marker(words: Seq<u64>) -> u64 {
    marker(
        words.len() > 0 && words[0] == WORD_ONES,
        first_uniform(words),
        first_literal(words),
    )
}

/// The words that the first marker stands for.
pub open spec fn first_words(words: Seq<u64>) -> int {
    first_uniform(words) + first_literal(words)
}

proof fn lemma_uniform_run(words: Seq<u64>, word: u64, limit: int)
    requires
        0 <= limit,
    ensures
        0 <= uniform_run(words, word, limit) <= words.len(),
        uniform_run(words, word, limit) <= limit,
        forall|i: int| 0 <= i < uniform_run(words, word, limit) ==> #[trigger] words[i] == word,
        uniform_run(words, word, limit) < limit && uniform_run(words, word, limit) < words.len()
            ==> words[uniform_run(words, word, limit)] != word,
    decreases words.len(),
{
    if !(words.len() == 0 || limit <= 0 || words[0] != word) {
        let rest = words.drop_first();
        lemma_uniform_run(rest, word, limit - 1);
        assert forall|i: int| 0 <= i < uniform_run(words, word, limit) implies #[trigger] words[i]
            == word by {
            if i > 0 {
                assert(rest[i - 1] == word);
            }
        }
        assert(rest.len() > uniform_run(rest, word, limit - 1) ==> rest[uniform_run(
            rest,
            word,
            limit - 1,
        )] == words[uniform_run(words, word, limit)]);
    }
}

proof fn lemma_literal_run(words: Seq<u64>, limit: int)
    requires
        0 <= limit,
    ensures
        0 <= literal_run(words, limit) <= words.len(),
        literal_run(words, limit) <= limit,
        literal_run(words, limit) < limit && literal_run(words, limit) < words.len()
            ==> !is_literal(words[literal_run(words, limit)]),
        forall|i: int| 0 <= i < literal_run(words, limit) ==> is_literal(#[trigger] words[i]),
    decreases words.len(),
{
    if !(words.len() == 0 || limit <= 0 || !is_literal(words[0])) {
        let rest = words.drop_first();
        lemma_literal_run(rest, limit - 1);
        assert(rest.len() > literal_run(rest, limit - 1) ==> rest[literal_run(rest, limit - 1)]
            == words[literal_run(words, limit)]);
        assert forall|i: int| 0 <= i < literal_run(words, limit) implies is_literal(
            #[trigger] words[i],
        ) by {
            if i > 0 {
                assert(is_literal(rest[i - 1]));
            }
        }
    }
}

/// What the first marker stands for.
pub proof fn lemma_first(words: Seq<u64>)
    requires
        words.len() > 0,
    ensures
        0 <= first_uniform(words) <= UNIFORM_WORD_COUNT_MAX,
        0 <= first_literal(words) <= LITERAL_WORD_COUNT_MAX,
        0 < first_words(words) <= words.len(),
        forall|i: int| 0 <= i < first_uniform(words) ==> #[trigger] words[i] == words[0],
        first_uniform(words) > 0 <==> !is_literal(words[0]),
        uniform_word(first_marker(words)) == if words[0] == WORD_ONES {
            WORD_ONES
        } else {
            0
        },
        uniform_count(first_marker(words)) == first_uniform(words),
        literal_count(first_marker(words)) == first_literal(words),
        first_literal(words) < LITERAL_WORD_COUNT_MAX && first_words(words) < words.len()
            ==> !is_literal(words[first_words(words)]),
        forall|i: int|
            first_uniform(words) <= i < first_words(words) ==> is_literal(#[trigger] words[i]),
{
    lemma_uniform_run(words, words[0], UNIFORM_WORD_COUNT_MAX as int);
    let uniform = first_uniform(words);
    let rest = words.skip(uniform);
    lemma_literal_run(rest, LITERAL_WORD_COUNT_MAX as int);
    let literal = first_literal(words);
    assert(literal < rest.len() ==> rest[literal] == words[uniform + literal]);
    assert forall|i: int| uniform <= i < first_words(words) implies is_literal(
        #[trigger] words[i],
    ) by {
        assert(rest[i - uniform] == words[i]);
    }
    if uniform == 0 {
        assert(rest[0] == words[0]);
    }
}

/// The words of an encoding.
pub open spec fn encoded(words: Seq<u64>) -> Seq<u64>
    decreases words.len(),
{
    if words.len() == 0 {
        Seq::empty()
    } else {
        proof {
            lemma_first(words);
        }
        seq![first_marker(words)] + words.subrange(first_uniform(words), first_words(words))
            + encoded(words.skip(first_words(words)))
    }
}

/// How many markers at the end stand for zeroes alone, if `before` came before.
pub open spec fn trailing_zero_runs(words: Seq<u64>, before: nat) -> nat
    decreases words.len(),
{
    if words.len() == 0 {
        before
    } else {
        proof {
            lemma_first(words);
        }
        trailing_zero_runs(
            words.skip(first_words(words)),
            if words[0] == 0 && first_literal(words) == 0 {
                before + 1
            } else {
                0
            },
        )
    }
}

/// Whether all words are zero.
pub open spec fn all_zero(words: Seq<u64>) -> bool {
    forall|i: int| 0 <= i < words.len() ==> #[trigger] words[i] == 0
}

/// The words of an encoding, without the markers at the end that stand for zeroes alone.
pub open spec fn trimmed(words: Seq<u64>) -> Seq<u64>
    decreases words.len(),
{
    if all_zero(words) {
        Seq::empty()
    } else {
        proof {
            lemma_first(words);
        }
        seq![first_marker(words)] + words.subrange(first_uniform(words), first_words(words))
            + trimmed(words.skip(first_words(words)))
    }
}

/// Zeroes are encoded as markers that stand for zeroes alone.
proof fn lemma_zero_runs(words: Seq<u64>, before: nat)
    requires
        all_zero(words),
    ensures
        trailing_zero_runs(words, before) == before + encoded(words).len(),
    decreases words.len(),
{
    if words.len() > 0 {
        lemma_first(words);
        assert(words[0] == 0);
        let literal = first_literal(words);
        if literal > 0 {
            assert(is_literal(words[first_uniform(words)]));
        }
        let rest = words.skip(first_words(words));
        assert forall|i: int| 0 <= i < rest.len() implies #[trigger] rest[i] == 0 by {
            assert(rest[i] == words[i + first_words(words)]);
        }
        lemma_zero_runs(rest, before + 1);
    }
}

/// An encoding without its trailing zero runs.
pub proof fn lemma_trimmed(words: Seq<u64>, before: nat)
    ensures
        !all_zero(words) ==> trailing_zero_runs(words, before) <= encoded(words).len(),
        !all_zero(words) ==> encoded(words).take(
            encoded(words).len() - trailing_zero_runs(words, before),
        ) == trimmed(words),
        before == 0 ==> trailing_zero_runs(words, before) <= encoded(words).len() && encoded(
            words,
        ).take(encoded(words).len() - trailing_zero_runs(words, before)) == trimmed(words),
    decreases words.len(),
{
    if all_zero(words) {
        lemma_zero_runs(words, before);
        assert(before == 0 ==> encoded(words).take(0) =~= trimmed(words));
    } else {
        lemma_first(words);
        let literal = first_literal(words);
        let rest = words.skip(first_words(words));
        let head = seq![first_marker(words)] + words.subrange(
            first_uniform(words),
            first_words(words),
        );
        let next = if words[0] == 0 && literal == 0 {
            before + 1
        } else {
            0
        };
        if all_zero(rest) {
            if words[0] == 0 && literal == 0 {
                assert forall|i: int| 0 <= i < words.len() implies #[trigger] words[i] == 0 by {
                    if i >= first_words(words) {
                        assert(rest[i - first_words(words)] == 0);
                    }
                }
            }
            lemma_zero_runs(rest, next);
            assert(encoded(words).take(head.len() as int) =~= head);
            assert(trimmed(rest) =~= Seq::<u64>::empty());
            assert(head + Seq::<u64>::empty() =~= head);
        } else {
            lemma_trimmed(rest, next);
            let count = encoded(rest).len() - trailing_zero_runs(rest, next);
            assert(encoded(words).take(head.len() + count) =~= head + encoded(rest).take(count));
        }
    }
}

/// Whether words are an encoding.
pub open spec fn is_encoding(words: Seq<u64>) -> bool
    decreases words.len(),
{
    words.len() > 0 ==> {
        &&& 1 + literal_count(words[0]) <= words.len()
        &&& is_encoding(words.skip(1 + literal_count(words[0])))
    }
}

/// Words that are all the same.
pub open spec fn repeated(word: u64, count: int) -> Seq<u64> {
    Seq::new(count as nat, |i: int| word)
}

/// The words that an encoding stands for.
pub open spec fn expanded(words: Seq<u64>) -> Seq<u64>
    decreases words.len(),
{
    if words.len() == 0 || words.len() < 1 + literal_count(words[0]) {
        Seq::empty()
    } else {
        repeated(uniform_word(words[0]), uniform_count(words[0])) + words.subrange(
            1,
            1 + literal_count(words[0]),
        ) + expanded(words.skip(1 + literal_count(words[0])))
    }
}

/// Decoding what was encoded gives the words back, but for the zeroes at the end.
pub proof fn law_decode_undoes_encode(words: Seq<u64>)
    ensures
        is_encoding(trimmed(words)),
        expanded(trimmed(words)).len() <= words.len(),
        words == expanded(trimmed(words)) + repeated(
            0,
            words.len() - expanded(trimmed(words)).len(),
        ),
    decreases words.len(),
{
    if all_zero(words) {
        assert(words =~= expanded(trimmed(words)) + repeated(0, words.len() as int));
    } else {
        lemma_first(words);
        let uniform = first_uniform(words);
        let literal = first_literal(words);
        let rest = words.skip(first_words(words));
        law_decode_undoes_encode(rest);
        let code = trimmed(words);
        assert(code[0] == first_marker(words));
        assert(code.subrange(1, 1 + literal) =~= words.subrange(uniform, uniform + literal));
        assert(code.skip(1 + literal) =~= trimmed(rest));
        let head = repeated(uniform_word(code[0]), uniform) + code.subrange(1, 1 + literal);
        assert(head =~= words.take(uniform + literal));
        assert(words =~= head + rest);
        let zeroes = repeated(0, rest.len() - expanded(trimmed(rest)).len());
        assert(head + (expanded(trimmed(rest)) + zeroes) =~= (head + expanded(trimmed(rest)))
            + zeroes);
    }
}

/// The bytes that the encoding of some words takes up at most: all words may be literals.
pub open spec fn spec_encode_size_max(word_count: int) -> int {
    (word_count + (word_count + 0xffff_fffe) / 0xffff_ffff) * 8
}

/// No encoding takes up more bytes than foreseen.
pub proof fn law_encoding_fits(words: Seq<u64>)
    ensures
        encoded(words).len() * 8 <= spec_encode_size_max(words.len() as int),
{
    lemma_encoded_len(words);
}

proof fn lemma_encoded_len(words: Seq<u64>)
    ensures
        encoded(words).len() <= words.len() + (words.len() + 0xffff_fffe) / 0xffff_ffff,
        words.len() == 0 || !is_literal(words[0]) ==> encoded(words).len() <= words.len()
            + words.len() / 0xffff_ffff,
    decreases words.len(),
{
    if words.len() > 0 {
        lemma_first(words);
        let rest = words.skip(first_words(words));
        lemma_encoded_len(rest);
        assert(rest.len() > 0 ==> rest[0] == words[first_words(words)]);
        assert(encoded(words).len() == 1 + first_literal(words) + encoded(rest).len());
    }
}

/// The bytes that the encoding of `word_count` words takes up at most.
#[must_use]
pub fn encode_size_max(word_count: usize) -> (result: usize)
    requires
        spec_encode_size_max(word_count as int) <= usize::MAX,
        word_count <= 0x7fff_ffff_ffff_ffff,
    ensures
        result == spec_encode_size_max(word_count as int),
{
    let words: u64 = word_count as u64;
    let markers: u64 = if words % 0xffff_ffff == 0 {
        words / 0xffff_ffff
    } else {
        words / 0xffff_ffff + 1
    };
    (word_count + markers as usize) * 8
}

/// The words in bytes.
pub open spec fn words_of(bytes: Seq<u8>) -> Seq<u64> {
    Seq::new(
        (bytes.len() / 8) as nat,
        |i: int| le_value(bytes.subrange(8 * i, 8 * i + 8)) as u64,
    )
}

/// The words in chunks of bytes.
pub open spec fn chunk_words(chunks: Seq<Seq<u8>>) -> Seq<u64>
    decreases chunks.len(),
{
    if chunks.len() == 0 {
        Seq::empty()
    } else {
        chunk_words(chunks.drop_last()) + words_of(chunks.last())
    }
}

/// Whether chunks hold whole words.
pub open spec fn whole_words(chunks: Seq<Seq<u8>>) -> bool {
    forall|i: int| 0 <= i < chunks.len() ==> (#[trigger] chunks[i]).len() % 8 == 0
}

/// Reads a word.
pub fn read_word(bytes: &[u8], index: usize) -> (result: u64)
    requires
        index < bytes@.len() / 8,
    ensures
        result == words_of(bytes@)[index as int],
{
    let length: usize = bytes.len();
    let value: u128 = read_le(bytes, index * 8, 8);
    proof {
        lemma_byte_spans();
    }
    value as u64
}

/// Writes a word.
pub fn write_word(bytes: &mut Vec<u8>, index: usize, word: u64)
    requires
        index < old(bytes)@.len() / 8,
    ensures
        final(bytes)@.len() == old(bytes)@.len(),
        words_of(final(bytes)@) == words_of(old(bytes)@).update(index as int, word),
{
    let ghost before = bytes@;
    let length: usize = bytes.len();
    let offset: usize = index * 8;
    let mut source: Vec<u8> = Vec::new();
    push_le(&mut source, word as u128, 8);
    let ghost expected = le_bytes(word as nat, 8);
    proof {
        lemma_le_bytes_len(word as nat, 8);
        lemma_byte_spans();
        law_le_bytes_round_trip(word as nat, 8);
        assert(source@ =~= expected);
    }
    let mut i: usize = 0;
    while i < 8
        invariant
            i <= 8,
            source@ == expected,
            expected.len() == 8,
            offset == index * 8,
            offset + 8 <= before.len(),
            bytes@.len() == before.len(),
            forall|k: int|
                0 <= k < before.len() ==> #[trigger] bytes@[k] == if offset <= k < offset + i {
                    expected[k - offset]
                } else {
                    before[k]
                },
        decreases 8 - i,
    {
        bytes[offset + i] = source[i];
        i = i + 1;
    }
    proof {
        let after = words_of(before).update(index as int, word);
        assert forall|k: int| 0 <= k < after.len() implies words_of(bytes@)[k] == #[trigger] after[k] by {
            let piece = bytes@.subrange(8 * k, 8 * k + 8);
            if k == index {
                assert(piece =~= expected);
            } else {
                assert(piece =~= before.subrange(8 * k, 8 * k + 8));
            }
        }
        assert(words_of(bytes@) =~= after);
    }
}

/// The length of the run of words at `start` that are all the same as `word`.
fn count_uniform(words: &[u64], start: usize, word: u64) -> (result: usize)
    requires
        start <= words@.len(),
    ensures
        result == uniform_run(words@.skip(start as int), word, UNIFORM_WORD_COUNT_MAX as int),
{
    let length: usize = words.len();
    let mut count: usize = 0;
    while start + count < length && (count as u64) < UNIFORM_WORD_COUNT_MAX
        && words[start + count] == word
        invariant
            length == words@.len(),
            start + count <= words@.len(),
            count <= UNIFORM_WORD_COUNT_MAX,
            uniform_run(words@.skip(start as int), word, UNIFORM_WORD_COUNT_MAX as int) == count
                + uniform_run(
                words@.skip(start + count),
                word,
                UNIFORM_WORD_COUNT_MAX - count,
            ),
        decreases words@.len() - start - count,
    {
        proof {
            assert(words@.skip(start + count).drop_first() =~= words@.skip(start + count + 1));
        }
        count = count + 1;
    }
    count
}

/// The length of the run of literals at `start`.
fn count_literal(words: &[u64], start: usize) -> (result: usize)
    requires
        start <= words@.len(),
    ensures
        result == literal_run(words@.skip(start as int), LITERAL_WORD_COUNT_MAX as int),
{
    let length: usize = words.len();
    let mut count: usize = 0;
    while start + count < length && (count as u64) < LITERAL_WORD_COUNT_MAX && words[start
        + count] != 0 && words[start + count] != WORD_ONES
        invariant
            length == words@.len(),
            start + count <= words@.len(),
            count <= LITERAL_WORD_COUNT_MAX,
            literal_run(words@.skip(start as int), LITERAL_WORD_COUNT_MAX as int) == count
                + literal_run(words@.skip(start + count), LITERAL_WORD_COUNT_MAX - count),
        decreases words@.len() - start - count,
    {
        proof {
            assert(words@.skip(start + count).drop_first() =~= words@.skip(start + count + 1));
        }
        count = count + 1;
    }
    count
}

/// Encodes words, chunk by chunk.
pub struct Encoder<'a> {
    source_words: &'a [u64],
    source_index: usize,
    /// The literals that are still to come before the next marker.
    literal_word_count: usize,
    trailing_zero_runs_count: usize,
}

impl<'a> Encoder<'a> {
    pub closed spec fn wf(&self) -> bool {
        &&& self.source_index + self.literal_word_count <= self.source_words@.len()
        &&& self.trailing_zero_runs_count <= self.source_index
    }

    pub closed spec fn source(&self) -> Seq<u64> {
        self.source_words@
    }

    /// The words of the encoding that are still to come.
    pub closed spec fn pending(&self) -> Seq<u64> {
        self.source_words@.subrange(
            self.source_index as int,
            self.source_index + self.literal_word_count,
        ) + encoded(self.source_words@.skip(self.source_index + self.literal_word_count))
    }

    /// How many markers at the end stand for zeroes alone.
    pub closed spec fn trailing(&self) -> nat {
        trailing_zero_runs(
            self.source_words@.skip(self.source_index + self.literal_word_count),
            self.trailing_zero_runs_count as nat,
        )
    }

    #[must_use]
    pub fn new(source_words: &'a [u64]) -> (result: Self)
        ensures
            result.wf(),
            result.source() == source_words@,
            result.pending() == encoded(source_words@),
            result.trailing() == trailing_zero_runs(source_words@, 0),
    {
        let result = Encoder {
            source_words,
            source_index: 0,
            literal_word_count: 0,
            trailing_zero_runs_count: 0,
        };
        proof {
            assert(source_words@.skip(0) =~= source_words@);
            assert(source_words@.subrange(0, 0) + encoded(source_words@) =~= encoded(
                source_words@,
            ));
        }
        result
    }

    /// The next word of the encoding.
    fn next_word(&mut self) -> (result: u64)
        requires
            old(self).wf(),
            old(self).pending().len() > 0,
        ensures
            final(self).wf(),
            final(self).source() == old(self).source(),
            result == old(self).pending()[0],
            final(self).pending() == old(self).pending().drop_first(),
            final(self).trailing() == old(self).trailing(),
    {
        let ghost before = self.pending();
        let ghost words = self.source_words@;
        if self.literal_word_count > 0 {
            let word: u64 = self.source_words[self.source_index];
            self.source_index = self.source_index + 1;
            self.literal_word_count = self.literal_word_count - 1;
            proof {
                assert(self.pending() =~= before.drop_first());
            }
            return word;
        }
        let ghost rest = words.skip(self.source_index as int);
        proof {
            assert(words.subrange(self.source_index as int, self.source_index as int) + encoded(
                rest,
            ) =~= encoded(rest));
            lemma_first(rest);
        }
        let first: u64 = self.source_words[self.source_index];
        let literal = first != 0 && first != WORD_ONES;
        let uniform_word_count: usize = if literal {
            0
        } else {
            count_uniform(self.source_words, self.source_index, first)
        };
        proof {
            assert(words.skip(self.source_index + uniform_word_count) =~= rest.skip(
                uniform_word_count as int,
            ));
        }
        let literal_word_count: usize = count_literal(
            self.source_words,
            self.source_index + uniform_word_count,
        );
        if first == 0 && literal_word_count == 0 {
            self.trailing_zero_runs_count = self.trailing_zero_runs_count + 1;
        } else {
            self.trailing_zero_runs_count = 0;
        }
        let ones: u64 = if first == WORD_ONES {
            1
        } else {
            0
        };
        let marker: u64 = ones + 2 * uniform_word_count as u64 + 0x1_0000_0000
            * literal_word_count as u64;
        let ghost start = self.source_index as int;
        self.source_index = self.source_index + uniform_word_count;
        self.literal_word_count = literal_word_count;
        proof {
            assert(words.subrange(
                self.source_index as int,
                self.source_index + literal_word_count,
            ) =~= rest.subrange(first_uniform(rest), first_words(rest)));
            assert(words.skip(self.source_index + literal_word_count) =~= rest.skip(
                first_words(rest),
            ));
            assert(self.pending() =~= before.drop_first());
        }
        marker
    }

    /// Fills a chunk. Returns how many bytes of the encoding it holds; the others are zero.
    pub fn encode_chunk(&mut self, chunk: &mut Vec<u8>) -> (result: usize)
        requires
            old(self).wf(),
            old(chunk)@.len() % 8 == 0,
        ensures
            final(self).wf(),
            final(self).source() == old(self).source(),
            final(self).trailing() == old(self).trailing(),
            final(chunk)@.len() == old(chunk)@.len(),
            result % 8 == 0,
            result as int / 8 == if old(self).pending().len() < old(chunk)@.len() / 8 {
                old(self).pending().len() as int
            } else {
                old(chunk)@.len() as int / 8
            },
            words_of(final(chunk)@) == old(self).pending().take(result as int / 8) + repeated(
                0,
                old(chunk)@.len() / 8 - result as int / 8,
            ),
            final(self).pending() == old(self).pending().skip(result as int / 8),
    {
        let ghost pending = self.pending();
        let count: usize = chunk.len() / 8;
        let mut i: usize = 0;
        while i < count && !self.done()
            invariant
                self.wf(),
                self.source() == old(self).source(),
                self.trailing() == old(self).trailing(),
                count == old(chunk)@.len() / 8,
                chunk@.len() == old(chunk)@.len(),
                i <= count,
                i <= pending.len(),
                self.pending() == pending.skip(i as int),
                words_of(chunk@).take(i as int) == pending.take(i as int),
            decreases count - i,
        {
            let ghost before = words_of(chunk@);
            let word: u64 = self.next_word();
            write_word(chunk, i, word);
            i = i + 1;
            proof {
                assert(pending.skip(i - 1).drop_first() =~= pending.skip(i as int));
                assert(words_of(chunk@).take(i as int) =~= before.take(i - 1).push(word));
                assert(pending.take(i as int) =~= pending.take(i - 1).push(pending[i - 1]));
            }
        }
        let encoded_count: usize = i;
        while i < count
            invariant
                self.wf(),
                self.source() == old(self).source(),
                self.trailing() == old(self).trailing(),
                count == old(chunk)@.len() / 8,
                chunk@.len() == old(chunk)@.len(),
                encoded_count <= i <= count,
                encoded_count <= pending.len(),
                self.pending() == pending.skip(encoded_count as int),
                words_of(chunk@).take(i as int) == pending.take(encoded_count as int) + repeated(
                    0,
                    i - encoded_count,
                ),
            decreases count - i,
        {
            let ghost before = words_of(chunk@);
            write_word(chunk, i, 0);
            i = i + 1;
            proof {
                assert(words_of(chunk@).take(i as int) =~= before.take(i - 1).push(0));
                assert(repeated(0, i - encoded_count) =~= repeated(0, i - 1 - encoded_count).push(
                    0,
                ));
                assert(words_of(chunk@).take(i as int) =~= pending.take(encoded_count as int)
                    + repeated(0, i - encoded_count));
            }
        }
        assert(words_of(chunk@).take(count as int) =~= words_of(chunk@));
        encoded_count * 8
    }

    /// Whether the encoding is complete.
    #[must_use]
    pub fn done(&self) -> (result: bool)
        requires
            self.wf(),
        ensures
            result == (self.pending().len() == 0),
    {
        self.source_index == self.source_words.len()
    }

    /// How many markers at the end of the encoding stand for zeroes alone.
    #[must_use]
    pub fn trailing_zero_runs_count(&self) -> (result: usize)
        requires
            self.wf(),
            self.pending().len() == 0,
        ensures
            result == self.trailing(),
    {
        self.trailing_zero_runs_count
    }
}

/// What is still to come of an expansion, if `literal` words are literals.
spec fn rest_expanded(literal: int, words: Seq<u64>) -> Seq<u64> {
    words.take(literal) + expanded(words.skip(literal))
}

/// The number of words in some of the chunks.
pub proof fn lemma_chunk_words(chunks: Seq<Seq<u8>>, i: int)
    requires
        0 <= i < chunks.len(),
    ensures
        chunk_words(chunks.take(i + 1)) == chunk_words(chunks.take(i)) + words_of(chunks[i]),
        chunk_words(chunks.take(i + 1)).len() <= chunk_words(chunks).len(),
        chunk_words(chunks).take(chunk_words(chunks.take(i + 1)).len() as int) == chunk_words(
            chunks.take(i + 1),
        ),
    decreases chunks.len(),
{
    assert(chunks.take(i + 1).drop_last() =~= chunks.take(i));
    if i < chunks.len() - 1 {
        let front = chunks.drop_last();
        lemma_chunk_words(front, i);
        assert(front.take(i + 1) =~= chunks.take(i + 1));
        assert(front.take(i) =~= chunks.take(i));
        let n = chunk_words(chunks.take(i + 1)).len() as int;
        assert(chunk_words(chunks).take(n) =~= chunk_words(front).take(n));
    } else {
        assert(chunks.take(i + 1) =~= chunks);
        assert(chunk_words(chunks).take(chunk_words(chunks).len() as int) =~= chunk_words(chunks));
    }
}

/// Decodes words, chunk by chunk, into the start of `target`. Returns how many words there are.
#[verifier::rlimit(40)]
pub fn decode(source_chunks: &[&[u8]], target: &mut Vec<u64>) -> (result: usize)
    requires
        whole_words(Seq::new(source_chunks@.len(), |i: int| source_chunks@[i]@)),
        is_encoding(chunk_words(Seq::new(source_chunks@.len(), |i: int| source_chunks@[i]@))),
        expanded(
            chunk_words(Seq::new(source_chunks@.len(), |i: int| source_chunks@[i]@)),
        ).len() <= old(target)@.len(),
    ensures
        ({
            let words = expanded(
                chunk_words(Seq::new(source_chunks@.len(), |i: int| source_chunks@[i]@)),
            );
            &&& result == words.len()
            &&& final(target)@ == words + old(target)@.skip(words.len() as int)
        }),
{
    let ghost chunks = Seq::new(source_chunks@.len(), |i: int| source_chunks@[i]@);
    let ghost all = chunk_words(chunks);
    let ghost words = expanded(all);
    let ghost before = target@;
    let size: usize = target.len();
    let mut written: usize = 0;
    let mut literal: u64 = 0;
    let mut i: usize = 0;
    proof {
        assert(chunks.take(0) =~= Seq::<Seq<u8>>::empty());
        assert(all.skip(0) =~= all);
        assert(all.take(0) + expanded(all) =~= words);
        assert(target@.take(0) + words =~= words);
    }
    while i < source_chunks.len()
        invariant
            i <= chunks.len(),
            chunks == Seq::new(source_chunks@.len(), |i: int| source_chunks@[i]@),
            all == chunk_words(chunks),
            words == expanded(all),
            words.len() <= before.len(),
            target@.len() == before.len() == size,
            written <= words.len(),
            forall|m: int| written <= m < before.len() ==> #[trigger] target@[m] == before[m],
            chunk_words(chunks.take(i as int)).len() <= all.len(),
            ({
                let rest = all.skip(chunk_words(chunks.take(i as int)).len() as int);
                &&& literal <= rest.len()
                &&& is_encoding(rest.skip(literal as int))
                &&& target@.take(written as int) + rest_expanded(literal as int, rest) == words
            }),
        decreases chunks.len() - i,
    {
        let chunk: &[u8] = source_chunks[i];
        let ghost start = chunk_words(chunks.take(i as int)).len() as int;
        let ghost here = words_of(chunk@);
        proof {
            lemma_chunk_words(chunks, i as int);
            assert(chunks[i as int] == chunk@);
            let end = chunk_words(chunks.take(i + 1)).len() as int;
            assert forall|k: int| 0 <= k < here.len() implies all[start + k] == #[trigger] here[k] by {
                assert(all.take(end)[start + k] == all[start + k]);
            }
        }
        let count: usize = chunk.len() / 8;
        let mut j: usize = 0;
        while j < count
            invariant
                here == words_of(chunk@),
                count == here.len(),
                j <= count,
                all == chunk_words(chunks),
                words == expanded(all),
                words.len() <= before.len(),
                target@.len() == before.len() == size,
                written <= words.len(),
                forall|m: int| written <= m < before.len() ==> #[trigger] target@[m] == before[m],
                0 <= start,
                start + count <= all.len(),
                forall|k: int| 0 <= k < count ==> all[start + k] == #[trigger] here[k],
                ({
                    let rest = all.skip(start + j);
                    &&& literal <= rest.len()
                    &&& is_encoding(rest.skip(literal as int))
                    &&& target@.take(written as int) + rest_expanded(literal as int, rest) == words
                }),
            decreases count - j,
        {
            let word: u64 = read_word(chunk, j);
            let ghost rest = all.skip(start + j);
            let ghost next = all.skip(start + j + 1);
            let ghost done = target@.take(written as int);
            proof {
                assert(rest[0] == here[j as int]);
                assert(rest.drop_first() =~= next);
            }
            if literal > 0 {
                proof {
                    assert(rest_expanded(literal as int, rest) =~= seq![word] + rest_expanded(
                        literal - 1,
                        next,
                    )) by {
                        assert(rest.skip(literal as int) =~= next.skip(literal - 1));
                        assert(rest.take(literal as int) =~= seq![word] + next.take(literal - 1));
                    }
                    assert(words.len() == done.len() + rest_expanded(literal as int, rest).len());
                }
                target[written] = word;
                written = written + 1;
                literal = literal - 1;
                proof {
                    assert(rest.skip(literal + 1) =~= next.skip(literal as int));
                    assert(target@.take(written as int) =~= done.push(word));
                    assert(target@.take(written as int) + rest_expanded(literal as int, next)
                        =~= done + rest_expanded(literal + 1, rest));
                }
            } else {
                let uniform: usize = ((word / 2) % 0x8000_0000) as usize;
                let fill: u64 = if word % 2 == 1 {
                    WORD_ONES
                } else {
                    0
                };
                literal = word / 0x1_0000_0000;
                let ghost first = written as int;
                proof {
                    assert(rest.skip(0) =~= rest);
                    assert(rest_expanded(0, rest) =~= expanded(rest));
                    assert(rest.subrange(1, 1 + literal) =~= next.take(literal as int));
                    assert(rest.skip(1 + literal) =~= next.skip(literal as int));
                    assert(expanded(rest) =~= repeated(fill, uniform as int) + rest_expanded(
                        literal as int,
                        next,
                    ));
                    assert(words.len() == done.len() + expanded(rest).len());
                }
                let mut k: usize = 0;
                while k < uniform
                    invariant
                        k <= uniform,
                        first + uniform <= words.len() <= before.len(),
                        target@.len() == before.len() == size,
                        written == first + k,
                        target@.take(written as int) == done + repeated(fill, k as int),
                        forall|m: int|
                            written <= m < before.len() ==> #[trigger] target@[m] == before[m],
                    decreases uniform - k,
                {
                    let ghost prior = target@.take(written as int);
                    target[written] = fill;
                    written = written + 1;
                    k = k + 1;
                    proof {
                        assert(target@.take(written as int) =~= prior.push(fill));
                        assert(repeated(fill, k as int) =~= repeated(fill, k - 1).push(fill));
                        assert(target@.take(written as int) =~= done + repeated(fill, k as int));
                    }
                }
                proof {
                    assert(target@.take(written as int) + rest_expanded(literal as int, next)
                        =~= done + expanded(rest));
                }
            }
            j = j + 1;
        }
        i = i + 1;
    }
    proof {
        assert(chunks.take(chunks.len() as int) =~= chunks);
        let rest = all.skip(all.len() as int);
        assert(rest_expanded(0, rest) =~= Seq::<u64>::empty());
        assert(target@.take(written as int) =~= words);
        assert(target@ =~= words + before.skip(words.len() as int));
    }
    written
}

/// A marker tells in its least significant bit which word it stands for, in the 31 bits after it
/// how often, and in the upper 32 how many literals follow.
pub proof fn law_markers_have_a_layout(ones: bool, uniform: int, literal: int)
    requires
        0 <= uniform <= 0x7fff_ffff,
        0 <= literal <= 0xffff_ffff,
    ensures
        marker(ones, uniform, literal) == 0x1_0000_0000 * literal + 2 * uniform + if ones {
            1int
        } else {
            0int
        },
        uniform_word(marker(ones, uniform, literal)) == if ones {
            0xffff_ffff_ffff_ffffu64
        } else {
            0u64
        },
        uniform_count(marker(ones, uniform, literal)) == uniform,
        literal_count(marker(ones, uniform, literal)) == literal,
{
}

proof fn lemma_whole_uniform_run(word: u64, count: int, rest: Seq<u64>, limit: int)
    requires
        0 <= count <= limit,
        rest.len() == 0 || rest[0] != word,
    ensures
        uniform_run(repeated(word, count) + rest, word, limit) == count,
    decreases count,
{
    let words = repeated(word, count) + rest;
    if count == 0 {
        assert(words =~= rest);
    } else {
        assert(words[0] == word);
        assert(words.drop_first() =~= repeated(word, count - 1) + rest);
        lemma_whole_uniform_run(word, count - 1, rest, limit - 1);
    }
}

proof fn lemma_whole_literal_run(literals: Seq<u64>, rest: Seq<u64>, limit: int)
    requires
        literals.len() <= limit,
        forall|i: int| 0 <= i < literals.len() ==> is_literal(#[trigger] literals[i]),
        rest.len() == 0 || !is_literal(rest[0]),
    ensures
        literal_run(literals + rest, limit) == literals.len(),
    decreases literals.len(),
{
    let words = literals + rest;
    if literals.len() == 0 {
        assert(words =~= rest);
    } else {
        let more = literals.drop_first();
        assert(words[0] == literals[0]);
        assert(words.drop_first() =~= more + rest);
        assert forall|i: int| 0 <= i < more.len() implies is_literal(#[trigger] more[i]) by {
            assert(more[i] == literals[i + 1]);
        }
        lemma_whole_literal_run(more, rest, limit - 1);
    }
}

/// A run of zeroes or of ones and the literals after it take one marker, however long they are, up
/// to what a marker can count. The literals follow the marker as they are.
pub proof fn law_a_run_takes_one_marker(
    ones: bool,
    count: int,
    literals: Seq<u64>,
    rest: Seq<u64>,
)
    requires
        0 <= count <= 0x7fff_ffff,
        literals.len() <= 0xffff_ffff,
        count + literals.len() > 0,
        forall|i: int|
            0 <= i < literals.len() ==> #[trigger] literals[i] != 0 && literals[i]
                != 0xffff_ffff_ffff_ffff,
        rest.len() > 0 ==> rest[0] == 0 || rest[0] == 0xffff_ffff_ffff_ffff,
        rest.len() > 0 && literals.len() == 0 ==> (rest[0] == 0xffff_ffff_ffff_ffff) != ones,
        count == 0 ==> !ones,
    ensures
        ({
            let word = if ones {
                0xffff_ffff_ffff_ffffu64
            } else {
                0u64
            };
            let head = Seq::new(count as nat, |i: int| word) + literals;
            encoded(head + rest) == seq![
                (0x1_0000_0000 * literals.len() + 2 * count + if ones {
                    1int
                } else {
                    0int
                }) as u64,
            ] + literals + encoded(rest)
        }),
{
    let word = if ones {
        WORD_ONES
    } else {
        0u64
    };
    let run = repeated(word, count);
    let words = run + literals + rest;
    assert(Seq::new(count as nat, |i: int| word) =~= run);
    assert(words =~= run + (literals + rest));
    assert forall|i: int| 0 <= i < literals.len() implies is_literal(#[trigger] literals[i]) by {}
    if count > 0 {
        assert(words[0] == word);
        if literals.len() > 0 {
            assert((literals + rest)[0] == literals[0]);
        } else {
            assert(literals + rest =~= rest);
        }
        lemma_whole_uniform_run(word, count, literals + rest, UNIFORM_WORD_COUNT_MAX as int);
    } else {
        assert(words[0] == literals[0]);
    }
    assert(first_uniform(words) == count);
    assert(words.skip(count) =~= literals + rest);
    lemma_whole_literal_run(literals, rest, LITERAL_WORD_COUNT_MAX as int);
    assert(words.subrange(count, count + literals.len()) =~= literals);
    assert(words.skip(count + literals.len()) =~= rest);
    if count == 0 {
        assert(is_literal(words[0]));
    }
}

/// Zeroes at the end are left out, and nothing else is.
pub proof fn law_only_zeroes_are_left_out(words: Seq<u64>)
    ensures
        (forall|i: int| 0 <= i < words.len() ==> #[trigger] words[i] == 0) <==> trimmed(words).len()
            == 0,
{
    if !all_zero(words) {
        lemma_first(words);
    }
}

/// Words that are all literals take up the most: their own bytes, and those of one marker for every
/// 2^32 - 1 of them.
pub proof fn law_literals_take_up_the_most(words: Seq<u64>)
    requires
        0 < words.len() <= 0xffff_ffff,
        forall|i: int|
            0 <= i < words.len() ==> #[trigger] words[i] != 0 && words[i] != 0xffff_ffff_ffff_ffff,
    ensures
        encoded(words).len() == words.len() + 1,
        spec_encode_size_max(words.len() as int) == encoded(words).len() * 8,
{
    law_a_run_takes_one_marker(false, 0, words, Seq::empty());
    assert(Seq::new(0, |i: int| 0u64) + words + Seq::<u64>::empty() =~= words);
}

} // verus!
