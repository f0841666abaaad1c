//! Sorting values by key, and reducing the versions of a key to what they add up to.

use crate::direction::Direction;
use crate::k_way_merge::{follows, strictly_follows, TournamentKey};
use crate::key::OrderedKey;
use vstd::prelude::*;

verus! {

/// What a tree of tables is for.
#[derive(Clone, Copy, Debug, PartialEq, Eq, Structural)]
pub enum Usage {
    /// The last version of a key counts.
    General,
    /// Keys are put and removed in turn, so that two versions of a key cancel out.
    SecondaryIndex,
}

/// The values of a tree.
pub trait Table: Sized {
    type Key: TournamentKey;

    type Value: Copy + Default;

    /// The values of a table at most.
    const VALUE_COUNT_MAX: usize;

    const USAGE: Usage;

    open spec fn key_of(value: Self::Value) -> Self::Key {
        arbitrary()
    }

    open spec fn is_tombstone(value: Self::Value) -> bool {
        arbitrary()
    }

    fn key_from_value(value: &Self::Value) -> (result: Self::Key)
        ensures
            result == Self::key_of(*value),
    ;

    /// Whether the value removes its key.
    fn tombstone(value: &Self::Value) -> (result: bool)
        ensures
            result == Self::is_tombstone(*value),
    ;
}

/// Where the values of a table stand in the order.
pub open spec fn key_rank<T: Table>() -> spec_fn(T::Value) -> int {
    |value: T::Value| T::key_of(value).rank()
}

/// The values of one key, in the order in which they came.
pub open spec fn versions<V>(values: Seq<V>, rank: spec_fn(V) -> int, key: int) -> Seq<V> {
    values.filter(|value: V| rank(value) == key)
}

/// What the versions of a key add up to.
pub open spec fn surviving<V>(usage: Usage, versions: Seq<V>) -> Option<V> {
    if versions.len() == 0 {
        None
    } else {
        match usage {
            Usage::General => Some(versions.last()),
            Usage::SecondaryIndex => if versions.len() % 2 == 1 {
                Some(versions.last())
            } else {
                None
            },
        }
    }
}

/// In a secondary index, every key is put and removed in turn.
pub open spec fn alternates<T: Table>(values: Seq<T::Value>) -> bool {
    T::USAGE == Usage::SecondaryIndex ==> forall|key: int, i: int|
        0 <= i < versions(values, key_rank::<T>(), key).len() - 1 ==> T::is_tombstone(
            #[trigger] versions(values, key_rank::<T>(), key)[i],
        ) != T::is_tombstone(versions(values, key_rank::<T>(), key)[i + 1])
}

/// The first value with a key.
pub open spec fn lookup<V>(values: Seq<V>, rank: spec_fn(V) -> int, key: int) -> Option<V>
    decreases values.len(),
{
    if values.len() == 0 {
        None
    } else if rank(values[0]) == key {
        Some(values[0])
    } else {
        lookup(values.drop_first(), rank, key)
    }
}

/// `after` holds, in order, what the versions of every key in `before` add up to.
pub open spec fn is_reduced<V>(
    after: Seq<V>,
    before: Seq<V>,
    rank: spec_fn(V) -> int,
    usage: Usage,
) -> bool {
    &&& strictly_follows(after, rank, Direction::Ascending)
    &&& forall|key: int| #[trigger]
        lookup(after, rank, key) == surviving(usage, versions(before, rank, key))
}

/// A version of a key after another one.
pub open spec fn merge_one<V>(usage: Usage, state: Option<V>, value: V) -> Option<V> {
    match (usage, state) {
        (Usage::SecondaryIndex, Some(_)) => None,
        _ => Some(value),
    }
}

/// One version of a key after another, from a state on.
pub open spec fn merge_all<V>(usage: Usage, state: Option<V>, versions: Seq<V>) -> Option<V>
    decreases versions.len(),
{
    if versions.len() == 0 {
        state
    } else {
        merge_all(usage, merge_one(usage, state, versions[0]), versions.drop_first())
    }
}

proof fn lemma_merge_all<V>(usage: Usage, state: Option<V>, versions: Seq<V>)
    ensures
        merge_all(usage, state, versions) == if versions.len() == 0 {
            state
        } else {
            match usage {
                Usage::General => Some(versions.last()),
                Usage::SecondaryIndex => if (versions.len() % 2 == 1) == (state is None) {
                    Some(versions.last())
                } else {
                    None
                },
            }
        },
    decreases versions.len(),
{
    if versions.len() > 0 {
        lemma_merge_all(usage, merge_one(usage, state, versions[0]), versions.drop_first());
        if versions.len() > 1 {
            assert(versions.drop_first().last() == versions.last());
        }
    }
}

/// The versions of one key after another, reduced to what they add up to. Of the first key, the
/// versions so far add up to `candidate`.
pub open spec fn reduced<V>(
    values: Seq<V>,
    rank: spec_fn(V) -> int,
    usage: Usage,
    candidate: Option<V>,
) -> Seq<V>
    decreases values.len(),
{
    if values.len() == 0 {
        match candidate {
            Some(candidate) => seq![candidate],
            None => Seq::empty(),
        }
    } else {
        let rest = values.drop_first();
        match candidate {
            Some(candidate) => if rank(candidate) == rank(values[0]) {
                reduced(rest, rank, usage, merge_one(usage, Some(candidate), values[0]))
            } else {
                seq![candidate] + reduced(rest, rank, usage, Some(values[0]))
            },
            None => reduced(rest, rank, usage, Some(values[0])),
        }
    }
}

/// The versions in a sequence that starts with a value.
pub proof fn lemma_versions_first<V>(values: Seq<V>, rank: spec_fn(V) -> int, key: int)
    requires
        values.len() > 0,
    ensures
        versions(values, rank, key) == if rank(values[0]) == key {
            seq![values[0]] + versions(values.drop_first(), rank, key)
        } else {
            versions(values.drop_first(), rank, key)
        },
{
    let f = |value: V| rank(value) == key;
    let head = seq![values[0]];
    let rest = values.drop_first();
    assert(values =~= head + rest);
    Seq::filter_distributes_over_add(head, rest, f);
    lemma_versions_of_one(values[0], rank, key);
    assert(Seq::<V>::empty() + rest.filter(f) =~= rest.filter(f));
}

proof fn lemma_versions_of_one<V>(value: V, rank: spec_fn(V) -> int, key: int)
    ensures
        versions(seq![value], rank, key) == if rank(value) == key {
            seq![value]
        } else {
            Seq::empty()
        },
{
    lemma_no_versions(Seq::empty(), rank, key);
    lemma_versions_push(Seq::empty(), value, rank, key);
    assert(Seq::<V>::empty().push(value) =~= seq![value]);
}

/// The versions in a sequence that ends with a value.
pub proof fn lemma_versions_push<V>(values: Seq<V>, value: V, rank: spec_fn(V) -> int, key: int)
    ensures
        versions(values.push(value), rank, key) == if rank(value) == key {
            versions(values, rank, key).push(value)
        } else {
            versions(values, rank, key)
        },
{
    reveal(Seq::filter);
    let all = values.push(value);
    assert(all.drop_last() =~= values);
    assert(all.last() == value);
}

/// The versions in two sequences, one after the other.
pub proof fn lemma_versions_add<V>(a: Seq<V>, b: Seq<V>, rank: spec_fn(V) -> int, key: int)
    ensures
        versions(a + b, rank, key) == versions(a, rank, key) + versions(b, rank, key),
{
    Seq::filter_distributes_over_add(a, b, |value: V| rank(value) == key);
}

/// A key that does not occur has no versions.
pub proof fn lemma_no_versions<V>(values: Seq<V>, rank: spec_fn(V) -> int, key: int)
    requires
        forall|p: int| 0 <= p < values.len() ==> rank(#[trigger] values[p]) != key,
    ensures
        versions(values, rank, key) == Seq::<V>::empty(),
    decreases values.len(),
{
    reveal(Seq::filter);
    if values.len() > 0 {
        assert forall|p: int| 0 <= p < values.drop_last().len() implies rank(
            #[trigger] values.drop_last()[p],
        ) != key by {
            assert(values.drop_last()[p] == values[p]);
        }
        lemma_no_versions(values.drop_last(), rank, key);
        assert(rank(values[values.len() - 1]) != key);
    }
}

/// What comes out of values that follow the direction, by key.
pub proof fn lemma_reduced_lookup<V>(
    values: Seq<V>,
    rank: spec_fn(V) -> int,
    usage: Usage,
    candidate: Option<V>,
    direction: Direction,
    key: int,
)
    requires
        follows(values, rank, direction),
        candidate matches Some(value) ==> forall|p: int|
            0 <= p < values.len() ==> !direction.precedes(rank(#[trigger] values[p]), rank(value)),
    ensures
        lookup(reduced(values, rank, usage, candidate), rank, key) == merge_all(
            usage,
            match candidate {
                Some(value) => if rank(value) == key {
                    Some(value)
                } else {
                    None
                },
                None => None,
            },
            versions(values, rank, key),
        ),
    decreases values.len(),
{
    let output = reduced(values, rank, usage, candidate);
    if values.len() == 0 {
        lemma_no_versions(values, rank, key);
        reveal_with_fuel(lookup, 3);
        if candidate is Some {
            assert(output.drop_first() =~= Seq::empty());
        }
    } else {
        let first = values[0];
        let rest = values.drop_first();
        lemma_rest_follows(values, rank, direction);
        lemma_versions_first(values, rank, key);
        let vs = versions(values, rank, key);
        let vr = versions(rest, rank, key);
        if rank(first) == key {
            assert(vs.drop_first() =~= vr);
            assert(vs[0] == first);
        }
        match candidate {
            Some(value) => {
                if rank(value) == rank(first) {
                    lemma_reduced_lookup(
                        rest,
                        rank,
                        usage,
                        merge_one(usage, candidate, first),
                        direction,
                        key,
                    );
                } else {
                    lemma_reduced_lookup(rest, rank, usage, Some(first), direction, key);
                    let tail = reduced(rest, rank, usage, Some(first));
                    assert(output.drop_first() =~= tail);
                    assert(output[0] == value);
                    if rank(value) == key {
                        assert forall|p: int| 0 <= p < values.len() implies rank(
                            #[trigger] values[p],
                        ) != key by {
                            if p > 0 {
                                assert(!direction.precedes(rank(values[p]), rank(values[0])));
                            }
                        }
                        lemma_no_versions(values, rank, key);
                    }
                }
            },
            None => {
                lemma_reduced_lookup(rest, rank, usage, Some(first), direction, key);
            },
        }
    }
}

proof fn lemma_rest_follows<V>(values: Seq<V>, rank: spec_fn(V) -> int, direction: Direction)
    requires
        values.len() > 0,
        follows(values, rank, direction),
    ensures
        follows(values.drop_first(), rank, direction),
        forall|p: int|
            0 <= p < values.drop_first().len() ==> !direction.precedes(
                rank(#[trigger] values.drop_first()[p]),
                rank(values[0]),
            ),
{
    let rest = values.drop_first();
    assert forall|p: int| 0 <= p < rest.len() implies rest[p] == #[trigger] values[p + 1] by {}
    assert forall|i: int, j: int| 0 <= i < j < rest.len() implies !direction.precedes(
        rank(#[trigger] rest[j]),
        rank(#[trigger] rest[i]),
    ) by {
        assert(rest[i] == values[i + 1] && rest[j] == values[j + 1]);
    }
    assert forall|p: int| 0 <= p < rest.len() implies !direction.precedes(
        rank(#[trigger] rest[p]),
        rank(values[0]),
    ) by {
        assert(rest[p] == values[p + 1]);
    }
}

/// What comes out of values that follow the direction is strict.
pub proof fn lemma_reduced_strict<V>(
    values: Seq<V>,
    rank: spec_fn(V) -> int,
    usage: Usage,
    candidate: Option<V>,
    direction: Direction,
    bound: int,
)
    requires
        follows(values, rank, direction),
        candidate matches Some(value) ==> forall|p: int|
            0 <= p < values.len() ==> !direction.precedes(rank(#[trigger] values[p]), rank(value)),
        candidate matches Some(value) ==> !direction.precedes(rank(value), bound),
        forall|p: int|
            0 <= p < values.len() ==> !direction.precedes(rank(#[trigger] values[p]), bound),
    ensures
        strictly_follows(reduced(values, rank, usage, candidate), rank, direction),
        forall|p: int|
            0 <= p < reduced(values, rank, usage, candidate).len() ==> !direction.precedes(
                rank(#[trigger] reduced(values, rank, usage, candidate)[p]),
                bound,
            ),
        reduced(values, rank, usage, candidate).len() <= values.len() + if candidate is Some {
            1int
        } else {
            0
        },
    decreases values.len(),
{
    let output = reduced(values, rank, usage, candidate);
    if values.len() > 0 {
        let first = values[0];
        let rest = values.drop_first();
        lemma_rest_follows(values, rank, direction);
        assert forall|p: int| 0 <= p < rest.len() implies !direction.precedes(
            rank(#[trigger] rest[p]),
            bound,
        ) by {
            assert(rest[p] == values[p + 1]);
        }
        match candidate {
            Some(value) => {
                if rank(value) == rank(first) {
                    lemma_reduced_strict(
                        rest,
                        rank,
                        usage,
                        merge_one(usage, candidate, first),
                        direction,
                        bound,
                    );
                } else {
                    lemma_reduced_strict(rest, rank, usage, Some(first), direction, rank(first));
                    let tail = reduced(rest, rank, usage, Some(first));
                    assert forall|i: int, j: int| 0 <= i < j < output.len() implies direction.precedes(
                        rank(#[trigger] output[i]),
                        rank(#[trigger] output[j]),
                    ) by {
                        assert(output[j] == tail[j - 1]);
                        if i > 0 {
                            assert(output[i] == tail[i - 1]);
                        }
                    }
                    assert forall|p: int| 0 <= p < output.len() implies !direction.precedes(
                        rank(#[trigger] output[p]),
                        bound,
                    ) by {
                        if p > 0 {
                            assert(output[p] == tail[p - 1]);
                        }
                    }
                }
            },
            None => {
                lemma_reduced_strict(rest, rank, usage, Some(first), direction, bound);
            },
        }
    }
}

/// Where no key occurs twice, what is found is the only version.
proof fn lemma_versions_of_strict<V>(
    values: Seq<V>,
    rank: spec_fn(V) -> int,
    direction: Direction,
    key: int,
)
    requires
        strictly_follows(values, rank, direction),
    ensures
        versions(values, rank, key) == match lookup(values, rank, key) {
            Some(value) => seq![value],
            None => Seq::empty(),
        },
    decreases values.len(),
{
    if values.len() == 0 {
        lemma_no_versions(values, rank, key);
    } else {
        let rest = values.drop_first();
        assert forall|p: int| 0 <= p < rest.len() implies #[trigger] rest[p] == values[p + 1] by {}
        lemma_versions_first(values, rank, key);
        if rank(values[0]) == key {
            lemma_no_versions(rest, rank, key);
            assert(seq![values[0]] + Seq::<V>::empty() =~= seq![values[0]]);
        } else {
            lemma_versions_of_strict(rest, rank, direction, key);
        }
    }
}

/// Reducing the values past `index` changes nothing of what the versions of a key add up to.
pub proof fn law_reducing_a_suffix_keeps_what_survives<V>(
    before: Seq<V>,
    after: Seq<V>,
    index: int,
    rank: spec_fn(V) -> int,
    usage: Usage,
    key: int,
)
    requires
        0 <= index <= before.len(),
        index <= after.len(),
        after.take(index) == before.take(index),
        is_reduced(after.skip(index), before.skip(index), rank, usage),
    ensures
        surviving(usage, versions(after, rank, key)) is Some <==> surviving(
            usage,
            versions(before, rank, key),
        ) is Some,
        usage is General ==> surviving(usage, versions(after, rank, key)) == surviving(
            usage,
            versions(before, rank, key),
        ),
{
    assert(before =~= before.take(index) + before.skip(index));
    assert(after =~= after.take(index) + after.skip(index));
    lemma_versions_add(before.take(index), before.skip(index), rank, key);
    lemma_versions_add(after.take(index), after.skip(index), rank, key);
    lemma_versions_of_strict(after.skip(index), rank, Direction::Ascending, key);
    assert(lookup(after.skip(index), rank, key) == surviving(
        usage,
        versions(before.skip(index), rank, key),
    ));
}

/// Reducing the values before others changes nothing of what the versions of a key add up to.
pub proof fn law_reducing_a_prefix_keeps_what_survives<V>(
    before: Seq<V>,
    after: Seq<V>,
    added: Seq<V>,
    rank: spec_fn(V) -> int,
    usage: Usage,
    key: int,
)
    requires
        is_reduced(after, before, rank, usage),
    ensures
        surviving(usage, versions(after + added, rank, key)) == surviving(
            usage,
            versions(before + added, rank, key),
        ),
{
    lemma_versions_add(before, added, rank, key);
    lemma_versions_add(after, added, rank, key);
    lemma_versions_of_strict(after, rank, Direction::Ascending, key);
    assert(lookup(after, rank, key) == surviving(usage, versions(before, rank, key)));
    let newer = versions(added, rank, key);
    if newer.len() > 0 {
        assert((versions(before, rank, key) + newer).last() == newer.last());
        assert((versions(after, rank, key) + newer).last() == newer.last());
    } else {
        assert(versions(before, rank, key) + newer =~= versions(before, rank, key));
        assert(versions(after, rank, key) + newer =~= versions(after, rank, key));
    }
}

/// Reducing values that follow the direction keeps what the versions of every key add up to, and
/// leaves one value per key at most.
pub proof fn law_reduction_keeps_what_survives<V>(
    values: Seq<V>,
    rank: spec_fn(V) -> int,
    usage: Usage,
    direction: Direction,
)
    requires
        follows(values, rank, direction),
    ensures
        strictly_follows(reduced(values, rank, usage, None), rank, direction),
        reduced(values, rank, usage, None).len() <= values.len(),
        forall|key: int| #[trigger]
            lookup(reduced(values, rank, usage, None), rank, key) == surviving(
                usage,
                versions(values, rank, key),
            ),
{
    if values.len() > 0 {
        lemma_rest_follows(values, rank, direction);
        assert forall|p: int| 0 <= p < values.len() implies !direction.precedes(
            rank(#[trigger] values[p]),
            rank(values[0]),
        ) by {
            if p > 0 {
                assert(!direction.precedes(rank(values[p]), rank(values[0])));
            }
        }
        lemma_reduced_strict(values, rank, usage, None, direction, rank(values[0]));
    }
    assert forall|key: int| #[trigger]
        lookup(reduced(values, rank, usage, None), rank, key) == surviving(
            usage,
            versions(values, rank, key),
        ) by {
        lemma_reduced_lookup(values, rank, usage, None, direction, key);
        lemma_merge_all(usage, None, versions(values, rank, key));
    }
}

/// The values are in the order of their keys.
pub open spec fn in_order<V>(values: Seq<V>, rank: spec_fn(V) -> int) -> bool {
    follows(values, rank, Direction::Ascending)
}

/// Nothing has changed but for what stands from `lo` up to but not at `hi`.
pub open spec fn kept_outside<V>(before: Seq<V>, after: Seq<V>, lo: int, hi: int) -> bool {
    &&& after.len() == before.len()
    &&& forall|i: int|
        (0 <= i < lo || hi <= i < before.len()) ==> #[trigger] after[i] == before[i]
}

/// Merges two sorted halves of `values[lo..hi]`. Of values with the same key, those of the left
/// half come first.
#[verifier::rlimit(60)]
fn merge_halves<T: Table>(
    values: &mut Vec<T::Value>,
    scratch: &mut [T::Value],
    lo: usize,
    mid: usize,
    hi: usize,
)
    requires
        lo <= mid <= hi <= old(values)@.len(),
        old(values)@.len() <= old(scratch)@.len(),
        in_order(old(values)@.subrange(lo as int, mid as int), key_rank::<T>()),
        in_order(old(values)@.subrange(mid as int, hi as int), key_rank::<T>()),
    ensures
        final(values)@.len() == old(values)@.len(),
        kept_outside(old(scratch)@, final(scratch)@, lo as int, hi as int),
        forall|p: int|
            0 <= p < lo || hi <= p < old(values)@.len() ==> #[trigger] final(values)@[p] == old(values)@[p],
        in_order(final(values)@.subrange(lo as int, hi as int), key_rank::<T>()),
        forall|key: int| #[trigger]
            versions(
                final(values)@.subrange(lo as int, hi as int),
                key_rank::<T>(),
                key,
            ) == versions(old(values)@.subrange(lo as int, hi as int), key_rank::<T>(), key),
{
    let ghost rank = key_rank::<T>();
    let ghost source = values@;
    let ghost width = scratch@.len();
    let ghost lent = scratch@;
    let ghost left = source.subrange(lo as int, mid as int);
    let ghost right = source.subrange(mid as int, hi as int);
    let mut i: usize = lo;
    let mut j: usize = mid;
    let mut t: usize = lo;
    let ghost mut output: Seq<T::Value> = Seq::empty();
    proof {
        assert forall|key: int| #[trigger] versions(output, rank, key) == versions(
            left.take(0),
            rank,
            key,
        ) + versions(right.take(0), rank, key) by {
            lemma_no_versions(output, rank, key);
            lemma_no_versions(left.take(0), rank, key);
            lemma_no_versions(right.take(0), rank, key);
            assert(Seq::<T::Value>::empty() + Seq::<T::Value>::empty() =~= Seq::empty());
        }
    }
    while t < hi
        invariant
            lo <= i <= mid,
            mid <= j <= hi,
            t == i + j - mid,
            hi <= source.len(),
            values@ == source,
            scratch@.len() == width,
            kept_outside(lent, scratch@, lo as int, hi as int),
            source.len() <= width,
            rank == key_rank::<T>(),
            left == source.subrange(lo as int, mid as int),
            right == source.subrange(mid as int, hi as int),
            in_order(left, rank),
            in_order(right, rank),
            output == scratch@.subrange(lo as int, t as int),
            in_order(output, rank),
            forall|p: int, q: int|
                0 <= p < output.len() && i - lo <= q < left.len() ==> rank(#[trigger] output[p])
                    <= rank(#[trigger] left[q]),
            forall|p: int, q: int|
                0 <= p < output.len() && j - mid <= q < right.len() ==> rank(#[trigger] output[p])
                    <= rank(#[trigger] right[q]),
            forall|p: int, q: int|
                0 <= p < j - mid && i - lo <= q < left.len() ==> rank(#[trigger] right[p]) < rank(
                    #[trigger] left[q],
                ),
            forall|key: int| #[trigger]
                versions(output, rank, key) == versions(left.take(i - lo), rank, key) + versions(
                    right.take(j - mid),
                    rank,
                    key,
                ),
        decreases hi - t,
    {
        let from_left = if i == mid {
            false
        } else if j == hi {
            true
        } else {
            T::key_from_value(&values[i]).key_le(T::key_from_value(&values[j]))
        };
        let value = if from_left {
            values[i]
        } else {
            values[j]
        };
        let ghost before = output;
        scratch[t] = value;
        proof {
            output = scratch@.subrange(lo as int, t + 1);
            assert(output =~= before.push(value));
            if i < mid {
                assert(left[i - lo] == source[i as int]);
            }
            if j < hi {
                assert(right[j - mid] == source[j as int]);
            }
            if from_left {
                assert(value == left[i - lo]);
                assert forall|q: int| j - mid <= q < right.len() implies rank(value) <= rank(
                    #[trigger] right[q],
                ) by {
                    assert(rank(right[j - mid]) <= rank(right[q]));
                }
                assert forall|q: int| i + 1 - lo <= q < left.len() implies rank(value) <= rank(
                    #[trigger] left[q],
                ) by {
                    assert(!Direction::Ascending.precedes(rank(left[q]), rank(left[i - lo])));
                }
                assert(left.take(i + 1 - lo) =~= left.take(i - lo).push(value));
                assert forall|key: int| #[trigger] versions(output, rank, key) == versions(
                    left.take(i + 1 - lo),
                    rank,
                    key,
                ) + versions(right.take(j - mid), rank, key) by {
                    lemma_versions_push(before, value, rank, key);
                    lemma_versions_push(left.take(i - lo), value, rank, key);
                    assert(versions(before, rank, key) == versions(left.take(i - lo), rank, key)
                        + versions(right.take(j - mid), rank, key));
                    if rank(value) == key {
                        let taken = right.take(j - mid);
                        assert forall|p: int| 0 <= p < taken.len() implies rank(
                            #[trigger] taken[p],
                        ) != key by {
                            assert(taken[p] == right[p]);
                        }
                        lemma_no_versions(taken, rank, key);
                        assert((versions(left.take(i - lo), rank, key) + Seq::empty()).push(value)
                            =~= versions(left.take(i - lo), rank, key).push(value)
                            + Seq::empty());
                    }
                }
            } else {
                assert(value == right[j - mid]);
                assert forall|q: int| i - lo <= q < left.len() implies rank(value) < rank(
                    #[trigger] left[q],
                ) by {
                    if q > i - lo {
                        assert(!Direction::Ascending.precedes(rank(left[q]), rank(left[i - lo])));
                    }
                }
                assert forall|q: int| j + 1 - mid <= q < right.len() implies rank(value) <= rank(
                    #[trigger] right[q],
                ) by {
                    assert(!Direction::Ascending.precedes(rank(right[q]), rank(right[j - mid])));
                }
                assert(right.take(j + 1 - mid) =~= right.take(j - mid).push(value));
                assert forall|key: int| #[trigger] versions(output, rank, key) == versions(
                    left.take(i - lo),
                    rank,
                    key,
                ) + versions(right.take(j + 1 - mid), rank, key) by {
                    lemma_versions_push(before, value, rank, key);
                    lemma_versions_push(right.take(j - mid), value, rank, key);
                    assert(versions(before, rank, key) == versions(left.take(i - lo), rank, key)
                        + versions(right.take(j - mid), rank, key));
                    if rank(value) == key {
                        assert((versions(left.take(i - lo), rank, key) + versions(
                            right.take(j - mid),
                            rank,
                            key,
                        )).push(value) =~= versions(left.take(i - lo), rank, key) + versions(
                            right.take(j - mid),
                            rank,
                            key,
                        ).push(value));
                    }
                }
            }
        }
        if from_left {
            i = i + 1;
        } else {
            j = j + 1;
        }
        t = t + 1;
    }
    proof {
        assert(left.take(i - lo) =~= left);
        assert(right.take(j - mid) =~= right);
        let whole = source.subrange(lo as int, hi as int);
        assert(whole =~= left + right);
        assert forall|key: int| #[trigger] versions(output, rank, key) == versions(
            whole,
            rank,
            key,
        ) by {
            lemma_versions_add(left, right, rank, key);
        }
    }
    let mut k: usize = lo;
    while k < hi
        invariant
            lo <= k <= hi,
            hi <= source.len(),
            source.len() <= width,
            scratch@.len() == width,
            kept_outside(lent, scratch@, lo as int, hi as int),
            values@.len() == source.len(),
            output == scratch@.subrange(lo as int, hi as int),
            forall|p: int| lo <= p < k ==> #[trigger] values@[p] == scratch@[p],
            forall|p: int|
                0 <= p < lo || hi <= p < source.len() ==> #[trigger] values@[p] == source[p],
        decreases hi - k,
    {
        let value = scratch[k];
        values.set(k, value);
        k = k + 1;
    }
    assert(values@.subrange(lo as int, hi as int) =~= output);
}

/// Sorts `values[lo..hi]` by key. Values with the same key stay in the order in which they are.
fn merge_sort<T: Table>(
    values: &mut Vec<T::Value>,
    scratch: &mut [T::Value],
    lo: usize,
    hi: usize,
)
    requires
        lo <= hi <= old(values)@.len(),
        old(values)@.len() <= old(scratch)@.len(),
    ensures
        final(values)@.len() == old(values)@.len(),
        kept_outside(old(scratch)@, final(scratch)@, lo as int, hi as int),
        forall|p: int|
            0 <= p < lo || hi <= p < old(values)@.len() ==> #[trigger] final(values)@[p] == old(values)@[p],
        in_order(final(values)@.subrange(lo as int, hi as int), key_rank::<T>()),
        forall|key: int| #[trigger]
            versions(
                final(values)@.subrange(lo as int, hi as int),
                key_rank::<T>(),
                key,
            ) == versions(old(values)@.subrange(lo as int, hi as int), key_rank::<T>(), key),
    decreases hi - lo,
{
    if hi - lo < 2 {
        return;
    }
    let ghost rank = key_rank::<T>();
    let ghost source = values@;
    let mid: usize = lo + (hi - lo) / 2;
    merge_sort::<T>(values, scratch, lo, mid);
    let ghost left_sorted = values@;
    merge_sort::<T>(values, scratch, mid, hi);
    let ghost both_sorted = values@;
    proof {
        assert(both_sorted.subrange(lo as int, mid as int) =~= left_sorted.subrange(
            lo as int,
            mid as int,
        ));
        assert(left_sorted.subrange(mid as int, hi as int) =~= source.subrange(
            mid as int,
            hi as int,
        ));
        let a = source.subrange(lo as int, mid as int);
        let b = source.subrange(mid as int, hi as int);
        let c = both_sorted.subrange(lo as int, mid as int);
        let d = both_sorted.subrange(mid as int, hi as int);
        assert(source.subrange(lo as int, hi as int) =~= a + b);
        assert(both_sorted.subrange(lo as int, hi as int) =~= c + d);
        assert forall|key: int| #[trigger] versions(
            both_sorted.subrange(lo as int, hi as int),
            rank,
            key,
        ) == versions(source.subrange(lo as int, hi as int), rank, key) by {
            lemma_versions_add(a, b, rank, key);
            lemma_versions_add(c, d, rank, key);
            assert(versions(c, rank, key) == versions(a, rank, key));
            assert(versions(d, rank, key) == versions(b, rank, key));
        }
    }
    merge_halves::<T>(values, scratch, lo, mid, hi);
}

/// Puts one version of a key after another. Of a secondary index, they cancel out.
pub(crate) fn dedup_values<T: Table>(candidate: T::Value, value: T::Value) -> (result: Option<
    T::Value,
>)
    requires
        T::key_of(candidate) == T::key_of(value),
    ensures
        result == merge_one(T::USAGE, Some(candidate), value),
{
    match T::USAGE {
        Usage::SecondaryIndex => None,
        Usage::General => Some(value),
    }
}

/// Sorts the values from `index` on, and reduces the versions of every key to what they add up to.
/// Returns how many values there are now.
#[verifier::rlimit(40)]
pub fn sort_suffix_from_index<T: Table>(
    values: &mut Vec<T::Value>,
    scratch: &mut [T::Value],
    index: u32,
) -> (result: u32)
    requires
        index <= old(values)@.len() <= u32::MAX,
        old(values)@.len() <= old(scratch)@.len(),
        alternates::<T>(old(values)@.skip(index as int)),
    ensures
        result == final(values)@.len(),
        index <= result <= old(values)@.len(),
        kept_outside(
            old(scratch)@,
            final(scratch)@,
            index as int,
            old(values)@.len() as int,
        ),
        final(values)@.take(index as int) == old(values)@.take(index as int),
        is_reduced(
            final(values)@.skip(index as int),
            old(values)@.skip(index as int),
            key_rank::<T>(),
            T::USAGE,
        ),
{
    let ghost rank = key_rank::<T>();
    let ghost source = values@;
    let count: usize = values.len();
    let start: usize = index as usize;
    merge_sort::<T>(values, scratch, start, count);
    let ghost sorted = values@.skip(start as int);
    proof {
        assert(values@.subrange(start as int, count as int) =~= sorted);
        assert(source.subrange(start as int, count as int) =~= source.skip(start as int));
        law_reduction_keeps_what_survives(sorted, rank, T::USAGE, Direction::Ascending);
        assert forall|key: int| #[trigger]
            lookup(reduced(sorted, rank, T::USAGE, None), rank, key) == surviving(
                T::USAGE,
                versions(source.skip(start as int), rank, key),
            ) by {
            assert(versions(sorted, rank, key) == versions(
                source.skip(start as int),
                rank,
                key,
            ));
        }
        assert(sorted.skip(0) =~= sorted);
        assert(Seq::empty() + reduced(sorted, rank, T::USAGE, None) =~= reduced(
            sorted,
            rank,
            T::USAGE,
            None,
        ));
        assert(values@.subrange(start as int, start as int) =~= Seq::empty());
    }
    let mut target: usize = start;
    let mut candidate: Option<T::Value> = None;
    let mut i: usize = start;
    while i < count
        invariant
            start <= target <= i <= count,
            start == index,
            count == source.len(),
            values@.len() == count,
            rank == key_rank::<T>(),
            sorted.len() == count - start,
            candidate is Some ==> target < i,
            forall|p: int| 0 <= p < start ==> #[trigger] values@[p] == source[p],
            forall|p: int| i <= p < count ==> #[trigger] values@[p] == sorted[p - start],
            reduced(sorted, rank, T::USAGE, None) == values@.subrange(
                start as int,
                target as int,
            ) + reduced(sorted.skip(i - start), rank, T::USAGE, candidate),
        decreases count - i,
    {
        let value = values[i];
        let ghost written = values@.subrange(start as int, target as int);
        let ghost rest = sorted.skip(i - start);
        proof {
            assert(rest[0] == value);
            assert(rest.drop_first() =~= sorted.skip(i + 1 - start));
        }
        match candidate {
            Some(previous) => {
                let previous_key = T::key_from_value(&previous);
                let value_key = T::key_from_value(&value);
                proof {
                    T::Key::rank_injective(previous_key, value_key);
                }
                if previous_key.key_eq(value_key) {
                    candidate = dedup_values::<T>(previous, value);
                } else {
                    values.set(target, previous);
                    target = target + 1;
                    candidate = Some(value);
                    proof {
                        let tail = reduced(rest.drop_first(), rank, T::USAGE, candidate);
                        assert(values@.subrange(start as int, target as int) =~= written.push(
                            previous,
                        ));
                        assert(written + (seq![previous] + tail) =~= written.push(previous)
                            + tail);
                    }
                }
            },
            None => {
                candidate = Some(value);
            },
        }
        i = i + 1;
    }
    let ghost written = values@.subrange(start as int, target as int);
    proof {
        assert(sorted.skip(count - start) =~= Seq::empty());
    }
    match candidate {
        Some(last) => {
            values.set(target, last);
            target = target + 1;
            proof {
                assert(values@.subrange(start as int, target as int) =~= written + seq![last]);
            }
        },
        None => {
            assert(written + Seq::empty() =~= written);
        },
    }
    let ghost full = values@;
    values.truncate(target);
    proof {
        assert(values@.skip(start as int) =~= full.subrange(start as int, target as int));
        assert(values@.take(start as int) =~= source.take(start as int));
    }
    target as u32
}

/// The last version of a key is the one that counts. In a secondary index, a version that comes
/// after one that counts cancels it, and one that comes after none counts.
pub proof fn law_versions_cancel_in_an_index<V>(versions: Seq<V>, value: V)
    ensures
        surviving(Usage::General, versions.push(value)) == Some(value),
        surviving(Usage::SecondaryIndex, versions.push(value)) == match surviving(
            Usage::SecondaryIndex,
            versions,
        ) {
            Some(_) => None,
            None => Some(value),
        },
        surviving(Usage::General, Seq::<V>::empty()) is None,
        surviving(Usage::SecondaryIndex, Seq::<V>::empty()) is None,
{
}

/// The versions of a key are all the values of that key, in the order in which they came.
pub proof fn law_versions_are_of_one_key<V>(
    values: Seq<V>,
    value: V,
    rank: spec_fn(V) -> int,
    key: int,
)
    ensures
        versions(values.push(value), rank, key) == if rank(value) == key {
            versions(values, rank, key).push(value)
        } else {
            versions(values, rank, key)
        },
{
    reveal(Seq::filter);
    assert(values.push(value).drop_last() =~= values);
}

} // verus!
