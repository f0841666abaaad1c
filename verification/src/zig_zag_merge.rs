//! Intersecting sorted streams.
//!
//! The join is driven by conflict: if two streams disagree on the next key, the one that lags
//! behind can skip ahead. An empty stream ends the join. It comes to rest when all streams that
//! are ready agree on the key, and then either all are ready and the key is common to them, or
//! those that are not have been told how far to skip.

use crate::direction::Direction;
use crate::k_way_merge::{strictly_follows, TournamentKey};
use crate::key::OrderedKey;
use vstd::prelude::*;

verus! {

/// A stream has nothing to say until it is refilled.
#[derive(Clone, Copy, Debug, PartialEq, Eq, Structural)]
pub struct Pending;

/// The streams of a join.
pub trait ZigZagMergeSpec: Sized {
    type Context;

    type Key: TournamentKey;

    type Value: Copy;

    /// The most streams.
    const STREAMS_MAX: usize;

    /// What the streams still hold.
    open spec fn streams(context: &Self::Context) -> Seq<Seq<Self::Value>> {
        arbitrary()
    }

    /// The order of the values of a stream.
    open spec fn direction(context: &Self::Context) -> Direction {
        arbitrary()
    }

    /// Whether a stream has to be refilled before its head is known.
    open spec fn pending(context: &Self::Context, stream_index: int) -> bool {
        arbitrary()
    }

    /// No stream ever has to be refilled.
    open spec fn always_ready(context: &Self::Context) -> bool {
        arbitrary()
    }

    /// The streams and keys of the probes so far, if the context keeps count of them.
    open spec fn probes(context: &Self::Context) -> Option<Seq<(int, Self::Key)>> {
        arbitrary()
    }

    open spec fn spec_key(value: Self::Value) -> Self::Key {
        arbitrary()
    }

    /// The key of a value.
    fn key_from_value(value: &Self::Value) -> (result: Self::Key)
        ensures
            result == Self::spec_key(*value),
    ;

    /// The key of the head of a stream, or `None` if it has run dry.
    ///
    /// # Errors
    /// `Pending` if the stream has to be refilled first.
    fn stream_peek(context: &mut Self::Context, stream_index: u32) -> (result: Result<
        Option<Self::Key>,
        Pending,
    >)
        requires
            stream_index < Self::streams(old(context)).len(),
        ensures
            Self::streams(final(context)) == Self::streams(old(context)),
            Self::direction(final(context)) == Self::direction(old(context)),
            Self::probes(final(context)) == Self::probes(old(context)),
            forall|i: int|
                #[trigger] Self::pending(final(context), i) == Self::pending(old(context), i),
            Self::always_ready(old(context)) ==> Self::always_ready(final(context))
                && !Self::pending(old(context), stream_index as int),
            result is Err <==> Self::pending(old(context), stream_index as int),
            result matches Ok(key) ==> key == if Self::streams(
                old(context),
            )[stream_index as int].len() == 0 {
                None
            } else {
                Some(Self::spec_key(Self::streams(old(context))[stream_index as int][0]))
            },
    ;

    /// Takes the head of a stream that is neither dry nor to be refilled.
    fn stream_pop(context: &mut Self::Context, stream_index: u32) -> (result: Self::Value)
        requires
            stream_index < Self::streams(old(context)).len(),
            Self::streams(old(context))[stream_index as int].len() > 0,
            !Self::pending(old(context), stream_index as int),
        ensures
            result == Self::streams(old(context))[stream_index as int][0],
            Self::streams(final(context)) == Self::streams(old(context)).update(
                stream_index as int,
                Self::streams(old(context))[stream_index as int].drop_first(),
            ),
            Self::direction(final(context)) == Self::direction(old(context)),
            Self::probes(final(context)) == Self::probes(old(context)),
            forall|i: int|
                i != stream_index ==> #[trigger] Self::pending(final(context), i) == Self::pending(
                    old(context),
                    i,
                ),
            Self::always_ready(old(context)) ==> Self::always_ready(final(context)),
    ;

    /// Skips the values of a stream that come before the key. The stream may run dry, or it may
    /// have to be refilled afterwards; one that has to be refilled stays so.
    fn stream_probe(context: &mut Self::Context, stream_index: u32, probe_key: Self::Key)
        requires
            stream_index < Self::streams(old(context)).len(),
        ensures
            Self::streams(final(context)) == Self::streams(old(context)).update(
                stream_index as int,
                skipped(
                    Self::streams(old(context))[stream_index as int],
                    |value: Self::Value| Self::spec_key(value).rank(),
                    Self::direction(old(context)),
                    probe_key.rank(),
                ),
            ),
            Self::direction(final(context)) == Self::direction(old(context)),
            Self::probes(final(context)) == with_probes(
                Self::probes(old(context)),
                seq![(stream_index as int, probe_key)],
            ),
            forall|i: int|
                i != stream_index ==> #[trigger] Self::pending(final(context), i) == Self::pending(
                    old(context),
                    i,
                ),
            Self::pending(old(context), stream_index as int) ==> Self::pending(
                final(context),
                stream_index as int,
            ),
            Self::always_ready(old(context)) ==> Self::always_ready(final(context)),
    ;
}

/// The values of a stream without those that come before the bound.
pub open spec fn skipped<V>(
    stream: Seq<V>,
    rank: spec_fn(V) -> int,
    direction: Direction,
    bound: int,
) -> Seq<V>
    decreases stream.len(),
{
    if stream.len() > 0 && direction.precedes(rank(stream[0]), bound) {
        skipped(stream.drop_first(), rank, direction, bound)
    } else {
        stream
    }
}

/// The probes with more of them.
pub open spec fn with_probes<K>(probes: Option<Seq<(int, K)>>, more: Seq<(int, K)>) -> Option<
    Seq<(int, K)>,
> {
    match probes {
        Some(probes) => Some(probes + more),
        None => None,
    }
}

/// To skip to a bound and then to a later one is to skip to the later one.
proof fn lemma_skip_twice<V>(
    stream: Seq<V>,
    rank: spec_fn(V) -> int,
    direction: Direction,
    bound: int,
    later: int,
)
    requires
        !direction.precedes(later, bound),
    ensures
        skipped(skipped(stream, rank, direction, bound), rank, direction, later) == skipped(
            stream,
            rank,
            direction,
            later,
        ),
    decreases stream.len(),
{
    if stream.len() > 0 && direction.precedes(rank(stream[0]), bound) {
        lemma_skip_twice(stream.drop_first(), rank, direction, bound, later);
    }
}

fn comes_before<K: OrderedKey>(direction: Direction, a: &K, b: &K) -> (result: bool)
    ensures
        result == direction.precedes(a.rank(), b.rank()),
{
    direction.cmp_lt(a, b)
}

/// Where the values of a join stand in the order.
pub open spec fn value_rank<S: ZigZagMergeSpec>() -> spec_fn(S::Value) -> int {
    |value: S::Value| S::spec_key(value).rank()
}

/// Whether a stream holds a value of the given rank.
pub open spec fn occurs<V>(stream: Seq<V>, rank: spec_fn(V) -> int, wanted: int) -> bool {
    exists|p: int| 0 <= p < stream.len() && rank(#[trigger] stream[p]) == wanted
}

/// Whether all streams hold a value of the given rank.
pub open spec fn is_common<V>(
    streams: Seq<Seq<V>>,
    rank: spec_fn(V) -> int,
    wanted: int,
) -> bool {
    forall|i: int| 0 <= i < streams.len() ==> occurs(#[trigger] streams[i], rank, wanted)
}

/// The values that all streams hold.
pub open spec fn joined<V>(streams: Seq<Seq<V>>, rank: spec_fn(V) -> int) -> Seq<V> {
    streams[0].filter(|value: V| is_common(streams, rank, rank(value)))
}

/// Values of one rank are the same, whichever stream they come from.
pub open spec fn agree<V>(streams: Seq<Seq<V>>, rank: spec_fn(V) -> int) -> bool {
    forall|i: int, p: int, j: int, q: int|
        0 <= i < streams.len() && 0 <= j < streams.len() && 0 <= p < streams[i].len() && 0 <= q
            < streams[j].len() && rank(#[trigger] streams[i][p]) == rank(#[trigger] streams[j][q])
            ==> streams[i][p] == streams[j][q]
}

/// Every stream follows the direction, and holds no two values of one rank.
pub open spec fn all_strict<V>(
    streams: Seq<Seq<V>>,
    rank: spec_fn(V) -> int,
    direction: Direction,
) -> bool {
    forall|i: int|
        0 <= i < streams.len() ==> strictly_follows(#[trigger] streams[i], rank, direction)
}

/// No value that comes before the bound is common to all streams.
spec fn none_common_before<V>(
    streams: Seq<Seq<V>>,
    rank: spec_fn(V) -> int,
    direction: Direction,
    bound: int,
) -> bool {
    forall|wanted: int| #[trigger]
        is_common(streams, rank, wanted) ==> !direction.precedes(wanted, bound)
}

/// Skipping takes a prefix, all of which comes before the bound.
proof fn lemma_skipped<V>(
    stream: Seq<V>,
    rank: spec_fn(V) -> int,
    direction: Direction,
    bound: int,
) -> (count: int)
    requires
        strictly_follows(stream, rank, direction),
    ensures
        0 <= count <= stream.len(),
        skipped(stream, rank, direction, bound) == stream.skip(count),
        forall|p: int|
            0 <= p < count ==> direction.precedes(rank(#[trigger] stream[p]), bound),
        forall|p: int|
            count <= p < stream.len() ==> !direction.precedes(rank(#[trigger] stream[p]), bound),
    decreases stream.len(),
{
    if stream.len() > 0 && direction.precedes(rank(stream[0]), bound) {
        let rest = stream.drop_first();
        assert forall|i: int, j: int| 0 <= i < j < rest.len() implies direction.precedes(
            rank(#[trigger] rest[i]),
            rank(#[trigger] rest[j]),
        ) by {
            assert(rest[i] == stream[i + 1] && rest[j] == stream[j + 1]);
        }
        let count = lemma_skipped(rest, rank, direction, bound);
        assert(rest.skip(count) =~= stream.skip(count + 1));
        assert forall|p: int| 0 <= p < count + 1 implies direction.precedes(
            rank(#[trigger] stream[p]),
            bound,
        ) by {
            if p > 0 {
                assert(rest[p - 1] == stream[p]);
            }
        }
        assert forall|p: int| count + 1 <= p < stream.len() implies !direction.precedes(
            rank(#[trigger] stream[p]),
            bound,
        ) by {
            assert(rest[p - 1] == stream[p]);
        }
        count + 1
    } else {
        assert(stream.skip(0) =~= stream);
        assert forall|p: int| 0 <= p < stream.len() implies !direction.precedes(
            rank(#[trigger] stream[p]),
            bound,
        ) by {
            if p > 0 {
                assert(direction.precedes(rank(stream[0]), rank(stream[p])));
            }
        }
        0
    }
}

/// Two filters that agree on a sequence give the same.
proof fn lemma_filter_agrees<V>(s: Seq<V>, f: spec_fn(V) -> bool, g: spec_fn(V) -> bool)
    requires
        forall|p: int| 0 <= p < s.len() ==> f(#[trigger] s[p]) == g(s[p]),
    ensures
        s.filter(f) == s.filter(g),
    decreases s.len(),
{
    reveal(Seq::filter);
    if s.len() > 0 {
        assert forall|p: int| 0 <= p < s.drop_last().len() implies f(
            #[trigger] s.drop_last()[p],
        ) == g(s.drop_last()[p]) by {
            assert(s.drop_last()[p] == s[p]);
        }
        lemma_filter_agrees(s.drop_last(), f, g);
        assert(f(s[s.len() - 1]) == g(s[s.len() - 1]));
    }
}

/// A filter that passes nothing gives nothing.
proof fn lemma_filter_empty<V>(s: Seq<V>, f: spec_fn(V) -> bool)
    requires
        forall|p: int| 0 <= p < s.len() ==> !f(#[trigger] s[p]),
    ensures
        s.filter(f) == Seq::<V>::empty(),
    decreases s.len(),
{
    reveal(Seq::filter);
    if s.len() > 0 {
        assert forall|p: int| 0 <= p < s.drop_last().len() implies !f(
            #[trigger] s.drop_last()[p],
        ) by {
            assert(s.drop_last()[p] == s[p]);
        }
        lemma_filter_empty(s.drop_last(), f);
        assert(!f(s[s.len() - 1]));
    }
}

/// Skipping values that are not common to all streams does not change the join.
proof fn lemma_skip_keeps_join<V>(
    streams: Seq<Seq<V>>,
    rank: spec_fn(V) -> int,
    direction: Direction,
    index: int,
    count: int,
    bound: int,
)
    requires
        streams.len() > 0,
        0 <= index < streams.len(),
        0 <= count <= streams[index].len(),
        forall|p: int|
            0 <= p < count ==> direction.precedes(rank(#[trigger] streams[index][p]), bound),
        none_common_before(streams, rank, direction, bound),
        all_strict(streams, rank, direction),
    ensures
        ({
            let after = streams.update(index, streams[index].skip(count));
            &&& joined(after, rank) == joined(streams, rank)
            &&& none_common_before(after, rank, direction, bound)
            &&& all_strict(after, rank, direction)
            &&& agree(streams, rank) ==> agree(after, rank)
        }),
{
    let after = streams.update(index, streams[index].skip(count));
    assert forall|wanted: int| #[trigger]
        is_common(after, rank, wanted) == is_common(streams, rank, wanted) by {
        if is_common(after, rank, wanted) {
            assert forall|i: int| 0 <= i < streams.len() implies occurs(
                #[trigger] streams[i],
                rank,
                wanted,
            ) by {
                assert(occurs(after[i], rank, wanted));
                let p = choose|p: int|
                    0 <= p < after[i].len() && rank(#[trigger] after[i][p]) == wanted;
                if i == index {
                    assert(streams[i][p + count] == after[i][p]);
                } else {
                    assert(streams[i][p] == after[i][p]);
                }
            }
        }
        if is_common(streams, rank, wanted) {
            assert(!direction.precedes(wanted, bound));
            assert forall|i: int| 0 <= i < after.len() implies occurs(
                #[trigger] after[i],
                rank,
                wanted,
            ) by {
                assert(occurs(streams[i], rank, wanted));
                let p = choose|p: int|
                    0 <= p < streams[i].len() && rank(#[trigger] streams[i][p]) == wanted;
                if i == index {
                    assert(p >= count);
                    assert(after[i][p - count] == streams[i][p]);
                } else {
                    assert(after[i][p] == streams[i][p]);
                }
            }
        }
    }
    let f = |value: V| is_common(streams, rank, rank(value));
    let g = |value: V| is_common(after, rank, rank(value));
    lemma_filter_agrees(after[0], f, g);
    if index == 0 {
        let prefix = streams[0].take(count);
        assert(streams[0] =~= prefix + after[0]);
        assert forall|p: int| 0 <= p < prefix.len() implies !f(#[trigger] prefix[p]) by {
            assert(prefix[p] == streams[0][p]);
        }
        lemma_filter_empty(prefix, f);
        Seq::filter_distributes_over_add(prefix, after[0], f);
        assert(Seq::<V>::empty() + after[0].filter(f) =~= after[0].filter(f));
    }
    assert forall|i: int| 0 <= i < after.len() implies strictly_follows(
        #[trigger] after[i],
        rank,
        direction,
    ) by {
        assert(strictly_follows(streams[i], rank, direction));
        if i == index {
            assert forall|a: int, b: int| 0 <= a < b < after[i].len() implies direction.precedes(
                rank(#[trigger] after[i][a]),
                rank(#[trigger] after[i][b]),
            ) by {
                assert(after[i][a] == streams[i][a + count] && after[i][b] == streams[i][b
                    + count]);
            }
        }
    }
    if agree(streams, rank) {
        assert forall|i: int, p: int, j: int, q: int|
            0 <= i < after.len() && 0 <= j < after.len() && 0 <= p < after[i].len() && 0 <= q
                < after[j].len() && rank(#[trigger] after[i][p]) == rank(
                #[trigger] after[j][q],
            ) implies after[i][p] == after[j][q] by {
            let pp = if i == index {
                p + count
            } else {
                p
            };
            let qq = if j == index {
                q + count
            } else {
                q
            };
            assert(after[i][p] == streams[i][pp]);
            assert(after[j][q] == streams[j][qq]);
        }
    }
}

/// The join of streams of which one has run dry is empty.
proof fn lemma_dry_join<V>(streams: Seq<Seq<V>>, rank: spec_fn(V) -> int, index: int)
    requires
        0 <= index < streams.len(),
        streams[index].len() == 0,
    ensures
        joined(streams, rank) == Seq::<V>::empty(),
{
    let f = |value: V| is_common(streams, rank, rank(value));
    assert forall|p: int| 0 <= p < streams[0].len() implies !f(#[trigger] streams[0][p]) by {
        assert(!occurs(streams[index], rank, rank(streams[0][p])));
    }
    lemma_filter_empty(streams[0], f);
}

/// The streams without the heads of the first `count`.
spec fn popped<V>(streams: Seq<Seq<V>>, count: int) -> Seq<Seq<V>> {
    Seq::new(
        streams.len(),
        |i: int|
            if i < count {
                streams[i].drop_first()
            } else {
                streams[i]
            },
    )
}

/// Where all heads rank the same, the head is the next value of the join.
proof fn lemma_common_heads<V>(
    streams: Seq<Seq<V>>,
    rank: spec_fn(V) -> int,
    direction: Direction,
    wanted: int,
)
    requires
        streams.len() > 0,
        all_strict(streams, rank, direction),
        forall|i: int|
            0 <= i < streams.len() ==> (#[trigger] streams[i]).len() > 0 && rank(streams[i][0])
                == wanted,
    ensures
        ({
            let after = popped(streams, streams.len() as int);
            &&& joined(streams, rank).len() > 0
            &&& joined(streams, rank)[0] == streams[0][0]
            &&& joined(after, rank) == joined(streams, rank).drop_first()
            &&& all_strict(after, rank, direction)
            &&& agree(streams, rank) ==> agree(after, rank)
        }),
{
    let after = popped(streams, streams.len() as int);
    assert forall|i: int| 0 <= i < after.len() implies #[trigger] after[i]
        == streams[i].drop_first() by {}
    assert forall|i: int| 0 <= i < streams.len() implies occurs(
        #[trigger] streams[i],
        rank,
        wanted,
    ) by {
        assert(rank(streams[i][0]) == wanted);
    }
    assert forall|other: int| other != wanted implies #[trigger] is_common(after, rank, other)
        == is_common(streams, rank, other) by {
        if is_common(after, rank, other) {
            assert forall|i: int| 0 <= i < streams.len() implies occurs(
                #[trigger] streams[i],
                rank,
                other,
            ) by {
                assert(occurs(after[i], rank, other));
                let p = choose|p: int|
                    0 <= p < after[i].len() && rank(#[trigger] after[i][p]) == other;
                assert(streams[i][p + 1] == after[i][p]);
            }
        }
        if is_common(streams, rank, other) {
            assert forall|i: int| 0 <= i < after.len() implies occurs(
                #[trigger] after[i],
                rank,
                other,
            ) by {
                assert(occurs(streams[i], rank, other));
                let p = choose|p: int|
                    0 <= p < streams[i].len() && rank(#[trigger] streams[i][p]) == other;
                assert(after[i][p - 1] == streams[i][p]);
            }
        }
    }
    let f = |value: V| is_common(streams, rank, rank(value));
    let g = |value: V| is_common(after, rank, rank(value));
    let head = seq![streams[0][0]];
    let rest = streams[0].drop_first();
    assert(strictly_follows(streams[0], rank, direction));
    assert forall|p: int| 0 <= p < rest.len() implies f(#[trigger] rest[p]) == g(rest[p]) by {
        assert(rest[p] == streams[0][p + 1]);
        assert(direction.precedes(rank(streams[0][0]), rank(streams[0][p + 1])));
    }
    lemma_filter_agrees(rest, f, g);
    assert(streams[0] =~= head + rest);
    Seq::filter_distributes_over_add(head, rest, f);
    assert(head.filter(f) == head) by {
        reveal(Seq::filter);
        assert(head.drop_last() =~= Seq::empty());
        assert(f(head.last()));
        assert(Seq::<V>::empty().filter(f) =~= Seq::empty());
        assert(Seq::<V>::empty().push(head.last()) =~= head);
    }
    assert((head + rest.filter(f)).drop_first() =~= rest.filter(f));
    assert forall|i: int| 0 <= i < after.len() implies strictly_follows(
        #[trigger] after[i],
        rank,
        direction,
    ) by {
        assert(strictly_follows(streams[i], rank, direction));
        assert forall|a: int, b: int| 0 <= a < b < after[i].len() implies direction.precedes(
            rank(#[trigger] after[i][a]),
            rank(#[trigger] after[i][b]),
        ) by {
            assert(after[i][a] == streams[i][a + 1] && after[i][b] == streams[i][b + 1]);
        }
    }
    if agree(streams, rank) {
        assert forall|i: int, p: int, j: int, q: int|
            0 <= i < after.len() && 0 <= j < after.len() && 0 <= p < after[i].len() && 0 <= q
                < after[j].len() && rank(#[trigger] after[i][p]) == rank(
                #[trigger] after[j][q],
            ) implies after[i][p] == after[j][q] by {
            assert(after[i][p] == streams[i][p + 1]);
            assert(after[j][q] == streams[j][q + 1]);
        }
    }
}

/// How many values of a stream come after the bound.
spec fn beyond_in<V>(
    stream: Seq<V>,
    rank: spec_fn(V) -> int,
    direction: Direction,
    bound: int,
) -> nat
    decreases stream.len(),
{
    if stream.len() == 0 {
        0
    } else {
        beyond_in(stream.drop_last(), rank, direction, bound) + if direction.precedes(
            bound,
            rank(stream.last()),
        ) {
            1nat
        } else {
            0
        }
    }
}

/// How many values of the first streams come after the bound.
spec fn beyond<V>(
    streams: Seq<Seq<V>>,
    rank: spec_fn(V) -> int,
    direction: Direction,
    bound: int,
) -> nat
    decreases streams.len(),
{
    if streams.len() == 0 {
        0
    } else {
        beyond(streams.drop_last(), rank, direction, bound) + beyond_in(
            streams.last(),
            rank,
            direction,
            bound,
        )
    }
}

/// Fewer values come after a later bound.
proof fn lemma_beyond_in_later<V>(
    stream: Seq<V>,
    rank: spec_fn(V) -> int,
    direction: Direction,
    bound: int,
    later: int,
)
    requires
        direction.precedes(bound, later),
    ensures
        beyond_in(stream, rank, direction, later) <= beyond_in(stream, rank, direction, bound),
        occurs(stream, rank, later) ==> beyond_in(stream, rank, direction, later) < beyond_in(
            stream,
            rank,
            direction,
            bound,
        ),
    decreases stream.len(),
{
    if stream.len() > 0 {
        let front = stream.drop_last();
        lemma_beyond_in_later(front, rank, direction, bound, later);
        if occurs(stream, rank, later) && rank(stream.last()) != later {
            let p = choose|p: int| 0 <= p < stream.len() && rank(#[trigger] stream[p]) == later;
            assert(front[p] == stream[p]);
        }
    }
}

proof fn lemma_beyond_later<V>(
    streams: Seq<Seq<V>>,
    rank: spec_fn(V) -> int,
    direction: Direction,
    bound: int,
    later: int,
    index: int,
)
    requires
        direction.precedes(bound, later),
    ensures
        beyond(streams, rank, direction, later) <= beyond(streams, rank, direction, bound),
        0 <= index < streams.len() && occurs(streams[index], rank, later) ==> beyond(
            streams,
            rank,
            direction,
            later,
        ) < beyond(streams, rank, direction, bound),
    decreases streams.len(),
{
    if streams.len() > 0 {
        lemma_beyond_later(streams.drop_last(), rank, direction, bound, later, index);
        lemma_beyond_in_later(streams.last(), rank, direction, bound, later);
    }
}

/// Skipping values that come before the bound leaves those after it.
proof fn lemma_beyond_in_skip<V>(
    stream: Seq<V>,
    rank: spec_fn(V) -> int,
    direction: Direction,
    bound: int,
    count: int,
)
    requires
        0 <= count <= stream.len(),
        forall|p: int|
            0 <= p < count ==> direction.precedes(rank(#[trigger] stream[p]), bound),
    ensures
        beyond_in(stream.skip(count), rank, direction, bound) == beyond_in(
            stream,
            rank,
            direction,
            bound,
        ),
    decreases stream.len(),
{
    if count == stream.len() {
        lemma_none_beyond(stream, rank, direction, bound);
    } else {
        assert(stream.skip(count).drop_last() =~= stream.drop_last().skip(count));
        assert(stream.skip(count).last() == stream.last());
        assert forall|p: int| 0 <= p < count implies direction.precedes(
            rank(#[trigger] stream.drop_last()[p]),
            bound,
        ) by {
            assert(stream.drop_last()[p] == stream[p]);
        }
        lemma_beyond_in_skip(stream.drop_last(), rank, direction, bound, count);
    }
}

proof fn lemma_none_beyond<V>(
    stream: Seq<V>,
    rank: spec_fn(V) -> int,
    direction: Direction,
    bound: int,
)
    requires
        forall|p: int|
            0 <= p < stream.len() ==> direction.precedes(rank(#[trigger] stream[p]), bound),
    ensures
        beyond_in(stream, rank, direction, bound) == 0,
    decreases stream.len(),
{
    if stream.len() > 0 {
        assert forall|p: int| 0 <= p < stream.drop_last().len() implies direction.precedes(
            rank(#[trigger] stream.drop_last()[p]),
            bound,
        ) by {
            assert(stream.drop_last()[p] == stream[p]);
        }
        lemma_none_beyond(stream.drop_last(), rank, direction, bound);
        assert(direction.precedes(rank(stream[stream.len() - 1]), bound));
    }
}

proof fn lemma_beyond_update<V>(
    streams: Seq<Seq<V>>,
    rank: spec_fn(V) -> int,
    direction: Direction,
    bound: int,
    index: int,
    stream: Seq<V>,
)
    requires
        0 <= index < streams.len(),
        beyond_in(stream, rank, direction, bound) == beyond_in(
            streams[index],
            rank,
            direction,
            bound,
        ),
    ensures
        beyond(streams.update(index, stream), rank, direction, bound) == beyond(
            streams,
            rank,
            direction,
            bound,
        ),
    decreases streams.len(),
{
    let changed = streams.update(index, stream);
    if index == streams.len() - 1 {
        assert(changed.drop_last() =~= streams.drop_last());
    } else {
        assert(changed.drop_last() =~= streams.drop_last().update(index, stream));
        lemma_beyond_update(streams.drop_last(), rank, direction, bound, index, stream);
    }
}

/// A join follows the direction, and holds no two values of one rank.
pub proof fn law_join_is_strict<V>(
    streams: Seq<Seq<V>>,
    rank: spec_fn(V) -> int,
    direction: Direction,
)
    requires
        streams.len() > 0,
        strictly_follows(streams[0], rank, direction),
    ensures
        strictly_follows(joined(streams, rank), rank, direction),
{
    lemma_filter_strict(
        streams[0],
        |value: V| is_common(streams, rank, rank(value)),
        rank,
        direction,
    );
}

pub proof fn lemma_filter_strict<V>(
    s: Seq<V>,
    f: spec_fn(V) -> bool,
    rank: spec_fn(V) -> int,
    direction: Direction,
)
    requires
        strictly_follows(s, rank, direction),
    ensures
        strictly_follows(s.filter(f), rank, direction),
        forall|i: int|
            0 <= i < s.filter(f).len() ==> s.contains(#[trigger] s.filter(f)[i]),
    decreases s.len(),
{
    reveal(Seq::filter);
    if s.len() > 0 {
        let front = s.drop_last();
        assert forall|i: int, j: int| 0 <= i < j < front.len() implies direction.precedes(
            rank(#[trigger] front[i]),
            rank(#[trigger] front[j]),
        ) by {
            assert(front[i] == s[i] && front[j] == s[j]);
        }
        lemma_filter_strict(front, f, rank, direction);
        let rest = front.filter(f);
        assert forall|i: int| 0 <= i < s.filter(f).len() implies s.contains(
            #[trigger] s.filter(f)[i],
        ) by {
            if i < rest.len() {
                assert(front.contains(rest[i]));
                let p = choose|p: int| 0 <= p < front.len() && front[p] == rest[i];
                assert(s[p] == rest[i]);
            } else {
                assert(s[s.len() - 1] == s.last());
            }
        }
        if f(s.last()) {
            let all = rest.push(s.last());
            assert forall|i: int, j: int| 0 <= i < j < all.len() implies direction.precedes(
                rank(#[trigger] all[i]),
                rank(#[trigger] all[j]),
            ) by {
                if j == rest.len() {
                    assert(front.contains(rest[i]));
                    let p = choose|p: int| 0 <= p < front.len() && front[p] == rest[i];
                    assert(s[p] == rest[i]);
                    assert(direction.precedes(rank(s[p]), rank(s[s.len() - 1])));
                }
            }
        }
    }
}

/// A join holds exactly the values that all streams hold.
pub proof fn law_join_is_the_intersection<V>(
    streams: Seq<Seq<V>>,
    rank: spec_fn(V) -> int,
    wanted: int,
)
    requires
        streams.len() > 0,
    ensures
        occurs(joined(streams, rank), rank, wanted) == is_common(streams, rank, wanted),
{
    broadcast use vstd::seq_lib::group_filter_ensures;

    let f = |value: V| is_common(streams, rank, rank(value));
    let output = joined(streams, rank);
    if occurs(output, rank, wanted) {
        let p = choose|p: int| 0 <= p < output.len() && rank(#[trigger] output[p]) == wanted;
        assert(f(output[p]));
    }
    if is_common(streams, rank, wanted) {
        assert(occurs(streams[0], rank, wanted));
        let p = choose|p: int|
            0 <= p < streams[0].len() && rank(#[trigger] streams[0][p]) == wanted;
        assert(f(streams[0][p]));
        assert(output.contains(streams[0][p]));
    }
}

/// Intersects streams.
pub struct ZigZagMergeIterator<S: ZigZagMergeSpec> {
    context: S::Context,
    streams_count: u32,
    direction: Direction,
}

/// The ready streams agree on a key, and the others have been told to skip to it. Or no stream is
/// ready.
pub open spec fn pinned<S: ZigZagMergeSpec>(context: &S::Context) -> bool {
    let streams = S::streams(context);
    ||| forall|i: int| 0 <= i < streams.len() ==> #[trigger] S::pending(context, i)
    ||| exists|key: int| #[trigger]
        pinned_to::<S>(context, key)
}

pub open spec fn pinned_to<S: ZigZagMergeSpec>(context: &S::Context, key: int) -> bool {
    let streams = S::streams(context);
    let rank = value_rank::<S>();
    forall|i: int|
        0 <= i < streams.len() ==> if #[trigger] S::pending(context, i) {
            streams[i].len() > 0 ==> !S::direction(context).precedes(rank(streams[i][0]), key)
        } else {
            streams[i].len() > 0 && rank(streams[i][0]) == key
        }
}

/// Some stream has to be refilled.
pub open spec fn any_pending<S: ZigZagMergeSpec>(context: &S::Context) -> bool {
    exists|i: int| 0 <= i < S::streams(context).len() && #[trigger] S::pending(context, i)
}

/// Every stream has to be refilled.
pub open spec fn all_pending<S: ZigZagMergeSpec>(context: &S::Context) -> bool {
    forall|i: int| 0 <= i < S::streams(context).len() ==> #[trigger] S::pending(context, i)
}

/// Some stream that is ready has run dry.
pub open spec fn any_dry<S: ZigZagMergeSpec>(context: &S::Context) -> bool {
    exists|i: int|
        0 <= i < S::streams(context).len() && !#[trigger] S::pending(context, i) && S::streams(
            context,
        )[i].len() == 0
}

/// Every stream of `after` is one of `before` that has skipped to the key.
pub open spec fn skipped_to<S: ZigZagMergeSpec>(
    before: &S::Context,
    after: &S::Context,
    key: int,
) -> bool {
    &&& S::streams(after).len() == S::streams(before).len()
    &&& forall|i: int|
        0 <= i < S::streams(before).len() ==> #[trigger] S::streams(after)[i] == skipped(
            S::streams(before)[i],
            value_rank::<S>(),
            S::direction(before),
            key,
        )
}

/// Some stream that is ready has a head of the given rank.
pub open spec fn is_head<S: ZigZagMergeSpec>(
    context: &S::Context,
    streams: Seq<Seq<S::Value>>,
    wanted: int,
) -> bool {
    exists|i: int|
        {
            &&& 0 <= i < streams.len()
            &&& !#[trigger] S::pending(context, i)
            &&& streams[i].len() > 0
            &&& value_rank::<S>()(streams[i][0]) == wanted
        }
}

/// What the streams hold after probes.
pub open spec fn after_probes<S: ZigZagMergeSpec>(
    streams: Seq<Seq<S::Value>>,
    direction: Direction,
    probes: Seq<(int, S::Key)>,
) -> Seq<Seq<S::Value>>
    decreases probes.len(),
{
    if probes.len() == 0 {
        streams
    } else {
        let earlier = after_probes::<S>(streams, direction, probes.drop_last());
        let (i, bound) = probes.last();
        earlier.update(i, skipped(earlier[i], value_rank::<S>(), direction, bound.rank()))
    }
}

/// Probes that find the key: each of a stream that is ready, to the head of another one that is
/// ahead of it. None goes beyond the key.
pub open spec fn is_search<S: ZigZagMergeSpec>(
    context: &S::Context,
    probes: Seq<(int, S::Key)>,
    key: int,
) -> bool {
    let direction = S::direction(context);
    forall|p: int|
        0 <= p < probes.len() ==> {
            let (i, bound) = #[trigger] probes[p];
            let streams = after_probes::<S>(S::streams(context), direction, probes.take(p));
            &&& 0 <= i < streams.len()
            &&& !S::pending(context, i)
            &&& streams[i].len() > 0
            &&& direction.precedes(value_rank::<S>()(streams[i][0]), bound.rank())
            &&& is_head::<S>(context, streams, bound.rank())
            &&& !direction.precedes(key, bound.rank())
        }
}

/// A stream that was not probed has to be refilled if and only if it had to be before.
pub open spec fn others_wait_alike<S: ZigZagMergeSpec>(
    before: &S::Context,
    after: &S::Context,
    probes: Seq<(int, S::Key)>,
) -> bool {
    forall|i: int|
        0 <= i < S::streams(before).len() && #[trigger] S::pending(before, i) != S::pending(
            after,
            i,
        ) ==> exists|p: int| 0 <= p < probes.len() && (#[trigger] probes[p]).0 == i
}

/// One probe to the key for each of the first streams that has to be refilled, in turn.
pub open spec fn last_probes<S: ZigZagMergeSpec>(
    context: &S::Context,
    count: int,
    key: S::Key,
) -> Seq<(int, S::Key)>
    decreases count,
{
    if count <= 0 {
        Seq::empty()
    } else if S::pending(context, count - 1) {
        last_probes::<S>(context, count - 1, key).push((count - 1, key))
    } else {
        last_probes::<S>(context, count - 1, key)
    }
}

/// What a call does that ends with streams that have to be refilled. If all of them have to, no
/// key is known. Otherwise those that are ready agree on the key, and all have skipped to it.
pub open spec fn gave_up<S: ZigZagMergeSpec>(
    before: &S::Context,
    after: &S::Context,
    search: Seq<(int, S::Key)>,
    key: S::Key,
) -> bool {
    &&& any_pending::<S>(after)
    &&& is_search::<S>(before, search, key.rank())
    &&& others_wait_alike::<S>(before, after, search)
    &&& if all_pending::<S>(after) {
        &&& S::probes(after) == with_probes(S::probes(before), search)
        &&& S::streams(after) == after_probes::<S>(
            S::streams(before),
            S::direction(before),
            search,
        )
    } else {
        let last = last_probes::<S>(after, S::streams(after).len() as int, key);
        &&& pinned_to::<S>(after, key.rank())
        &&& skipped_to::<S>(before, after, key.rank())
        &&& S::probes(after) == with_probes(S::probes(before), search + last)
        &&& S::streams(after) == after_probes::<S>(
            S::streams(before),
            S::direction(before),
            search + last,
        )
    }
}

/// What a call does that finds the key of a value: no stream has to be refilled, and all have
/// skipped to the key.
pub open spec fn found<S: ZigZagMergeSpec>(
    before: &S::Context,
    after: &S::Context,
    search: Seq<(int, S::Key)>,
    key: S::Key,
) -> bool {
    &&& !any_pending::<S>(before)
    &&& is_search::<S>(before, search, key.rank())
    &&& S::probes(after) == with_probes(S::probes(before), search)
    &&& skipped_to::<S>(before, after, key.rank())
    &&& S::streams(after) == after_probes::<S>(
        S::streams(before),
        S::direction(before),
        search,
    )
}

/// What a call does that finds a stream which has run dry.
pub open spec fn ran_dry<S: ZigZagMergeSpec>(
    before: &S::Context,
    after: &S::Context,
    search: Seq<(int, S::Key)>,
    key: S::Key,
) -> bool {
    &&& any_dry::<S>(after)
    &&& is_search::<S>(before, search, key.rank())
    &&& others_wait_alike::<S>(before, after, search)
    &&& S::probes(after) == with_probes(S::probes(before), search)
    &&& S::streams(after) == after_probes::<S>(
        S::streams(before),
        S::direction(before),
        search,
    )
}

/// A call ended with streams that have to be refilled.
pub open spec fn has_given_up<S: ZigZagMergeSpec>(
    before: &S::Context,
    after: &S::Context,
) -> bool {
    exists|search: Seq<(int, S::Key)>, key: S::Key| #[trigger]
        gave_up::<S>(before, after, search, key)
}

/// A call found a key that all streams hold.
pub open spec fn has_found<S: ZigZagMergeSpec>(
    before: &S::Context,
    after: &S::Context,
    key: S::Key,
) -> bool {
    exists|search: Seq<(int, S::Key)>| #[trigger] found::<S>(before, after, search, key)
}

/// A call found a stream that has run dry.
pub open spec fn has_run_dry<S: ZigZagMergeSpec>(
    before: &S::Context,
    after: &S::Context,
) -> bool {
    exists|search: Seq<(int, S::Key)>, key: S::Key| #[trigger]
        ran_dry::<S>(before, after, search, key)
}

/// A call found the key of a value, and took the value from every stream.
pub open spec fn has_taken<S: ZigZagMergeSpec>(
    before: &S::Context,
    after: &S::Context,
    value: S::Value,
) -> bool {
    exists|settled: S::Context|
        {
            &&& #[trigger] has_found::<S>(before, &settled, S::spec_key(value))
            &&& S::probes(after) == S::probes(&settled)
            &&& S::streams(after) == S::streams(&settled).map_values(
                |stream: Seq<S::Value>| stream.drop_first(),
            )
        }
}

/// How many steps of a round ago a stream was visited, the next one being `next`.
spec fn steps_ago(i: int, next: int, count: int) -> int {
    if i < next {
        next - i
    } else {
        next + count - i
    }
}

impl<S: ZigZagMergeSpec> ZigZagMergeIterator<S> {
    pub closed spec fn wf(&self) -> bool {
        let streams = S::streams(&self.context);
        &&& 1 < self.streams_count <= 255
        &&& streams.len() == self.streams_count
        &&& S::direction(&self.context) == self.direction
        &&& all_strict(streams, value_rank::<S>(), self.direction)
        &&& agree(streams, value_rank::<S>())
    }

    /// The streams.
    pub closed spec fn spec_context(&self) -> S::Context {
        self.context
    }

    /// The values that are still to come.
    pub closed spec fn remaining(&self) -> Seq<S::Value> {
        joined(S::streams(&self.context), value_rank::<S>())
    }

    /// No stream ever has to be refilled.
    pub closed spec fn always_ready(&self) -> bool {
        S::always_ready(&self.context)
    }

    /// The ready streams agree on a key, and the others have been told to skip to it. Or no
    /// stream is ready.
    pub closed spec fn is_pinned(&self) -> bool {
        pinned::<S>(&self.context)
    }

    /// Starts to intersect the first `streams_count` streams of `context`, at least two.
    #[must_use]
    pub fn new(context: S::Context, streams_count: u32, direction: Direction) -> (result: Self)
        requires
            streams_count <= S::STREAMS_MAX,
            1 < streams_count <= 255,
            S::streams(&context).len() == streams_count,
            S::direction(&context) == direction,
            all_strict(S::streams(&context), value_rank::<S>(), direction),
            agree(S::streams(&context), value_rank::<S>()),
        ensures
            result.wf(),
            result.remaining() == joined(S::streams(&context), value_rank::<S>()),
            result.always_ready() == S::always_ready(&context),
            result.spec_context() == context,
    {
        ZigZagMergeIterator { context, streams_count, direction }
    }

    /// Gives the streams back.
    #[must_use]
    pub fn into_context(self) -> (result: S::Context)
        ensures
            result == self.spec_context(),
    {
        self.context
    }

    /// What is still to come is what the streams have in common.
    pub proof fn law_remaining_is_the_join(&self)
        requires
            self.wf(),
        ensures
            self.remaining() == joined(S::streams(&self.spec_context()), value_rank::<S>()),
            self.always_ready() == S::always_ready(&self.spec_context()),
            self.is_pinned() == pinned::<S>(&self.spec_context()),
    {
    }

    /// Nothing has to be forgotten when the streams move.
    pub fn reset(&mut self)
        ensures
            *final(self) == *old(self),
    {
    }

    /// The next value that all streams hold, or `None` if there is none.
    ///
    /// # Errors
    /// `Pending` if a stream has to be refilled. Nothing is lost: the call can be repeated.
    pub fn pop(&mut self) -> (result: Result<Option<S::Value>, Pending>)
        requires
            old(self).wf(),
        ensures
            final(self).wf(),
            match result {
                Ok(Some(value)) => {
                    &&& old(self).remaining().len() > 0
                    &&& value == old(self).remaining()[0]
                    &&& final(self).remaining() == old(self).remaining().drop_first()
                    &&& !any_pending::<S>(&old(self).spec_context())
                    &&& has_taken::<S>(
                        &old(self).spec_context(),
                        &final(self).spec_context(),
                        value,
                    )
                },
                Ok(None) => {
                    &&& old(self).remaining() == Seq::<S::Value>::empty()
                    &&& final(self).remaining() == Seq::<S::Value>::empty()
                    &&& has_run_dry::<S>(
                        &old(self).spec_context(),
                        &final(self).spec_context(),
                    )
                },
                Err(_) => {
                    &&& final(self).remaining() == old(self).remaining()
                    &&& final(self).is_pinned()
                    &&& any_pending::<S>(&final(self).spec_context())
                    &&& has_given_up::<S>(
                        &old(self).spec_context(),
                        &final(self).spec_context(),
                    )
                },
            },
            any_pending::<S>(&old(self).spec_context()) && old(self).remaining().len() > 0
                ==> result is Err,
            old(self).always_ready() ==> final(self).always_ready() && result is Ok,
    {
        let key = match self.peek_key() {
            Ok(Some(key)) => key,
            Ok(None) => {
                return Ok(None);
            },
            Err(pending) => {
                return Err(pending);
            },
        };
        let ghost rank = value_rank::<S>();
        let ghost streams = S::streams(&self.context);
        let ghost settled = *self;
        proof {
            assert forall|i: int| 0 <= i < streams.len() implies (#[trigger] streams[i]).len() > 0
                && rank(streams[i][0]) == key.rank() by {
                assert(!S::pending(&self.context, i));
            }
            lemma_common_heads(streams, rank, self.direction, key.rank());
        }
        let value = S::stream_pop(&mut self.context, 0);
        let mut i: u32 = 1;
        proof {
            assert(S::streams(&self.context) =~= popped(streams, 1));
        }
        while i < self.streams_count
            invariant
                1 <= i <= self.streams_count,
                self.streams_count == settled.streams_count,
                self.direction == settled.direction,
                settled.wf(),
                streams == S::streams(&settled.context),
                rank == value_rank::<S>(),
                S::streams(&self.context) == popped(streams, i as int),
                S::direction(&self.context) == self.direction,
                forall|k: int|
                    i <= k < streams.len() ==> !#[trigger] S::pending(&self.context, k),
                forall|k: int|
                    0 <= k < streams.len() ==> (#[trigger] streams[k]).len() > 0 && rank(
                        streams[k][0],
                    ) == key.rank(),
                value == streams[0][0],
                S::probes(&self.context) == S::probes(&settled.context),
                old(self).always_ready() ==> self.always_ready(),
            decreases self.streams_count - i,
        {
            assert(S::streams(&self.context)[i as int] == streams[i as int]);
            let other = S::stream_pop(&mut self.context, i);
            // All streams produce the same value for a key.
            assert(rank(streams[0][0]) == rank(streams[i as int][0]));
            assert(other == value);
            i = i + 1;
            proof {
                assert(S::streams(&self.context) =~= popped(streams, i as int));
            }
        }
        proof {
            S::Key::rank_injective(S::spec_key(value), key);
            assert(S::streams(&self.context) =~= streams.map_values(
                |stream: Seq<S::Value>| stream.drop_first(),
            ));
            assert(has_found::<S>(&old(self).context, &settled.context, S::spec_key(value)));
        }
        Ok(Some(value))
    }

    /// Finds the next key that all streams hold.
    ///
    /// The streams are asked in turn, and every time one of them is ahead, the tour starts over
    /// with its key. A stream that has to be refilled is left alone until the key is known.
    #[verifier::rlimit(80)]
    fn peek_key(&mut self) -> (result: Result<Option<S::Key>, Pending>)
        requires
            old(self).wf(),
        ensures
            final(self).wf(),
            final(self).streams_count == old(self).streams_count,
            final(self).direction == old(self).direction,
            final(self).remaining() == old(self).remaining(),
            match result {
                Ok(Some(key)) => forall|i: int|
                    0 <= i < final(self).streams_count ==> !#[trigger] S::pending(
                        &final(self).context,
                        i,
                    ) && S::streams(&final(self).context)[i].len() > 0 && value_rank::<S>()(
                        S::streams(&final(self).context)[i][0],
                    ) == key.rank(),
                Ok(None) => final(self).remaining() == Seq::<S::Value>::empty(),
                Err(_) => final(self).is_pinned(),
            },
            match result {
                Ok(Some(key)) => has_found::<S>(&old(self).context, &final(self).context, key),
                Ok(None) => has_run_dry::<S>(&old(self).context, &final(self).context),
                Err(_) => has_given_up::<S>(&old(self).context, &final(self).context),
            },
            old(self).always_ready() ==> final(self).always_ready() && result is Ok,
    {
        let ghost rank = value_rank::<S>();
        let ghost direction = self.direction;
        let count: u32 = self.streams_count;
        let mut candidate: S::Key = match self.direction {
            Direction::Ascending => S::Key::min_key(),
            Direction::Descending => S::Key::sentinel_key(),
        };
        proof {
            lemma_none_common_before_bounds::<S>(self.context, direction, candidate);
        }
        let mut pending: Vec<bool> = Vec::new();
        let mut i: u32 = 0;
        while i < count
            invariant
                i <= count,
                pending@.len() == i,
                forall|k: int| 0 <= k < i ==> !#[trigger] pending@[k],
            decreases count - i,
        {
            pending.push(false);
            i = i + 1;
        }
        let ghost mut search: Seq<(int, S::Key)> = Seq::empty();
        proof {
            lemma_tour_starts::<S>(self.context, candidate);
        }
        let mut tour_total: u32 = 0;
        let mut tour_index: u32 = 0;
        while tour_total < count
            invariant
                self.wf(),
                on_tour::<S>(old(self).context, self.context, search, candidate),
                S::direction(&old(self).context) == direction,
                rank == value_rank::<S>(),
                direction == self.direction,
                self.direction == old(self).direction,
                self.streams_count == count,
                self.streams_count == old(self).streams_count,
                self.remaining() == old(self).remaining(),
                old(self).always_ready() ==> self.always_ready(),
                old(self).always_ready() ==> forall|k: int|
                    0 <= k < count ==> !#[trigger] pending@[k],
                tour_total <= count,
                tour_index < count,
                pending@.len() == count,
                none_common_before(
                    S::streams(&self.context),
                    rank,
                    direction,
                    candidate.rank(),
                ),
                forall|k: int|
                    0 <= k < count && #[trigger] pending@[k] ==> S::pending(&self.context, k),
                forall|k: int|
                    0 <= k < count && steps_ago(k, tour_index as int, count as int) <= tour_total
                        && !#[trigger] pending@[k] ==> at_key::<S>(
                        self.context,
                        k,
                        candidate.rank(),
                    ),
            decreases
                    beyond(S::streams(&self.context), rank, direction, candidate.rank()),
                    count - tour_total,
        {
            let index: usize = tour_index as usize;
            let ghost before = *self;
            if pending[index] {
                tour_total = tour_total + 1;
            } else {
                let galloped = self.gallop_key(tour_index, candidate);
                proof {
                    lemma_tour_goes_on::<S>(
                        old(self).context,
                        before.context,
                        self.context,
                        search,
                        tour_index as int,
                        candidate,
                    );
                    search = search + gallop_probes::<S>(
                        before.context,
                        tour_index as int,
                        candidate,
                    );
                }
                match galloped {
                    Err(_) => {
                        pending.set(index, true);
                        tour_total = tour_total + 1;
                    },
                    Ok(None) => {
                        proof {
                            reveal(on_tour);
                            assert(!S::pending(&self.context, tour_index as int));
                            assert(ran_dry::<S>(
                                &old(self).context,
                                &self.context,
                                search,
                                candidate,
                            ));
                        }
                        return Ok(None);
                    },
                    Ok(Some(key)) => {
                        if comes_before(self.direction, &candidate, &key) {
                            proof {
                                assert(!S::pending(&self.context, tour_index as int));
                                lemma_tour_starts_over::<S>(
                                    old(self).context,
                                    self.context,
                                    search,
                                    candidate,
                                    key,
                                );
                                lemma_new_candidate::<S>(
                                    self.context,
                                    direction,
                                    tour_index as int,
                                    candidate.rank(),
                                    key.rank(),
                                );
                            }
                            candidate = key;
                            tour_total = 1;
                        } else {
                            tour_total = tour_total + 1;
                        }
                    },
                }
            }
            tour_index = if tour_index + 1 == count {
                0
            } else {
                tour_index + 1
            };
        }
        // The key is known: the streams that have to be refilled skip to it.
        let mut all_pending = true;
        let mut any_pending = false;
        let mut k: u32 = 0;
        while k < count
            invariant
                k <= count,
                pending@.len() == count,
                all_pending == forall|j: int| 0 <= j < k ==> #[trigger] pending@[j],
                any_pending == exists|j: int| 0 <= j < k && #[trigger] pending@[j],
            decreases count - k,
        {
            if pending[k as usize] {
                any_pending = true;
            } else {
                all_pending = false;
            }
            k = k + 1;
        }
        if all_pending {
            proof {
                assert forall|j: int| 0 <= j < count implies #[trigger] S::pending(
                    &self.context,
                    j,
                ) by {
                    assert(pending@[j]);
                }
                assert(pending@[0]);
                reveal(on_tour);
                assert(S::pending(&self.context, 0));
                assert(gave_up::<S>(&old(self).context, &self.context, search, candidate));
            }
            return Err(Pending);
        }
        let ghost settled = *self;
        proof {
            lemma_told_none::<S>(self.context, candidate);
            assert forall|j: int| 0 <= j < count implies #[trigger] pending@[j] == S::pending(
                &settled.context,
                j,
            ) by {
                if !pending@[j] {
                    assert(at_key::<S>(settled.context, j, candidate.rank()));
                }
            }
        }
        let mut k: u32 = 0;
        while k < count
            invariant
                self.wf(),
                settled.streams_count == count,
                settled.wf(),
                told::<S>(settled.context, self.context, k as int, candidate),
                forall|j: int|
                    0 <= j < count ==> #[trigger] pending@[j] == S::pending(&settled.context, j),
                rank == value_rank::<S>(),
                direction == self.direction,
                self.direction == old(self).direction,
                self.streams_count == count,
                self.streams_count == old(self).streams_count,
                self.remaining() == old(self).remaining(),
                old(self).always_ready() ==> self.always_ready(),
                k <= count,
                pending@.len() == count,
                none_common_before(
                    S::streams(&self.context),
                    rank,
                    direction,
                    candidate.rank(),
                ),
                forall|j: int|
                    0 <= j < count && #[trigger] pending@[j] ==> S::pending(&self.context, j),
                forall|j: int|
                    0 <= j < count && !#[trigger] pending@[j] ==> at_key::<S>(
                        self.context,
                        j,
                        candidate.rank(),
                    ),
                forall|j: int|
                    0 <= j < k && #[trigger] pending@[j] ==> not_behind::<S>(
                        self.context,
                        j,
                        candidate.rank(),
                    ),
            decreases count - k,
        {
            let ghost earlier = self.context;
            if pending[k as usize] {
                let ghost before = *self;
                S::stream_probe(&mut self.context, k, candidate);
                proof {
                    lemma_probed::<S>(
                        before.context,
                        self.context,
                        direction,
                        k as int,
                        candidate.rank(),
                    );
                }
            }
            proof {
                lemma_told_next::<S>(
                    settled.context,
                    earlier,
                    self.context,
                    k as int,
                    candidate,
                );
            }
            k = k + 1;
        }
        proof {
            assert forall|j: int| 0 <= j < count && !#[trigger] S::pending(
                &settled.context,
                j,
            ) implies at_key::<S>(settled.context, j, candidate.rank()) by {
                assert(!pending@[j]);
            }
            lemma_all_skipped::<S>(
                old(self).context,
                settled.context,
                self.context,
                search,
                candidate,
            );
        }
        if any_pending {
            proof {
                assert(pinned_to::<S>(&self.context, candidate.rank())) by {
                    assert forall|j: int| 0 <= j < count implies if #[trigger] S::pending(
                        &self.context,
                        j,
                    ) {
                        S::streams(&self.context)[j].len() > 0 ==> !direction.precedes(
                            rank(S::streams(&self.context)[j][0]),
                            candidate.rank(),
                        )
                    } else {
                        S::streams(&self.context)[j].len() > 0 && rank(
                            S::streams(&self.context)[j][0],
                        ) == candidate.rank()
                    } by {
                        if pending@[j] {
                            assert(not_behind::<S>(self.context, j, candidate.rank()));
                        } else {
                            assert(at_key::<S>(self.context, j, candidate.rank()));
                        }
                    }
                }
                let stalled = choose|j: int| 0 <= j < count && #[trigger] pending@[j];
                assert(S::pending(&self.context, stalled));
                let ready = choose|j: int| 0 <= j < count && !#[trigger] pending@[j];
                assert(at_key::<S>(self.context, ready, candidate.rank()));
                assert(gave_up::<S>(&old(self).context, &self.context, search, candidate));
            }
            return Err(Pending);
        }
        proof {
            assert forall|j: int| 0 <= j < count implies !#[trigger] S::pending(&self.context, j)
                && S::streams(&self.context)[j].len() > 0 && rank(S::streams(&self.context)[j][0])
                == candidate.rank() by {
                assert(!pending@[j]);
                assert(at_key::<S>(self.context, j, candidate.rank()));
            }
            assert(search + Seq::<(int, S::Key)>::empty() =~= search);
            assert(found::<S>(&old(self).context, &self.context, search, candidate));
            assert(has_found::<S>(&old(self).context, &self.context, candidate));
        }
        Ok(Some(candidate))
    }

    /// Lets a stream skip to the key, and looks at its head.
    fn gallop_key(&mut self, stream_index: u32, candidate: S::Key) -> (result: Result<
        Option<S::Key>,
        Pending,
    >)
        requires
            old(self).wf(),
            stream_index < old(self).streams_count,
            none_common_before(
                S::streams(&old(self).context),
                value_rank::<S>(),
                old(self).direction,
                candidate.rank(),
            ),
        ensures
            final(self).wf(),
            final(self).streams_count == old(self).streams_count,
            final(self).direction == old(self).direction,
            final(self).remaining() == old(self).remaining(),
            none_common_before(
                S::streams(&final(self).context),
                value_rank::<S>(),
                final(self).direction,
                candidate.rank(),
            ),
            forall|i: int|
                0 <= i < final(self).streams_count && i != stream_index ==> #[trigger] S::streams(
                    &final(self).context,
                )[i] == S::streams(&old(self).context)[i],
            forall|i: int|
                i != stream_index ==> #[trigger] S::pending(&final(self).context, i)
                    == S::pending(&old(self).context, i),
            beyond(
                S::streams(&final(self).context),
                value_rank::<S>(),
                final(self).direction,
                candidate.rank(),
            ) == beyond(
                S::streams(&old(self).context),
                value_rank::<S>(),
                old(self).direction,
                candidate.rank(),
            ),
            galloped::<S>(
                old(self).context,
                final(self).context,
                stream_index as int,
                candidate,
            ),
            match result {
                Ok(Some(key)) => at_key::<S>(
                    final(self).context,
                    stream_index as int,
                    key.rank(),
                ) && !final(self).direction.precedes(key.rank(), candidate.rank()),
                Ok(None) => {
                    &&& final(self).remaining() == Seq::<S::Value>::empty()
                    &&& !S::pending(&final(self).context, stream_index as int)
                    &&& S::streams(&final(self).context)[stream_index as int].len() == 0
                },
                Err(_) => S::pending(&final(self).context, stream_index as int),
            },
            old(self).always_ready() ==> final(self).always_ready() && result is Ok,
    {
        proof {
            if let Some(probes) = S::probes(&self.context) {
                assert(probes + Seq::<(int, S::Key)>::empty() =~= probes);
            }
        }
        let key = match S::stream_peek(&mut self.context, stream_index) {
            Ok(Some(key)) => key,
            Ok(None) => {
                proof {
                    lemma_dry_join(
                        S::streams(&self.context),
                        value_rank::<S>(),
                        stream_index as int,
                    );
                }
                return Ok(None);
            },
            Err(pending) => {
                return Err(pending);
            },
        };
        if !comes_before(self.direction, &key, &candidate) {
            return Ok(Some(key));
        }
        let ghost before = *self;
        S::stream_probe(&mut self.context, stream_index, candidate);
        proof {
            lemma_probed::<S>(
                before.context,
                self.context,
                self.direction,
                stream_index as int,
                candidate.rank(),
            );
        }
        match S::stream_peek(&mut self.context, stream_index) {
            Ok(Some(key)) => Ok(Some(key)),
            Ok(None) => {
                proof {
                    lemma_dry_join(
                        S::streams(&self.context),
                        value_rank::<S>(),
                        stream_index as int,
                    );
                }
                Ok(None)
            },
            Err(pending) => Err(pending),
        }
    }
}

/// A tour from `before` has come to `now`, and its best guess for the key is `candidate`.
#[verifier::opaque]
spec fn on_tour<S: ZigZagMergeSpec>(
    before: S::Context,
    now: S::Context,
    search: Seq<(int, S::Key)>,
    candidate: S::Key,
) -> bool {
    let from = S::streams(&before);
    let to = S::streams(&now);
    let rank = value_rank::<S>();
    let direction = S::direction(&before);
    &&& to.len() == from.len()
    &&& S::direction(&now) == direction
    &&& S::probes(&now) == with_probes(S::probes(&before), search)
    &&& is_search::<S>(&before, search, candidate.rank())
    &&& forall|i: int|
        0 <= i < from.len() ==> skipped(#[trigger] to[i], rank, direction, candidate.rank())
            == skipped(from[i], rank, direction, candidate.rank())
    &&& forall|i: int|
        0 <= i < from.len() && #[trigger] S::pending(&before, i) ==> S::pending(&now, i)
    &&& to == after_probes::<S>(from, direction, search)
    &&& others_wait_alike::<S>(&before, &now, search)
    &&& is_head::<S>(&now, to, candidate.rank()) || candidate == match direction {
        Direction::Ascending => S::Key::least(),
        Direction::Descending => S::Key::greatest(),
    }
}

/// Whether a stream is ready, and its head comes before the key.
spec fn lags<S: ZigZagMergeSpec>(context: S::Context, index: int, candidate: S::Key) -> bool {
    &&& !S::pending(&context, index)
    &&& S::streams(&context)[index].len() > 0
    &&& S::direction(&context).precedes(
        value_rank::<S>()(S::streams(&context)[index][0]),
        candidate.rank(),
    )
}

/// The probes that a step of a tour takes.
spec fn gallop_probes<S: ZigZagMergeSpec>(
    context: S::Context,
    index: int,
    candidate: S::Key,
) -> Seq<(int, S::Key)> {
    if lags::<S>(context, index, candidate) {
        seq![(index, candidate)]
    } else {
        Seq::empty()
    }
}

/// What a step of a tour does.
spec fn galloped<S: ZigZagMergeSpec>(
    before: S::Context,
    after: S::Context,
    index: int,
    candidate: S::Key,
) -> bool {
    &&& S::direction(&after) == S::direction(&before)
    &&& S::streams(&after) == if lags::<S>(before, index, candidate) {
        S::streams(&before).update(
            index,
            skipped(
                S::streams(&before)[index],
                value_rank::<S>(),
                S::direction(&before),
                candidate.rank(),
            ),
        )
    } else {
        S::streams(&before)
    }
    &&& S::probes(&after) == with_probes(
        S::probes(&before),
        gallop_probes::<S>(before, index, candidate),
    )
    &&& forall|i: int| #[trigger] S::pending(&before, i) ==> S::pending(&after, i)
    &&& forall|i: int|
        i != index || !lags::<S>(before, index, candidate) ==> #[trigger] S::pending(&after, i)
            == S::pending(&before, i)
}

proof fn lemma_tour_starts<S: ZigZagMergeSpec>(context: S::Context, candidate: S::Key)
    requires
        candidate == match S::direction(&context) {
            Direction::Ascending => S::Key::least(),
            Direction::Descending => S::Key::greatest(),
        },
    ensures
        on_tour::<S>(context, context, Seq::empty(), candidate),
{
    reveal(on_tour);
    assert(S::probes(&context) == with_probes(S::probes(&context), Seq::empty())) by {
        if let Some(probes) = S::probes(&context) {
            assert(probes + Seq::<(int, S::Key)>::empty() =~= probes);
        }
    }
}

proof fn lemma_tour_goes_on<S: ZigZagMergeSpec>(
    before: S::Context,
    now: S::Context,
    next: S::Context,
    search: Seq<(int, S::Key)>,
    index: int,
    candidate: S::Key,
)
    requires
        on_tour::<S>(before, now, search, candidate),
        0 <= index < S::streams(&now).len(),
        galloped::<S>(now, next, index, candidate),
    ensures
        on_tour::<S>(
            before,
            next,
            search + gallop_probes::<S>(now, index, candidate),
            candidate,
        ),
{
    reveal(on_tour);
    let rank = value_rank::<S>();
    let direction = S::direction(&before);
    let from = S::streams(&before);
    let to = S::streams(&now);
    let step = gallop_probes::<S>(now, index, candidate);
    if let Some(probes) = S::probes(&before) {
        assert((probes + search) + step =~= probes + (search + step));
    }
    assert forall|i: int|
        0 <= i < from.len() && #[trigger] S::pending(&before, i) != S::pending(
            &next,
            i,
        ) implies exists|p: int|
        0 <= p < (search + step).len() && (#[trigger] (search + step)[p]).0 == i by {
        if S::pending(&before, i) != S::pending(&now, i) {
            let p = choose|p: int| 0 <= p < search.len() && (#[trigger] search[p]).0 == i;
            assert((search + step)[p] == search[p]);
        } else {
            assert(S::pending(&next, i) != S::pending(&now, i));
            assert((search + step)[search.len() as int] == (index, candidate));
        }
    }
    if lags::<S>(now, index, candidate) {
        let longer = search + step;
        S::Key::key_bounds(S::spec_key(to[index][0]));
        assert(!S::pending(&before, index));
        lemma_skip_twice(to[index], rank, direction, candidate.rank(), candidate.rank());
        assert(longer.drop_last() =~= search);
        assert(longer.last() == (index, candidate));
        let held = choose|i: int|
            {
                &&& 0 <= i < to.len()
                &&& !#[trigger] S::pending(&now, i)
                &&& to[i].len() > 0
                &&& rank(to[i][0]) == candidate.rank()
            };
        assert(held != index);
        assert(!S::pending(&next, held) && S::streams(&next)[held] == to[held]);
        assert(is_head::<S>(&next, S::streams(&next), candidate.rank()));
        assert(!S::pending(&before, held));
        assert(is_head::<S>(&before, to, candidate.rank()));
        assert forall|p: int| 0 <= p < longer.len() implies {
            let (i, bound) = #[trigger] longer[p];
            let streams = after_probes::<S>(from, direction, longer.take(p));
            &&& 0 <= i < streams.len()
            &&& !S::pending(&before, i)
            &&& streams[i].len() > 0
            &&& direction.precedes(rank(streams[i][0]), bound.rank())
            &&& is_head::<S>(&before, streams, bound.rank())
            &&& !direction.precedes(candidate.rank(), bound.rank())
        } by {
            if p < search.len() {
                assert(longer[p] == search[p]);
                assert(longer.take(p) =~= search.take(p));
            } else {
                assert(longer.take(p) =~= search);
            }
        }
    } else {
        assert(search + step =~= search);
        if is_head::<S>(&now, to, candidate.rank()) {
            let held = choose|i: int|
                {
                    &&& 0 <= i < to.len()
                    &&& !#[trigger] S::pending(&now, i)
                    &&& to[i].len() > 0
                    &&& rank(to[i][0]) == candidate.rank()
                };
            assert(!S::pending(&next, held));
        }
    }
}

proof fn lemma_tour_starts_over<S: ZigZagMergeSpec>(
    before: S::Context,
    now: S::Context,
    search: Seq<(int, S::Key)>,
    candidate: S::Key,
    key: S::Key,
)
    requires
        on_tour::<S>(before, now, search, candidate),
        S::direction(&before).precedes(candidate.rank(), key.rank()),
        is_head::<S>(&now, S::streams(&now), key.rank()),
    ensures
        on_tour::<S>(before, now, search, key),
{
    reveal(on_tour);
    let rank = value_rank::<S>();
    let direction = S::direction(&before);
    let from = S::streams(&before);
    let to = S::streams(&now);
    assert forall|i: int| 0 <= i < from.len() implies skipped(
        #[trigger] to[i],
        rank,
        direction,
        key.rank(),
    ) == skipped(from[i], rank, direction, key.rank()) by {
        lemma_skip_twice(to[i], rank, direction, candidate.rank(), key.rank());
        lemma_skip_twice(from[i], rank, direction, candidate.rank(), key.rank());
    }
    assert forall|p: int| 0 <= p < search.len() implies {
        let (i, bound) = #[trigger] search[p];
        let streams = after_probes::<S>(from, direction, search.take(p));
        &&& 0 <= i < streams.len()
        &&& !S::pending(&before, i)
        &&& streams[i].len() > 0
        &&& direction.precedes(rank(streams[i][0]), bound.rank())
        &&& is_head::<S>(&before, streams, bound.rank())
        &&& !direction.precedes(key.rank(), bound.rank())
    } by {}
}

/// After a tour, those of the first `count` streams that have to be refilled have skipped to the
/// key.
#[verifier::opaque]
spec fn told<S: ZigZagMergeSpec>(
    before: S::Context,
    now: S::Context,
    count: int,
    key: S::Key,
) -> bool {
    let from = S::streams(&before);
    let to = S::streams(&now);
    &&& to.len() == from.len()
    &&& to == after_probes::<S>(
        from,
        S::direction(&before),
        last_probes::<S>(&before, count, key),
    )
    &&& S::direction(&now) == S::direction(&before)
    &&& forall|i: int|
        0 <= i < from.len() ==> #[trigger] S::pending(&now, i) == S::pending(&before, i)
    &&& S::probes(&now) == with_probes(
        S::probes(&before),
        last_probes::<S>(&before, count, key),
    )
    &&& forall|i: int|
        0 <= i < from.len() ==> #[trigger] to[i] == if i < count && S::pending(&before, i) {
            skipped(from[i], value_rank::<S>(), S::direction(&before), key.rank())
        } else {
            from[i]
        }
}

proof fn lemma_told_none<S: ZigZagMergeSpec>(context: S::Context, key: S::Key)
    ensures
        told::<S>(context, context, 0, key),
{
    reveal(told);
    if let Some(probes) = S::probes(&context) {
        assert(probes + Seq::<(int, S::Key)>::empty() =~= probes);
    }
}

proof fn lemma_told_next<S: ZigZagMergeSpec>(
    before: S::Context,
    now: S::Context,
    next: S::Context,
    count: int,
    key: S::Key,
)
    requires
        told::<S>(before, now, count, key),
        0 <= count < S::streams(&before).len(),
        if S::pending(&before, count) {
            &&& S::direction(&next) == S::direction(&now)
            &&& S::streams(&next) == S::streams(&now).update(
                count,
                skipped(
                    S::streams(&now)[count],
                    value_rank::<S>(),
                    S::direction(&now),
                    key.rank(),
                ),
            )
            &&& S::probes(&next) == with_probes(S::probes(&now), seq![(count, key)])
            &&& forall|i: int|
                i != count ==> #[trigger] S::pending(&next, i) == S::pending(&now, i)
            &&& S::pending(&next, count)
        } else {
            next == now
        },
    ensures
        told::<S>(before, next, count + 1, key),
{
    reveal(told);
    if S::pending(&before, count) {
        let done = last_probes::<S>(&before, count, key);
        assert(last_probes::<S>(&before, count + 1, key) == done.push((count, key)));
        if let Some(probes) = S::probes(&before) {
            assert((probes + done) + seq![(count, key)] =~= probes + done.push((count, key)));
        }
        assert(done.push((count, key)).drop_last() =~= done);
        assert(S::streams(&now)[count] == S::streams(&before)[count]);
    } else {
        assert(last_probes::<S>(&before, count + 1, key) == last_probes::<S>(
            &before,
            count,
            key,
        ));
    }
}

/// Probes, one after the other.
proof fn lemma_more_probes<S: ZigZagMergeSpec>(
    streams: Seq<Seq<S::Value>>,
    direction: Direction,
    probes: Seq<(int, S::Key)>,
    more: Seq<(int, S::Key)>,
)
    ensures
        after_probes::<S>(streams, direction, probes + more) == after_probes::<S>(
            after_probes::<S>(streams, direction, probes),
            direction,
            more,
        ),
    decreases more.len(),
{
    if more.len() == 0 {
        assert(probes + more =~= probes);
    } else {
        assert((probes + more).drop_last() =~= probes + more.drop_last());
        lemma_more_probes::<S>(streams, direction, probes, more.drop_last());
    }
}

/// The probes depend on which streams have to be refilled.
proof fn lemma_last_probes<S: ZigZagMergeSpec>(
    a: S::Context,
    b: S::Context,
    count: int,
    key: S::Key,
)
    requires
        forall|i: int| 0 <= i < count ==> #[trigger] S::pending(&a, i) == S::pending(&b, i),
    ensures
        last_probes::<S>(&a, count, key) == last_probes::<S>(&b, count, key),
    decreases count,
{
    if count > 0 {
        lemma_last_probes::<S>(a, b, count - 1, key);
        assert(S::pending(&a, count - 1) == S::pending(&b, count - 1));
    }
}

/// All streams have skipped to the key once the tour is over and those that have to be refilled
/// are told.
proof fn lemma_all_skipped<S: ZigZagMergeSpec>(
    before: S::Context,
    settled: S::Context,
    now: S::Context,
    search: Seq<(int, S::Key)>,
    key: S::Key,
)
    requires
        on_tour::<S>(before, settled, search, key),
        told::<S>(settled, now, S::streams(&settled).len() as int, key),
        forall|i: int|
            0 <= i < S::streams(&settled).len() && !#[trigger] S::pending(&settled, i)
                ==> at_key::<S>(settled, i, key.rank()),
    ensures
        is_search::<S>(&before, search, key.rank()),
        others_wait_alike::<S>(&before, &now, search),
        skipped_to::<S>(&before, &now, key.rank()),
        S::probes(&now) == with_probes(
            S::probes(&before),
            search + last_probes::<S>(&now, S::streams(&now).len() as int, key),
        ),
        S::streams(&now) == after_probes::<S>(
            S::streams(&before),
            S::direction(&before),
            search + last_probes::<S>(&now, S::streams(&now).len() as int, key),
        ),
        any_pending::<S>(&before) ==> any_pending::<S>(&now),
        !any_pending::<S>(&now) ==> last_probes::<S>(&now, S::streams(&now).len() as int, key)
            == Seq::<(int, S::Key)>::empty(),
{
    reveal(on_tour);
    reveal(told);
    let count = S::streams(&now).len() as int;
    let last = last_probes::<S>(&settled, count, key);
    assert forall|i: int|
        0 <= i < S::streams(&before).len() && #[trigger] S::pending(&before, i) != S::pending(
            &now,
            i,
        ) implies exists|p: int| 0 <= p < search.len() && (#[trigger] search[p]).0 == i by {
        assert(S::pending(&now, i) == S::pending(&settled, i));
    }
    lemma_last_probes::<S>(settled, now, count, key);
    lemma_more_probes::<S>(S::streams(&before), S::direction(&before), search, last);
    if let Some(probes) = S::probes(&before) {
        assert((probes + search) + last =~= probes + (search + last));
    }
    assert forall|i: int| 0 <= i < S::streams(&before).len() implies #[trigger] S::streams(
        &now,
    )[i] == skipped(
        S::streams(&before)[i],
        value_rank::<S>(),
        S::direction(&before),
        key.rank(),
    ) by {
        let stream = S::streams(&settled)[i];
        assert(skipped(stream, value_rank::<S>(), S::direction(&before), key.rank()) == skipped(
            S::streams(&before)[i],
            value_rank::<S>(),
            S::direction(&before),
            key.rank(),
        ));
        if !S::pending(&settled, i) {
            assert(at_key::<S>(settled, i, key.rank()));
        }
    }
    if any_pending::<S>(&before) {
        let i = choose|i: int|
            0 <= i < S::streams(&before).len() && #[trigger] S::pending(&before, i);
        assert(S::pending(&settled, i));
        assert(S::pending(&now, i));
    }
    if !any_pending::<S>(&now) {
        lemma_no_last_probes::<S>(now, count, key);
    }
}

proof fn lemma_no_last_probes<S: ZigZagMergeSpec>(context: S::Context, count: int, key: S::Key)
    requires
        count <= S::streams(&context).len(),
        !any_pending::<S>(&context),
    ensures
        last_probes::<S>(&context, count, key) == Seq::<(int, S::Key)>::empty(),
    decreases count,
{
    if count > 0 {
        assert(!S::pending(&context, count - 1));
        lemma_no_last_probes::<S>(context, count - 1, key);
    }
}

/// A stream is ready, and its head ranks as the key.
spec fn at_key<S: ZigZagMergeSpec>(context: S::Context, i: int, key: int) -> bool {
    &&& !S::pending(&context, i)
    &&& S::streams(&context)[i].len() > 0
    &&& value_rank::<S>()(S::streams(&context)[i][0]) == key
}

/// The head of a stream does not come before the key.
spec fn not_behind<S: ZigZagMergeSpec>(context: S::Context, i: int, key: int) -> bool {
    S::streams(&context)[i].len() > 0 ==> !S::direction(&context).precedes(
        value_rank::<S>()(S::streams(&context)[i][0]),
        key,
    )
}

/// Nothing comes before the first of all keys.
proof fn lemma_none_common_before_bounds<S: ZigZagMergeSpec>(
    context: S::Context,
    direction: Direction,
    candidate: S::Key,
)
    requires
        S::streams(&context).len() > 0,
        candidate == match direction {
            Direction::Ascending => S::Key::least(),
            Direction::Descending => S::Key::greatest(),
        },
    ensures
        none_common_before(
            S::streams(&context),
            value_rank::<S>(),
            direction,
            candidate.rank(),
        ),
{
    let streams = S::streams(&context);
    let rank = value_rank::<S>();
    assert forall|wanted: int| #[trigger]
        is_common(streams, rank, wanted) implies !direction.precedes(
        wanted,
        candidate.rank(),
    ) by {
        assert(occurs(streams[0], rank, wanted));
        let p = choose|p: int|
            0 <= p < streams[0].len() && rank(#[trigger] streams[0][p]) == wanted;
        S::Key::key_bounds(S::spec_key(streams[0][p]));
    }
}

/// The head of a stream becomes the key that all are to hold.
proof fn lemma_new_candidate<S: ZigZagMergeSpec>(
    context: S::Context,
    direction: Direction,
    index: int,
    candidate: int,
    key: int,
)
    requires
        0 <= index < S::streams(&context).len(),
        all_strict(S::streams(&context), value_rank::<S>(), direction),
        at_key::<S>(context, index, key),
        direction.precedes(candidate, key),
    ensures
        none_common_before(S::streams(&context), value_rank::<S>(), direction, key),
        beyond(S::streams(&context), value_rank::<S>(), direction, key) < beyond(
            S::streams(&context),
            value_rank::<S>(),
            direction,
            candidate,
        ),
{
    let streams = S::streams(&context);
    let rank = value_rank::<S>();
    assert(rank(streams[index][0]) == key);
    lemma_beyond_later(streams, rank, direction, candidate, key, index);
    assert forall|wanted: int| #[trigger]
        is_common(streams, rank, wanted) implies !direction.precedes(
        wanted,
        key,
    ) by {
        assert(occurs(streams[index], rank, wanted));
        assert(strictly_follows(streams[index], rank, direction));
        let p = choose|p: int|
            0 <= p < streams[index].len() && rank(#[trigger] streams[index][p]) == wanted;
        if p > 0 {
            assert(direction.precedes(rank(streams[index][0]), rank(streams[index][p])));
        }
    }
}

/// A stream that has skipped to the key.
proof fn lemma_probed<S: ZigZagMergeSpec>(
    before: S::Context,
    after: S::Context,
    direction: Direction,
    index: int,
    candidate: int,
)
    requires
        0 <= index < S::streams(&before).len(),
        S::direction(&after) == direction,
        all_strict(S::streams(&before), value_rank::<S>(), direction),
        none_common_before(S::streams(&before), value_rank::<S>(), direction, candidate),
        S::streams(&after) == S::streams(&before).update(
            index,
            skipped(S::streams(&before)[index], value_rank::<S>(), direction, candidate),
        ),
    ensures
        joined(S::streams(&after), value_rank::<S>()) == joined(
            S::streams(&before),
            value_rank::<S>(),
        ),
        none_common_before(S::streams(&after), value_rank::<S>(), direction, candidate),
        all_strict(S::streams(&after), value_rank::<S>(), direction),
        agree(S::streams(&before), value_rank::<S>()) ==> agree(
            S::streams(&after),
            value_rank::<S>(),
        ),
        beyond(S::streams(&after), value_rank::<S>(), direction, candidate) == beyond(
            S::streams(&before),
            value_rank::<S>(),
            direction,
            candidate,
        ),
        not_behind::<S>(after, index, candidate),
{
    let streams = S::streams(&before);
    let rank = value_rank::<S>();
    assert(strictly_follows(streams[index], rank, direction));
    let count = lemma_skipped(streams[index], rank, direction, candidate);
    lemma_skip_keeps_join(streams, rank, direction, index, count, candidate);
    lemma_beyond_in_skip(streams[index], rank, direction, candidate, count);
    lemma_beyond_update(
        streams,
        rank,
        direction,
        candidate,
        index,
        streams[index].skip(count),
    );
    if count < streams[index].len() {
        assert(streams[index].skip(count)[0] == streams[index][count]);
    }
}

/// Skipping to a bound leaves the values from the bound on: where the stream ascends, those that
/// are not less than it, and where it descends, those that are not greater.
pub proof fn law_skipping_stops_at_the_bound<V>(
    stream: Seq<V>,
    rank: spec_fn(V) -> int,
    direction: Direction,
    bound: int,
)
    requires
        strictly_follows(stream, rank, direction),
    ensures
        ({
            let left = skipped(stream, rank, direction, bound);
            let count = stream.len() - left.len();
            &&& 0 <= count
            &&& left == stream.skip(count)
            &&& forall|p: int|
                0 <= p < stream.len() ==> (count <= p <==> match direction {
                    Direction::Ascending => rank(#[trigger] stream[p]) >= bound,
                    Direction::Descending => rank(stream[p]) <= bound,
                })
        }),
{
    let count = lemma_skipped(stream, rank, direction, bound);
    assert(stream.skip(count).len() == stream.len() - count);
}

} // verus!
