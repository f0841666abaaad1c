//! Iterates over the runs of an immutable table, as if they had been merged into one.
//!
//! The versions of every key come out as the one value that they add up to.

use crate::direction::Direction;
use crate::k_way_merge::{
    contestant, follows, is_next, is_power_of_two, law_merge_follows_direction, lemma_all_dry,
    lemma_merged_end, lemma_merged_step, lemma_winner_is_next, merged, strictly_follows, total,
    without_head, Node, TournamentTree,
};
use crate::key::OrderedKey;
use crate::table_memory::sort::{
    alternates, dedup_values, key_rank, law_reduction_keeps_what_survives, lemma_no_versions,
    lemma_versions_add, lemma_versions_first, lookup, merge_one, reduced, surviving, versions,
    Table, Usage,
};
use crate::table_memory::{MergeContext, SORTED_RUNS_MAX};
use crate::zig_zag_merge::skipped;
use vstd::prelude::*;

verus! {

/// The leaves of the tournament between the runs.
pub const TOURNAMENT_NODE_COUNT_MAX: usize = 8;

/// A run, in the order of the iteration.
pub open spec fn oriented<V>(run: Seq<V>, direction: Direction) -> Seq<V> {
    match direction {
        Direction::Ascending => run,
        Direction::Descending => run.reverse(),
    }
}

/// Runs, in the order of the iteration.
pub open spec fn all_oriented<V>(runs: Seq<Seq<V>>, direction: Direction) -> Seq<Seq<V>> {
    Seq::new(runs.len(), |i: int| oriented(runs[i], direction))
}

/// The key is not beyond the last one.
pub open spec fn within(direction: Direction, end: Option<int>, key: int) -> bool {
    match end {
        Some(end) => !direction.precedes(end, key),
        None => true,
    }
}

/// The values up to the first one beyond the last key.
pub open spec fn limited<V>(
    values: Seq<V>,
    rank: spec_fn(V) -> int,
    direction: Direction,
    end: Option<int>,
) -> Seq<V>
    decreases values.len(),
{
    if values.len() == 0 || !within(direction, end, rank(values[0])) {
        Seq::empty()
    } else {
        seq![values[0]] + limited(values.drop_first(), rank, direction, end)
    }
}

/// What an iteration over runs gives.
pub open spec fn iteration<T: Table>(
    runs: Seq<Seq<T::Value>>,
    end: Option<int>,
    direction: Direction,
) -> Seq<T::Value> {
    reduced(
        limited(
            merged(all_oriented(runs, direction), key_rank::<T>(), direction, false, None),
            key_rank::<T>(),
            direction,
            end,
        ),
        key_rank::<T>(),
        T::USAGE,
        None,
    )
}

/// The versions of a key in runs, one run after the other.
pub open spec fn run_versions<V>(
    runs: Seq<Seq<V>>,
    rank: spec_fn(V) -> int,
    key: int,
) -> Seq<V>
    decreases runs.len(),
{
    if runs.len() == 0 {
        Seq::empty()
    } else {
        run_versions(runs.drop_last(), rank, key) + versions(runs.last(), rank, key)
    }
}

proof fn lemma_no_run_versions<V>(runs: Seq<Seq<V>>, rank: spec_fn(V) -> int, key: int)
    requires
        forall|i: int|
            0 <= i < runs.len() ==> versions(#[trigger] runs[i], rank, key) == Seq::<V>::empty(),
    ensures
        run_versions(runs, rank, key) == Seq::<V>::empty(),
    decreases runs.len(),
{
    if runs.len() > 0 {
        let front = runs.drop_last();
        assert forall|i: int| 0 <= i < front.len() implies versions(
            #[trigger] front[i],
            rank,
            key,
        ) == Seq::<V>::empty() by {
            assert(front[i] == runs[i]);
        }
        lemma_no_run_versions(front, rank, key);
        assert(versions(runs[runs.len() - 1], rank, key) == Seq::<V>::empty());
        assert(Seq::<V>::empty() + Seq::<V>::empty() =~= Seq::<V>::empty());
    }
}

/// Taking the head of a run, of which no run before it holds a version, takes its first version.
proof fn lemma_run_versions_without_head<V>(
    runs: Seq<Seq<V>>,
    rank: spec_fn(V) -> int,
    key: int,
    next: int,
)
    requires
        0 <= next < runs.len(),
        runs[next].len() > 0,
        rank(runs[next][0]) == key ==> forall|i: int|
            0 <= i < next ==> versions(#[trigger] runs[i], rank, key) == Seq::<V>::empty(),
    ensures
        run_versions(runs, rank, key) == if rank(runs[next][0]) == key {
            seq![runs[next][0]] + run_versions(without_head(runs, next), rank, key)
        } else {
            run_versions(without_head(runs, next), rank, key)
        },
    decreases runs.len(),
{
    let head = runs[next][0];
    let rest = without_head(runs, next);
    let front = runs.drop_last();
    let last = runs.len() - 1;
    if next == last {
        lemma_versions_first(runs[last], rank, key);
        assert(rest.drop_last() =~= front);
        if rank(head) == key {
            assert forall|i: int| 0 <= i < front.len() implies versions(
                #[trigger] front[i],
                rank,
                key,
            ) == Seq::<V>::empty() by {
                assert(front[i] == runs[i]);
            }
            lemma_no_run_versions(front, rank, key);
            let tail = versions(runs[last].drop_first(), rank, key);
            assert(Seq::<V>::empty() + (seq![head] + tail) =~= seq![head] + (Seq::<V>::empty()
                + tail));
        }
    } else {
        assert(rest.drop_last() =~= without_head(front, next));
        assert(front[next] == runs[next]);
        if rank(head) == key {
            assert forall|i: int| 0 <= i < next implies versions(
                #[trigger] front[i],
                rank,
                key,
            ) == Seq::<V>::empty() by {
                assert(front[i] == runs[i]);
            }
        }
        lemma_run_versions_without_head(front, rank, key, next);
        if rank(head) == key {
            let a = run_versions(without_head(front, next), rank, key);
            let b = versions(runs[last], rank, key);
            assert((seq![head] + a) + b =~= seq![head] + (a + b));
        }
    }
}

/// A merge gives the versions of a key in the order of the runs that they come from.
pub proof fn law_merge_keeps_versions_in_order<V>(
    runs: Seq<Seq<V>>,
    rank: spec_fn(V) -> int,
    direction: Direction,
    key: int,
)
    requires
        forall|i: int| 0 <= i < runs.len() ==> follows(#[trigger] runs[i], rank, direction),
    ensures
        versions(merged(runs, rank, direction, false, None), rank, key) == run_versions(
            runs,
            rank,
            key,
        ),
{
    lemma_merged_versions(runs, rank, direction, key, None);
}

proof fn lemma_merged_versions<V>(
    runs: Seq<Seq<V>>,
    rank: spec_fn(V) -> int,
    direction: Direction,
    key: int,
    last: Option<int>,
)
    requires
        forall|i: int| 0 <= i < runs.len() ==> follows(#[trigger] runs[i], rank, direction),
    ensures
        versions(merged(runs, rank, direction, false, last), rank, key) == run_versions(
            runs,
            rank,
            key,
        ),
    decreases total(runs),
{
    let output = merged(runs, rank, direction, false, last);
    let next = choose|next: int| is_next(runs, rank, direction, next);
    if is_next(runs, rank, direction, next) {
        lemma_merged_step(runs, rank, direction, false, last, next);
        let head = runs[next][0];
        let rest = without_head(runs, next);
        assert forall|i: int| 0 <= i < rest.len() implies follows(
            #[trigger] rest[i],
            rank,
            direction,
        ) by {
            assert(follows(runs[i], rank, direction));
            if i == next {
                assert forall|a: int, b: int| 0 <= a < b < rest[i].len() implies !direction.precedes(
                    rank(#[trigger] rest[i][b]),
                    rank(#[trigger] rest[i][a]),
                ) by {
                    assert(!direction.precedes(rank(runs[i][b + 1]), rank(runs[i][a + 1])));
                }
            }
        }
        lemma_merged_versions(rest, rank, direction, key, Some(rank(head)));
        lemma_versions_first(output, rank, key);
        assert(output.drop_first() =~= merged(rest, rank, direction, false, Some(rank(head))));
        if rank(head) == key {
            assert forall|i: int| 0 <= i < next implies versions(
                #[trigger] runs[i],
                rank,
                key,
            ) == Seq::<V>::empty() by {
                assert(follows(runs[i], rank, direction));
                assert forall|p: int| 0 <= p < runs[i].len() implies rank(#[trigger] runs[i][p])
                    != key by {
                    assert(direction.precedes(rank(head), rank(runs[i][0])));
                    if p > 0 {
                        assert(!direction.precedes(rank(runs[i][p]), rank(runs[i][0])));
                    }
                }
                lemma_no_versions(runs[i], rank, key);
            }
        }
        lemma_run_versions_without_head(runs, rank, key, next);
    } else {
        assert(output =~= Seq::<V>::empty());
        lemma_no_versions(output, rank, key);
        assert forall|i: int| 0 <= i < runs.len() implies versions(
            #[trigger] runs[i],
            rank,
            key,
        ) == Seq::<V>::empty() by {
            if runs[i].len() > 0 {
                let found = crate::k_way_merge::lemma_next_exists(runs, rank, direction, i);
            }
            lemma_no_versions(runs[i], rank, key);
        }
        lemma_no_run_versions(runs, rank, key);
    }
}

/// Values with different keys have one version each.
proof fn lemma_one_version<V>(
    values: Seq<V>,
    rank: spec_fn(V) -> int,
    direction: Direction,
    i: int,
)
    requires
        strictly_follows(values, rank, direction),
        0 <= i < values.len(),
    ensures
        versions(values, rank, rank(values[i])) == seq![values[i]],
{
    let key = rank(values[i]);
    let front = values.take(i);
    let back = values.skip(i);
    assert(values =~= front + back);
    lemma_versions_add(front, back, rank, key);
    assert forall|p: int| 0 <= p < front.len() implies rank(#[trigger] front[p]) != key by {
        assert(direction.precedes(rank(values[p]), rank(values[i])));
    }
    lemma_no_versions(front, rank, key);
    lemma_versions_first(back, rank, key);
    let rest = back.drop_first();
    assert forall|p: int| 0 <= p < rest.len() implies rank(#[trigger] rest[p]) != key by {
        assert(direction.precedes(rank(values[i]), rank(values[i + 1 + p])));
    }
    lemma_no_versions(rest, rank, key);
    assert(Seq::<V>::empty() + (seq![values[i]] + Seq::<V>::empty()) =~= seq![values[i]]);
}

/// A sorted run follows the direction of the iteration, and holds the same versions.
proof fn lemma_oriented<V>(
    run: Seq<V>,
    rank: spec_fn(V) -> int,
    direction: Direction,
    key: int,
)
    requires
        strictly_follows(run, rank, Direction::Ascending),
    ensures
        strictly_follows(oriented(run, direction), rank, direction),
        follows(oriented(run, direction), rank, direction),
        versions(oriented(run, direction), rank, key) == versions(run, rank, key),
{
    let other = oriented(run, direction);
    assert forall|a: int, b: int| 0 <= a < b < other.len() implies direction.precedes(
        rank(#[trigger] other[a]),
        rank(#[trigger] other[b]),
    ) by {
        match direction {
            Direction::Ascending => {},
            Direction::Descending => {
                let n = run.len();
                assert(Direction::Ascending.precedes(rank(run[n - 1 - b]), rank(run[n - 1 - a])));
            },
        }
    }
    if exists|i: int| 0 <= i < run.len() && rank(#[trigger] run[i]) == key {
        let i = choose|i: int| 0 <= i < run.len() && rank(#[trigger] run[i]) == key;
        lemma_one_version(run, rank, Direction::Ascending, i);
        match direction {
            Direction::Ascending => {},
            Direction::Descending => {
                assert(other[run.len() - 1 - i] == run[i]);
                lemma_one_version(other, rank, direction, run.len() - 1 - i);
            },
        }
    } else {
        lemma_no_versions(run, rank, key);
        assert forall|p: int| 0 <= p < other.len() implies rank(#[trigger] other[p]) != key by {
            match direction {
                Direction::Ascending => {},
                Direction::Descending => {
                    assert(other[p] == run[run.len() - 1 - p]);
                },
            }
        }
        lemma_no_versions(other, rank, key);
    }
}

proof fn lemma_run_versions_oriented<V>(
    runs: Seq<Seq<V>>,
    rank: spec_fn(V) -> int,
    direction: Direction,
    key: int,
)
    requires
        forall|i: int|
            0 <= i < runs.len() ==> strictly_follows(
                #[trigger] runs[i],
                rank,
                Direction::Ascending,
            ),
    ensures
        run_versions(all_oriented(runs, direction), rank, key) == run_versions(runs, rank, key),
    decreases runs.len(),
{
    if runs.len() > 0 {
        let front = runs.drop_last();
        assert forall|i: int| 0 <= i < front.len() implies strictly_follows(
            #[trigger] front[i],
            rank,
            Direction::Ascending,
        ) by {
            assert(front[i] == runs[i]);
        }
        lemma_run_versions_oriented(front, rank, direction, key);
        assert(all_oriented(runs, direction).drop_last() =~= all_oriented(front, direction));
        lemma_oriented(runs[runs.len() - 1], rank, direction, key);
    }
}

proof fn lemma_unlimited<V>(values: Seq<V>, rank: spec_fn(V) -> int, direction: Direction)
    ensures
        limited(values, rank, direction, None) == values,
    decreases values.len(),
{
    if values.len() > 0 {
        lemma_unlimited(values.drop_first(), rank, direction);
        assert(seq![values[0]] + values.drop_first() =~= values);
    }
}

/// An iteration over all of the runs gives, in the direction of the iteration, one value per key at
/// most: what the versions of the key add up to, those of newer runs after those of older ones.
pub proof fn law_iteration_gives_what_survives<T: Table>(
    runs: Seq<Seq<T::Value>>,
    direction: Direction,
)
    requires
        forall|i: int|
            0 <= i < runs.len() ==> strictly_follows(
                #[trigger] runs[i],
                key_rank::<T>(),
                Direction::Ascending,
            ),
    ensures
        strictly_follows(iteration::<T>(runs, None, direction), key_rank::<T>(), direction),
        forall|key: int| #[trigger]
            lookup(iteration::<T>(runs, None, direction), key_rank::<T>(), key) == surviving(
                T::USAGE,
                run_versions(runs, key_rank::<T>(), key),
            ),
{
    let rank = key_rank::<T>();
    let streams = all_oriented(runs, direction);
    let output = merged(streams, rank, direction, false, None);
    assert forall|i: int| 0 <= i < streams.len() implies follows(
        #[trigger] streams[i],
        rank,
        direction,
    ) by {
        lemma_oriented(runs[i], rank, direction, 0);
    }
    law_merge_follows_direction(streams, rank, direction, false);
    lemma_unlimited(output, rank, direction);
    law_reduction_keeps_what_survives(output, rank, T::USAGE, direction);
    assert forall|key: int| #[trigger]
        lookup(iteration::<T>(runs, None, direction), rank, key) == surviving(
            T::USAGE,
            run_versions(runs, rank, key),
        ) by {
        law_merge_keeps_versions_in_order(streams, rank, direction, key);
        lemma_run_versions_oriented(runs, rank, direction, key);
    }
}

/// The number of values that come out.
proof fn lemma_reduced_len<V>(
    values: Seq<V>,
    rank: spec_fn(V) -> int,
    usage: Usage,
    candidate: Option<V>,
)
    ensures
        reduced(values, rank, usage, candidate).len() <= values.len() + match candidate {
            Some(_) => 1nat,
            None => 0nat,
        },
    decreases values.len(),
{
    if values.len() > 0 {
        let rest = values.drop_first();
        match candidate {
            Some(held) => {
                lemma_reduced_len(rest, rank, usage, merge_one(usage, Some(held), values[0]));
                lemma_reduced_len(rest, rank, usage, Some(values[0]));
            },
            None => {
                lemma_reduced_len(rest, rank, usage, Some(values[0]));
            },
        }
    }
}

proof fn lemma_limited_len<V>(
    values: Seq<V>,
    rank: spec_fn(V) -> int,
    direction: Direction,
    end: Option<int>,
)
    ensures
        limited(values, rank, direction, end).len() <= values.len(),
    decreases values.len(),
{
    if values.len() > 0 {
        lemma_limited_len(values.drop_first(), rank, direction, end);
    }
}

proof fn lemma_merged_len<V>(
    streams: Seq<Seq<V>>,
    rank: spec_fn(V) -> int,
    direction: Direction,
    last: Option<int>,
)
    ensures
        merged(streams, rank, direction, false, last).len() <= total(streams),
    decreases total(streams),
{
    let next = choose|next: int| is_next(streams, rank, direction, next);
    if is_next(streams, rank, direction, next) {
        lemma_merged_step(streams, rank, direction, false, last, next);
        lemma_merged_len(
            without_head(streams, next),
            rank,
            direction,
            Some(rank(streams[next][0])),
        );
    }
}

fn is_beyond<K: OrderedKey>(direction: Direction, end: K, key: K) -> (result: bool)
    ensures
        result == direction.precedes(end.rank(), key.rank()),
{
    direction.cmp_lt(&end, &key)
}

#[derive(Clone, Copy, Debug)]
struct IteratorCounters {
    /// The values of all runs.
    input: u32,
    /// The versions that were superseded, or cancelled out.
    dropped: u32,
    /// The values that were given.
    out: u32,
}

/// Iterates over the runs of an immutable table.
pub struct ImmutableTableIterator<'a, T: Table> {
    direction: Direction,
    ready: Option<T::Value>,
    tournament_tree: TournamentTree<T::Key, TOURNAMENT_NODE_COUNT_MAX>,
    streams: Vec<&'a [T::Value]>,
    candidate: Option<T::Value>,
    end_key: Option<T::Key>,
    end_reached: bool,
    counters: IteratorCounters,
}

/// The keys of the values of a table.
spec fn keys<T: Table>() -> spec_fn(T::Value) -> T::Key {
    |value: T::Value| T::key_of(value)
}

/// How many values there are.
pub open spec fn count<V>(value: Option<V>) -> int {
    match value {
        Some(_) => 1,
        None => 0,
    }
}

/// Where an iteration stands.
#[verifier::ext_equal]
pub struct Progress<V> {
    /// The value to give next, if it is known.
    pub ready: Option<V>,
    /// What the versions of a key add up to so far.
    pub candidate: Option<V>,
    /// The values after those.
    pub values: Seq<V>,
}

impl<V> Progress<V> {
    pub open spec fn len(self) -> int {
        count(self.ready) + count(self.candidate) + self.values.len()
    }

    /// The values that are still to come.
    pub open spec fn remaining(self, rank: spec_fn(V) -> int, usage: Usage) -> Seq<V> {
        let later = reduced(self.values, rank, usage, self.candidate);
        match self.ready {
            Some(value) => seq![value] + later,
            None => later,
        }
    }

    /// Where the iteration stands once the next value is known, and how many versions are dropped
    /// on the way: one that is superseded by the next, or two that cancel each other out.
    pub open spec fn advanced(self, rank: spec_fn(V) -> int, usage: Usage) -> (Progress<V>, int)
        decreases self.values.len(),
    {
        if self.ready is Some {
            (self, 0)
        } else if self.values.len() == 0 {
            (Progress { ready: self.candidate, candidate: None, values: self.values }, 0)
        } else {
            let value = self.values[0];
            let rest = self.values.drop_first();
            match self.candidate {
                Some(candidate) => if rank(candidate) == rank(value) {
                    let merged = merge_one(usage, Some(candidate), value);
                    let (next, dropped) = (Progress {
                        ready: None,
                        candidate: merged,
                        values: rest,
                    }).advanced(rank, usage);
                    (next, dropped + if merged is None {
                        2int
                    } else {
                        1int
                    })
                } else {
                    (Progress { ready: Some(candidate), candidate: Some(value), values: rest }, 0)
                },
                None => (Progress { ready: None, candidate: Some(value), values: rest }).advanced(
                    rank,
                    usage,
                ),
            }
        }
    }

    /// Without the value that is given.
    pub open spec fn taken(self) -> Progress<V> {
        Progress { ready: None, candidate: self.candidate, values: self.values }
    }

    /// Where the iteration stands once the values before a key are skipped, and how many versions
    /// are dropped on the way.
    pub open spec fn probed(
        self,
        rank: spec_fn(V) -> int,
        usage: Usage,
        direction: Direction,
        key: int,
    ) -> (Progress<V>, int)
        decreases self.len(),
    {
        proof {
            self.law_advancing_loses_nothing(rank, usage);
        }
        let (next, dropped) = self.advanced(rank, usage);
        match next.ready {
            Some(value) => if direction.precedes(rank(value), key) {
                let (end, more) = next.taken().probed(rank, usage, direction, key);
                (end, dropped + more)
            } else {
                (next, dropped)
            },
            None => (next, dropped),
        }
    }

    /// To find the next value changes nothing of what is still to come, and every value that it
    /// takes is accounted for. There is no next value only if nothing is still to come.
    pub proof fn law_advancing_loses_nothing(self, rank: spec_fn(V) -> int, usage: Usage)
        ensures
            self.advanced(rank, usage).0.len() + self.advanced(rank, usage).1 == self.len(),
            self.advanced(rank, usage).1 >= 0,
            self.advanced(rank, usage).0.remaining(rank, usage) == self.remaining(rank, usage),
            self.advanced(rank, usage).0.ready is None
                ==> self.advanced(rank, usage).0.remaining(rank, usage).len() == 0,
        decreases self.values.len(),
    {
        if self.ready is None {
            if self.values.len() == 0 {
                assert(self.advanced(rank, usage).0.remaining(rank, usage) =~= self.remaining(
                    rank,
                    usage,
                ));
            } else {
                let value = self.values[0];
                let rest = self.values.drop_first();
                match self.candidate {
                    Some(candidate) => if rank(candidate) == rank(value) {
                        let next = Progress {
                            ready: None,
                            candidate: merge_one(usage, Some(candidate), value),
                            values: rest,
                        };
                        next.law_advancing_loses_nothing(rank, usage);
                    },
                    None => {
                        let next = Progress { ready: None, candidate: Some(value), values: rest };
                        next.law_advancing_loses_nothing(rank, usage);
                    },
                }
            }
        }
    }
}

impl<'a, T: Table> ImmutableTableIterator<'a, T> {
    /// The contestants of the tournament are the heads of the streams.
    spec fn matches_tree(&self) -> bool {
        &&& self.tournament_tree.wf()
        &&& self.tournament_tree.spec_direction() == self.direction
        &&& self.streams@.len() <= self.tournament_tree.contestants().len() <= u32::MAX
        &&& forall|i: int|
            0 <= i < self.tournament_tree.contestants().len()
                ==> #[trigger] self.tournament_tree.contestants()[i] == contestant(
                self.streams(),
                keys::<T>(),
                i,
            )
    }

    spec fn streams(&self) -> Seq<Seq<T::Value>> {
        Seq::new(self.streams@.len(), |i: int| oriented(self.streams@[i]@, self.direction))
    }

    spec fn end(&self) -> Option<int> {
        match self.end_key {
            Some(key) => Some(key.rank()),
            None => None,
        }
    }

    /// The values of the streams, in the order of the merge.
    spec fn upcoming(&self) -> Seq<T::Value> {
        merged(self.streams(), key_rank::<T>(), self.direction, false, None)
    }

    spec fn in_flight(&self) -> int {
        count(self.ready) + count(self.candidate) + total(self.streams())
    }

    pub closed spec fn wf(&self) -> bool {
        &&& self.matches_tree()
        &&& self.end_reached ==> self.candidate is None
        &&& self.candidate matches Some(value) ==> within(
            self.direction,
            self.end(),
            key_rank::<T>()(value),
        )
        &&& self.out() + self.dropped() + self.in_flight() <= self.input()
        &&& !self.end_reached || !self.bounded() ==> self.out() + self.dropped() + self.in_flight()
            == self.input()
        &&& self.end_reached && !self.bounded() ==> total(self.streams()) == 0
    }

    /// Where the iteration stands.
    pub closed spec fn progress(&self) -> Progress<T::Value> {
        Progress {
            ready: self.ready,
            candidate: self.candidate,
            values: if self.end_reached {
                Seq::empty()
            } else {
                limited(self.upcoming(), key_rank::<T>(), self.direction, self.end())
            },
        }
    }

    /// The values that are still to come.
    pub open spec fn remaining(&self) -> Seq<T::Value> {
        self.progress().remaining(key_rank::<T>(), T::USAGE)
    }

    pub closed spec fn spec_direction(&self) -> Direction {
        self.direction
    }

    /// Whether there is a last key.
    pub closed spec fn bounded(&self) -> bool {
        self.end_key is Some
    }

    /// How many values the runs held.
    pub closed spec fn input(&self) -> int {
        self.counters.input as int
    }

    /// How many versions were superseded, or cancelled out.
    pub closed spec fn dropped(&self) -> int {
        self.counters.dropped as int
    }

    /// How many values were given.
    pub closed spec fn out(&self) -> int {
        self.counters.out as int
    }

    /// Every value that the runs held is given, dropped, or still to come. Where there is no last
    /// key, all of them are accounted for at the end.
    pub proof fn law_counts_add_up(&self)
        requires
            self.wf(),
        ensures
            self.out() + self.dropped() + self.remaining().len() <= self.input(),
            self.remaining().len() == 0 && !self.bounded() && T::USAGE == Usage::General
                ==> self.out() + self.dropped() == self.input(),
    {
        let rank = key_rank::<T>();
        let values = limited(self.upcoming(), rank, self.direction, self.end());
        lemma_merged_len(self.streams(), rank, self.direction, None);
        lemma_limited_len(self.upcoming(), rank, self.direction, self.end());
        lemma_reduced_len(values, rank, T::USAGE, self.candidate);
        if self.remaining().len() == 0 && !self.bounded() && T::USAGE == Usage::General {
            lemma_unlimited(self.upcoming(), rank, self.direction);
            if !self.end_reached {
                lemma_general_survives::<T>(self.upcoming(), self.candidate);
                lemma_merged_empty(self.streams(), rank, self.direction);
            }
        }
    }

    /// Starts an iteration, up to `end_key` if there is one.
    #[must_use]
    pub fn new(
        merge_context: MergeContext<'a, T>,
        end_key: Option<T::Key>,
        direction: Direction,
    ) -> (result: Self)
        requires
            merge_context.wf(),
            alternates::<T>(
                merged(
                    all_oriented(merge_context.runs(), direction),
                    key_rank::<T>(),
                    direction,
                    false,
                    None,
                ),
            ),
        ensures
            result.wf(),
            result.progress() == (Progress {
                ready: None,
                candidate: None,
                values: limited(
                    merged(
                        all_oriented(merge_context.runs(), direction),
                        key_rank::<T>(),
                        direction,
                        false,
                        None,
                    ),
                    key_rank::<T>(),
                    direction,
                    match end_key {
                        Some(key) => Some(key.rank()),
                        None => None,
                    },
                ),
            }),
            result.remaining() == iteration::<T>(
                merge_context.runs(),
                match end_key {
                    Some(key) => Some(key.rank()),
                    None => None,
                },
                direction,
            ),
            result.spec_direction() == direction,
            result.bounded() == (end_key is Some),
            result.input() == total(merge_context.runs()),
            result.dropped() == 0,
            result.out() == 0,
    {
        let ghost runs = merge_context.runs();
        let streams = merge_context.streams;
        let ghost oriented_runs = Seq::new(
            streams@.len(),
            |i: int| oriented(streams@[i]@, direction),
        );
        proof {
            assert(oriented_runs =~= all_oriented(runs, direction));
            lemma_total_oriented(runs, direction);
        }
        let mut input: u32 = 0;
        let mut i: usize = 0;
        while i < streams.len()
            invariant
                i <= streams@.len(),
                runs.len() == streams@.len(),
                forall|k: int| 0 <= k < runs.len() ==> #[trigger] runs[k] == streams@[k]@,
                input == total(runs.take(i as int)),
                total(runs) <= u32::MAX,
            decreases streams@.len() - i,
        {
            proof {
                lemma_total_take(runs, i as int);
            }
            assert(runs[i as int] == streams@[i as int]@);
            input = input + streams[i].len() as u32;
            i = i + 1;
        }
        assert(runs.take(runs.len() as int) =~= runs);
        let tournament_tree = Self::load_tree(&streams, direction);
        ImmutableTableIterator {
            direction,
            ready: None,
            tournament_tree,
            streams,
            candidate: None,
            end_key,
            end_reached: false,
            counters: IteratorCounters { input, dropped: 0, out: 0 },
        }
    }

    /// How many values there are at most.
    #[must_use]
    pub fn count_max(&self) -> (result: u32)
        ensures
            result == self.input(),
    {
        self.counters.input
    }

    /// How many versions were dropped so far.
    #[must_use]
    pub fn count_dropped(&self) -> (result: u32)
        ensures
            result == self.dropped(),
    {
        self.counters.dropped
    }

    /// How many values were neither given nor dropped yet.
    #[must_use]
    pub fn count_remaining(&self) -> (result: u32)
        requires
            self.wf(),
        ensures
            result == self.input() - self.out() - self.dropped(),
    {
        self.counters.input - (self.counters.out + self.counters.dropped)
    }

    /// The key of the next value.
    #[must_use]
    pub fn peek(&mut self) -> (result: Option<T::Key>)
        requires
            old(self).wf(),
        ensures
            final(self).wf(),
            final(self).remaining() == old(self).remaining(),
            final(self).spec_direction() == old(self).spec_direction(),
            final(self).bounded() == old(self).bounded(),
            final(self).input() == old(self).input(),
            final(self).out() == old(self).out(),
            ({
                let (next, dropped) = old(self).progress().advanced(key_rank::<T>(), T::USAGE);
                &&& final(self).progress() == next
                &&& final(self).dropped() == old(self).dropped() + dropped
            }),
            result == if old(self).remaining().len() == 0 {
                None
            } else {
                Some(T::key_of(old(self).remaining()[0]))
            },
            result is None && !old(self).bounded() ==> final(self).out() + final(self).dropped()
                == final(self).input(),
    {
        self.ensure_next();
        match &self.ready {
            Some(value) => {
                assert(self.remaining()[0] == *value);
                Some(T::key_from_value(value))
            },
            None => None,
        }
    }

    /// The next value.
    pub fn pop(&mut self) -> (result: Option<T::Value>)
        requires
            old(self).wf(),
        ensures
            final(self).wf(),
            final(self).spec_direction() == old(self).spec_direction(),
            final(self).bounded() == old(self).bounded(),
            final(self).input() == old(self).input(),
            ({
                let (next, dropped) = old(self).progress().advanced(key_rank::<T>(), T::USAGE);
                &&& final(self).progress() == next.taken()
                &&& final(self).dropped() == old(self).dropped() + dropped
            }),
            match result {
                Some(value) => {
                    &&& old(self).remaining().len() > 0
                    &&& value == old(self).remaining()[0]
                    &&& final(self).remaining() == old(self).remaining().drop_first()
                    &&& final(self).out() == old(self).out() + 1
                },
                None => {
                    &&& old(self).remaining().len() == 0
                    &&& final(self).remaining().len() == 0
                    &&& final(self).out() == old(self).out()
                    &&& !old(self).bounded() ==> final(self).out() + final(self).dropped()
                        == final(self).input()
                },
            },
    {
        self.ensure_next();
        let ghost before = self.remaining();
        match self.ready {
            Some(value) => {
                self.ready = None;
                self.counters.out = self.counters.out + 1;
                assert(before.drop_first() =~= self.remaining());
                Some(value)
            },
            None => None,
        }
    }

    /// Skips the values whose keys come before `probe_key`.
    pub fn probe(&mut self, probe_key: T::Key)
        requires
            old(self).wf(),
        ensures
            final(self).wf(),
            final(self).spec_direction() == old(self).spec_direction(),
            final(self).bounded() == old(self).bounded(),
            final(self).input() == old(self).input(),
            ({
                let (next, dropped) = old(self).progress().probed(
                    key_rank::<T>(),
                    T::USAGE,
                    old(self).spec_direction(),
                    probe_key.rank(),
                );
                &&& final(self).progress() == next
                &&& final(self).dropped() == old(self).dropped() + dropped
            }),
            final(self).remaining() == skipped(
                old(self).remaining(),
                key_rank::<T>(),
                old(self).spec_direction(),
                probe_key.rank(),
            ),
            final(self).out() + final(self).remaining().len() == old(self).out()
                + old(self).remaining().len(),
    {
        let ghost all = old(self).remaining();
        let direction = self.direction;
        let ghost rank = key_rank::<T>();
        let ghost goal = self.progress().probed(rank, T::USAGE, direction, probe_key.rank());
        loop
            invariant_except_break
                ({
                    let (next, dropped) = self.progress().probed(
                        rank,
                        T::USAGE,
                        direction,
                        probe_key.rank(),
                    );
                    &&& next == goal.0
                    &&& self.dropped() + dropped == old(self).dropped() + goal.1
                }),
            invariant
                self.wf(),
                rank == key_rank::<T>(),
                all == old(self).remaining(),
                direction == old(self).spec_direction(),
                self.spec_direction() == old(self).spec_direction(),
                self.bounded() == old(self).bounded(),
                self.input() == old(self).input(),
                self.out() == old(self).out() + all.len() - self.remaining().len(),
                skipped(self.remaining(), key_rank::<T>(), direction, probe_key.rank()) == skipped(
                    all,
                    key_rank::<T>(),
                    direction,
                    probe_key.rank(),
                ),
            ensures
                self.remaining() == skipped(
                    all,
                    key_rank::<T>(),
                    direction,
                    probe_key.rank(),
                ),
                self.progress() == goal.0,
                self.dropped() == old(self).dropped() + goal.1,
            decreases self.remaining().len(),
        {
            let ghost before = self.progress();
            proof {
                before.law_advancing_loses_nothing(rank, T::USAGE);
            }
            match self.peek() {
                Some(key) => {
                    if !is_beyond(direction, key, probe_key) {
                        break;
                    }
                },
                None => {
                    break;
                },
            }
            let _ = self.pop();
        }
    }

    /// Lets the heads of the streams compete.
    fn load_tree(streams: &Vec<&'a [T::Value]>, direction: Direction) -> (result: TournamentTree<
        T::Key,
        TOURNAMENT_NODE_COUNT_MAX,
    >)
        requires
            streams@.len() <= SORTED_RUNS_MAX,
        ensures
            result.wf(),
            result.spec_direction() == direction,
            streams@.len() <= result.contestants().len() <= u32::MAX,
            forall|i: int|
                0 <= i < result.contestants().len() ==> #[trigger] result.contestants()[i]
                    == contestant(
                    Seq::new(streams@.len(), |k: int| oriented(streams@[k]@, direction)),
                    keys::<T>(),
                    i,
                ),
    {
        let ghost heads = Seq::new(streams@.len(), |k: int| oriented(streams@[k]@, direction));
        let mut contestants: [Node<T::Key>; TOURNAMENT_NODE_COUNT_MAX] =
            vstd::array::array_fill_for_copy_types(Node::sentinel());
        let mut id: usize = 0;
        while id < streams.len()
            invariant
                id <= streams@.len() <= SORTED_RUNS_MAX,
                heads == Seq::new(streams@.len(), |k: int| oriented(streams@[k]@, direction)),
                forall|i: int|
                    0 <= i < id ==> #[trigger] contestants@[i] == contestant(
                        heads,
                        keys::<T>(),
                        i,
                    ),
                forall|i: int|
                    id <= i < TOURNAMENT_NODE_COUNT_MAX ==> #[trigger] contestants@[i]
                        == Node::<T::Key>::spec_sentinel(),
            decreases streams@.len() - id,
        {
            let stream: &[T::Value] = streams[id];
            if stream.len() > 0 {
                let value = direction.slice_peek(stream);
                assert(heads[id as int] == oriented(stream@, direction));
                contestants[id] = Node { key: T::key_from_value(value), id: id as u32 };
            }
            id = id + 1;
        }
        proof {
            reveal_with_fuel(is_power_of_two, 5);
        }
        let tree = TournamentTree::init(direction, &contestants, streams.len() as u16);
        proof {
            assert forall|i: int| 0 <= i < tree.contestants().len() implies #[trigger] tree.contestants()[i]
                == contestant(heads, keys::<T>(), i) by {
                assert(tree.contestants()[i] == contestants@[i]);
            }
        }
        tree
    }

    /// The next value of the merge.
    fn pop_from_tree(&mut self) -> (result: Option<T::Value>)
        requires
            old(self).matches_tree(),
        ensures
            final(self).matches_tree(),
            final(self).direction == old(self).direction,
            final(self).ready == old(self).ready,
            final(self).candidate == old(self).candidate,
            final(self).end_key == old(self).end_key,
            final(self).end_reached == old(self).end_reached,
            final(self).counters == old(self).counters,
            match result {
                Some(value) => {
                    &&& old(self).upcoming().len() > 0
                    &&& value == old(self).upcoming()[0]
                    &&& final(self).upcoming() == old(self).upcoming().drop_first()
                    &&& total(final(self).streams()) == total(old(self).streams()) - 1
                },
                None => {
                    &&& old(self).upcoming().len() == 0
                    &&& total(old(self).streams()) == 0
                    &&& final(self).streams() == old(self).streams()
                },
            },
    {
        let ghost before = self.streams();
        let ghost rank = key_rank::<T>();
        let ghost contestants = self.tournament_tree.contestants();
        proof {
            self.tournament_tree.law_winner_is_the_best();
        }
        if self.tournament_tree.contestants_left() == 0 {
            proof {
                lemma_all_dry(before, keys::<T>(), contestants);
                lemma_merged_end(before, rank, self.direction, false, None);
                lemma_total_dry(before);
            }
            return None;
        }
        let winner = self.tournament_tree.winner();
        let id: usize = winner.id as usize;
        proof {
            lemma_winner_is_next(before, keys::<T>(), rank, contestants, winner, self.direction);
            lemma_merged_step(before, rank, self.direction, false, None, id as int);
            assert(before[id as int] == oriented(self.streams@[id as int]@, self.direction));
        }
        let stream: &'a [T::Value] = self.streams[id];
        let (value, rest) = self.direction.slice_pop(stream);
        self.streams[id] = rest;
        let next_key: Option<T::Key> = if rest.len() == 0 {
            None
        } else {
            Some(T::key_from_value(self.direction.slice_peek(rest)))
        };
        self.tournament_tree.pop_winner(next_key);
        proof {
            assert(oriented(rest@, self.direction) =~= before[id as int].drop_first());
            assert(self.streams() =~= without_head(before, id as int));
            assert(old(self).upcoming().drop_first() =~= self.upcoming());
            let now = self.tournament_tree.contestants();
            assert forall|i: int| 0 <= i < now.len() implies #[trigger] now[i]
                == contestant(self.streams(), keys::<T>(), i) by {
                assert(contestants[i] == contestant(before, keys::<T>(), i));
            }
        }
        Some(*value)
    }

    /// Makes the next value ready, if there is one.
    #[verifier::rlimit(40)]
    fn ensure_next(&mut self)
        requires
            old(self).wf(),
        ensures
            final(self).wf(),
            final(self).remaining() == old(self).remaining(),
            final(self).direction == old(self).direction,
            final(self).bounded() == old(self).bounded(),
            final(self).input() == old(self).input(),
            final(self).out() == old(self).out(),
            final(self).ready is None ==> final(self).end_reached,
            ({
                let (next, dropped) = old(self).progress().advanced(key_rank::<T>(), T::USAGE);
                &&& final(self).progress() == next
                &&& final(self).dropped() == old(self).dropped() + dropped
            }),
    {
        proof {
            self.progress().law_advancing_loses_nothing(key_rank::<T>(), T::USAGE);
        }
        if self.ready.is_some() || self.end_reached {
            return;
        }
        let ghost rank = key_rank::<T>();
        let ghost goal = self.progress().advanced(rank, T::USAGE);
        loop
            invariant
                self.wf(),
                !self.end_reached,
                self.ready is None,
                rank == key_rank::<T>(),
                goal == old(self).progress().advanced(rank, T::USAGE),
                goal.0.remaining(rank, T::USAGE) == old(self).remaining(),
                self.progress().advanced(rank, T::USAGE).0 == goal.0,
                self.dropped() + self.progress().advanced(rank, T::USAGE).1 == old(self).dropped()
                    + goal.1,
                self.direction == old(self).direction,
                self.bounded() == old(self).bounded(),
                self.input() == old(self).input(),
                self.out() == old(self).out(),
            decreases total(self.streams()),
        {
            let ghost upcoming = self.upcoming();
            let ghost end = self.end();
            let value = match self.pop_from_tree() {
                Some(value) => value,
                None => {
                    self.ready = self.candidate;
                    self.candidate = None;
                    self.end_reached = true;
                    return;
                },
            };
            let value_key = T::key_from_value(&value);
            proof {
                assert(limited(upcoming, rank, self.direction, end).len() > 0 ==> limited(
                    upcoming,
                    rank,
                    self.direction,
                    end,
                ).drop_first() =~= limited(upcoming.drop_first(), rank, self.direction, end));
            }
            match self.candidate {
                Some(candidate) => {
                    let candidate_key = T::key_from_value(&candidate);
                    proof {
                        <T::Key as OrderedKey>::rank_injective(value_key, candidate_key);
                    }
                    if value_key.key_eq(candidate_key) {
                        self.candidate = dedup_values::<T>(candidate, value);
                        if self.candidate.is_none() {
                            self.counters.dropped = self.counters.dropped + 2;
                        } else {
                            self.counters.dropped = self.counters.dropped + 1;
                        }
                    } else {
                        self.ready = Some(candidate);
                        if !self.within_range(value_key) {
                            self.candidate = None;
                            self.end_reached = true;
                            return;
                        }
                        self.candidate = Some(value);
                        return;
                    }
                },
                None => {
                    if !self.within_range(value_key) {
                        self.end_reached = true;
                        return;
                    }
                    self.candidate = Some(value);
                },
            }
        }
    }

    /// Whether the key is not beyond the last one.
    fn within_range(&self, key: T::Key) -> (result: bool)
        ensures
            result == within(self.direction, self.end(), key.rank()),
    {
        match self.end_key {
            Some(end_key) => !is_beyond(self.direction, end_key, key),
            None => true,
        }
    }
}

/// In a table that is no secondary index, something is left of values.
proof fn lemma_general_survives<T: Table>(values: Seq<T::Value>, candidate: Option<T::Value>)
    requires
        T::USAGE == Usage::General,
        reduced(values, key_rank::<T>(), T::USAGE, candidate).len() == 0,
    ensures
        values.len() == 0,
        candidate is None,
    decreases values.len(),
{
    let rank = key_rank::<T>();
    if values.len() > 0 {
        let rest = values.drop_first();
        match candidate {
            Some(held) => {
                if rank(held) == rank(values[0]) {
                    lemma_general_survives::<T>(rest, Some(values[0]));
                }
            },
            None => {
                lemma_general_survives::<T>(rest, Some(values[0]));
            },
        }
    }
}

proof fn lemma_total_dry<V>(streams: Seq<Seq<V>>)
    requires
        forall|i: int| 0 <= i < streams.len() ==> (#[trigger] streams[i]).len() == 0,
    ensures
        total(streams) == 0,
    decreases streams.len(),
{
    if streams.len() > 0 {
        let front = streams.drop_last();
        assert forall|i: int| 0 <= i < front.len() implies (#[trigger] front[i]).len() == 0 by {
            assert(front[i] == streams[i]);
        }
        lemma_total_dry(front);
        assert(streams[streams.len() - 1].len() == 0);
    }
}

proof fn lemma_merged_empty<V>(
    streams: Seq<Seq<V>>,
    rank: spec_fn(V) -> int,
    direction: Direction,
)
    requires
        merged(streams, rank, direction, false, None).len() == 0,
    ensures
        total(streams) == 0,
{
    assert forall|i: int| 0 <= i < streams.len() implies (#[trigger] streams[i]).len() == 0 by {
        if streams[i].len() > 0 {
            let next = crate::k_way_merge::lemma_next_exists(streams, rank, direction, i);
            lemma_merged_step(streams, rank, direction, false, None, next);
        }
    }
    lemma_total_dry(streams);
}

proof fn lemma_total_oriented<V>(runs: Seq<Seq<V>>, direction: Direction)
    ensures
        total(all_oriented(runs, direction)) == total(runs),
    decreases runs.len(),
{
    if runs.len() > 0 {
        lemma_total_oriented(runs.drop_last(), direction);
        assert(all_oriented(runs, direction).drop_last() =~= all_oriented(
            runs.drop_last(),
            direction,
        ));
    }
}

proof fn lemma_total_take<V>(runs: Seq<Seq<V>>, i: int)
    requires
        0 <= i < runs.len(),
    ensures
        total(runs.take(i + 1)) == total(runs.take(i)) + runs[i].len(),
        total(runs.take(i + 1)) <= total(runs),
    decreases runs.len(),
{
    assert(runs.take(i + 1).drop_last() =~= runs.take(i));
    if i < runs.len() - 1 {
        let front = runs.drop_last();
        lemma_total_take(front, i);
        assert(front.take(i + 1) =~= runs.take(i + 1));
        assert(front.take(i) =~= runs.take(i));
    } else {
        assert(runs.take(i + 1) =~= runs);
    }
}

/// An iteration that ends at a key gives what comes before the first value beyond the key, and that
/// value is greater than the key where the iteration ascends, or less where it descends.
pub proof fn law_iteration_ends_at_its_key<V>(
    values: Seq<V>,
    rank: spec_fn(V) -> int,
    direction: Direction,
    end: int,
)
    ensures
        ({
            let given = limited(values, rank, direction, Some(end));
            &&& given.len() <= values.len()
            &&& given == values.take(given.len() as int)
            &&& forall|i: int|
                0 <= i < given.len() ==> match direction {
                    Direction::Ascending => rank(#[trigger] given[i]) <= end,
                    Direction::Descending => rank(given[i]) >= end,
                }
            &&& given.len() < values.len() ==> match direction {
                Direction::Ascending => rank(values[given.len() as int]) > end,
                Direction::Descending => rank(values[given.len() as int]) < end,
            }
        }),
    decreases values.len(),
{
    let given = limited(values, rank, direction, Some(end));
    if values.len() > 0 && within(direction, Some(end), rank(values[0])) {
        let rest = values.drop_first();
        law_iteration_ends_at_its_key(rest, rank, direction, end);
        let more = limited(rest, rank, direction, Some(end));
        assert(given == seq![values[0]] + more);
        assert forall|i: int| 0 <= i < given.len() implies #[trigger] given[i] == values[i] by {
            if i > 0 {
                assert(given[i] == more[i - 1]);
                assert(more[i - 1] == rest.take(more.len() as int)[i - 1]);
            }
        }
        assert(given =~= values.take(given.len() as int));
        assert forall|i: int| 0 <= i < given.len() implies match direction {
            Direction::Ascending => rank(#[trigger] given[i]) <= end,
            Direction::Descending => rank(given[i]) >= end,
        } by {
            if i > 0 {
                assert(given[i] == more[i - 1]);
            }
        }
        if given.len() < values.len() {
            assert(values[given.len() as int] == rest[more.len() as int]);
        }
    } else {
        assert(given =~= values.take(0));
    }
}

} // verus!
