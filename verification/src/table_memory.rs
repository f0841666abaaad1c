//! Tables in memory.
//!
//! A tree has two of them. The mutable table takes all updates: values are put at its end, and
//! sorted into runs from time to time. The immutable table waits to be written to disk. When the
//! mutable table is full, either it becomes the immutable one, or the immutable table absorbs it.
//!
//! A table may hold several versions of a key, in different runs. Newer runs come after older
//! ones, so that the last version of a key is the one that counts.

pub mod iterator;
pub mod sort;

pub use crate::table_memory::iterator::ImmutableTableIterator;
pub use crate::table_memory::sort::{Table, Usage};

use crate::binary_search::{
    binary_search_values, binary_search_values_range, is_upsert_index, value_ranks, Config,
    KeyFromValue, Mode,
};
use crate::constants::LSM_COMPACTION_OPS;
use crate::direction::Direction;
use crate::k_way_merge::{strictly_follows, total};
use crate::key::{sorted, OrderedKey};
use crate::scratch_memory::ScratchMemory;
use crate::table_memory::iterator::{iteration, law_iteration_gives_what_survives, run_versions};
use crate::table_memory::sort::{
    alternates, is_reduced, kept_outside, key_rank, law_reducing_a_suffix_keeps_what_survives,
    lemma_no_versions, lemma_versions_add, lemma_versions_first, lemma_versions_push, lookup,
    sort_suffix_from_index, surviving, versions,
};
use crate::zig_zag_merge::lemma_filter_strict;
use vstd::prelude::*;

verus! {

/// The runs of a table at most: one per compaction, one from sorting the rest, and one that was
/// immutable before.
pub const SORTED_RUNS_MAX: usize = LSM_COMPACTION_OPS + 2;

/// Where a run comes from.
#[derive(Clone, Copy, Debug, PartialEq, Eq, Structural)]
pub enum RunOrigin {
    Mutable,
    Immutable,
}

/// Sorted values of a table, from `index_min` up to but not at `index_max`.
#[derive(Clone, Copy, Debug, PartialEq, Eq, Structural)]
pub struct SortedRun {
    pub index_min: u32,
    pub index_max: u32,
    pub origin: RunOrigin,
}

impl SortedRun {
    pub open spec fn empty(self) -> bool {
        self.index_min == self.index_max
    }

    /// The run, further on in the table.
    pub open spec fn shifted(self, offset: u32) -> SortedRun {
        SortedRun {
            index_min: (self.index_min + offset) as u32,
            index_max: (self.index_max + offset) as u32,
            origin: self.origin,
        }
    }

    #[must_use]
    pub fn is_empty(&self) -> (result: bool)
        ensures
            result == self.empty(),
    {
        self.index_min == self.index_max
    }
}

/// One run ends where the next one starts.
pub open spec fn touches(runs: Seq<SortedRun>, i: int) -> bool {
    runs[i].index_max == runs[i + 1].index_min
}

/// The runs are not empty, without gaps from the start on, and only the first may come from an
/// immutable table.
pub open spec fn runs_ok(runs: Seq<SortedRun>) -> bool {
    &&& runs.len() <= SORTED_RUNS_MAX
    &&& forall|i: int|
        0 <= i < runs.len() ==> (#[trigger] runs[i]).index_min < runs[i].index_max
    &&& forall|i: int| 0 <= i < runs.len() - 1 ==> #[trigger] touches(runs, i)
    &&& runs.len() > 0 ==> runs[0].index_min == 0
    &&& forall|i: int|
        0 < i < runs.len() ==> (#[trigger] runs[i]).origin == RunOrigin::Mutable
}

/// Where the last run ends.
pub open spec fn runs_end(runs: Seq<SortedRun>) -> int {
    if runs.len() == 0 {
        0
    } else {
        runs.last().index_max as int
    }
}

/// There are no runs, or they hold all of `count` values.
pub open spec fn covers(runs: Seq<SortedRun>, count: int) -> bool {
    runs.len() == 0 || runs_end(runs) == count
}

/// The values of each run.
pub open spec fn run_values<V>(values: Seq<V>, runs: Seq<SortedRun>) -> Seq<Seq<V>> {
    Seq::new(
        runs.len(),
        |i: int| values.subrange(runs[i].index_min as int, runs[i].index_max as int),
    )
}

/// The versions of a key, run by run, are its versions in the order of the values.
proof fn lemma_run_versions<V>(
    values: Seq<V>,
    runs: Seq<SortedRun>,
    rank: spec_fn(V) -> int,
    key: int,
)
    requires
        runs_ok(runs),
        runs_end(runs) <= values.len(),
    ensures
        run_versions(run_values(values, runs), rank, key) == versions(
            values.take(runs_end(runs)),
            rank,
            key,
        ),
    decreases runs.len(),
{
    if runs.len() == 0 {
        lemma_no_versions(values.take(0), rank, key);
    } else {
        let front = runs.drop_last();
        let last = runs.len() - 1;
        assert forall|k: int| 0 <= k < front.len() - 1 implies #[trigger] touches(front, k) by {
            assert(touches(runs, k));
        }
        if last > 0 {
            assert(touches(runs, last - 1));
        }
        lemma_run_versions(values, front, rank, key);
        assert(run_values(values, runs).drop_last() =~= run_values(values, front));
        let tail = values.subrange(runs[last].index_min as int, runs[last].index_max as int);
        assert(values.take(runs_end(runs)) =~= values.take(runs_end(front)) + tail);
        lemma_versions_add(values.take(runs_end(front)), tail, rank, key);
    }
}

/// A run ends where a later one starts, or before.
pub proof fn lemma_runs_ascend(runs: Seq<SortedRun>, i: int, j: int)
    requires
        runs_ok(runs),
        0 <= i < j < runs.len(),
    ensures
        runs[i].index_max <= runs[j].index_min,
    decreases j - i,
{
    assert(touches(runs, i));
    if i + 1 < j {
        lemma_runs_ascend(runs, i + 1, j);
    }
}

/// Every run ends at the end or before.
pub proof fn lemma_run_ends(runs: Seq<SortedRun>, i: int)
    requires
        runs_ok(runs),
        0 <= i < runs.len(),
    ensures
        runs[i].index_max <= runs_end(runs),
{
    if i < runs.len() - 1 {
        lemma_runs_ascend(runs, i, runs.len() - 1);
        assert(runs[runs.len() - 1].index_min < runs[runs.len() - 1].index_max);
    }
}

/// Every place before the end belongs to a run.
pub proof fn lemma_runs_cover(runs: Seq<SortedRun>, p: int) -> (i: int)
    requires
        runs_ok(runs),
        0 <= p < runs_end(runs),
    ensures
        0 <= i < runs.len(),
        runs[i].index_min <= p < runs[i].index_max,
    decreases runs.len(),
{
    let last = runs.len() - 1;
    if runs[last].index_min <= p {
        last
    } else {
        let front = runs.drop_last();
        assert forall|k: int| 0 <= k < front.len() - 1 implies #[trigger] touches(front, k) by {
            assert(touches(runs, k));
        }
        assert(touches(runs, last - 1));
        lemma_runs_cover(front, p)
    }
}

/// Every run is sorted, and holds no key twice.
pub open spec fn runs_sorted<T: Table>(runs: Seq<SortedRun>, values: Seq<T::Value>) -> bool {
    forall|i: int|
        0 <= i < runs.len() ==> strictly_follows(
            values.subrange(
                (#[trigger] runs[i]).index_min as int,
                runs[i].index_max as int,
            ),
            key_rank::<T>(),
            Direction::Ascending,
        )
}

/// Runs do not depend on what comes after them.
proof fn lemma_runs_sorted_prefix<T: Table>(
    runs: Seq<SortedRun>,
    before: Seq<T::Value>,
    after: Seq<T::Value>,
)
    requires
        runs_ok(runs),
        runs_sorted::<T>(runs, before),
        runs_end(runs) <= before.len(),
        runs_end(runs) <= after.len(),
        before.take(runs_end(runs)) == after.take(runs_end(runs)),
    ensures
        runs_sorted::<T>(runs, after),
{
    assert forall|i: int| 0 <= i < runs.len() implies strictly_follows(
        after.subrange((#[trigger] runs[i]).index_min as int, runs[i].index_max as int),
        key_rank::<T>(),
        Direction::Ascending,
    ) by {
        let run = runs[i];
        lemma_run_ends(runs, i);
        assert forall|p: int| run.index_min <= p < run.index_max implies after[p] == before[p] by {
            assert(before.take(runs_end(runs))[p] == before[p]);
            assert(after.take(runs_end(runs))[p] == after[p]);
        }
        assert(after.subrange(run.index_min as int, run.index_max as int) =~= before.subrange(
            run.index_min as int,
            run.index_max as int,
        ));
    }
}

/// Runs stay sorted when other values come before them.
proof fn lemma_absorbed_runs_sorted<T: Table>(
    runs: Seq<SortedRun>,
    added: Seq<T::Value>,
    settled: Seq<T::Value>,
)
    requires
        runs_ok(runs),
        runs_sorted::<T>(runs, added),
        runs_end(runs) <= added.len(),
        settled.len() + added.len() <= u32::MAX,
        strictly_follows(settled, key_rank::<T>(), Direction::Ascending),
    ensures
        settled.len() == 0 ==> runs_sorted::<T>(runs, settled + added),
        settled.len() > 0 ==> runs_sorted::<T>(
            seq![
                SortedRun {
                    index_min: 0,
                    index_max: settled.len() as u32,
                    origin: RunOrigin::Immutable,
                },
            ] + runs.map_values(|other: SortedRun| other.shifted(settled.len() as u32)),
            settled + added,
        ),
{
    let all = settled + added;
    let offset = settled.len() as u32;
    let first = SortedRun { index_min: 0, index_max: offset, origin: RunOrigin::Immutable };
    let after = seq![first] + runs.map_values(|other: SortedRun| other.shifted(offset));
    if offset == 0 {
        assert(all =~= added);
    } else {
        assert forall|i: int| 0 <= i < after.len() implies strictly_follows(
            all.subrange((#[trigger] after[i]).index_min as int, after[i].index_max as int),
            key_rank::<T>(),
            Direction::Ascending,
        ) by {
            if i == 0 {
                assert(all.subrange(0, offset as int) =~= settled);
            } else {
                let run = runs[i - 1];
                lemma_run_ends(runs, i - 1);
                assert(after[i] == run.shifted(offset));
                assert(all.subrange(
                    after[i].index_min as int,
                    after[i].index_max as int,
                ) =~= added.subrange(run.index_min as int, run.index_max as int));
            }
        }
    }
}

/// The versions of every key add up to nothing.
pub open spec fn vanishes<T: Table>(values: Seq<T::Value>) -> bool {
    forall|key: int| #[trigger]
        surviving(T::USAGE, versions(values, key_rank::<T>(), key)) is None
}

/// Where all versions vanish, no values are left.
proof fn lemma_vanished<T: Table>(after: Seq<T::Value>, before: Seq<T::Value>)
    requires
        is_reduced(after, before, key_rank::<T>(), T::USAGE),
        vanishes::<T>(before),
    ensures
        after.len() == 0,
{
    let rank = key_rank::<T>();
    if after.len() > 0 {
        let key = rank(after[0]);
        assert(lookup(after, rank, key) == Some(after[0]));
        assert(surviving(T::USAGE, versions(before, rank, key)) is None);
    }
}

/// Values with different keys do not vanish.
proof fn lemma_strict_survives<T: Table>(values: Seq<T::Value>)
    requires
        strictly_follows(values, key_rank::<T>(), Direction::Ascending),
        vanishes::<T>(values),
    ensures
        values.len() == 0,
{
    let rank = key_rank::<T>();
    if values.len() > 0 {
        let key = rank(values[0]);
        let rest = values.drop_first();
        assert forall|p: int| 0 <= p < rest.len() implies rank(#[trigger] rest[p]) != key by {
            assert(Direction::Ascending.precedes(rank(values[0]), rank(values[p + 1])));
        }
        lemma_no_versions(rest, rank, key);
        lemma_versions_first(values, rank, key);
        assert(versions(values, rank, key) =~= seq![values[0]]);
        assert(surviving(T::USAGE, versions(values, rank, key)) is None);
    }
}

/// The values with a key in the range, both ends included.
pub open spec fn in_range<T: Table>(values: Seq<T::Value>, min: int, max: int) -> Seq<T::Value> {
    values.filter(|value: T::Value| min <= T::key_of(value).rank() <= max)
}

/// The run starts at `max` or before, and ends at `min` or after.
pub open spec fn spans<T: Table>(
    values: Seq<T::Value>,
    run: SortedRun,
    min: int,
    max: int,
) -> bool {
    &&& min <= T::key_of(values[run.index_max - 1]).rank()
    &&& T::key_of(values[run.index_min as int]).rank() <= max
}

/// Of sorted values that lie before or after the range, nothing is left.
proof fn lemma_out_of_range<T: Table>(values: Seq<T::Value>, min: int, max: int)
    requires
        values.len() > 0,
        strictly_follows(values, key_rank::<T>(), Direction::Ascending),
        T::key_of(values.last()).rank() < min || max < T::key_of(values[0]).rank(),
    ensures
        in_range::<T>(values, min, max).len() == 0,
{
    let rank = key_rank::<T>();
    let f = |value: T::Value| min <= T::key_of(value).rank() <= max;
    assert forall|i: int| 0 <= i < values.len() implies (f(#[trigger] values[i]) <==> 0 <= i
        < 0) by {
        if i > 0 {
            assert(Direction::Ascending.precedes(rank(values[0]), rank(values[i])));
        }
        if i < values.len() - 1 {
            assert(Direction::Ascending.precedes(
                rank(values[i]),
                rank(values[values.len() - 1]),
            ));
        }
    }
    lemma_filter_stretch(values, f, 0, 0);
}

/// What is left of every run in the range. Runs of which nothing is left are dropped.
pub open spec fn runs_in_range<T: Table>(
    runs: Seq<Seq<T::Value>>,
    min: int,
    max: int,
) -> Seq<Seq<T::Value>>
    decreases runs.len(),
{
    if runs.len() == 0 {
        Seq::empty()
    } else {
        let front = runs_in_range::<T>(runs.drop_last(), min, max);
        let last = in_range::<T>(runs.last(), min, max);
        if last.len() == 0 {
            front
        } else {
            front.push(last)
        }
    }
}

/// A range of runs holds no more values than the runs.
proof fn lemma_total_in_range<T: Table>(runs: Seq<Seq<T::Value>>, min: int, max: int)
    ensures
        total(runs_in_range::<T>(runs, min, max)) <= total(runs),
    decreases runs.len(),
{
    if runs.len() > 0 {
        let front = runs_in_range::<T>(runs.drop_last(), min, max);
        let last = in_range::<T>(runs.last(), min, max);
        lemma_total_in_range::<T>(runs.drop_last(), min, max);
        runs.last().lemma_filter_len(|value: T::Value| min <= T::key_of(value).rank() <= max);
        if last.len() > 0 {
            assert(front.push(last).drop_last() =~= front);
        }
    }
}

/// The runs hold all values up to where the last one ends.
proof fn lemma_total_of_runs<T: Table>(runs: Seq<SortedRun>, values: Seq<T::Value>)
    requires
        runs_ok(runs),
        runs_end(runs) <= values.len(),
    ensures
        total(
            Seq::new(
                runs.len(),
                |i: int|
                    values.subrange(runs[i].index_min as int, runs[i].index_max as int),
            ),
        ) == runs_end(runs),
    decreases runs.len(),
{
    if runs.len() > 0 {
        let front = runs.drop_last();
        let last = runs.len() - 1;
        let pieces = Seq::new(
            runs.len(),
            |i: int| values.subrange(runs[i].index_min as int, runs[i].index_max as int),
        );
        assert forall|k: int| 0 <= k < front.len() - 1 implies #[trigger] touches(front, k) by {
            assert(touches(runs, k));
        }
        if last > 0 {
            assert(touches(runs, last - 1));
        }
        assert(runs[last].index_min < runs[last].index_max);
        assert(runs_end(front) == runs[last].index_min);
        lemma_total_of_runs::<T>(front, values);
        assert(pieces.drop_last() =~= Seq::new(
            front.len(),
            |i: int| values.subrange(front[i].index_min as int, front[i].index_max as int),
        ));
    }
}

/// A filter that passes one stretch gives that stretch.
proof fn lemma_filter_stretch<V>(s: Seq<V>, f: spec_fn(V) -> bool, start: int, end: int)
    requires
        0 <= start <= end <= s.len(),
        forall|i: int| 0 <= i < s.len() ==> (f(#[trigger] s[i]) <==> start <= i < end),
    ensures
        s.filter(f) == s.subrange(start, end),
    decreases s.len(),
{
    reveal(Seq::filter);
    if s.len() > 0 {
        let front = s.drop_last();
        let last = s.len() - 1;
        assert(f(s[last]) <==> start <= last < end);
        assert forall|i: int| 0 <= i < front.len() implies (f(#[trigger] front[i]) <==> start <= i
            < end) by {
            assert(front[i] == s[i]);
        }
        if start <= last < end {
            lemma_filter_stretch(front, f, start, last);
            assert(s.subrange(start, end) =~= front.subrange(start, last).push(s[last]));
        } else if start > last {
            lemma_filter_stretch(front, f, last, last);
            assert(s.subrange(start, end) =~= front.subrange(last, last));
        } else {
            lemma_filter_stretch(front, f, start, end);
            assert(s.subrange(start, end) =~= front.subrange(start, end));
        }
    } else {
        assert(s.filter(f) =~= s.subrange(start, end));
    }
}

/// Keeps track of the runs of a table.
#[derive(Clone, Copy, Debug)]
pub struct SortedRunTracker {
    runs: [SortedRun; SORTED_RUNS_MAX],
    runs_count: u8,
}

impl Default for SortedRunTracker {
    fn default() -> (result: Self)
        ensures
            result.wf(),
            result@ == Seq::<SortedRun>::empty(),
    {
        let none = SortedRun { index_min: 0, index_max: 0, origin: RunOrigin::Mutable };
        let result = SortedRunTracker {
            runs: vstd::array::array_fill_for_copy_types(none),
            runs_count: 0,
        };
        assert(result@ =~= Seq::<SortedRun>::empty());
        result
    }
}

impl View for SortedRunTracker {
    type V = Seq<SortedRun>;

    closed spec fn view(&self) -> Seq<SortedRun> {
        self.runs@.take(self.runs_count as int)
    }
}

impl SortedRunTracker {
    pub closed spec fn wf(&self) -> bool {
        &&& self.runs_count <= SORTED_RUNS_MAX
        &&& runs_ok(self@)
    }

    /// Adds a run at the end, unless it is empty.
    fn add(&mut self, run: SortedRun)
        requires
            old(self).wf(),
            !run.empty() ==> old(self)@.len() < SORTED_RUNS_MAX,
            run.index_min <= run.index_max,
            run.index_min == runs_end(old(self)@),
            run.origin == RunOrigin::Mutable || old(self)@.len() == 0,
        ensures
            final(self).wf(),
            final(self)@ == if run.empty() {
                old(self)@
            } else {
                old(self)@.push(run)
            },
    {
        if run.is_empty() {
            return;
        }
        let ghost before = self@;
        self.runs[self.runs_count as usize] = run;
        self.runs_count = self.runs_count + 1;
        proof {
            assert(self@ =~= before.push(run));
            assert forall|i: int| 0 <= i < self@.len() - 1 implies #[trigger] touches(self@, i) by {
                if i < before.len() - 1 {
                    assert(touches(before, i));
                }
            }
        }
    }

    /// Adds a run at the front, unless it is empty, and moves the others behind it.
    fn add_front_and_propagate_offset(&mut self, run: SortedRun)
        requires
            old(self).wf(),
            run.index_min == 0,
            !run.empty() ==> old(self)@.len() < SORTED_RUNS_MAX,
            !run.empty() ==> old(self)@.len() > 0 ==> old(self)@[0].origin == RunOrigin::Mutable,
            runs_end(old(self)@) + run.index_max <= u32::MAX,
        ensures
            final(self).wf(),
            final(self)@ == if run.empty() {
                old(self)@
            } else {
                seq![run] + old(self)@.map_values(|other: SortedRun| other.shifted(run.index_max))
            },
    {
        if run.is_empty() {
            return;
        }
        let ghost before = self@;
        let count: usize = self.runs_count as usize;
        let mut i: usize = count;
        while i > 0
            invariant
                i <= count < SORTED_RUNS_MAX,
                before.len() == count,
                runs_ok(before),
                runs_end(before) + run.index_max <= u32::MAX,
                self.runs_count == count,
                forall|k: int| 0 <= k < i ==> #[trigger] self.runs@[k] == before[k],
                forall|k: int|
                    i < k <= count ==> #[trigger] self.runs@[k] == before[k - 1].shifted(
                        run.index_max,
                    ),
            decreases i,
        {
            let other = self.runs[i - 1];
            proof {
                assert(other == before[i - 1]);
                if i < count {
                    lemma_runs_ascend(before, i - 1, count - 1);
                }
            }
            self.runs[i] = SortedRun {
                index_min: other.index_min + run.index_max,
                index_max: other.index_max + run.index_max,
                origin: other.origin,
            };
            i = i - 1;
        }
        self.runs[0] = run;
        self.runs_count = self.runs_count + 1;
        proof {
            let after = seq![run] + before.map_values(
                |other: SortedRun| other.shifted(run.index_max),
            );
            assert(self@ =~= after);
            assert forall|k: int| 0 < k < after.len() implies #[trigger] after[k] == before[k
                - 1].shifted(run.index_max) && before[k - 1].index_max + run.index_max
                <= u32::MAX by {
                lemma_run_ends(before, k - 1);
            }
            assert forall|k: int| 0 <= k < after.len() - 1 implies #[trigger] touches(
                after,
                k,
            ) by {
                assert(after[k + 1] == before[k].shifted(run.index_max));
                if k > 0 {
                    assert(after[k] == before[k - 1].shifted(run.index_max));
                    assert(touches(before, k - 1));
                }
            }
            assert forall|k: int| 0 <= k < after.len() implies (#[trigger] after[k]).index_min
                < after[k].index_max by {
                if k > 0 {
                    assert(before[k - 1].index_min < before[k - 1].index_max);
                }
            }
            assert forall|k: int| 0 < k < after.len() implies (#[trigger] after[k]).origin
                == RunOrigin::Mutable by {
                if k > 1 {
                    assert(before[k - 1].origin == RunOrigin::Mutable);
                }
            }
        }
    }

    fn reset(&mut self)
        ensures
            final(self).wf(),
            final(self)@ == Seq::<SortedRun>::empty(),
    {
        *self = SortedRunTracker::default();
    }

    /// How many runs there are.
    #[must_use]
    pub fn count(&self) -> (result: usize)
        requires
            self.wf(),
        ensures
            result == self@.len(),
    {
        self.runs_count as usize
    }

    fn run(&self, i: usize) -> (result: SortedRun)
        requires
            self.wf(),
            i < self@.len(),
        ensures
            result == self@[i as int],
    {
        self.runs[i]
    }

    fn last(&self) -> (result: Option<SortedRun>)
        requires
            self.wf(),
        ensures
            match result {
                Some(run) => self@.len() > 0 && run == self@.last(),
                None => self@.len() == 0,
            },
    {
        if self.runs_count == 0 {
            return None;
        }
        Some(self.runs[self.runs_count as usize - 1])
    }

    /// The last run takes one value more.
    fn expand_last(&mut self)
        requires
            old(self).wf(),
            old(self)@.len() > 0,
            old(self)@.last().index_max < u32::MAX,
        ensures
            final(self).wf(),
            final(self)@ == old(self)@.update(
                old(self)@.len() - 1,
                (SortedRun {
                    index_min: old(self)@.last().index_min,
                    index_max: (old(self)@.last().index_max + 1) as u32,
                    origin: old(self)@.last().origin,
                }),
            ),
    {
        let ghost before = self@;
        let last: usize = self.runs_count as usize - 1;
        let run = self.runs[last];
        self.runs[last] = SortedRun {
            index_min: run.index_min,
            index_max: run.index_max + 1,
            origin: run.origin,
        };
        proof {
            assert(self@ =~= before.update(last as int, self.runs@[last as int]));
            assert forall|i: int| 0 <= i < self@.len() - 1 implies #[trigger] touches(self@, i) by {
                assert(touches(before, i));
            }
        }
    }
}

/// What a table holds besides its values.
#[derive(Clone, Copy, Debug)]
pub struct ValueContext {
    pub count: u32,
    pub run_tracker: SortedRunTracker,
}

/// The state of an immutable table.
#[derive(Clone, Copy, Debug, PartialEq, Eq, Structural)]
pub struct ImmutableState {
    /// Whether there is nothing left to write.
    pub flushed: bool,
    /// Whether the values of a mutable table were added to those that were there.
    pub absorbed: bool,
    pub snapshot_min: u64,
}

impl Default for ImmutableState {
    fn default() -> (result: Self)
        ensures
            result == (ImmutableState { flushed: false, absorbed: false, snapshot_min: 0 }),
    {
        ImmutableState { flushed: false, absorbed: false, snapshot_min: 0 }
    }
}

impl ImmutableState {
    pub open spec fn spec_empty() -> ImmutableState {
        ImmutableState { flushed: true, absorbed: false, snapshot_min: 0 }
    }

    /// The state of an empty table, which has nothing to write.
    #[must_use]
    pub fn empty() -> (result: Self)
        ensures
            result == ImmutableState::spec_empty(),
    {
        ImmutableState { flushed: true, absorbed: false, snapshot_min: 0 }
    }
}

/// Whether a table takes updates.
#[derive(Clone, Copy, Debug, PartialEq, Eq, Structural)]
pub enum Mutability {
    Mutable,
    Immutable(ImmutableState),
}

impl Mutability {
    /// The mutability of an empty table.
    pub open spec fn cleared(self) -> Mutability {
        match self {
            Mutability::Mutable => Mutability::Mutable,
            Mutability::Immutable(_) => Mutability::Immutable(ImmutableState::spec_empty()),
        }
    }
}

/// A range of keys, both ends included.
#[derive(Debug)]
pub struct KeyRange<T: Table> {
    pub min: T::Key,
    pub max: T::Key,
}

impl<T: Table> Clone for KeyRange<T> {
    fn clone(&self) -> (result: Self)
        ensures
            result == *self,
    {
        *self
    }
}

impl<T: Table> Copy for KeyRange<T> {

}

/// The sorted runs of a table, oldest first.
pub struct MergeContext<'a, T: Table> {
    pub streams: Vec<&'a [T::Value]>,
    pub streams_count: u32,
}

impl<'a, T: Table> MergeContext<'a, T> {
    /// The values of the runs.
    pub open spec fn runs(&self) -> Seq<Seq<T::Value>> {
        Seq::new(self.streams@.len(), |i: int| self.streams@[i]@)
    }

    /// Every run is sorted, and holds no key twice.
    pub open spec fn wf(&self) -> bool {
        &&& self.streams_count == self.streams@.len()
        &&& self.streams@.len() <= SORTED_RUNS_MAX
        &&& total(self.runs()) <= u32::MAX
        &&& forall|i: int|
            0 <= i < self.streams@.len() ==> strictly_follows(
                (#[trigger] self.streams@[i])@,
                key_rank::<T>(),
                Direction::Ascending,
            )
    }
}

/// Reads keys as a table does.
pub struct TableKeys<T: Table> {
    table: core::marker::PhantomData<T>,
}

impl<T: Table> KeyFromValue<T::Value> for TableKeys<T> {
    type Key = T::Key;

    open spec fn key_of(&self, value: T::Value) -> T::Key {
        T::key_of(value)
    }

    fn key_from_value(&self, value: &T::Value) -> (result: T::Key) {
        T::key_from_value(value)
    }
}

/// A table in memory.
pub struct TableMemory<T: Table> {
    values: Vec<T::Value>,
    value_context: ValueContext,
    mutability: Mutability,
    name: &'static str,
}

impl<T: Table> View for TableMemory<T> {
    type V = Seq<T::Value>;

    closed spec fn view(&self) -> Seq<T::Value> {
        self.values@
    }
}

/// The value at `p` is the last one of its key before `end`.
pub open spec fn is_latest<T: Table>(values: Seq<T::Value>, end: int, p: int) -> bool {
    &&& 0 <= p < end
    &&& forall|q: int|
        p < q < end ==> T::key_of(#[trigger] values[q]).rank() != T::key_of(values[p]).rank()
}

/// The latest value of a key is its last version.
pub proof fn law_latest_is_the_last_version<T: Table>(values: Seq<T::Value>, end: int, p: int)
    requires
        is_latest::<T>(values, end, p),
        end <= values.len(),
    ensures
        surviving(
            Usage::General,
            versions(values.take(end), key_rank::<T>(), T::key_of(values[p]).rank()),
        ) == Some(values[p]),
{
    let rank = key_rank::<T>();
    let key = rank(values[p]);
    let past = values.subrange(p + 1, end);
    assert(values.take(end) =~= values.take(p).push(values[p]) + past);
    lemma_versions_add(values.take(p).push(values[p]), past, rank, key);
    lemma_versions_push(values.take(p), values[p], rank, key);
    assert forall|q: int| 0 <= q < past.len() implies rank(#[trigger] past[q]) != key by {
        assert(past[q] == values[p + 1 + q]);
    }
    lemma_no_versions(past, rank, key);
    assert(versions(values.take(end), rank, key) =~= versions(values.take(p), rank, key).push(
        values[p],
    ));
}

/// A table gives back what was put last under a key, once what was put since the last sort is
/// sorted: some value is found under the key, and whichever is the latest is the one put.
pub proof fn law_reads_give_back_the_last_write<T: Table>(
    before: Seq<T::Value>,
    value: T::Value,
    index: int,
    after: Seq<T::Value>,
)
    requires
        T::USAGE == Usage::General,
        0 <= index <= before.len(),
        index <= after.len(),
        after.take(index) == before.push(value).take(index),
        is_reduced(
            after.skip(index),
            before.push(value).skip(index),
            key_rank::<T>(),
            T::USAGE,
        ),
    ensures
        exists|p: int|
            0 <= p < after.len() && T::key_of(#[trigger] after[p]) == T::key_of(value),
        forall|p: int| #[trigger]
            is_latest::<T>(after, after.len() as int, p) && T::key_of(after[p]) == T::key_of(value)
                ==> after[p] == value,
{
    let rank = key_rank::<T>();
    let key = rank(value);
    let puts = before.push(value);
    lemma_versions_push(before, value, rank, key);
    law_reducing_a_suffix_keeps_what_survives(puts, after, index, rank, T::USAGE, key);
    assert(surviving(Usage::General, versions(after, rank, key)) == Some(value));
    if forall|p: int| 0 <= p < after.len() ==> rank(#[trigger] after[p]) != key {
        lemma_no_versions(after, rank, key);
    }
    let p = choose|p: int| 0 <= p < after.len() && rank(#[trigger] after[p]) == key;
    T::Key::rank_injective(T::key_of(after[p]), T::key_of(value));
    assert(after.take(after.len() as int) =~= after);
    assert forall|p: int| #[trigger]
        is_latest::<T>(after, after.len() as int, p) && T::key_of(after[p]) == T::key_of(
            value,
        ) implies after[p] == value by {
        law_latest_is_the_last_version::<T>(after, after.len() as int, p);
    }
}

impl<T: Table> TableMemory<T> {
    pub closed spec fn wf(&self) -> bool {
        &&& self.values@.len() == self.value_context.count
        &&& self.values@.len() <= T::VALUE_COUNT_MAX <= u32::MAX
        &&& self.value_context.run_tracker.wf()
        &&& self.sorted_count() <= self.values@.len()
        &&& runs_sorted::<T>(self.runs(), self.values@)
        &&& self.mutability is Immutable ==> covers(self.runs(), self.values@.len() as int)
        &&& self.mutability is Mutable && self.runs().len() > 0 ==> self.runs()[0].origin
            == RunOrigin::Mutable
    }

    /// The sorted runs, oldest first.
    pub closed spec fn runs(&self) -> Seq<SortedRun> {
        self.value_context.run_tracker@
    }

    /// How many values belong to a run. The others come after them.
    pub open spec fn sorted_count(&self) -> int {
        runs_end(self.runs())
    }

    pub closed spec fn spec_mutability(&self) -> Mutability {
        self.mutability
    }

    /// What `get` finds under a key is what an iteration gives for it, and a key that `get` does
    /// not find is passed over.
    pub proof fn law_reads_and_iterations_agree(&self, direction: Direction, key: T::Key)
        requires
            self.wf(),
            T::USAGE == Usage::General,
        ensures
            ({
                let values = iteration::<T>(run_values(self@, self.runs()), None, direction);
                &&& forall|p: int| #[trigger]
                    is_latest::<T>(self@, self.sorted_count(), p) && T::key_of(self@[p]) == key
                        ==> lookup(values, key_rank::<T>(), key.rank()) == Some(self@[p])
                &&& (forall|p: int|
                    0 <= p < self.sorted_count() ==> T::key_of(#[trigger] self@[p]) != key)
                    ==> lookup(values, key_rank::<T>(), key.rank()) is None
            }),
    {
        let rank = key_rank::<T>();
        let runs = run_values(self@, self.runs());
        let values = iteration::<T>(runs, None, direction);
        let sorted = self@.take(self.sorted_count());
        assert forall|i: int| 0 <= i < runs.len() implies strictly_follows(
            #[trigger] runs[i],
            rank,
            Direction::Ascending,
        ) by {
            assert(self.runs()[i].index_min <= self.runs()[i].index_max);
        }
        law_iteration_gives_what_survives::<T>(runs, direction);
        lemma_run_versions(self@, self.runs(), rank, key.rank());
        assert(lookup(values, rank, key.rank()) == surviving(
            Usage::General,
            versions(sorted, rank, key.rank()),
        ));
        assert forall|p: int| #[trigger]
            is_latest::<T>(self@, self.sorted_count(), p) && T::key_of(self@[p])
                == key implies lookup(values, rank, key.rank()) == Some(self@[p]) by {
            law_latest_is_the_last_version::<T>(self@, self.sorted_count(), p);
        }
        if forall|p: int|
            0 <= p < self.sorted_count() ==> T::key_of(#[trigger] self@[p]) != key {
            assert forall|p: int| 0 <= p < sorted.len() implies rank(#[trigger] sorted[p])
                != key.rank() by {
                assert(sorted[p] == self@[p]);
                if rank(sorted[p]) == key.rank() {
                    T::Key::rank_injective(T::key_of(self@[p]), key);
                }
            }
            lemma_no_versions(sorted, rank, key.rank());
        }
    }

    /// All values are in one run.
    pub open spec fn is_sorted(&self) -> bool {
        self@.len() == 0 || (self.runs().len() == 1 && self.sorted_count() == self@.len())
    }

    /// An empty table.
    #[must_use]
    pub fn new(mutability: Mutability, name: &'static str, value_count_limit: u32) -> (result: Self)
        requires
            value_count_limit <= T::VALUE_COUNT_MAX <= u32::MAX,
        ensures
            result.wf(),
            result@ == Seq::<T::Value>::empty(),
            result.runs() == Seq::<SortedRun>::empty(),
            result.spec_mutability() == mutability.cleared(),
    {
        let mutability = match mutability {
            Mutability::Mutable => Mutability::Mutable,
            Mutability::Immutable(_) => Mutability::Immutable(ImmutableState::empty()),
        };
        TableMemory {
            values: Vec::new(),
            value_context: ValueContext { count: 0, run_tracker: SortedRunTracker::default() },
            mutability,
            name,
        }
    }

    /// How many values the table holds.
    #[must_use]
    pub fn count(&self) -> (result: u32)
        requires
            self.wf(),
        ensures
            result == self@.len(),
    {
        self.value_context.count
    }

    /// What the table holds besides its values.
    #[must_use]
    pub fn value_context(&self) -> (result: ValueContext)
        requires
            self.wf(),
        ensures
            result.count == self@.len(),
            result.run_tracker@ == self.runs(),
            result.run_tracker.wf(),
    {
        self.value_context
    }

    #[must_use]
    pub fn mutability(&self) -> (result: Mutability)
        ensures
            result == self.spec_mutability(),
    {
        self.mutability
    }

    #[must_use]
    pub fn values_used(&self) -> (result: &[T::Value])
        ensures
            result@ == self@,
    {
        self.values.as_slice()
    }

    /// Puts a value at the end. The last run takes it if it reaches up to there, and the key is
    /// greater than those of the run.
    pub fn put(&mut self, value: &T::Value)
        requires
            old(self).wf(),
            old(self).spec_mutability() is Mutable,
            old(self)@.len() < T::VALUE_COUNT_MAX,
        ensures
            final(self).wf(),
            final(self)@ == old(self)@.push(*value),
            final(self).spec_mutability() == old(self).spec_mutability(),
            final(self).runs() == if {
                &&& old(self).runs().len() > 0
                &&& old(self).sorted_count() == old(self)@.len()
                &&& T::key_of(old(self)@.last()).rank() < T::key_of(*value).rank()
            } {
                old(self).runs().update(
                    old(self).runs().len() - 1,
                    (SortedRun {
                        index_min: old(self).runs().last().index_min,
                        index_max: (old(self).runs().last().index_max + 1) as u32,
                        origin: old(self).runs().last().origin,
                    }),
                )
            } else {
                old(self).runs()
            },
    {
        let ghost rank = key_rank::<T>();
        let ghost before = self.values@;
        let ghost runs = self.runs();
        let count: usize = self.values.len();
        let expand = match self.value_context.run_tracker.last() {
            Some(run) => {
                if run.index_max as usize == count {
                    T::key_from_value(&self.values[count - 1]).key_lt(T::key_from_value(value))
                } else {
                    false
                }
            },
            None => false,
        };
        if expand {
            self.value_context.run_tracker.expand_last();
        }
        self.values.push(*value);
        self.value_context.count = self.value_context.count + 1;
        proof {
            let after = self.values@;
            assert forall|i: int| 0 <= i < self.runs().len() implies strictly_follows(
                after.subrange(
                    (#[trigger] self.runs()[i]).index_min as int,
                    self.runs()[i].index_max as int,
                ),
                rank,
                Direction::Ascending,
            ) by {
                let run = runs[i];
                let new = self.runs()[i];
                let piece = after.subrange(new.index_min as int, new.index_max as int);
                let old_piece = before.subrange(run.index_min as int, run.index_max as int);
                lemma_run_ends(runs, i);
                assert(strictly_follows(old_piece, rank, Direction::Ascending));
                if new == run {
                    assert(piece =~= old_piece);
                } else {
                    assert(piece =~= old_piece.push(*value));
                    assert(old_piece.last() == before.last());
                    assert forall|a: int, b: int| 0 <= a < b < piece.len() implies rank(
                        #[trigger] piece[a],
                    ) < rank(#[trigger] piece[b]) by {
                        if b == piece.len() - 1 && a < old_piece.len() - 1 {
                            assert(Direction::Ascending.precedes(
                                rank(old_piece[a]),
                                rank(old_piece[old_piece.len() - 1]),
                            ));
                        }
                    }
                }
            }
        }
    }

    /// The last value with the key among those that belong to a run. It may be a tombstone.
    #[must_use]
    pub fn get(&self, key: T::Key) -> (result: Option<&T::Value>)
        requires
            self.wf(),
        ensures
            match result {
                Some(value) => exists|p: int| #[trigger]
                    is_latest::<T>(self@, self.sorted_count(), p) && *value == self@[p]
                        && T::key_of(self@[p]) == key,
                None => forall|p: int|
                    0 <= p < self.sorted_count() ==> T::key_of(#[trigger] self@[p]) != key,
            },
    {
        let keys = TableKeys::<T> { table: core::marker::PhantomData };
        let ghost rank = key_rank::<T>();
        let ghost runs = self.runs();
        let mut i: usize = self.value_context.run_tracker.count();
        while i > 0
            invariant
                self.wf(),
                runs == self.runs(),
                rank == key_rank::<T>(),
                i <= runs.len(),
                forall|p: int|
                    (if i == 0 {
                        0
                    } else {
                        runs[i - 1].index_max as int
                    }) <= p < self.sorted_count() ==> T::key_of(#[trigger] self@[p]) != key,
            decreases i,
        {
            let run = self.value_context.run_tracker.run(i - 1);
            proof {
                if i < runs.len() {
                    lemma_runs_ascend(runs, i - 1, runs.len() - 1);
                }
            }
            let values = vstd::slice::slice_subrange(
                self.values.as_slice(),
                run.index_min as usize,
                run.index_max as usize,
            );
            proof {
                assert(values@ =~= self@.subrange(run.index_min as int, run.index_max as int));
                assert(runs[i - 1] == run);
                assert(strictly_follows(values@, rank, Direction::Ascending));
                assert forall|a: int, b: int|
                    0 <= a <= b < values@.len() implies #[trigger] value_ranks(
                    keys,
                    values@,
                )[a] <= #[trigger] value_ranks(keys, values@)[b] by {
                    if a < b {
                        assert(Direction::Ascending.precedes(rank(values@[a]), rank(values@[b])));
                    }
                }
            }
            if let Some(value) = binary_search_values(
                &keys,
                values,
                key,
                Config { mode: Mode::UpperBound },
            ) {
                proof {
                    let at = choose|at: int| #[trigger]
                        is_upsert_index(
                            value_ranks(keys, values@),
                            key.rank(),
                            Mode::UpperBound,
                            at,
                        ) && at < values@.len() && *value == values@[at] && keys.key_of(values@[at])
                            == key;
                    let p = run.index_min + at;
                    assert(self@[p] == values@[at]);
                    assert forall|q: int| p < q < self.sorted_count() implies T::key_of(
                        #[trigger] self@[q],
                    ).rank() != T::key_of(self@[p]).rank() by {
                        if q < run.index_max {
                            assert(self@[q] == values@[q - run.index_min]);
                            assert(Direction::Ascending.precedes(
                                rank(values@[at]),
                                rank(values@[q - run.index_min]),
                            ));
                        } else {
                            <T::Key as OrderedKey>::rank_injective(T::key_of(self@[q]), key);
                        }
                    }
                    assert(is_latest::<T>(self@, self.sorted_count(), p));
                }
                return Some(value);
            }
            proof {
                assert forall|p: int| run.index_min <= p < self.sorted_count() implies T::key_of(
                    #[trigger] self@[p],
                ) != key by {
                    if p < run.index_max {
                        assert(self@[p] == values@[p - run.index_min]);
                        assert(keys.key_of(values@[p - run.index_min]) != key);
                    }
                }
                if i > 1 {
                    assert(touches(runs, i - 2));
                }
            }
            i = i - 1;
        }
        None
    }

    fn finalize(&mut self, snapshot_min: u64)
        requires
            old(self).wf(),
            old(self).spec_mutability() is Immutable,
        ensures
            final(self).wf(),
            final(self)@ == old(self)@,
            final(self).runs() == old(self).runs(),
            final(self).spec_mutability() == Mutability::Immutable(
                ImmutableState { flushed: old(self)@.len() == 0, absorbed: false, snapshot_min },
            ),
    {
        self.mutability = Mutability::Immutable(
            ImmutableState {
                flushed: self.value_context.count == 0,
                absorbed: false,
                snapshot_min,
            },
        );
    }

    /// The runs of an immutable table, oldest first.
    #[must_use]
    pub fn iterator_context(&self) -> (result: MergeContext<'_, T>)
        requires
            self.wf(),
            self.spec_mutability() is Immutable,
        ensures
            result.wf(),
            result.runs() == run_values(self@, self.runs()),
    {
        let count: usize = self.value_context.run_tracker.count();
        let mut streams: Vec<&[T::Value]> = Vec::new();
        let mut i: usize = 0;
        while i < count
            invariant
                self.wf(),
                count == self.runs().len(),
                i <= count,
                streams@.len() == i,
                forall|k: int|
                    0 <= k < i ==> (#[trigger] streams@[k])@ == self@.subrange(
                        self.runs()[k].index_min as int,
                        self.runs()[k].index_max as int,
                    ),
            decreases count - i,
        {
            let run = self.value_context.run_tracker.run(i);
            proof {
                lemma_run_ends(self.runs(), i as int);
            }
            streams.push(
                vstd::slice::slice_subrange(
                    self.values.as_slice(),
                    run.index_min as usize,
                    run.index_max as usize,
                ),
            );
            i = i + 1;
        }
        let result = MergeContext { streams, streams_count: count as u32 };
        proof {
            assert forall|k: int| 0 <= k < count implies strictly_follows(
                (#[trigger] result.streams@[k])@,
                key_rank::<T>(),
                Direction::Ascending,
            ) by {
                let run = self.runs()[k];
            }
            lemma_total_of_runs::<T>(self.runs(), self@);
            assert(result.runs() =~= Seq::new(
                self.runs().len(),
                |i: int|
                    self@.subrange(
                        self.runs()[i].index_min as int,
                        self.runs()[i].index_max as int,
                    ),
            ));
        }
        result
    }

    /// What is left of a run in a range of keys.
    fn slice_run_for_range<'a>(values: &'a [T::Value], range: KeyRange<T>) -> (result: Option<
        &'a [T::Value],
    >)
        requires
            strictly_follows(values@, key_rank::<T>(), Direction::Ascending),
            values@.len() <= u32::MAX,
            range.min.rank() <= range.max.rank(),
        ensures
            match result {
                Some(slice) => slice@.len() > 0 && slice@ == in_range::<T>(
                    values@,
                    range.min.rank(),
                    range.max.rank(),
                ),
                None => in_range::<T>(values@, range.min.rank(), range.max.rank()).len() == 0,
            },
    {
        let keys = TableKeys::<T> { table: core::marker::PhantomData };
        let ghost rank = key_rank::<T>();
        let ghost ranks = value_ranks(keys, values@);
        proof {
            assert forall|a: int, b: int| 0 <= a <= b < ranks.len() implies #[trigger] ranks[a]
                <= #[trigger] ranks[b] by {
                if a < b {
                    assert(Direction::Ascending.precedes(rank(values@[a]), rank(values@[b])));
                }
            }
        }
        let slice = binary_search_values_range(&keys, values, range.min, range.max);
        let start: usize = slice.start as usize;
        let count: usize = slice.count as usize;
        proof {
            let f = |value: T::Value|
                range.min.rank() <= T::key_of(value).rank() <= range.max.rank();
            assert forall|i: int| 0 <= i < values@.len() implies (f(#[trigger] values@[i])
                <==> start <= i < start + count) by {
                assert(ranks[i] == T::key_of(values@[i]).rank());
            }
            lemma_filter_stretch(values@, f, start as int, start + count);
        }
        if count == 0 {
            return None;
        }
        Some(vstd::slice::slice_subrange(values, start, start + count))
    }

    /// The runs of an immutable table in a range of keys, oldest first.
    #[must_use]
    pub fn iterator_context_range(&self, range: KeyRange<T>) -> (result: MergeContext<'_, T>)
        requires
            self.wf(),
            self.spec_mutability() is Immutable,
            range.min.rank() <= range.max.rank() || forall|i: int|
                0 <= i < self.runs().len() ==> !spans::<T>(
                    self@,
                    #[trigger] self.runs()[i],
                    range.min.rank(),
                    range.max.rank(),
                ),
        ensures
            result.wf(),
            result.runs() == runs_in_range::<T>(
                run_values(self@, self.runs()),
                range.min.rank(),
                range.max.rank(),
            ),
    {
        let context = self.iterator_context();
        let ghost all = context.runs();
        let ghost min = range.min.rank();
        let ghost max = range.max.rank();
        proof {
            assert forall|k: int| 0 <= k < context.streams@.len() implies 0 < (
            #[trigger] context.streams@[k])@.len() <= u32::MAX && (min <= max || !(min
                <= T::key_of(context.streams@[k]@.last()).rank() && T::key_of(
                context.streams@[k]@[0],
            ).rank() <= max)) by {
                assert(all.len() == self.runs().len());
                let run = self.runs()[k];
                assert(all[k] == self@.subrange(run.index_min as int, run.index_max as int));
                lemma_run_ends(self.runs(), k);
                assert(all[k][0] == self@[run.index_min as int]);
                assert(all[k].last() == self@[run.index_max - 1]);
            }
        }
        let mut streams: Vec<&[T::Value]> = Vec::new();
        let mut i: usize = 0;
        while i < context.streams.len()
            invariant
                context.wf(),
                all == context.runs(),
                forall|k: int|
                    0 <= k < context.streams@.len() ==> 0 < (#[trigger] context.streams@[k])@.len()
                        <= u32::MAX,
                min == range.min.rank(),
                max == range.max.rank(),
                min <= max || forall|k: int|
                    0 <= k < context.streams@.len() ==> !(min <= T::key_of(
                        (#[trigger] context.streams@[k])@.last(),
                    ).rank() && T::key_of(context.streams@[k]@[0]).rank() <= max),
                i <= context.streams@.len(),
                streams@.len() <= i,
                forall|k: int|
                    0 <= k < streams@.len() ==> strictly_follows(
                        (#[trigger] streams@[k])@,
                        key_rank::<T>(),
                        Direction::Ascending,
                    ),
                Seq::new(streams@.len(), |k: int| streams@[k]@) == runs_in_range::<T>(
                    all.take(i as int),
                    min,
                    max,
                ),
            decreases context.streams@.len() - i,
        {
            let stream: &[T::Value] = context.streams[i];
            let ghost before = Seq::new(streams@.len(), |k: int| streams@[k]@);
            proof {
                assert(stream@ == context.streams@[i as int]@);
                assert(all.take(i + 1).drop_last() =~= all.take(i as int));
                assert(all.take(i + 1).last() == stream@);
                lemma_filter_strict(
                    stream@,
                    |value: T::Value| min <= T::key_of(value).rank() <= max,
                    key_rank::<T>(),
                    Direction::Ascending,
                );
            }
            if range.min.key_le(T::key_from_value(&stream[stream.len() - 1]))
                && T::key_from_value(&stream[0]).key_le(range.max) {
                if let Some(slice) = Self::slice_run_for_range(
                    stream,
                    KeyRange { min: range.min, max: range.max },
                ) {
                    streams.push(slice);
                    assert(Seq::new(streams@.len(), |k: int| streams@[k]@) =~= before.push(slice@));
                }
            } else {
                proof {
                    lemma_out_of_range::<T>(stream@, min, max);
                }
            }
            i = i + 1;
        }
        let result = MergeContext { streams_count: streams.len() as u32, streams };
        proof {
            assert(all.take(all.len() as int) =~= all);
            lemma_total_in_range::<T>(all, min, max);
        }
        result
    }

    /// The mutable table becomes the immutable one, and starts anew.
    pub fn compact(&mut self, table_mutable: &mut Self, snapshot_min: u64)
        requires
            old(self).wf(),
            old(self).spec_mutability() is Immutable,
            old(table_mutable).wf(),
            old(table_mutable).spec_mutability() is Mutable,
            covers(old(table_mutable).runs(), old(table_mutable)@.len() as int),
        ensures
            final(self).wf(),
            final(self)@ == old(table_mutable)@,
            final(self).runs() == old(table_mutable).runs(),
            final(self).spec_mutability() == Mutability::Immutable(
                ImmutableState {
                    flushed: old(table_mutable)@.len() == 0,
                    absorbed: false,
                    snapshot_min,
                },
            ),
            final(table_mutable).wf(),
            final(table_mutable)@ == Seq::<T::Value>::empty(),
            final(table_mutable).runs() == Seq::<SortedRun>::empty(),
            final(table_mutable).spec_mutability() is Mutable,
    {
        std::mem::swap(&mut table_mutable.values, &mut self.values);
        std::mem::swap(&mut table_mutable.value_context, &mut self.value_context);
        table_mutable.reset();
        self.finalize(snapshot_min);
    }

    /// Sorts all values of an immutable table into one run.
    fn collapse(&mut self, radix_buffer: &mut ScratchMemory<T::Value>)
        requires
            old(self).wf(),
            old(self).spec_mutability() is Immutable,
            !old(self).is_sorted() ==> alternates::<T>(old(self)@),
            !old(self).is_sorted() ==> old(radix_buffer).free(),
            !old(self).is_sorted() ==> old(self)@.len() <= old(radix_buffer)@.len(),
        ensures
            final(self).wf(),
            final(self).is_sorted(),
            final(self)@.len() <= old(self)@.len(),
            strictly_follows(final(self)@, key_rank::<T>(), Direction::Ascending),
            final(self).spec_mutability() == old(self).spec_mutability(),
            if old(self).is_sorted() {
                final(self)@ == old(self)@
            } else {
                is_reduced(final(self)@, old(self)@, key_rank::<T>(), T::USAGE)
            },
            kept_outside(
                old(radix_buffer)@,
                final(radix_buffer)@,
                0,
                old(self)@.len() as int,
            ),
            old(self).is_sorted() ==> final(radix_buffer)@ == old(radix_buffer)@,
            final(radix_buffer).free() == old(radix_buffer).free(),
    {
        if self.sorted() {
            proof {
                if self@.len() > 0 {
                    let run = self.runs()[0];
                    assert(self@.subrange(0, self@.len() as int) =~= self@);
                }
            }
            return;
        }
        let ghost before = self@;
        let scratch = radix_buffer.acquire(self.values.len());
        assert(before.skip(0) =~= before);
        let count: u32 = sort_suffix_from_index::<T>(&mut self.values, scratch, 0);
        radix_buffer.release();
        self.value_context.count = count;
        self.value_context.run_tracker.reset();
        self.value_context.run_tracker.add(
            SortedRun { index_min: 0, index_max: count, origin: RunOrigin::Immutable },
        );
        proof {
            assert(self@.skip(0) =~= self@);
            assert(self@.subrange(0, self@.len() as int) =~= self@);
        }
    }

    /// Adds the values of the mutable table, which starts anew, to those of the immutable one.
    #[verifier::rlimit(40)]
    pub fn absorb(
        &mut self,
        table_mutable: &mut Self,
        snapshot_min: u64,
        radix_buffer: &mut ScratchMemory<T::Value>,
    )
        requires
            old(self).wf(),
            old(self).spec_mutability() is Immutable,
            old(table_mutable).wf(),
            old(table_mutable).spec_mutability() is Mutable,
            old(self)@.len() + old(table_mutable)@.len() <= T::VALUE_COUNT_MAX,
            old(table_mutable)@.len() > 0 ==> {
                &&& covers(old(table_mutable).runs(), old(table_mutable)@.len() as int)
                &&& old(table_mutable).runs().len() == 0 || old(table_mutable).runs().len()
                    == SORTED_RUNS_MAX ==> vanishes::<T>(old(self)@)
                &&& !old(self).is_sorted() ==> {
                    &&& alternates::<T>(old(self)@)
                    &&& old(radix_buffer).free()
                    &&& old(self)@.len() <= old(radix_buffer)@.len()
                }
            },
        ensures
            final(self).wf(),
            final(table_mutable).wf(),
            final(table_mutable)@ == Seq::<T::Value>::empty(),
            final(table_mutable).spec_mutability() is Mutable,
            kept_outside(
                old(radix_buffer)@,
                final(radix_buffer)@,
                0,
                old(self)@.len() as int,
            ),
            old(table_mutable)@.len() == 0 || old(self).is_sorted() ==> final(radix_buffer)@ == old(radix_buffer)@,
            final(radix_buffer).free() == old(radix_buffer).free(),
            if old(table_mutable)@.len() == 0 {
                &&& final(self)@ == old(self)@
                &&& final(self).runs() == old(self).runs()
                &&& final(self).spec_mutability() == old(self).spec_mutability()
                &&& final(table_mutable).runs() == old(table_mutable).runs()
            } else {
                let settled = final(self)@.len() - old(table_mutable)@.len();
                &&& settled >= 0
                &&& final(self)@.skip(settled) == old(table_mutable)@
                &&& if old(self).is_sorted() {
                    final(self)@.take(settled) == old(self)@
                } else {
                    is_reduced(
                        final(self)@.take(settled),
                        old(self)@,
                        key_rank::<T>(),
                        T::USAGE,
                    )
                }
                &&& final(self).runs() == if settled == 0 {
                    old(table_mutable).runs()
                } else {
                    seq![
                        SortedRun {
                            index_min: 0,
                            index_max: settled as u32,
                            origin: RunOrigin::Immutable,
                        },
                    ] + old(table_mutable).runs().map_values(
                        |other: SortedRun| other.shifted(settled as u32),
                    )
                }
                &&& final(self).spec_mutability() == Mutability::Immutable(
                    ImmutableState { flushed: false, absorbed: true, snapshot_min },
                )
                &&& final(table_mutable).runs() == Seq::<SortedRun>::empty()
            },
    {
        if table_mutable.count() == 0 {
            return;
        }
        let ghost before = self@;
        let ghost added = table_mutable@;
        let ghost runs = table_mutable.runs();
        self.collapse(radix_buffer);
        let ghost settled = self@;
        let settled_count: u32 = self.count();
        proof {
            if vanishes::<T>(before) {
                if old(self).is_sorted() {
                    lemma_strict_survives::<T>(settled);
                } else {
                    lemma_vanished::<T>(settled, before);
                }
            }
        }
        self.values.append(&mut table_mutable.values);
        self.value_context.run_tracker = table_mutable.value_context.run_tracker;
        self.value_context.run_tracker.add_front_and_propagate_offset(
            SortedRun { index_min: 0, index_max: settled_count, origin: RunOrigin::Immutable },
        );
        self.value_context.count = settled_count + table_mutable.value_context.count;
        table_mutable.reset();
        self.mutability = Mutability::Immutable(
            ImmutableState { flushed: false, absorbed: true, snapshot_min },
        );
        proof {
            assert(self@ =~= settled + added);
            assert(self@.skip(settled.len() as int) =~= added);
            assert(self@.take(settled.len() as int) =~= settled);
            lemma_absorbed_runs_sorted::<T>(runs, added, settled);
        }
    }

    /// Sorts the values of a mutable table into one run.
    pub fn sort(&mut self, radix_buffer: &mut ScratchMemory<T::Value>)
        requires
            old(self).wf(),
            old(self).spec_mutability() is Mutable,
            !old(self).is_sorted() ==> {
                &&& alternates::<T>(old(self)@)
                &&& old(radix_buffer).free()
                &&& old(self)@.len() <= old(radix_buffer)@.len()
            },
        ensures
            final(self).wf(),
            final(self).is_sorted(),
            final(self).spec_mutability() is Mutable,
            kept_outside(
                old(radix_buffer)@,
                final(radix_buffer)@,
                0,
                old(self)@.len() as int,
            ),
            old(self).is_sorted() ==> final(radix_buffer)@ == old(radix_buffer)@,
            final(radix_buffer).free() == old(radix_buffer).free(),
            if old(self).is_sorted() {
                final(self)@ == old(self)@ && final(self).runs() == old(self).runs()
            } else {
                &&& is_reduced(final(self)@, old(self)@, key_rank::<T>(), T::USAGE)
                &&& final(self).runs() == if final(self)@.len() == 0 {
                    Seq::empty()
                } else {
                    seq![
                        SortedRun {
                            index_min: 0,
                            index_max: final(self)@.len() as u32,
                            origin: RunOrigin::Mutable,
                        },
                    ]
                }
            },
    {
        if self.sorted() {
            return;
        }
        let ghost before = self@;
        assert(before.skip(0) =~= before);
        let run = self.mutable_sort_suffix_from_index(0, radix_buffer);
        self.value_context.run_tracker.reset();
        self.value_context.run_tracker.add(run);
        proof {
            assert(self@.skip(0) =~= self@);
            assert(self@.subrange(0, self@.len() as int) =~= self@);
            if self@.len() > 0 {
                assert(self.runs() =~= seq![run]);
            }
        }
    }

    /// Whether all values are in one run.
    fn sorted(&self) -> (result: bool)
        requires
            self.wf(),
        ensures
            result == self.is_sorted(),
    {
        if self.value_context.count == 0 {
            return true;
        }
        if self.value_context.run_tracker.count() != 1 {
            return false;
        }
        match self.value_context.run_tracker.last() {
            Some(run) => self.value_context.count == run.index_max,
            None => false,
        }
    }

    /// Sorts the values that do not belong to a run into a new one.
    pub fn sort_suffix(&mut self, radix_buffer: &mut ScratchMemory<T::Value>)
        requires
            old(self).wf(),
            old(self).spec_mutability() is Mutable,
            old(self).sorted_count() < old(self)@.len() ==> {
                &&& old(self).runs().len() == SORTED_RUNS_MAX ==> vanishes::<T>(
                    old(self)@.skip(old(self).sorted_count()),
                )
                &&& alternates::<T>(old(self)@.skip(old(self).sorted_count()))
                &&& old(radix_buffer).free()
                &&& old(self)@.len() <= old(radix_buffer)@.len()
            },
        ensures
            final(self).wf(),
            final(self).spec_mutability() is Mutable,
            final(self).sorted_count() == final(self)@.len(),
            kept_outside(
                old(radix_buffer)@,
                final(radix_buffer)@,
                old(self).sorted_count(),
                old(self)@.len() as int,
            ),
            old(self).sorted_count() == old(self)@.len() ==> final(radix_buffer)@ == old(radix_buffer)@,
            final(radix_buffer).free() == old(radix_buffer).free(),
            if old(self).sorted_count() == old(self)@.len() {
                final(self)@ == old(self)@ && final(self).runs() == old(self).runs()
            } else {
                let index = old(self).sorted_count();
                &&& index <= final(self)@.len() <= old(self)@.len()
                &&& final(self)@.take(index) == old(self)@.take(index)
                &&& is_reduced(
                    final(self)@.skip(index),
                    old(self)@.skip(index),
                    key_rank::<T>(),
                    T::USAGE,
                )
                &&& final(self).runs() == if final(self)@.len() == index {
                    old(self).runs()
                } else {
                    old(self).runs().push(
                        SortedRun {
                            index_min: index as u32,
                            index_max: final(self)@.len() as u32,
                            origin: RunOrigin::Mutable,
                        },
                    )
                }
            },
    {
        let index: u32 = match self.value_context.run_tracker.last() {
            Some(run) => run.index_max,
            None => 0,
        };
        if index == self.value_context.count {
            return;
        }
        let ghost before = self@;
        let ghost runs = self.runs();
        let run = self.mutable_sort_suffix_from_index(index, radix_buffer);
        proof {
            if vanishes::<T>(before.skip(index as int)) {
                lemma_vanished::<T>(self@.skip(index as int), before.skip(index as int));
            }
        }
        self.value_context.run_tracker.add(run);
        proof {
            lemma_runs_sorted_prefix::<T>(runs, before, self@);
            assert(self@.subrange(index as int, self@.len() as int) =~= self@.skip(index as int));
        }
    }

    /// Sorts the values from `index` on, and returns the run that they make up.
    fn mutable_sort_suffix_from_index(
        &mut self,
        index: u32,
        radix_buffer: &mut ScratchMemory<T::Value>,
    ) -> (result: SortedRun)
        requires
            old(self).wf(),
            old(self).spec_mutability() is Mutable,
            index == 0 || index == old(self).sorted_count(),
            alternates::<T>(old(self)@.skip(index as int)),
            old(radix_buffer).free(),
            old(self)@.len() <= old(radix_buffer)@.len(),
        ensures
            index <= final(self)@.len() <= old(self)@.len(),
            final(self)@.take(index as int) == old(self)@.take(index as int),
            is_reduced(
                final(self)@.skip(index as int),
                old(self)@.skip(index as int),
                key_rank::<T>(),
                T::USAGE,
            ),
            final(self).value_context.count == final(self)@.len(),
            final(self).value_context.run_tracker == old(self).value_context.run_tracker,
            final(self).mutability == old(self).mutability,
            kept_outside(
                old(radix_buffer)@,
                final(radix_buffer)@,
                index as int,
                old(self)@.len() as int,
            ),
            final(radix_buffer).free(),
            result == (SortedRun {
                index_min: index,
                index_max: final(self)@.len() as u32,
                origin: RunOrigin::Mutable,
            }),
    {
        let scratch = radix_buffer.acquire(self.values.len());
        let count: u32 = sort_suffix_from_index::<T>(&mut self.values, scratch, index);
        radix_buffer.release();
        self.value_context.count = count;
        SortedRun { index_min: index, index_max: count, origin: RunOrigin::Mutable }
    }

    /// Drops all values.
    pub fn reset(&mut self)
        requires
            T::VALUE_COUNT_MAX <= u32::MAX,
        ensures
            final(self).wf(),
            final(self)@ == Seq::<T::Value>::empty(),
            final(self).runs() == Seq::<SortedRun>::empty(),
            final(self).spec_mutability() == old(self).spec_mutability().cleared(),
    {
        self.values.truncate(0);
        self.value_context.count = 0;
        self.value_context.run_tracker.reset();
        self.mutability = match self.mutability {
            Mutability::Mutable => Mutability::Mutable,
            Mutability::Immutable(_) => Mutability::Immutable(ImmutableState::empty()),
        };
        assert(self@ =~= Seq::<T::Value>::empty());
    }

    /// The least key of an immutable table.
    #[must_use]
    pub fn key_min(&self) -> (result: T::Key)
        requires
            self.wf(),
            self.spec_mutability() is Immutable,
            self.runs().len() > 0,
        ensures
            exists|p: int| 0 <= p < self@.len() && T::key_of(#[trigger] self@[p]) == result,
            forall|p: int|
                0 <= p < self@.len() ==> result.rank() <= T::key_of(#[trigger] self@[p]).rank(),
    {
        let ghost runs = self.runs();
        let ghost rank = key_rank::<T>();
        let first = self.value_context.run_tracker.run(0);
        let mut least = T::key_from_value(&self.values[first.index_min as usize]);
        let ghost mut at: int = 0;
        let count: usize = self.value_context.run_tracker.count();
        let mut i: usize = 0;
        while i < count
            invariant
                self.wf(),
                runs == self.runs(),
                count == runs.len(),
                i <= count,
                0 <= at < self@.len(),
                least == T::key_of(self@[at]),
                forall|k: int|
                    0 <= k < i ==> least.rank() <= T::key_of(
                        self@[(#[trigger] runs[k]).index_min as int],
                    ).rank(),
            decreases count - i,
        {
            let run = self.value_context.run_tracker.run(i);
            proof {
                lemma_run_ends(runs, i as int);
            }
            let key = T::key_from_value(&self.values[run.index_min as usize]);
            if key.key_lt(least) {
                least = key;
                proof {
                    at = run.index_min as int;
                }
            }
            i = i + 1;
        }
        proof {
            assert forall|p: int| 0 <= p < self@.len() implies least.rank() <= T::key_of(
                #[trigger] self@[p],
            ).rank() by {
                let k = lemma_runs_cover(runs, p);
                let run = runs[k];
                lemma_run_ends(runs, k);
                let piece = self@.subrange(run.index_min as int, run.index_max as int);
                if p > run.index_min {
                    assert(Direction::Ascending.precedes(
                        rank(piece[0]),
                        rank(piece[p - run.index_min]),
                    ));
                }
            }
        }
        least
    }

    /// The greatest key of an immutable table.
    #[must_use]
    pub fn key_max(&self) -> (result: T::Key)
        requires
            self.wf(),
            self.spec_mutability() is Immutable,
            self.runs().len() > 0,
        ensures
            exists|p: int| 0 <= p < self@.len() && T::key_of(#[trigger] self@[p]) == result,
            forall|p: int|
                0 <= p < self@.len() ==> T::key_of(#[trigger] self@[p]).rank() <= result.rank(),
    {
        let ghost runs = self.runs();
        let ghost rank = key_rank::<T>();
        let first = self.value_context.run_tracker.run(0);
        let mut greatest = T::key_from_value(&self.values[first.index_min as usize]);
        let ghost mut at: int = 0;
        let count: usize = self.value_context.run_tracker.count();
        let mut i: usize = 0;
        while i < count
            invariant
                self.wf(),
                runs == self.runs(),
                count == runs.len(),
                i <= count,
                0 <= at < self@.len(),
                greatest == T::key_of(self@[at]),
                forall|k: int|
                    0 <= k < i ==> T::key_of(
                        self@[(#[trigger] runs[k]).index_max - 1],
                    ).rank() <= greatest.rank(),
            decreases count - i,
        {
            let run = self.value_context.run_tracker.run(i);
            proof {
                lemma_run_ends(runs, i as int);
            }
            let key = T::key_from_value(&self.values[run.index_max as usize - 1]);
            if greatest.key_lt(key) {
                greatest = key;
                proof {
                    at = run.index_max - 1;
                }
            }
            i = i + 1;
        }
        proof {
            assert forall|p: int| 0 <= p < self@.len() implies T::key_of(
                #[trigger] self@[p],
            ).rank() <= greatest.rank() by {
                let k = lemma_runs_cover(runs, p);
                let run = runs[k];
                lemma_run_ends(runs, k);
                let piece = self@.subrange(run.index_min as int, run.index_max as int);
                if p < run.index_max - 1 {
                    assert(Direction::Ascending.precedes(
                        rank(piece[p - run.index_min]),
                        rank(piece[piece.len() - 1]),
                    ));
                }
            }
        }
        greatest
    }
}

/// A range keeps all versions of the keys within it, both ends included, and none of any other key.
pub proof fn law_range_keeps_its_keys<T: Table>(
    values: Seq<T::Value>,
    min: int,
    max: int,
    key: int,
)
    ensures
        versions(in_range::<T>(values, min, max), key_rank::<T>(), key) == if min <= key <= max {
            versions(values, key_rank::<T>(), key)
        } else {
            Seq::empty()
        },
    decreases values.len(),
{
    reveal(Seq::filter);
    if values.len() > 0 {
        let front = values.drop_last();
        let last = values.last();
        let kept = in_range::<T>(front, min, max);
        law_range_keeps_its_keys::<T>(front, min, max, key);
        if min <= T::key_of(last).rank() <= max {
            assert(kept.push(last).drop_last() =~= kept);
            assert(in_range::<T>(values, min, max) == kept.push(last));
        } else {
            assert(in_range::<T>(values, min, max) == kept);
        }
    }
}

} // verus!
