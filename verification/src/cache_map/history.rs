//! What a map gives back, whatever was done to it.

use crate::cache_map::{look_up, CacheMap, CacheMapSpec, GetOrTombstone};
use crate::tree::ScopeCloseMode;
use vstd::prelude::*;

verus! {

/// What is done to a map.
pub enum Step<S: CacheMapSpec> {
    Upsert(S::Value),
    Remove(S::Key),
    /// A key is looked up.
    Read(S::Key),
    ScopeOpen,
    ScopeClose(ScopeCloseMode),
    Compact,
    Reset,
}

impl<S: CacheMapSpec> Step<S> {
    /// Whether a step takes a map from one state to another.
    pub open spec fn leads(&self, before: &CacheMap<S>, after: &CacheMap<S>) -> bool {
        match *self {
            Step::Upsert(value) => !S::is_tombstone(value) && after.upserted(before, value),
            Step::Remove(key) => look_up::<S>(before.contents(), key) is Found && after.removed(
                before,
                key,
            ),
            Step::Read(key) => after.was_read(before, key),
            Step::ScopeOpen => !before.scope_active() && after.scope_opened(before),
            Step::ScopeClose(mode) => before.scope_active() && after.scope_closed(before, mode),
            Step::Compact => !before.scope_active() && after.compacted(before),
            Step::Reset => !before.scope_active() && after.is_blank(),
        }
    }

    /// Whether a step puts a value under a key.
    pub open spec fn upserts(&self, key: S::Key) -> bool {
        *self matches Step::Upsert(value) && S::key_of(value) == key
    }

    /// Whether a step puts a value under a key, or removes it.
    pub open spec fn changes(&self, key: S::Key) -> bool {
        self.upserts(key) || *self == Step::<S>::Remove(key)
    }

    /// Whether a step changes nothing but a single key.
    pub open spec fn is_change_or_read(&self) -> bool {
        *self is Upsert || *self is Remove || *self is Read
    }

    /// Whether a step makes the map forget changes.
    pub open spec fn forgets(&self) -> bool {
        *self is Compact || *self is Reset || *self == Step::<S>::ScopeClose(
            ScopeCloseMode::Discard,
        )
    }
}

/// Whether steps take a map through states.
pub open spec fn is_run<S: CacheMapSpec>(states: Seq<CacheMap<S>>, steps: Seq<Step<S>>) -> bool {
    &&& states.len() == steps.len() + 1
    &&& forall|i: int| 0 <= i < states.len() ==> (#[trigger] states[i]).wf()
    &&& forall|i: int|
        #![trigger steps[i]]
        0 <= i < steps.len() ==> steps[i].leads(&states[i], &states[i + 1])
}

/// Whether steps take a map through states, from the first one on, in which it holds nothing.
pub open spec fn is_history<S: CacheMapSpec>(
    states: Seq<CacheMap<S>>,
    steps: Seq<Step<S>>,
) -> bool {
    &&& is_run(states, steps)
    &&& states[0].is_blank()
}

/// What a map holds after a history if it never forgets a key.
pub open spec fn expected<S: CacheMapSpec>(steps: Seq<Step<S>>) -> Map<S::Key, S::Value>
    decreases steps.len(),
{
    if steps.len() == 0 {
        Map::empty()
    } else {
        let before = expected(steps.drop_last());
        match steps.last() {
            Step::Upsert(value) => before.insert(S::key_of(value), value),
            Step::Remove(key) => before.insert(key, S::spec_tombstone(key)),
            Step::ScopeClose(ScopeCloseMode::Discard) => expected_at_opening(steps.drop_last()),
            Step::Reset => Map::empty(),
            _ => before,
        }
    }
}

/// What a map holds when its last scope is opened if it never forgets a key.
pub open spec fn expected_at_opening<S: CacheMapSpec>(
    steps: Seq<Step<S>>,
) -> Map<S::Key, S::Value>
    decreases steps.len(),
{
    if steps.len() == 0 {
        Map::empty()
    } else if steps.last() is ScopeOpen {
        expected(steps.drop_last())
    } else {
        expected_at_opening(steps.drop_last())
    }
}

/// The run without its last step.
proof fn lemma_run_without_last<S: CacheMapSpec>(states: Seq<CacheMap<S>>, steps: Seq<Step<S>>)
    requires
        is_run(states, steps),
        steps.len() > 0,
    ensures
        is_run(states.drop_last(), steps.drop_last()),
        steps.last().leads(&states[steps.len() - 1], &states.last()),
        states.drop_last().last() == states[steps.len() - 1],
{
    assert(steps[steps.len() - 1].leads(&states[steps.len() - 1], &states[steps.len() as int]));
    assert forall|i: int|
        #![trigger steps.drop_last()[i]]
        0 <= i < steps.len() - 1 implies steps.drop_last()[i].leads(
        &states.drop_last()[i],
        &states.drop_last()[i + 1],
    ) by {
        assert(steps[i].leads(&states[i], &states[i + 1]));
    }
}

/// What a map holds is what was put last, unless it was undone: a map may forget keys when it is
/// compacted, but never gives back what was superseded. A map that was not compacted has forgotten
/// nothing.
pub proof fn law_map_holds_what_was_put_last<S: CacheMapSpec>(
    states: Seq<CacheMap<S>>,
    steps: Seq<Step<S>>,
)
    requires
        is_history(states, steps),
    ensures
        states.last().contents().submap_of(expected(steps)),
        states.last().scope_active() ==> states.last().checkpoint().submap_of(
            expected_at_opening(steps),
        ),
        (forall|i: int| 0 <= i < steps.len() ==> !((#[trigger] steps[i]) is Compact)) ==> {
            &&& states.last().contents() == expected(steps)
            &&& states.last().scope_active() ==> states.last().checkpoint() == expected_at_opening(
                steps,
            )
        },
    decreases steps.len(),
{
    if steps.len() > 0 {
        let rest = steps.drop_last();
        lemma_run_without_last(states, steps);
        law_map_holds_what_was_put_last(states.drop_last(), rest);
        let before = states[steps.len() - 1];
        let after = states.last();
        assert forall|key: S::Key| #[trigger]
            after.contents().contains_key(key) implies expected(steps).contains_key(key)
            && expected(steps)[key] == after.contents()[key] by {
            assert(before.contents().contains_key(key) ==> expected(rest).contains_key(key));
            assert(before.scope_active() && before.checkpoint().contains_key(key)
                ==> expected_at_opening(rest).contains_key(key));
        }
        if forall|i: int| 0 <= i < steps.len() ==> !((#[trigger] steps[i]) is Compact) {
            assert forall|i: int| 0 <= i < rest.len() implies !((#[trigger] rest[i])
                is Compact) by {
                assert(!(steps[i] is Compact));
            }
            assert(!(steps[steps.len() - 1] is Compact));
        }
    }
}

/// A key that was never put is not found.
pub proof fn law_only_what_was_put_is_found<S: CacheMapSpec>(
    states: Seq<CacheMap<S>>,
    steps: Seq<Step<S>>,
    key: S::Key,
)
    requires
        is_history(states, steps),
        forall|i: int| 0 <= i < steps.len() ==> !(#[trigger] steps[i]).upserts(key),
    ensures
        look_up::<S>(states.last().contents(), key) is NotFound,
        states.last().scope_active() ==> look_up::<S>(states.last().checkpoint(), key) is NotFound,
    decreases steps.len(),
{
    if steps.len() > 0 {
        let rest = steps.drop_last();
        lemma_run_without_last(states, steps);
        assert forall|i: int| 0 <= i < rest.len() implies !(#[trigger] rest[i]).upserts(key) by {
            assert(!steps[i].upserts(key));
        }
        assert(!steps[steps.len() - 1].upserts(key));
        law_only_what_was_put_is_found(states.drop_last(), rest, key);
    }
}

/// A map gives back the last change of a key: the value that was put, or a tombstone where it was
/// removed.
pub proof fn law_reads_give_back_the_last_change<S: CacheMapSpec>(
    states: Seq<CacheMap<S>>,
    steps: Seq<Step<S>>,
    key: S::Key,
    change: int,
)
    requires
        is_run(states, steps),
        0 <= change < steps.len(),
        steps[change].changes(key),
        forall|i: int|
            change < i < steps.len() ==> !(#[trigger] steps[i]).changes(key) && !steps[i].forgets(),
    ensures
        look_up::<S>(states.last().contents(), key) == match steps[change] {
            Step::Upsert(value) => GetOrTombstone::<S>::Found(&value),
            _ => GetOrTombstone::<S>::Tombstone,
        },
    decreases steps.len(),
{
    let rest = steps.drop_last();
    lemma_run_without_last(states, steps);
    if change < steps.len() - 1 {
        assert forall|i: int| change < i < rest.len() implies !(#[trigger] rest[i]).changes(key)
            && !rest[i].forgets() by {
            assert(!steps[i].changes(key));
        }
        assert(!steps[steps.len() - 1].changes(key));
        assert(rest[change] == steps[change]);
        law_reads_give_back_the_last_change(states.drop_last(), rest, key, change);
    }
}

/// The map is in the scope that the first step opened.
proof fn lemma_in_scope<S: CacheMapSpec>(states: Seq<CacheMap<S>>, steps: Seq<Step<S>>)
    requires
        is_run(states, steps),
        steps.len() > 0,
        steps[0] is ScopeOpen,
        forall|i: int| 0 < i < steps.len() ==> (#[trigger] steps[i]).is_change_or_read(),
    ensures
        states.last().scope_active(),
        states.last().checkpoint() == states[0].contents(),
    decreases steps.len(),
{
    let rest = steps.drop_last();
    lemma_run_without_last(states, steps);
    if steps.len() > 1 {
        assert forall|i: int| 0 < i < rest.len() implies (#[trigger] rest[i])
            .is_change_or_read() by {
            assert(steps[i].is_change_or_read());
        }
        assert(steps[steps.len() - 1].is_change_or_read());
        assert(rest[0] == steps[0]);
        lemma_in_scope(states.drop_last(), rest);
    }
}

/// Whatever is changed in a scope, when it is discarded the map knows of every key what it knew
/// when the scope was opened. When it is persisted, the map knows what it knew before the scope was
/// closed. Either way, another scope can be opened.
pub proof fn law_scope_is_kept_or_undone<S: CacheMapSpec>(
    states: Seq<CacheMap<S>>,
    steps: Seq<Step<S>>,
    mode: ScopeCloseMode,
)
    requires
        is_run(states, steps),
        steps.len() > 1,
        steps[0] is ScopeOpen,
        steps.last() == Step::<S>::ScopeClose(mode),
        forall|i: int| 0 < i < steps.len() - 1 ==> (#[trigger] steps[i]).is_change_or_read(),
    ensures
        states.last().wf(),
        !states.last().scope_active(),
        forall|key: S::Key| #[trigger]
            look_up::<S>(states.last().contents(), key) == look_up::<S>(
                match mode {
                    ScopeCloseMode::Persist => states[steps.len() - 1].contents(),
                    ScopeCloseMode::Discard => states[0].contents(),
                },
                key,
            ),
{
    let rest = steps.drop_last();
    lemma_run_without_last(states, steps);
    assert forall|i: int| 0 < i < rest.len() implies (#[trigger] rest[i]).is_change_or_read() by {
        assert(steps[i].is_change_or_read());
    }
    assert(rest[0] == steps[0]);
    lemma_in_scope(states.drop_last(), rest);
}

/// Compaction leaves no tombstones. What the map knew of a key, it knows still, or it forgets the
/// key. It forgets no key that is in the cache, and all keys where there is no cache.
pub proof fn law_compaction_forgets_but_never_changes<S: CacheMapSpec>(
    before: CacheMap<S>,
    after: CacheMap<S>,
    key: S::Key,
)
    requires
        before.wf(),
        Step::<S>::Compact.leads(&before, &after),
    ensures
        after.cached_count() == before.cached_count(),
        look_up::<S>(after.contents(), key) is NotFound || {
            &&& look_up::<S>(after.contents(), key) is Found
            &&& look_up::<S>(after.contents(), key) == look_up::<S>(before.contents(), key)
        },
        before.cached_contents().contains_key(key) ==> look_up::<S>(after.contents(), key)
            == GetOrTombstone::<S>::Found(&before.cached_contents()[key]),
        before.spec_options().cache_value_count_max == 0 ==> look_up::<S>(after.contents(), key)
            is NotFound,
{
    before.law_cache_holds_no_tombstones();
}

} // verus!
