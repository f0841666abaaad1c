//! A map that guarantees to hold the values of late, and keeps others as long as there is room.
//!
//! A set-associative cache takes most reads and writes. What it has to give up goes into a stash,
//! until the map is compacted. A removed key leaves a tombstone in the stash, so that it is not
//! looked up elsewhere.
//!
//! Changes can be made in a scope. When the scope closes, they are kept, or undone.

pub mod history;

use crate::set_associative_cache::{
    chances, is_victim, set_of, spec_max, spec_min, spec_value_count_multiple, SetAssociativeCache,
    SetAssociativeCacheSpec, UpdateOrInsert, Upserted,
};
use crate::tree::ScopeCloseMode;
use std::collections::HashMap;
use vstd::layout::size_of;
use vstd::prelude::*;
use vstd::std_specs::hash::obeys_key_model;

verus! {

broadcast use vstd::std_specs::hash::group_hash_axioms;

/// What a map holds.
pub trait CacheMapSpec: SetAssociativeCacheSpec {
    /// The value that stands for a removed key.
    open spec fn spec_tombstone(key: Self::Key) -> Self::Value {
        arbitrary()
    }

    /// Whether a value stands for a removed key.
    open spec fn is_tombstone(value: Self::Value) -> bool {
        arbitrary()
    }

    fn tombstone_from_key(key: Self::Key) -> (result: Self::Value)
        ensures
            result == Self::spec_tombstone(key),
            Self::is_tombstone(result),
            Self::key_of(result) == key,
    ;

    fn tombstone(value: &Self::Value) -> (result: bool)
        ensures
            result == Self::is_tombstone(*value),
    ;
}

/// How large a map is.
#[derive(Clone, Copy, Debug)]
pub struct CacheMapOptions {
    /// Zero for a map without a cache.
    pub cache_value_count_max: u32,
    pub stash_value_count_max: u32,
    pub scope_value_count_max: u32,
    pub name: &'static str,
}

/// How to undo a change.
pub enum RollbackLogAction<S: CacheMapSpec> {
    /// A value was updated, or removed.
    Restore(S::Value),
    /// A value was put in the place of a tombstone.
    RestoreTombstone(S::Key),
    /// A value was put where there was none.
    Remove(S::Key),
}

struct RollbackLog<S: CacheMapSpec> {
    actions: Vec<RollbackLogAction<S>>,
    capacity: usize,
}

/// What a map knows of a key.
#[derive(Clone, Copy, Debug)]
pub enum GetOrTombstone<'a, S: CacheMapSpec> {
    Found(&'a S::Value),
    NotFound,
    Tombstone,
}

/// What is known of a key where `contents` are held.
pub open spec fn look_up<'a, S: CacheMapSpec>(
    contents: Map<S::Key, S::Value>,
    key: S::Key,
) -> GetOrTombstone<'a, S> {
    if !contents.contains_key(key) {
        GetOrTombstone::NotFound
    } else if S::is_tombstone(contents[key]) {
        GetOrTombstone::Tombstone
    } else {
        GetOrTombstone::Found(&contents[key])
    }
}

/// The map before a change.
pub open spec fn undone<S: CacheMapSpec>(
    action: RollbackLogAction<S>,
    contents: Map<S::Key, S::Value>,
) -> Map<S::Key, S::Value> {
    match action {
        RollbackLogAction::Restore(value) => contents.insert(S::key_of(value), value),
        RollbackLogAction::RestoreTombstone(key) => contents.insert(key, S::spec_tombstone(key)),
        RollbackLogAction::Remove(key) => contents.remove(key),
    }
}

/// Whether a change can be undone.
spec fn can_undo<S: CacheMapSpec>(
    action: RollbackLogAction<S>,
    contents: Map<S::Key, S::Value>,
) -> bool {
    match action {
        RollbackLogAction::Restore(value) => {
            &&& !S::is_tombstone(value)
            &&& contents.contains_key(S::key_of(value))
        },
        RollbackLogAction::RestoreTombstone(key) => {
            &&& contents.contains_key(key)
            &&& !S::is_tombstone(contents[key])
        },
        RollbackLogAction::Remove(key) => contents.contains_key(key),
    }
}

/// The map before all changes.
pub open spec fn rolled_back<S: CacheMapSpec>(
    log: Seq<RollbackLogAction<S>>,
    contents: Map<S::Key, S::Value>,
) -> Map<S::Key, S::Value>
    decreases log.len(),
{
    if log.len() == 0 {
        contents
    } else {
        rolled_back(log.drop_last(), undone(log.last(), contents))
    }
}

/// Whether all changes can be undone.
spec fn can_roll_back<S: CacheMapSpec>(
    log: Seq<RollbackLogAction<S>>,
    contents: Map<S::Key, S::Value>,
) -> bool
    decreases log.len(),
{
    log.len() > 0 ==> can_undo(log.last(), contents) && can_roll_back(
        log.drop_last(),
        undone(log.last(), contents),
    )
}

/// How many tombstones a rollback has to restore.
pub open spec fn tombstones<S: CacheMapSpec>(log: Seq<RollbackLogAction<S>>) -> nat
    decreases log.len(),
{
    if log.len() == 0 {
        0
    } else {
        tombstones(log.drop_last()) + if log.last() is RestoreTombstone {
            1nat
        } else {
            0nat
        }
    }
}

/// Whether undoing the changes of a log, the last one first, takes a map from one state to another.
pub open spec fn replays<S: CacheMapSpec>(
    log: Seq<RollbackLogAction<S>>,
    before: CacheMap<S>,
    after: CacheMap<S>,
) -> bool
    decreases log.len(),
{
    if log.len() == 0 {
        after.same_stores(&before)
    } else {
        exists|middle: CacheMap<S>| #[trigger]
            middle.undid(&before, log.last()) && replays(log.drop_last(), middle, after)
    }
}

/// A cache and a stash.
pub struct CacheMap<S: CacheMapSpec> {
    cache: Option<SetAssociativeCache<S>>,
    stash: HashMap<S::Key, S::Value>,
    scope_is_active: bool,
    scope_rollback_log: RollbackLog<S>,
    options: CacheMapOptions,
}

impl<S: CacheMapSpec> CacheMap<S> {
    pub closed spec fn wf(&self) -> bool {
        &&& self.stores_wf()
        &&& self.log().len() <= self.scope_rollback_log.capacity
        &&& self.scope_rollback_log.capacity == self.options.scope_value_count_max
        &&& !self.scope_is_active ==> self.log().len() == 0
        &&& can_roll_back(self.log(), self.contents())
    }

    /// The cache and the stash hold different keys. The cache holds no tombstones.
    spec fn stores_wf(&self) -> bool {
        &&& obeys_key_model::<S::Key>()
        &&& self.cache matches Some(cache) ==> cache.wf()
        &&& self.cache is Some <==> self.options.cache_value_count_max > 0
        &&& forall|key: S::Key| #[trigger]
            self.cached_contents().contains_key(key) ==> {
                &&& !self.stash@.contains_key(key)
                &&& !S::is_tombstone(self.cached_contents()[key])
                &&& S::key_of(self.cached_contents()[key]) == key
            }
        &&& forall|key: S::Key| #[trigger]
            self.stash@.contains_key(key) ==> {
                &&& S::key_of(self.stash@[key]) == key
                &&& S::is_tombstone(self.stash@[key]) ==> self.stash@[key] == S::spec_tombstone(key)
            }
    }

    /// How to undo the changes that were made in the scope, in the order of the changes.
    pub closed spec fn log(&self) -> Seq<RollbackLogAction<S>> {
        self.scope_rollback_log.actions@
    }

    /// The cache, if there is one.
    pub closed spec fn spec_cache(&self) -> Option<SetAssociativeCache<S>> {
        self.cache
    }

    /// What the cache holds.
    pub open spec fn cached_contents(&self) -> Map<S::Key, S::Value> {
        match self.spec_cache() {
            Some(cache) => cache.contents(),
            None => Map::empty(),
        }
    }

    /// What the stash holds.
    pub closed spec fn stashed_contents(&self) -> Map<S::Key, S::Value> {
        self.stash@
    }

    /// What the map holds. Removed keys have tombstones for values.
    pub open spec fn contents(&self) -> Map<S::Key, S::Value> {
        self.stashed_contents().union_prefer_right(self.cached_contents())
    }

    /// What the map held when the scope was opened.
    pub open spec fn checkpoint(&self) -> Map<S::Key, S::Value> {
        rolled_back(self.log(), self.contents())
    }

    pub closed spec fn scope_active(&self) -> bool {
        self.scope_is_active
    }

    /// How many changes were made in the scope.
    pub open spec fn changes(&self) -> nat {
        self.log().len()
    }

    /// How many tombstones were overwritten in the scope.
    pub open spec fn tombstones_overwritten(&self) -> nat {
        tombstones(self.log())
    }

    pub closed spec fn spec_options(&self) -> CacheMapOptions {
        self.options
    }

    /// How many values the cache holds.
    pub open spec fn cached_count(&self) -> int {
        match self.spec_cache() {
            Some(cache) => cache.spec_value_count() as int,
            None => 0,
        }
    }

    /// The value that has to go from the cache for a key that it does not hold.
    pub open spec fn victim_of(&self, key: S::Key) -> Option<S::Value> {
        match self.spec_cache() {
            Some(cache) => {
                let set = set_of::<S>(key, cache.spec_sets());
                let victim = choose|victim: int|
                    is_victim(cache.set_counts(set), cache.hands()[set] as int, victim);
                let slot = set * S::WAYS + victim;
                if cache.occupied(slot) {
                    Some(cache.slot_values()[slot])
                } else {
                    None
                }
            },
            None => None,
        }
    }

    /// The cache and the stash are the same.
    pub open spec fn same_stores(&self, before: &Self) -> bool {
        &&& self.spec_cache() == before.spec_cache()
        &&& self.stashed_contents() == before.stashed_contents()
        &&& self.spec_options() == before.spec_options()
    }

    /// Whether a key that the cache does not hold makes the stash larger: by the value that has to
    /// go for it, or, where there is no cache, by itself.
    pub open spec fn spills(&self, key: S::Key) -> bool {
        if self.spec_options().cache_value_count_max == 0 {
            !self.stashed_contents().contains_key(key)
        } else {
            self.victim_of(key) is Some
        }
    }

    /// Whether the stash has room for what it takes to put a key.
    pub open spec fn has_room(&self, key: S::Key) -> bool {
        self.cached_contents().contains_key(key) || self.stashed_contents().len() + (if self.spills(
            key,
        ) {
            1int
        } else {
            0int
        }) <= self.spec_options().stash_value_count_max
    }

    /// What the number of values in the cache is a multiple of.
    #[must_use]
    pub fn cache_value_count_max_multiple() -> (result: u64)
        requires
            size_of::<S::Value>() > 0,
            size_of::<S::Value>() <= u64::MAX,
            S::CACHE_LINE_SIZE > 0,
            S::CLOCK_BITS > 0,
            S::CACHE_LINE_SIZE * 8 <= u64::MAX,
            (spec_max(size_of::<S::Value>() as int, S::CACHE_LINE_SIZE as int) / spec_min(
                size_of::<S::Value>() as int,
                S::CACHE_LINE_SIZE as int,
            )) * S::WAYS <= u64::MAX,
        ensures
            result == spec_value_count_multiple(
                size_of::<S::Value>() as u64,
                S::WAYS,
                S::CACHE_LINE_SIZE,
                S::CLOCK_BITS,
            ),
    {
        SetAssociativeCache::<S>::value_count_max_multiple()
    }

    /// An empty map.
    #[must_use]
    pub fn new(options: CacheMapOptions) -> (result: Self)
        requires
            obeys_key_model::<S::Key>(),
            options.stash_value_count_max > 0,
            options.scope_value_count_max <= usize::MAX,
            options.stash_value_count_max <= usize::MAX,
            options.cache_value_count_max > 0 ==> SetAssociativeCache::<S>::fits(
                options.cache_value_count_max as u64,
            ),
        ensures
            result.wf(),
            result.is_blank(),
            result.spec_options() == options,
            match result.spec_cache() {
                Some(cache) => {
                    &&& options.cache_value_count_max > 0
                    &&& cache.spec_sets() == options.cache_value_count_max as u64 / S::WAYS
                    &&& cache.spec_name() == options.name
                },
                None => options.cache_value_count_max == 0,
            },
    {
        let cache = if options.cache_value_count_max != 0 {
            Some(
                SetAssociativeCache::<S>::new(options.cache_value_count_max as u64, options.name),
            )
        } else {
            None
        };
        let stash: HashMap<S::Key, S::Value> = HashMap::with_capacity(
            options.stash_value_count_max as usize,
        );
        let result = CacheMap {
            cache,
            stash,
            scope_is_active: false,
            scope_rollback_log: RollbackLog {
                actions: Vec::new(),
                capacity: options.scope_value_count_max as usize,
            },
            options,
        };
        assert(result.contents() =~= Map::<S::Key, S::Value>::empty());
        result
    }

    /// Forgets everything.
    pub fn reset(&mut self)
        requires
            old(self).wf(),
            !old(self).scope_active(),
            old(self).stashed_contents().len() <= old(self).spec_options().stash_value_count_max,
        ensures
            final(self).wf(),
            final(self).is_blank(),
            final(self).spec_options() == old(self).spec_options(),
            match (final(self).spec_cache(), old(self).spec_cache()) {
                (Some(cache), Some(before)) => {
                    &&& cache.spec_sets() == before.spec_sets()
                    &&& cache.spec_name() == before.spec_name()
                },
                (None, None) => true,
                _ => false,
            },
    {
        if let Some(cache) = &mut self.cache {
            cache.reset();
        }
        self.stash.clear();
        proof {
            assert(self.contents() =~= Map::<S::Key, S::Value>::empty());
            assert(self.log() =~= Seq::empty());
        }
    }

    /// The map holds nothing.
    pub open spec fn is_blank(&self) -> bool {
        &&& self.contents() == Map::<S::Key, S::Value>::empty()
        &&& self.cached_contents() == Map::<S::Key, S::Value>::empty()
        &&& self.stashed_contents() == Map::<S::Key, S::Value>::empty()
        &&& self.checkpoint() == self.contents()
        &&& self.cached_count() == 0
        &&& self.spec_cache() matches Some(cache) ==> cache.is_reset()
        &&& self.log() == Seq::<RollbackLogAction<S>>::empty()
        &&& !self.scope_active()
    }

    /// Whether the map holds a value for a key.
    #[must_use]
    pub fn has(&mut self, key: S::Key) -> (result: bool)
        requires
            old(self).wf(),
        ensures
            result == look_up::<S>(old(self).contents(), key) is Found,
            final(self).wf(),
            final(self).was_read(old(self), key),
    {
        self.get(key).is_some()
    }

    /// A key was looked up. Nothing has changed but for how often its value was read.
    pub open spec fn was_read(&self, before: &Self, key: S::Key) -> bool {
        &&& self.contents() == before.contents()
        &&& self.cached_contents() == before.cached_contents()
        &&& self.stashed_contents() == before.stashed_contents()
        &&& self.checkpoint() == before.checkpoint()
        &&& self.scope_active() == before.scope_active()
        &&& self.log() == before.log()
        &&& self.cached_count() == before.cached_count()
        &&& self.spec_options() == before.spec_options()
        &&& match (self.spec_cache(), before.spec_cache()) {
            (Some(after), Some(before)) => after.was_read(&before, key),
            (None, None) => true,
            _ => false,
        }
    }

    /// The slot of the cache that holds a key.
    fn cache_index(&mut self, key: S::Key) -> (result: Option<usize>)
        requires
            old(self).wf(),
        ensures
            final(self).wf(),
            final(self).was_read(old(self), key),
            match result {
                Some(index) => {
                    &&& final(self).cache matches Some(cache) && {
                        &&& index < cache.slot_counts().len()
                        &&& cache.occupied(index as int)
                        &&& cache.slot_values()[index as int] == old(self).contents()[key]
                    }
                    &&& old(self).cached_contents().contains_key(key)
                },
                None => !old(self).cached_contents().contains_key(key),
            },
    {
        match &mut self.cache {
            Some(cache) => cache.get_index(key),
            None => None,
        }
    }

    /// The value of a key.
    #[must_use]
    pub fn get(&mut self, key: S::Key) -> (result: Option<&S::Value>)
        requires
            old(self).wf(),
        ensures
            result == match look_up::<S>(old(self).contents(), key) {
                GetOrTombstone::Found(value) => Some(value),
                _ => None,
            },
            final(self).wf(),
            final(self).was_read(old(self), key),
    {
        match self.get_or_tombstone(key) {
            GetOrTombstone::Found(value) => Some(value),
            _ => None,
        }
    }

    /// The value of a key, or whether it was removed.
    #[must_use]
    pub fn get_or_tombstone(&mut self, key: S::Key) -> (result: GetOrTombstone<'_, S>)
        requires
            old(self).wf(),
        ensures
            result == look_up::<S>(old(self).contents(), key),
            final(self).wf(),
            final(self).was_read(old(self), key),
    {
        if let Some(index) = self.cache_index(key) {
            if let Some(cache) = &self.cache {
                if let Some(value) = cache.slot(index) {
                    return GetOrTombstone::Found(value);
                }
            }
        }
        match self.stash.get(&key) {
            Some(value) => if S::tombstone(value) {
                GetOrTombstone::Tombstone
            } else {
                GetOrTombstone::Found(value)
            },
            None => GetOrTombstone::NotFound,
        }
    }

    /// How many values the cache holds.
    #[must_use]
    pub fn cache_entries(&self) -> (result: u64)
        ensures
            result == self.cached_count(),
    {
        match &self.cache {
            Some(cache) => cache.value_count(),
            None => 0,
        }
    }

    /// How many values the cache holds at most.
    #[must_use]
    pub fn cache_entries_max(&self) -> (result: u64)
        ensures
            result == self.spec_options().cache_value_count_max,
    {
        self.options.cache_value_count_max as u64
    }

    /// The cache.
    #[must_use]
    pub fn cache(&self) -> (result: Option<&SetAssociativeCache<S>>)
        requires
            self.wf(),
        ensures
            match result {
                Some(cache) => cache.wf() && Some(*cache) == self.spec_cache(),
                None => self.spec_cache() is None && self.spec_options().cache_value_count_max == 0,
            },
    {
        match &self.cache {
            Some(cache) => Some(cache),
            None => None,
        }
    }

    /// The stash.
    #[must_use]
    pub fn stash(&self) -> (result: &HashMap<S::Key, S::Value>)
        ensures
            result@ == self.stashed_contents(),
    {
        &self.stash
    }

    /// A change was made, in the scope if there is one. It can be undone by `action`.
    pub open spec fn changed(&self, before: &Self, action: RollbackLogAction<S>) -> bool {
        &&& self.scope_active() == before.scope_active()
        &&& self.log() == if before.scope_active() {
            before.log().push(action)
        } else {
            before.log()
        }
        &&& self.changes() == before.changes() + if before.scope_active() {
            1int
        } else {
            0int
        }
        &&& self.checkpoint() == if before.scope_active() {
            before.checkpoint()
        } else {
            self.contents()
        }
    }

    /// A value was put.
    pub open spec fn upserted(&self, before: &Self, value: S::Value) -> bool {
        let key = S::key_of(value);
        &&& self.put(before, value)
        &&& self.changed(
            before,
            match look_up::<S>(before.contents(), key) {
                GetOrTombstone::NotFound => RollbackLogAction::Remove(key),
                GetOrTombstone::Tombstone => RollbackLogAction::RestoreTombstone(key),
                GetOrTombstone::Found(value_old) => RollbackLogAction::Restore(*value_old),
            },
        )
        &&& self.tombstones_overwritten() == before.tombstones_overwritten() + if {
            &&& before.scope_active()
            &&& look_up::<S>(before.contents(), key) is Tombstone
        } {
            1int
        } else {
            0int
        }
    }

    /// Puts a value.
    pub fn upsert(&mut self, value: &S::Value)
        requires
            old(self).wf(),
            !S::is_tombstone(*value),
            old(self).has_room(S::key_of(*value)),
            old(self).scope_active() ==> old(self).changes()
                < old(self).spec_options().scope_value_count_max,
        ensures
            final(self).wf(),
            final(self).upserted(old(self), *value),
    {
        let ghost before = *self;
        let ghost log = self.log();
        let key = S::key_from_value(value);
        let updated = self.fetch_upsert(value);
        if self.scope_is_active {
            let action = match updated {
                None => RollbackLogAction::Remove(key),
                Some(old_value) => if S::tombstone(&old_value) {
                    RollbackLogAction::RestoreTombstone(key)
                } else {
                    RollbackLogAction::Restore(old_value)
                },
            };
            self.append(action);
            proof {
                assert(self.log().drop_last() =~= log);
                assert(undone(action, self.contents()) =~= before.contents());
            }
        }
    }

    /// Keeps in mind how to undo a change.
    fn append(&mut self, action: RollbackLogAction<S>)
        requires
            old(self).log().len() < old(self).scope_rollback_log.capacity,
        ensures
            final(self).log() == old(self).log().push(action),
            final(self).scope_rollback_log.capacity == old(self).scope_rollback_log.capacity,
            final(self).cache == old(self).cache,
            final(self).stash == old(self).stash,
            final(self).scope_is_active == old(self).scope_is_active,
            final(self).options == old(self).options,
    {
        self.scope_rollback_log.actions.push(action);
    }

    /// The cache took a value, if there is one.
    pub open spec fn cache_was_put(&self, before: &Self, value: S::Value) -> bool {
        match (self.spec_cache(), before.spec_cache()) {
            (Some(after), Some(before)) => exists|upserted: Upserted<S::Value>| #[trigger]
                after.was_upserted(&before, value, upserted),
            (None, None) => true,
            _ => false,
        }
    }

    /// The cache gave a key up, if there is one.
    pub open spec fn cache_was_removed(&self, before: &Self, key: S::Key) -> bool {
        match (self.spec_cache(), before.spec_cache()) {
            (Some(after), Some(before)) => after.was_removed(&before, key),
            (None, None) => true,
            _ => false,
        }
    }

    /// The map holds a value, and all that it held before under other keys.
    pub open spec fn put(&self, before: &Self, value: S::Value) -> bool {
        let key = S::key_of(value);
        let known = before.cached_contents().contains_key(key);
        let spilled = if before.spills(key) {
            1int
        } else {
            0int
        };
        let replaced = if before.stashed_contents().contains_key(key) {
            1int
        } else {
            0int
        };
        &&& self.contents() == before.contents().insert(key, value)
        &&& self.spec_options() == before.spec_options()
        &&& self.cache_was_put(before, value)
        &&& if before.spec_options().cache_value_count_max == 0 {
            &&& self.stashed_contents() == before.stashed_contents().insert(key, value)
            &&& self.cached_contents() == before.cached_contents()
            &&& self.stashed_contents().len() == before.stashed_contents().len() + spilled
            &&& self.cached_count() == 0
        } else if known {
            &&& self.stashed_contents() == before.stashed_contents()
            &&& self.cached_contents() == before.cached_contents().insert(key, value)
            &&& self.cached_count() == before.cached_count()
        } else {
            &&& match before.victim_of(key) {
                Some(evicted) => {
                    &&& self.cached_contents() == before.cached_contents().remove(
                        S::key_of(evicted),
                    ).insert(key, value)
                    &&& self.stashed_contents() == before.stashed_contents().insert(
                        S::key_of(evicted),
                        evicted,
                    ).remove(key)
                },
                None => {
                    &&& self.cached_contents() == before.cached_contents().insert(key, value)
                    &&& self.stashed_contents() == before.stashed_contents().remove(key)
                },
            }
            &&& self.stashed_contents().len() == before.stashed_contents().len() + spilled
                - replaced
            &&& self.cached_count() == before.cached_count() + 1 - spilled
        }
    }

    /// The cache and the stash hold different keys, under which they hold values of theirs. The
    /// cache holds no tombstones, and nothing at all where there is none.
    pub proof fn law_cache_holds_no_tombstones(&self)
        requires
            self.wf(),
        ensures
            forall|key: S::Key| #[trigger]
                self.cached_contents().contains_key(key) ==> {
                    &&& !self.stashed_contents().contains_key(key)
                    &&& !S::is_tombstone(self.cached_contents()[key])
                    &&& S::key_of(self.cached_contents()[key]) == key
                },
            forall|key: S::Key| #[trigger]
                self.stashed_contents().contains_key(key) ==> S::key_of(
                    self.stashed_contents()[key],
                ) == key,
            match self.spec_cache() {
                Some(cache) => cache.wf() && self.spec_options().cache_value_count_max > 0,
                None => self.spec_options().cache_value_count_max == 0,
            },
    {
    }

    /// A map gives back what was put, and under other keys what it held before.
    pub proof fn law_reads_give_back_what_was_put(&self, before: &Self, value: S::Value)
        requires
            self.put(before, value),
        ensures
            self.contents().contains_key(S::key_of(value)),
            self.contents()[S::key_of(value)] == value,
            forall|key: S::Key|
                key != S::key_of(value) ==> {
                    &&& #[trigger] self.contents().contains_key(key)
                        == before.contents().contains_key(key)
                    &&& self.contents()[key] == before.contents()[key]
                },
    {
        assert forall|key: S::Key| key != S::key_of(value) implies self.contents()[key]
            == before.contents()[key] by {
            assert(self.contents()[key] == before.contents().insert(S::key_of(value), value)[key]);
        }
    }

    /// Puts a value, and returns what took its place before.
    #[verifier::rlimit(40)]
    fn fetch_upsert(&mut self, value: &S::Value) -> (result: Option<S::Value>)
        requires
            old(self).stores_wf(),
            !S::is_tombstone(*value),
        ensures
            final(self).stores_wf(),
            final(self).put(old(self), *value),
            final(self).scope_rollback_log == old(self).scope_rollback_log,
            final(self).scope_is_active == old(self).scope_is_active,
            match result {
                Some(value_old) => old(self).contents().contains_key(S::key_of(*value)) && value_old
                    == old(self).contents()[S::key_of(*value)],
                None => !old(self).contents().contains_key(S::key_of(*value)),
            },
    {
        let ghost before = *self;
        let key = S::key_from_value(value);
        match &mut self.cache {
            None => {
                let updated = self.stash.insert(key, *value);
                proof {
                    assert(self.contents() =~= before.contents().insert(key, *value));
                }
                updated
            },
            Some(cache) => {
                let ghost cache_before = *cache;
                let result = cache.upsert(value);
                match result.updated {
                    UpdateOrInsert::Update => {
                        proof {
                            assert(self.cached_contents() =~= before.cached_contents().insert(
                                key,
                                *value,
                            ));
                            assert(self.contents() =~= before.contents().insert(key, *value));
                        }
                        result.evicted
                    },
                    UpdateOrInsert::Insert => {
                        if let Some(evicted) = result.evicted {
                            let evicted_key = S::key_from_value(&evicted);
                            let _ = self.stash.insert(evicted_key, evicted);
                        }
                        let ghost spilled = self.stash@;
                        let updated = self.stash.remove(&key);
                        proof {
                            lemma_victim::<S>(cache_before, key, result.index as int);
                            assert(before.victim_of(key) == result.evicted);
                            assert(self.contents() =~= before.contents().insert(key, *value));
                        }
                        updated
                    },
                }
            },
        }
    }

    /// A tombstone took the place of a key.
    pub open spec fn buried(&self, before: &Self, key: S::Key) -> bool {
        &&& S::is_tombstone(S::spec_tombstone(key))
        &&& self.contents() == before.contents().insert(key, S::spec_tombstone(key))
        &&& self.cached_contents() == before.cached_contents().remove(key)
        &&& self.stashed_contents() == before.stashed_contents().insert(key, S::spec_tombstone(key))
        &&& self.cached_count() == if before.cached_contents().contains_key(key) {
            before.cached_count() - 1
        } else {
            before.cached_count()
        }
        &&& self.spec_options() == before.spec_options()
        &&& self.cache_was_removed(before, key)
    }

    /// A key was removed.
    pub open spec fn removed(&self, before: &Self, key: S::Key) -> bool {
        &&& self.buried(before, key)
        &&& self.changed(before, RollbackLogAction::Restore(before.contents()[key]))
        &&& self.tombstones_overwritten() == before.tombstones_overwritten()
    }

    /// Removes a key, and leaves a tombstone.
    pub fn remove(&mut self, key: S::Key)
        requires
            old(self).wf(),
            look_up::<S>(old(self).contents(), key) is Found,
            old(self).stashed_contents().len() <= old(self).spec_options().stash_value_count_max,
            old(self).scope_active() ==> old(self).changes()
                < old(self).spec_options().scope_value_count_max,
        ensures
            final(self).wf(),
            final(self).removed(old(self), key),
    {
        let ghost before = *self;
        let ghost log = self.log();
        let removed = self.bury(key);
        if self.scope_is_active {
            if let Some(old_value) = removed {
                let action = RollbackLogAction::Restore(old_value);
                self.append(action);
                proof {
                    assert(self.log().drop_last() =~= log);
                    assert(undone(action, self.contents()) =~= before.contents());
                }
            }
        }
    }

    /// Puts a tombstone in the place of a key, and returns what was there before.
    fn bury(&mut self, key: S::Key) -> (result: Option<S::Value>)
        requires
            old(self).stores_wf(),
        ensures
            final(self).stores_wf(),
            final(self).buried(old(self), key),
            final(self).scope_rollback_log == old(self).scope_rollback_log,
            final(self).scope_is_active == old(self).scope_is_active,
            final(self).options == old(self).options,
            match result {
                Some(value) => old(self).contents().contains_key(key) && value
                    == old(self).contents()[key],
                None => !old(self).contents().contains_key(key),
            },
    {
        let ghost before = *self;
        let cache_removed = match &mut self.cache {
            Some(cache) => cache.remove(key),
            None => None,
        };
        let stash_removed = self.stash.insert(key, S::tombstone_from_key(key));
        proof {
            assert(self.cached_contents() =~= before.cached_contents().remove(key));
            assert(self.contents() =~= before.contents().insert(key, S::spec_tombstone(key)));
        }
        match cache_removed {
            Some(value) => Some(value),
            None => stash_removed,
        }
    }

    /// A scope was opened.
    pub open spec fn scope_opened(&self, before: &Self) -> bool {
        &&& self.scope_active()
        &&& self.contents() == before.contents()
        &&& self.checkpoint() == before.contents()
        &&& self.same_stores(before)
        &&& self.log() == Seq::<RollbackLogAction<S>>::empty()
    }

    /// Opens a scope.
    pub fn scope_open(&mut self)
        requires
            old(self).wf(),
            !old(self).scope_active(),
        ensures
            final(self).wf(),
            final(self).scope_opened(old(self)),
    {
        self.scope_is_active = true;
        assert(self.log() =~= Seq::empty());
    }

    /// A key was forgotten.
    pub open spec fn forgot(&self, before: &Self, key: S::Key) -> bool {
        &&& self.contents() == before.contents().remove(key)
        &&& self.stashed_contents() == before.stashed_contents().remove(key)
        &&& self.spec_options() == before.spec_options()
        &&& self.cache_was_removed(before, key)
    }

    /// A change was undone.
    pub open spec fn undid(&self, before: &Self, action: RollbackLogAction<S>) -> bool {
        match action {
            RollbackLogAction::Restore(value) => self.put(before, value),
            RollbackLogAction::RestoreTombstone(key) => self.buried(before, key),
            RollbackLogAction::Remove(key) => self.forgot(before, key),
        }
    }

    /// A scope was closed.
    pub open spec fn scope_closed(&self, before: &Self, mode: ScopeCloseMode) -> bool {
        &&& !self.scope_active()
        &&& self.contents() == match mode {
            ScopeCloseMode::Persist => before.contents(),
            ScopeCloseMode::Discard => before.checkpoint(),
        }
        &&& self.checkpoint() == self.contents()
        &&& self.log() == Seq::<RollbackLogAction<S>>::empty()
        &&& self.spec_options() == before.spec_options()
        &&& match mode {
            ScopeCloseMode::Persist => self.same_stores(before),
            ScopeCloseMode::Discard => replays(before.log(), *before, *self),
        }
        &&& self.stashed_contents().len() <= before.stashed_contents().len()
            + before.tombstones_overwritten()
    }

    /// Closes a scope. Its changes are kept, or undone.
    pub fn scope_close(&mut self, mode: ScopeCloseMode)
        requires
            old(self).wf(),
            old(self).scope_active(),
        ensures
            final(self).wf(),
            final(self).scope_closed(old(self), mode),
    {
        let ghost checkpoint = self.checkpoint();
        let ghost before = *self;
        self.scope_is_active = false;
        let mut actions: Vec<RollbackLogAction<S>> = Vec::new();
        std::mem::swap(&mut actions, &mut self.scope_rollback_log.actions);
        proof {
            let start = *self;
            assert forall|end: Self| #[trigger] replays(actions@, start, end) implies replays(
                before.log(),
                before,
                end,
            ) by {
                lemma_replays_from(before.log(), start, before, end);
            }
        }
        match mode {
            ScopeCloseMode::Persist => {},
            ScopeCloseMode::Discard => {
                while actions.len() > 0
                    invariant
                        self.wf(),
                        !self.scope_is_active,
                        self.options == old(self).options,
                        rolled_back(actions@, self.contents()) == checkpoint,
                        can_roll_back(actions@, self.contents()),
                        self.stash@.len() + tombstones(actions@) <= old(self).stash@.len()
                            + old(self).tombstones_overwritten(),
                        forall|end: Self| #[trigger]
                            replays(actions@, *self, end) ==> replays(before.log(), before, end),
                    decreases actions@.len(),
                {
                    let ghost log = actions@;
                    let ghost state = *self;
                    if let Some(action) = actions.pop() {
                        self.replay(&action);
                        proof {
                            assert forall|end: Self| #[trigger]
                                replays(actions@, *self, end) implies replays(
                                before.log(),
                                before,
                                end,
                            ) by {
                                assert(self.undid(&state, log.last()));
                                assert(replays(log, state, end));
                            }
                        }
                    }
                }
                assert(replays(actions@, *self, *self));
            },
        }
        assert(self.log() =~= Seq::empty());
    }

    /// Undoes a change.
    fn replay(&mut self, action: &RollbackLogAction<S>)
        requires
            old(self).wf(),
            !old(self).scope_is_active,
            can_undo(*action, old(self).contents()),
        ensures
            final(self).wf(),
            !final(self).scope_is_active,
            final(self).contents() == undone(*action, old(self).contents()),
            final(self).undid(old(self), *action),
            final(self).options == old(self).options,
            final(self).stash@.len() <= old(self).stash@.len() + if *action is RestoreTombstone {
                1int
            } else {
                0int
            },
    {
        let ghost before = *self;
        match action {
            RollbackLogAction::Restore(value) => {
                let _ = self.fetch_upsert(value);
            },
            RollbackLogAction::RestoreTombstone(key) => {
                let _ = self.bury(*key);
            },
            RollbackLogAction::Remove(key) => {
                if let Some(cache) = &mut self.cache {
                    let _ = cache.remove(*key);
                }
                let _ = self.stash.remove(key);
                proof {
                    assert(self.contents() =~= before.contents().remove(*key));
                }
            },
        }
    }

    /// The stash was dropped: the map holds what the cache held, and no tombstones.
    pub open spec fn compacted(&self, before: &Self) -> bool {
        &&& !self.scope_active()
        &&& self.contents() == before.cached_contents()
        &&& self.contents().submap_of(before.contents())
        &&& self.cached_contents() == before.cached_contents()
        &&& self.stashed_contents() == Map::<S::Key, S::Value>::empty()
        &&& self.checkpoint() == self.contents()
        &&& self.cached_count() == before.cached_count()
        &&& self.spec_options() == before.spec_options()
        &&& self.spec_cache() == before.spec_cache()
        &&& self.log() == before.log()
        &&& forall|key: S::Key| !(#[trigger] look_up::<S>(self.contents(), key) is Tombstone)
        &&& self.spec_options().cache_value_count_max == 0 ==> self.contents() == Map::<
            S::Key,
            S::Value,
        >::empty()
    }

    /// Drops the stash.
    pub fn compact(&mut self)
        requires
            old(self).wf(),
            !old(self).scope_active(),
            old(self).stashed_contents().len() <= old(self).spec_options().stash_value_count_max,
        ensures
            final(self).wf(),
            final(self).compacted(old(self)),
    {
        self.stash.clear();
        assert(self.contents() =~= self.cached_contents());
    }
}

/// What a replay does depends on the cache and the stash alone.
proof fn lemma_replays_from<S: CacheMapSpec>(
    log: Seq<RollbackLogAction<S>>,
    start: CacheMap<S>,
    other: CacheMap<S>,
    end: CacheMap<S>,
)
    requires
        start.same_stores(&other),
        replays(log, start, end),
    ensures
        replays(log, other, end),
{
    if log.len() > 0 {
        let middle = choose|middle: CacheMap<S>| #[trigger]
            middle.undid(&start, log.last()) && replays(log.drop_last(), middle, end);
        assert(middle.undid(&other, log.last()));
    }
}

/// The victim of a set is the only one.
proof fn lemma_victim<S: CacheMapSpec>(cache: SetAssociativeCache<S>, key: S::Key, index: int)
    requires
        cache.wf(),
        is_victim(
            cache.set_counts(set_of::<S>(key, cache.spec_sets())),
            cache.hands()[set_of::<S>(key, cache.spec_sets())] as int,
            index - set_of::<S>(key, cache.spec_sets()) * S::WAYS,
        ),
    ensures
        index == set_of::<S>(key, cache.spec_sets()) * S::WAYS + choose|victim: int|
            is_victim(
                cache.set_counts(set_of::<S>(key, cache.spec_sets())),
                cache.hands()[set_of::<S>(key, cache.spec_sets())] as int,
                victim,
            ),
{
    let set = set_of::<S>(key, cache.spec_sets());
    let counts = cache.set_counts(set);
    let hand = cache.hands()[set] as int;
    let found = index - set * S::WAYS;
    let victim = choose|victim: int| is_victim(counts, hand, victim);
    assert(is_victim(counts, hand, found));
    assert(chances(counts[victim]) == chances(counts[found]));
}

} // verus!
