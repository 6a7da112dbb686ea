//! Remembering which salts have been delivered already.

use dashmap::DashMap;
use std::collections::hash_map::RandomState;
use vstd::prelude::*;

verus! {

/// Number of matches a cache remembers before it is emptied, by default.
pub const DEFAULT_CACHE_LIMIT: usize = 10000;

#[verifier::external_type_specification]
#[verifier::external_body]
#[verifier::reject_recursive_types(K)]
#[verifier::reject_recursive_types(V)]
#[verifier::reject_recursive_types(S)]
pub struct ExDashMap<K, V, S>(DashMap<K, V, S>);

/// The concurrent map that backs the cache.
pub type FlagMap = DashMap<u64, (bool, bool), RandomState>;

/// What a map holds: for each match id, whether its metadata salt and
/// whether its replay salt were delivered.
pub uninterp spec fn map_entries(m: FlagMap) -> Map<u64, (bool, bool)>;

/// The map that holds nothing.
pub open spec fn no_entries() -> Map<u64, (bool, bool)> {
    Map::empty()
}

/// `DashMap::new`: a map that holds nothing.
#[verifier::external_body]
fn map_new() -> (m: FlagMap)
    ensures
        map_entries(m) == no_entries(),
{
    DashMap::new()
}

/// `DashMap::get`: a copy of the value stored under `key`, if any.
#[verifier::external_body]
fn map_get(m: &FlagMap, key: u64) -> (r: Option<(bool, bool)>)
    ensures
        r == if map_entries(*m).contains_key(key) {
            Some(map_entries(*m)[key])
        } else {
            None
        },
{
    m.get(&key).map(|entry| *entry)
}

/// `DashMap::insert`: stores `value` under `key`, in place of what was there.
#[verifier::external_body]
fn map_insert(m: &mut FlagMap, key: u64, value: (bool, bool))
    ensures
        map_entries(*final(m)) == map_entries(*old(m)).insert(key, value),
{
    m.insert(key, value);
}

/// `DashMap::len`: the number of keys stored.
#[verifier::external_body]
fn map_len(m: &FlagMap) -> (n: usize)
    ensures
        n == map_entries(*m).dom().len(),
{
    m.len()
}

/// `DashMap::clear`: removes every entry.
#[verifier::external_body]
fn map_clear(m: &mut FlagMap)
    ensures
        map_entries(*final(m)) == no_entries(),
{
    m.clear();
}

/// Whether `entries` records the salt of the given kind for `match_id`.
pub open spec fn ingested(
    entries: Map<u64, (bool, bool)>,
    match_id: u64,
    is_metadata: bool,
) -> bool {
    entries.contains_key(match_id) && if is_metadata {
        entries[match_id].0
    } else {
        entries[match_id].1
    }
}

/// `entries` with the salt of the given kind recorded for `match_id`,
/// before the size guard is applied.
pub open spec fn recorded(
    entries: Map<u64, (bool, bool)>,
    match_id: u64,
    is_metadata: bool,
) -> Map<u64, (bool, bool)> {
    let (has_metadata, has_replay) = if entries.contains_key(match_id) {
        entries[match_id]
    } else {
        (false, false)
    };
    entries.insert(
        match_id,
        if is_metadata {
            (true, has_replay)
        } else {
            (has_metadata, true)
        },
    )
}

/// What a cache of the given limit holds after the salt is marked: the
/// entry recorded, or nothing at all once more than `limit` matches are held.
pub open spec fn marked(
    entries: Map<u64, (bool, bool)>,
    limit: usize,
    match_id: u64,
    is_metadata: bool,
) -> Map<u64, (bool, bool)> {
    let grown = recorded(entries, match_id, is_metadata);
    if grown.dom().len() > limit {
        no_entries()
    } else {
        grown
    }
}

/// A salt that was marked is reported as ingested, and marking it says
/// nothing new of any other match or of the other kind of salt, as long
/// as the size guard does not empty the cache.
pub proof fn lemma_mark_then_query(
    entries: Map<u64, (bool, bool)>,
    limit: usize,
    match_id: u64,
    is_metadata: bool,
    other_id: u64,
    other_kind: bool,
)
    requires
        recorded(entries, match_id, is_metadata).dom().len() <= limit,
    ensures
        ingested(marked(entries, limit, match_id, is_metadata), match_id, is_metadata),
        (other_id != match_id || other_kind != is_metadata) ==> ingested(
            marked(entries, limit, match_id, is_metadata),
            other_id,
            other_kind,
        ) == ingested(entries, other_id, other_kind),
{
}

/// The record of delivered salts, emptied whenever it grows past its limit.
pub struct IngestionCache {
    entries: FlagMap,
    limit: usize,
}

impl View for IngestionCache {
    type V = Map<u64, (bool, bool)>;

    closed spec fn view(&self) -> Map<u64, (bool, bool)> {
        map_entries(self.entries)
    }
}

impl IngestionCache {
    /// The number of matches the cache holds at most.
    pub closed spec fn limit(&self) -> usize {
        self.limit
    }

    /// An empty cache with the default limit.
    pub fn new() -> (cache: IngestionCache)
        ensures
            cache@ == no_entries(),
            cache.limit() == DEFAULT_CACHE_LIMIT,
    {
        IngestionCache { entries: map_new(), limit: DEFAULT_CACHE_LIMIT }
    }

    /// An empty cache that is emptied again once it holds more than `limit` matches.
    pub fn with_limit(limit: usize) -> (cache: IngestionCache)
        ensures
            cache@ == no_entries(),
            cache.limit() == limit,
    {
        IngestionCache { entries: map_new(), limit }
    }
}

/// Whether the salt of the given kind was already delivered for `match_id`.
pub fn is_ingested(cache: &IngestionCache, match_id: u64, is_metadata: bool) -> (r: bool)
    ensures
        r == ingested(cache@, match_id, is_metadata),
{
    match map_get(&cache.entries, match_id) {
        Some((has_metadata, has_replay)) => if is_metadata {
            has_metadata
        } else {
            has_replay
        },
        None => false,
    }
}

/// Records that the salt of the given kind was delivered for `match_id`.
pub fn mark_ingested(cache: &mut IngestionCache, match_id: u64, is_metadata: bool)
    ensures
        final(cache)@ == marked(old(cache)@, old(cache).limit(), match_id, is_metadata),
        final(cache).limit() == old(cache).limit(),
{
    let (has_metadata, has_replay) = match map_get(&cache.entries, match_id) {
        Some(flags) => flags,
        None => (false, false),
    };
    let flags = if is_metadata {
        (true, has_replay)
    } else {
        (has_metadata, true)
    };
    map_insert(&mut cache.entries, match_id, flags);
    if map_len(&cache.entries) > cache.limit {
        map_clear(&mut cache.entries);
    }
}

} // verus!
