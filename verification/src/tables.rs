//! Integer-keyed hash tables.
//!
//! The maps and sets of this crate are `nohash_hasher::IntMap` and
//! `nohash_hasher::IntSet`: the standard hash tables with a hasher that takes
//! an integer key as its own hash. What a table holds is its view, a `Map` or a
//! `Set`. The functions below are the only places where a table is read or
//! changed, and each states what the operation does to the view.

use nohash_hasher::IntMap;
use nohash_hasher::IntSet;
use nohash_hasher::IsEnabled;
use nohash_hasher::NoHashHasher;
use std::hash::BuildHasherDefault;
use std::hash::Hash;
use vstd::prelude::*;
use vstd::std_specs::hash::obeys_key_model;

verus! {

#[verifier::external_type_specification]
#[verifier::external_body]
#[verifier::reject_recursive_types(T)]
pub struct ExNoHashHasher<T>(NoHashHasher<T>);

#[verifier::external_type_specification]
#[verifier::external_body]
#[verifier::reject_recursive_types(H)]
pub struct ExBuildHasherDefault<H>(BuildHasherDefault<H>);

/// `HashSet::insert` on an `IntSet`. Trusted: the key joins the set, and the
/// result tells whether it was absent before. `NoHashHasher` hashes equal
/// integers alike, so the table finds a key that it holds.
#[verifier::external_body]
pub(crate) fn set_insert<K: Hash + Eq + IsEnabled>(set: &mut IntSet<K>, key: K) -> (fresh: bool)
    requires
        obeys_key_model::<K>(),
    ensures
        final(set)@ == old(set)@.insert(key),
        fresh == !old(set)@.contains(key),
{
    set.insert(key)
}

/// `HashSet::contains` on an `IntSet`. Trusted: the result tells whether the
/// set holds the key.
#[verifier::external_body]
pub(crate) fn set_contains<K: Hash + Eq + IsEnabled>(set: &IntSet<K>, key: &K) -> (found: bool)
    requires
        obeys_key_model::<K>(),
    ensures
        found == set@.contains(*key),
{
    set.contains(key)
}

/// `HashMap::insert` on an `IntMap`. Trusted: the key maps to the new value
/// afterwards, every other key is untouched, and the result is the value that
/// the key mapped to before, if any.
#[verifier::external_body]
pub(crate) fn map_insert<K: Hash + Eq + IsEnabled, V>(
    map: &mut IntMap<K, V>,
    key: K,
    value: V,
) -> (previous: Option<V>)
    requires
        obeys_key_model::<K>(),
    ensures
        final(map)@ == old(map)@.insert(key, value),
        previous == if old(map)@.contains_key(key) {
            Some(old(map)@[key])
        } else {
            None
        },
{
    map.insert(key, value)
}

/// `HashMap::remove` on an `IntMap`. Trusted: the key is absent afterwards,
/// every other key is untouched, and the result is the value that the key
/// mapped to before, if any.
#[verifier::external_body]
pub(crate) fn map_remove<K: Hash + Eq + IsEnabled, V>(map: &mut IntMap<K, V>, key: &K) -> (previous:
    Option<V>)
    requires
        obeys_key_model::<K>(),
    ensures
        final(map)@ == old(map)@.remove(*key),
        previous == if old(map)@.contains_key(*key) {
            Some(old(map)@[*key])
        } else {
            None
        },
{
    map.remove(key)
}

/// `HashMap::get` on an `IntMap`. Trusted: the result is the value that the
/// key maps to, if any.
#[verifier::external_body]
pub(crate) fn map_get<'a, K: Hash + Eq + IsEnabled, V>(map: &'a IntMap<K, V>, key: &K) -> (value:
    Option<&'a V>)
    requires
        obeys_key_model::<K>(),
    ensures
        value == if map@.contains_key(*key) {
            Some(&map@[*key])
        } else {
            None
        },
{
    map.get(key)
}

/// `HashMap::keys` on an `IntMap`, copied into a vector. Trusted: every key
/// of the map occurs in the result exactly once and nothing else does. The
/// order is the one in which the table is walked; nothing is claimed of it.
#[verifier::external_body]
pub(crate) fn map_keys<K: Hash + Eq + IsEnabled + Copy, V>(map: &IntMap<K, V>) -> (keys: Vec<K>)
    requires
        obeys_key_model::<K>(),
    ensures
        keys@.no_duplicates(),
        keys@.to_set() == map@.dom(),
{
    map.keys().copied().collect()
}

} // verus!
