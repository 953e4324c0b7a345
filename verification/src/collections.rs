//! Hash maps and sets of the `rustc-hash` crate, behind specified interfaces.
//!
//! The library keeps its lookup tables in `FxHashMap` and `FxHashSet`, that is
//! `std::collections::HashMap` and `HashSet` with the hasher of `rustc-hash`.
//! Tables keyed by integers are described by the views that vstd gives these
//! types; the table keyed by index sequences is described by a name for its
//! contents. The few operations that the library uses are trusted wrappers
//! whose contracts state what `HashMap` and `HashSet` document for them.

use rustc_hash::{FxHashMap, FxHashSet};
use vstd::prelude::*;

verus! {

/// The hasher builder of `rustc-hash`, declared so that its hash tables can
/// stand in signatures.
#[verifier::external_type_specification]
#[verifier::external_body]
pub struct ExFxBuildHasher(rustc_hash::FxBuildHasher);

/// The contents of a table from payload keys (sequences of indices) to
/// payload indices, with each key taken by its elements.
pub uninterp spec fn payload_ids(m: FxHashMap<Vec<usize>, usize>) -> Map<Seq<usize>, usize>;

/// An empty table (`FxHashMap::default`, i.e. `HashMap::with_hasher`).
#[verifier::external_body]
pub(crate) fn payload_map_new() -> (r: FxHashMap<Vec<usize>, usize>)
    ensures
        payload_ids(r).dom() == Set::<Seq<usize>>::empty(),
{
    FxHashMap::default()
}

/// The index stored under `key` (`HashMap::get`): `Some` exactly when the
/// table holds the key. Two `Vec<usize>` keys are equal and hash alike
/// exactly when they hold the same elements.
#[verifier::external_body]
pub(crate) fn payload_map_get(m: &FxHashMap<Vec<usize>, usize>, key: &[usize]) -> (r: Option<usize>)
    ensures
        payload_ids(*m).contains_key(key@) ==> r == Some(payload_ids(*m)[key@]),
        !payload_ids(*m).contains_key(key@) ==> r is None,
{
    m.get(key).copied()
}

/// Stores `id` under `key` (`HashMap::insert`), replacing what was stored there.
#[verifier::external_body]
pub(crate) fn payload_map_insert(m: &mut FxHashMap<Vec<usize>, usize>, key: Vec<usize>, id: usize)
    ensures
        payload_ids(*final(m)) == payload_ids(*old(m)).insert(key@, id),
{
    m.insert(key, id);
}

/// An empty hash map with the hasher of `rustc-hash`.
pub fn map_new<K, V>() -> (r: FxHashMap<K, V>)
    ensures
        r@ == Map::<K, V>::empty(),
{
    FxHashMap::default()
}

/// An empty hash set with the hasher of `rustc-hash`.
pub fn set_new<T>() -> (r: FxHashSet<T>)
    ensures
        r@ == Set::<T>::empty(),
{
    FxHashSet::default()
}

/// Inserts `value` into `set` (`HashSet::insert`) and tells whether it was absent.
#[verifier::external_body]
pub(crate) fn node_set_insert(set: &mut FxHashSet<usize>, value: usize) -> (r: bool)
    ensures
        final(set)@ == old(set)@.insert(value),
        r == !old(set)@.contains(value),
{
    set.insert(value)
}

/// The value stored under `key` (`HashMap::get`): `Some` exactly when the map holds the key.
#[verifier::external_body]
pub(crate) fn index_map_get<V>(map: &FxHashMap<usize, V>, key: usize) -> (r: Option<&V>)
    ensures
        map@.contains_key(key) ==> r == Some(&map@[key]),
        !map@.contains_key(key) ==> r is None,
{
    map.get(&key)
}

/// Stores `value` under `key` (`HashMap::insert`), replacing what was stored there.
#[verifier::external_body]
pub(crate) fn index_map_insert<V>(map: &mut FxHashMap<usize, V>, key: usize, value: V)
    ensures
        final(map)@ == old(map)@.insert(key, value),
{
    map.insert(key, value);
}

/// Takes the value stored under `key` out of the map (`HashMap::remove`).
#[verifier::external_body]
pub(crate) fn index_map_remove<V>(map: &mut FxHashMap<usize, V>, key: usize) -> (r: Option<V>)
    ensures
        final(map)@ == old(map)@.remove(key),
        old(map)@.contains_key(key) ==> r == Some(old(map)@[key]),
        !old(map)@.contains_key(key) ==> r is None,
{
    map.remove(&key)
}

} // verus!
