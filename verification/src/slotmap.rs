//! The concurrent hash maps of the store: the buffer pool's index from page
//! addresses to slot numbers, and the index of the open files from file ids
//! to their places.

use dashmap::DashMap;
use std::collections::hash_map::RandomState;
use vstd::prelude::*;

verus! {

/// `dashmap::DashMap`, taken as an opaque type: nothing is known of a map
/// but what the functions below state.
#[verifier::external_type_specification]
#[verifier::external_body]
#[verifier::reject_recursive_types(K)]
#[verifier::reject_recursive_types(V)]
#[verifier::reject_recursive_types(S)]
pub struct ExDashMap<K, V, S>(DashMap<K, V, S>);

/// The concurrent map that the buffer pool keeps from page address to slot number.
pub type SlotIndex = DashMap<(u64, u64), usize, RandomState>;

/// What a slot index holds: for each `(file_id, page_id)` present, its slot number.
pub uninterp spec fn index_contents(m: SlotIndex) -> Map<(u64, u64), usize>;

/// `DashMap::new`: a map with no entries.
#[verifier::external_body]
pub(crate) fn index_new() -> (index: SlotIndex)
    ensures
        index_contents(index) =~= Map::empty(),
{
    DashMap::new()
}

/// `DashMap::get`, copying the value out: the value stored under `key`, if any.
#[verifier::external_body]
pub(crate) fn index_get(m: &SlotIndex, key: (u64, u64)) -> (r: Option<usize>)
    ensures
        r == (if index_contents(*m).contains_key(key) { Some(index_contents(*m)[key]) } else { None }),
{
    m.get(&key).map(|v| *v)
}

/// `DashMap::insert`: afterwards `key` maps to `value` and every other key is as before.
#[verifier::external_body]
pub(crate) fn index_insert(m: &mut SlotIndex, key: (u64, u64), value: usize)
    ensures
        index_contents(*final(m)) == index_contents(*old(m)).insert(key, value),
{
    m.insert(key, value);
}

/// `DashMap::remove`: afterwards `key` is absent and every other key is as before.
#[verifier::external_body]
pub(crate) fn index_remove(m: &mut SlotIndex, key: (u64, u64))
    ensures
        index_contents(*final(m)) == index_contents(*old(m)).remove(key),
{
    m.remove(&key);
}

/// The concurrent map that the open files keep from file id to the place of the file.
pub type FileIndex = DashMap<u64, usize, RandomState>;

/// What a file index holds: for each file id present, the place of its file.
pub uninterp spec fn file_places(m: FileIndex) -> Map<u64, usize>;

/// `DashMap::new`: a map with no entries.
#[verifier::external_body]
pub(crate) fn file_index_new() -> (index: FileIndex)
    ensures
        file_places(index) =~= Map::empty(),
{
    DashMap::new()
}

/// `DashMap::get`, copying the value out: the value stored under `key`, if any.
#[verifier::external_body]
pub(crate) fn file_index_get(m: &FileIndex, key: u64) -> (r: Option<usize>)
    ensures
        r == (if file_places(*m).contains_key(key) { Some(file_places(*m)[key]) } else { None }),
{
    m.get(&key).map(|v| *v)
}

/// `DashMap::insert`: afterwards `key` maps to `value` and every other key is as before.
#[verifier::external_body]
pub(crate) fn file_index_insert(m: &mut FileIndex, key: u64, value: usize)
    ensures
        file_places(*final(m)) == file_places(*old(m)).insert(key, value),
{
    m.insert(key, value);
}

} // verus!
