//! Entry handles for the hashed heap.
//!
//! A handle resolves a key's presence once and stages the key for the
//! operation the caller chooses. Each operation takes the owning container
//! again and re-resolves the slot, so no reference into the container has
//! to live inside the handle; the contracts tie every operation to the
//! same model update the container's own methods state.

use vstd::prelude::*;

use super::comparator::Comparator;
use super::HashedHeap;
use crate::key::Key;

verus! {

/// A handle on a key that is absent from a hashed heap.
pub struct VacEntry<K> {
    key: K,
}

/// A handle on a key that is present in a hashed heap.
pub struct OccupEntry<K> {
    key: K,
}

impl<K: Key> VacEntry<K> {
    /// The key this handle stages.
    pub closed spec fn key_spec(&self) -> K {
        self.key
    }

    pub(crate) fn stage(key: K) -> (r: Self)
        ensures
            r.key_spec() == key,
    {
        VacEntry { key }
    }

    /// The staged key.
    pub fn key(&self) -> (r: &K)
        ensures
            *r == self.key_spec(),
    {
        &self.key
    }

    /// Inserts `value` under the staged key: the same model update as
    /// `insert` on the container itself.
    pub fn insert<V, C: Comparator<K>>(self, map: &mut HashedHeap<K, V, C>, value: V)
        requires
            old(map).wf(),
            !old(map).m().dom().contains(self.key_spec()),
        ensures
            final (map).wf(),
            final (map).m() == old(map).m().insert(self.key_spec(), value),
    {
        map.insert(self.key, value);
    }
}

impl<K: Key> OccupEntry<K> {
    /// The key this handle stages.
    pub closed spec fn key_spec(&self) -> K {
        self.key
    }

    pub(crate) fn stage(key: K) -> (r: Self)
        ensures
            r.key_spec() == key,
    {
        OccupEntry { key }
    }

    /// The staged key.
    pub fn key(&self) -> (r: &K)
        ensures
            *r == self.key_spec(),
    {
        &self.key
    }

    /// The value under the staged key.
    pub fn get<'a, V, C: Comparator<K>>(&self, map: &'a HashedHeap<K, V, C>) -> (r: &'a V)
        requires
            map.wf(),
            map.m().dom().contains(self.key_spec()),
        ensures
            *r == map.m()[self.key_spec()],
    {
        map.get(&self.key).unwrap()
    }

    /// Exclusive access to the value under the staged key.
    pub fn get_mut<'a, V, C: Comparator<K>>(&self, map: &'a mut HashedHeap<K, V, C>) -> (r:
        &'a mut V)
        requires
            old(map).wf(),
            old(map).m().dom().contains(self.key_spec()),
        ensures
            final (map).wf(),
            *r == old(map).m()[self.key_spec()],
            final (map).m() == old(map).m().insert(self.key_spec(), *final (r)),
    {
        map.get_mut(&self.key).unwrap()
    }

    /// Replaces the value under the staged key, returning the old one:
    /// the same model update as `insert` on the container itself.
    pub fn insert<V, C: Comparator<K>>(&self, map: &mut HashedHeap<K, V, C>, value: V) -> (r: V)
        requires
            old(map).wf(),
            old(map).m().dom().contains(self.key_spec()),
        ensures
            final (map).wf(),
            final (map).m() == old(map).m().insert(self.key_spec(), value),
            r == old(map).m()[self.key_spec()],
    {
        map.insert(self.key.key_clone(), value).unwrap()
    }

    /// Removes the entry, returning its value: the same model update as
    /// `remove` on the container itself.
    pub fn remove<V, C: Comparator<K>>(self, map: &mut HashedHeap<K, V, C>) -> (r: V)
        requires
            old(map).wf(),
            old(map).m().dom().contains(self.key_spec()),
        ensures
            final (map).wf(),
            final (map).m() == old(map).m().remove(self.key_spec()),
            r == old(map).m()[self.key_spec()],
    {
        map.remove(&self.key).unwrap()
    }
}

} // verus!
