//! The occupied entry handle for a rollover map.
//!
//! The handle stages the present key; every operation re-resolves the slot
//! on the owning map, whichever representation currently holds it, and
//! removal runs the same demotion logic as `remove`.

use vstd::prelude::*;

use super::RolloverMap;
use crate::key::Key;
use crate::GenericMap;

verus! {

/// A handle on a key that is present in a rollover map.
pub struct OccupEntry<K> {
    key: K,
}

impl<K: Key> OccupEntry<K> {
    /// The key this handle stages.
    pub closed spec fn key_spec(&self) -> K {
        self.key
    }

    pub(crate) fn stage(key: K) -> (r: Self)
        ensures
            r.key_spec() == key,
    {
        OccupEntry { key }
    }

    /// The staged key.
    pub fn key(&self) -> (r: &K)
        ensures
            *r == self.key_spec(),
    {
        &self.key
    }

    /// The value under the staged key.
    pub fn get<'a, V, const N: usize, M: GenericMap<K, V>>(
        &self,
        map: &'a RolloverMap<K, V, N, M>,
    ) -> (r: &'a V)
        requires
            map.wf(),
            map.m().dom().contains(self.key_spec()),
        ensures
            *r == map.m()[self.key_spec()],
    {
        map.get(&self.key).unwrap()
    }

    /// Exclusive access to the value under the staged key.
    pub fn get_mut<'a, V, const N: usize, M: GenericMap<K, V>>(
        &self,
        map: &'a mut RolloverMap<K, V, N, M>,
    ) -> (r: &'a mut V)
        requires
            old(map).wf(),
            old(map).m().dom().contains(self.key_spec()),
        ensures
            final (map).wf(),
            *r == old(map).m()[self.key_spec()],
            final (map).m() == old(map).m().insert(self.key_spec(), *final (r)),
    {
        map.get_mut(&self.key).unwrap()
    }

    /// Replaces the value under the staged key, returning the old one:
    /// the same model update as `insert` on the map itself.
    pub fn insert<V, const N: usize, M: GenericMap<K, V>>(
        &self,
        map: &mut RolloverMap<K, V, N, M>,
        value: V,
    ) -> (r: V)
        requires
            old(map).wf(),
            old(map).m().dom().contains(self.key_spec()),
        ensures
            final (map).wf(),
            final (map).m() == old(map).m().insert(self.key_spec(), value),
            r == old(map).m()[self.key_spec()],
    {
        map.insert(self.key.key_clone(), value).unwrap()
    }

    /// Removes the entry, returning its value: the same model update as
    /// `remove` on the map itself, demotion included.
    pub fn remove<V, const N: usize, M: GenericMap<K, V>>(
        self,
        map: &mut RolloverMap<K, V, N, M>,
    ) -> (r: V)
        requires
            old(map).wf(),
            old(map).m().dom().contains(self.key_spec()),
        ensures
            final (map).wf(),
            final (map).m() == old(map).m().remove(self.key_spec()),
            r == old(map).m()[self.key_spec()],
    {
        map.remove(&self.key).unwrap()
    }

    /// Capability-aware removal: the entry is removed and its value
    /// discarded rather than handed out.
    pub fn remove_clearable<V, const N: usize, M: GenericMap<K, V>>(
        self,
        map: &mut RolloverMap<K, V, N, M>,
    ) where V: crate::clear::Clear
        requires
            old(map).wf(),
            old(map).m().dom().contains(self.key_spec()),
        ensures
            final (map).wf(),
            final (map).m() == old(map).m().remove(self.key_spec()),
    {
        map.remove_clearable(&self.key);
    }
}

} // verus!
