//! The vacant entry handle for a rollover map.
//!
//! The handle stages the absent key; inserting through it re-resolves the
//! slot on the owning map and runs the same promotion logic as `insert`,
//! so entry-driven and direct insertion are behaviorally one.

use vstd::prelude::*;

use super::RolloverMap;
use crate::key::Key;
use crate::GenericMap;

verus! {

/// A handle on a key that is absent from a rollover map.
pub struct VacEntry<K> {
    key: K,
}

impl<K: Key> VacEntry<K> {
    /// The key this handle stages.
    pub closed spec fn key_spec(&self) -> K {
        self.key
    }

    pub(crate) fn stage(key: K) -> (r: Self)
        ensures
            r.key_spec() == key,
    {
        VacEntry { key }
    }

    /// The staged key.
    pub fn key(&self) -> (r: &K)
        ensures
            *r == self.key_spec(),
    {
        &self.key
    }

    /// Inserts `value` under the staged key: the same model update as
    /// `insert` on the map itself, promotion included.
    pub fn insert<V, const N: usize, M: GenericMap<K, V>>(
        self,
        map: &mut RolloverMap<K, V, N, M>,
        value: V,
    )
        requires
            old(map).wf(),
            !old(map).m().dom().contains(self.key_spec()),
        ensures
            final (map).wf(),
            final (map).m() == old(map).m().insert(self.key_spec(), value),
    {
        map.insert(self.key, value);
    }
}

} // verus!
