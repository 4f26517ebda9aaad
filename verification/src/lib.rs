//! Associative containers built on a common map contract.
//!
//! The crate provides two enhanced map variants on top of the [`GenericMap`]
//! contract: `HashedHeap` (a key/value table coupled with an indexed binary
//! heap, so the favored key is always known in constant time) and
//! `RolloverMap` (a map that keeps up to `N` entries inline and spills to a
//! generic backing map beyond that). Every operation carries a contract
//! over a mathematical `Map<K, V>` view.

use vstd::prelude::*;

pub use self::hashed_heap::HashedMaxHeap;
pub use self::hashed_heap::HashedMinHeap;
pub use self::rollover_map::RolloverMap;

pub mod clear;
pub mod drain;
pub mod hashed_heap;
pub mod key;
pub mod kv;
pub mod rollover_map;
pub mod vec_map;

verus! {

/// The common contract for associative containers with unique keys.
///
/// `m()` is the container's mathematical contents and `wf()` its internal
/// well-formedness; every operation states its effect on `m()` exactly.
pub trait GenericMap<K, V>: Sized {
    /// The mathematical contents of the container.
    spec fn m(&self) -> Map<K, V>;

    /// Internal well-formedness; established by `empty_map` and preserved
    /// by every operation.
    spec fn wf(&self) -> bool;

    /// A well-formed container holds finitely many entries.
    proof fn lemma_wf_finite(&self)
        requires
            self.wf(),
        ensures
            self.m().dom().finite(),
    ;

    /// A new, empty container.
    fn empty_map() -> (r: Self)
        ensures
            r.wf(),
            r.m() == Map::<K, V>::empty(),
    ;

    /// The number of entries.
    fn len(&self) -> (r: usize)
        requires
            self.wf(),
        ensures
            r == self.m().dom().len(),
    ;

    /// Whether the container holds no entry.
    fn is_empty(&self) -> (r: bool)
        requires
            self.wf(),
        ensures
            r == (self.m().dom().len() == 0),
    ;

    /// Whether `key` is present.
    fn contains_key(&self, key: &K) -> (r: bool)
        requires
            self.wf(),
        ensures
            r == self.m().dom().contains(*key),
    ;

    /// The value stored under `key`, if any.
    fn get<'a>(&'a self, key: &K) -> (r: Option<&'a V>)
        requires
            self.wf(),
        ensures
            match r {
                Some(v) => self.m().dom().contains(*key) && *v == self.m()[*key],
                None => !self.m().dom().contains(*key),
            },
    ;

    /// Inserts or replaces; returns the previous value if the key was
    /// already present.
    fn insert(&mut self, key: K, value: V) -> (r: Option<V>)
        requires
            old(self).wf(),
        ensures
            final(self).wf(),
            final(self).m() == old(self).m().insert(key, value),
            r == if old(self).m().dom().contains(key) {
                Some(old(self).m()[key])
            } else {
                None::<V>
            },
    ;

    /// Removes `key` and returns its value, or `None` if absent.
    fn remove(&mut self, key: &K) -> (r: Option<V>)
        requires
            old(self).wf(),
        ensures
            final(self).wf(),
            final(self).m() == old(self).m().remove(*key),
            r == if old(self).m().dom().contains(*key) {
                Some(old(self).m()[*key])
            } else {
                None::<V>
            },
    ;

    /// Exclusive access to the value stored under `key`, if any.
    fn get_mut<'a>(&'a mut self, key: &K) -> (r: Option<&'a mut V>)
        requires
            old(self).wf(),
        ensures
            final(self).wf(),
            old(self).m().dom().contains(*key) ==> r.is_some() && *r.unwrap() == old(
                self,
            ).m()[*key] && final(self).m() == old(self).m().insert(*key, *final(r.unwrap())),
            !old(self).m().dom().contains(*key) ==> r.is_none() && final(self).m() == old(
                self,
            ).m(),
    ;

    /// The keys currently present, in unspecified order: the enumeration
    /// surface (each value is reachable through `get`).
    fn keys(&self) -> (r: Vec<K>)
        requires
            self.wf(),
        ensures
            r@.no_duplicates(),
            forall|k: K| #[trigger] r@.contains(k) == self.m().dom().contains(k),
    ;

    /// Removes and returns every entry; the container is empty afterward.
    fn drain(&mut self) -> (r: Vec<(K, V)>)
        requires
            old(self).wf(),
        ensures
            final(self).wf(),
            final(self).m() == Map::<K, V>::empty(),
            crate::kv::distinct_keys(r@),
            crate::kv::map_of_pairs(r@) == old(self).m(),
    ;

    /// Capability-aware removal: discards or resets the value rather than
    /// handing it out, and reports whether the key was present.
    fn remove_clearable(&mut self, key: &K) -> (r: bool) where V: crate::clear::Clear
        requires
            old(self).wf(),
        ensures
            final(self).wf(),
            final(self).m() == old(self).m().remove(*key),
            r == old(self).m().dom().contains(*key),
    {
        self.remove(key).is_some()
    }

    /// Capability-aware removal for drainable values: empties the value in
    /// place and signals that draining occurred, where the representation
    /// supports it, falling back to ordinary removal where it does not.
    fn drain_or_remove(&mut self, key: &K) -> (r: Option<
        crate::DrainOrRemove<<V as crate::drain::Drain>::Output, V>,
    >) where V: crate::drain::Drain
        requires
            old(self).wf(),
            old(self).m().dom().contains(*key) ==> (old(self).m()[*key]).drain_req(),
        ensures
            final(self).wf(),
            final(self).m() == old(self).m().remove(*key),
            match r {
                None => !old(self).m().dom().contains(*key),
                Some(crate::DrainOrRemove::Removed(v)) => old(self).m().dom().contains(*key) && v
                    == old(self).m()[*key],
                Some(crate::DrainOrRemove::Drained(d)) => old(self).m().dom().contains(*key) && (
                old(self).m()[*key]).drains_to(d),
            },
    {
        match self.remove(key) {
            Some(v) => Some(crate::DrainOrRemove::Removed(v)),
            None => None,
        }
    }
}

/// The result of a capability-aware removal: either the value's drained
/// contents, or the whole value moved out.
pub enum DrainOrRemove<Drained, Removed> {
    Drained(Drained),
    Removed(Removed),
}

/// A two-variant handle over a key's presence, as returned by `entry`.
pub enum Entry<Vac, Occ> {
    Vacant(Vac),
    Occupied(Occ),
}

} // verus!
