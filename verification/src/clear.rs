//! The `Clear` capability: reset to empty without releasing storage.

use std::collections::BTreeMap;
use std::collections::BTreeSet;
use std::collections::HashMap;
use std::collections::HashSet;
use std::collections::VecDeque;

use vstd::prelude::*;

verus! {

/// Reset to empty in place, keeping any backing storage for reuse.
pub trait Clear {
    /// When the container is ready to be cleared (its well-formedness,
    /// where it has one).
    spec fn clear_req(&self) -> bool;

    /// What "empty" means for this type.
    spec fn cleared(&self) -> bool;

    /// Resets to empty.
    fn clear(&mut self)
        requires
            old(self).clear_req(),
        ensures
            final (self).cleared(),
    ;
}

impl<K, V, S> Clear for HashMap<K, V, S> {
    open spec fn clear_req(&self) -> bool {
        true
    }

    open spec fn cleared(&self) -> bool {
        self@ == Map::<K, V>::empty()
    }

    fn clear(&mut self) {
        self.clear()
    }
}

impl<K, V> Clear for BTreeMap<K, V> {
    open spec fn clear_req(&self) -> bool {
        true
    }

    open spec fn cleared(&self) -> bool {
        self@ == Map::<K, V>::empty()
    }

    fn clear(&mut self) {
        self.clear()
    }
}

impl<T> Clear for Vec<T> {
    open spec fn clear_req(&self) -> bool {
        true
    }

    open spec fn cleared(&self) -> bool {
        self@ == Seq::<T>::empty()
    }

    fn clear(&mut self) {
        self.clear()
    }
}

impl<T, S> Clear for HashSet<T, S> {
    open spec fn clear_req(&self) -> bool {
        true
    }

    open spec fn cleared(&self) -> bool {
        self@ == Set::<T>::empty()
    }

    fn clear(&mut self) {
        self.clear()
    }
}

impl<T> Clear for BTreeSet<T> {
    open spec fn clear_req(&self) -> bool {
        true
    }

    open spec fn cleared(&self) -> bool {
        self@ == Set::<T>::empty()
    }

    fn clear(&mut self) {
        self.clear()
    }
}

impl<T> Clear for VecDeque<T> {
    open spec fn clear_req(&self) -> bool {
        true
    }

    open spec fn cleared(&self) -> bool {
        self@ == Seq::<T>::empty()
    }

    fn clear(&mut self) {
        self.clear()
    }
}

} // verus!
