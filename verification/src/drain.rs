//! The `Drain` capability: move all contents out while emptying.

use std::collections::HashMap;
use std::collections::HashSet;
use std::collections::VecDeque;

use vstd::prelude::*;

verus! {

/// Move every element out of the container, leaving it empty.
pub trait Drain: Sized {
    /// What draining yields.
    type Output;

    /// When the container is ready to be drained (its well-formedness,
    /// where it has one).
    spec fn drain_req(&self) -> bool;

    /// What "emptied by draining" means for this type.
    spec fn drained(&self) -> bool;

    /// How a drain result reads against the pre-state.
    spec fn drains_to(&self, out: Self::Output) -> bool;

    /// Moves all contents out; the container is empty afterward.
    fn drain(&mut self) -> (r: Self::Output)
        requires
            old(self).drain_req(),
        ensures
            old(self).drains_to(r),
            final (self).drained(),
    ;
}

impl<T> Drain for Vec<T> {
    type Output = Vec<T>;

    open spec fn drain_req(&self) -> bool {
        true
    }

    open spec fn drained(&self) -> bool {
        self@ == Seq::<T>::empty()
    }

    open spec fn drains_to(&self, out: Vec<T>) -> bool {
        out@ == self@
    }

    fn drain(&mut self) -> (r: Vec<T>) {
        let mut tmp: Vec<T> = Vec::new();
        core::mem::swap(&mut tmp, self);
        tmp
    }
}

impl<K, V, S> Drain for HashMap<K, V, S> where S: Default {
    type Output = HashMap<K, V, S>;

    open spec fn drain_req(&self) -> bool {
        true
    }

    open spec fn drained(&self) -> bool {
        self@ == Map::<K, V>::empty()
    }

    open spec fn drains_to(&self, out: HashMap<K, V, S>) -> bool {
        out@ == self@
    }

    fn drain(&mut self) -> (r: HashMap<K, V, S>) {
        let mut tmp: HashMap<K, V, S> = HashMap::default();
        core::mem::swap(&mut tmp, self);
        tmp
    }
}

impl<T, S> Drain for HashSet<T, S> where S: Default {
    type Output = HashSet<T, S>;

    open spec fn drain_req(&self) -> bool {
        true
    }

    open spec fn drained(&self) -> bool {
        self@ == Set::<T>::empty()
    }

    open spec fn drains_to(&self, out: HashSet<T, S>) -> bool {
        out@ == self@
    }

    fn drain(&mut self) -> (r: HashSet<T, S>) {
        let mut tmp: HashSet<T, S> = HashSet::default();
        core::mem::swap(&mut tmp, self);
        tmp
    }
}

impl<T> Drain for VecDeque<T> {
    type Output = VecDeque<T>;

    open spec fn drain_req(&self) -> bool {
        true
    }

    open spec fn drained(&self) -> bool {
        self@ == Seq::<T>::empty()
    }

    open spec fn drains_to(&self, out: VecDeque<T>) -> bool {
        out@ == self@
    }

    fn drain(&mut self) -> (r: VecDeque<T>) {
        let mut tmp: VecDeque<T> = VecDeque::new();
        core::mem::swap(&mut tmp, self);
        tmp
    }
}

} // verus!
