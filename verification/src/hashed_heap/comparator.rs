//! Ordering policies for heap-backed structures.
//!
//! A [`Comparator`] decides which of two values should sit closer to a
//! heap's extraction point. Its proof obligations make the relation a
//! strict total order, which is what lets a heap promise that its root is
//! favored over every other element. [`Max`] and [`Min`] are the built-in
//! policies over any [`OrderedKey`].

use core::marker::PhantomData;

use vstd::prelude::*;

use crate::key::OrderedKey;

verus! {

/// An ordering policy: `favors(a, b)` means `a` should sit closer to the
/// extraction point than `b`.
pub trait Comparator<T>: Sized {
    /// The relation, as a mathematical predicate.
    spec fn favors_spec(a: T, b: T) -> bool;

    /// Executable comparison.
    fn favors(&self, a: &T, b: &T) -> (r: bool)
        ensures
            r == Self::favors_spec(*a, *b),
    ;

    /// The relation is asymmetric (hence irreflexive).
    proof fn favors_asymmetric(a: T, b: T)
        ensures
            Self::favors_spec(a, b) ==> !Self::favors_spec(b, a),
    ;

    /// The relation is transitive.
    proof fn favors_transitive(a: T, b: T, c: T)
        requires
            Self::favors_spec(a, b),
            Self::favors_spec(b, c),
        ensures
            Self::favors_spec(a, c),
    ;

    /// Any two distinct values are related one way or the other.
    proof fn favors_connected(a: T, b: T)
        ensures
            a != b ==> Self::favors_spec(a, b) || Self::favors_spec(b, a),
    ;

    /// Of two values, the one the comparator favors (the first on a tie).
    fn favored<'a>(&self, a: &'a T, b: &'a T) -> (r: &'a T)
        ensures
            r == if Self::favors_spec(*b, *a) {
                b
            } else {
                a
            },
    {
        if self.favors(b, a) {
            b
        } else {
            a
        }
    }
}

/// Not-favored is transitive: if `b` is not favored over `a` and `c` is
/// not favored over `b`, then `c` is not favored over `a`.
pub proof fn lemma_not_favors_transitive<T, C: Comparator<T>>(a: T, b: T, c: T)
    requires
        !C::favors_spec(b, a),
        !C::favors_spec(c, b),
    ensures
        !C::favors_spec(c, a),
{
    if C::favors_spec(c, a) {
        C::favors_connected(b, c);
        if b == c {
        } else if C::favors_spec(b, c) {
            C::favors_transitive(b, c, a);
        }
    }
}

/// Favors the larger value: the policy of a max-heap.
pub struct Max<T>(PhantomData<T>);

/// Favors the smaller value: the policy of a min-heap.
pub struct Min<T>(PhantomData<T>);

impl<T> Default for Max<T> {
    fn default() -> Self {
        Max(PhantomData)
    }
}

impl<T> Default for Min<T> {
    fn default() -> Self {
        Min(PhantomData)
    }
}

impl<T: OrderedKey> Comparator<T> for Max<T> {
    open spec fn favors_spec(a: T, b: T) -> bool {
        T::lt_spec(b, a)
    }

    fn favors(&self, a: &T, b: &T) -> (r: bool) {
        b.lt(a)
    }

    proof fn favors_asymmetric(a: T, b: T) {
        if T::lt_spec(b, a) {
            T::lt_asymmetric(b, a);
        }
    }

    proof fn favors_transitive(a: T, b: T, c: T) {
        T::lt_transitive(c, b, a);
    }

    proof fn favors_connected(a: T, b: T) {
        T::lt_connected(b, a);
    }
}

impl<T: OrderedKey> Comparator<T> for Min<T> {
    open spec fn favors_spec(a: T, b: T) -> bool {
        T::lt_spec(a, b)
    }

    fn favors(&self, a: &T, b: &T) -> (r: bool) {
        a.lt(b)
    }

    proof fn favors_asymmetric(a: T, b: T) {
        if T::lt_spec(a, b) {
            T::lt_asymmetric(a, b);
        }
    }

    proof fn favors_transitive(a: T, b: T, c: T) {
        T::lt_transitive(a, b, c);
    }

    proof fn favors_connected(a: T, b: T) {
        T::lt_connected(a, b);
    }
}

} // verus!
