//! Capability traits for key types.
//!
//! The containers in this crate are generic over their key type. A key must
//! offer an executable equality test that agrees with mathematical equality,
//! and an executable clone that reproduces the value exactly; ordered
//! contexts (the built-in comparators, `max_key`/`min_key`) additionally
//! need an executable strict order. The traits below state those
//! obligations, and the integer types implement them.

use vstd::prelude::*;

verus! {

/// A key type: executable equality and cloning that Verus can tie to the
/// mathematical value.
pub trait Key: Sized {
    /// Equality test; the result must coincide with spec equality.
    fn key_eq(&self, other: &Self) -> (r: bool)
        ensures
            r == (self == other),
    ;

    /// An exact copy of the key.
    fn key_clone(&self) -> (r: Self)
        ensures
            r == *self,
    ;
}

/// A key type with a strict total order, used by the built-in comparators
/// and by `max_key`/`min_key` over inline storage.
pub trait OrderedKey: Key {
    /// The strict order relation ("less than").
    spec fn lt_spec(self, other: Self) -> bool;

    /// The order is asymmetric.
    proof fn lt_asymmetric(a: Self, b: Self)
        ensures
            Self::lt_spec(a, b) ==> !Self::lt_spec(b, a),
    ;

    /// The order is transitive.
    proof fn lt_transitive(a: Self, b: Self, c: Self)
        requires
            Self::lt_spec(a, b),
            Self::lt_spec(b, c),
        ensures
            Self::lt_spec(a, c),
    ;

    /// Any two distinct keys are ordered one way or the other.
    proof fn lt_connected(a: Self, b: Self)
        ensures
            a != b ==> Self::lt_spec(a, b) || Self::lt_spec(b, a),
    ;

    /// Executable strict comparison.
    fn lt(&self, other: &Self) -> (r: bool)
        ensures
            r == Self::lt_spec(*self, *other),
    ;
}

/// The position of `key` in `keys`, or `None` if it does not occur.
pub fn find_key<K: Key>(keys: &Vec<K>, key: &K) -> (r: Option<usize>)
    ensures
        match r {
            Some(i) => 0 <= i < keys@.len() && keys@[i as int] == *key,
            None => !keys@.contains(*key),
        },
{
    let mut i: usize = 0;
    while i < keys.len()
        invariant
            0 <= i <= keys@.len(),
            forall|j: int| 0 <= j < i ==> keys@[j] != *key,
        decreases keys@.len() - i,
    {
        if keys[i].key_eq(key) {
            return Some(i);
        }
        i += 1;
    }
    proof {
        broadcast use vstd::seq_lib::lemma_seq_contains;

    }
    None
}

impl Key for u8 {
    fn key_eq(&self, other: &Self) -> bool {
        *self == *other
    }

    fn key_clone(&self) -> Self {
        *self
    }
}

impl Key for u16 {
    fn key_eq(&self, other: &Self) -> bool {
        *self == *other
    }

    fn key_clone(&self) -> Self {
        *self
    }
}

impl Key for u32 {
    fn key_eq(&self, other: &Self) -> bool {
        *self == *other
    }

    fn key_clone(&self) -> Self {
        *self
    }
}

impl Key for u64 {
    fn key_eq(&self, other: &Self) -> bool {
        *self == *other
    }

    fn key_clone(&self) -> Self {
        *self
    }
}

impl Key for usize {
    fn key_eq(&self, other: &Self) -> bool {
        *self == *other
    }

    fn key_clone(&self) -> Self {
        *self
    }
}

impl Key for i8 {
    fn key_eq(&self, other: &Self) -> bool {
        *self == *other
    }

    fn key_clone(&self) -> Self {
        *self
    }
}

impl Key for i16 {
    fn key_eq(&self, other: &Self) -> bool {
        *self == *other
    }

    fn key_clone(&self) -> Self {
        *self
    }
}

impl Key for i32 {
    fn key_eq(&self, other: &Self) -> bool {
        *self == *other
    }

    fn key_clone(&self) -> Self {
        *self
    }
}

impl Key for i64 {
    fn key_eq(&self, other: &Self) -> bool {
        *self == *other
    }

    fn key_clone(&self) -> Self {
        *self
    }
}

impl Key for isize {
    fn key_eq(&self, other: &Self) -> bool {
        *self == *other
    }

    fn key_clone(&self) -> Self {
        *self
    }
}

impl OrderedKey for u8 {
    open spec fn lt_spec(self, other: Self) -> bool {
        self < other
    }

    proof fn lt_asymmetric(a: Self, b: Self) {
    }

    proof fn lt_transitive(a: Self, b: Self, c: Self) {
    }

    proof fn lt_connected(a: Self, b: Self) {
    }

    fn lt(&self, other: &Self) -> bool {
        *self < *other
    }
}

impl OrderedKey for u16 {
    open spec fn lt_spec(self, other: Self) -> bool {
        self < other
    }

    proof fn lt_asymmetric(a: Self, b: Self) {
    }

    proof fn lt_transitive(a: Self, b: Self, c: Self) {
    }

    proof fn lt_connected(a: Self, b: Self) {
    }

    fn lt(&self, other: &Self) -> bool {
        *self < *other
    }
}

impl OrderedKey for u32 {
    open spec fn lt_spec(self, other: Self) -> bool {
        self < other
    }

    proof fn lt_asymmetric(a: Self, b: Self) {
    }

    proof fn lt_transitive(a: Self, b: Self, c: Self) {
    }

    proof fn lt_connected(a: Self, b: Self) {
    }

    fn lt(&self, other: &Self) -> bool {
        *self < *other
    }
}

impl OrderedKey for u64 {
    open spec fn lt_spec(self, other: Self) -> bool {
        self < other
    }

    proof fn lt_asymmetric(a: Self, b: Self) {
    }

    proof fn lt_transitive(a: Self, b: Self, c: Self) {
    }

    proof fn lt_connected(a: Self, b: Self) {
    }

    fn lt(&self, other: &Self) -> bool {
        *self < *other
    }
}

impl OrderedKey for usize {
    open spec fn lt_spec(self, other: Self) -> bool {
        self < other
    }

    proof fn lt_asymmetric(a: Self, b: Self) {
    }

    proof fn lt_transitive(a: Self, b: Self, c: Self) {
    }

    proof fn lt_connected(a: Self, b: Self) {
    }

    fn lt(&self, other: &Self) -> bool {
        *self < *other
    }
}

impl OrderedKey for i8 {
    open spec fn lt_spec(self, other: Self) -> bool {
        self < other
    }

    proof fn lt_asymmetric(a: Self, b: Self) {
    }

    proof fn lt_transitive(a: Self, b: Self, c: Self) {
    }

    proof fn lt_connected(a: Self, b: Self) {
    }

    fn lt(&self, other: &Self) -> bool {
        *self < *other
    }
}

impl OrderedKey for i16 {
    open spec fn lt_spec(self, other: Self) -> bool {
        self < other
    }

    proof fn lt_asymmetric(a: Self, b: Self) {
    }

    proof fn lt_transitive(a: Self, b: Self, c: Self) {
    }

    proof fn lt_connected(a: Self, b: Self) {
    }

    fn lt(&self, other: &Self) -> bool {
        *self < *other
    }
}

impl OrderedKey for i32 {
    open spec fn lt_spec(self, other: Self) -> bool {
        self < other
    }

    proof fn lt_asymmetric(a: Self, b: Self) {
    }

    proof fn lt_transitive(a: Self, b: Self, c: Self) {
    }

    proof fn lt_connected(a: Self, b: Self) {
    }

    fn lt(&self, other: &Self) -> bool {
        *self < *other
    }
}

impl OrderedKey for i64 {
    open spec fn lt_spec(self, other: Self) -> bool {
        self < other
    }

    proof fn lt_asymmetric(a: Self, b: Self) {
    }

    proof fn lt_transitive(a: Self, b: Self, c: Self) {
    }

    proof fn lt_connected(a: Self, b: Self) {
    }

    fn lt(&self, other: &Self) -> bool {
        *self < *other
    }
}

impl OrderedKey for isize {
    open spec fn lt_spec(self, other: Self) -> bool {
        self < other
    }

    proof fn lt_asymmetric(a: Self, b: Self) {
    }

    proof fn lt_transitive(a: Self, b: Self, c: Self) {
    }

    proof fn lt_connected(a: Self, b: Self) {
    }

    fn lt(&self, other: &Self) -> bool {
        *self < *other
    }
}

} // verus!
