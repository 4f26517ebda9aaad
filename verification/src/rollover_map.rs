//! A map that stores a few entries inline and spills to a backing map.
//!
//! `RolloverMap` keeps up to `N` key/value pairs in inline storage with no
//! hashing and no backing-map allocation. Inserting beyond `N` entries
//! promotes everything into a generic backing map; removing back down to
//! exactly `N` entries demotes everything into inline storage again. The
//! two representations never hold live entries at the same time, and every
//! operation states its effect on the one mathematical map the container
//! denotes.
//!
//! Removal from inline storage swaps the last slot in rather than shifting
//! the remainder, so the inline order is not insertion order; the map
//! contract promises no iteration order, and none is promised here.

use vstd::prelude::*;

pub mod occup_entry;
pub mod vac_entry;

use crate::hashed_heap::{HashedMaxHeap, HashedMinHeap};
use crate::key::{find_key, Key, OrderedKey};
use crate::kv::{
    kv_map, lemma_kv_map_dom, lemma_kv_map_index, lemma_kv_map_len, lemma_kv_map_push,
    lemma_kv_map_swap_remove, lemma_kv_map_update_val, lemma_push_no_duplicates,
};
use crate::vec_map::VecMap;
use crate::GenericMap;

pub use self::occup_entry::OccupEntry;
pub use self::vac_entry::VacEntry;

verus! {

/// A map that keeps up to `N` entries in inline storage and spills to the
/// backing map `M` beyond that.
pub struct RolloverMap<K, V, const N: usize, M> {
    stack_keys: Vec<K>,
    stack_values: Vec<V>,
    heap: M,
}

/// A rollover map backed by a max-ordered hashed heap.
pub type RolloverHashedMaxHeap<K, V, const N: usize> = RolloverMap<K, V, N, HashedMaxHeap<K, V>>;

/// A rollover map backed by a min-ordered hashed heap.
pub type RolloverHashedMinHeap<K, V, const N: usize> = RolloverMap<K, V, N, HashedMinHeap<K, V>>;

/// A rollover map backed by the plain vector map.
pub type RolloverVecMap<K, V, const N: usize> = RolloverMap<K, V, N, VecMap<K, V>>;

impl<K: Key, V, const N: usize, M: GenericMap<K, V>> RolloverMap<K, V, N, M> {
    /// The keys currently held inline, in storage order.
    pub closed spec fn stack_key_seq(&self) -> Seq<K> {
        self.stack_keys@
    }

    /// The contents of the backing map.
    pub closed spec fn heap_m(&self) -> Map<K, V> {
        self.heap.m()
    }

    /// Whether `k` is currently held inline.
    pub closed spec fn stored_inline(&self, k: K) -> bool {
        self.stack_keys@.contains(k)
    }

    /// The mathematical contents: the inline entries together with the
    /// backing map's entries (at most one side is ever occupied).
    pub closed spec fn m(&self) -> Map<K, V> {
        kv_map(self.stack_keys@, self.stack_values@).union_prefer_right(self.heap.m())
    }

    /// Well-formedness: parallel inline storage of at most `N` distinct
    /// keys, a well-formed backing map, and the two modes mutually
    /// exclusive; a non-empty backing map holds more than `N` entries.
    pub closed spec fn wf(&self) -> bool {
        &&& self.stack_keys@.no_duplicates()
        &&& self.stack_keys@.len() == self.stack_values@.len()
        &&& self.stack_keys@.len() <= N
        &&& self.heap.wf()
        &&& (self.stack_keys@.len() > 0 ==> self.heap.m().dom() == Set::<K>::empty())
        &&& (self.heap.m().dom() != Set::<K>::empty() ==> self.heap.m().dom().len() > N)
    }

    /// How the contents decompose into the two representations.
    proof fn lemma_parts(&self)
        requires
            self.wf(),
        ensures
            self.m().dom().finite(),
            self.m().dom().len() == self.stack_keys@.len() + self.heap.m().dom().len(),
            forall|k: K|
                #[trigger] self.m().dom().contains(k) == (self.stack_keys@.contains(k)
                    || self.heap.m().dom().contains(k)),
            forall|k: K| #[trigger] self.stack_keys@.contains(k) ==> !self.heap.m().dom().contains(
                k,
            ),
            forall|k: K|
                #[trigger] self.heap.m().dom().contains(k) ==> self.m()[k] == self.heap.m()[k],
            forall|i: int|
                0 <= i < self.stack_keys@.len() ==> self.m().dom().contains(
                    #[trigger] self.stack_keys@[i],
                ) && self.m()[self.stack_keys@[i]] == self.stack_values@[i],
    {
        broadcast use vstd::seq_lib::lemma_seq_contains;

        let sk = self.stack_keys@;
        let sv = self.stack_values@;
        let inline_m = kv_map(sk, sv);
        lemma_kv_map_dom(sk, sv);
        lemma_kv_map_len(sk, sv);
        self.heap.lemma_wf_finite();
        assert(self.m().dom() =~= inline_m.dom().union(self.heap.m().dom()));
        if sk.len() > 0 {
            assert(self.heap.m().dom() =~= Set::<K>::empty());
            assert(self.m().dom() =~= inline_m.dom());
        } else {
            assert(inline_m.dom() =~= Set::<K>::empty());
            assert(self.m().dom() =~= self.heap.m().dom());
        }
        assert forall|i: int| 0 <= i < sk.len() implies self.m().dom().contains(
            #[trigger] sk[i],
        ) && self.m()[sk[i]] == sv[i] by {
            lemma_kv_map_index(sk, sv, i);
            assert(sk.contains(sk[i]));
            assert(!self.heap.m().dom().contains(sk[i]));
        }
    }

    /// Entry API equivalence: inserting through an entry handle and
    /// inserting directly make the same model update (`m.insert(key,
    /// value)`, the shared postcondition of `insert`, `VacEntry::insert`
    /// and `OccupEntry::insert`), so two maps with equal contents —
    /// whatever representation each is in — have equal contents again
    /// after one inserts through its handle and the other directly.
    pub proof fn lemma_entry_insert_equivalence(
        a0: Self,
        a1: Self,
        b0: Self,
        b1: Self,
        key: K,
        value: V,
    )
        requires
            a0.m() == b0.m(),
            a1.m() == a0.m().insert(key, value),
            b1.m() == b0.m().insert(key, value),
        ensures
            a1.m() == b1.m(),
    {
    }

    /// A new, empty map; entries start out inline.
    pub fn new() -> (r: Self)
        ensures
            r.wf(),
            r.m() == Map::<K, V>::empty(),
    {
        let r = RolloverMap {
            stack_keys: Vec::new(),
            stack_values: Vec::new(),
            heap: M::empty_map(),
        };
        proof {
            assert(r.m() =~= Map::<K, V>::empty());
        }
        r
    }

    /// The number of entries: the inline count plus the backing map's.
    pub fn len(&self) -> (r: usize)
        requires
            self.wf(),
        ensures
            r == self.m().dom().len(),
    {
        proof {
            self.lemma_parts();
            self.heap.lemma_wf_finite();
            vstd::set_lib::lemma_len_subset(self.heap.m().dom(), self.m().dom());
        }
        self.stack_keys.len() + self.heap.len()
    }

    /// Whether the map holds no entry.
    pub fn is_empty(&self) -> (r: bool)
        requires
            self.wf(),
        ensures
            r == (self.m().dom().len() == 0),
    {
        proof {
            self.lemma_parts();
        }
        self.stack_keys.len() == 0 && self.heap.is_empty()
    }

    /// The number of entries held inline; zero whenever the map is
    /// spilled (or empty).
    pub fn inline_len(&self) -> (r: usize)
        requires
            self.wf(),
        ensures
            r == self.stack_key_seq().len(),
    {
        self.stack_keys.len()
    }

    /// Whether `key` is present, inline or spilled.
    pub fn contains_key(&self, key: &K) -> (r: bool)
        requires
            self.wf(),
        ensures
            r == self.m().dom().contains(*key),
    {
        proof {
            self.lemma_parts();
            broadcast use vstd::seq_lib::lemma_seq_contains;

        }
        match find_key(&self.stack_keys, key) {
            Some(i) => {
                proof {
                    assert(self.stack_keys@.contains(*key));
                }
                true
            },
            None => self.heap.contains_key(key),
        }
    }

    /// Inserts or replaces; returns the previous value if the key was
    /// already present. A new entry goes inline while the backing map is
    /// empty and the inline storage has room; the insertion that would
    /// exceed `N` first migrates every inline entry into the backing map
    /// (promotion), then inserts there.
    #[verifier::loop_isolation(false)]
    pub fn insert(&mut self, key: K, value: V) -> (r: Option<V>)
        requires
            old(self).wf(),
        ensures
            final (self).wf(),
            final (self).m() == old(self).m().insert(key, value),
            r == if old(self).m().dom().contains(key) {
                Some(old(self).m()[key])
            } else {
                None::<V>
            },
    {
        proof {
            self.lemma_parts();
            broadcast use vstd::seq_lib::lemma_seq_contains;

        }
        let ghost m0 = old(self).m();
        match find_key(&self.stack_keys, &key) {
            Some(i) => {
                proof {
                    lemma_kv_map_index(self.stack_keys@, self.stack_values@, i as int);
                    lemma_kv_map_update_val(self.stack_keys@, self.stack_values@, i as int, value);
                }
                self.stack_values.push(value);
                let prior = self.stack_values.swap_remove(i);
                proof {
                    assert(self.stack_values@ =~= old(self).stack_values@.update(i as int, value));
                    assert(self.m() =~= m0.insert(key, value));
                }
                Some(prior)
            },
            None => {
                if self.heap.is_empty() {
                    proof {
                        self.heap.lemma_wf_finite();
                        self.heap.m().dom().lemma_len0_is_empty();
                        assert(m0 =~= kv_map(self.stack_keys@, self.stack_values@));
                    }
                    if self.stack_keys.len() < N {
                        proof {
                            lemma_push_no_duplicates(self.stack_keys@, key);
                            lemma_kv_map_push(self.stack_keys@, self.stack_values@, key, value);
                        }
                        self.stack_keys.push(key);
                        self.stack_values.push(value);
                        proof {
                            assert(self.m() =~= m0.insert(key, value));
                        }
                        None
                    } else {
                        let ghost sk0 = self.stack_keys@;
                        let ghost sv0 = self.stack_values@;
                        while self.stack_keys.len() > 0
                            invariant
                                self.stack_keys@.no_duplicates(),
                                self.stack_keys@.len() == self.stack_values@.len(),
                                self.heap.wf(),
                                self.heap.m().dom().finite(),
                                forall|k: K|
                                    #[trigger] self.heap.m().dom().contains(k)
                                        ==> !self.stack_keys@.contains(k),
                                kv_map(self.stack_keys@, self.stack_values@).union_prefer_right(
                                    self.heap.m(),
                                ) == kv_map(sk0, sv0),
                                self.stack_keys@.len() + self.heap.m().dom().len() == N as int,
                            decreases self.stack_keys@.len(),
                        {
                            let ghost skp = self.stack_keys@;
                            let ghost svp = self.stack_values@;
                            let ghost hp = self.heap.m();
                            let k = self.stack_keys.pop().unwrap();
                            let v = self.stack_values.pop().unwrap();
                            proof {
                                assert(self.stack_keys@ =~= skp.drop_last());
                                assert(self.stack_values@ =~= svp.drop_last());
                                assert(skp[skp.len() - 1] == k);
                                assert(skp.contains(k));
                                assert(!self.heap.m().dom().contains(k));
                                assert(!self.stack_keys@.contains(k)) by {
                                    if self.stack_keys@.contains(k) {
                                        let j = choose|j: int|
                                            0 <= j < self.stack_keys@.len()
                                                && self.stack_keys@[j] == k;
                                        assert(skp[j] == k);
                                    }
                                }
                            }
                            let prior = self.heap.insert(k, v);
                            proof {
                                vstd::set::axiom_set_insert_len(hp.dom(), k);
                                lemma_kv_map_dom(self.stack_keys@, self.stack_values@);
                                assert(kv_map(self.stack_keys@, self.stack_values@)
                                    .union_prefer_right(self.heap.m()) =~= kv_map(skp,
                                svp,
                                ).union_prefer_right(hp)) by {
                                    assert(kv_map(skp, svp) == kv_map(
                                        self.stack_keys@,
                                        self.stack_values@,
                                    ).insert(k, v));
                                }
                                assert forall|k2: K| #[trigger] self.heap.m().dom().contains(
                                    k2,
                                ) implies !self.stack_keys@.contains(k2) by {
                                    if k2 != k {
                                        assert(hp.dom().contains(k2));
                                        assert(!skp.contains(k2));
                                        if self.stack_keys@.contains(k2) {
                                            let j = choose|j: int|
                                                0 <= j < self.stack_keys@.len()
                                                    && self.stack_keys@[j] == k2;
                                            assert(skp[j] == k2);
                                        }
                                    }
                                }
                            }
                        }
                        proof {
                            assert(kv_map(self.stack_keys@, self.stack_values@)
                                =~= Map::<K, V>::empty());
                            assert(self.heap.m() =~= kv_map(sk0, sv0)) by {
                                assert(kv_map(self.stack_keys@, self.stack_values@)
                                    .union_prefer_right(self.heap.m()) =~= self.heap.m());
                            }
                            lemma_kv_map_dom(sk0, sv0);
                            assert(!self.heap.m().dom().contains(key));
                            vstd::set::axiom_set_insert_len(self.heap.m().dom(), key);
                        }
                        let r = self.heap.insert(key, value);
                        proof {
                            assert(r is None);
                            assert(self.heap.m().dom().contains(key));
                            assert(self.heap.m().dom() != Set::<K>::empty());
                            assert(self.m() =~= m0.insert(key, value));
                        }
                        None
                    }
                } else {
                    proof {
                        self.heap.lemma_wf_finite();
                        assert(self.stack_keys@.len() == 0);
                        assert(kv_map(self.stack_keys@, self.stack_values@)
                            =~= Map::<K, V>::empty());
                        vstd::set::axiom_set_insert_len(self.heap.m().dom(), key);
                    }
                    let ghost hp = self.heap.m();
                    let r = self.heap.insert(key, value);
                    proof {
                        assert(self.heap.m().dom().contains(key));
                        assert(self.heap.m().dom() != Set::<K>::empty());
                        assert(self.heap.m().dom().len() > N) by {
                            assert(self.heap.m().dom() =~= hp.dom().insert(key));
                        }
                        assert(self.m() =~= m0.insert(key, value));
                        assert(m0.dom().contains(key) == hp.dom().contains(key));
                        assert(m0.dom().contains(key) ==> m0[key] == hp[key]);
                    }
                    r
                }
            },
        }
    }

    /// Removes `key` and returns its value, or `None` if absent; a miss
    /// has no side effects. A removal that brings the backing map down to
    /// exactly `N` entries migrates everything back into inline storage
    /// (demotion), leaving the backing map empty.
    #[verifier::loop_isolation(false)]
    pub fn remove(&mut self, key: &K) -> (r: Option<V>)
        requires
            old(self).wf(),
        ensures
            final (self).wf(),
            final (self).m() == old(self).m().remove(*key),
            r == if old(self).m().dom().contains(*key) {
                Some(old(self).m()[*key])
            } else {
                None::<V>
            },
    {
        proof {
            self.lemma_parts();
            self.heap.lemma_wf_finite();
            broadcast use vstd::seq_lib::lemma_seq_contains;

        }
        let ghost m0 = old(self).m();
        match find_key(&self.stack_keys, key) {
            Some(i) => {
                proof {
                    lemma_kv_map_index(self.stack_keys@, self.stack_values@, i as int);
                    lemma_kv_map_swap_remove(self.stack_keys@, self.stack_values@, i as int);
                }
                self.stack_keys.swap_remove(i);
                let v = self.stack_values.swap_remove(i);
                proof {
                    assert(self.m() =~= m0.remove(*key));
                }
                Some(v)
            },
            None => {
                let ghost hp0 = self.heap.m();
                let r = self.heap.remove(key);
                proof {
                    assert(self.m() =~= m0.remove(*key));
                    assert(m0.dom().contains(*key) == hp0.dom().contains(*key));
                    assert(m0.dom().contains(*key) ==> m0[*key] == hp0[*key]);
                    assert(self.heap.m().dom() =~= hp0.dom().remove(*key));
                    if hp0.dom().contains(*key) {
                        vstd::set::axiom_set_remove_len(hp0.dom(), *key);
                    } else {
                        assert(hp0.dom().remove(*key) =~= hp0.dom());
                    }
                    self.heap.lemma_wf_finite();
                }
                let ghost m1 = self.m();
                if self.heap.len() == N {
                    proof {
                        assert(self.stack_keys@.len() == 0) by {
                            if self.stack_keys@.len() > 0 {
                                assert(hp0.dom() =~= Set::<K>::empty());
                                assert(self.heap.m().dom() =~= Set::<K>::empty());
                            }
                        }
                        assert(kv_map(self.stack_keys@, self.stack_values@)
                            =~= Map::<K, V>::empty());
                        assert(m1 =~= self.heap.m());
                    }
                    let mut pairs = self.heap.drain();
                    let ghost dm = crate::kv::map_of_pairs(pairs@);
                    proof {
                        assert(dm == m1);
                        crate::kv::lemma_kv_map_dom(
                            crate::kv::pair_keys(pairs@),
                            crate::kv::pair_vals(pairs@),
                        );
                        crate::kv::lemma_kv_map_len(
                            crate::kv::pair_keys(pairs@),
                            crate::kv::pair_vals(pairs@),
                        );
                    }
                    while pairs.len() > 0
                        invariant
                            self.stack_keys@.no_duplicates(),
                            self.stack_keys@.len() == self.stack_values@.len(),
                            self.heap.wf(),
                            self.heap.m() == Map::<K, V>::empty(),
                            crate::kv::distinct_keys(pairs@),
                            forall|k2: K|
                                #[trigger] self.stack_keys@.contains(k2) ==> !crate::kv::pair_keys(
                                    pairs@,
                                ).contains(k2),
                            kv_map(self.stack_keys@, self.stack_values@).union_prefer_right(
                                crate::kv::map_of_pairs(pairs@),
                            ) == dm,
                            self.stack_keys@.len() + pairs@.len() == N as int,
                        decreases pairs@.len(),
                    {
                        let ghost pp = pairs@;
                        let p = pairs.pop().unwrap();
                        let (k, v) = p;
                        proof {
                            assert(pairs@ =~= pp.drop_last());
                            assert(crate::kv::pair_keys(pairs@) =~= crate::kv::pair_keys(
                                pp,
                            ).drop_last());
                            assert(crate::kv::pair_vals(pairs@) =~= crate::kv::pair_vals(
                                pp,
                            ).drop_last());
                            assert(crate::kv::pair_keys(pp)[pp.len() - 1] == k);
                            assert(crate::kv::pair_keys(pp).contains(k));
                            assert(crate::kv::map_of_pairs(pp) == crate::kv::map_of_pairs(
                                pairs@,
                            ).insert(k, v));
                            // the remaining pairs keep distinct keys
                            assert forall|a: int, b: int|
                                0 <= a < crate::kv::pair_keys(pairs@).len() && 0 <= b
                                    < crate::kv::pair_keys(pairs@).len() && a != b implies (
                            #[trigger] crate::kv::pair_keys(pairs@)[a]) != (
                            #[trigger] crate::kv::pair_keys(pairs@)[b]) by {
                                assert(crate::kv::pair_keys(pp)[a] == crate::kv::pair_keys(
                                    pairs@,
                                )[a]);
                                assert(crate::kv::pair_keys(pp)[b] == crate::kv::pair_keys(
                                    pairs@,
                                )[b]);
                            }
                            // the popped key sits in no remaining pair
                            assert(!crate::kv::pair_keys(pairs@).contains(k)) by {
                                if crate::kv::pair_keys(pairs@).contains(k) {
                                    let j = choose|j: int|
                                        0 <= j < crate::kv::pair_keys(pairs@).len()
                                            && crate::kv::pair_keys(pairs@)[j] == k;
                                    assert(crate::kv::pair_keys(pp)[j] == k);
                                }
                            }
                            assert(!self.stack_keys@.contains(k));
                            lemma_push_no_duplicates(self.stack_keys@, k);
                            lemma_kv_map_push(self.stack_keys@, self.stack_values@, k, v);
                            lemma_kv_map_dom(self.stack_keys@, self.stack_values@);
                            crate::kv::lemma_kv_map_dom(
                                crate::kv::pair_keys(pairs@),
                                crate::kv::pair_vals(pairs@),
                            );
                            assert(kv_map(self.stack_keys@.push(k), self.stack_values@.push(v))
                                .union_prefer_right(crate::kv::map_of_pairs(pairs@)) =~= kv_map(
                                self.stack_keys@,
                                self.stack_values@,
                            ).union_prefer_right(crate::kv::map_of_pairs(pp)));
                            // pushed keys stay clear of the remaining pairs
                            assert forall|k2: K|
                                #[trigger] self.stack_keys@.push(k).contains(k2)
                                    implies !crate::kv::pair_keys(pairs@).contains(k2) by {
                                if k2 != k {
                                    let j = choose|j: int|
                                        0 <= j < self.stack_keys@.push(k).len()
                                            && self.stack_keys@.push(k)[j] == k2;
                                    assert(j < self.stack_keys@.len());
                                    assert(self.stack_keys@[j] == k2);
                                    assert(self.stack_keys@.contains(k2));
                                    if crate::kv::pair_keys(pairs@).contains(k2) {
                                        let j2 = choose|j2: int|
                                            0 <= j2 < crate::kv::pair_keys(pairs@).len()
                                                && crate::kv::pair_keys(pairs@)[j2] == k2;
                                        assert(crate::kv::pair_keys(pp)[j2] == k2);
                                        assert(crate::kv::pair_keys(pp).contains(k2));
                                    }
                                }
                            }
                        }
                        self.stack_keys.push(k);
                        self.stack_values.push(v);
                    }
                    proof {
                        assert(crate::kv::map_of_pairs(pairs@) =~= Map::<K, V>::empty());
                        assert(kv_map(self.stack_keys@, self.stack_values@) =~= dm) by {
                            assert(kv_map(self.stack_keys@, self.stack_values@)
                                .union_prefer_right(crate::kv::map_of_pairs(pairs@)) =~= kv_map(
                                self.stack_keys@,
                                self.stack_values@,
                            ));
                        }
                        assert(self.m() =~= m1);
                        assert(self.m() =~= m0.remove(*key));
                    }
                }
                r
            },
        }
    }

    /// Exclusive access to the value stored under `key`, if any.
    pub fn get_mut<'a>(&'a mut self, key: &K) -> (r: Option<&'a mut V>)
        requires
            old(self).wf(),
        ensures
            final (self).wf(),
            old(self).m().dom().contains(*key) ==> r.is_some() && *r.unwrap() == old(
                self,
            ).m()[*key] && final (self).m() == old(self).m().insert(*key, *final (r.unwrap())),
            !old(self).m().dom().contains(*key) ==> r.is_none() && final (self).m() == old(
                self,
            ).m(),
    {
        proof {
            self.lemma_parts();
            broadcast use vstd::seq_lib::lemma_seq_contains;

        }
        match find_key(&self.stack_keys, key) {
            Some(i) => {
                proof {
                    lemma_kv_map_index(old(self).stack_keys@, old(self).stack_values@, i as int);
                }
                let vref = &mut self.stack_values[i];
                proof {
                    lemma_kv_map_update_val(
                        old(self).stack_keys@,
                        old(self).stack_values@,
                        i as int,
                        *final (vref),
                    );
                    assert(kv_map(
                        old(self).stack_keys@,
                        old(self).stack_values@.update(i as int, *final (vref)),
                    ).union_prefer_right(old(self).heap.m()) =~= old(self).m().insert(
                        *key,
                        *final (vref),
                    ));
                }
                Some(vref)
            },
            None => {
                let ghost hp0 = self.heap.m();
                let r = self.heap.get_mut(key);
                proof {
                    if old(self).m().dom().contains(*key) {
                        assert(hp0.dom().contains(*key));
                        assert(kv_map(old(self).stack_keys@, old(self).stack_values@)
                            .union_prefer_right(hp0.insert(*key, *final (r.unwrap()))) =~= old(
                            self,
                        ).m().insert(*key, *final (r.unwrap())));
                        assert(hp0.insert(*key, *final (r.unwrap())).dom() =~= hp0.dom());
                    }
                }
                r
            },
        }
    }

    /// Removes and returns every entry; the container is empty afterward.
    #[verifier::loop_isolation(false)]
    pub fn drain(&mut self) -> (r: Vec<(K, V)>)
        requires
            old(self).wf(),
        ensures
            final (self).wf(),
            final (self).m() == Map::<K, V>::empty(),
            crate::kv::distinct_keys(r@),
            crate::kv::map_of_pairs(r@) == old(self).m(),
    {
        proof {
            self.lemma_parts();
            broadcast use vstd::seq_lib::lemma_seq_contains;

        }
        let ghost m0 = old(self).m();
        let ghost inline0 = kv_map(self.stack_keys@, self.stack_values@);
        let ghost hp0 = self.heap.m();
        let mut out: Vec<(K, V)> = Vec::new();
        while self.stack_keys.len() > 0
            invariant
                self.stack_keys@.no_duplicates(),
                self.stack_keys@.len() == self.stack_values@.len(),
                crate::kv::distinct_keys(out@),
                forall|k: K|
                    #[trigger] crate::kv::pair_keys(out@).contains(k)
                        ==> !self.stack_keys@.contains(k),
                forall|k: K|
                    #[trigger] crate::kv::pair_keys(out@).contains(k) ==> !hp0.dom().contains(k),
                forall|k2: K|
                    #[trigger] self.stack_keys@.contains(k2) ==> !hp0.dom().contains(k2),
                crate::kv::map_of_pairs(out@).union_prefer_right(
                    kv_map(self.stack_keys@, self.stack_values@),
                ) == inline0,
                self.heap == old(self).heap,
            decreases self.stack_keys@.len(),
        {
            let ghost pre_keys = self.stack_keys@;
            let ghost pre_vals = self.stack_values@;
            let ghost out0 = out@;
            let k = self.stack_keys.pop().unwrap();
            let v = self.stack_values.pop().unwrap();
            out.push((k, v));
            proof {
                assert(pre_keys =~= self.stack_keys@.push(k));
                assert(pre_vals =~= self.stack_values@.push(v));
                lemma_kv_map_dom(self.stack_keys@, self.stack_values@);
                lemma_kv_map_push(self.stack_keys@, self.stack_values@, k, v);
                assert(!self.stack_keys@.contains(k)) by {
                    if self.stack_keys@.contains(k) {
                        let j = choose|j: int|
                            0 <= j < self.stack_keys@.len() && self.stack_keys@[j] == k;
                        assert(pre_keys[j] == k);
                        assert(pre_keys[pre_keys.len() - 1] == k);
                    }
                }
                assert(!crate::kv::pair_keys(out0).contains(k)) by {
                    assert(pre_keys[pre_keys.len() - 1] == k);
                    assert(pre_keys.contains(k));
                }
                assert(!hp0.dom().contains(k)) by {
                    assert(pre_keys.contains(k));
                }
                lemma_push_no_duplicates(crate::kv::pair_keys(out0), k);
                assert(crate::kv::pair_keys(out@) =~= crate::kv::pair_keys(out0).push(k));
                assert(crate::kv::pair_vals(out@) =~= crate::kv::pair_vals(out0).push(v));
                lemma_kv_map_push(crate::kv::pair_keys(out0), crate::kv::pair_vals(out0), k, v);
                lemma_kv_map_dom(crate::kv::pair_keys(out0), crate::kv::pair_vals(out0));
                assert forall|k2: K| #[trigger] self.stack_keys@.contains(
                    k2,
                ) implies pre_keys.contains(k2) && !hp0.dom().contains(k2) by {
                    let j = choose|j: int|
                        0 <= j < self.stack_keys@.len() && self.stack_keys@[j] == k2;
                    assert(pre_keys[j] == k2);
                }
                assert forall|k2: K| #[trigger] crate::kv::pair_keys(out@).contains(k2) implies (
                !self.stack_keys@.contains(k2) && !hp0.dom().contains(k2)) by {
                    if k2 != k {
                        let p = crate::kv::pair_keys(out0).push(k);
                        assert(p.contains(k2));
                        let j = choose|j: int| 0 <= j < p.len() && p[j] == k2;
                        assert(j < crate::kv::pair_keys(out0).len());
                        assert(crate::kv::pair_keys(out0)[j] == k2);
                        assert(crate::kv::pair_keys(out0).contains(k2));
                        assert(!pre_keys.contains(k2));
                    }
                }
                assert(crate::kv::map_of_pairs(out@).union_prefer_right(
                    kv_map(self.stack_keys@, self.stack_values@),
                ) =~= crate::kv::map_of_pairs(out0).union_prefer_right(
                    kv_map(pre_keys, pre_vals),
                ));
            }
        }
        let ghost out_inline = out@;
        let mut hp = self.heap.drain();
        proof {
            assert(crate::kv::map_of_pairs(out_inline) =~= inline0) by {
                assert(kv_map(self.stack_keys@, self.stack_values@) =~= Map::<K, V>::empty());
                assert(crate::kv::map_of_pairs(out_inline).union_prefer_right(
                    kv_map(self.stack_keys@, self.stack_values@),
                ) =~= crate::kv::map_of_pairs(out_inline));
            }
            crate::kv::lemma_kv_map_dom(crate::kv::pair_keys(hp@), crate::kv::pair_vals(hp@));
        }
        let ghost hp_pairs = hp@;
        out.append(&mut hp);
        proof {
            crate::kv::lemma_map_of_pairs_append(out_inline, hp_pairs);
            assert(crate::kv::pair_keys(out@) =~= crate::kv::pair_keys(out_inline)
                + crate::kv::pair_keys(hp_pairs));
            // the two parts are key-disjoint, so the whole list has
            // distinct keys
            assert forall|a: int, b: int|
                0 <= a < crate::kv::pair_keys(out@).len() && 0 <= b < crate::kv::pair_keys(
                    out@,
                ).len() && a != b implies (#[trigger] crate::kv::pair_keys(out@)[a]) != (
            #[trigger] crate::kv::pair_keys(out@)[b]) by {
                let na = crate::kv::pair_keys(out_inline).len() as int;
                if a < na && b < na {
                    assert(crate::kv::pair_keys(out@)[a] == crate::kv::pair_keys(out_inline)[a]);
                    assert(crate::kv::pair_keys(out@)[b] == crate::kv::pair_keys(out_inline)[b]);
                } else if a >= na && b >= na {
                    assert(crate::kv::pair_keys(out@)[a] == crate::kv::pair_keys(hp_pairs)[a - na]);
                    assert(crate::kv::pair_keys(out@)[b] == crate::kv::pair_keys(hp_pairs)[b - na]);
                } else {
                    let ia = if a < na {
                        a
                    } else {
                        b
                    };
                    let ib = if a < na {
                        b
                    } else {
                        a
                    };
                    assert(crate::kv::pair_keys(out@)[ia] == crate::kv::pair_keys(
                        out_inline,
                    )[ia]);
                    assert(crate::kv::pair_keys(out@)[ib] == crate::kv::pair_keys(
                        hp_pairs,
                    )[ib - na]);
                    assert(crate::kv::pair_keys(out_inline).contains(
                        crate::kv::pair_keys(out_inline)[ia],
                    ));
                    assert(crate::kv::pair_keys(hp_pairs).contains(
                        crate::kv::pair_keys(hp_pairs)[ib - na],
                    ));
                    assert(hp0.dom().contains(crate::kv::pair_keys(hp_pairs)[ib - na]));
                }
            }
            assert(crate::kv::map_of_pairs(out@) =~= m0);
            assert(self.m() =~= Map::<K, V>::empty()) by {
                assert(kv_map(self.stack_keys@, self.stack_values@) =~= Map::<K, V>::empty());
            }
        }
        out
    }

    /// Removes every entry. The inline slots are dropped and the backing
    /// map is emptied by draining it; the drained contents are discarded.
    pub fn clear(&mut self)
        requires
            old(self).wf(),
        ensures
            final (self).wf(),
            final (self).m() == Map::<K, V>::empty(),
    {
        self.stack_keys.clear();
        self.stack_values.clear();
        self.heap.drain();
        proof {
            assert(self.m() =~= Map::<K, V>::empty());
        }
    }

    /// Inserts every pair in turn, with exactly the promotion behavior
    /// repeated `insert` implies.
    #[verifier::loop_isolation(false)]
    pub fn extend(&mut self, pairs: Vec<(K, V)>)
        requires
            old(self).wf(),
        ensures
            final (self).wf(),
            final (self).m() == crate::kv::insert_all(old(self).m(), pairs@),
    {
        let ghost all = pairs@;
        let ghost m0 = old(self).m();
        let mut pairs = pairs;
        let total = pairs.len();
        let mut t: usize = 0;
        proof {
            assert(all.take(0) =~= Seq::<(K, V)>::empty());
        }
        while pairs.len() > 0
            invariant
                self.wf(),
                t <= total == all.len(),
                t + pairs@.len() == all.len(),
                pairs@ == all.subrange(t as int, all.len() as int),
                self.m() == crate::kv::insert_all(m0, all.take(t as int)),
            decreases pairs@.len(),
        {
            let (k, v) = pairs.remove(0);
            self.insert(k, v);
            t += 1;
            proof {
                assert(pairs@ =~= all.subrange(t as int, all.len() as int));
                assert(all.take(t as int).drop_last() =~= all.take(t - 1));
                assert(all.take(t as int).last() == (k, v));
            }
        }
        proof {
            assert(all.take(all.len() as int) =~= all);
        }
    }

    /// The value stored under `key`, if any: the inline slots are scanned
    /// first, then the backing map.
    pub fn get<'a>(&'a self, key: &K) -> (r: Option<&'a V>)
        requires
            self.wf(),
        ensures
            match r {
                Some(v) => self.m().dom().contains(*key) && *v == self.m()[*key],
                None => !self.m().dom().contains(*key),
            },
    {
        proof {
            self.lemma_parts();
            broadcast use vstd::seq_lib::lemma_seq_contains;

        }
        match find_key(&self.stack_keys, key) {
            Some(i) => Some(&self.stack_values[i]),
            None => self.heap.get(key),
        }
    }

    /// The keys currently present, in unspecified order: the inline keys
    /// while the map is inline, the backing map's keys once spilled.
    #[verifier::loop_isolation(false)]
    pub fn keys(&self) -> (r: Vec<K>)
        requires
            self.wf(),
        ensures
            r@.no_duplicates(),
            forall|k: K| #[trigger] r@.contains(k) == self.m().dom().contains(k),
    {
        proof {
            self.lemma_parts();
            broadcast use vstd::seq_lib::lemma_seq_contains;

        }
        if self.stack_keys.len() > 0 {
            let mut out: Vec<K> = Vec::new();
            let mut i: usize = 0;
            while i < self.stack_keys.len()
                invariant
                    i <= self.stack_keys@.len(),
                    out@ == self.stack_keys@.subrange(0, i as int),
                decreases self.stack_keys@.len() - i,
            {
                out.push(self.stack_keys[i].key_clone());
                proof {
                    assert(out@ =~= self.stack_keys@.subrange(0, i + 1));
                }
                i += 1;
            }
            proof {
                assert(out@ =~= self.stack_keys@);
            }
            out
        } else {
            self.heap.keys()
        }
    }

    /// A handle over `key`'s presence, vacant or occupied, with the key
    /// staged for the operation the caller chooses. Promotion and demotion
    /// run inside the handle's insert and remove exactly as in the map's
    /// own operations, keeping the two access styles equivalent.
    pub fn entry(&mut self, key: K) -> (r: crate::Entry<VacEntry<K>, OccupEntry<K>>)
        requires
            old(self).wf(),
        ensures
            *final (self) == *old(self),
            match r {
                crate::Entry::Vacant(v) => v.key_spec() == key && !old(self).m().dom().contains(
                    key,
                ),
                crate::Entry::Occupied(o) => o.key_spec() == key && old(self).m().dom().contains(
                    key,
                ),
            },
    {
        if self.contains_key(&key) {
            crate::Entry::Occupied(OccupEntry::stage(key))
        } else {
            crate::Entry::Vacant(VacEntry::stage(key))
        }
    }

    /// Capability-aware removal for clearable values: reports whether the
    /// key was present and removes the entry. Inline storage holds no
    /// vacant slots in this representation, so there is never a slot whose
    /// value could be reset in place; the entry is removed outright either
    /// way, with the same promotion-free, demotion-aware behavior as
    /// `remove`.
    pub fn remove_clearable(&mut self, key: &K) -> (r: bool) where V: crate::clear::Clear
        requires
            old(self).wf(),
        ensures
            final (self).wf(),
            final (self).m() == old(self).m().remove(*key),
            r == old(self).m().dom().contains(*key),
    {
        self.remove(key).is_some()
    }

    /// Capability-aware removal for drainable values: a value held inline
    /// is drained and its contents handed out; a value in the backing map
    /// is removed whole. Demotion applies exactly as in `remove`.
    pub fn drain_or_remove(&mut self, key: &K) -> (r: Option<
        crate::DrainOrRemove<<V as crate::drain::Drain>::Output, V>,
    >) where V: crate::drain::Drain
        requires
            old(self).wf(),
            old(self).m().dom().contains(*key) ==> (old(self).m()[*key]).drain_req(),
        ensures
            final (self).wf(),
            final (self).m() == old(self).m().remove(*key),
            match r {
                None => !old(self).m().dom().contains(*key),
                Some(crate::DrainOrRemove::Removed(v)) => old(self).m().dom().contains(*key)
                    && !old(self).stored_inline(*key) && v == old(self).m()[*key],
                Some(crate::DrainOrRemove::Drained(d)) => old(self).m().dom().contains(*key)
                    && old(self).stored_inline(*key) && (old(self).m()[*key]).drains_to(d),
            },
    {
        proof {
            self.lemma_parts();
            broadcast use vstd::seq_lib::lemma_seq_contains;

        }
        let inline_hit = match find_key(&self.stack_keys, key) {
            Some(i) => {
                proof {
                    assert(self.stack_keys@.contains(*key));
                }
                true
            },
            None => false,
        };
        if inline_hit {
            let mut value = self.remove(key).unwrap();
            let drained = value.drain();
            Some(crate::DrainOrRemove::Drained(drained))
        } else {
            match self.remove(key) {
                Some(v) => Some(crate::DrainOrRemove::Removed(v)),
                None => None,
            }
        }
    }
}

impl<K: Key, V, const N: usize, M: GenericMap<K, V>> GenericMap<K, V> for RolloverMap<
    K,
    V,
    N,
    M,
> {
    open spec fn m(&self) -> Map<K, V> {
        RolloverMap::m(self)
    }

    open spec fn wf(&self) -> bool {
        RolloverMap::wf(self)
    }

    proof fn lemma_wf_finite(&self) {
        self.lemma_parts();
    }

    fn empty_map() -> (r: Self) {
        Self::new()
    }

    fn len(&self) -> (r: usize) {
        self.len()
    }

    fn is_empty(&self) -> (r: bool) {
        self.is_empty()
    }

    fn contains_key(&self, key: &K) -> (r: bool) {
        self.contains_key(key)
    }

    fn get<'a>(&'a self, key: &K) -> (r: Option<&'a V>) {
        self.get(key)
    }

    fn get_mut<'a>(&'a mut self, key: &K) -> (r: Option<&'a mut V>) {
        self.get_mut(key)
    }

    fn keys(&self) -> (r: Vec<K>) {
        self.keys()
    }

    fn insert(&mut self, key: K, value: V) -> (r: Option<V>) {
        self.insert(key, value)
    }

    fn remove(&mut self, key: &K) -> (r: Option<V>) {
        self.remove(key)
    }

    fn drain(&mut self) -> (r: Vec<(K, V)>) {
        self.drain()
    }

    fn remove_clearable(&mut self, key: &K) -> (r: bool) where V: crate::clear::Clear {
        self.remove_clearable(key)
    }

    fn drain_or_remove(&mut self, key: &K) -> (r: Option<
        crate::DrainOrRemove<<V as crate::drain::Drain>::Output, V>,
    >) where V: crate::drain::Drain {
        self.drain_or_remove(key)
    }
}

impl<K: Key, V, const N: usize, M: GenericMap<K, V>> Default for RolloverMap<K, V, N, M> {
    fn default() -> (r: Self)
        ensures
            r.wf(),
            r.m() == Map::<K, V>::empty(),
    {
        Self::new()
    }
}

impl<K: Key, V, const N: usize, M: GenericMap<K, V>> crate::clear::Clear for RolloverMap<
    K,
    V,
    N,
    M,
> {
    open spec fn clear_req(&self) -> bool {
        self.wf()
    }

    open spec fn cleared(&self) -> bool {
        self.wf() && self.m() == Map::<K, V>::empty()
    }

    fn clear(&mut self) {
        self.clear()
    }
}

impl<K: Key, V, const N: usize, M: GenericMap<K, V>> crate::drain::Drain for RolloverMap<
    K,
    V,
    N,
    M,
> {
    type Output = Vec<(K, V)>;

    open spec fn drain_req(&self) -> bool {
        self.wf()
    }

    open spec fn drained(&self) -> bool {
        self.wf() && self.m() == Map::<K, V>::empty()
    }

    open spec fn drains_to(&self, out: Vec<(K, V)>) -> bool {
        crate::kv::distinct_keys(out@) && crate::kv::map_of_pairs(out@) == self.m()
    }

    fn drain(&mut self) -> (r: Vec<(K, V)>) {
        self.drain()
    }
}

impl<K: OrderedKey, V, const N: usize> RolloverHashedMaxHeap<K, V, N> {
    /// The largest present key, or `None` if the map is empty: the backing
    /// heap's answer when spilled, a scan of the inline keys otherwise.
    pub fn max_key(&self) -> (r: Option<&K>)
        requires
            self.wf(),
        ensures
            match r {
                Some(k) => self.m().dom().contains(*k) && forall|o: K|
                    self.m().dom().contains(o) && o != *k ==> #[trigger] K::lt_spec(o, *k),
                None => self.m().dom().len() == 0,
            },
    {
        proof {
            self.lemma_parts();
            broadcast use vstd::seq_lib::lemma_seq_contains;

        }
        match self.heap.max_key() {
            Some(k) => {
                proof {
                    assert(self.stack_keys@.len() == 0);
                }
                Some(k)
            },
            None => {
                if self.stack_keys.len() == 0 {
                    None
                } else {
                    let mut best: usize = 0;
                    let mut i: usize = 1;
                    while i < self.stack_keys.len()
                        invariant
                            self.wf(),
                            0 < self.stack_keys@.len(),
                            best < i <= self.stack_keys@.len(),
                            forall|j: int|
                                0 <= j < i && j != best ==> K::lt_spec(
                                    #[trigger] self.stack_keys@[j],
                                    self.stack_keys@[best as int],
                                ),
                        decreases self.stack_keys@.len() - i,
                    {
                        if self.stack_keys[best].lt(&self.stack_keys[i]) {
                            proof {
                                assert forall|j: int| 0 <= j < i + 1 && j != i implies K::lt_spec(
                                    #[trigger] self.stack_keys@[j],
                                    self.stack_keys@[i as int],
                                ) by {
                                    if j != best {
                                        K::lt_transitive(
                                            self.stack_keys@[j],
                                            self.stack_keys@[best as int],
                                            self.stack_keys@[i as int],
                                        );
                                    }
                                }
                            }
                            best = i;
                        } else {
                            proof {
                                K::lt_connected(
                                    self.stack_keys@[best as int],
                                    self.stack_keys@[i as int],
                                );
                            }
                        }
                        i += 1;
                    }
                    proof {
                        let bk = self.stack_keys@[best as int];
                        assert(self.stack_keys@.contains(bk));
                        assert forall|o: K|
                            self.m().dom().contains(o) && o != bk implies #[trigger] K::lt_spec(
                            o,
                            bk,
                        ) by {
                            assert(self.stack_keys@.contains(o));
                            let j = choose|j: int|
                                0 <= j < self.stack_keys@.len() && self.stack_keys@[j] == o;
                            assert(j != best);
                        }
                    }
                    Some(&self.stack_keys[best])
                }
            },
        }
    }
}

impl<K: OrderedKey, V, const N: usize> RolloverHashedMinHeap<K, V, N> {
    /// The smallest present key, or `None` if the map is empty: the
    /// backing heap's answer when spilled, a scan of the inline keys
    /// otherwise.
    pub fn min_key(&self) -> (r: Option<&K>)
        requires
            self.wf(),
        ensures
            match r {
                Some(k) => self.m().dom().contains(*k) && forall|o: K|
                    self.m().dom().contains(o) && o != *k ==> #[trigger] K::lt_spec(*k, o),
                None => self.m().dom().len() == 0,
            },
    {
        proof {
            self.lemma_parts();
            broadcast use vstd::seq_lib::lemma_seq_contains;

        }
        match self.heap.min_key() {
            Some(k) => {
                proof {
                    assert(self.stack_keys@.len() == 0);
                }
                Some(k)
            },
            None => {
                if self.stack_keys.len() == 0 {
                    None
                } else {
                    let mut best: usize = 0;
                    let mut i: usize = 1;
                    while i < self.stack_keys.len()
                        invariant
                            self.wf(),
                            0 < self.stack_keys@.len(),
                            best < i <= self.stack_keys@.len(),
                            forall|j: int|
                                0 <= j < i && j != best ==> K::lt_spec(
                                    self.stack_keys@[best as int],
                                    #[trigger] self.stack_keys@[j],
                                ),
                        decreases self.stack_keys@.len() - i,
                    {
                        if self.stack_keys[i].lt(&self.stack_keys[best]) {
                            proof {
                                assert forall|j: int| 0 <= j < i + 1 && j != i implies K::lt_spec(
                                    self.stack_keys@[i as int],
                                    #[trigger] self.stack_keys@[j],
                                ) by {
                                    if j != best {
                                        K::lt_transitive(
                                            self.stack_keys@[i as int],
                                            self.stack_keys@[best as int],
                                            self.stack_keys@[j],
                                        );
                                    }
                                }
                            }
                            best = i;
                        } else {
                            proof {
                                K::lt_connected(
                                    self.stack_keys@[i as int],
                                    self.stack_keys@[best as int],
                                );
                            }
                        }
                        i += 1;
                    }
                    proof {
                        let bk = self.stack_keys@[best as int];
                        assert(self.stack_keys@.contains(bk));
                        assert forall|o: K|
                            self.m().dom().contains(o) && o != bk implies #[trigger] K::lt_spec(
                            bk,
                            o,
                        ) by {
                            assert(self.stack_keys@.contains(o));
                            let j = choose|j: int|
                                0 <= j < self.stack_keys@.len() && self.stack_keys@[j] == o;
                            assert(j != best);
                        }
                    }
                    Some(&self.stack_keys[best])
                }
            },
        }
    }
}

} // verus!
