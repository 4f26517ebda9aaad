//! The default backing map: parallel key/value vectors with distinct keys.
//!
//! This plays the role a general-purpose hash table plays elsewhere: a plain
//! implementation of the [`GenericMap`] contract that any key with decidable
//! equality can use. Lookup is a linear scan; every operation's effect on
//! the mathematical map is stated and proved.

use vstd::prelude::*;

use crate::key::{find_key, Key};
use crate::kv::{
    distinct_keys, kv_map, lemma_kv_map_dom, lemma_kv_map_index, lemma_kv_map_len,
    lemma_kv_map_push, lemma_kv_map_swap_remove, lemma_kv_map_update_val,
    lemma_push_no_duplicates, map_of_pairs, pair_keys, pair_vals,
};
use crate::GenericMap;

verus! {

/// An associative container stored as a vector of keys and a parallel
/// vector of values.
pub struct VecMap<K, V> {
    keys: Vec<K>,
    vals: Vec<V>,
}

impl<K: Key, V> VecMap<K, V> {
    /// A new, empty map (`GenericMap::empty_map` under a conventional name).
    pub fn new() -> (r: Self)
        ensures
            r.wf(),
            r.m() == Map::<K, V>::empty(),
    {
        Self::empty_map()
    }

    /// Removes every entry, keeping the backing storage.
    pub fn clear(&mut self)
        ensures
            final (self).wf(),
            final (self).m() == Map::<K, V>::empty(),
    {
        self.keys.clear();
        self.vals.clear();
    }

    /// Exclusive access to the value stored under `key`, if any.
    pub fn get_mut<'a>(&'a mut self, key: &K) -> (r: Option<&'a mut V>)
        requires
            old(self).wf(),
        ensures
            final (self).wf(),
            old(self).m().dom().contains(*key) ==> r.is_some() && *r.unwrap() == old(
                self,
            ).m()[*key] && final (self).m() == old(self).m().insert(*key, *final (r.unwrap())),
            !old(self).m().dom().contains(*key) ==> r.is_none() && *final (self) == *old(self),
    {
        proof {
            lemma_kv_map_dom(self.keys@, self.vals@);
        }
        match find_key(&self.keys, key) {
            Some(i) => {
                proof {
                    lemma_kv_map_index(old(self).keys@, old(self).vals@, i as int);
                }
                let vref = &mut self.vals[i];
                proof {
                    lemma_kv_map_update_val(
                        old(self).keys@,
                        old(self).vals@,
                        i as int,
                        *final (vref),
                    );
                }
                Some(vref)
            },
            None => { None },
        }
    }
}

impl<K: Key, V> GenericMap<K, V> for VecMap<K, V> {
    closed spec fn m(&self) -> Map<K, V> {
        kv_map(self.keys@, self.vals@)
    }

    closed spec fn wf(&self) -> bool {
        self.keys@.no_duplicates() && self.keys@.len() == self.vals@.len()
    }

    proof fn lemma_wf_finite(&self) {
        lemma_kv_map_dom(self.keys@, self.vals@);
    }

    fn empty_map() -> (r: Self) {
        VecMap { keys: Vec::new(), vals: Vec::new() }
    }

    fn len(&self) -> (r: usize) {
        proof {
            lemma_kv_map_len(self.keys@, self.vals@);
        }
        self.keys.len()
    }

    fn is_empty(&self) -> (r: bool) {
        proof {
            lemma_kv_map_len(self.keys@, self.vals@);
        }
        self.keys.len() == 0
    }

    fn contains_key(&self, key: &K) -> (r: bool) {
        match find_key(&self.keys, key) {
            Some(i) => {
                proof {
                    lemma_kv_map_dom(self.keys@, self.vals@);
                    assert(self.keys@.contains(*key)) by {
                        broadcast use vstd::seq_lib::lemma_seq_contains;

                        assert(self.keys@[i as int] == *key);
                    }
                }
                true
            },
            None => {
                proof {
                    lemma_kv_map_dom(self.keys@, self.vals@);
                }
                false
            },
        }
    }

    fn get<'a>(&'a self, key: &K) -> (r: Option<&'a V>) {
        match find_key(&self.keys, key) {
            Some(i) => {
                proof {
                    lemma_kv_map_index(self.keys@, self.vals@, i as int);
                }
                Some(&self.vals[i])
            },
            None => {
                proof {
                    lemma_kv_map_dom(self.keys@, self.vals@);
                }
                None
            },
        }
    }

    fn get_mut<'a>(&'a mut self, key: &K) -> (r: Option<&'a mut V>) {
        self.get_mut(key)
    }

    fn keys(&self) -> (r: Vec<K>) {
        proof {
            broadcast use vstd::seq_lib::lemma_seq_contains;

            lemma_kv_map_dom(self.keys@, self.vals@);
        }
        let mut out: Vec<K> = Vec::new();
        let mut i: usize = 0;
        while i < self.keys.len()
            invariant
                i <= self.keys@.len(),
                out@ == self.keys@.subrange(0, i as int),
            decreases self.keys@.len() - i,
        {
            out.push(self.keys[i].key_clone());
            proof {
                assert(out@ =~= self.keys@.subrange(0, i + 1));
            }
            i += 1;
        }
        proof {
            assert(out@ =~= self.keys@);
        }
        out
    }

    fn insert(&mut self, key: K, value: V) -> (r: Option<V>) {
        match find_key(&self.keys, &key) {
            Some(i) => {
                proof {
                    lemma_kv_map_index(old(self).keys@, old(self).vals@, i as int);
                    lemma_kv_map_update_val(old(self).keys@, old(self).vals@, i as int, value);
                }
                self.vals.push(value);
                let prior = self.vals.swap_remove(i);
                proof {
                    assert(self.vals@ =~= old(self).vals@.update(i as int, value));
                }
                Some(prior)
            },
            None => {
                proof {
                    lemma_kv_map_dom(self.keys@, self.vals@);
                    lemma_push_no_duplicates(self.keys@, key);
                    lemma_kv_map_push(self.keys@, self.vals@, key, value);
                }
                self.keys.push(key);
                self.vals.push(value);
                None
            },
        }
    }

    fn remove(&mut self, key: &K) -> (r: Option<V>) {
        match find_key(&self.keys, key) {
            Some(i) => {
                proof {
                    lemma_kv_map_index(old(self).keys@, old(self).vals@, i as int);
                    lemma_kv_map_swap_remove(old(self).keys@, old(self).vals@, i as int);
                }
                self.keys.swap_remove(i);
                let prior = self.vals.swap_remove(i);
                Some(prior)
            },
            None => {
                proof {
                    lemma_kv_map_dom(self.keys@, self.vals@);
                    assert(self.m().remove(*key) =~= self.m());
                }
                None
            },
        }
    }

    fn drain(&mut self) -> (r: Vec<(K, V)>) {
        proof {
            broadcast use vstd::seq_lib::lemma_seq_contains;

        }
        let ghost m0 = self.m();
        let mut out: Vec<(K, V)> = Vec::new();
        while self.keys.len() > 0
            invariant
                self.keys@.no_duplicates(),
                self.keys@.len() == self.vals@.len(),
                distinct_keys(out@),
                forall|k: K| pair_keys(out@).contains(k) ==> !self.keys@.contains(k),
                map_of_pairs(out@).union_prefer_right(kv_map(self.keys@, self.vals@)) == m0,
            decreases self.keys@.len(),
        {
            let ghost pre_keys = self.keys@;
            let ghost pre_vals = self.vals@;
            let k = self.keys.pop().unwrap();
            let v = self.vals.pop().unwrap();
            proof {
                broadcast use vstd::seq_lib::lemma_seq_contains;

                assert(pre_keys =~= self.keys@.push(k));
                assert(pre_vals =~= self.vals@.push(v));
                lemma_kv_map_dom(self.keys@, self.vals@);
                lemma_kv_map_push(self.keys@, self.vals@, k, v);
                assert(!self.keys@.contains(k)) by {
                    if self.keys@.contains(k) {
                        let j = choose|j: int| 0 <= j < self.keys@.len() && self.keys@[j] == k;
                        assert(pre_keys[j] == k);
                        assert(pre_keys[pre_keys.len() - 1] == k);
                    }
                }
                assert(!pair_keys(out@).contains(k)) by {
                    assert(pre_keys[pre_keys.len() - 1] == k);
                    assert(pre_keys.contains(k));
                }
                lemma_push_no_duplicates(pair_keys(out@), k);
                assert(pair_keys(out@.push((k, v))) =~= pair_keys(out@).push(k));
                assert(pair_vals(out@.push((k, v))) =~= pair_vals(out@).push(v));
                lemma_kv_map_push(pair_keys(out@), pair_vals(out@), k, v);
                lemma_kv_map_dom(pair_keys(out@), pair_vals(out@));
                assert(forall|k2: K| self.keys@.contains(k2) ==> pre_keys.contains(k2));
                assert forall|k2: K|
                    pair_keys(out@.push((k, v))).contains(k2) implies !self.keys@.contains(
                    k2,
                ) by {
                    assert(pair_keys(out@.push((k, v))) =~= pair_keys(out@).push(k));
                    if k2 != k {
                        let p = pair_keys(out@).push(k);
                        assert(p.contains(k2));
                        let j = choose|j: int| 0 <= j < p.len() && p[j] == k2;
                        assert(0 <= j < p.len() && p[j] == k2);
                        assert(j < pair_keys(out@).len());
                        assert(pair_keys(out@)[j] == k2);
                        assert(pair_keys(out@).contains(k2));
                        assert(!pre_keys.contains(k2));
                    }
                }
                assert(map_of_pairs(out@.push((k, v))).union_prefer_right(
                    kv_map(self.keys@, self.vals@),
                ) =~= map_of_pairs(out@).union_prefer_right(kv_map(pre_keys, pre_vals)));
            }
            out.push((k, v));
        }
        proof {
            assert(self.m() =~= Map::<K, V>::empty());
            assert(map_of_pairs(out@).union_prefer_right(self.m()) =~= map_of_pairs(out@));
        }
        out
    }
}

} // verus!
