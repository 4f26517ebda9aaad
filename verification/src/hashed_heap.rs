//! A map coupled with an indexed heap, so the favored key is always known.
//!
//! `HashedHeap` pairs a lookup table from each key to its value and its
//! heap position with an [`IndexedHeap`] of the keys. Every mutation that
//! relocates heap elements repoints the table, so the two stay consistent:
//! for every present key, the recorded position is the key's actual
//! position in the heap.

use vstd::prelude::*;

pub mod comparator;
pub mod entry;
pub mod indexed_heap;

use self::comparator::{Comparator, Max, Min};
use self::entry::{OccupEntry, VacEntry};
use self::indexed_heap::{Index, IndexedHeap};
use crate::key::{Key, OrderedKey};
use crate::vec_map::VecMap;
use crate::GenericMap;

verus! {

/// Strips the recorded heap positions from drained table pairs,
/// preserving order.
#[verifier::loop_isolation(false)]
fn strip_positions<K: Key, V>(pairs: Vec<(K, (V, Index))>) -> (r: Vec<(K, V)>)
    requires
        crate::kv::distinct_keys(pairs@),
    ensures
        crate::kv::distinct_keys(r@),
        forall|k: K|
            #[trigger] crate::kv::map_of_pairs(r@).dom().contains(k) == crate::kv::map_of_pairs(
                pairs@,
            ).dom().contains(k),
        forall|k: K|
            #[trigger] crate::kv::map_of_pairs(pairs@).dom().contains(k)
                ==> crate::kv::map_of_pairs(r@)[k] == (crate::kv::map_of_pairs(pairs@)[k]).0,
{
    let ghost all = pairs@;
    let mut pairs = pairs;
    let mut out: Vec<(K, V)> = Vec::new();
    while pairs.len() > 0
        invariant
            out@.len() + pairs@.len() == all.len(),
            pairs@ == all.subrange(out@.len() as int, all.len() as int),
            forall|t: int| 0 <= t < out@.len() ==> #[trigger] out@[t] == (all[t].0, (all[t].1).0),
        decreases pairs@.len(),
    {
        let (k, vi) = pairs.remove(0);
        let (v, _ix) = vi;
        out.push((k, v));
        proof {
            assert(pairs@ =~= all.subrange(out@.len() as int, all.len() as int));
        }
    }
    proof {
        broadcast use vstd::seq_lib::lemma_seq_contains;

        let ks = crate::kv::pair_keys(all);
        let ks2 = crate::kv::pair_keys(out@);
        assert(ks2 =~= ks);
        crate::kv::lemma_kv_map_dom(ks, crate::kv::pair_vals(all));
        crate::kv::lemma_kv_map_dom(ks2, crate::kv::pair_vals(out@));
        assert forall|k: K|
            #[trigger] crate::kv::map_of_pairs(out@).dom().contains(k)
                == crate::kv::map_of_pairs(all).dom().contains(k) by {
            assert(crate::kv::map_of_pairs(out@).dom().contains(k) <==> ks2.contains(k));
            assert(crate::kv::map_of_pairs(all).dom().contains(k) <==> ks.contains(k));
        }
        assert forall|k: K| #[trigger] crate::kv::map_of_pairs(all).dom().contains(
            k,
        ) implies crate::kv::map_of_pairs(out@)[k] == (crate::kv::map_of_pairs(all)[k]).0 by {
            assert(ks.contains(k));
            let i = choose|i: int| 0 <= i < ks.len() && ks[i] == k;
            crate::kv::lemma_kv_map_index(ks, crate::kv::pair_vals(all), i);
            crate::kv::lemma_kv_map_index(ks2, crate::kv::pair_vals(out@), i);
            assert(crate::kv::pair_vals(out@)[i] == (all[i].1).0);
            assert(crate::kv::pair_vals(all)[i] == all[i].1);
        }
    }
    out
}

/// A map from keys to values coupled with an indexed heap of the keys, so
/// that the key the comparator favors most is always known.
pub struct HashedHeap<K, V, C> {
    map: VecMap<K, (V, Index)>,
    heap: IndexedHeap<K, C>,
}

/// A hashed heap whose favored key is the largest.
pub type HashedMaxHeap<K, V> = HashedHeap<K, V, Max<K>>;

/// A hashed heap whose favored key is the smallest.
pub type HashedMinHeap<K, V> = HashedHeap<K, V, Min<K>>;

impl<K: Key, V, C: Comparator<K>> HashedHeap<K, V, C> {
    /// The lookup table: each key's value and recorded heap position.
    pub closed spec fn table(&self) -> Map<K, (V, Index)> {
        self.map.m()
    }

    /// The heap's keys, in array order.
    pub closed spec fn key_seq(&self) -> Seq<K> {
        self.heap.elems()
    }

    /// The heap position the table records for `k`.
    pub closed spec fn recorded_pos(&self, k: K) -> int {
        self.table()[k].1.pos()
    }

    /// The mathematical contents.
    pub open spec fn m(&self) -> Map<K, V> {
        Map::new(|k: K| self.table().dom().contains(k), |k: K| self.table()[k].0)
    }

    /// Well-formedness: the table and the heap hold the same keys, the
    /// heap is ordered and free of duplicates, and every recorded position
    /// is the key's actual position in the heap.
    pub closed spec fn wf(&self) -> bool {
        &&& self.map.wf()
        &&& self.heap.wf()
        &&& self.key_seq().no_duplicates()
        &&& forall|k: K| #[trigger] self.table().dom().contains(k) ==> self.key_seq().contains(k)
        &&& forall|k: K| #[trigger] self.key_seq().contains(k) ==> self.table().dom().contains(k)
        &&& forall|k: K| #[trigger] self.table().dom().contains(k) ==> 0 <= self.table()[k].1.pos()
            < self.key_seq().len() && self.key_seq()[self.table()[k].1.pos()] == k
    }

    /// Bidirectional consistency: for every present key, the table's
    /// recorded position is the key's actual position in the heap.
    pub proof fn lemma_table_heap_consistent(&self, k: K)
        requires
            self.wf(),
            self.m().dom().contains(k),
        ensures
            0 <= self.recorded_pos(k) < self.key_seq().len(),
            self.key_seq()[self.recorded_pos(k)] == k,
    {
    }

    /// The table's domain and the contents' domain are one set, finite.
    proof fn lemma_dom(&self)
        requires
            self.map.wf(),
        ensures
            self.m().dom() =~= self.table().dom(),
            self.m().dom().finite(),
            forall|k: K| #[trigger] self.m().dom().contains(k) == self.table().dom().contains(k),
            forall|k: K|
                #[trigger] self.table().dom().contains(k) ==> self.m()[k] == (self.table()[k]).0,
    {
        self.map.lemma_wf_finite();
        assert(self.m().dom() =~= self.table().dom());
    }

    /// A new, empty container.
    pub fn new() -> (r: Self) where C: Default
        ensures
            r.wf(),
            r.m() == Map::<K, V>::empty(),
    {
        let r = HashedHeap { map: VecMap::new(), heap: IndexedHeap::new() };
        proof {
            r.lemma_dom();
            assert(r.m() =~= Map::<K, V>::empty());
            assert(forall|k: K| !r.key_seq().contains(k));
        }
        r
    }

    /// The number of entries.
    pub fn len(&self) -> (r: usize)
        requires
            self.wf(),
        ensures
            r == self.m().dom().len(),
    {
        proof {
            self.lemma_dom();
        }
        self.map.len()
    }

    /// Whether the container holds no entry.
    pub fn is_empty(&self) -> (r: bool)
        requires
            self.wf(),
        ensures
            r == (self.m().dom().len() == 0),
    {
        proof {
            self.lemma_dom();
        }
        self.map.is_empty()
    }

    /// Whether `key` is present.
    pub fn contains_key(&self, key: &K) -> (r: bool)
        requires
            self.wf(),
        ensures
            r == self.m().dom().contains(*key),
    {
        proof {
            self.lemma_dom();
        }
        self.map.contains_key(key)
    }

    /// The value stored under `key`, if any.
    pub fn get<'a>(&'a self, key: &K) -> (r: Option<&'a V>)
        requires
            self.wf(),
        ensures
            match r {
                Some(v) => self.m().dom().contains(*key) && *v == self.m()[*key],
                None => !self.m().dom().contains(*key),
            },
    {
        proof {
            self.lemma_dom();
        }
        match self.map.get(key) {
            Some(p) => Some(&p.0),
            None => None,
        }
    }

    /// Inserts or replaces; returns the previous value if the key was
    /// already present. Replacing a present key's value leaves the key's
    /// heap position untouched, since the heap orders keys alone.
    #[verifier::loop_isolation(false)]
    pub fn insert(&mut self, key: K, value: V) -> (r: Option<V>)
        requires
            old(self).wf(),
        ensures
            final (self).wf(),
            final (self).m() == old(self).m().insert(key, value),
            r == if old(self).m().dom().contains(key) {
                Some(old(self).m()[key])
            } else {
                None::<V>
            },
    {
        proof {
            self.lemma_dom();
        }
        let existing: Option<Index> = match self.map.get(&key) {
            Some(p) => Some(p.1),
            None => None,
        };
        match existing {
            Some(idx) => {
                let prior = self.map.insert(key, (value, idx));
                proof {
                    self.lemma_dom();
                    assert(self.wf()) by {
                        assert(forall|k: K|
                            #[trigger] self.table().dom().contains(k) <==> old(
                                self,
                            ).table().dom().contains(k));
                        assert(forall|k: K|
                            #[trigger] self.table().dom().contains(k) && k != key
                                ==> self.table()[k] == old(self).table()[k]);
                    }
                    assert(self.m() =~= old(self).m().insert(key, value));
                }
                match prior {
                    Some(pv) => Some(pv.0),
                    None => {
                        proof {
                            assert(false);
                        }
                        None
                    },
                }
            },
            None => {
                let ghost m0 = old(self).m();
                let ghost table0 = old(self).table();
                let ghost hs0 = old(self).key_seq();
                let (idx, changes) = self.heap.insert(key.key_clone());
                let ghost hs = self.heap.elems();
                proof {
                    broadcast use vstd::seq_lib::group_to_multiset_ensures;
                    broadcast use vstd::seq_lib::lemma_seq_contains;

                    assert(!hs0.contains(key));
                    crate::kv::lemma_push_no_duplicates(hs0, key);
                    hs0.push(key).lemma_multiset_has_no_duplicates();
                    assert(hs0.push(key).to_multiset() =~= hs0.to_multiset().insert(key));
                    assert(hs.to_multiset() == hs0.push(key).to_multiset());
                    hs.lemma_multiset_has_no_duplicates_conv();
                    assert(hs.no_duplicates());
                    assert forall|k: K| #[trigger] hs.contains(k) implies hs0.contains(k) || k
                        == key by {
                        assert(hs.to_multiset().count(k) > 0);
                        assert(hs0.push(key).to_multiset().count(k) > 0);
                        assert(hs0.push(key).contains(k));
                        let q = choose|q: int| 0 <= q < hs0.push(key).len() && hs0.push(key)[q]
                            == k;
                        if q < hs0.len() {
                            assert(hs0[q] == k);
                        }
                    }
                    assert forall|k: K| hs0.contains(k) || k == key implies #[trigger] hs.contains(
                        k,
                    ) by {
                        assert(hs0.push(key)[hs0.len() as int] == key);
                        assert(hs0.push(key).contains(key));
                        if hs0.contains(k) {
                            let q = choose|q: int| 0 <= q < hs0.len() && hs0[q] == k;
                            assert(hs0.push(key)[q] == k);
                            assert(hs0.push(key).contains(k));
                        }
                        assert(hs0.push(key).to_multiset().count(k) > 0);
                        assert(hs.to_multiset().count(k) > 0);
                    }
                }
                let prior = self.map.insert(key, (value, idx));
                let ghost table1 = self.map.m();
                proof {
                    broadcast use vstd::seq_lib::lemma_seq_contains;

                    assert(prior is None);
                    // every key's entry is either already right or will be
                    // repointed by a recorded relocation
                    assert forall|k: K| #[trigger] table1.dom().contains(k) implies hs[(
                    table1[k]).1.pos()] == k || exists|u: int|
                        0 <= u < changes@.len() && hs[(#[trigger] changes@[u]).pos()] == k by {
                        if k == key {
                            assert(hs[idx.pos()] == key);
                        } else {
                            let p0 = (table0[k]).1.pos();
                            assert(hs0[p0] == k);
                            if hs[p0] == k {
                                assert(table1[k] == table0[k]);
                            } else {
                                assert(hs.contains(k));
                                let q = choose|q: int| 0 <= q < hs.len() && hs[q] == k;
                                assert(q != p0);
                                assert(hs0.push(key)[q] != k) by {
                                    if q < hs0.len() {
                                        assert(hs0[q] != k);  // k sits only at p0
                                    }
                                }
                                assert(q != idx.pos());
                                assert(indexed_heap::covers(changes@, q));
                                let u = choose|u: int|
                                    0 <= u < changes@.len() && (#[trigger] changes@[u]).pos()
                                        == q;
                                assert(hs[changes@[u].pos()] == k);
                            }
                        }
                    }
                }
                let mut t: usize = 0;
                while t < changes.len()
                    invariant
                        t <= changes@.len(),
                        self.heap.elems() == hs,
                        self.heap.wf(),
                        self.map.wf(),
                        forall|t2: int|
                            0 <= t2 < changes@.len() ==> 0 <= (#[trigger] changes@[t2]).pos()
                                < hs.len(),
                        forall|k: K|
                            #[trigger] self.map.m().dom().contains(k) == table1.dom().contains(k),
                        forall|k: K|
                            #[trigger] table1.dom().contains(k) ==> (self.map.m()[k]).0 == (
                            table1[k]).0,
                        forall|k: K|
                            #[trigger] table1.dom().contains(k) ==> 0 <= (self.map.m()[k]).1.pos()
                                < hs.len(),
                        forall|k: K|
                            #[trigger] table1.dom().contains(k) ==> hs[(self.map.m()[k]).1.pos()]
                                == k || exists|u: int|
                                t <= u < changes@.len() && hs[(#[trigger] changes@[u]).pos()]
                                    == k,
                    decreases changes@.len() - t,
                {
                    let ix = changes[t];
                    let kk = self.heap.at(ix).key_clone();
                    proof {
                        broadcast use vstd::seq_lib::lemma_seq_contains;

                        assert(hs[ix.pos()] == kk);
                        assert(hs.contains(kk));
                        assert(table1.dom().contains(kk));
                        assert(self.map.m().dom().contains(kk));
                    }
                    let ghost map_pre = self.map.m();
                    match self.map.get_mut(&kk) {
                        Some(p) => {
                            p.1 = ix;
                        },
                        None => {
                            proof {
                                assert(false);
                            }
                        },
                    }
                    proof {
                        assert forall|k: K| #[trigger] table1.dom().contains(k) implies hs[(
                        self.map.m()[k]).1.pos()] == k || exists|u: int|
                            t + 1 <= u < changes@.len() && hs[(#[trigger] changes@[u]).pos()]
                                == k by {
                            if k == kk {
                                assert((self.map.m()[kk]).1.pos() == ix.pos());
                            } else {
                                assert(self.map.m()[k] == map_pre[k]);
                                if hs[(map_pre[k]).1.pos()] == k {
                                } else {
                                    let u = choose|u: int|
                                        t <= u < changes@.len() && hs[(
                                        #[trigger] changes@[u]).pos()] == k;
                                    assert(u != t);  // that entry names kk's position
                                }
                            }
                        }
                    }
                    t += 1;
                }
                proof {
                    broadcast use vstd::seq_lib::lemma_seq_contains;

                    assert(self.wf()) by {
                        assert forall|k: K| #[trigger] self.table().dom().contains(
                            k,
                        ) implies self.key_seq().contains(k) by {
                            assert(table1.dom().contains(k));
                            assert(hs0.contains(k) || k == key);
                            assert(hs.contains(k));
                        }
                        assert forall|k: K| #[trigger] self.key_seq().contains(
                            k,
                        ) implies self.table().dom().contains(k) by {
                            assert(hs0.contains(k) || k == key);
                            assert(table0.dom().contains(k) || k == key);
                            assert(table1.dom().contains(k));
                        }
                    }
                    self.lemma_dom();
                    assert(self.m() =~= m0.insert(key, value));
                }
                None
            },
        }
    }

    /// Removes `key` and returns its value, or `None` if absent; a miss
    /// has no side effects. The key the heap hands back is proved equal to
    /// the key removed from the table, so the runtime desynchronization
    /// check of a merely tested implementation becomes a theorem here.
    #[verifier::loop_isolation(false)]
    pub fn remove(&mut self, key: &K) -> (r: Option<V>)
        requires
            old(self).wf(),
        ensures
            final (self).wf(),
            final (self).m() == old(self).m().remove(*key),
            r == if old(self).m().dom().contains(*key) {
                Some(old(self).m()[*key])
            } else {
                None::<V>
            },
    {
        proof {
            self.lemma_dom();
        }
        let ghost m0 = old(self).m();
        let ghost table0 = old(self).table();
        let ghost hs0 = old(self).key_seq();
        match self.map.remove(key) {
            None => {
                proof {
                    self.lemma_dom();
                    assert(self.table() =~= table0);
                    assert(self.m() =~= m0.remove(*key));
                }
                None
            },
            Some(pv) => {
                let (value, idx) = pv;
                proof {
                    assert(hs0[idx.pos()] == *key);
                }
                let (removed_key, changes) = self.heap.remove(idx);
                let ghost hs = self.heap.elems();
                let ghost table1 = self.map.m();
                proof {
                    broadcast use vstd::seq_lib::group_to_multiset_ensures;
                    broadcast use vstd::multiset::group_multiset_axioms;
                    broadcast use vstd::seq_lib::lemma_seq_contains;

                    assert(removed_key == *key);
                    assert(table1 == table0.remove(*key));
                    hs0.lemma_multiset_has_no_duplicates();
                    assert(hs.to_multiset() =~= hs0.to_multiset().remove(*key));
                    assert(hs0.to_multiset().count(*key) == 1);
                    assert forall|x: K| hs.to_multiset().contains(x) implies hs.to_multiset().count(
                        x,
                    ) == 1 by {
                        assert(hs0.to_multiset().contains(x));
                    }
                    hs.lemma_multiset_has_no_duplicates_conv();
                    assert(hs.no_duplicates());
                    assert(!hs.contains(*key)) by {
                        assert(hs.to_multiset().count(*key) == 0);
                    }
                    assert forall|k: K| #[trigger] hs.contains(k) implies hs0.contains(k) && k
                        != *key by {
                        assert(hs.to_multiset().count(k) > 0);
                        assert(hs0.to_multiset().count(k) > 0);
                    }
                    assert forall|k: K| hs0.contains(k) && k != *key implies #[trigger] hs.contains(
                        k,
                    ) by {
                        assert(hs0.to_multiset().count(k) > 0);
                        assert(hs0.to_multiset().count(k) == 1);
                        assert(hs.to_multiset().count(k) == 1);
                    }
                    // each remaining key's entry is either already right or
                    // will be repointed by a recorded relocation
                    assert forall|k: K| #[trigger] table1.dom().contains(k) implies (0 <= (
                    table1[k]).1.pos() < hs.len() && hs[(table1[k]).1.pos()] == k) || exists|
                        u: int,
                    |
                        0 <= u < changes@.len() && hs[(#[trigger] changes@[u]).pos()] == k by {
                        let p0 = (table0[k]).1.pos();
                        assert(hs0[p0] == k);
                        assert(hs.contains(k));
                        let q = choose|q: int| 0 <= q < hs.len() && hs[q] == k;
                        if p0 < hs.len() && hs[p0] == k {
                        } else {
                            assert(hs0[q] != k ==> hs[q] != hs0[q]);
                            assert(q != p0 ==> hs0[q] != k);
                            if q == p0 {
                                assert(hs[q] != hs0[q]);
                            }
                            assert(indexed_heap::covers(changes@, q));
                            let u = choose|u: int|
                                0 <= u < changes@.len() && (#[trigger] changes@[u]).pos() == q;
                            assert(hs[changes@[u].pos()] == k);
                        }
                    }
                }
                let mut t: usize = 0;
                while t < changes.len()
                    invariant
                        t <= changes@.len(),
                        self.heap.elems() == hs,
                        self.heap.wf(),
                        self.map.wf(),
                        forall|k: K|
                            #[trigger] self.map.m().dom().contains(k) == table1.dom().contains(k),
                        forall|k: K|
                            #[trigger] table1.dom().contains(k) ==> (self.map.m()[k]).0 == (
                            table1[k]).0,
                        forall|k: K|
                            #[trigger] table1.dom().contains(k) ==> (0 <= (
                            self.map.m()[k]).1.pos() < hs.len() && hs[(self.map.m()[k]).1.pos()]
                                == k) || exists|u: int|
                                t <= u < changes@.len() && hs[(#[trigger] changes@[u]).pos()]
                                    == k,
                    decreases changes@.len() - t,
                {
                    let ix = changes[t];
                    let kk = self.heap.at(ix).key_clone();
                    proof {
                        broadcast use vstd::seq_lib::lemma_seq_contains;

                        assert(hs[ix.pos()] == kk);
                        assert(hs.contains(kk));
                        assert(table1.dom().contains(kk));
                    }
                    let ghost map_pre = self.map.m();
                    match self.map.get_mut(&kk) {
                        Some(p) => {
                            p.1 = ix;
                        },
                        None => {
                            proof {
                                assert(false);
                            }
                        },
                    }
                    proof {
                        assert forall|k: K| #[trigger] table1.dom().contains(k) implies (0 <= (
                        self.map.m()[k]).1.pos() < hs.len() && hs[(self.map.m()[k]).1.pos()] == k)
                            || exists|u: int|
                            t + 1 <= u < changes@.len() && hs[(#[trigger] changes@[u]).pos()]
                                == k by {
                            if k == kk {
                                assert((self.map.m()[kk]).1.pos() == ix.pos());
                            } else {
                                assert(self.map.m()[k] == map_pre[k]);
                                if 0 <= (map_pre[k]).1.pos() < hs.len() && hs[(
                                map_pre[k]).1.pos()] == k {
                                } else {
                                    let u = choose|u: int|
                                        t <= u < changes@.len() && hs[(
                                        #[trigger] changes@[u]).pos()] == k;
                                    assert(u != t);  // that entry names kk's position
                                }
                            }
                        }
                    }
                    t += 1;
                }
                proof {
                    broadcast use vstd::seq_lib::lemma_seq_contains;

                    assert(self.wf()) by {
                        assert forall|k: K| #[trigger] self.table().dom().contains(
                            k,
                        ) implies self.key_seq().contains(k) by {
                            assert(table1.dom().contains(k));
                            assert(hs0.contains(k) && k != *key);
                            assert(hs.contains(k));
                        }
                        assert forall|k: K| #[trigger] self.key_seq().contains(
                            k,
                        ) implies self.table().dom().contains(k) by {
                            assert(hs0.contains(k) && k != *key);
                            assert(table0.dom().contains(k));
                            assert(table1.dom().contains(k));
                        }
                    }
                    self.lemma_dom();
                    assert(self.m() =~= m0.remove(*key));
                }
                Some(value)
            },
        }
    }

    /// A handle over `key`'s presence, vacant or occupied, with the key
    /// staged for the operation the caller chooses.
    pub fn entry(&mut self, key: K) -> (r: crate::Entry<VacEntry<K>, OccupEntry<K>>)
        requires
            old(self).wf(),
        ensures
            *final (self) == *old(self),
            match r {
                crate::Entry::Vacant(v) => v.key_spec() == key && !old(self).m().dom().contains(
                    key,
                ),
                crate::Entry::Occupied(o) => o.key_spec() == key && old(self).m().dom().contains(
                    key,
                ),
            },
    {
        if self.contains_key(&key) {
            crate::Entry::Occupied(OccupEntry::stage(key))
        } else {
            crate::Entry::Vacant(VacEntry::stage(key))
        }
    }

    /// Removes and returns every entry; the container is empty afterward.
    /// The heap is cleared wholesale: nothing remains that would have to
    /// stay consistent.
    pub fn drain(&mut self) -> (r: Vec<(K, V)>)
        requires
            old(self).wf(),
        ensures
            final (self).wf(),
            final (self).m() == Map::<K, V>::empty(),
            crate::kv::distinct_keys(r@),
            crate::kv::map_of_pairs(r@) == old(self).m(),
    {
        proof {
            self.lemma_dom();
        }
        self.heap.clear();
        let raw = self.map.drain();
        let out = strip_positions(raw);
        proof {
            broadcast use vstd::seq_lib::lemma_seq_contains;

            self.lemma_dom();
            assert(self.wf());
            assert(self.m() =~= Map::<K, V>::empty());
            assert(crate::kv::map_of_pairs(out@) =~= old(self).m());
        }
        out
    }

    /// Removes every entry, keeping the containers' backing storage.
    pub fn clear(&mut self)
        ensures
            final (self).wf(),
            final (self).m() == Map::<K, V>::empty(),
    {
        self.map.clear();
        self.heap.clear();
        proof {
            broadcast use vstd::seq_lib::lemma_seq_contains;

            self.lemma_dom();
            assert(self.m() =~= Map::<K, V>::empty());
        }
    }

    /// Exclusive access to the value stored under `key`, if any. The
    /// key's heap position is untouched.
    pub fn get_mut<'a>(&'a mut self, key: &K) -> (r: Option<&'a mut V>)
        requires
            old(self).wf(),
        ensures
            final (self).wf(),
            old(self).m().dom().contains(*key) ==> r.is_some() && *r.unwrap() == old(
                self,
            ).m()[*key] && final (self).m() == old(self).m().insert(*key, *final (r.unwrap())),
            !old(self).m().dom().contains(*key) ==> r.is_none() && final (self).m() == old(
                self,
            ).m(),
    {
        proof {
            self.lemma_dom();
        }
        match self.map.get_mut(key) {
            Some(p) => {
                let vref = &mut p.0;
                proof {
                    let tfin = old(self).table().insert(
                        *key,
                        (*final (vref), (old(self).table()[*key]).1),
                    );
                    assert forall|k: K| #[trigger] tfin.dom().contains(k) implies 0 <= (
                    tfin[k]).1.pos() < old(self).key_seq().len() && old(self).key_seq()[(
                    tfin[k]).1.pos()] == k by {
                        if k != *key {
                            assert(tfin[k] == old(self).table()[k]);
                        }
                    }
                    assert(Map::new(
                        |k: K| tfin.dom().contains(k),
                        |k: K| tfin[k].0,
                    ) =~= old(self).m().insert(*key, *final (vref)));
                }
                Some(vref)
            },
            None => {
                None
            },
        }
    }

    /// The key the comparator favors over every other present key, or
    /// `None` if the container is empty.
    fn peek(&self) -> (r: Option<&K>)
        requires
            self.wf(),
        ensures
            match r {
                Some(k) => self.m().dom().contains(*k) && forall|o: K|
                    self.m().dom().contains(o) && o != *k ==> C::favors_spec(*k, o),
                None => self.m().dom().len() == 0,
            },
    {
        proof {
            broadcast use vstd::seq_lib::lemma_seq_contains;

            self.lemma_dom();
            if self.key_seq().len() == 0 {
                assert(self.table().dom() =~= Set::<K>::empty());
            }
        }
        let r = self.heap.peek();
        proof {
            if r is Some {
                let k = self.key_seq()[0];
                assert(self.key_seq().contains(k));
                assert forall|o: K| self.m().dom().contains(o) && o != k implies C::favors_spec(
                    k,
                    o,
                ) by {
                    assert(!C::favors_spec(o, k));
                    C::favors_connected(k, o);
                }
            }
        }
        r
    }
}

impl<K: OrderedKey, V> HashedMaxHeap<K, V> {
    /// The largest present key, or `None` if the container is empty.
    pub fn max_key(&self) -> (r: Option<&K>)
        requires
            self.wf(),
        ensures
            match r {
                Some(k) => self.m().dom().contains(*k) && forall|o: K|
                    self.m().dom().contains(o) && o != *k ==> #[trigger] K::lt_spec(o, *k),
                None => self.m().dom().len() == 0,
            },
    {
        let r = self.peek();
        proof {
            match r {
                Some(k) => {
                    assert forall|o: K|
                        self.m().dom().contains(o) && o != *k implies #[trigger] K::lt_spec(
                        o,
                        *k,
                    ) by {
                        assert(<Max::<K> as Comparator<K>>::favors_spec(*k, o));
                    }
                },
                None => {},
            }
        }
        r
    }
}

impl<K: OrderedKey, V> HashedMinHeap<K, V> {
    /// The smallest present key, or `None` if the container is empty.
    pub fn min_key(&self) -> (r: Option<&K>)
        requires
            self.wf(),
        ensures
            match r {
                Some(k) => self.m().dom().contains(*k) && forall|o: K|
                    self.m().dom().contains(o) && o != *k ==> #[trigger] K::lt_spec(*k, o),
                None => self.m().dom().len() == 0,
            },
    {
        let r = self.peek();
        proof {
            match r {
                Some(k) => {
                    assert forall|o: K|
                        self.m().dom().contains(o) && o != *k implies #[trigger] K::lt_spec(
                        *k,
                        o,
                    ) by {
                        assert(<Min::<K> as Comparator<K>>::favors_spec(*k, o));
                    }
                },
                None => {},
            }
        }
        r
    }
}

impl<K: Key, V, C: Comparator<K> + Default> Default for HashedHeap<K, V, C> {
    fn default() -> (r: Self)
        ensures
            r.wf(),
            r.m() == Map::<K, V>::empty(),
    {
        Self::new()
    }
}

impl<K: Key, V, C: Comparator<K>> crate::clear::Clear for HashedHeap<K, V, C> {
    open spec fn clear_req(&self) -> bool {
        true
    }

    open spec fn cleared(&self) -> bool {
        self.wf() && self.m() == Map::<K, V>::empty()
    }

    fn clear(&mut self) {
        self.clear()
    }
}

impl<K: Key, V, C: Comparator<K>> crate::drain::Drain for HashedHeap<K, V, C> {
    type Output = Vec<(K, V)>;

    open spec fn drain_req(&self) -> bool {
        self.wf()
    }

    open spec fn drained(&self) -> bool {
        self.wf() && self.m() == Map::<K, V>::empty()
    }

    open spec fn drains_to(&self, out: Vec<(K, V)>) -> bool {
        crate::kv::distinct_keys(out@) && crate::kv::map_of_pairs(out@) == self.m()
    }

    fn drain(&mut self) -> (r: Vec<(K, V)>) {
        self.drain()
    }
}

impl<K: Key, V, C: Comparator<K> + Default> GenericMap<K, V> for HashedHeap<K, V, C> {
    open spec fn m(&self) -> Map<K, V> {
        HashedHeap::m(self)
    }

    open spec fn wf(&self) -> bool {
        HashedHeap::wf(self)
    }

    proof fn lemma_wf_finite(&self) {
        self.lemma_dom();
    }

    fn empty_map() -> (r: Self) {
        Self::new()
    }

    fn len(&self) -> (r: usize) {
        self.len()
    }

    fn is_empty(&self) -> (r: bool) {
        self.is_empty()
    }

    fn contains_key(&self, key: &K) -> (r: bool) {
        self.contains_key(key)
    }

    fn get<'a>(&'a self, key: &K) -> (r: Option<&'a V>) {
        self.get(key)
    }

    fn get_mut<'a>(&'a mut self, key: &K) -> (r: Option<&'a mut V>) {
        self.get_mut(key)
    }

    fn keys(&self) -> (r: Vec<K>) {
        proof {
            self.lemma_dom();
        }
        self.map.keys()
    }

    fn insert(&mut self, key: K, value: V) -> (r: Option<V>) {
        self.insert(key, value)
    }

    fn remove(&mut self, key: &K) -> (r: Option<V>) {
        self.remove(key)
    }

    fn drain(&mut self) -> (r: Vec<(K, V)>) {
        self.drain()
    }
}

} // verus!
