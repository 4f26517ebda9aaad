//! Behavior of the hashed heap: by-key access plus priority extraction.

use generic_map::hashed_heap::indexed_heap::IndexedHeap;
use generic_map::hashed_heap::comparator::{Comparator, Max, Min};
use generic_map::{Entry, GenericMap, HashedMaxHeap, HashedMinHeap};

#[test]
fn insert_get_replace() {
    let mut h: HashedMaxHeap<u64, &str> = HashedMaxHeap::new();
    assert_eq!(h.insert(1, "one"), None);
    assert_eq!(h.insert(2, "two"), None);
    assert_eq!(h.get(&1), Some(&"one"));
    assert_eq!(h.insert(1, "uno"), Some("one"));
    assert_eq!(h.get(&1), Some(&"uno"));
    assert_eq!(h.len(), 2);
    assert!(h.contains_key(&2));
    assert!(!h.contains_key(&3));
}

#[test]
fn max_key_follows_inserts_and_removes() {
    let mut h: HashedMaxHeap<u64, u64> = HashedMaxHeap::new();
    assert_eq!(h.max_key(), None);
    h.insert(4, 0);
    assert_eq!(h.max_key(), Some(&4));
    h.insert(9, 0);
    assert_eq!(h.max_key(), Some(&9));
    h.insert(6, 0);
    assert_eq!(h.max_key(), Some(&9));
    h.remove(&9);
    assert_eq!(h.max_key(), Some(&6));
    h.remove(&6);
    assert_eq!(h.max_key(), Some(&4));
    h.remove(&4);
    assert_eq!(h.max_key(), None);
}

#[test]
fn min_key_follows_inserts_and_removes() {
    let mut h: HashedMinHeap<i64, u64> = HashedMinHeap::new();
    h.insert(-3, 0);
    h.insert(7, 0);
    h.insert(0, 0);
    assert_eq!(h.min_key(), Some(&-3));
    h.remove(&-3);
    assert_eq!(h.min_key(), Some(&0));
}

#[test]
fn removing_roots_yields_keys_in_favored_order() {
    // the multiset that comes back out is the multiset that went in,
    // sorted by the comparator
    let inserted = [31u64, 4, 15, 92, 65, 35, 8, 97, 93, 23];
    let mut h: HashedMaxHeap<u64, u64> = HashedMaxHeap::new();
    for k in inserted {
        h.insert(k, k * 10);
    }
    let mut extracted: Vec<u64> = Vec::new();
    while let Some(&k) = h.max_key() {
        assert_eq!(h.remove(&k), Some(k * 10));
        extracted.push(k);
    }
    let mut expected = inserted.to_vec();
    expected.sort();
    expected.reverse();
    assert_eq!(extracted, expected);
    assert!(h.is_empty());
}

#[test]
fn remove_missing_key_is_none() {
    let mut h: HashedMaxHeap<u64, u64> = HashedMaxHeap::new();
    h.insert(1, 10);
    assert_eq!(h.remove(&2), None);
    assert_eq!(h.len(), 1);
    assert_eq!(h.remove(&1), Some(10));
    assert_eq!(h.remove(&1), None);
}

#[test]
fn drain_yields_everything_and_twice_is_empty() {
    let mut h: HashedMinHeap<u64, u64> = HashedMinHeap::new();
    h.insert(2, 20);
    h.insert(1, 10);
    h.insert(3, 30);
    let mut pairs = h.drain();
    pairs.sort();
    assert_eq!(pairs, vec![(1, 10), (2, 20), (3, 30)]);
    assert!(h.is_empty());
    assert!(h.drain().is_empty());
    // the container is usable afterward
    h.insert(5, 50);
    assert_eq!(h.min_key(), Some(&5));
}

#[test]
fn clear_empties_table_and_heap() {
    let mut h: HashedMaxHeap<u64, u64> = HashedMaxHeap::new();
    h.insert(1, 1);
    h.insert(2, 2);
    h.clear();
    assert!(h.is_empty());
    assert_eq!(h.max_key(), None);
}

#[test]
fn get_mut_updates_value_without_moving_key() {
    let mut h: HashedMaxHeap<u64, u64> = HashedMaxHeap::new();
    h.insert(1, 10);
    h.insert(5, 50);
    if let Some(v) = h.get_mut(&1) {
        *v = 11;
    } else {
        panic!("key should be present");
    }
    assert_eq!(h.get(&1), Some(&11));
    assert_eq!(h.max_key(), Some(&5));
    assert_eq!(h.get_mut(&9), None);
}

#[test]
fn entry_paths_match_direct_operations() {
    let mut h: HashedMaxHeap<u64, u64> = HashedMaxHeap::new();
    match h.entry(3) {
        Entry::Vacant(v) => {
            assert_eq!(v.key(), &3);
            v.insert(&mut h, 30);
        },
        Entry::Occupied(_) => panic!("key should be vacant"),
    }
    assert_eq!(h.get(&3), Some(&30));
    match h.entry(3) {
        Entry::Occupied(o) => {
            assert_eq!(o.get(&h), &30);
            assert_eq!(o.insert(&mut h, 31), 30);
            let v = o.get_mut(&mut h);
            *v = 32;
            assert_eq!(o.remove(&mut h), 32);
        },
        Entry::Vacant(_) => panic!("key should be occupied"),
    }
    assert!(h.is_empty());
}

#[test]
fn indexed_heap_orders_by_comparator() {
    let mut heap: IndexedHeap<u64, Max<u64>> = IndexedHeap::new();
    assert_eq!(heap.peek(), None);
    let (_, moved) = heap.insert(3);
    assert!(moved.is_empty());
    heap.insert(7);
    heap.insert(5);
    assert_eq!(heap.peek(), Some(&7));
    assert_eq!(heap.size(), 3);
    heap.clear();
    assert_eq!(heap.peek(), None);
}

#[test]
fn indexed_heap_remove_reports_relocations() {
    let mut heap: IndexedHeap<u64, Min<u64>> = IndexedHeap::new();
    let (root_index, _) = heap.insert(1);
    heap.insert(4);
    heap.insert(2);
    heap.insert(8);
    assert_eq!(heap.peek(), Some(&1));
    let (removed, moved) = heap.remove(root_index);
    assert_eq!(removed, 1);
    // the reported positions hold exactly the elements that moved
    for ix in &moved {
        let _occupant: &u64 = heap.at(*ix);
    }
    assert_eq!(heap.peek(), Some(&2));
}

#[test]
fn comparator_favored_picks_the_winner() {
    let max: Max<u64> = Default::default();
    let min: Min<u64> = Default::default();
    assert_eq!(max.favored(&3, &9), &9);
    assert_eq!(max.favored(&9, &3), &9);
    assert_eq!(min.favored(&3, &9), &3);
    assert!(max.favors(&9, &3));
    assert!(!max.favors(&3, &9));
    assert!(min.favors(&3, &9));
}

#[test]
fn interleaved_operations_keep_lookups_and_max_consistent() {
    // a deterministic op sequence, checked after every step against a
    // plain association-list model
    let mut h: HashedMaxHeap<u64, u64> = HashedMaxHeap::new();
    let mut model: Vec<(u64, u64)> = Vec::new();
    let mut state: u64 = 0x2545_f491_4f6c_dd1d;
    for step in 0..200u64 {
        state = state.wrapping_mul(6364136223846793005).wrapping_add(1442695040888963407);
        let key = (state >> 33) % 16;
        let do_insert = (state >> 7) % 3 != 0;
        if do_insert {
            let expected = model.iter().find(|p| p.0 == key).map(|p| p.1);
            assert_eq!(h.insert(key, step), expected);
            model.retain(|p| p.0 != key);
            model.push((key, step));
        } else {
            let expected = model.iter().find(|p| p.0 == key).map(|p| p.1);
            assert_eq!(h.remove(&key), expected);
            model.retain(|p| p.0 != key);
        }
        assert_eq!(h.len(), model.len());
        for probe in 0..16u64 {
            let expected = model.iter().find(|p| p.0 == probe).map(|p| &p.1);
            assert_eq!(h.get(&probe), expected);
        }
        let expected_max = model.iter().map(|p| p.0).max();
        assert_eq!(h.max_key().copied(), expected_max);
    }
}

#[test]
fn generic_map_trait_view_of_hashed_heap() {
    fn exercise<M: GenericMap<u64, u64>>(mut m: M) -> (usize, Option<u64>) {
        m.insert(1, 10);
        m.insert(2, 20);
        let prior = m.insert(2, 21);
        (m.len(), prior)
    }
    let h: HashedMaxHeap<u64, u64> = HashedMaxHeap::new();
    assert_eq!(exercise(h), (2, Some(20)));
}
