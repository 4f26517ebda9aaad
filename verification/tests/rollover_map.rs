//! Behavior of the rollover map: inline storage, promotion, demotion,
//! and the unified entry handle.

use generic_map::rollover_map::{RolloverHashedMaxHeap, RolloverHashedMinHeap, RolloverVecMap};
use generic_map::{DrainOrRemove, Entry, GenericMap, RolloverMap};

#[test]
fn insert_then_get_returns_inserted_value() {
    let mut m: RolloverVecMap<u64, u64, 2> = RolloverVecMap::new();
    assert_eq!(m.insert(1, 10), None);
    assert_eq!(m.get(&1), Some(&10));
    assert_eq!(m.insert(1, 11), Some(10));
    assert_eq!(m.get(&1), Some(&11));
}

#[test]
fn promotion_at_capacity_and_demotion_on_shrink() {
    // capacity two: the third distinct key forces promotion
    let mut m: RolloverVecMap<u64, u64, 2> = RolloverVecMap::new();
    assert_eq!(m.insert(1, 1), None);
    assert_eq!(m.insert(2, 2), None);
    assert_eq!(m.inline_len(), 2);
    assert_eq!(m.insert(3, 3), None);
    assert_eq!(m.len(), 3);
    assert_eq!(m.inline_len(), 0);
    assert_eq!(m.get(&1), Some(&1));
    assert_eq!(m.get(&2), Some(&2));
    assert_eq!(m.get(&3), Some(&3));
    // removing back down to two forces demotion
    assert_eq!(m.remove(&1), Some(1));
    assert_eq!(m.len(), 2);
    assert_eq!(m.inline_len(), 2);
    assert_eq!(m.get(&2), Some(&2));
    assert_eq!(m.get(&3), Some(&3));
    assert_eq!(m.get(&1), None);
}

#[test]
fn remove_missing_key_has_no_effect() {
    let mut m: RolloverVecMap<u64, u64, 1> = RolloverVecMap::new();
    assert_eq!(m.remove(&7), None);
    m.insert(7, 70);
    assert_eq!(m.remove(&8), None);
    assert_eq!(m.len(), 1);
    assert_eq!(m.get(&7), Some(&70));
}

#[test]
fn single_slot_default_capacity_fast_path() {
    let mut m: RolloverVecMap<u64, u64, 1> = RolloverVecMap::new();
    m.insert(5, 50);
    assert_eq!(m.inline_len(), 1);
    m.insert(6, 60);
    assert_eq!(m.inline_len(), 0);
    assert_eq!(m.len(), 2);
    m.remove(&5);
    assert_eq!(m.inline_len(), 1);
    assert_eq!(m.get(&6), Some(&60));
}

#[test]
fn zero_capacity_always_spills() {
    let mut m: RolloverVecMap<u64, u64, 0> = RolloverVecMap::new();
    m.insert(1, 1);
    assert_eq!(m.inline_len(), 0);
    assert_eq!(m.len(), 1);
    assert_eq!(m.remove(&1), Some(1));
    assert_eq!(m.len(), 0);
}

#[test]
fn entry_vacant_insert_matches_direct_insert() {
    let mut direct: RolloverVecMap<u64, u64, 2> = RolloverVecMap::new();
    direct.insert(4, 40);

    let mut via_entry: RolloverVecMap<u64, u64, 2> = RolloverVecMap::new();
    match via_entry.entry(4) {
        Entry::Vacant(v) => {
            assert_eq!(v.key(), &4);
            v.insert(&mut via_entry, 40);
        },
        Entry::Occupied(_) => panic!("key should be vacant"),
    }
    assert_eq!(via_entry.get(&4), direct.get(&4));
    assert_eq!(via_entry.len(), direct.len());
}

#[test]
fn entry_vacant_insert_promotes_when_full() {
    let mut m: RolloverVecMap<u64, u64, 2> = RolloverVecMap::new();
    m.insert(1, 1);
    m.insert(2, 2);
    match m.entry(3) {
        Entry::Vacant(v) => v.insert(&mut m, 3),
        Entry::Occupied(_) => panic!("key should be vacant"),
    }
    assert_eq!(m.len(), 3);
    assert_eq!(m.inline_len(), 0);
    assert_eq!(m.get(&3), Some(&3));
}

#[test]
fn entry_occupied_matches_direct_operations() {
    let mut m: RolloverVecMap<u64, u64, 2> = RolloverVecMap::new();
    m.insert(9, 90);
    match m.entry(9) {
        Entry::Occupied(o) => {
            assert_eq!(o.key(), &9);
            assert_eq!(o.get(&m), &90);
            assert_eq!(o.insert(&mut m, 91), 90);
            assert_eq!(o.get(&m), &91);
            assert_eq!(o.remove(&mut m), 91);
        },
        Entry::Vacant(_) => panic!("key should be occupied"),
    }
    assert_eq!(m.len(), 0);
}

#[test]
fn entry_occupied_remove_demotes() {
    let mut m: RolloverVecMap<u64, u64, 2> = RolloverVecMap::new();
    m.insert(1, 1);
    m.insert(2, 2);
    m.insert(3, 3);
    assert_eq!(m.inline_len(), 0);
    match m.entry(2) {
        Entry::Occupied(o) => {
            assert_eq!(o.remove(&mut m), 2);
        },
        Entry::Vacant(_) => panic!("key should be occupied"),
    }
    assert_eq!(m.len(), 2);
    assert_eq!(m.inline_len(), 2);
}

#[test]
fn get_mut_updates_in_place() {
    let mut m: RolloverVecMap<u64, u64, 1> = RolloverVecMap::new();
    m.insert(1, 10);
    m.insert(2, 20);
    if let Some(v) = m.get_mut(&2) {
        *v = 21;
    } else {
        panic!("key should be present");
    }
    assert_eq!(m.get(&2), Some(&21));
    assert_eq!(m.get_mut(&3), None);
}

#[test]
fn drain_yields_all_entries_and_empties() {
    let mut m: RolloverVecMap<u64, u64, 2> = RolloverVecMap::new();
    m.insert(1, 10);
    m.insert(2, 20);
    m.insert(3, 30);
    let mut pairs = m.drain();
    pairs.sort();
    assert_eq!(pairs, vec![(1, 10), (2, 20), (3, 30)]);
    assert!(m.is_empty());
    // draining twice in a row yields empty the second time
    let again = m.drain();
    assert!(again.is_empty());
    assert!(m.is_empty());
}

#[test]
fn drain_inline_mode() {
    let mut m: RolloverVecMap<u64, u64, 4> = RolloverVecMap::new();
    m.insert(8, 80);
    m.insert(9, 90);
    let mut pairs = m.drain();
    pairs.sort();
    assert_eq!(pairs, vec![(8, 80), (9, 90)]);
    assert_eq!(m.len(), 0);
}

#[test]
fn clear_empties_both_representations() {
    let mut inline_mode: RolloverVecMap<u64, u64, 2> = RolloverVecMap::new();
    inline_mode.insert(1, 1);
    inline_mode.clear();
    assert!(inline_mode.is_empty());

    let mut spilled: RolloverVecMap<u64, u64, 1> = RolloverVecMap::new();
    spilled.insert(1, 1);
    spilled.insert(2, 2);
    spilled.clear();
    assert!(spilled.is_empty());
    assert_eq!(spilled.get(&1), None);
}

#[test]
fn extend_inserts_every_pair() {
    let mut m: RolloverVecMap<u64, u64, 2> = RolloverVecMap::new();
    m.extend(vec![(1, 1), (2, 2), (3, 3), (2, 20)]);
    assert_eq!(m.len(), 3);
    assert_eq!(m.get(&2), Some(&20));
}

#[test]
fn remove_clearable_reports_presence() {
    let mut m: RolloverVecMap<u64, Vec<u64>, 1> = RolloverVecMap::new();
    m.insert(1, vec![1, 2, 3]);
    assert!(m.remove_clearable(&1));
    assert!(!m.remove_clearable(&1));
    assert!(m.is_empty());
}

#[test]
fn drain_or_remove_drains_inline_and_removes_spilled() {
    let mut m: RolloverVecMap<u64, Vec<u64>, 1> = RolloverVecMap::new();
    m.insert(1, vec![10, 11]);
    match m.drain_or_remove(&1) {
        Some(DrainOrRemove::Drained(contents)) => assert_eq!(contents, vec![10, 11]),
        _ => panic!("an inline value should be drained"),
    }
    assert!(m.is_empty());

    m.insert(1, vec![1]);
    m.insert(2, vec![2]);
    m.insert(3, vec![3]);
    match m.drain_or_remove(&2) {
        Some(DrainOrRemove::Removed(v)) => assert_eq!(v, vec![2]),
        _ => panic!("a spilled value should be removed whole"),
    }
    assert_eq!(m.drain_or_remove(&9).is_none(), true);
}

#[test]
fn rollover_hashed_max_heap_tracks_max_across_modes() {
    let mut m: RolloverHashedMaxHeap<u64, u64, 2> = RolloverMap::new();
    assert_eq!(m.max_key(), None);
    m.insert(5, 50);
    m.insert(3, 30);
    assert_eq!(m.max_key(), Some(&5));
    m.insert(8, 80);
    // spilled now
    assert_eq!(m.inline_len(), 0);
    assert_eq!(m.max_key(), Some(&8));
    m.remove(&8);
    // demoted back inline
    assert_eq!(m.inline_len(), 2);
    assert_eq!(m.max_key(), Some(&5));
}

#[test]
fn generic_map_trait_view_of_rollover_map() {
    fn exercise<M: GenericMap<u64, u64>>(mut m: M) -> usize {
        m.insert(1, 1);
        m.insert(2, 2);
        m.remove(&1);
        m.len()
    }
    let m: RolloverVecMap<u64, u64, 2> = RolloverVecMap::new();
    assert_eq!(exercise(m), 1);
}

#[test]
fn keys_enumerates_both_representations() {
    let mut m: RolloverVecMap<u64, u64, 2> = RolloverVecMap::new();
    m.insert(1, 1);
    m.insert(2, 2);
    let mut inline_keys = GenericMap::keys(&m);
    inline_keys.sort();
    assert_eq!(inline_keys, vec![1, 2]);
    m.insert(3, 3);
    let mut spilled_keys = GenericMap::keys(&m);
    spilled_keys.sort();
    assert_eq!(spilled_keys, vec![1, 2, 3]);
}

#[test]
fn rollover_hashed_min_heap_tracks_min_across_modes() {
    let mut m: RolloverHashedMinHeap<i64, u64, 1> = RolloverMap::new();
    assert_eq!(m.min_key(), None);
    m.insert(4, 40);
    assert_eq!(m.min_key(), Some(&4));
    m.insert(-2, 20);
    assert_eq!(m.inline_len(), 0);
    assert_eq!(m.min_key(), Some(&-2));
    m.remove(&-2);
    assert_eq!(m.min_key(), Some(&4));
}
