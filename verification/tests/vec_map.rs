//! Behavior of the plain vector map and the capability traits.

use std::collections::VecDeque;

use generic_map::clear::Clear;
use generic_map::drain::Drain;
use generic_map::vec_map::VecMap;
use generic_map::GenericMap;

#[test]
fn basic_map_contract() {
    let mut m: VecMap<u64, &str> = VecMap::new();
    assert!(m.is_empty());
    assert_eq!(m.insert(1, "a"), None);
    assert_eq!(m.insert(2, "b"), None);
    assert_eq!(m.insert(1, "c"), Some("a"));
    assert_eq!(m.len(), 2);
    assert_eq!(m.get(&1), Some(&"c"));
    assert_eq!(m.get(&3), None);
    assert!(m.contains_key(&2));
    assert_eq!(m.remove(&2), Some("b"));
    assert_eq!(m.remove(&2), None);
    assert_eq!(m.len(), 1);
}

#[test]
fn round_trip_insert_then_drain() {
    let mut m: VecMap<u64, u64> = VecMap::new();
    for (k, v) in [(3, 30), (1, 10), (2, 20)] {
        m.insert(k, v);
    }
    let mut pairs = m.drain();
    pairs.sort();
    assert_eq!(pairs, vec![(1, 10), (2, 20), (3, 30)]);
    assert!(m.is_empty());
    assert!(m.drain().is_empty());
}

#[test]
fn get_mut_writes_through() {
    let mut m: VecMap<u64, u64> = VecMap::new();
    m.insert(4, 40);
    *m.get_mut(&4).unwrap() += 2;
    assert_eq!(m.get(&4), Some(&42));
}

#[test]
fn negative_keys_and_signed_order() {
    let mut m: VecMap<i64, u64> = VecMap::new();
    m.insert(-5, 1);
    m.insert(5, 2);
    assert_eq!(m.get(&-5), Some(&1));
    assert_eq!(m.remove(&-5), Some(1));
    assert_eq!(m.len(), 1);
}

#[test]
fn clear_capability_on_std_collections() {
    let mut v: Vec<u64> = vec![1, 2, 3];
    Clear::clear(&mut v);
    assert!(v.is_empty());

    let mut d: VecDeque<u64> = VecDeque::new();
    d.push_back(1);
    Clear::clear(&mut d);
    assert!(d.is_empty());
}

#[test]
fn drain_capability_moves_contents_out() {
    let mut v: Vec<u64> = vec![1, 2, 3];
    let out = Drain::drain(&mut v);
    assert_eq!(out, vec![1, 2, 3]);
    assert!(v.is_empty());
}

#[test]
fn keys_enumerates_the_domain() {
    let mut m: VecMap<u64, u64> = VecMap::new();
    m.insert(2, 20);
    m.insert(1, 10);
    m.insert(3, 30);
    m.remove(&1);
    let mut ks = m.keys();
    ks.sort();
    assert_eq!(ks, vec![2, 3]);
}
