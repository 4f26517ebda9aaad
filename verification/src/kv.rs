//! Spec-level association between key and value sequences.
//!
//! Several containers in this crate store their entries as a sequence of
//! keys with a parallel sequence of values (or as a sequence of pairs).
//! `kv_map` and `map_of_pairs` give such storage its meaning as a
//! mathematical `Map`, and the lemmas here relate the sequence operations
//! the executable code performs (push, update, swap-remove) to `Map`
//! operations.

use vstd::prelude::*;

verus! {

/// The map described by a sequence of keys and a parallel sequence of
/// values: `keys[i]` maps to `vals[i]`.
pub open spec fn kv_map<K, V>(keys: Seq<K>, vals: Seq<V>) -> Map<K, V>
    decreases keys.len(),
{
    if keys.len() == 0 {
        Map::empty()
    } else {
        kv_map(keys.drop_last(), vals.drop_last()).insert(keys.last(), vals.last())
    }
}

/// The domain of `kv_map` is exactly the set of keys, and it is finite.
pub proof fn lemma_kv_map_dom<K, V>(keys: Seq<K>, vals: Seq<V>)
    requires
        keys.len() == vals.len(),
    ensures
        kv_map(keys, vals).dom().finite(),
        forall|k: K| kv_map(keys, vals).dom().contains(k) <==> keys.contains(k),
    decreases keys.len(),
{
    broadcast use vstd::seq_lib::lemma_seq_contains;

    if keys.len() == 0 {
        assert(forall|k: K| !keys.contains(k));
    } else {
        let dl = keys.drop_last();
        let dlv = vals.drop_last();
        lemma_kv_map_dom(dl, dlv);
        assert(kv_map(keys, vals) == kv_map(dl, dlv).insert(keys.last(), vals.last()));
        assert forall|k: K| kv_map(keys, vals).dom().contains(k) implies keys.contains(k) by {
            if k == keys.last() {
                assert(keys[keys.len() - 1] == k);
            } else {
                assert(kv_map(dl, dlv).dom().contains(k));
                assert(dl.contains(k));
                let i = choose|i: int| 0 <= i < dl.len() && dl[i] == k;
                assert(keys[i] == k);
            }
        }
        assert forall|k: K| keys.contains(k) implies kv_map(keys, vals).dom().contains(k) by {
            let i = choose|i: int| 0 <= i < keys.len() && keys[i] == k;
            if i < keys.len() - 1 {
                assert(dl[i] == k);
                assert(dl.contains(k));
            }
        }
    }
}

/// With distinct keys, `kv_map` sends each key to the value at its position.
pub proof fn lemma_kv_map_index<K, V>(keys: Seq<K>, vals: Seq<V>, i: int)
    requires
        keys.len() == vals.len(),
        keys.no_duplicates(),
        0 <= i < keys.len(),
    ensures
        kv_map(keys, vals).dom().contains(keys[i]),
        kv_map(keys, vals)[keys[i]] == vals[i],
    decreases keys.len(),
{
    lemma_kv_map_dom(keys, vals);
    if i == keys.len() - 1 {
    } else {
        assert(keys.drop_last().no_duplicates());
        lemma_kv_map_index(keys.drop_last(), vals.drop_last(), i);
        assert(keys[i] != keys.last());
    }
}

/// With distinct keys, the map has one entry per key.
pub proof fn lemma_kv_map_len<K, V>(keys: Seq<K>, vals: Seq<V>)
    requires
        keys.len() == vals.len(),
        keys.no_duplicates(),
    ensures
        kv_map(keys, vals).dom().len() == keys.len(),
    decreases keys.len(),
{
    lemma_kv_map_dom(keys, vals);
    if keys.len() == 0 {
        assert(kv_map(keys, vals).dom() =~= Set::<K>::empty());
    } else {
        let sub_keys = keys.drop_last();
        let sub_vals = vals.drop_last();
        assert(sub_keys.no_duplicates());
        lemma_kv_map_len(sub_keys, sub_vals);
        lemma_kv_map_dom(sub_keys, sub_vals);
        assert(!sub_keys.contains(keys.last())) by {
            if sub_keys.contains(keys.last()) {
                let i = choose|i: int|
                    0 <= i < sub_keys.len() && sub_keys[i] == keys.last();
                assert(keys[i] == keys[keys.len() - 1]);
            }
        }
        assert(kv_map(keys, vals).dom() =~= kv_map(sub_keys, sub_vals).dom().insert(
            keys.last(),
        ));
        vstd::set::axiom_set_insert_len(kv_map(sub_keys, sub_vals).dom(), keys.last());
    }
}

/// Appending a pair inserts it into the map.
pub proof fn lemma_kv_map_push<K, V>(keys: Seq<K>, vals: Seq<V>, k: K, v: V)
    requires
        keys.len() == vals.len(),
    ensures
        kv_map(keys.push(k), vals.push(v)) == kv_map(keys, vals).insert(k, v),
{
    assert(keys.push(k).drop_last() =~= keys);
    assert(vals.push(v).drop_last() =~= vals);
}

/// With distinct keys, updating the value at a key's position updates the
/// map at that key.
pub proof fn lemma_kv_map_update_val<K, V>(keys: Seq<K>, vals: Seq<V>, i: int, v: V)
    requires
        keys.len() == vals.len(),
        keys.no_duplicates(),
        0 <= i < keys.len(),
    ensures
        kv_map(keys, vals.update(i, v)) =~= kv_map(keys, vals).insert(keys[i], v),
    decreases keys.len(),
{
    let updated = vals.update(i, v);
    if i == keys.len() - 1 {
        assert(updated.drop_last() =~= vals.drop_last());
        assert(updated.last() == v);
    } else {
        assert(keys.drop_last().no_duplicates());
        assert(updated.drop_last() =~= vals.drop_last().update(i, v));
        lemma_kv_map_update_val(keys.drop_last(), vals.drop_last(), i, v);
        assert(keys[i] != keys.last());
        assert(updated.last() == vals.last());
    }
}

/// Swap-removing position `i` from both sequences removes `keys[i]` from
/// the map and keeps the remaining keys distinct.
pub proof fn lemma_kv_map_swap_remove<K, V>(keys: Seq<K>, vals: Seq<V>, i: int)
    requires
        keys.len() == vals.len(),
        keys.no_duplicates(),
        0 <= i < keys.len(),
    ensures
        keys.update(i, keys.last()).drop_last().no_duplicates(),
        kv_map(keys.update(i, keys.last()).drop_last(), vals.update(i, vals.last()).drop_last())
            =~= kv_map(keys, vals).remove(keys[i]),
{
    broadcast use vstd::seq_lib::lemma_seq_contains;

    let n = keys.len();
    let rkeys = keys.update(i, keys.last()).drop_last();
    let rvals = vals.update(i, vals.last()).drop_last();
    assert forall|a: int, b: int|
        0 <= a < rkeys.len() && 0 <= b < rkeys.len() && a != b implies #[trigger] rkeys[a]
        != #[trigger] rkeys[b] by {
        assert(rkeys[a] == if a == i { keys[n - 1] } else { keys[a] });
        assert(rkeys[b] == if b == i { keys[n - 1] } else { keys[b] });
    }
    assert(rkeys.no_duplicates());
    lemma_kv_map_dom(keys, vals);
    lemma_kv_map_dom(rkeys, rvals);
    assert forall|k: K|
        kv_map(rkeys, rvals).dom().contains(k)
            <==> kv_map(keys, vals).remove(keys[i]).dom().contains(k) by {
        if kv_map(rkeys, rvals).dom().contains(k) {
            assert(rkeys.contains(k));
            let a = choose|a: int| 0 <= a < rkeys.len() && rkeys[a] == k;
            assert(0 <= a < rkeys.len() && rkeys[a] == k);
            assert(rkeys[a] == keys.update(i, keys.last())[a]);
            if a == i {
                assert(keys[n - 1] == k);
            } else {
                assert(keys[a] == k);
            }
            assert(k != keys[i]);
            assert(keys.contains(k));
            assert(kv_map(keys, vals).dom().contains(k));
            assert(kv_map(keys, vals).remove(keys[i]).dom().contains(k));
        }
        if kv_map(keys, vals).remove(keys[i]).dom().contains(k) {
            assert(kv_map(keys, vals).dom().contains(k));
            assert(keys.contains(k));
            assert(k != keys[i]);
            let a = choose|a: int| 0 <= a < n && keys[a] == k;
            if a == n - 1 {
                assert(i < n - 1);
                assert(rkeys[i] == k);
            } else {
                assert(rkeys[a] == k);
            }
            assert(rkeys.contains(k));
            assert(kv_map(rkeys, rvals).dom().contains(k));
        }
    }
    assert forall|k: K| kv_map(rkeys, rvals).dom().contains(k) implies kv_map(rkeys, rvals)[k]
        == kv_map(keys, vals)[k] by {
        assert(rkeys.contains(k));
        let a = choose|a: int| 0 <= a < rkeys.len() && rkeys[a] == k;
        assert(0 <= a < rkeys.len() && rkeys[a] == k);
        lemma_kv_map_index(rkeys, rvals, a);
        assert(rkeys[a] == keys.update(i, keys.last())[a]);
        assert(rvals[a] == vals.update(i, vals.last())[a]);
        if a == i {
            lemma_kv_map_index(keys, vals, n - 1);
        } else {
            lemma_kv_map_index(keys, vals, a);
        }
    }
}

/// The key of each pair.
pub open spec fn pair_keys<K, V>(s: Seq<(K, V)>) -> Seq<K> {
    s.map_values(|p: (K, V)| p.0)
}

/// The value of each pair.
pub open spec fn pair_vals<K, V>(s: Seq<(K, V)>) -> Seq<V> {
    s.map_values(|p: (K, V)| p.1)
}

/// No key occurs in two pairs.
pub open spec fn distinct_keys<K, V>(s: Seq<(K, V)>) -> bool {
    pair_keys(s).no_duplicates()
}

/// The map described by a sequence of pairs.
pub open spec fn map_of_pairs<K, V>(s: Seq<(K, V)>) -> Map<K, V> {
    kv_map(pair_keys(s), pair_vals(s))
}

/// Inserting each pair in turn, starting from `m`.
pub open spec fn insert_all<K, V>(m: Map<K, V>, s: Seq<(K, V)>) -> Map<K, V>
    decreases s.len(),
{
    if s.len() == 0 {
        m
    } else {
        insert_all(m, s.drop_last()).insert(s.last().0, s.last().1)
    }
}

/// Round trip: inserting a sequence of pairs into the empty map yields
/// exactly the map those pairs describe, whatever their order.
pub proof fn lemma_insert_all_round_trip<K, V>(s: Seq<(K, V)>)
    ensures
        insert_all(Map::<K, V>::empty(), s) == map_of_pairs(s),
    decreases s.len(),
{
    if s.len() == 0 {
    } else {
        lemma_insert_all_round_trip(s.drop_last());
        assert(pair_keys(s).drop_last() =~= pair_keys(s.drop_last()));
        assert(pair_vals(s).drop_last() =~= pair_vals(s.drop_last()));
        assert(pair_keys(s).last() == s.last().0);
        assert(pair_vals(s).last() == s.last().1);
    }
}

/// With distinct keys, a pair occurs in the sequence exactly when the map
/// the sequence describes sends its key to its value.
pub proof fn lemma_map_of_pairs_contains<K, V>(s: Seq<(K, V)>, k: K, v: V)
    requires
        distinct_keys(s),
    ensures
        s.contains((k, v)) <==> (map_of_pairs(s).dom().contains(k) && map_of_pairs(s)[k] == v),
{
    broadcast use vstd::seq_lib::lemma_seq_contains;

    lemma_kv_map_dom(pair_keys(s), pair_vals(s));
    if s.contains((k, v)) {
        let i = choose|i: int| 0 <= i < s.len() && s[i] == (k, v);
        assert(pair_keys(s)[i] == k);
        assert(pair_vals(s)[i] == v);
        lemma_kv_map_index(pair_keys(s), pair_vals(s), i);
    }
    if map_of_pairs(s).dom().contains(k) && map_of_pairs(s)[k] == v {
        assert(pair_keys(s).contains(k));
        let i = choose|i: int| 0 <= i < pair_keys(s).len() && pair_keys(s)[i] == k;
        lemma_kv_map_index(pair_keys(s), pair_vals(s), i);
        assert(s[i] == (k, v));
    }
}

/// Concatenated pair sequences describe the combined map, with the later
/// sequence winning on shared keys.
pub proof fn lemma_map_of_pairs_append<K, V>(a: Seq<(K, V)>, b: Seq<(K, V)>)
    ensures
        map_of_pairs(a + b) == map_of_pairs(a).union_prefer_right(map_of_pairs(b)),
    decreases b.len(),
{
    if b.len() == 0 {
        assert(a + b =~= a);
        assert(pair_keys(b).len() == 0);
        assert(map_of_pairs(a).union_prefer_right(map_of_pairs(b)) =~= map_of_pairs(a));
    } else {
        lemma_map_of_pairs_append(a, b.drop_last());
        let ab = a + b;
        assert(ab.len() > 0);
        assert(ab.drop_last() =~= a + b.drop_last());
        assert(pair_keys(ab).drop_last() =~= pair_keys(a + b.drop_last()));
        assert(pair_vals(ab).drop_last() =~= pair_vals(a + b.drop_last()));
        assert(pair_keys(ab).last() == b.last().0);
        assert(pair_vals(ab).last() == b.last().1);
        assert(pair_keys(b).drop_last() =~= pair_keys(b.drop_last()));
        assert(pair_vals(b).drop_last() =~= pair_vals(b.drop_last()));
        assert(pair_keys(b).last() == b.last().0);
        assert(pair_vals(b).last() == b.last().1);
        assert(map_of_pairs(ab) == map_of_pairs(a + b.drop_last()).insert(
            b.last().0,
            b.last().1,
        ));
        assert(map_of_pairs(b) == map_of_pairs(b.drop_last()).insert(b.last().0, b.last().1));
        assert(map_of_pairs(a).union_prefer_right(map_of_pairs(b.drop_last())).insert(
            b.last().0,
            b.last().1,
        ) =~= map_of_pairs(a).union_prefer_right(map_of_pairs(b)));
    }
}

/// Appending a fresh key keeps the key sequence free of duplicates.
pub proof fn lemma_push_no_duplicates<K>(keys: Seq<K>, k: K)
    requires
        keys.no_duplicates(),
        !keys.contains(k),
    ensures
        keys.push(k).no_duplicates(),
{
    broadcast use vstd::seq_lib::lemma_seq_contains;

    let p = keys.push(k);
    assert forall|a: int, b: int|
        0 <= a < p.len() && 0 <= b < p.len() && a != b implies #[trigger] p[a] != #[trigger] p[b] by {
        if a < keys.len() && b < keys.len() {
        } else if a == keys.len() {
            assert(p[b] == keys[b]);
        } else {
            assert(p[a] == keys[a]);
        }
    }
}

} // verus!
