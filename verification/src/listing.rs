//! Sequences of pairs that stand for a map.

use vstd::prelude::*;

verus! {

/// `entries` holds every pair of `m` exactly once, in some order.
pub open spec fn lists<K, V>(entries: Seq<(K, V)>, m: Map<K, V>) -> bool {
    &&& forall|i: int, j: int|
        0 <= i < j < entries.len() ==> (#[trigger] entries[i]).0 != (#[trigger] entries[j]).0
    &&& forall|i: int|
        0 <= i < entries.len() ==> m.contains_key((#[trigger] entries[i]).0) && m[entries[i].0]
            == entries[i].1
    &&& forall|k: K| #[trigger] m.contains_key(k) ==> entries.contains((k, m[k]))
}

/// The map that results from inserting the pairs of `entries` one after the
/// other: where a key occurs more than once, its last pair stays.
pub open spec fn from_pairs<K, V>(entries: Seq<(K, V)>) -> Map<K, V>
    decreases entries.len(),
{
    if entries.len() == 0 {
        Map::empty()
    } else {
        from_pairs(entries.drop_last()).insert(entries.last().0, entries.last().1)
    }
}

/// A key is in the map exactly if some pair has it.
pub proof fn lemma_from_pairs_keys<K, V>(entries: Seq<(K, V)>, key: K)
    ensures
        from_pairs(entries).contains_key(key) <==> exists|i: int|
            0 <= i < entries.len() && (#[trigger] entries[i]).0 == key,
    decreases entries.len(),
{
    if entries.len() > 0 {
        let rest = entries.drop_last();
        lemma_from_pairs_keys(rest, key);
        if from_pairs(rest).contains_key(key) {
            let i = choose|i: int| 0 <= i < rest.len() && (#[trigger] rest[i]).0 == key;
            assert(entries[i].0 == key);
        }
        if exists|i: int| 0 <= i < entries.len() && (#[trigger] entries[i]).0 == key {
            let i = choose|i: int| 0 <= i < entries.len() && (#[trigger] entries[i]).0 == key;
            if i < rest.len() {
                assert(rest[i].0 == key);
            }
        }
    }
}

/// A pair that no later pair overwrites is in the map: of several pairs with
/// the same key the last one counts.
pub proof fn lemma_last_pair_stays<K, V>(entries: Seq<(K, V)>, i: int)
    requires
        0 <= i < entries.len(),
        forall|j: int| i < j < entries.len() ==> (#[trigger] entries[j]).0 != entries[i].0,
    ensures
        from_pairs(entries).contains_pair(entries[i].0, entries[i].1),
    decreases entries.len(),
{
    if i < entries.len() - 1 {
        lemma_last_pair_stays(entries.drop_last(), i);
        assert(entries.last() == entries[entries.len() - 1]);
    }
}

/// A listing has one pair for each key of the map, the pairs are those of the
/// map, and the keys are all different.
pub proof fn law_listing_is_complete<K, V>(entries: Seq<(K, V)>, m: Map<K, V>)
    requires
        lists(entries, m),
    ensures
        entries.no_duplicates(),
        entries.to_set() == m.kv_pairs(),
        m.dom().finite(),
        entries.len() == m.dom().len(),
        forall|i: int, j: int|
            0 <= i < j < entries.len() ==> (#[trigger] entries[i]).0 != (#[trigger] entries[j]).0,
{
    let keys = entries.map_values(|entry: (K, V)| entry.0);
    assert forall|k: K| keys.to_set().contains(k) <==> m.dom().contains(k) by {
        if keys.contains(k) {
            let i = choose|i: int| 0 <= i < keys.len() && keys[i] == k;
            assert(entries[i].0 == k);
        }
        if m.contains_key(k) {
            let i = choose|i: int| 0 <= i < entries.len() && entries[i] == (k, m[k]);
            assert(keys[i] == k);
        }
    }
    assert(keys.to_set() =~= m.dom());
    assert(keys.no_duplicates()) by {
        assert forall|i: int, j: int|
            0 <= i < keys.len() && 0 <= j < keys.len() && i != j implies keys[i] != keys[j] by {
            assert(entries[i].0 == keys[i] && entries[j].0 == keys[j]);
        }
    }
    keys.unique_seq_to_set();
    vstd::seq_lib::seq_to_set_is_finite(keys);
    assert forall|e: (K, V)| entries.to_set().contains(e) <==> m.kv_pairs().contains(e) by {
        if entries.contains(e) {
            let i = choose|i: int| 0 <= i < entries.len() && entries[i] == e;
            assert(m.contains_key(entries[i].0));
        }
        if m.contains_key(e.0) && m[e.0] == e.1 {
            assert(entries.contains((e.0, m[e.0])));
        }
    }
    assert(entries.to_set() =~= m.kv_pairs());
}

/// Inserting the pairs of a map one after the other gives that map back,
/// whatever their order.
pub proof fn lemma_listing_gives_map_back<K, V>(entries: Seq<(K, V)>, m: Map<K, V>)
    requires
        lists(entries, m),
    ensures
        from_pairs(entries) == m,
{
    assert forall|k: K| from_pairs(entries).contains_key(k) <==> m.contains_key(k) by {
        lemma_from_pairs_keys(entries, k);
        if m.contains_key(k) {
            let i = choose|i: int| 0 <= i < entries.len() && entries[i] == (k, m[k]);
            assert(entries[i].0 == k);
        }
    }
    assert forall|k: K| m.contains_key(k) implies from_pairs(entries)[k] == m[k] by {
        let i = choose|i: int| 0 <= i < entries.len() && entries[i] == (k, m[k]);
        lemma_last_pair_stays(entries, i);
    }
    assert(from_pairs(entries) =~= m);
}

} // verus!
