//! The values of a finite map, counted.

use vstd::prelude::*;
use vstd::multiset::Multiset;

verus! {

/// The values of a finite map as a multiset: each value as often as a key maps to it.
pub open spec fn values_of<K, V>(map: Map<K, V>) -> Multiset<V>
    recommends
        map.dom().finite(),
    decreases map.dom().len(),
    when map.dom().finite()
{
    if map.dom().len() == 0 {
        Multiset::empty()
    } else {
        let key = map.dom().choose();
        values_of(map.remove(key)).insert(map[key])
    }
}

/// `after` has every key of `before` but `except`, with the same value.
pub open spec fn keeps<K, V>(before: Map<K, V>, after: Map<K, V>, except: K) -> bool {
    forall|key: K| #[trigger]
        before.contains_key(key) && key != except ==> after.contains_key(key) && after[key]
            == before[key]
}

/// A map without keys has no values.
pub proof fn lemma_values_empty<K, V>()
    ensures
        values_of(Map::<K, V>::empty()) == Multiset::<V>::empty(),
{
}

/// Whichever key is set aside, the values are those of the rest and the value under that key.
pub proof fn lemma_values_remove<K, V>(map: Map<K, V>, key: K)
    requires
        map.dom().finite(),
        map.contains_key(key),
    ensures
        values_of(map) == values_of(map.remove(key)).insert(map[key]),
    decreases map.dom().len(),
{
    let chosen = map.dom().choose();
    if chosen != key {
        lemma_values_remove(map.remove(chosen), key);
        lemma_values_remove(map.remove(key), chosen);
        assert(map.remove(chosen).remove(key) == map.remove(key).remove(chosen));
        assert(values_of(map.remove(key).remove(chosen)).insert(map[chosen]).insert(map[key])
            == values_of(map.remove(key).remove(chosen)).insert(map[key]).insert(map[chosen]));
    }
}

/// A new key adds its value.
pub proof fn lemma_values_insert<K, V>(map: Map<K, V>, key: K, value: V)
    requires
        map.dom().finite(),
        !map.contains_key(key),
    ensures
        values_of(map.insert(key, value)) == values_of(map).insert(value),
{
    lemma_values_remove(map.insert(key, value), key);
    assert(map.insert(key, value).remove(key) == map);
}

/// A new value under a key that is there already takes the place of the old one.
pub proof fn lemma_values_replace<K, V>(map: Map<K, V>, key: K, value: V)
    requires
        map.dom().finite(),
        map.contains_key(key),
    ensures
        values_of(map).contains(map[key]),
        values_of(map.insert(key, value)) == values_of(map).remove(map[key]).insert(value),
{
    lemma_values_remove(map, key);
    lemma_values_remove(map.insert(key, value), key);
    assert(map.insert(key, value).remove(key) == map.remove(key));
    assert(values_of(map.remove(key)).insert(map[key]).remove(map[key]) == values_of(
        map.remove(key),
    ));
}

/// Every value in the multiset stands under some key.
pub proof fn lemma_values_key<K, V>(map: Map<K, V>, value: V) -> (key: K)
    requires
        map.dom().finite(),
        values_of(map).contains(value),
    ensures
        map.contains_key(key),
        map[key] == value,
    decreases map.dom().len(),
{
    let chosen = map.dom().choose();
    if map[chosen] == value {
        chosen
    } else {
        lemma_values_key(map.remove(chosen), value)
    }
}

} // verus!
