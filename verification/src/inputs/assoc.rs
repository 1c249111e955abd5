//! Lists of key and value pairs with no key twice, read as maps.

use vstd::prelude::*;

verus! {

/// No key stands in two entries.
pub open spec fn distinct_keys<K, V>(entries: Seq<(K, V)>) -> bool {
    forall|i: int, j: int|
        0 <= i < j < entries.len() ==> (#[trigger] entries[i]).0 != (#[trigger] entries[j]).0
}

/// Some entry has the key.
pub open spec fn has_key<K, V>(entries: Seq<(K, V)>, key: K) -> bool {
    exists|i: int| 0 <= i < entries.len() && (#[trigger] entries[i]).0 == key
}

/// The place of an entry with the key, where there is one.
pub open spec fn place_of<K, V>(entries: Seq<(K, V)>, key: K) -> int {
    choose|i: int| 0 <= i < entries.len() && (#[trigger] entries[i]).0 == key
}

/// The map that takes each key of `entries` to the value beside it.
pub open spec fn as_map<K, V>(entries: Seq<(K, V)>) -> Map<K, V> {
    Map::new(|k: K| has_key(entries, k), |k: K| entries[place_of(entries, k)].1)
}

/// An entry's key is mapped to that entry's value.
pub proof fn lemma_entry<K, V>(entries: Seq<(K, V)>, i: int)
    requires
        distinct_keys(entries),
        0 <= i < entries.len(),
    ensures
        as_map(entries).contains_key(entries[i].0),
        as_map(entries)[entries[i].0] == entries[i].1,
{
    let key = entries[i].0;
    assert(has_key(entries, key));
    let j = place_of(entries, key);
    assert(0 <= j < entries.len() && entries[j].0 == key);
    assert(j == i);
}

/// A key that no entry has is not mapped.
pub proof fn lemma_absent<K, V>(entries: Seq<(K, V)>, key: K)
    requires
        forall|i: int| 0 <= i < entries.len() ==> (#[trigger] entries[i]).0 != key,
    ensures
        !as_map(entries).contains_key(key),
{
}

/// Appending an entry under a new key inserts it into the map.
pub proof fn lemma_push<K, V>(entries: Seq<(K, V)>, key: K, value: V)
    requires
        distinct_keys(entries),
        !has_key(entries, key),
    ensures
        distinct_keys(entries.push((key, value))),
        as_map(entries.push((key, value))) == as_map(entries).insert(key, value),
{
    let longer = entries.push((key, value));
    assert(distinct_keys(longer)) by {
        assert forall|i: int, j: int| 0 <= i < j < longer.len() implies (#[trigger] longer[i]).0
            != (#[trigger] longer[j]).0 by {
            if j < entries.len() {
                assert(longer[i] == entries[i] && longer[j] == entries[j]);
            } else {
                assert(longer[i] == entries[i]);
            }
        }
    }
    assert forall|k: K| #[trigger] as_map(longer).contains_key(k) <==> (k == key || as_map(
        entries,
    ).contains_key(k)) by {
        if has_key(longer, k) {
            let i = place_of(longer, k);
            if i < entries.len() {
                assert(entries[i].0 == k);
            }
        }
        if k == key {
            assert(longer[entries.len() as int].0 == k);
        }
        if has_key(entries, k) {
            let i = place_of(entries, k);
            assert(longer[i].0 == k);
        }
    }
    assert forall|k: K| #[trigger] as_map(longer).contains_key(k) implies as_map(longer)[k]
        == as_map(entries).insert(key, value)[k] by {
        let i = place_of(longer, k);
        lemma_entry(longer, i);
        if i < entries.len() {
            assert(longer[i] == entries[i]);
            lemma_entry(entries, i);
        }
    }
    assert(as_map(longer) =~= as_map(entries).insert(key, value));
}

/// Replacing the value of an entry replaces it in the map.
pub proof fn lemma_update<K, V>(entries: Seq<(K, V)>, i: int, value: V)
    requires
        distinct_keys(entries),
        0 <= i < entries.len(),
    ensures
        distinct_keys(entries.update(i, (entries[i].0, value))),
        as_map(entries.update(i, (entries[i].0, value))) == as_map(entries).insert(
            entries[i].0,
            value,
        ),
{
    let key = entries[i].0;
    let changed = entries.update(i, (key, value));
    assert forall|j: int| 0 <= j < entries.len() implies (#[trigger] changed[j]).0 == entries[j].0 by {}
    assert(distinct_keys(changed)) by {
        assert forall|a: int, b: int| 0 <= a < b < changed.len() implies (#[trigger] changed[a]).0
            != (#[trigger] changed[b]).0 by {
            assert(entries[a].0 != entries[b].0);
        }
    }
    assert forall|k: K| #[trigger] as_map(changed).contains_key(k) <==> as_map(entries).insert(
        key,
        value,
    ).contains_key(k) by {
        if has_key(changed, k) {
            let j = place_of(changed, k);
            assert(entries[j].0 == k);
        }
        if has_key(entries, k) {
            let j = place_of(entries, k);
            assert(changed[j].0 == k);
        }
        if k == key {
            assert(changed[i].0 == k);
        }
    }
    assert forall|k: K| #[trigger] as_map(changed).contains_key(k) implies as_map(changed)[k]
        == as_map(entries).insert(key, value)[k] by {
        let j = place_of(changed, k);
        lemma_entry(changed, j);
        if j != i {
            assert(changed[j] == entries[j]);
            lemma_entry(entries, j);
        }
    }
    assert(as_map(changed) =~= as_map(entries).insert(key, value));
}

/// Changing every value by one function, and no key, changes the map's
/// values by that function.
pub proof fn lemma_values_mapped<K, V, W>(
    entries: Seq<(K, V)>,
    mapped: Seq<(K, W)>,
    f: spec_fn(V) -> W,
)
    requires
        distinct_keys(entries),
        mapped.len() == entries.len(),
        forall|i: int|
            0 <= i < entries.len() ==> (#[trigger] mapped[i]).0 == entries[i].0 && mapped[i].1
                == f(entries[i].1),
    ensures
        distinct_keys(mapped),
        as_map(mapped) == as_map(entries).map_values(f),
{
    assert(distinct_keys(mapped)) by {
        assert forall|a: int, b: int| 0 <= a < b < mapped.len() implies (#[trigger] mapped[a]).0
            != (#[trigger] mapped[b]).0 by {
            assert(entries[a].0 != entries[b].0);
        }
    }
    assert forall|k: K| #[trigger] as_map(mapped).contains_key(k) <==> as_map(
        entries,
    ).contains_key(k) by {
        if has_key(mapped, k) {
            let j = place_of(mapped, k);
            assert(entries[j].0 == k);
        }
        if has_key(entries, k) {
            let j = place_of(entries, k);
            assert(mapped[j].0 == k);
        }
    }
    assert forall|k: K| #[trigger] as_map(mapped).contains_key(k) implies as_map(mapped)[k] == f(
        as_map(entries)[k],
    ) by {
        let j = place_of(mapped, k);
        lemma_entry(mapped, j);
        lemma_entry(entries, j);
    }
    assert(as_map(mapped) =~= as_map(entries).map_values(f));
}

} // verus!
