//! The map that a run of entries stands for.
//!
//! A tree's entries form a sorted run of key views and values; as a map, each
//! key stands for its value. Runs that may repeat a key (the pairs handed to
//! `BTree::extend`) stand for the map in which each key keeps its last value.
use vstd::prelude::*;

use crate::key::group_key_order;
use crate::key::OrderedKey;
use crate::node::absent;
use crate::node::inserted_at;
use crate::node::removed_at;
use crate::node::replaced_at;
use crate::node::sorted;
use crate::node::value_updated;

verus! {

broadcast use group_key_order;

/// The map from keys to values that a run of entries stands for; where a key
/// occurs more than once, its last value wins.
pub open spec fn entry_map<KV, V>(s: Seq<(KV, V)>) -> Map<KV, V>
    decreases s.len(),
{
    if s.len() == 0 {
        Map::empty()
    } else {
        entry_map(s.drop_last()).insert(s.last().0, s.last().1)
    }
}

/// A sorted run stands for the map that holds exactly its keys, each with
/// its value.
pub proof fn lemma_entry_map_sorted<K: OrderedKey, V>(s: Seq<(K::V, V)>)
    requires
        sorted::<K, V>(s),
    ensures
        forall|i: int|
            #![trigger s[i]]
            0 <= i < s.len() ==> entry_map(s).contains_key(s[i].0) && entry_map(s)[s[i].0] == s[i].1,
        forall|key: K::V|
            #[trigger] entry_map(s).contains_key(key) ==> exists|i: int|
                0 <= i < s.len() && #[trigger] s[i].0 == key,
    decreases s.len(),
{
    if s.len() > 0 {
        let prefix = s.drop_last();
        let last = s.last();
        assert forall|i: int, j: int|
            #![trigger prefix[i], prefix[j]]
            0 <= i < j < prefix.len() implies K::less(prefix[i].0, prefix[j].0) by {
            assert(prefix[i] == s[i] && prefix[j] == s[j]);
        }
        lemma_entry_map_sorted::<K, V>(prefix);
        assert forall|i: int| #![trigger s[i]] 0 <= i < s.len() implies entry_map(s).contains_key(
            s[i].0,
        ) && entry_map(s)[s[i].0] == s[i].1 by {
            if i < s.len() - 1 {
                assert(prefix[i] == s[i]);
                assert(K::less(s[i].0, s[s.len() - 1].0));
            }
        }
        assert forall|key: K::V| #[trigger] entry_map(s).contains_key(key) implies exists|i: int|
            0 <= i < s.len() && #[trigger] s[i].0 == key by {
            if key == last.0 {
                assert(s[s.len() - 1].0 == key);
            } else {
                assert(entry_map(s) == entry_map(prefix).insert(last.0, last.1));
                assert(entry_map(prefix).contains_key(key));
                let i = choose|i: int| 0 <= i < prefix.len() && #[trigger] prefix[i].0 == key;
                assert(s[i] == prefix[i]);
                assert(s[i].0 == key);
            }
        }
    }
}

/// A sorted run without `key` stands for a map without it.
pub proof fn lemma_entry_map_absent<K: OrderedKey, V>(s: Seq<(K::V, V)>, key: K::V)
    requires
        sorted::<K, V>(s),
        absent::<K, V>(s, key),
    ensures
        !entry_map(s).contains_key(key),
{
    lemma_entry_map_sorted::<K, V>(s);
}

/// Placing `(key, value)` into a sorted run, as a new entry or over the
/// entry for `key`, inserts it into the map.
pub proof fn lemma_entry_map_inserted<K: OrderedKey, V>(
    old: Seq<(K::V, V)>,
    new: Seq<(K::V, V)>,
    key: K::V,
    value: V,
    index: int,
)
    requires
        sorted::<K, V>(old),
        sorted::<K, V>(new),
        inserted_at::<K, V>(old, new, key, value, index) || replaced_at::<K, V>(
            old,
            new,
            key,
            value,
            index,
        ),
    ensures
        entry_map(new) == entry_map(old).insert(key, value),
{
    lemma_entry_map_sorted::<K, V>(old);
    lemma_entry_map_sorted::<K, V>(new);
    let expected = entry_map(old).insert(key, value);
    let added = inserted_at::<K, V>(old, new, key, value, index);
    assert(new[index] == (key, value));
    assert forall|k: K::V| entry_map(new).contains_key(k) implies expected.contains_key(k)
        && entry_map(new)[k] == expected[k] by {
        let j = choose|j: int| 0 <= j < new.len() && #[trigger] new[j].0 == k;
        if j != index {
            let i = if added && j > index {
                j - 1
            } else {
                j
            };
            assert(new[j] == old[i]);
            assert(K::less(new[j].0, new[index].0) || K::less(new[index].0, new[j].0));
        }
    }
    assert forall|k: K::V| expected.contains_key(k) implies #[trigger] entry_map(new).contains_key(
        k,
    ) by {
        if k != key {
            let i = choose|i: int| 0 <= i < old.len() && #[trigger] old[i].0 == k;
            let j = if added && i >= index {
                i + 1
            } else {
                i
            };
            assert(new[j] == old[i]);
        }
    }
    assert(entry_map(new) =~= expected);
}

/// Giving the entry at `index` of a sorted run a new value maps its key to
/// that value, whatever the value.
pub proof fn lemma_entry_map_value_updated<K: OrderedKey, V>(s: Seq<(K::V, V)>, index: int)
    requires
        sorted::<K, V>(s),
        0 <= index < s.len(),
    ensures
        forall|value: V|
            #[trigger] entry_map(value_updated::<K, V>(s, index, value)) == entry_map(s).insert(
                s[index].0,
                value,
            ),
{
    assert forall|value: V|
        #[trigger] entry_map(value_updated::<K, V>(s, index, value)) == entry_map(s).insert(
            s[index].0,
            value,
        ) by {
        let updated = value_updated::<K, V>(s, index, value);
        assert forall|i: int, j: int|
            #![trigger updated[i], updated[j]]
            0 <= i < j < updated.len() implies K::less(updated[i].0, updated[j].0) by {
            assert(updated[i].0 == s[i].0 && updated[j].0 == s[j].0);
        }
        lemma_entry_map_inserted::<K, V>(s, updated, s[index].0, value, index);
    }
}

/// Taking the entry for `key` out of a sorted run removes the key from the map.
pub proof fn lemma_entry_map_removed<K: OrderedKey, V>(
    old: Seq<(K::V, V)>,
    new: Seq<(K::V, V)>,
    key: K::V,
    index: int,
)
    requires
        sorted::<K, V>(old),
        sorted::<K, V>(new),
        removed_at::<K, V>(old, new, key, index),
    ensures
        entry_map(new) == entry_map(old).remove(key),
{
    lemma_entry_map_sorted::<K, V>(old);
    lemma_entry_map_sorted::<K, V>(new);
    let expected = entry_map(old).remove(key);
    assert forall|k: K::V| entry_map(new).contains_key(k) implies expected.contains_key(k)
        && entry_map(new)[k] == expected[k] by {
        let j = choose|j: int| 0 <= j < new.len() && #[trigger] new[j].0 == k;
        let i = if j >= index {
            j + 1
        } else {
            j
        };
        assert(new[j] == old[i]);
        assert(K::less(old[i].0, old[index].0) || K::less(old[index].0, old[i].0));
    }
    assert forall|k: K::V| expected.contains_key(k) implies #[trigger] entry_map(new).contains_key(
        k,
    ) by {
        let i = choose|i: int| 0 <= i < old.len() && #[trigger] old[i].0 == k;
        let j = if i > index {
            i - 1
        } else {
            i
        };
        assert(i != index);
        assert(new[j] == old[i]);
    }
    assert(entry_map(new) =~= expected);
}

} // verus!
