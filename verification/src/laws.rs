//! Properties that relate the operations of a tree to one another.
//!
//! Each proof function states one property over the spec functions that the
//! operations' contracts use, for every input that meets its `requires`.
use vstd::prelude::*;

use crate::iter::after_start;
use crate::iter::before_end;
use crate::iter::bounded_run;
use crate::iter::Bound;
use crate::key::bytes_less;
use crate::key::group_key_order;
use crate::key::OrderedKey;
use crate::model::entry_map;
use crate::node::absent;
use crate::node::inserted_at;
use crate::node::removed_at;
use crate::node::replaced_at;
use crate::node::sorted;

verus! {

broadcast use group_key_order;

/// A read after a write gives back the written value, and every other key
/// keeps what it had.
pub proof fn lemma_read_after_write<KV, V>(
    before: Seq<(KV, V)>,
    after: Seq<(KV, V)>,
    key: KV,
    value: V,
    other: KV,
)
    requires
        entry_map(after) == entry_map(before).insert(key, value),
        other != key,
    ensures
        entry_map(after).get(key) == Some(value),
        entry_map(after).get(other) == entry_map(before).get(other),
{
}

/// A read after a removal finds nothing for the removed key, and every other
/// key keeps what it had.
pub proof fn lemma_read_after_remove<KV, V>(
    before: Seq<(KV, V)>,
    after: Seq<(KV, V)>,
    key: KV,
    other: KV,
)
    requires
        entry_map(after) == entry_map(before).remove(key),
        other != key,
    ensures
        entry_map(after).get(key) is None,
        entry_map(after).get(other) == entry_map(before).get(other),
{
}

/// Inserting a new key adds one entry; replacing a value keeps the count;
/// removing a key takes one entry away.
pub proof fn lemma_entry_counts<K: OrderedKey, V>(
    before: Seq<(K::V, V)>,
    after: Seq<(K::V, V)>,
    key: K::V,
    value: V,
    index: int,
)
    ensures
        inserted_at::<K, V>(before, after, key, value, index) ==> after.len() == before.len() + 1,
        replaced_at::<K, V>(before, after, key, value, index) ==> after.len() == before.len(),
        removed_at::<K, V>(before, after, key, index) ==> after.len() + 1 == before.len(),
{
}

/// Removing a key that was just inserted gives back the entries as they were.
pub proof fn lemma_remove_undoes_insert<K: OrderedKey, V>(
    before: Seq<(K::V, V)>,
    middle: Seq<(K::V, V)>,
    after: Seq<(K::V, V)>,
    key: K::V,
    value: V,
    inserted: int,
    removed: int,
)
    requires
        inserted_at::<K, V>(before, middle, key, value, inserted),
        removed_at::<K, V>(middle, after, key, removed),
    ensures
        after == before,
{
    if removed < inserted {
        assert(middle[removed] == before[removed]);
    } else if removed > inserted {
        assert(middle[removed] == before[removed - 1]);
    }
    assert(after =~= before);
}

/// Inserting a key with the value that was just removed with it gives back
/// the entries as they were.
pub proof fn lemma_insert_undoes_remove<K: OrderedKey, V>(
    before: Seq<(K::V, V)>,
    middle: Seq<(K::V, V)>,
    after: Seq<(K::V, V)>,
    key: K::V,
    removed: int,
    inserted: int,
)
    requires
        sorted::<K, V>(before),
        removed_at::<K, V>(before, middle, key, removed),
        inserted_at::<K, V>(middle, after, key, before[removed].1, inserted),
    ensures
        after == before,
{
    if inserted < removed {
        assert(middle[inserted] == before[inserted]);
        assert(K::less(before[inserted].0, before[removed].0));
    } else if inserted > removed {
        assert(middle[inserted - 1] == before[inserted]);
        assert(K::less(before[removed].0, before[inserted].0));
    }
    assert(after =~= before);
}

/// Writing a key's own value over it changes nothing.
pub proof fn lemma_rewrite_is_identity<K: OrderedKey, V>(
    before: Seq<(K::V, V)>,
    after: Seq<(K::V, V)>,
    key: K::V,
    index: int,
)
    requires
        replaced_at::<K, V>(before, after, key, before[index].1, index),
    ensures
        after == before,
{
    assert(after =~= before);
}

/// Of pairs inserted in turn, the last pair for a key decides its value.
pub proof fn lemma_last_value_wins<KV, V>(before: Seq<(KV, V)>, pairs: Seq<(KV, V)>, i: int)
    requires
        0 <= i < pairs.len(),
        forall|j: int| i < j < pairs.len() ==> (#[trigger] pairs[j]).0 != pairs[i].0,
    ensures
        entry_map(before + pairs).get(pairs[i].0) == Some(pairs[i].1),
    decreases pairs.len(),
{
    let all = before + pairs;
    if i == pairs.len() - 1 {
        assert(all.last() == pairs[i]);
    } else {
        let shorter = pairs.drop_last();
        assert forall|j: int| i < j < shorter.len() implies (#[trigger] shorter[j]).0 != shorter[i].0 by {
            assert(shorter[j] == pairs[j]);
        }
        lemma_last_value_wins(before, shorter, i);
        assert(all.drop_last() =~= before + shorter);
        assert(all.last() == pairs[pairs.len() - 1]);
    }
}

/// The first entry of a sorted run holds the least key and the last entry
/// the greatest, which is what `first_key_value`, `pop_first`,
/// `last_key_value` and `pop_last` return.
pub proof fn lemma_ends_are_extremes<K: OrderedKey, V>(s: Seq<(K::V, V)>)
    requires
        sorted::<K, V>(s),
        s.len() > 0,
    ensures
        forall|i: int| 0 < i < s.len() ==> K::less(s[0].0, #[trigger] s[i].0),
        forall|i: int| 0 <= i < s.len() - 1 ==> K::less(#[trigger] s[i].0, s[s.len() - 1].0),
{
}

/// Unbounded on both sides, a range holds every entry.
pub proof fn lemma_full_range<K: OrderedKey, V>(run: Seq<(K::V, V)>, all: Seq<(K::V, V)>)
    requires
        bounded_run::<K, V>(run, all, Bound::Unbounded, Bound::Unbounded),
    ensures
        run == all,
{
    let (low, high) = choose|low: int, high: int|
        #![trigger all.subrange(low, high)]
        0 <= low <= high <= all.len() && run == all.subrange(low, high) && forall|i: int|
            #![trigger all[i]]
            0 <= i < all.len() ==> ((low <= i < high) <==> (after_start::<K>(
                all[i].0,
                Bound::Unbounded,
            ) && before_end::<K>(all[i].0, Bound::Unbounded)));
    if all.len() > 0 {
        assert(after_start::<K>(all[0].0, Bound::Unbounded));
        assert(after_start::<K>(all[all.len() - 1].0, Bound::Unbounded));
    }
    assert(run =~= all);
}

/// Equal included bounds describe one possible key: the range holds its
/// entry when the tree has it, and nothing otherwise.
pub proof fn lemma_single_key_range<K: OrderedKey, V>(
    run: Seq<(K::V, V)>,
    all: Seq<(K::V, V)>,
    key: K,
)
    requires
        sorted::<K, V>(all),
        bounded_run::<K, V>(run, all, Bound::Included(key), Bound::Included(key)),
    ensures
        run.len() <= 1,
        forall|i: int| 0 <= i < run.len() ==> (#[trigger] run[i]).0 == key@,
        run.len() == 0 <==> absent::<K, V>(all, key@),
{
    let start = Bound::Included(key);
    let end = Bound::Included(key);
    let (low, high) = choose|low: int, high: int|
        #![trigger all.subrange(low, high)]
        0 <= low <= high <= all.len() && run == all.subrange(low, high) && forall|i: int|
            #![trigger all[i]]
            0 <= i < all.len() ==> ((low <= i < high) <==> (after_start::<K>(all[i].0, start)
                && before_end::<K>(all[i].0, end)));
    assert forall|i: int| low <= i < high implies #[trigger] all[i].0 == key@ by {
        assert(after_start::<K>(all[i].0, start) && before_end::<K>(all[i].0, end));
        K::lemma_less_total(all[i].0, key@);
    }
    if high - low > 1 {
        assert(all[low].0 == key@ && all[low + 1].0 == key@);
        assert(K::less(all[low].0, all[low + 1].0));
    }
    assert forall|i: int| 0 <= i < run.len() implies (#[trigger] run[i]).0 == key@ by {
        assert(run[i] == all[low + i]);
    }
    if run.len() == 0 {
        assert forall|i: int| 0 <= i < all.len() implies #[trigger] all[i].0 != key@ by {
            if all[i].0 == key@ {
                assert(after_start::<K>(all[i].0, start) && before_end::<K>(all[i].0, end));
            }
        }
    } else {
        assert(all[low].0 == key@);
    }
}

/// For `u64` keys the key order is numeric order.
pub proof fn lemma_u64_order_is_numeric(a: u64, b: u64)
    ensures
        <u64 as OrderedKey>::less(a, b) <==> a < b,
{
}

/// The entries of a tree with `u64` keys run in strictly increasing numeric
/// order of their keys, so the first holds the smallest key.
pub proof fn lemma_u64_entries_ascend<V>(s: Seq<(u64, V)>)
    requires
        sorted::<u64, V>(s),
    ensures
        forall|i: int, j: int| 0 <= i < j < s.len() ==> #[trigger] s[i].0 < #[trigger] s[j].0,
{
    assert forall|i: int, j: int| 0 <= i < j < s.len() implies #[trigger] s[i].0 < #[trigger] s[j].0 by {
        lemma_u64_order_is_numeric(s[i].0, s[j].0);
    }
}

/// Byte strings sort lexicographically, bytes compared by value: `a` sorts
/// before `b` exactly when, at the first place where they differ, `a` holds
/// the smaller byte, or when `a` is a proper prefix of `b`.
pub proof fn lemma_bytes_order_is_lexicographic(a: Seq<u8>, b: Seq<u8>)
    ensures
        bytes_less(a, b) <==> (exists|i: int|
            0 <= i < a.len() && i < b.len() && a.take(i) == b.take(i) && #[trigger] a[i] < b[i])
            || (a.len() < b.len() && b.take(a.len() as int) == a),
    decreases a.len(),
{
    if a.len() == 0 {
        assert(b.take(0) =~= a);
    } else if b.len() == 0 {
    } else if a[0] < b[0] {
        assert(a.take(0) =~= b.take(0));
    } else if a[0] > b[0] {
        if exists|i: int| 0 <= i < a.len() && i < b.len() && a.take(i) == b.take(i) && #[trigger] a[i] < b[i] {
            let i = choose|i: int|
                0 <= i < a.len() && i < b.len() && a.take(i) == b.take(i) && #[trigger] a[i] < b[i];
            if i > 0 {
                assert(a.take(i)[0] == b.take(i)[0]);
            }
        }
        if a.len() < b.len() && b.take(a.len() as int) == a {
            assert(b.take(a.len() as int)[0] == a[0]);
        }
    } else {
        let ta = a.drop_first();
        let tb = b.drop_first();
        lemma_bytes_order_is_lexicographic(ta, tb);
        if exists|i: int| 0 <= i < ta.len() && i < tb.len() && ta.take(i) == tb.take(i) && #[trigger] ta[i] < tb[i] {
            let i = choose|i: int|
                0 <= i < ta.len() && i < tb.len() && ta.take(i) == tb.take(i) && #[trigger] ta[i] < tb[i];
            assert(a.take(i + 1) =~= seq![a[0]] + ta.take(i));
            assert(b.take(i + 1) =~= seq![b[0]] + tb.take(i));
            assert(a[i + 1] == ta[i] && b[i + 1] == tb[i]);
        }
        if exists|i: int| 0 <= i < a.len() && i < b.len() && a.take(i) == b.take(i) && #[trigger] a[i] < b[i] {
            let i = choose|i: int|
                0 <= i < a.len() && i < b.len() && a.take(i) == b.take(i) && #[trigger] a[i] < b[i];
            assert(i > 0);
            assert(ta.take(i - 1) =~= a.take(i).drop_first());
            assert(tb.take(i - 1) =~= b.take(i).drop_first());
            assert(ta[i - 1] == a[i] && tb[i - 1] == b[i]);
        }
        if ta.len() < tb.len() && tb.take(ta.len() as int) == ta {
            assert(b.take(a.len() as int) =~= seq![b[0]] + tb.take(ta.len() as int));
            assert(a =~= seq![a[0]] + ta);
        }
        if a.len() < b.len() && b.take(a.len() as int) == a {
            assert(tb.take(ta.len() as int) =~= b.take(a.len() as int).drop_first());
        }
    }
}

/// A single byte sorts before another exactly when its value is smaller.
pub proof fn lemma_single_bytes_order(x: u8, y: u8)
    ensures
        bytes_less(seq![x], seq![y]) <==> x < y,
{
    reveal_with_fuel(bytes_less, 2);
    assert(seq![x].drop_first() =~= Seq::<u8>::empty());
    assert(seq![y].drop_first() =~= Seq::<u8>::empty());
}

/// For `String` keys the key order is that of their UTF-8 bytes, sorted
/// lexicographically with bytes compared by value.
pub proof fn lemma_string_order_is_bytewise(a: Seq<char>, b: Seq<char>)
    ensures
        <String as OrderedKey>::less(a, b) <==> {
            let x = vstd::utf8::encode_utf8(a);
            let y = vstd::utf8::encode_utf8(b);
            (exists|i: int| 0 <= i < x.len() && i < y.len() && x.take(i) == y.take(i) && #[trigger] x[i] < y[i])
                || (x.len() < y.len() && y.take(x.len() as int) == x)
        },
{
    lemma_bytes_order_is_lexicographic(vstd::utf8::encode_utf8(a), vstd::utf8::encode_utf8(b));
}

} // verus!
