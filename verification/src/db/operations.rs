//! What the tables hold after each operation, entry by entry.

use vstd::prelude::*;
use super::composite_view::{firsts, rows_of_s, rows_of_u, seconds, valued, with_all_new, with_new};
use super::view::{enumerates_pairs, grouped, in_range, keys_with, with_pairs};
use super::ztable::{
    inserted, inserted_all, removed, removed_times, weight_of, Weight, ZTable,
};
use crate::multimap::bucket;
use crate::order::{Element, SortedMap};

verus! {

/// The keys with a value are those that are mapped to it, and the groups are
/// the keys of every value that occurs.
pub proof fn law_keys_are_grouped_by_value<K, V>(map: Map<K, V>, key: K, value: V)
    ensures
        keys_with(map, value).contains(key) <==> map.contains_key(key) && map[key] == value,
        map.contains_key(key) ==> grouped(map).contains_key(map[key]) && grouped(
            map,
        )[map[key]].contains(key),
        grouped(map).contains_key(value) ==> grouped(map)[value] == keys_with(map, value)
            && exists|k: K| #[trigger] map.contains_key(k) && map[k] == value,
{
}

/// The pairs of a table are its entries, each of them once, by value and, where
/// the values are equal, by key.
pub proof fn law_pairs_are_the_entries_by_value<Key: Element, Value: Element>(
    pairs: Seq<(Value::V, Key::V)>,
    map: Map<Key::V, Value::V>,
    i: int,
    j: int,
    key: Key::V,
)
    requires
        enumerates_pairs::<Key, Value>(pairs, map),
    ensures
        0 <= i < pairs.len() ==> map.contains_key(pairs[i].1) && map[pairs[i].1] == pairs[i].0,
        map.contains_key(key) ==> pairs.contains((map[key], key)),
        0 <= i < j < pairs.len() ==> Value::precedes(pairs[i].0, pairs[j].0) || (pairs[i].0
            == pairs[j].0 && Key::precedes(pairs[i].1, pairs[j].1)),
{
    if 0 <= i < j < pairs.len() {
        assert(crate::order::ordered::<(Value, Key)>(pairs));
        crate::order::operations::law_lists_are_ascending_and_complete::<(Value, Key)>(
            pairs,
            Set::empty(),
            i,
            j,
            pairs[i],
        );
    }
}

/// A range holds its start and what comes after it, up to but not with its end.
pub proof fn law_ranges_are_half_open<Value: Element>(
    range: std::ops::Range<Value>,
    value: Value::V,
)
    ensures
        in_range(range, value) ==> value == range.start@ || Value::precedes(range.start@, value),
        in_range(range, value) ==> Value::precedes(value, range.end@) && value != range.end@,
        Value::precedes(range.start@, value) && Value::precedes(value, range.end@) ==> in_range(
            range,
            value,
        ),
        Value::precedes(range.start@, range.end@) ==> in_range(range, range.start@),
        !in_range(range, range.end@),
{
    Value::order_is_total(value, range.start@, range.end@);
    Value::order_is_total(range.start@, value, range.start@);
    Value::order_is_total(range.end@, range.end@, range.end@);
    Value::order_is_total(range.start@, range.start@, range.start@);
}

/// Pairs are put into a table one after another, and a later value replaces an
/// earlier one.
pub proof fn law_later_pairs_replace<K, V>(
    map: Map<K, V>,
    pairs: Seq<(K, V)>,
    key: K,
    value: V,
)
    ensures
        with_pairs(map, Seq::empty()) == map,
        with_pairs(map, pairs.push((key, value))) == with_pairs(map, pairs).insert(key, value),
{
    assert(pairs.push((key, value)).drop_last() =~= pairs);
}

/// New pairs are put into a table one after another, and a key that is there
/// keeps its value.
pub proof fn law_present_keys_keep_their_value<K, V>(
    map: Map<K, V>,
    pairs: Seq<(K, V)>,
    key: K,
    value: V,
)
    ensures
        map.contains_key(key) ==> with_new(map, key, value) == map,
        !map.contains_key(key) ==> with_new(map, key, value) == map.insert(key, value),
        with_all_new(map, Seq::empty()) == map,
        with_all_new(map, pairs).contains_key(key) ==> with_all_new(map, pairs.push((key, value)))
            == with_all_new(map, pairs),
        !with_all_new(map, pairs).contains_key(key) ==> with_all_new(map, pairs.push((key, value)))
            == with_all_new(map, pairs).insert(key, value),
{
    assert(pairs.push((key, value)).drop_last() =~= pairs);
}

/// The second halves beside a first one, the first halves beside a second one,
/// the values beside a first half, and the rows of a half, are read off the
/// entries.
pub proof fn law_halves_are_read_off_the_entries<K, V>(
    map: Map<(K, K), V>,
    first: K,
    second: K,
    value: V,
    key: (K, K),
)
    ensures
        seconds(map, first).contains(second) <==> map.contains_key((first, second)),
        firsts(map, second).contains(first) <==> map.contains_key((first, second)),
        valued(map, first).contains((value, second)) <==> map.contains_key((first, second))
            && map[(first, second)] == value,
        rows_of_s(first).contains(key) <==> key.0 == first,
        rows_of_u(second).contains(key) <==> key.1 == second,
{
}

/// The values of a key in a multimap are those that it is paired with.
pub proof fn law_buckets_are_read_off_the_pairs<A, B>(pairs: Set<(A, B)>, key: A, value: B)
    ensures
        bucket(pairs, key).contains(value) <==> pairs.contains((key, value)),
{
}

/// An insertion raises the weight of its key by one and sets its value; the
/// other keys keep theirs.
pub proof fn law_insertion_adds_one<K, V>(
    table: Map<K, (Weight, V)>,
    key: K,
    value: V,
    other: K,
)
    requires
        table.contains_key(key) ==> table[key].0 < Weight::MAX,
        other != key,
    ensures
        ({
            let after = inserted(table, key, value);
            &&& after.contains_key(key)
            &&& table.contains_key(key) ==> after[key].0 == table[key].0 + 1
            &&& !table.contains_key(key) ==> after[key].0 == 1
            &&& after[key].1 == value
            &&& after.contains_key(other) <==> table.contains_key(other)
            &&& table.contains_key(other) ==> after[other] == table[other]
            &&& weight_of(table, key) == if table.contains_key(key) {
                table[key].0
            } else {
                0
            }
        }),
{
}

/// A removal lowers the weight of its key by one and keeps its value; a key
/// whose weight comes to zero is gone, and one that was not there has the
/// weight minus one. The other keys keep theirs.
pub proof fn law_removal_takes_one<K, V>(
    table: Map<K, (Weight, V)>,
    key: K,
    value: V,
    other: K,
)
    requires
        table.contains_key(key) ==> table[key].0 > Weight::MIN,
        other != key,
    ensures
        ({
            let after = removed(table, key, value);
            &&& table.contains_key(key) && table[key].0 == 1 ==> !after.contains_key(key)
            &&& table.contains_key(key) && table[key].0 != 1 ==> after.contains_key(key)
                && after[key].0 == table[key].0 - 1 && after[key].1 == table[key].1
            &&& !table.contains_key(key) ==> after.contains_key(key) && after[key].0 == -1
                && after[key].1 == value
            &&& after.contains_key(other) <==> table.contains_key(other)
            &&& table.contains_key(other) ==> after[other] == table[other]
        }),
{
}

/// Repeated insertions and removals are done one after another.
pub proof fn law_repeated_changes_are_done_in_turn<K, V>(
    table: Map<K, (Weight, V)>,
    key: K,
    values: Seq<V>,
    value: V,
    times: nat,
)
    ensures
        inserted_all(table, key, Seq::empty()) == table,
        inserted_all(table, key, values.push(value)) == inserted(
            inserted_all(table, key, values),
            key,
            value,
        ),
        removed_times(table, key, value, 0) == table,
        removed_times(table, key, value, times + 1) == removed_times(
            removed(table, key, value),
            key,
            value,
            times,
        ),
{
    assert(values.push(value).drop_last() =~= values);
}

/// A fold over the shards of a table visits each of them once, in their order,
/// and hands on what came of the one before.
pub proof fn law_shards_are_folded_in_turn<
    K: Element,
    V,
    ShardOutput,
    Output,
    MapShard: Fn(usize, &SortedMap<K, (Weight, V)>) -> ShardOutput,
    Reduce: Fn(Output, ShardOutput) -> Output,
>(
    table: &ZTable<K, V>,
    map_shard: MapShard,
    reduce: Reduce,
    outputs: Seq<Output>,
    n: nat,
    k: int,
)
    requires
        table.is_fold(map_shard, reduce, outputs, n),
        0 <= k < n,
    ensures
        outputs.len() == n + 1,
        exists|shard: SortedMap<K, (Weight, V)>, part: ShardOutput|
            shard.wf() && shard@ == table.shard_view(k) && #[trigger] call_ensures(
                map_shard,
                (k as usize, &shard),
                part,
            ) && #[trigger] call_ensures(reduce, (outputs[k], part), outputs[k + 1]),
{
    assert(table.is_step(map_shard, reduce, outputs[k], k, outputs[k + 1]));
}

} // verus!
