//! A map that can be asked by key and by value.

use vstd::prelude::*;
use vstd::view::View as _;
use crate::order::{lemma_ordered_is_unique, ordered, Element, SortedMap, SortedSet};

verus! {

/// A View supporting range queries for the values and point queries (and
/// efficient inserts) for the keys.
#[derive(Debug, Clone, PartialEq)]
pub struct View<Key, Value> {
    // Maps a Key to a Value.
    key_to_value: SortedMap<Key, Value>,
    // Maps a Value to the set of its Keys, maintaining order on Values.
    value_to_keys: SortedMap<Value, SortedSet<Key>>,
}

impl<Key: Element, Value: Element> vstd::view::View for View<Key, Value> {
    type V = Map<Key::V, Value::V>;

    closed spec fn view(&self) -> Map<Key::V, Value::V> {
        self.key_to_value@.map_values(|value: Value| value@)
    }
}

/// The keys that a map gives `value`.
pub open spec fn keys_with<K, V>(map: Map<K, V>, value: V) -> Set<K> {
    Set::new(|key: K| map.contains_key(key) && map[key] == value)
}

/// A map turned round: for each value its keys.
pub open spec fn grouped<K, V>(map: Map<K, V>) -> Map<V, Set<K>> {
    Map::new(
        |value: V| exists|key: K| #[trigger] map.contains_key(key) && map[key] == value,
        |value: V| keys_with(map, value),
    )
}

/// An index without `key` under `value`.
spec fn unlinked<K, V>(index: Map<V, Set<K>>, value: V, key: K) -> Map<V, Set<K>> {
    if index[value].remove(key) == Set::<K>::empty() {
        index.remove(value)
    } else {
        index.insert(value, index[value].remove(key))
    }
}

/// An index with `key` under `value`.
spec fn linked<K, V>(index: Map<V, Set<K>>, value: V, key: K) -> Map<V, Set<K>> {
    index.insert(
        value,
        if index.contains_key(value) {
            index[value].insert(key)
        } else {
            Set::<K>::empty().insert(key)
        },
    )
}

/// The index after a key was dropped.
proof fn lemma_unlinked<K, V>(map: Map<K, V>, key: K)
    requires
        map.contains_key(key),
    ensures
        grouped(map).contains_key(map[key]),
        grouped(map.remove(key)) == unlinked(grouped(map), map[key], key),
{
    let value = map[key];
    let rest = map.remove(key);
    assert forall|v: V| v != value implies keys_with(rest, v) == keys_with(map, v) by {
        assert(keys_with(rest, v) =~= keys_with(map, v));
    }
    assert(keys_with(rest, value) =~= keys_with(map, value).remove(key));
    assert forall|v: V| grouped(rest).contains_key(v) <==> keys_with(rest, v) != Set::<
        K,
    >::empty() by {
        lemma_grouped(rest, v);
    }
    assert forall|v: V| grouped(map).contains_key(v) <==> keys_with(map, v) != Set::<
        K,
    >::empty() by {
        lemma_grouped(map, v);
    }
    assert(grouped(rest) =~= unlinked(grouped(map), value, key));
}

/// A value is in the index exactly if it has a key.
proof fn lemma_grouped<K, V>(map: Map<K, V>, value: V)
    ensures
        grouped(map).contains_key(value) <==> keys_with(map, value) != Set::<K>::empty(),
{
    if grouped(map).contains_key(value) {
        let key = choose|key: K| #[trigger] map.contains_key(key) && map[key] == value;
        assert(keys_with(map, value).contains(key));
    }
    if keys_with(map, value) != Set::<K>::empty() {
        if forall|key: K| !#[trigger] keys_with(map, value).contains(key) {
            assert(keys_with(map, value) =~= Set::<K>::empty());
        }
        let key = choose|key: K| #[trigger] keys_with(map, value).contains(key);
        assert(map.contains_key(key) && map[key] == value);
    }
}

/// The index after a new key was put.
proof fn lemma_linked<K, V>(map: Map<K, V>, key: K, value: V)
    requires
        !map.contains_key(key),
    ensures
        grouped(map.insert(key, value)) == linked(grouped(map), value, key),
{
    let more = map.insert(key, value);
    assert forall|v: V| v != value implies keys_with(more, v) == keys_with(map, v) by {
        assert(keys_with(more, v) =~= keys_with(map, v));
    }
    assert(keys_with(more, value) =~= keys_with(map, value).insert(key));
    assert forall|v: V| grouped(more).contains_key(v) <==> grouped(map).contains_key(v) || v
        == value by {
        lemma_grouped(more, v);
        lemma_grouped(map, v);
        assert(keys_with(more, value).contains(key));
    }
    lemma_grouped(map, value);
    assert(grouped(more) =~= linked(grouped(map), value, key));
}

impl<Key: Element, Value: Element> View<Key, Value> {
    /// The index by value.
    spec fn index(&self) -> Map<Value::V, Set<Key::V>> {
        self.value_to_keys@.map_values(|keys: SortedSet<Key>| keys@)
    }

    /// Both maps are well formed, as are the sets of keys.
    spec fn parts_wf(&self) -> bool {
        &&& self.key_to_value.wf()
        &&& self.value_to_keys.wf()
        &&& forall|value: Value::V| #[trigger]
            self.value_to_keys@.contains_key(value) ==> self.value_to_keys@[value].wf()
    }

    /// The index by value is that of the map by key.
    pub closed spec fn wf(&self) -> bool {
        self.parts_wf() && self.index() == grouped(self@)
    }

    /// What the index says of a value.
    proof fn lemma_keys(&self, value: Value::V)
        requires
            self.wf(),
        ensures
            self.value_to_keys@.contains_key(value) <==> keys_with(self@, value) != Set::<
                Key::V,
            >::empty(),
            self.value_to_keys@.contains_key(value) ==> self.value_to_keys@[value].wf()
                && self.value_to_keys@[value]@ == keys_with(self@, value),
    {
        lemma_grouped(self@, value);
        assert(self.index().contains_key(value) <==> self.value_to_keys@.contains_key(value));
        assert(self.value_to_keys@.contains_key(value) ==> self.index()[value]
            == self.value_to_keys@[value]@);
        assert(grouped(self@).contains_key(value) ==> grouped(self@)[value] == keys_with(
            self@,
            value,
        ));
    }

    /// Creates a new empty View.
    pub fn new() -> (view: Self)
        ensures
            view.wf(),
            view@ == Map::<Key::V, Value::V>::empty(),
    {
        let view = View { key_to_value: SortedMap::new(), value_to_keys: SortedMap::new() };
        assert(view@ =~= Map::<Key::V, Value::V>::empty());
        assert(view.index() =~= grouped(view@));
        view
    }

    /// The number of keys.
    pub fn len(&self) -> (count: usize)
        requires
            self.wf(),
        ensures
            count == self@.dom().len(),
    {
        assert(self@.dom() =~= self.key_to_value@.dom());
        self.key_to_value.len()
    }

    /// Whether there are no keys.
    pub fn is_empty(&self) -> (empty: bool)
        requires
            self.wf(),
        ensures
            empty == (self@ == Map::<Key::V, Value::V>::empty()),
    {
        proof {
            if self.key_to_value@ == Map::<Key::V, Value>::empty() {
                assert(self@ =~= Map::<Key::V, Value::V>::empty());
            } else if self@ == Map::<Key::V, Value::V>::empty() {
                assert(self.key_to_value@.dom() =~= self@.dom());
                assert(self.key_to_value@ =~= Map::<Key::V, Value>::empty());
            }
        }
        self.key_to_value.is_empty()
    }

    /// All pairs, in the order of their keys.
    pub fn to_vec(&self) -> (pairs: Vec<(Key, Value)>)
        requires
            self.wf(),
        ensures
            ordered::<Key>(pairs@.map_values(|pair: (Key, Value)| pair.0@)),
            forall|key: Key::V| #[trigger]
                self@.contains_key(key) <==> pairs@.map_values(
                    |pair: (Key, Value)| pair.0@,
                ).contains(key),
            forall|i: int|
                0 <= i < pairs@.len() ==> self@[(#[trigger] pairs@[i]).0@] == pairs@[i].1@,
    {
        let mut pairs: Vec<(Key, Value)> = Vec::new();
        let count: usize = self.key_to_value.len();
        for i in 0..count
            invariant
                self.wf(),
                count == self.key_to_value.order().len(),
                pairs@.len() == i,
                forall|j: int|
                    0 <= j < i ==> (#[trigger] pairs@[j]).0@ == self.key_to_value.order()[j]
                        && self@.contains_key(pairs@[j].0@) && self@[pairs@[j].0@] == pairs@[j].1@,
        {
            let entry = self.key_to_value.entry(i);
            pairs.push((entry.0.duplicate(), entry.1.duplicate()));
        }
        proof {
            self.key_to_value.lemma_entries();
            assert(pairs@.map_values(|pair: (Key, Value)| pair.0@)
                =~= self.key_to_value.order());
        }
        pairs
    }

    /// Takes `key` from the keys of `value`.
    fn unlink(&mut self, value: &Value, key: &Key)
        requires
            old(self).parts_wf(),
            old(self).index().contains_key(value@),
        ensures
            final(self).parts_wf(),
            final(self).key_to_value == old(self).key_to_value,
            final(self).index() == unlinked(old(self).index(), value@, key@),
    {
        let ghost before = self.value_to_keys@;
        if let Some(mut keys) = self.value_to_keys.remove(value) {
            let ghost had = keys@;
            keys.remove(key);
            proof {
                keys.lemma_elements();
                if keys@.len() == 0 {
                    keys@.lemma_len0_is_empty();
                }
            }
            if keys.len() > 0 {
                proof {
                    if keys@ == Set::<Key::V>::empty() {
                        assert(keys@.len() == 0);
                    }
                }
                self.value_to_keys.insert(value.duplicate(), keys);
            }
            assert(self.index() =~= unlinked(old(self).index(), value@, key@));
        }
    }

    /// Adds `key` to the keys of `value`.
    fn link(&mut self, value: Value, key: Key)
        requires
            old(self).parts_wf(),
        ensures
            final(self).parts_wf(),
            final(self).key_to_value == old(self).key_to_value,
            final(self).index() == linked(old(self).index(), value@, key@),
    {
        let mut keys = match self.value_to_keys.remove(&value) {
            Some(keys) => keys,
            None => SortedSet::new(),
        };
        keys.insert(key);
        self.value_to_keys.insert(value, keys);
        assert(self.index() =~= linked(old(self).index(), value@, key@));
    }

    /// Inserts a new Key -> Value mapping.
    /// If the Key already exists, the Value is updated.
    pub fn insert(&mut self, key: Key, value: Value)
        requires
            old(self).wf(),
        ensures
            final(self).wf(),
            final(self)@ == old(self)@.insert(key@, value@),
    {
        let ghost map = self@;
        let replaced = self.key_to_value.insert(key.duplicate(), value.duplicate());
        assert(self@ =~= map.insert(key@, value@));
        assert(self.index() == grouped(map));
        if let Some(old_value) = replaced {
            proof {
                lemma_unlinked(map, key@);
            }
            self.unlink(&old_value, &key);
        } else {
            assert(map.remove(key@) =~= map);
        }
        proof {
            lemma_linked(map.remove(key@), key@, value@);
            assert(map.remove(key@).insert(key@, value@) =~= map.insert(key@, value@));
        }
        self.link(value, key);
    }

    /// Inserts the pairs one after the other.
    pub fn insert_values(&mut self, values: &Vec<(Key, Value)>)
        requires
            old(self).wf(),
        ensures
            final(self).wf(),
            final(self)@ == with_pairs(
                old(self)@,
                values@.map_values(|pair: (Key, Value)| (pair.0@, pair.1@)),
            ),
    {
        let ghost all = values@.map_values(|pair: (Key, Value)| (pair.0@, pair.1@));
        assert(all.take(0) =~= Seq::empty());
        for i in 0..values.len()
            invariant
                self.wf(),
                all == values@.map_values(|pair: (Key, Value)| (pair.0@, pair.1@)),
                self@ == with_pairs(old(self)@, all.take(i as int)),
        {
            let pair = &values[i];
            self.insert(pair.0.duplicate(), pair.1.duplicate());
            assert(all.take(i + 1).drop_last() =~= all.take(i as int));
        }
        assert(all.take(all.len() as int) =~= all);
    }

    /// Removes a Key and its associated Value. Returns true iff the key was in
    /// the view
    pub fn remove_by_key(&mut self, key: &Key) -> (removed: bool)
        requires
            old(self).wf(),
        ensures
            final(self).wf(),
            final(self)@ == old(self)@.remove(key@),
            removed == old(self)@.contains_key(key@),
    {
        let ghost map = self@;
        match self.key_to_value.remove(key) {
            Some(value) => {
                assert(self@ =~= map.remove(key@));
                proof {
                    lemma_unlinked(map, key@);
                }
                self.unlink(&value, key);
                true
            },
            None => {
                assert(self@ =~= map.remove(key@));
                assert(map.remove(key@) =~= map);
                false
            },
        }
    }

    /// Removes all Keys associated with a Value.
    pub fn remove_by_value(&mut self, value: &Value)
        requires
            old(self).wf(),
        ensures
            final(self).wf(),
            final(self)@ == old(self)@.remove_keys(keys_with(old(self)@, value@)),
    {
        let ghost map = self@;
        let ghost gone = keys_with(map, value@);
        proof {
            self.lemma_keys(value@);
        }
        match self.value_to_keys.remove(value) {
            Some(keys) => {
                assert(keys@ == gone);
                let ghost index = self.index();
                assert(index =~= grouped(map).remove(value@));
                let count: usize = keys.len();
                for i in 0..count
                    invariant
                        keys.wf(),
                        count == keys.order().len(),
                        self.parts_wf(),
                        self.index() == index,
                        forall|k: Key::V| #[trigger]
                            self@.contains_key(k) <==> map.contains_key(k) && !keys.order().take(
                                i as int,
                            ).contains(k),
                        forall|k: Key::V| #[trigger] self@.contains_key(k) ==> self@[k] == map[k],
                {
                    let key = keys.at(i);
                    let ghost before = self@;
                    self.key_to_value.remove(key);
                    proof {
                        assert(self@ =~= before.remove(key@));
                        lemma_take_contains(keys.order(), i as int);
                    }
                }
                proof {
                    keys.lemma_elements();
                    assert(keys.order().take(count as int) =~= keys.order());
                    let rest = map.remove_keys(gone);
                    assert(self@ =~= rest);
                    assert forall|v: Value::V| v != value@ implies keys_with(rest, v) == keys_with(
                        map,
                        v,
                    ) by {
                        assert(keys_with(rest, v) =~= keys_with(map, v));
                    }
                    assert(keys_with(rest, value@) =~= Set::<Key::V>::empty());
                    assert forall|v: Value::V| grouped(rest).contains_key(v) <==> grouped(
                        map,
                    ).contains_key(v) && v != value@ by {
                        lemma_grouped(rest, v);
                        lemma_grouped(map, v);
                    }
                    assert(grouped(rest) =~= index);
                }
            },
            None => {
                assert(self.index() =~= grouped(map).remove(value@));
                assert(self.index() =~= grouped(map));
                assert(map.remove_keys(gone) =~= map);
            },
        }
    }

    /// Query the Value for a given Key.
    pub fn get_value(&self, key: &Key) -> (value: Option<&Value>)
        requires
            self.wf(),
        ensures
            match value {
                Some(value) => self@.contains_key(key@) && self@[key@] == value@,
                None => !self@.contains_key(key@),
            },
    {
        self.key_to_value.get(key)
    }

    /// Query all Keys associated with a given Value.
    pub fn get_keys_by_value(&self, value: &Value) -> (keys: Option<&SortedSet<Key>>)
        requires
            self.wf(),
        ensures
            match keys {
                Some(keys) => keys.wf() && keys@ == keys_with(self@, value@) && keys@ != Set::<
                    Key::V,
                >::empty(),
                None => keys_with(self@, value@) == Set::<Key::V>::empty(),
            },
    {
        proof {
            self.lemma_keys(value@);
        }
        self.value_to_keys.get(value)
    }

    /// Perform a range query: get all Keys for Values in the specified range.
    /// Returns (Value, Keys) pairs where the Values are in the given range, in
    /// their order.
    pub fn range_query(&self, range: std::ops::Range<Value>) -> (found: Vec<
        (Value, SortedSet<Key>),
    >)
        requires
            self.wf(),
            !Value::precedes(range.end@, range.start@),
        ensures
            ordered::<Value>(found@.map_values(|pair: (Value, SortedSet<Key>)| pair.0@)),
            forall|i: int|
                0 <= i < found@.len() ==> {
                    let pair = #[trigger] found@[i];
                    &&& in_range(range, pair.0@)
                    &&& pair.1.wf()
                    &&& pair.1@ == keys_with(self@, pair.0@)
                    &&& pair.1@ != Set::<Key::V>::empty()
                },
            forall|key: Key::V| #[trigger]
                self@.contains_key(key) && in_range(range, self@[key]) ==> exists|i: int|
                    0 <= i < found@.len() && (#[trigger] found@[i]).0@ == self@[key],
    {
        let mut found: Vec<(Value, SortedSet<Key>)> = Vec::new();
        let count: usize = self.value_to_keys.len();
        let mut i: usize = 0;
        while i < count
            invariant
                self.wf(),
                count == self.value_to_keys.order().len(),
                i <= count,
                forall|j: int|
                    0 <= j < found@.len() ==> {
                        let pair = #[trigger] found@[j];
                        &&& in_range(range, pair.0@)
                        &&& pair.1.wf()
                        &&& pair.1@ == keys_with(self@, pair.0@)
                        &&& pair.1@ != Set::<Key::V>::empty()
                    },
                forall|j: int|
                    0 <= j < found@.len() ==> exists|m: int|
                        0 <= m < i && #[trigger] self.value_to_keys.order()[m] == (
                        #[trigger] found@[j]).0@,
                forall|m: int|
                    0 <= m < i && in_range(range, #[trigger] self.value_to_keys.order()[m])
                        ==> exists|j: int|
                        0 <= j < found@.len() && (#[trigger] found@[j]).0@
                            == self.value_to_keys.order()[m],
                forall|j: int, k: int|
                    0 <= j < k < found@.len() ==> Value::precedes(
                        (#[trigger] found@[j]).0@,
                        (#[trigger] found@[k]).0@,
                    ),
            decreases count - i,
        {
            let entry = self.value_to_keys.entry(i);
            let ghost before = found@;
            let ghost order = self.value_to_keys.order();
            proof {
                self.value_to_keys.lemma_entries();
                self.lemma_keys(entry.0@);
                assert forall|j: int| 0 <= j < before.len() implies Value::precedes(
                    (#[trigger] before[j]).0@,
                    entry.0@,
                ) by {
                    let m = choose|m: int|
                        0 <= m < i && #[trigger] order[m] == before[j].0@;
                    assert(Value::precedes(order[m], order[i as int]));
                }
            }
            if !entry.0.before(&range.start) && entry.0.before(&range.end) {
                found.push((entry.0.duplicate(), entry.1.duplicate()));
            }
            proof {
                assert forall|j: int| 0 <= j < found@.len() implies exists|m: int|
                    0 <= m < i + 1 && #[trigger] order[m] == (#[trigger] found@[j]).0@ by {
                    if j < before.len() {
                        let m = choose|m: int| 0 <= m < i && #[trigger] order[m] == before[j].0@;
                        assert(0 <= m < i + 1 && order[m] == found@[j].0@);
                    } else {
                        assert(order[i as int] == found@[j].0@);
                    }
                }
                assert forall|m: int|
                    0 <= m < i + 1 && in_range(range, #[trigger] order[m]) implies exists|j: int|
                    0 <= j < found@.len() && (#[trigger] found@[j]).0@ == order[m] by {
                    if m < i {
                        let j = choose|j: int|
                            0 <= j < before.len() && (#[trigger] before[j]).0@ == order[m];
                        assert(found@[j].0@ == order[m]);
                    } else {
                        assert(found@[before.len() as int].0@ == order[m]);
                    }
                }
            }
            i = i + 1;
        }
        proof {
            self.value_to_keys.lemma_entries();
            assert forall|key: Key::V| #[trigger]
                self@.contains_key(key) && in_range(range, self@[key]) implies exists|j: int|
                0 <= j < found@.len() && (#[trigger] found@[j]).0@ == self@[key] by {
                assert(keys_with(self@, self@[key]).contains(key));
                self.lemma_keys(self@[key]);
                let m = choose|m: int|
                    0 <= m < count && self.value_to_keys.order()[m] == self@[key];
                assert(in_range(range, self.value_to_keys.order()[m]));
            }
        }
        found
    }
}

impl<Key: Element, Value: Element> Default for View<Key, Value> {
    fn default() -> (view: Self)
        ensures
            view.wf(),
            view@ == Map::<Key::V, Value::V>::empty(),
    {
        Self::new()
    }
}

/// Whether `pairs` holds every (value, key) pair of a map, in ascending order.
pub open spec fn enumerates_pairs<Key: Element, Value: Element>(
    pairs: Seq<(Value::V, Key::V)>,
    map: Map<Key::V, Value::V>,
) -> bool {
    &&& ordered::<(Value, Key)>(pairs)
    &&& forall|i: int|
        0 <= i < pairs.len() ==> map.contains_key((#[trigger] pairs[i]).1) && map[pairs[i].1]
            == pairs[i].0
    &&& forall|key: Key::V| #[trigger] map.contains_key(key) ==> pairs.contains((map[key], key))
}

/// The views of borrowed pairs.
spec fn pair_views<Key: Element, Value: Element>(pairs: Seq<(&Value, &Key)>) -> Seq<
    (Value::V, Key::V),
> {
    pairs.map_values(|pair: (&Value, &Key)| (pair.0@, pair.1@))
}

impl<Key: Element, Value: Element> View<Key, Value> {
    /// All pairs, ordered by Value and then by Key.
    fn all_pairs(&self) -> (pairs: Vec<(&Value, &Key)>)
        requires
            self.wf(),
        ensures
            enumerates_pairs::<Key, Value>(pair_views(pairs@), self@),
    {
        let mut pairs: Vec<(&Value, &Key)> = Vec::new();
        let count: usize = self.value_to_keys.len();
        let ghost values = self.value_to_keys.order();
        let mut i: usize = 0;
        while i < count
            invariant
                self.wf(),
                values == self.value_to_keys.order(),
                count == values.len(),
                i <= count,
                ordered::<(Value, Key)>(pair_views(pairs@)),
                forall|j: int|
                    0 <= j < pairs@.len() ==> self.has_pair(pair_views(pairs@)[j])
                        && listed_before(values, i as int, (#[trigger] pair_views(pairs@)[j]).0),
                forall|key: Key::V| #[trigger]
                    self@.contains_key(key) && listed_before(values, i as int, self@[key])
                        ==> pair_views(pairs@).contains((self@[key], key)),
            decreases count - i,
        {
            let entry = self.value_to_keys.entry(i);
            let value = &entry.0;
            let keys = &entry.1;
            proof {
                self.lemma_keys(value@);
                self.value_to_keys.lemma_entries();
                keys.lemma_elements();
            }
            let many: usize = keys.len();
            let ghost earlier = pair_views(pairs@);
            let mut n: usize = 0;
            while n < many
                invariant
                    self.wf(),
                    values == self.value_to_keys.order(),
                    i < values.len(),
                    value@ == values[i as int],
                    keys.wf(),
                    keys@ == keys_with(self@, value@),
                    ordered::<Value>(values),
                    ordered::<Key>(keys.order()),
                    many == keys.order().len(),
                    n <= many,
                    ordered::<(Value, Key)>(pair_views(pairs@)),
                    pair_views(pairs@) == earlier + Seq::new(
                        n as nat,
                        |m: int| (value@, keys.order()[m]),
                    ),
                    forall|j: int|
                        0 <= j < earlier.len() ==> self.has_pair(earlier[j]) && listed_before(
                            values,
                            i as int,
                            (#[trigger] earlier[j]).0,
                        ),
                decreases many - n,
            {
                let key = keys.at(n);
                let ghost before = pair_views(pairs@);
                pairs.push((value, key));
                proof {
                    let after = pair_views(pairs@);
                    assert(after =~= before.push((value@, key@)));
                    assert(after =~= earlier + Seq::new(
                        (n + 1) as nat,
                        |m: int| (value@, keys.order()[m]),
                    ));
                    assert forall|j: int| 0 <= j < before.len() implies <(
                        Value,
                        Key,
                    ) as Element>::precedes(#[trigger] before[j], (value@, key@)) by {
                        if j < earlier.len() {
                            assert(before[j] == earlier[j]);
                            let m = choose|m: int|
                                0 <= m < i && #[trigger] values[m] == earlier[j].0;
                            assert(Value::precedes(values[m], values[i as int]));
                        } else {
                            let m = j - earlier.len();
                            assert(before[j] == (value@, keys.order()[m]));
                            assert(Key::precedes(keys.order()[m], keys.order()[n as int]));
                        }
                    }
                }
                n = n + 1;
            }
            proof {
                let after = pair_views(pairs@);
                assert forall|j: int| 0 <= j < after.len() implies self.has_pair(after[j])
                    && listed_before(values, i + 1, (#[trigger] after[j]).0) by {
                    if j < earlier.len() {
                        assert(after[j] == earlier[j]);
                        let m = choose|m: int| 0 <= m < i && #[trigger] values[m] == earlier[j].0;
                        assert(0 <= m < i + 1 && values[m] == after[j].0);
                    } else {
                        let m = j - earlier.len();
                        assert(after[j] == (value@, keys.order()[m]));
                        assert(keys.order().contains(keys.order()[m]));
                        assert(keys@.contains(keys.order()[m]));
                        assert(values[i as int] == after[j].0);
                    }
                }
                assert forall|key: Key::V| #[trigger]
                    self@.contains_key(key) && listed_before(values, i + 1, self@[key]) implies
                    after.contains((self@[key], key)) by {
                    if self@[key] == value@ {
                        assert(keys@.contains(key));
                        let m = choose|m: int|
                            0 <= m < keys.order().len() && keys.order()[m] == key;
                        assert(after[earlier.len() + m] == (self@[key], key));
                    } else {
                        let m = choose|m: int|
                            0 <= m < i + 1 && #[trigger] values[m] == self@[key];
                        assert(listed_before(values, i as int, self@[key]));
                        let j = choose|j: int|
                            0 <= j < earlier.len() && earlier[j] == (self@[key], key);
                        assert(after[j] == (self@[key], key));
                    }
                }
            }
            i = i + 1;
        }
        proof {
            self.value_to_keys.lemma_entries();
            let all = pair_views(pairs@);
            assert forall|key: Key::V| #[trigger] self@.contains_key(key) implies all.contains(
                (self@[key], key),
            ) by {
                assert(keys_with(self@, self@[key]).contains(key));
                self.lemma_keys(self@[key]);
                let m = choose|m: int| 0 <= m < values.len() && values[m] == self@[key];
                assert(listed_before(values, count as int, self@[key]));
            }
            assert forall|j: int| 0 <= j < all.len() implies self@.contains_key(
                (#[trigger] all[j]).1,
            ) && self@[all[j].1] == all[j].0 by {
                assert(self.has_pair(all[j]));
            }
        }
        pairs
    }

    /// Whether the view maps the key of a pair to its value.
    spec fn has_pair(&self, pair: (Value::V, Key::V)) -> bool {
        self@.contains_key(pair.1) && self@[pair.1] == pair.0
    }

    /// Returns the `k` lowest Values with their associated Keys; Keys of the
    /// same Value come in their order.
    pub fn min_k(&self, k: usize) -> (lowest: Vec<(Value, Key)>)
        requires
            self.wf(),
        ensures
            exists|all: Seq<(Value::V, Key::V)>| #[trigger]
                enumerates_pairs::<Key, Value>(all, self@) && lowest@.map_values(
                    |pair: (Value, Key)| (pair.0@, pair.1@),
                ) == if k < all.len() {
                    all.take(k as int)
                } else {
                    all
                },
    {
        let all = self.all_pairs();
        let ghost views = pair_views(all@);
        let mut lowest: Vec<(Value, Key)> = Vec::new();
        let count: usize = if k < all.len() {
            k
        } else {
            all.len()
        };
        for i in 0..count
            invariant
                views == pair_views(all@),
                count <= all@.len(),
                lowest@.len() == i,
                forall|j: int|
                    0 <= j < i ==> ((#[trigger] lowest@[j]).0@, lowest@[j].1@) == views[j],
        {
            let pair = &all[i];
            lowest.push((pair.0.duplicate(), pair.1.duplicate()));
        }
        assert(lowest@.map_values(|pair: (Value, Key)| (pair.0@, pair.1@)) =~= views.take(
            count as int,
        ));
        assert(views.take(views.len() as int) =~= views);
        lowest
    }
}

/// Whether one of the first `n` values is `value`.
spec fn listed_before<V>(values: Seq<V>, n: int, value: V) -> bool {
    exists|m: int| 0 <= m < n && #[trigger] values[m] == value
}

/// A map has one ascending list of its pairs.
pub proof fn law_ascending_pairs_are_unique<Key: Element, Value: Element>(
    one: Seq<(Value::V, Key::V)>,
    other: Seq<(Value::V, Key::V)>,
    map: Map<Key::V, Value::V>,
)
    requires
        enumerates_pairs::<Key, Value>(one, map),
        enumerates_pairs::<Key, Value>(other, map),
    ensures
        one == other,
{
    assert forall|p: (Value::V, Key::V)| #[trigger] one.contains(p) <==> other.contains(p) by {
        if one.contains(p) {
            let i = choose|i: int| 0 <= i < one.len() && one[i] == p;
            assert(map.contains_key(one[i].1));
        }
        if other.contains(p) {
            let i = choose|i: int| 0 <= i < other.len() && other[i] == p;
            assert(map.contains_key(other[i].1));
        }
    }
    lemma_ordered_is_unique::<(Value, Key)>(one, other);
}

/// Whether a view, asked by value, and asked by key, say the same.
pub proof fn law_indexes_agree<K, V>(map: Map<K, V>, key: K, value: V)
    ensures
        keys_with(map, value).contains(key) <==> map.contains_key(key) && map[key] == value,
        keys_with(map.insert(key, value), value).contains(key),
        forall|other: V| other != value ==> !#[trigger] keys_with(
            map.insert(key, value),
            other,
        ).contains(key),
        !keys_with(map.remove(key), value).contains(key),
        keys_with(map.remove_keys(keys_with(map, value)), value) == Set::<K>::empty(),
{
    assert(keys_with(map.remove_keys(keys_with(map, value)), value) =~= Set::<K>::empty());
}

/// Whether a value lies in a half-open range.
pub open spec fn in_range<Value: Element>(range: std::ops::Range<Value>, value: Value::V) -> bool {
    !Value::precedes(value, range.start@) && Value::precedes(value, range.end@)
}

/// A map after pairs were inserted one after the other.
pub open spec fn with_pairs<K, V>(map: Map<K, V>, pairs: Seq<(K, V)>) -> Map<K, V>
    decreases pairs.len(),
{
    if pairs.len() == 0 {
        map
    } else {
        with_pairs(map, pairs.drop_last()).insert(pairs.last().0, pairs.last().1)
    }
}

/// What a prefix holds, one element further.
pub proof fn lemma_take_contains<A>(list: Seq<A>, i: int)
    requires
        0 <= i < list.len(),
    ensures
        forall|a: A| #[trigger]
            list.take(i + 1).contains(a) <==> list.take(i).contains(a) || a == list[i],
{
    assert(list.take(i + 1) =~= list.take(i).push(list[i]));
    assert forall|a: A| #[trigger] list.take(i + 1).contains(a) <==> list.take(i).contains(a) || a
        == list[i] by {
        let taken = list.take(i);
        if taken.contains(a) {
            let j = choose|j: int| 0 <= j < taken.len() && taken[j] == a;
            assert(taken.push(list[i])[j] == a);
        }
        assert(taken.push(list[i])[i] == list[i]);
    }
}

} // verus!
