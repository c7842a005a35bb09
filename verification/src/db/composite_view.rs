//! A map under composite keys that can be asked by either half of the key.

use vstd::prelude::*;
use crate::multimap::{bucket, MultiMap};
use crate::order::{lists, ordered, Element, SortedMap, SortedSet};

verus! {

/// A CompositeView supporting queries by composite keys (KeyS, KeyU) and
/// individual components. Maintains efficient indexing to support all query
/// types.
#[derive(Debug, Clone, PartialEq)]
pub struct CompositeView<Key, Value> {
    // Maps a CompositeKey to a Value
    key_to_value: SortedMap<(Key, Key), Value>,
    // Secondary indexes for individual key lookups
    key_s_index: MultiMap<Key, Key>,
    key_u_index: MultiMap<Key, Key>,
    // Maps a Key S to a set of (Value, Key U) pairs, maintaining order on Values
    value_index: MultiMap<Key, (Value, Key)>,
}

impl<Key: Element, Value: Element> View for CompositeView<Key, Value> {
    type V = Map<(Key::V, Key::V), Value::V>;

    closed spec fn view(&self) -> Map<(Key::V, Key::V), Value::V> {
        self.key_to_value@.map_values(|value: Value| value@)
    }
}

/// The second halves that stand beside the first half `key_s`.
pub open spec fn seconds<K, V>(map: Map<(K, K), V>, key_s: K) -> Set<K> {
    Set::new(|key_u: K| map.contains_key((key_s, key_u)))
}

/// The first halves that stand beside the second half `key_u`.
pub open spec fn firsts<K, V>(map: Map<(K, K), V>, key_u: K) -> Set<K> {
    Set::new(|key_s: K| map.contains_key((key_s, key_u)))
}

/// The values under the first half `key_s`, each with its second half.
pub open spec fn valued<K, V>(map: Map<(K, K), V>, key_s: K) -> Set<(V, K)> {
    Set::new(
        |pair: (V, K)| map.contains_key((key_s, pair.1)) && map[(key_s, pair.1)] == pair.0,
    )
}

/// The entries with the first half `key_s`.
pub open spec fn rows_of_s<K>(key_s: K) -> Set<(K, K)> {
    Set::new(|key: (K, K)| key.0 == key_s)
}

/// The entries with the second half `key_u`.
pub open spec fn rows_of_u<K>(key_u: K) -> Set<(K, K)> {
    Set::new(|key: (K, K)| key.1 == key_u)
}

/// A map after an insertion that leaves present keys alone.
pub open spec fn with_new<K, V>(map: Map<K, V>, key: K, value: V) -> Map<K, V> {
    if map.contains_key(key) {
        map
    } else {
        map.insert(key, value)
    }
}

/// A map after such insertions, one after the other.
pub open spec fn with_all_new<K, V>(map: Map<K, V>, pairs: Seq<(K, V)>) -> Map<K, V>
    decreases pairs.len(),
{
    if pairs.len() == 0 {
        map
    } else {
        with_new(with_all_new(map, pairs.drop_last()), pairs.last().0, pairs.last().1)
    }
}

impl<Key: Element, Value: Element> CompositeView<Key, Value> {
    /// The indexes are those of the map.
    pub closed spec fn wf(&self) -> bool {
        &&& self.key_to_value.wf()
        &&& self.key_s_index.wf()
        &&& self.key_u_index.wf()
        &&& self.value_index.wf()
        &&& forall|s: Key::V, u: Key::V| #[trigger]
            self.key_s_index@.contains((s, u)) <==> self@.contains_key((s, u))
        &&& forall|s: Key::V, u: Key::V| #[trigger]
            self.key_u_index@.contains((u, s)) <==> self@.contains_key((s, u))
        &&& forall|s: Key::V, v: Value::V, u: Key::V| #[trigger]
            self.value_index@.contains((s, (v, u))) <==> self@.contains_key((s, u)) && self@[(s, u)]
                == v
    }

    /// Creates a new empty CompositeView.
    pub fn new() -> (view: Self)
        ensures
            view.wf(),
            view@ == Map::<(Key::V, Key::V), Value::V>::empty(),
    {
        let view = CompositeView {
            key_to_value: SortedMap::new(),
            key_s_index: MultiMap::new(),
            key_u_index: MultiMap::new(),
            value_index: MultiMap::new(),
        };
        assert(view@ =~= Map::<(Key::V, Key::V), Value::V>::empty());
        view
    }

    /// Returns the number of key-value pairs in the view
    pub fn len(&self) -> (count: usize)
        requires
            self.wf(),
        ensures
            count == self@.dom().len(),
    {
        assert(self@.dom() =~= self.key_to_value@.dom());
        self.key_to_value.len()
    }

    /// Returns true if the view contains no key-value pairs
    pub fn is_empty(&self) -> (empty: bool)
        requires
            self.wf(),
        ensures
            empty == (self@ == Map::<(Key::V, Key::V), Value::V>::empty()),
    {
        proof {
            if self.key_to_value@ == Map::<(Key::V, Key::V), Value>::empty() {
                assert(self@ =~= Map::<(Key::V, Key::V), Value::V>::empty());
            } else if self@ == Map::<(Key::V, Key::V), Value::V>::empty() {
                assert(self.key_to_value@.dom() =~= self@.dom());
                assert(self.key_to_value@ =~= Map::<(Key::V, Key::V), Value>::empty());
            }
        }
        self.key_to_value.is_empty()
    }

    /// All entries, in the order of their composite keys.
    pub fn sorted_entries(&self) -> (entries: Vec<(Key, Key, Value)>)
        requires
            self.wf(),
        ensures
            ordered::<(Key, Key)>(
                entries@.map_values(|entry: (Key, Key, Value)| (entry.0@, entry.1@)),
            ),
            forall|key: (Key::V, Key::V)| #[trigger]
                self@.contains_key(key) <==> entries@.map_values(
                    |entry: (Key, Key, Value)| (entry.0@, entry.1@),
                ).contains(key),
            forall|i: int|
                0 <= i < entries@.len() ==> self@[(
                    (#[trigger] entries@[i]).0@,
                    entries@[i].1@,
                )] == entries@[i].2@,
    {
        let mut entries: Vec<(Key, Key, Value)> = Vec::new();
        let count: usize = self.key_to_value.len();
        for i in 0..count
            invariant
                self.wf(),
                count == self.key_to_value.order().len(),
                entries@.len() == i,
                forall|j: int|
                    0 <= j < i ==> {
                        let key = ((#[trigger] entries@[j]).0@, entries@[j].1@);
                        &&& key == self.key_to_value.order()[j]
                        &&& self@.contains_key(key)
                        &&& self@[key] == entries@[j].2@
                    },
        {
            let entry = self.key_to_value.entry(i);
            entries.push((entry.0.0.duplicate(), entry.0.1.duplicate(), entry.1.duplicate()));
        }
        proof {
            self.key_to_value.lemma_entries();
            assert(entries@.map_values(|entry: (Key, Key, Value)| (entry.0@, entry.1@))
                =~= self.key_to_value.order());
        }
        entries
    }

    /// Inserts a new (Key, Key) -> Value mapping.
    /// If the composite key already exists, the method does nothing.
    /// This method ensures that the CompositeView is always complete,
    /// i.e. all keys are present in all sets.
    pub fn insert(&mut self, composite_key: (Key, Key), value: Value)
        requires
            old(self).wf(),
        ensures
            final(self).wf(),
            final(self)@ == with_new(old(self)@, (composite_key.0@, composite_key.1@), value@),
    {
        if self.key_to_value.contains_key(&composite_key) {
            return;
        }
        let ghost map = self@;
        let (key_s, key_u) = composite_key;
        self.key_s_index.insert(key_s.duplicate(), key_u.duplicate());
        self.key_u_index.insert(key_u.duplicate(), key_s.duplicate());
        self.value_index.insert(key_s.duplicate(), (value.duplicate(), key_u.duplicate()));
        self.key_to_value.insert((key_s, key_u), value);
        assert(self@ =~= map.insert((key_s@, key_u@), value@));
    }

    /// Inserts the entries one after the other.
    pub fn insert_values(&mut self, values: Vec<((Key, Key), Value)>)
        requires
            old(self).wf(),
        ensures
            final(self).wf(),
            final(self)@ == with_all_new(
                old(self)@,
                values@.map_values(
                    |pair: ((Key, Key), Value)| ((pair.0.0@, pair.0.1@), pair.1@),
                ),
            ),
    {
        let ghost all = values@.map_values(
            |pair: ((Key, Key), Value)| ((pair.0.0@, pair.0.1@), pair.1@),
        );
        assert(all.take(0) =~= Seq::empty());
        for pair in it: values
            invariant
                self.wf(),
                all == it.seq().map_values(
                    |pair: ((Key, Key), Value)| ((pair.0.0@, pair.0.1@), pair.1@),
                ),
                self@ == with_all_new(old(self)@, all.take(it.index() as int)),
        {
            let ghost i = it.index() as int;
            self.insert(pair.0, pair.1);
            assert(all.take(i + 1).drop_last() =~= all.take(i));
            assert(all.take(i + 1).last() == all[i]);
        }
        assert(all.take(all.len() as int) =~= all);
    }

    /// Removes a composite key and its associated Value.
    /// Returns true if the key was in the view.
    pub fn remove(&mut self, key_s: &Key, key_u: &Key) -> (removed: bool)
        requires
            old(self).wf(),
        ensures
            final(self).wf(),
            final(self)@ == old(self)@.remove((key_s@, key_u@)),
            removed == old(self)@.contains_key((key_s@, key_u@)),
    {
        let ghost map = self@;
        let composite_key = (key_s.duplicate(), key_u.duplicate());
        match self.key_to_value.remove(&composite_key) {
            Some(value) => {
                assert(self@ =~= map.remove((key_s@, key_u@)));
                self.key_s_index.remove(key_s, key_u);
                self.key_u_index.remove(key_u, key_s);
                self.value_index.remove(key_s, &(value, key_u.duplicate()));
                true
            },
            None => {
                assert(self@ =~= map.remove((key_s@, key_u@)));
                assert(map.remove((key_s@, key_u@)) =~= map);
                false
            },
        }
    }

    /// Removes all entries with the specified first key component.
    /// Returns the number of entries removed.
    pub fn remove_by_key_s(&mut self, key_s: &Key) -> (count: usize)
        requires
            old(self).wf(),
        ensures
            final(self).wf(),
            final(self)@ == old(self)@.remove_keys(rows_of_s(key_s@)),
            count == seconds(old(self)@, key_s@).len(),
    {
        let ghost map = self@;
        proof {
            assert(bucket(self.key_s_index@, key_s@) =~= seconds(map, key_s@));
        }
        let key_us = match self.key_s_index.get(key_s) {
            Some(key_us) => key_us.duplicate(),
            None => {
                assert(map.remove_keys(rows_of_s(key_s@)) =~= map) by {
                    assert forall|key: (Key::V, Key::V)| map.contains_key(key) implies key.0
                        != key_s@ by {
                        if key.0 == key_s@ {
                            assert(seconds(map, key_s@).contains(key.1));
                        }
                    }
                }
                return 0;
            },
        };
        let many: usize = key_us.len();
        for i in 0..many
            invariant
                self.wf(),
                key_us.wf(),
                many == key_us.order().len(),
                forall|s: Key::V, u: Key::V| #[trigger]
                    self@.contains_key((s, u)) <==> map.contains_key((s, u)) && !(s == key_s@
                        && key_us.order().take(i as int).contains(u)),
                forall|key: (Key::V, Key::V)| #[trigger]
                    self@.contains_key(key) ==> self@[key] == map[key],
        {
            self.remove(key_s, key_us.at(i));
            proof {
                crate::db::view::lemma_take_contains(key_us.order(), i as int);
            }
        }
        proof {
            key_us.lemma_elements();
            assert(key_us.order().take(many as int) =~= key_us.order());
            let rest = map.remove_keys(rows_of_s(key_s@));
            assert forall|key: (Key::V, Key::V)| #[trigger] self@.contains_key(key)
                <==> rest.contains_key(key) by {
                assert(self@.contains_key((key.0, key.1)) <==> self@.contains_key(key));
                if map.contains_key(key) && key.0 == key_s@ {
                    assert(seconds(map, key_s@).contains(key.1));
                    assert(key_us@.contains(key.1));
                }
            }
            assert(self@ =~= rest);
        }
        many
    }

    /// Removes all entries with the specified second key component.
    /// Returns the number of entries removed.
    pub fn remove_by_key_u(&mut self, key_u: &Key) -> (count: usize)
        requires
            old(self).wf(),
        ensures
            final(self).wf(),
            final(self)@ == old(self)@.remove_keys(rows_of_u(key_u@)),
            count == firsts(old(self)@, key_u@).len(),
    {
        let ghost map = self@;
        proof {
            assert(bucket(self.key_u_index@, key_u@) =~= firsts(map, key_u@));
        }
        let key_ss = match self.key_u_index.get(key_u) {
            Some(key_ss) => key_ss.duplicate(),
            None => {
                assert(map.remove_keys(rows_of_u(key_u@)) =~= map) by {
                    assert forall|key: (Key::V, Key::V)| map.contains_key(key) implies key.1
                        != key_u@ by {
                        if key.1 == key_u@ {
                            assert(firsts(map, key_u@).contains(key.0));
                        }
                    }
                }
                return 0;
            },
        };
        let many: usize = key_ss.len();
        for i in 0..many
            invariant
                self.wf(),
                key_ss.wf(),
                many == key_ss.order().len(),
                forall|s: Key::V, u: Key::V| #[trigger]
                    self@.contains_key((s, u)) <==> map.contains_key((s, u)) && !(u == key_u@
                        && key_ss.order().take(i as int).contains(s)),
                forall|key: (Key::V, Key::V)| #[trigger]
                    self@.contains_key(key) ==> self@[key] == map[key],
        {
            self.remove(key_ss.at(i), key_u);
            proof {
                crate::db::view::lemma_take_contains(key_ss.order(), i as int);
            }
        }
        proof {
            key_ss.lemma_elements();
            assert(key_ss.order().take(many as int) =~= key_ss.order());
            let rest = map.remove_keys(rows_of_u(key_u@));
            assert forall|key: (Key::V, Key::V)| #[trigger] self@.contains_key(key)
                <==> rest.contains_key(key) by {
                assert(self@.contains_key((key.0, key.1)) <==> self@.contains_key(key));
                if map.contains_key(key) && key.1 == key_u@ {
                    assert(firsts(map, key_u@).contains(key.0));
                    assert(key_ss@.contains(key.0));
                }
            }
            assert(self@ =~= rest);
        }
        many
    }

    /// Get the value for a composite key
    pub fn get_value(&self, key_s: &Key, key_u: &Key) -> (value: Option<&Value>)
        requires
            self.wf(),
        ensures
            match value {
                Some(value) => self@.contains_key((key_s@, key_u@)) && self@[(key_s@, key_u@)]
                    == value@,
                None => !self@.contains_key((key_s@, key_u@)),
            },
    {
        self.key_to_value.get(&(key_s.duplicate(), key_u.duplicate()))
    }

    /// Get all second key values associated with a given first key
    pub fn get_keys_b(&self, key_s: &Key) -> (keys: Option<&SortedSet<Key>>)
        requires
            self.wf(),
        ensures
            match keys {
                Some(keys) => keys.wf() && keys@ == seconds(self@, key_s@) && keys@ != Set::<
                    Key::V,
                >::empty(),
                None => seconds(self@, key_s@) == Set::<Key::V>::empty(),
            },
    {
        assert(bucket(self.key_s_index@, key_s@) =~= seconds(self@, key_s@));
        self.key_s_index.get(key_s)
    }

    /// Get all first key values associated with a given second key
    pub fn get_keys_a(&self, key_u: &Key) -> (keys: Option<&SortedSet<Key>>)
        requires
            self.wf(),
        ensures
            match keys {
                Some(keys) => keys.wf() && keys@ == firsts(self@, key_u@) && keys@ != Set::<
                    Key::V,
                >::empty(),
                None => firsts(self@, key_u@) == Set::<Key::V>::empty(),
            },
    {
        assert(bucket(self.key_u_index@, key_u@) =~= firsts(self@, key_u@));
        self.key_u_index.get(key_u)
    }
}

/// A first half has values exactly if it has second halves.
proof fn lemma_valued<K, V>(map: Map<(K, K), V>, key_s: K)
    ensures
        valued(map, key_s) == Set::<(V, K)>::empty() <==> seconds(map, key_s) == Set::<K>::empty(),
{
    if valued(map, key_s) == Set::<(V, K)>::empty() {
        assert forall|u: K| !seconds(map, key_s).contains(u) by {
            assert(!valued(map, key_s).contains((map[(key_s, u)], u)));
        }
        assert(seconds(map, key_s) =~= Set::<K>::empty());
    }
    if seconds(map, key_s) == Set::<K>::empty() {
        assert forall|pair: (V, K)| !valued(map, key_s).contains(pair) by {
            assert(!seconds(map, key_s).contains(pair.1));
        }
        assert(valued(map, key_s) =~= Set::<(V, K)>::empty());
    }
}

impl<Key: Element, Value: Element> CompositeView<Key, Value> {
    /// What the index by value says of a first half.
    proof fn lemma_value_index(&self, key_s: Key::V)
        requires
            self.wf(),
        ensures
            bucket(self.value_index@, key_s) == valued(self@, key_s),
            valued(self@, key_s) == Set::<(Value::V, Key::V)>::empty() <==> seconds(self@, key_s)
                == Set::<Key::V>::empty(),
    {
        lemma_valued(self@, key_s);
        assert forall|pair: (Value::V, Key::V)| bucket(self.value_index@, key_s).contains(pair)
            <==> valued(self@, key_s).contains(pair) by {
            assert(self.value_index@.contains((key_s, (pair.0, pair.1))) <==> self@.contains_key(
                (key_s, pair.1),
            ) && self@[(key_s, pair.1)] == pair.0);
        }
        assert(bucket(self.value_index@, key_s) =~= valued(self@, key_s));
    }

    /// Get all pairs ((Key, Key), Value) associated with key_s, in the order
    /// of their Values
    pub fn get_by_key_s(&self, key_s: &Key) -> (entries: Option<Vec<((Key, Key), Value)>>)
        requires
            self.wf(),
        ensures
            entries is None <==> seconds(self@, key_s@) == Set::<Key::V>::empty(),
            entries matches Some(list) ==> {
                &&& forall|i: int| 0 <= i < list@.len() ==> (#[trigger] list@[i]).0.0@ == key_s@
                &&& lists::<(Value, Key)>(
                    list@.map_values(|entry: ((Key, Key), Value)| (entry.1@, entry.0.1@)),
                    valued(self@, key_s@),
                )
            },
    {
        proof {
            self.lemma_value_index(key_s@);
        }
        match self.value_index.get(key_s) {
            Some(pairs) => {
                let mut list: Vec<((Key, Key), Value)> = Vec::new();
                let count: usize = pairs.len();
                for i in 0..count
                    invariant
                        pairs.wf(),
                        count == pairs.order().len(),
                        list@.len() == i,
                        forall|j: int|
                            0 <= j < i ==> (#[trigger] list@[j]).0.0@ == key_s@ && (
                                list@[j].1@,
                                list@[j].0.1@,
                            ) == pairs.order()[j],
                {
                    let pair = pairs.at(i);
                    list.push(((key_s.duplicate(), pair.1.duplicate()), pair.0.duplicate()));
                }
                proof {
                    pairs.lemma_elements();
                    let views = list@.map_values(
                        |entry: ((Key, Key), Value)| (entry.1@, entry.0.1@),
                    );
                    assert(views =~= pairs.order());
                    assert forall|pair: (Value::V, Key::V)| #[trigger] views.contains(pair)
                        <==> valued(self@, key_s@).contains(pair) by {
                        assert(pairs@.contains(pair) <==> pairs.order().contains(pair));
                    }
                }
                Some(list)
            },
            None => None,
        }
    }

    /// Get all pairs ((Key, Key), Value) associated with key_u, in the order
    /// of their first keys
    pub fn get_by_key_u(&self, key_u: &Key) -> (entries: Option<Vec<((Key, Key), Value)>>)
        requires
            self.wf(),
        ensures
            entries is None <==> firsts(self@, key_u@) == Set::<Key::V>::empty(),
            entries matches Some(list) ==> {
                &&& forall|i: int|
                    0 <= i < list@.len() ==> (#[trigger] list@[i]).0.1@ == key_u@ && self@[(
                        list@[i].0.0@,
                        key_u@,
                    )] == list@[i].1@
                &&& lists::<Key>(
                    list@.map_values(|entry: ((Key, Key), Value)| entry.0.0@),
                    firsts(self@, key_u@),
                )
            },
    {
        match self.query_b(key_u) {
            Some(pairs) => {
                let mut list: Vec<((Key, Key), Value)> = Vec::new();
                for i in 0..pairs.len()
                    invariant
                        list@.len() == i,
                        forall|j: int|
                            0 <= j < pairs@.len() ==> self@[((#[trigger] pairs@[j]).0@, key_u@)]
                                == pairs@[j].1@,
                        forall|j: int|
                            0 <= j < i ==> (#[trigger] list@[j]).0.1@ == key_u@ && list@[j].0.0@
                                == pairs@[j].0@ && list@[j].1@ == pairs@[j].1@,
                {
                    let pair = &pairs[i];
                    list.push(((pair.0.duplicate(), key_u.duplicate()), pair.1.duplicate()));
                }
                proof {
                    assert(list@.map_values(|entry: ((Key, Key), Value)| entry.0.0@)
                        =~= pairs@.map_values(|pair: (&Key, &Value)| pair.0@));
                    assert forall|i: int| 0 <= i < list@.len() implies (
                    #[trigger] list@[i]).0.1@ == key_u@ && self@[(list@[i].0.0@, key_u@)]
                        == list@[i].1@ by {
                        assert(self@[(pairs@[i].0@, key_u@)] == pairs@[i].1@);
                    }
                }
                Some(list)
            },
            None => None,
        }
    }

    /// Query by first key component
    /// Returns (second key, Value) pairs where first key matches the given
    /// value, in the order of their second keys
    pub fn query_a<'a>(&'a self, key_s: &Key) -> (pairs: Option<Vec<(&'a Key, &'a Value)>>)
        requires
            self.wf(),
        ensures
            pairs is None <==> seconds(self@, key_s@) == Set::<Key::V>::empty(),
            pairs matches Some(list) ==> {
                &&& forall|i: int|
                    0 <= i < list@.len() ==> self@[(key_s@, (#[trigger] list@[i]).0@)]
                        == list@[i].1@
                &&& lists::<Key>(
                    list@.map_values(|pair: (&Key, &Value)| pair.0@),
                    seconds(self@, key_s@),
                )
            },
    {
        match self.get_keys_b(key_s) {
            Some(keys) => {
                let mut list: Vec<(&'a Key, &'a Value)> = Vec::new();
                let count: usize = keys.len();
                for i in 0..count
                    invariant
                        self.wf(),
                        keys.wf(),
                        keys@ == seconds(self@, key_s@),
                        count == keys.order().len(),
                        list@.len() == i,
                        forall|j: int|
                            0 <= j < i ==> (#[trigger] list@[j]).0@ == keys.order()[j] && self@[(
                                key_s@,
                                list@[j].0@,
                            )] == list@[j].1@,
                {
                    let key_u = keys.at(i);
                    if let Some(value) = self.get_value(key_s, key_u) {
                        list.push((key_u, value));
                    }
                }
                proof {
                    keys.lemma_elements();
                    assert(list@.map_values(|pair: (&Key, &Value)| pair.0@) =~= keys.order());
                    assert forall|key: Key::V| #[trigger] keys.order().contains(key) <==> seconds(
                        self@,
                        key_s@,
                    ).contains(key) by {
                        assert(keys@.contains(key) <==> keys.order().contains(key));
                    }
                }
                Some(list)
            },
            None => None,
        }
    }

    /// Query by second key component
    /// Returns (first key, Value) pairs where second key matches the given
    /// value, in the order of their first keys
    pub fn query_b<'a>(&'a self, key_u: &Key) -> (pairs: Option<Vec<(&'a Key, &'a Value)>>)
        requires
            self.wf(),
        ensures
            pairs is None <==> firsts(self@, key_u@) == Set::<Key::V>::empty(),
            pairs matches Some(list) ==> {
                &&& forall|i: int|
                    0 <= i < list@.len() ==> self@[((#[trigger] list@[i]).0@, key_u@)]
                        == list@[i].1@
                &&& lists::<Key>(
                    list@.map_values(|pair: (&Key, &Value)| pair.0@),
                    firsts(self@, key_u@),
                )
            },
    {
        match self.get_keys_a(key_u) {
            Some(keys) => {
                let mut list: Vec<(&'a Key, &'a Value)> = Vec::new();
                let count: usize = keys.len();
                for i in 0..count
                    invariant
                        self.wf(),
                        keys.wf(),
                        keys@ == firsts(self@, key_u@),
                        count == keys.order().len(),
                        list@.len() == i,
                        forall|j: int|
                            0 <= j < i ==> (#[trigger] list@[j]).0@ == keys.order()[j] && self@[(
                                list@[j].0@,
                                key_u@,
                            )] == list@[j].1@,
                {
                    let key_s = keys.at(i);
                    if let Some(value) = self.get_value(key_s, key_u) {
                        list.push((key_s, value));
                    }
                }
                proof {
                    keys.lemma_elements();
                    assert(list@.map_values(|pair: (&Key, &Value)| pair.0@) =~= keys.order());
                    assert forall|key: Key::V| #[trigger] keys.order().contains(key) <==> firsts(
                        self@,
                        key_u@,
                    ).contains(key) by {
                        assert(keys@.contains(key) <==> keys.order().contains(key));
                    }
                }
                Some(list)
            },
            None => None,
        }
    }

    /// Returns the `k` lowest Values under `key_s` with their associated
    /// second Keys.
    pub fn min_k(&self, key_s: &Key, k: usize) -> (lowest: Option<Vec<(Value, Key)>>)
        requires
            self.wf(),
        ensures
            lowest is None <==> seconds(self@, key_s@) == Set::<Key::V>::empty(),
            lowest matches Some(list) ==> exists|all: Seq<(Value::V, Key::V)>| #[trigger]
                lists::<(Value, Key)>(all, valued(self@, key_s@)) && list@.map_values(
                    |pair: (Value, Key)| (pair.0@, pair.1@),
                ) == if k < all.len() {
                    all.take(k as int)
                } else {
                    all
                },
    {
        proof {
            self.lemma_value_index(key_s@);
        }
        match self.value_index.get(key_s) {
            Some(pairs) => {
                let mut list: Vec<(Value, Key)> = Vec::new();
                let all: usize = pairs.len();
                let count: usize = if k < all {
                    k
                } else {
                    all
                };
                for i in 0..count
                    invariant
                        pairs.wf(),
                        count <= pairs.order().len(),
                        list@.len() == i,
                        forall|j: int|
                            0 <= j < i ==> ((#[trigger] list@[j]).0@, list@[j].1@)
                                == pairs.order()[j],
                {
                    list.push(pairs.at(i).duplicate());
                }
                proof {
                    pairs.lemma_elements();
                    assert(list@.map_values(|pair: (Value, Key)| (pair.0@, pair.1@))
                        =~= pairs.order().take(count as int));
                    assert(pairs.order().take(pairs.order().len() as int) =~= pairs.order());
                    assert forall|pair: (Value::V, Key::V)| #[trigger]
                        pairs.order().contains(pair) <==> valued(self@, key_s@).contains(pair) by {
                        assert(pairs@.contains(pair) <==> pairs.order().contains(pair));
                    }
                    assert(lists::<(Value, Key)>(pairs.order(), valued(self@, key_s@)));
                }
                Some(list)
            },
            None => None,
        }
    }
}

/// The view is complete: an entry is found by its composite key exactly if it
/// is found by either half, and by its value.
pub proof fn law_indexes_are_complete<K, V>(map: Map<(K, K), V>, key_s: K, key_u: K)
    ensures
        map.contains_key((key_s, key_u)) <==> seconds(map, key_s).contains(key_u),
        map.contains_key((key_s, key_u)) <==> firsts(map, key_u).contains(key_s),
        map.contains_key((key_s, key_u)) <==> valued(map, key_s).contains(
            (map[(key_s, key_u)], key_u),
        ),
{
}

/// Removing by one half removes every entry with that half and no other.
pub proof fn law_removal_by_half<K, V>(map: Map<(K, K), V>, key: K, other: K)
    ensures
        seconds(map.remove_keys(rows_of_s(key)), key) == Set::<K>::empty(),
        firsts(map.remove_keys(rows_of_u(key)), key) == Set::<K>::empty(),
        other != key ==> seconds(map.remove_keys(rows_of_s(key)), other) == seconds(map, other),
        other != key ==> firsts(map.remove_keys(rows_of_u(key)), other) == firsts(map, other),
{
    assert(seconds(map.remove_keys(rows_of_s(key)), key) =~= Set::<K>::empty());
    assert(firsts(map.remove_keys(rows_of_u(key)), key) =~= Set::<K>::empty());
    if other != key {
        assert(seconds(map.remove_keys(rows_of_s(key)), other) =~= seconds(map, other));
        assert(firsts(map.remove_keys(rows_of_u(key)), other) =~= firsts(map, other));
    }
}

/// Inserting a present key changes nothing.
pub proof fn law_insert_keeps_present_entries<K, V>(map: Map<K, V>, key: K, first: V, second: V)
    ensures
        with_new(with_new(map, key, first), key, second) == with_new(map, key, first),
{
}

impl<Key: Element, Value: Element> Default for CompositeView<Key, Value> {
    fn default() -> (view: Self)
        ensures
            view.wf(),
            view@ == Map::<(Key::V, Key::V), Value::V>::empty(),
    {
        Self::new()
    }
}

} // verus!
