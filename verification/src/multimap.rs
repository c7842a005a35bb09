//! Ordered keys, each with an ordered set of values.

use vstd::prelude::*;
use crate::order::{Element, SortedMap, SortedSet};

verus! {

/// A relation between keys and values, indexed by key.
#[derive(Debug, Clone, PartialEq)]
pub struct MultiMap<A, B> {
    map: SortedMap<A, SortedSet<B>>,
}

/// The values that a relation gives a key.
pub open spec fn bucket<A, B>(pairs: Set<(A, B)>, key: A) -> Set<B> {
    Set::new(|value: B| pairs.contains((key, value)))
}

impl<A: Element, B: Element> View for MultiMap<A, B> {
    type V = Set<(A::V, B::V)>;

    closed spec fn view(&self) -> Set<(A::V, B::V)> {
        Set::new(
            |pair: (A::V, B::V)|
                self.map@.contains_key(pair.0) && self.map@[pair.0]@.contains(pair.1),
        )
    }
}

impl<A: Element, B: Element> MultiMap<A, B> {
    /// Keys and values stand in order, and no key is without a value.
    pub closed spec fn wf(&self) -> bool {
        &&& self.map.wf()
        &&& forall|key: A::V| #[trigger]
            self.map@.contains_key(key) ==> self.map@[key].wf() && self.map@[key]@ != Set::<
                B::V,
            >::empty()
    }

    /// A key is listed exactly if it has a value, and then with all of them.
    proof fn lemma_bucket(&self, key: A::V)
        requires
            self.wf(),
        ensures
            self.map@.contains_key(key) ==> self.map@[key]@ == bucket(self@, key),
            self.map@.contains_key(key) <==> bucket(self@, key) != Set::<B::V>::empty(),
    {
        if self.map@.contains_key(key) {
            assert(self.map@[key]@ =~= bucket(self@, key));
        } else {
            assert(bucket(self@, key) =~= Set::<B::V>::empty());
        }
    }

    /// The empty relation.
    pub fn new() -> (map: Self)
        ensures
            map.wf(),
            map@ == Set::<(A::V, B::V)>::empty(),
    {
        let map = MultiMap { map: SortedMap::new() };
        assert(map@ =~= Set::<(A::V, B::V)>::empty());
        map
    }

    /// The values of a key, if it has any.
    pub fn get(&self, key: &A) -> (values: Option<&SortedSet<B>>)
        requires
            self.wf(),
        ensures
            match values {
                Some(values) => values.wf() && values@ == bucket(self@, key@) && values@ != Set::<
                    B::V,
                >::empty(),
                None => bucket(self@, key@) == Set::<B::V>::empty(),
            },
    {
        proof {
            self.lemma_bucket(key@);
        }
        self.map.get(key)
    }

    /// Relates `value` to `key`.
    pub fn insert(&mut self, key: A, value: B)
        requires
            old(self).wf(),
        ensures
            final(self).wf(),
            final(self)@ == old(self)@.insert((key@, value@)),
    {
        let mut values = match self.map.remove(&key) {
            Some(values) => values,
            None => SortedSet::new(),
        };
        let ghost before = self.map@;
        values.insert(value);
        assert(values@.contains(value@));
        self.map.insert(key, values);
        assert(self@ =~= old(self)@.insert((key@, value@)));
    }

    /// Drops the relation of `value` to `key`.
    pub fn remove(&mut self, key: &A, value: &B)
        requires
            old(self).wf(),
        ensures
            final(self).wf(),
            final(self)@ == old(self)@.remove((key@, value@)),
    {
        if let Some(mut values) = self.map.remove(key) {
            let ghost had = values@;
            values.remove(value);
            proof {
                values.lemma_elements();
                if values@.len() == 0 {
                    values@.lemma_len0_is_empty();
                }
            }
            if values.len() > 0 {
                proof {
                    if values@ == Set::<B::V>::empty() {
                        assert(values@.len() == 0);
                    }
                }
                self.map.insert(key.duplicate(), values);
            } else {
                assert forall|v: B::V| had.contains(v) implies v == value@ by {
                    if v != value@ {
                        assert(values@.contains(v));
                    }
                }
            }
        }
        assert(self@ =~= old(self)@.remove((key@, value@)));
    }
}

} // verus!
