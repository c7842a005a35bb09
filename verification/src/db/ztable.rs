//! A table of weighted keys, split into shards.

use std::hash::{BuildHasher, BuildHasherDefault, DefaultHasher, Hash};
use vstd::prelude::*;
use crate::order::{Element, SortedMap};

verus! {

/// How often a key was inserted, less how often it was removed.
pub type Weight = isize;

/// Keys with their weights and values. A key is active while its weight is
/// positive.
#[derive(Debug, Clone)]
pub struct ZTable<K, V> {
    shards: Vec<SortedMap<K, (Weight, V)>>,
}

/// Hashes `key` with [`std::hash::BuildHasher::hash_one`] of the default
/// hasher. Nothing is claimed of the result: it only picks the shard in which
/// a key is looked for first and in which a new key is put.
#[verifier::external_body]
fn hash_of<K: Hash>(key: &K) -> (hash: u64) {
    BuildHasherDefault::<DefaultHasher>::new().hash_one(key)
}

impl<K: Element, V> View for ZTable<K, V> {
    type V = Map<K::V, (Weight, V)>;

    closed spec fn view(&self) -> Map<K::V, (Weight, V)> {
        Map::new(
            |key: K::V| self.home(key) is Some,
            |key: K::V| self.shards@[self.home(key)->0]@[key],
        )
    }
}

/// The weight that a table gives a key; a key that it does not hold has none.
pub open spec fn weight_of<V, T>(table: Map<V, (Weight, T)>, key: V) -> Weight {
    if table.contains_key(key) {
        table[key].0
    } else {
        0
    }
}

impl<K: Element, V> ZTable<K, V> {
    /// The shard that holds a key.
    spec fn home(&self, key: K::V) -> Option<int> {
        if exists|i: int|
            0 <= i < self.shards@.len() && (#[trigger] self.shards@[i])@.contains_key(key) {
            Some(
                choose|i: int|
                    0 <= i < self.shards@.len() && (#[trigger] self.shards@[i])@.contains_key(key),
            )
        } else {
            None
        }
    }

    /// There is a shard, every shard is well formed, and no key is in two of
    /// them.
    pub closed spec fn wf(&self) -> bool {
        &&& self.shards@.len() > 0
        &&& forall|i: int| 0 <= i < self.shards@.len() ==> (#[trigger] self.shards@[i]).wf()
        &&& forall|i: int, j: int, key: K::V|
            0 <= i < self.shards@.len() && 0 <= j < self.shards@.len()
                && #[trigger] self.shards@[i]@.contains_key(key)
                && #[trigger] self.shards@[j]@.contains_key(key) ==> i == j
    }

    /// The number of shards.
    pub closed spec fn shards(&self) -> nat {
        self.shards@.len()
    }

    /// The contents of one shard.
    pub closed spec fn shard_view(&self, i: int) -> Map<K::V, (Weight, V)> {
        self.shards@[i]@
    }

    /// The shards of a table divide its keys among themselves.
    pub proof fn lemma_shards(&self)
        requires
            self.wf(),
        ensures
            self.shards() > 0,
            forall|key: K::V| #[trigger]
                self@.contains_key(key) <==> exists|i: int|
                    0 <= i < self.shards() && (#[trigger] self.shard_view(i)).contains_key(key),
            forall|i: int, key: K::V|
                0 <= i < self.shards() && #[trigger] self.shard_view(i).contains_key(key)
                    ==> self@.contains_key(key) && self@[key] == self.shard_view(i)[key],
            forall|i: int, j: int, key: K::V|
                0 <= i < self.shards() && 0 <= j < self.shards() && #[trigger] self.shard_view(
                    i,
                ).contains_key(key) && #[trigger] self.shard_view(j).contains_key(key) ==> i == j,
    {
        assert forall|key: K::V| #[trigger] self@.contains_key(key) <==> exists|i: int|
            0 <= i < self.shards() && (#[trigger] self.shard_view(i)).contains_key(key) by {
            if self@.contains_key(key) {
                let i = self.home(key)->0;
                assert(self.shards@[i]@.contains_key(key));
                assert(self.shard_view(i).contains_key(key));
            }
            if exists|i: int|
                0 <= i < self.shards() && (#[trigger] self.shard_view(i)).contains_key(key) {
                let i = choose|i: int|
                    0 <= i < self.shards() && (#[trigger] self.shard_view(i)).contains_key(key);
                assert(self.shards@[i]@.contains_key(key));
            }
        }
        assert forall|i: int, key: K::V|
            0 <= i < self.shards() && #[trigger] self.shard_view(i).contains_key(key) implies
            self@.contains_key(key) && self@[key] == self.shard_view(i)[key] by {
            assert(self.shards@[i]@.contains_key(key));
            let j = self.home(key)->0;
            assert(self.shards@[j]@.contains_key(key));
        }
        assert forall|i: int, j: int, key: K::V|
            0 <= i < self.shards() && 0 <= j < self.shards() && #[trigger] self.shard_view(
                i,
            ).contains_key(key) && #[trigger] self.shard_view(j).contains_key(key) implies i
            == j by {
            assert(self.shards@[i]@.contains_key(key) && self.shards@[j]@.contains_key(key));
        }
    }

    /// A table with one shard.
    pub fn new() -> (table: Self)
        ensures
            table.wf(),
            table.shards() == 1,
            table@ == Map::<K::V, (Weight, V)>::empty(),
    {
        Self::new_with_shards(1)
    }

    /// A table with `shard_count` shards, and with one where that is zero.
    pub fn new_with_shards(shard_count: usize) -> (table: Self)
        ensures
            table.wf(),
            table.shards() == if shard_count == 0 {
                1
            } else {
                shard_count as nat
            },
            table@ == Map::<K::V, (Weight, V)>::empty(),
    {
        let count: usize = if shard_count == 0 {
            1
        } else {
            shard_count
        };
        let mut shards: Vec<SortedMap<K, (Weight, V)>> = Vec::new();
        for i in 0..count
            invariant
                shards@.len() == i,
                forall|j: int|
                    0 <= j < shards@.len() ==> (#[trigger] shards@[j]).wf() && shards@[j]@
                        == Map::<K::V, (Weight, V)>::empty(),
        {
            shards.push(SortedMap::new());
        }
        let table = ZTable { shards };
        assert(table@ =~= Map::<K::V, (Weight, V)>::empty());
        table
    }

    /// The number of shards.
    pub fn shard_count(&self) -> (count: usize)
        ensures
            count == self.shards(),
    {
        self.shards.len()
    }

    /// One of the shards.
    pub fn shard_at(&self, i: usize) -> (shard: &SortedMap<K, (Weight, V)>)
        requires
            self.wf(),
            i < self.shards(),
        ensures
            shard.wf(),
            shard@ == self.shard_view(i as int),
    {
        &self.shards[i]
    }

    /// The number of keys, whatever their weights.
    pub fn len(&self) -> (count: usize)
        requires
            self.wf(),
            self@.dom().len() <= usize::MAX,
        ensures
            count == self@.dom().len(),
            self@.dom().finite(),
    {
        let mut count: usize = 0;
        let ghost mut seen: Set<K::V> = Set::empty();
        proof {
            self.lemma_shards();
            self.lemma_finite();
        }
        for i in 0..self.shards.len()
            invariant
                self.wf(),
                self@.dom().finite(),
                self@.dom().len() <= usize::MAX,
                seen.finite(),
                count == seen.len(),
                seen.subset_of(self@.dom()),
                forall|key: K::V| #[trigger]
                    seen.contains(key) <==> exists|j: int|
                        0 <= j < i && (#[trigger] self.shard_view(j)).contains_key(key),
        {
            let shard = &self.shards[i];
            let ghost keys = shard@.dom();
            let ghost before = seen;
            proof {
                self.lemma_shards();
                shard.lemma_entries();
                assert(self.shard_view(i as int).dom() == keys);
                assert(seen.disjoint(keys)) by {
                    assert forall|key: K::V| !(#[trigger] seen.contains(key) && keys.contains(
                        key,
                    )) by {
                        if seen.contains(key) && keys.contains(key) {
                            let j = choose|j: int|
                                0 <= j < i && (#[trigger] self.shard_view(j)).contains_key(key);
                            assert(self.shard_view(i as int).contains_key(key));
                        }
                    }
                }
                vstd::set_lib::lemma_set_disjoint_lens(seen, keys);
                seen = seen.union(keys);
                assert forall|key: K::V| #[trigger] seen.contains(key) <==> exists|j: int|
                    0 <= j < i + 1 && (#[trigger] self.shard_view(j)).contains_key(key) by {
                    if keys.contains(key) {
                        assert(self.shard_view(i as int).contains_key(key));
                    }
                    if before.contains(key) {
                        let j = choose|j: int|
                            0 <= j < i && (#[trigger] self.shard_view(j)).contains_key(key);
                        assert(0 <= j < i + 1 && self.shard_view(j).contains_key(key));
                    }
                }
                assert(seen.subset_of(self@.dom()));
                vstd::set_lib::lemma_len_subset(seen, self@.dom());
            }
            count = count + shard.len();
        }
        proof {
            self.lemma_shards();
            assert(seen =~= self@.dom());
        }
        count
    }

    /// A table holds finitely many keys.
    pub proof fn lemma_finite(&self)
        requires
            self.wf(),
        ensures
            self@.dom().finite(),
    {
        self.lemma_shards();
        self.lemma_finite_up_to(self.shards() as int);
        let all = Set::new(
            |key: K::V|
                exists|j: int|
                    0 <= j < self.shards() && (#[trigger] self.shard_view(j)).contains_key(key),
        );
        assert(all =~= self@.dom());
    }

    proof fn lemma_finite_up_to(&self, n: int)
        requires
            self.wf(),
            0 <= n <= self.shards(),
        ensures
            Set::new(
                |key: K::V|
                    exists|j: int|
                        0 <= j < n && (#[trigger] self.shard_view(j)).contains_key(key),
            ).finite(),
        decreases n,
    {
        let upto = Set::new(
            |key: K::V|
                exists|j: int| 0 <= j < n && (#[trigger] self.shard_view(j)).contains_key(key),
        );
        if n == 0 {
            assert(upto =~= Set::empty());
        } else {
            self.lemma_finite_up_to(n - 1);
            let before = Set::new(
                |key: K::V|
                    exists|j: int|
                        0 <= j < n - 1 && (#[trigger] self.shard_view(j)).contains_key(key),
            );
            self.shards@[n - 1].lemma_entries();
            let keys = self.shard_view(n - 1).dom();
            assert forall|key: K::V| upto.contains(key) <==> before.union(keys).contains(key) by {
                if upto.contains(key) {
                    let j = choose|j: int|
                        0 <= j < n && (#[trigger] self.shard_view(j)).contains_key(key);
                    if j < n - 1 {
                        assert(before.contains(key));
                    }
                }
                if keys.contains(key) {
                    assert(self.shard_view(n - 1).contains_key(key));
                }
                if before.contains(key) {
                    let j = choose|j: int|
                        0 <= j < n - 1 && (#[trigger] self.shard_view(j)).contains_key(key);
                    assert(0 <= j < n && self.shard_view(j).contains_key(key));
                }
            }
            assert(upto =~= before.union(keys));
        }
    }

    /// Whether the table holds no key.
    pub fn is_empty(&self) -> (empty: bool)
        requires
            self.wf(),
        ensures
            empty == (self@ == Map::<K::V, (Weight, V)>::empty()),
    {
        proof {
            self.lemma_shards();
        }
        for i in 0..self.shards.len()
            invariant
                self.wf(),
                forall|j: int|
                    0 <= j < i ==> (#[trigger] self.shard_view(j)) == Map::<
                        K::V,
                        (Weight, V),
                    >::empty(),
        {
            if !self.shards[i].is_empty() {
                proof {
                    self.lemma_shards();
                    let shard = self.shard_view(i as int);
                    if forall|key: K::V| !#[trigger] shard.contains_key(key) {
                        assert(shard =~= Map::<K::V, (Weight, V)>::empty());
                    }
                    let key = choose|key: K::V| #[trigger] shard.contains_key(key);
                    assert(self@.contains_key(key));
                }
                return false;
            }
        }
        assert(self@ =~= Map::<K::V, (Weight, V)>::empty());
        true
    }
}

impl<K: Element, V> ZTable<K, V> {
    /// Returns all active key-value pairs in the table, each of them once.
    pub fn iter_all(&self) -> (pairs: Vec<(&K, &V)>)
        requires
            self.wf(),
        ensures
            forall|i: int|
                0 <= i < pairs@.len() ==> {
                    let key = (#[trigger] pairs@[i]).0@;
                    self@.contains_key(key) && self@[key].0 > 0 && self@[key].1 == *pairs@[i].1
                },
            forall|key: K::V| #[trigger]
                self@.contains_key(key) && self@[key].0 > 0 ==> exists|i: int|
                    0 <= i < pairs@.len() && (#[trigger] pairs@[i]).0@ == key,
            forall|i: int, j: int|
                0 <= i < j < pairs@.len() ==> (#[trigger] pairs@[i]).0@ != (
                #[trigger] pairs@[j]).0@,
    {
        let mut pairs: Vec<(&K, &V)> = Vec::new();
        let mut s: usize = 0;
        while s < self.shards.len()
            invariant
                self.wf(),
                s <= self.shards@.len(),
                forall|i: int|
                    0 <= i < pairs@.len() ==> self.is_pair((#[trigger] pairs@[i]).0@, *pairs@[i].1),
                forall|i: int|
                    0 <= i < pairs@.len() ==> self.held_before((#[trigger] pairs@[i]).0@, s as int),
                forall|t: int, key: K::V|
                    0 <= t < s && #[trigger] self.shard_view(t).contains_key(key)
                        && self.shard_view(t)[key].0 > 0 ==> exists|i: int|
                        0 <= i < pairs@.len() && (#[trigger] pairs@[i]).0@ == key,
                forall|i: int, j: int|
                    0 <= i < j < pairs@.len() ==> (#[trigger] pairs@[i]).0@ != (
                    #[trigger] pairs@[j]).0@,
            decreases self.shards@.len() - s,
        {
            let shard = &self.shards[s];
            let count: usize = shard.len();
            let ghost earlier = pairs@;
            proof {
                self.lemma_shards();
                shard.lemma_entries();
            }
            let mut n: usize = 0;
            while n < count
                invariant
                    self.wf(),
                    s < self.shards@.len(),
                    shard == self.shards@[s as int],
                    count == shard.order().len(),
                    n <= count,
                    earlier.len() <= pairs@.len(),
                    forall|i: int| 0 <= i < earlier.len() ==> pairs@[i] == earlier[i],
                    forall|i: int|
                        0 <= i < earlier.len() ==> self.held_before(
                            (#[trigger] earlier[i]).0@,
                            s as int,
                        ),
                    forall|i: int|
                        0 <= i < pairs@.len() ==> self.is_pair(
                            (#[trigger] pairs@[i]).0@,
                            *pairs@[i].1,
                        ),
                    forall|i: int|
                        earlier.len() <= i < pairs@.len() ==> exists|m: int|
                            0 <= m < n && #[trigger] shard.order()[m] == (#[trigger] pairs@[i]).0@,
                    forall|m: int|
                        0 <= m < n && shard@[#[trigger] shard.order()[m]].0 > 0 ==> exists|i: int|
                            0 <= i < pairs@.len() && (#[trigger] pairs@[i]).0@
                                == shard.order()[m],
                    forall|i: int, j: int|
                        0 <= i < j < pairs@.len() ==> (#[trigger] pairs@[i]).0@ != (
                        #[trigger] pairs@[j]).0@,
                decreases count - n,
            {
                let entry = shard.entry(n);
                let ghost before = pairs@;
                proof {
                    self.lemma_shards();
                    shard.lemma_entries();
                    assert(self.shard_view(s as int).contains_key(entry.0@));
                }
                if entry.1.0 > 0 {
                    pairs.push((&entry.0, &entry.1.1));
                    proof {
                        assert forall|i: int| 0 <= i < before.len() implies (
                        #[trigger] before[i]).0@ != entry.0@ by {
                            if i < earlier.len() {
                                let t = choose|t: int|
                                    0 <= t < s && (#[trigger] self.shard_view(t)).contains_key(
                                        earlier[i].0@,
                                    );
                                assert(before[i] == earlier[i]);
                            } else {
                                let m = choose|m: int|
                                    0 <= m < n && #[trigger] shard.order()[m] == before[i].0@;
                                assert(shard.order()[m] != shard.order()[n as int]);
                            }
                        }
                        assert(pairs@ == before.push((&entry.0, &entry.1.1)));
                        assert(pairs@[before.len() as int].0@ == entry.0@);
                        assert(shard.order()[n as int] == entry.0@);
                    }
                }
                proof {
                    assert forall|m: int|
                        0 <= m < n + 1 && shard@[#[trigger] shard.order()[m]].0 > 0 implies exists|
                        i: int,
                    |
                        0 <= i < pairs@.len() && (#[trigger] pairs@[i]).0@ == shard.order()[m] by {
                        if m < n {
                            let i = choose|i: int|
                                0 <= i < before.len() && (#[trigger] before[i]).0@
                                    == shard.order()[m];
                            assert(pairs@[i].0@ == shard.order()[m]);
                        }
                    }
                    assert forall|i: int| earlier.len() <= i < pairs@.len() implies exists|m: int|
                        0 <= m < n + 1 && #[trigger] shard.order()[m] == (
                        #[trigger] pairs@[i]).0@ by {
                        if i < before.len() {
                            let m = choose|m: int|
                                0 <= m < n && #[trigger] shard.order()[m] == before[i].0@;
                            assert(0 <= m < n + 1 && shard.order()[m] == pairs@[i].0@);
                        } else {
                            assert(shard.order()[n as int] == pairs@[i].0@);
                        }
                    }
                }
                n = n + 1;
            }
            proof {
                shard.lemma_entries();
                assert(self.shard_view(s as int) == shard@);
                assert forall|i: int| 0 <= i < pairs@.len() implies self.held_before(
                    (#[trigger] pairs@[i]).0@,
                    s + 1,
                ) by {
                    if i < earlier.len() {
                        assert(self.held_before(earlier[i].0@, s as int));
                        let t = choose|t: int|
                            0 <= t < s && (#[trigger] self.shard_view(t)).contains_key(
                                earlier[i].0@,
                            );
                        assert(0 <= t < s + 1 && self.shard_view(t).contains_key(pairs@[i].0@));
                    } else {
                        let m = choose|m: int|
                            0 <= m < count && #[trigger] shard.order()[m] == pairs@[i].0@;
                        assert(shard.order().contains(pairs@[i].0@));
                        assert(self.shard_view(s as int).contains_key(pairs@[i].0@));
                    }
                }
                assert forall|t: int, key: K::V|
                    0 <= t < s + 1 && #[trigger] self.shard_view(t).contains_key(key)
                        && self.shard_view(t)[key].0 > 0 implies exists|i: int|
                    0 <= i < pairs@.len() && (#[trigger] pairs@[i]).0@ == key by {
                    if t < s {
                        let i = choose|i: int|
                            0 <= i < earlier.len() && (#[trigger] earlier[i]).0@ == key;
                        assert(pairs@[i].0@ == key);
                    } else {
                        assert(shard.order().contains(key));
                        let m = choose|m: int|
                            0 <= m < shard.order().len() && shard.order()[m] == key;
                        assert(shard@[shard.order()[m]].0 > 0);
                    }
                }
            }
            s = s + 1;
        }
        proof {
            self.lemma_shards();
        }
        pairs
    }

    /// Whether one of the first `n` shards holds `key`.
    spec fn held_before(&self, key: K::V, n: int) -> bool {
        exists|t: int| 0 <= t < n && (#[trigger] self.shard_view(t)).contains_key(key)
    }

    /// Whether `key` is active here with `value`.
    spec fn is_pair(&self, key: K::V, value: V) -> bool {
        self@.contains_key(key) && self@[key].0 > 0 && self@[key].1 == value
    }

    /// Maps every shard and folds the results, shard after shard.
    pub fn map_reduce_active<ShardOutput, Output, MapShard, Reduce>(
        &self,
        map_shard: MapShard,
        init: Output,
        reduce: Reduce,
    ) -> (output: Output) where
        MapShard: Fn(usize, &SortedMap<K, (Weight, V)>) -> ShardOutput,
        Reduce: Fn(Output, ShardOutput) -> Output,

        requires
            self.wf(),
            forall|i: usize, shard: &SortedMap<K, (Weight, V)>|
                shard.wf() ==> #[trigger] call_requires(map_shard, (i, shard)),
            forall|output: Output, part: ShardOutput| #[trigger]
                call_requires(reduce, (output, part)),
        ensures
            exists|outputs: Seq<Output>| #[trigger]
                self.is_fold(map_shard, reduce, outputs, self.shards()) && outputs[0] == init
                    && outputs.last() == output,
    {
        let mut output: Output = init;
        let ghost mut outputs: Seq<Output> = seq![init];
        for i in 0..self.shards.len()
            invariant
                self.wf(),
                forall|i: usize, shard: &SortedMap<K, (Weight, V)>|
                    shard.wf() ==> #[trigger] call_requires(map_shard, (i, shard)),
                forall|output: Output, part: ShardOutput| #[trigger]
                    call_requires(reduce, (output, part)),
                self.is_fold(map_shard, reduce, outputs, i as nat),
                outputs[0] == init,
                outputs.last() == output,
        {
            let part = map_shard(i, &self.shards[i]);
            let ghost mapped = part;
            output = reduce(output, part);
            proof {
                let next = outputs.push(output);
                assert forall|k: int| 0 <= k < i + 1 implies self.is_step(
                    map_shard,
                    reduce,
                    #[trigger] next[k],
                    k,
                    next[k + 1],
                ) by {
                    if k < i {
                        assert(outputs[k] == next[k] && outputs[k + 1] == next[k + 1]);
                        assert(self.is_step(map_shard, reduce, outputs[k], k, outputs[k + 1]));
                    } else {
                        let shard = self.shards@[i as int];
                        assert(shard.wf() && shard@ == self.shard_view(k));
                        assert(call_ensures(map_shard, (k as usize, &shard), mapped));
                    }
                }
                outputs = next;
            }
        }
        assert(self.is_fold(map_shard, reduce, outputs, self.shards()));
        output
    }

    /// Whether `after` is `before` with the result of shard `i` folded in: the
    /// result is one that `map_shard` gives for a map with the contents of that
    /// shard.
    pub open spec fn is_step<ShardOutput, Output, MapShard, Reduce>(
        &self,
        map_shard: MapShard,
        reduce: Reduce,
        before: Output,
        i: int,
        after: Output,
    ) -> bool where
        MapShard: Fn(usize, &SortedMap<K, (Weight, V)>) -> ShardOutput,
        Reduce: Fn(Output, ShardOutput) -> Output,
    {
        exists|shard: SortedMap<K, (Weight, V)>, part: ShardOutput|
            shard.wf() && shard@ == self.shard_view(i) && #[trigger] call_ensures(
                map_shard,
                (i as usize, &shard),
                part,
            ) && #[trigger] call_ensures(reduce, (before, part), after)
    }

    /// Whether `outputs` are the results of folding the first `n` shards, one
    /// after the other.
    pub open spec fn is_fold<ShardOutput, Output, MapShard, Reduce>(
        &self,
        map_shard: MapShard,
        reduce: Reduce,
        outputs: Seq<Output>,
        n: nat,
    ) -> bool where
        MapShard: Fn(usize, &SortedMap<K, (Weight, V)>) -> ShardOutput,
        Reduce: Fn(Output, ShardOutput) -> Output,
    {
        &&& outputs.len() == n + 1
        &&& forall|k: int|
            0 <= k < n ==> self.is_step(
                map_shard,
                reduce,
                #[trigger] outputs[k],
                k,
                outputs[k + 1],
            )
    }
}

impl<K: Element, V> Default for ZTable<K, V> {
    fn default() -> (table: Self)
        ensures
            table.wf(),
            table@ == Map::<K::V, (Weight, V)>::empty(),
    {
        Self::new()
    }
}

/// A table after an insertion.
pub open spec fn inserted<T, V>(table: Map<T, (Weight, V)>, key: T, value: V) -> Map<
    T,
    (Weight, V),
> {
    table.insert(key, ((weight_of(table, key) + 1) as Weight, value))
}

/// A table after a removal. A key that it does not hold gets `value`.
pub open spec fn removed<T, V>(table: Map<T, (Weight, V)>, key: T, value: V) -> Map<
    T,
    (Weight, V),
> {
    let weight = (weight_of(table, key) - 1) as Weight;
    if !table.contains_key(key) {
        table.insert(key, (weight, value))
    } else if weight == 0 {
        table.remove(key)
    } else {
        table.insert(key, (weight, table[key].1))
    }
}

/// A table after the insertion of a key with one value after the other.
pub open spec fn inserted_all<T, V>(table: Map<T, (Weight, V)>, key: T, values: Seq<V>) -> Map<
    T,
    (Weight, V),
>
    decreases values.len(),
{
    if values.len() == 0 {
        table
    } else {
        inserted(inserted_all(table, key, values.drop_last()), key, values.last())
    }
}

/// A table after `times` removals of a key.
pub open spec fn removed_times<T, V>(
    table: Map<T, (Weight, V)>,
    key: T,
    value: V,
    times: nat,
) -> Map<T, (Weight, V)>
    decreases times,
{
    if times == 0 {
        table
    } else {
        removed_times(removed(table, key, value), key, value, (times - 1) as nat)
    }
}

/// Removing a key as often as it was inserted leaves no trace of it.
pub proof fn law_remove_undoes_insert<T, V>(
    table: Map<T, (Weight, V)>,
    key: T,
    values: Seq<V>,
    value: V,
)
    requires
        !table.contains_key(key),
        values.len() <= Weight::MAX,
    ensures
        weight_of(inserted_all(table, key, values), key) == values.len(),
        removed_times(inserted_all(table, key, values), key, value, values.len()) == table,
{
    if values.len() > 0 {
        lemma_inserted_all(table, key, values);
        lemma_removed_times(table, key, values.last(), value, values.len());
    }
}

/// Insertions count as the weight, and the last value is kept.
proof fn lemma_inserted_all<T, V>(table: Map<T, (Weight, V)>, key: T, values: Seq<V>)
    requires
        !table.contains_key(key),
        0 < values.len() <= Weight::MAX,
    ensures
        inserted_all(table, key, values) == table.insert(
            key,
            (values.len() as Weight, values.last()),
        ),
    decreases values.len(),
{
    reveal_with_fuel(inserted_all, 2);
    if values.len() > 1 {
        lemma_inserted_all(table, key, values.drop_last());
    }
    assert(inserted_all(table, key, values) =~= table.insert(
        key,
        (values.len() as Weight, values.last()),
    ));
}

/// Removals take the weight down to nothing.
proof fn lemma_removed_times<T, V>(
    table: Map<T, (Weight, V)>,
    key: T,
    held: V,
    value: V,
    times: nat,
)
    requires
        !table.contains_key(key),
        0 < times <= Weight::MAX,
    ensures
        removed_times(table.insert(key, (times as Weight, held)), key, value, times) == table,
    decreases times,
{
    let full = table.insert(key, (times as Weight, held));
    if times == 1 {
        assert(removed(full, key, value) =~= table);
        assert(removed_times(table, key, value, 0) == table);
    } else {
        let rest = (times - 1) as nat;
        assert(removed(full, key, value) =~= table.insert(key, (rest as Weight, held)));
        lemma_removed_times(table, key, held, value, rest);
    }
}

/// Insertions and removals of one key leave the other keys alone.
pub proof fn law_weights_are_separate<T, V>(
    table: Map<T, (Weight, V)>,
    key: T,
    value: V,
    other: T,
)
    requires
        other != key,
    ensures
        weight_of(inserted(table, key, value), other) == weight_of(table, other),
        weight_of(removed(table, key, value), other) == weight_of(table, other),
        inserted(table, key, value).contains_key(other) == table.contains_key(other),
        removed(table, key, value).contains_key(other) == table.contains_key(other),
        table.contains_key(other) ==> inserted(table, key, value)[other] == table[other],
        table.contains_key(other) ==> removed(table, key, value)[other] == table[other],
{
}

impl<K: Element + Hash, V> ZTable<K, V> {
    /// Where a key is, or where it would be put.
    fn shard_index(&self, key: &K) -> (at: usize)
        requires
            self.wf(),
        ensures
            at < self.shards@.len(),
            self@.contains_key(key@) <==> self.shards@[at as int]@.contains_key(key@),
            self@.contains_key(key@) ==> self@[key@] == self.shards@[at as int]@[key@],
    {
        proof {
            self.lemma_shards();
        }
        let first: usize = (hash_of(key) % self.shards.len() as u64) as usize;
        if self.shards[first].contains_key(key) {
            assert(self.shard_view(first as int).contains_key(key@));
            return first;
        }
        for i in 0..self.shards.len()
            invariant
                self.wf(),
                first < self.shards@.len(),
                forall|j: int| 0 <= j < i ==> !(#[trigger] self.shard_view(j)).contains_key(key@),
        {
            if self.shards[i].contains_key(key) {
                proof {
                    self.lemma_shards();
                    assert(self.shard_view(i as int).contains_key(key@));
                }
                return i;
            }
        }
        proof {
            self.lemma_shards();
            assert(!self.shard_view(first as int).contains_key(key@));
        }
        first
    }

    /// Inserts the key and value, increasing the weight if it's already in
    /// there, and returns the weight.
    pub fn insert(&mut self, key: K, value: V) -> (weight: Weight)
        requires
            old(self).wf(),
            weight_of(old(self)@, key@) < Weight::MAX,
        ensures
            final(self).wf(),
            final(self).shards() == old(self).shards(),
            weight == weight_of(old(self)@, key@) + 1,
            final(self)@ == inserted(old(self)@, key@, value),
    {
        let at: usize = self.shard_index(&key);
        let ghost before = *self;
        let weight: Weight = match self.shards[at].get(&key) {
            Some(entry) => entry.0 + 1,
            None => 1,
        };
        self.shards[at].insert(key, (weight, value));
        proof {
            lemma_after_put(before, *self, at as int, key@, (weight, value));
        }
        weight
    }

    /// Decrements the weight if it's in there, or inserts with negative
    /// weight and the default value, and returns the weight. A key whose
    /// weight comes to zero is dropped.
    pub fn remove(&mut self, key: &K) -> (weight: Weight) where V: Default
        requires
            old(self).wf(),
            weight_of(old(self)@, key@) > Weight::MIN,
        ensures
            final(self).wf(),
            final(self).shards() == old(self).shards(),
            weight == weight_of(old(self)@, key@) - 1,
            old(self)@.contains_key(key@) ==> forall|value: V|
                final(self)@ == #[trigger] removed(old(self)@, key@, value),
            !old(self)@.contains_key(key@) ==> exists|value: V| #[trigger]
                call_ensures(V::default, (), value) && final(self)@ == removed(
                    old(self)@,
                    key@,
                    value,
                ),
    {
        let at: usize = self.shard_index(key);
        let ghost before = *self;
        let ghost shard = self.shards@[at as int]@;
        match self.shards[at].remove(key) {
            Some(entry) => {
                let weight: Weight = entry.0 - 1;
                if weight == 0 {
                    proof {
                        lemma_after_take(before, *self, at as int, key@);
                    }
                } else {
                    self.shards[at].insert(key.duplicate(), (weight, entry.1));
                    proof {
                        assert(shard.remove(key@).insert(key@, (weight, entry.1)) =~= shard.insert(
                            key@,
                            (weight, entry.1),
                        ));
                        lemma_after_put(before, *self, at as int, key@, (weight, entry.1));
                    }
                }
                weight
            },
            None => {
                let value = V::default();
                let weight: Weight = -1;
                self.shards[at].insert(key.duplicate(), (weight, value));
                proof {
                    assert(shard.remove(key@).insert(key@, (weight, value)) =~= shard.insert(
                        key@,
                        (weight, value),
                    ));
                    lemma_after_put(before, *self, at as int, key@, (weight, value));
                    assert(call_ensures(V::default, (), value));
                }
                weight
            },
        }
    }

    /// Gives a key a weight and a value, whatever it had before.
    pub fn restore(&mut self, key: K, weight: Weight, value: V)
        requires
            old(self).wf(),
        ensures
            final(self).wf(),
            final(self).shards() == old(self).shards(),
            final(self)@ == old(self)@.insert(key@, (weight, value)),
    {
        let at: usize = self.shard_index(&key);
        let ghost before = *self;
        self.shards[at].insert(key, (weight, value));
        proof {
            lemma_after_put(before, *self, at as int, key@, (weight, value));
        }
    }

    /// The weight of a key.
    pub fn get_weight(&self, key: &K) -> (weight: Weight)
        requires
            self.wf(),
        ensures
            weight == weight_of(self@, key@),
    {
        let at: usize = self.shard_index(key);
        match self.shards[at].get(key) {
            Some(entry) => entry.0,
            None => 0,
        }
    }

    /// Retrieves the value associated with the key, if it exists.
    pub fn get(&self, key: &K) -> (value: Option<&V>)
        requires
            self.wf(),
        ensures
            match value {
                Some(value) => self@.contains_key(key@) && self@[key@].1 == *value,
                None => !self@.contains_key(key@),
            },
    {
        let at: usize = self.shard_index(key);
        match self.shards[at].get(key) {
            Some(entry) => Some(&entry.1),
            None => None,
        }
    }
}

/// The table after one shard took or replaced a key.
proof fn lemma_after_put<K: Element, V>(
    before: ZTable<K, V>,
    after: ZTable<K, V>,
    at: int,
    key: K::V,
    entry: (Weight, V),
)
    requires
        before.wf(),
        0 <= at < before.shards@.len(),
        before@.contains_key(key) <==> before.shards@[at]@.contains_key(key),
        after.shards@.len() == before.shards@.len(),
        after.shards@[at].wf(),
        after.shards@[at]@ == before.shards@[at]@.insert(key, entry),
        forall|j: int|
            0 <= j < before.shards@.len() && j != at ==> #[trigger] after.shards@[j]
                == before.shards@[j],
    ensures
        after.wf(),
        after@ == before@.insert(key, entry),
{
    before.lemma_shards();
    assert forall|j: int| 0 <= j < before.shards@.len() && j != at implies !(
    #[trigger] before.shards@[j])@.contains_key(key) by {
        if before.shards@[j]@.contains_key(key) {
            assert(before.shard_view(j).contains_key(key));
            assert(before.shard_view(at).contains_key(key));
        }
    }
    assert(after.wf());
    after.lemma_shards();
    assert forall|k: K::V| #[trigger] after@.contains_key(k) <==> before@.contains_key(k) || k
        == key by {
        if k != key {
            if before@.contains_key(k) {
                let i = choose|i: int|
                    0 <= i < before.shards() && (#[trigger] before.shard_view(i)).contains_key(k);
                assert(after.shard_view(i).contains_key(k));
            }
            if after@.contains_key(k) {
                let i = choose|i: int|
                    0 <= i < after.shards() && (#[trigger] after.shard_view(i)).contains_key(k);
                assert(before.shard_view(i).contains_key(k));
            }
        } else {
            assert(after.shard_view(at).contains_key(k));
        }
    }
    assert forall|k: K::V| #[trigger] after@.contains_key(k) implies after@[k] == before@.insert(
        key,
        entry,
    )[k] by {
        if k != key {
            let i = choose|i: int|
                0 <= i < after.shards() && (#[trigger] after.shard_view(i)).contains_key(k);
            assert(before.shard_view(i).contains_key(k));
        } else {
            assert(after.shard_view(at).contains_key(k));
        }
    }
    assert(after@ =~= before@.insert(key, entry));
}

/// The table after the shard of a key dropped it.
proof fn lemma_after_take<K: Element, V>(
    before: ZTable<K, V>,
    after: ZTable<K, V>,
    at: int,
    key: K::V,
)
    requires
        before.wf(),
        0 <= at < before.shards@.len(),
        before.shards@[at]@.contains_key(key),
        after.shards@.len() == before.shards@.len(),
        after.shards@[at].wf(),
        after.shards@[at]@ == before.shards@[at]@.remove(key),
        forall|j: int|
            0 <= j < before.shards@.len() && j != at ==> #[trigger] after.shards@[j]
                == before.shards@[j],
    ensures
        after.wf(),
        after@ == before@.remove(key),
{
    before.lemma_shards();
    assert(after.wf());
    after.lemma_shards();
    assert(before.shard_view(at).contains_key(key));
    assert forall|k: K::V| #[trigger] after@.contains_key(k) <==> before@.contains_key(k) && k
        != key by {
        if before@.contains_key(k) && k != key {
            let i = choose|i: int|
                0 <= i < before.shards() && (#[trigger] before.shard_view(i)).contains_key(k);
            assert(after.shard_view(i).contains_key(k));
        }
        if after@.contains_key(k) {
            let i = choose|i: int|
                0 <= i < after.shards() && (#[trigger] after.shard_view(i)).contains_key(k);
            assert(before.shard_view(i).contains_key(k));
        }
    }
    assert forall|k: K::V| #[trigger] after@.contains_key(k) implies after@[k] == before@[k] by {
        let i = choose|i: int|
            0 <= i < after.shards() && (#[trigger] after.shard_view(i)).contains_key(k);
        assert(before.shard_view(i).contains_key(k));
    }
    assert(after@ =~= before@.remove(key));
}

} // verus!
