//! Totally ordered types, and the map that keeps its keys in that order.

use vstd::prelude::*;

pub mod operations;

verus! {

/// A type whose values are told apart and totally ordered by their views.
pub trait Element: View + Sized {
    /// The strict order on views.
    spec fn precedes(a: Self::V, b: Self::V) -> bool;

    /// `precedes` is a strict total order.
    proof fn order_is_total(a: Self::V, b: Self::V, c: Self::V)
        ensures
            !Self::precedes(a, a),
            Self::precedes(a, b) && Self::precedes(b, c) ==> Self::precedes(a, c),
            Self::precedes(a, b) || a == b || Self::precedes(b, a),
    ;

    /// Whether `self` comes before `other`.
    fn before(&self, other: &Self) -> (before: bool)
        ensures
            before == Self::precedes(self@, other@),
    ;

    /// Whether the two are equal.
    fn same(&self, other: &Self) -> (same: bool)
        ensures
            same == (self@ == other@),
    ;

    /// A copy.
    fn duplicate(&self) -> (copy: Self)
        ensures
            copy@ == self@,
    ;
}

impl Element for u32 {
    open spec fn precedes(a: u32, b: u32) -> bool {
        a < b
    }

    proof fn order_is_total(a: u32, b: u32, c: u32) {
    }

    fn before(&self, other: &u32) -> (before: bool) {
        *self < *other
    }

    fn same(&self, other: &u32) -> (same: bool) {
        *self == *other
    }

    fn duplicate(&self) -> (copy: u32) {
        *self
    }
}

impl Element for u64 {
    open spec fn precedes(a: u64, b: u64) -> bool {
        a < b
    }

    proof fn order_is_total(a: u64, b: u64, c: u64) {
    }

    fn before(&self, other: &u64) -> (before: bool) {
        *self < *other
    }

    fn same(&self, other: &u64) -> (same: bool) {
        *self == *other
    }

    fn duplicate(&self) -> (copy: u64) {
        *self
    }
}

impl Element for u128 {
    open spec fn precedes(a: u128, b: u128) -> bool {
        a < b
    }

    proof fn order_is_total(a: u128, b: u128, c: u128) {
    }

    fn before(&self, other: &u128) -> (before: bool) {
        *self < *other
    }

    fn same(&self, other: &u128) -> (same: bool) {
        *self == *other
    }

    fn duplicate(&self) -> (copy: u128) {
        *self
    }
}

impl Element for usize {
    open spec fn precedes(a: usize, b: usize) -> bool {
        a < b
    }

    proof fn order_is_total(a: usize, b: usize, c: usize) {
    }

    fn before(&self, other: &usize) -> (before: bool) {
        *self < *other
    }

    fn same(&self, other: &usize) -> (same: bool) {
        *self == *other
    }

    fn duplicate(&self) -> (copy: usize) {
        *self
    }
}

impl Element for i32 {
    open spec fn precedes(a: i32, b: i32) -> bool {
        a < b
    }

    proof fn order_is_total(a: i32, b: i32, c: i32) {
    }

    fn before(&self, other: &i32) -> (before: bool) {
        *self < *other
    }

    fn same(&self, other: &i32) -> (same: bool) {
        *self == *other
    }

    fn duplicate(&self) -> (copy: i32) {
        *self
    }
}

impl Element for i64 {
    open spec fn precedes(a: i64, b: i64) -> bool {
        a < b
    }

    proof fn order_is_total(a: i64, b: i64, c: i64) {
    }

    fn before(&self, other: &i64) -> (before: bool) {
        *self < *other
    }

    fn same(&self, other: &i64) -> (same: bool) {
        *self == *other
    }

    fn duplicate(&self) -> (copy: i64) {
        *self
    }
}

/// The lexicographic order on byte sequences.
pub open spec fn bytes_precede(a: Seq<u8>, b: Seq<u8>) -> bool
    decreases a.len(),
{
    if b.len() == 0 {
        false
    } else if a.len() == 0 {
        true
    } else if a[0] != b[0] {
        a[0] < b[0]
    } else {
        bytes_precede(a.drop_first(), b.drop_first())
    }
}

/// The lexicographic order on byte sequences is a strict total order.
proof fn lemma_bytes_precede(a: Seq<u8>, b: Seq<u8>, c: Seq<u8>)
    ensures
        !bytes_precede(a, a),
        bytes_precede(a, b) && bytes_precede(b, c) ==> bytes_precede(a, c),
        bytes_precede(a, b) || a == b || bytes_precede(b, a),
    decreases a.len(),
{
    if a.len() > 0 {
        let b_rest = if b.len() > 0 {
            b.drop_first()
        } else {
            b
        };
        let c_rest = if c.len() > 0 {
            c.drop_first()
        } else {
            c
        };
        lemma_bytes_precede(a.drop_first(), b_rest, c_rest);
        if b.len() > 0 && a[0] == b[0] && a.drop_first() == b.drop_first() {
            assert(a =~= seq![a[0]] + a.drop_first());
            assert(b =~= seq![b[0]] + b.drop_first());
            assert(a == b);
        }
    } else if b.len() == 0 {
        assert(a =~= b);
    }
}

/// What two byte sequences have in common up front does not decide their
/// order.
proof fn lemma_bytes_precede_skip(a: Seq<u8>, b: Seq<u8>, n: int)
    requires
        0 <= n <= a.len(),
        n <= b.len(),
        forall|i: int| 0 <= i < n ==> a[i] == b[i],
    ensures
        bytes_precede(a, b) == bytes_precede(a.skip(n), b.skip(n)),
    decreases n,
{
    if n == 0 {
        assert(a.skip(0) =~= a);
        assert(b.skip(0) =~= b);
    } else {
        assert forall|i: int| 0 <= i < n - 1 implies a.drop_first()[i] == b.drop_first()[i] by {
            assert(a[i + 1] == b[i + 1]);
        }
        assert(a[0] == b[0]);
        lemma_bytes_precede_skip(a.drop_first(), b.drop_first(), n - 1);
        assert(a.drop_first().skip(n - 1) =~= a.skip(n));
        assert(b.drop_first().skip(n - 1) =~= b.skip(n));
    }
}

/// Compares two byte sequences lexicographically.
fn bytes_before(a: &[u8], b: &[u8]) -> (before: bool)
    ensures
        before == bytes_precede(a@, b@),
{
    let mut i: usize = 0;
    while i < a.len() && i < b.len() && a[i] == b[i]
        invariant
            i <= a@.len(),
            i <= b@.len(),
            forall|j: int| 0 <= j < i ==> a@[j] == b@[j],
        decreases a@.len() - i,
    {
        i = i + 1;
    }
    proof {
        lemma_bytes_precede_skip(a@, b@, i as int);
    }
    if i == b.len() {
        false
    } else if i == a.len() {
        true
    } else {
        a[i] < b[i]
    }
}

/// The order of texts: that of their UTF-8 bytes.
pub open spec fn text_precedes(a: Seq<char>, b: Seq<char>) -> bool {
    bytes_precede(vstd::utf8::encode_utf8(a), vstd::utf8::encode_utf8(b))
}

/// The order of texts is a strict total order.
proof fn lemma_text_precedes(a: Seq<char>, b: Seq<char>, c: Seq<char>)
    ensures
        !text_precedes(a, a),
        text_precedes(a, b) && text_precedes(b, c) ==> text_precedes(a, c),
        text_precedes(a, b) || a == b || text_precedes(b, a),
{
    lemma_bytes_precede(
        vstd::utf8::encode_utf8(a),
        vstd::utf8::encode_utf8(b),
        vstd::utf8::encode_utf8(c),
    );
    vstd::utf8::encode_utf8_decode_utf8(a);
    vstd::utf8::encode_utf8_decode_utf8(b);
}

/// Whether two texts are equal.
pub fn same_text(a: &str, b: &str) -> (same: bool)
    ensures
        same == (a@ == b@),
{
    let a_bytes = a.as_bytes();
    let b_bytes = b.as_bytes();
    proof {
        vstd::utf8::encode_utf8_decode_utf8(a@);
        vstd::utf8::encode_utf8_decode_utf8(b@);
    }
    if a_bytes.len() != b_bytes.len() {
        return false;
    }
    for i in 0..a_bytes.len()
        invariant
            a_bytes@.len() == b_bytes@.len(),
            a_bytes@ == vstd::utf8::encode_utf8(a@),
            b_bytes@ == vstd::utf8::encode_utf8(b@),
            forall|j: int| 0 <= j < i ==> a_bytes@[j] == b_bytes@[j],
    {
        if a_bytes[i] != b_bytes[i] {
            return false;
        }
    }
    assert(a_bytes@ =~= b_bytes@);
    true
}

impl Element for String {
    open spec fn precedes(a: Seq<char>, b: Seq<char>) -> bool {
        text_precedes(a, b)
    }

    proof fn order_is_total(a: Seq<char>, b: Seq<char>, c: Seq<char>) {
        lemma_text_precedes(a, b, c);
    }

    fn before(&self, other: &String) -> (before: bool) {
        bytes_before(self.as_str().as_bytes(), other.as_str().as_bytes())
    }

    fn same(&self, other: &String) -> (same: bool) {
        same_text(self.as_str(), other.as_str())
    }

    fn duplicate(&self) -> (copy: String) {
        self.clone()
    }
}

impl<'a> Element for &'a str {
    open spec fn precedes(a: Seq<char>, b: Seq<char>) -> bool {
        text_precedes(a, b)
    }

    proof fn order_is_total(a: Seq<char>, b: Seq<char>, c: Seq<char>) {
        lemma_text_precedes(a, b, c);
    }

    fn before(&self, other: &&'a str) -> (before: bool) {
        bytes_before(self.as_bytes(), other.as_bytes())
    }

    fn same(&self, other: &&'a str) -> (same: bool) {
        same_text(*self, *other)
    }

    fn duplicate(&self) -> (copy: &'a str) {
        *self
    }
}

impl<A: Element, B: Element> Element for (A, B) {
    open spec fn precedes(a: (A::V, B::V), b: (A::V, B::V)) -> bool {
        A::precedes(a.0, b.0) || (a.0 == b.0 && B::precedes(a.1, b.1))
    }

    proof fn order_is_total(a: (A::V, B::V), b: (A::V, B::V), c: (A::V, B::V)) {
        A::order_is_total(a.0, b.0, c.0);
        A::order_is_total(b.0, a.0, c.0);
        B::order_is_total(a.1, b.1, c.1);
    }

    fn before(&self, other: &(A, B)) -> (before: bool) {
        self.0.before(&other.0) || (self.0.same(&other.0) && self.1.before(&other.1))
    }

    fn same(&self, other: &(A, B)) -> (same: bool) {
        self.0.same(&other.0) && self.1.same(&other.1)
    }

    fn duplicate(&self) -> (copy: (A, B)) {
        (self.0.duplicate(), self.1.duplicate())
    }
}

/// Whether a list of views is strictly ascending.
pub open spec fn ordered<K: Element>(keys: Seq<K::V>) -> bool {
    forall|i: int, j: int| 0 <= i < j < keys.len() ==> K::precedes(keys[i], keys[j])
}

/// Whether `list` holds the elements of `set`, in ascending order.
pub open spec fn lists<K: Element>(list: Seq<K::V>, set: Set<K::V>) -> bool {
    &&& ordered::<K>(list)
    &&& forall|key: K::V| #[trigger] list.contains(key) <==> set.contains(key)
}

/// Two ascending lists of the same views are the same list.
pub proof fn lemma_ordered_is_unique<K: Element>(one: Seq<K::V>, other: Seq<K::V>)
    requires
        ordered::<K>(one),
        ordered::<K>(other),
        forall|key: K::V| #[trigger] one.contains(key) <==> other.contains(key),
    ensures
        one == other,
    decreases one.len(),
{
    if one.len() == 0 {
        if other.len() > 0 {
            assert(other.contains(other[0]));
            assert(one.contains(other[0]));
        }
        assert(one =~= other);
    } else {
        assert(one.contains(one.last()));
        assert(other.len() > 0);
        assert(other.contains(other.last()));
        assert(one.contains(other.last()));
        let a = one.last();
        let b = other.last();
        let i = choose|i: int| 0 <= i < one.len() && one[i] == b;
        let j = choose|j: int| 0 <= j < other.len() && other[j] == a;
        K::order_is_total(a, b, a);
        if a != b {
            assert(K::precedes(one[i], one[one.len() - 1]));
            assert(K::precedes(other[j], other[other.len() - 1]));
        }
        let front = one.drop_last();
        let rest = other.drop_last();
        assert forall|p: int, q: int| 0 <= p < q < front.len() implies K::precedes(
            front[p],
            front[q],
        ) by {
            assert(K::precedes(one[p], one[q]));
        }
        assert forall|p: int, q: int| 0 <= p < q < rest.len() implies K::precedes(
            rest[p],
            rest[q],
        ) by {
            assert(K::precedes(other[p], other[q]));
        }
        assert forall|key: K::V| #[trigger] front.contains(key) <==> rest.contains(key) by {
            lemma_front_contains::<K>(one, key);
            lemma_front_contains::<K>(other, key);
            assert(one.contains(key) <==> other.contains(key));
        }
        lemma_ordered_is_unique::<K>(front, rest);
        assert(one =~= front.push(a));
        assert(other =~= rest.push(b));
    }
}

/// What an ascending list holds before its last place.
proof fn lemma_front_contains<K: Element>(list: Seq<K::V>, key: K::V)
    requires
        ordered::<K>(list),
        list.len() > 0,
    ensures
        list.drop_last().contains(key) <==> list.contains(key) && key != list.last(),
{
    let front = list.drop_last();
    if front.contains(key) {
        let i = choose|i: int| 0 <= i < front.len() && front[i] == key;
        assert(list[i] == key);
        assert(K::precedes(list[i], list[list.len() - 1]));
        K::order_is_total(key, key, key);
    }
    if list.contains(key) && key != list.last() {
        let i = choose|i: int| 0 <= i < list.len() && list[i] == key;
        assert(front[i] == key);
    }
}

/// A map whose entries stand in the order of their keys.
#[derive(Debug, Clone, PartialEq)]
pub struct SortedMap<K, V> {
    entries: Vec<(K, V)>,
}

impl<K: Element, V> View for SortedMap<K, V> {
    type V = Map<K::V, V>;

    closed spec fn view(&self) -> Map<K::V, V> {
        Map::new(
            |key: K::V| self.order().contains(key),
            |key: K::V| self.entries@[self.order().index_of(key)].1,
        )
    }
}

impl<K: Element, V> SortedMap<K, V> {
    /// The keys, in the order in which they stand.
    pub closed spec fn order(&self) -> Seq<K::V> {
        self.entries@.map_values(|entry: (K, V)| entry.0@)
    }

    /// The keys stand in ascending order, each of them once.
    pub closed spec fn wf(&self) -> bool {
        ordered::<K>(self.order())
    }

    /// What a well-formed map holds, place by place.
    pub proof fn lemma_entries(&self)
        requires
            self.wf(),
        ensures
            ordered::<K>(self.order()),
            self.order().no_duplicates(),
            self@.dom().finite(),
            self@.dom().len() == self.order().len(),
            forall|key: K::V| #[trigger] self@.contains_key(key) <==> self.order().contains(key),
    {
        assert forall|i: int, j: int|
            0 <= i < self.order().len() && 0 <= j < self.order().len() && i != j implies
            self.order()[i] != self.order()[j] by {
            K::order_is_total(self.order()[i], self.order()[j], self.order()[i]);
            if i < j {
                assert(K::precedes(self.order()[i], self.order()[j]));
            } else {
                assert(K::precedes(self.order()[j], self.order()[i]));
            }
        }
        self.order().unique_seq_to_set();
        assert(self@.dom() =~= self.order().to_set());
    }

    /// The value of the key at place `i`.
    proof fn lemma_entry(&self, i: int)
        requires
            self.wf(),
            0 <= i < self.entries@.len(),
        ensures
            self@.contains_key(self.entries@[i].0@),
            self@[self.entries@[i].0@] == self.entries@[i].1,
            self.order()[i] == self.entries@[i].0@,
            self.order().len() == self.entries@.len(),
    {
        self.lemma_entries();
        let key = self.entries@[i].0@;
        assert(self.order()[i] == key);
        assert(self.order().contains(key));
        let at = self.order().index_of(key);
        assert(self.order()[at] == key);
    }

    /// The empty map.
    pub fn new() -> (map: Self)
        ensures
            map.wf(),
            map@ == Map::<K::V, V>::empty(),
    {
        let map = SortedMap { entries: Vec::new() };
        assert(map@ =~= Map::<K::V, V>::empty());
        map
    }

    /// The number of keys.
    pub fn len(&self) -> (count: usize)
        requires
            self.wf(),
        ensures
            count == self@.dom().len(),
            count == self.order().len(),
    {
        proof {
            self.lemma_entries();
        }
        self.entries.len()
    }

    /// Whether there are no keys.
    pub fn is_empty(&self) -> (empty: bool)
        requires
            self.wf(),
        ensures
            empty == (self@ == Map::<K::V, V>::empty()),
    {
        proof {
            self.lemma_entries();
            if self.entries@.len() == 0 {
                assert(self@ =~= Map::<K::V, V>::empty());
            } else {
                assert(self.order().contains(self.order()[0]));
            }
        }
        self.entries.len() == 0
    }

    /// Where `key` stands, or where it would.
    fn find(&self, key: &K) -> (found: (bool, usize))
        requires
            self.wf(),
        ensures
            found.1 <= self.entries@.len(),
            forall|i: int|
                0 <= i < found.1 ==> K::precedes(#[trigger] self.entries@[i].0@, key@),
            forall|i: int|
                found.1 <= i < self.entries@.len() ==> !K::precedes(
                    #[trigger] self.entries@[i].0@,
                    key@,
                ),
            found.0 == self@.contains_key(key@),
            found.0 ==> found.1 < self.entries@.len() && self.entries@[found.1 as int].0@ == key@,
    {
        let mut low: usize = 0;
        let mut high: usize = self.entries.len();
        while low < high
            invariant
                self.wf(),
                low <= high <= self.entries@.len(),
                forall|i: int| 0 <= i < low ==> K::precedes(#[trigger] self.entries@[i].0@, key@),
                forall|i: int|
                    high <= i < self.entries@.len() ==> !K::precedes(
                        #[trigger] self.entries@[i].0@,
                        key@,
                    ),
            decreases high - low,
        {
            let middle: usize = low + (high - low) / 2;
            proof {
                assert forall|i: int, j: int|
                    0 <= i <= j < self.entries@.len() && K::precedes(
                        #[trigger] self.entries@[j].0@,
                        key@,
                    ) implies K::precedes(#[trigger] self.entries@[i].0@, key@) by {
                    self.lemma_entry(i);
                    self.lemma_entry(j);
                    if i < j {
                        assert(K::precedes(self.order()[i], self.order()[j]));
                        K::order_is_total(self.order()[i], self.order()[j], key@);
                    }
                }
            }
            if self.entries[middle].0.before(key) {
                low = middle + 1;
            } else {
                high = middle;
            }
        }
        let found: bool = low < self.entries.len() && self.entries[low].0.same(key);
        proof {
            self.lemma_entries();
            if found {
                self.lemma_entry(low as int);
            }
            if self@.contains_key(key@) {
                let i = choose|i: int| 0 <= i < self.order().len() && self.order()[i] == key@;
                self.lemma_entry(i);
                K::order_is_total(key@, key@, key@);
                assert(self.entries@[i].0@ == key@);
                assert(low <= i);
                if low < i {
                    self.lemma_entry(low as int);
                    assert(K::precedes(self.order()[low as int], self.order()[i]));
                }
            }
        }
        (found, low)
    }

    /// Whether the map holds `key`.
    pub fn contains_key(&self, key: &K) -> (contained: bool)
        requires
            self.wf(),
        ensures
            contained == self@.contains_key(key@),
    {
        self.find(key).0
    }

    /// The value of `key`.
    pub fn get(&self, key: &K) -> (value: Option<&V>)
        requires
            self.wf(),
        ensures
            match value {
                Some(value) => self@.contains_key(key@) && self@[key@] == *value,
                None => !self@.contains_key(key@),
            },
    {
        let (found, at) = self.find(key);
        if found {
            proof {
                self.lemma_entry(at as int);
            }
            Some(&self.entries[at].1)
        } else {
            None
        }
    }

    /// The entry at place `i`.
    pub fn entry(&self, i: usize) -> (entry: &(K, V))
        requires
            self.wf(),
            i < self.order().len(),
        ensures
            entry.0@ == self.order()[i as int],
            self@.contains_key(entry.0@),
            self@[entry.0@] == entry.1,
    {
        proof {
            assert(self.order().len() == self.entries@.len());
            self.lemma_entry(i as int);
        }
        &self.entries[i]
    }

    /// Sets the value of `key`, and returns the one that it had.
    pub fn insert(&mut self, key: K, value: V) -> (replaced: Option<V>)
        requires
            old(self).wf(),
        ensures
            final(self).wf(),
            final(self)@ == old(self)@.insert(key@, value),
            replaced == old(self)@.get(key@),
    {
        let (found, at) = self.find(&key);
        let ghost before = *self;
        let mut replaced: Option<V> = None;
        if found {
            proof {
                before.lemma_entry(at as int);
            }
            let (_, previous) = self.entries.remove(at);
            replaced = Some(previous);
        }
        let ghost middle = self.entries@;
        self.entries.insert(at, (key, value));
        proof {
            let gap = if found {
                1int
            } else {
                0int
            };
            let after = *self;
            // Every place holds what it held before, but for the one of `key`.
            assert forall|i: int| 0 <= i < after.entries@.len() implies #[trigger] after.entries@[i]
                == if i < at {
                before.entries@[i]
            } else if i == at {
                (key, value)
            } else {
                before.entries@[i - 1 + gap]
            } by {}
            assert forall|i: int, j: int| 0 <= i < j < after.order().len() implies K::precedes(
                after.order()[i],
                after.order()[j],
            ) by {
                assert(after.order()[i] == after.entries@[i].0@);
                assert(after.order()[j] == after.entries@[j].0@);
                before.lemma_entries();
                if i == at {
                    let b = j - 1 + gap;
                    before.lemma_entry(b);
                    K::order_is_total(key@, before.entries@[b].0@, key@);
                    if found {
                        before.lemma_entry(at as int);
                        assert(K::precedes(before.order()[at as int], before.order()[b]));
                    } else {
                        assert(before.entries@[b].0@ != key@);
                    }
                } else if j == at {
                    before.lemma_entry(i);
                } else {
                    let a = if i < at {
                        i
                    } else {
                        i - 1 + gap
                    };
                    let b = if j < at {
                        j
                    } else {
                        j - 1 + gap
                    };
                    before.lemma_entry(a);
                    before.lemma_entry(b);
                    assert(K::precedes(before.order()[a], before.order()[b]));
                }
            }
            assert(after.wf());
            lemma_map_after_insert(before, after, key, value, at as int, gap);
        }
        replaced
    }

    /// Removes `key`, and returns its value.
    pub fn remove(&mut self, key: &K) -> (removed: Option<V>)
        requires
            old(self).wf(),
        ensures
            final(self).wf(),
            final(self)@ == old(self)@.remove(key@),
            removed == old(self)@.get(key@),
    {
        let (found, at) = self.find(key);
        let ghost before = *self;
        if !found {
            assert(self@.remove(key@) =~= self@);
            return None;
        }
        proof {
            before.lemma_entry(at as int);
        }
        let (_, value) = self.entries.remove(at);
        proof {
            let after = *self;
            assert forall|i: int| 0 <= i < after.entries@.len() implies #[trigger] after.entries@[i]
                == before.entries@[if i < at {
                i
            } else {
                i + 1
            }] by {}
            assert forall|i: int, j: int| 0 <= i < j < after.order().len() implies K::precedes(
                after.order()[i],
                after.order()[j],
            ) by {
                let a = if i < at {
                    i
                } else {
                    i + 1
                };
                let b = if j < at {
                    j
                } else {
                    j + 1
                };
                before.lemma_entry(a);
                before.lemma_entry(b);
                assert(K::precedes(before.order()[a], before.order()[b]));
            }
            assert(after.wf());
            before.lemma_entries();
            after.lemma_entries();
            assert forall|k: K::V| #[trigger] after@.contains_key(k) <==> before@.contains_key(k)
                && k != key@ by {
                if after@.contains_key(k) {
                    let i = choose|i: int| 0 <= i < after.order().len() && after.order()[i] == k;
                    let a = if i < at {
                        i
                    } else {
                        i + 1
                    };
                    before.lemma_entry(a);
                    after.lemma_entry(i);
                    before.lemma_entry(at as int);
                    assert(before.order()[a] != before.order()[at as int]);
                }
                if before@.contains_key(k) && k != key@ {
                    let a = choose|a: int| 0 <= a < before.order().len() && before.order()[a] == k;
                    before.lemma_entry(a);
                    let i = if a < at {
                        a
                    } else {
                        a - 1
                    };
                    after.lemma_entry(i);
                }
            }
            assert forall|k: K::V| #[trigger] after@.contains_key(k) implies after@[k]
                == before@[k] by {
                let i = choose|i: int| 0 <= i < after.order().len() && after.order()[i] == k;
                let a = if i < at {
                    i
                } else {
                    i + 1
                };
                before.lemma_entry(a);
                after.lemma_entry(i);
            }
            assert(after@ =~= before@.remove(key@));
        }
        Some(value)
    }
}

/// The map after an entry was put at place `at`, in the stead of `gap` others.
proof fn lemma_map_after_insert<K: Element, V>(
    before: SortedMap<K, V>,
    after: SortedMap<K, V>,
    key: K,
    value: V,
    at: int,
    gap: int,
)
    requires
        before.wf(),
        after.wf(),
        gap == 0 || gap == 1,
        gap == 1 <==> before@.contains_key(key@),
        0 <= at <= before.entries@.len(),
        gap == 1 ==> at < before.entries@.len() && before.entries@[at].0@ == key@,
        after.entries@.len() == before.entries@.len() + 1 - gap,
        forall|i: int|
            0 <= i < after.entries@.len() ==> #[trigger] after.entries@[i] == if i < at {
                before.entries@[i]
            } else if i == at {
                (key, value)
            } else {
                before.entries@[i - 1 + gap]
            },
    ensures
        after@ == before@.insert(key@, value),
{
    before.lemma_entries();
    after.lemma_entries();
    after.lemma_entry(at);
    assert forall|k: K::V| #[trigger] after@.contains_key(k) <==> before@.contains_key(k) || k
        == key@ by {
        if after@.contains_key(k) && k != key@ {
            let i = choose|i: int| 0 <= i < after.order().len() && after.order()[i] == k;
            after.lemma_entry(i);
            before.lemma_entry(
                if i < at {
                    i
                } else {
                    i - 1 + gap
                },
            );
        }
        if before@.contains_key(k) && k != key@ {
            let a = choose|a: int| 0 <= a < before.order().len() && before.order()[a] == k;
            before.lemma_entry(a);
            after.lemma_entry(
                if a < at {
                    a
                } else {
                    a + 1 - gap
                },
            );
        }
    }
    assert forall|k: K::V| #[trigger] after@.contains_key(k) implies after@[k] == before@.insert(
        key@,
        value,
    )[k] by {
        if k != key@ {
            let i = choose|i: int| 0 <= i < after.order().len() && after.order()[i] == k;
            after.lemma_entry(i);
            before.lemma_entry(
                if i < at {
                    i
                } else {
                    i - 1 + gap
                },
            );
        }
    }
    assert(after@ =~= before@.insert(key@, value));
}

/// A set whose elements stand in order.
#[derive(Debug, Clone, PartialEq)]
pub struct SortedSet<K> {
    map: SortedMap<K, ()>,
}

impl<K: Element> View for SortedSet<K> {
    type V = Set<K::V>;

    closed spec fn view(&self) -> Set<K::V> {
        self.map@.dom()
    }
}

impl<K: Element> SortedSet<K> {
    /// The elements, in the order in which they stand.
    pub closed spec fn order(&self) -> Seq<K::V> {
        self.map.order()
    }

    /// The elements stand in ascending order, each of them once.
    pub closed spec fn wf(&self) -> bool {
        self.map.wf()
    }

    /// What a well-formed set holds, place by place.
    pub proof fn lemma_elements(&self)
        requires
            self.wf(),
        ensures
            ordered::<K>(self.order()),
            self.order().no_duplicates(),
            self@.finite(),
            self@.len() == self.order().len(),
            forall|key: K::V| #[trigger] self@.contains(key) <==> self.order().contains(key),
    {
        self.map.lemma_entries();
        assert forall|key: K::V| #[trigger] self@.contains(key) <==> self.order().contains(key) by {
            assert(self.map@.contains_key(key) <==> self.map.order().contains(key));
        }
    }

    /// The empty set.
    pub fn new() -> (set: Self)
        ensures
            set.wf(),
            set@ == Set::<K::V>::empty(),
    {
        let set = SortedSet { map: SortedMap::new() };
        assert(set@ =~= Set::<K::V>::empty());
        set
    }

    /// The number of elements.
    pub fn len(&self) -> (count: usize)
        requires
            self.wf(),
        ensures
            count == self@.len(),
            count == self.order().len(),
    {
        self.map.len()
    }

    /// Whether the set holds `key`.
    pub fn contains(&self, key: &K) -> (contained: bool)
        requires
            self.wf(),
        ensures
            contained == self@.contains(key@),
    {
        self.map.contains_key(key)
    }

    /// The element at place `i`.
    pub fn at(&self, i: usize) -> (key: &K)
        requires
            self.wf(),
            i < self.order().len(),
        ensures
            key@ == self.order()[i as int],
            self@.contains(key@),
    {
        &self.map.entry(i).0
    }

    /// Adds `key`, and returns whether it was new.
    pub fn insert(&mut self, key: K) -> (added: bool)
        requires
            old(self).wf(),
        ensures
            final(self).wf(),
            final(self)@ == old(self)@.insert(key@),
            added == !old(self)@.contains(key@),
    {
        let ghost before = self.map@;
        let replaced = self.map.insert(key, ());
        assert(self@ =~= old(self)@.insert(key@));
        replaced.is_none()
    }

    /// Takes `key` out, and returns whether it was there.
    pub fn remove(&mut self, key: &K) -> (removed: bool)
        requires
            old(self).wf(),
        ensures
            final(self).wf(),
            final(self)@ == old(self)@.remove(key@),
            removed == old(self)@.contains(key@),
    {
        let removed = self.map.remove(key);
        assert(self@ =~= old(self)@.remove(key@));
        removed.is_some()
    }

    /// A copy.
    pub fn duplicate(&self) -> (copy: Self)
        requires
            self.wf(),
        ensures
            copy.wf(),
            copy@ == self@,
    {
        let mut copy: SortedSet<K> = SortedSet::new();
        let count: usize = self.len();
        for i in 0..count
            invariant
                self.wf(),
                count == self.order().len(),
                copy.wf(),
                forall|key: K::V| #[trigger]
                    copy@.contains(key) <==> exists|j: int|
                        0 <= j < i && #[trigger] self.order()[j] == key,
        {
            let ghost before = copy@;
            let key = self.at(i).duplicate();
            copy.insert(key);
            proof {
                assert(self.order()[i as int] == key@);
                assert forall|k: K::V| #[trigger] copy@.contains(k) <==> exists|j: int|
                    0 <= j < i + 1 && #[trigger] self.order()[j] == k by {
                    if before.contains(k) {
                        let j = choose|j: int| 0 <= j < i && #[trigger] self.order()[j] == k;
                        assert(0 <= j < i + 1 && self.order()[j] == k);
                    }
                }
            }
        }
        proof {
            self.lemma_elements();
            assert forall|key: K::V| copy@.contains(key) <==> self@.contains(key) by {
                if self@.contains(key) {
                    assert(self.order().contains(key));
                    let j = choose|j: int| 0 <= j < self.order().len() && self.order()[j] == key;
                }
                if copy@.contains(key) {
                    let j = choose|j: int| 0 <= j < count && #[trigger] self.order()[j] == key;
                    assert(self.order().contains(key));
                }
            }
            assert(copy@ =~= self@);
        }
        copy
    }
}

} // verus!
