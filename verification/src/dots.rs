//! Dots, version vectors and the version matrix from which the stable frontier
//! is computed.

use std::cmp::Ordering;
use std::collections::HashMap;
use vstd::prelude::*;
use crate::crdt::STABLE_REPLICA_PID;
use crate::prelude::Pid;

pub mod dot_map;
pub mod laws;
pub mod matrix;
pub mod operations;

pub use dot_map::DotMap;
pub use matrix::{MatrixView, VersionMatrix};

verus! {

broadcast use vstd::std_specs::hash::group_hash_axioms;

/// Sequence number of an operation at its origin; the first one is `0`.
pub type Counter = i64;

/// One operation: the replica that issued it and its sequence number there.
#[derive(Debug, Clone, Copy, PartialEq, Eq, PartialOrd, Ord, Hash, Structural)]
pub struct Dot {
    pub pid: Pid,
    pub counter: Counter,
}

/// Whether a list of identities is strictly ascending.
pub open spec fn ascending(pids: Seq<Pid>) -> bool {
    forall|i: int, j: int| 0 <= i < j < pids.len() ==> pids[i] < pids[j]
}

/// Puts `pid` at its place in an ascending list that does not hold it.
fn insert_ascending(pids: &mut Vec<Pid>, pid: Pid)
    requires
        ascending(old(pids)@),
        !old(pids)@.contains(pid),
    ensures
        ascending(final(pids)@),
        forall|p: Pid| #[trigger] final(pids)@.contains(p) <==> old(pids)@.contains(p) || p == pid,
{
    let mut at: usize = 0;
    while at < pids.len() && pids[at] < pid
        invariant
            at <= pids@.len(),
            pids@ == old(pids)@,
            forall|i: int| 0 <= i < at ==> pids@[i] < pid,
        decreases pids@.len() - at,
    {
        at = at + 1;
    }
    let ghost before = pids@;
    pids.insert(at, pid);
    proof {
        let after = pids@;
        assert(after == before.insert(at as int, pid));
        assert forall|p: Pid| after.contains(p) == (before.contains(p) || p == pid) by {
            if before.contains(p) {
                let i = choose|i: int| 0 <= i < before.len() && before[i] == p;
                assert(after[if i < at { i } else { i + 1 }] == p);
            }
            if p == pid {
                assert(after[at as int] == p);
            }
            if after.contains(p) {
                let i = choose|i: int| 0 <= i < after.len() && after[i] == p;
                if i < at {
                    assert(before[i] == p);
                } else if i > at {
                    assert(before[i - 1] == p);
                }
            }
        }
        assert(at < before.len() ==> before.contains(before[at as int]));
    }
}

/// The keys of a map, in ascending order.
pub fn ascending_keys<V>(map: &HashMap<Pid, V>) -> (pids: Vec<Pid>)
    ensures
        ascending(pids@),
        forall|p: Pid| #[trigger] pids@.contains(p) <==> map@.contains_key(p),
{
    let mut pids: Vec<Pid> = Vec::new();
    let keys = map.keys();
    let ghost all = vstd::std_specs::iter::IteratorSpec::remaining(&keys);
    for key in it: keys
        invariant
            ascending(pids@),
            it.seq() == all,
            all.no_duplicates(),
            forall|p: Pid| #[trigger]
                pids@.contains(p) <==> exists|i: int|
                    0 <= i < it.index() && *(#[trigger] it.seq()[i]) == p,
    {
        proof {
            if pids@.contains(*key) {
                let i = choose|i: int| 0 <= i < it.index() && *(#[trigger] it.seq()[i]) == *key;
                assert(it.seq()[i] == it.seq()[it.index() as int]);
            }
        }
        insert_ascending(&mut pids, *key);
    }
    proof {
        assert forall|p: Pid| #[trigger] pids@.contains(p) <==> map@.contains_key(p) by {
            assert(map@.contains_key(p) <==> all.unref().to_set().contains(p));
            if map@.contains_key(p) {
                let i = choose|i: int| 0 <= i < all.unref().len() && all.unref()[i] == p;
                assert(*all[i] == p);
            }
            if pids@.contains(p) {
                let i = choose|i: int| 0 <= i < all.len() && *(#[trigger] all[i]) == p;
                assert(all.unref()[i] == p);
            }
        }
    }
    pids
}

/// What a prefix of a list holds, one element further.
pub proof fn lemma_take_next(pids: Seq<Pid>, i: int)
    requires
        0 <= i < pids.len(),
    ensures
        forall|p: Pid| #[trigger]
            pids.take(i + 1).contains(p) <==> pids.take(i).contains(p) || p == pids[i],
{
    assert(pids.take(i + 1) =~= pids.take(i).push(pids[i]));
    assert forall|p: Pid| #[trigger] pids.take(i + 1).contains(p) <==> pids.take(i).contains(p)
        || p == pids[i] by {
        let taken = pids.take(i);
        if taken.contains(p) {
            let j = choose|j: int| 0 <= j < taken.len() && taken[j] == p;
            assert(taken.push(pids[i])[j] == p);
        }
        assert(taken.push(pids[i])[i] == pids[i]);
    }
}

/// What a list holds after one more element.
pub proof fn lemma_contains_push(pids: Seq<Pid>, pid: Pid)
    ensures
        forall|p: Pid| #[trigger] pids.push(pid).contains(p) <==> pids.contains(p) || p == pid,
{
    assert(pids.push(pid).take(pids.len() as int) =~= pids);
    lemma_take_next(pids.push(pid), pids.len() as int);
    assert(pids.push(pid).take(pids.len() as int + 1) =~= pids.push(pid));
}

/// A version vector: for each replica the greatest counter observed from it.
#[derive(Debug)]
pub struct DotSet {
    set: HashMap<Pid, Counter>,
}

impl View for DotSet {
    type V = Map<Pid, Counter>;

    closed spec fn view(&self) -> Map<Pid, Counter> {
        self.set@
    }
}

/// The counter of a replica of which nothing was observed.
pub const UNSEEN: Counter = -1;

/// The counter that a version vector gives a replica.
pub open spec fn counter_of(vector: Map<Pid, Counter>, pid: Pid) -> Counter {
    if vector.contains_key(pid) {
        vector[pid]
    } else {
        UNSEEN
    }
}

/// Whether a version vector explicitly covers a dot.
pub open spec fn covers(vector: Map<Pid, Counter>, dot: Dot) -> bool {
    vector.contains_key(dot.pid) && vector[dot.pid] >= dot.counter
}

/// The least version vector above both arguments.
pub open spec fn joined(a: Map<Pid, Counter>, b: Map<Pid, Counter>) -> Map<Pid, Counter> {
    Map::new(
        |pid: Pid| a.contains_key(pid) || b.contains_key(pid),
        |pid: Pid|
            if !a.contains_key(pid) || (b.contains_key(pid) && a[pid] < b[pid]) {
                b[pid]
            } else {
                a[pid]
            },
    )
}

/// The greatest version vector below both arguments, over the columns of both.
pub open spec fn met(a: Map<Pid, Counter>, b: Map<Pid, Counter>) -> Map<Pid, Counter> {
    Map::new(
        |pid: Pid| a.contains_key(pid) || b.contains_key(pid),
        |pid: Pid|
            if counter_of(b, pid) < counter_of(a, pid) {
                counter_of(b, pid)
            } else {
                counter_of(a, pid)
            },
    )
}

/// Whether some column of `a` is above the same column of `b`.
pub open spec fn exceeds(a: Map<Pid, Counter>, b: Map<Pid, Counter>) -> bool {
    exists|pid: Pid| counter_of(a, pid) > #[trigger] counter_of(b, pid)
}

/// Whether each of two vectors has observed something that the other has not.
pub open spec fn concurrent(a: Map<Pid, Counter>, b: Map<Pid, Counter>) -> bool {
    exceeds(a, b) && exceeds(b, a)
}

/// Whether some column that `a` lists is above the same column of `b`.
pub open spec fn leads(a: Map<Pid, Counter>, b: Map<Pid, Counter>) -> bool {
    exists|pid: Pid| #[trigger] a.contains_key(pid) && a[pid] > counter_of(b, pid)
}

/// Whether some column that `a` lists is below the same column of `b`.
pub open spec fn lags(a: Map<Pid, Counter>, b: Map<Pid, Counter>) -> bool {
    exists|pid: Pid| #[trigger] a.contains_key(pid) && a[pid] < counter_of(b, pid)
}

/// How `a` compares with `b` on the columns that `a` lists. `Equal` stands for
/// columns that differ in both directions; agreement on every column counts as
/// `Greater`.
pub open spec fn compared(a: Map<Pid, Counter>, b: Map<Pid, Counter>) -> Ordering {
    if lags(a, b) && leads(a, b) {
        Ordering::Equal
    } else if lags(a, b) {
        Ordering::Less
    } else {
        Ordering::Greater
    }
}

impl DotSet {
    /// The empty version vector.
    pub fn new() -> (dots: Self)
        ensures
            dots@ == Map::<Pid, Counter>::empty(),
    {
        DotSet { set: HashMap::new() }
    }

    /// Raises every column to the greater of the two vectors.
    pub fn merge(&mut self, other: &DotSet)
        ensures
            final(self)@ == joined(old(self)@, other@),
    {
        let pids = other.pids();
        for i in 0..pids.len()
            invariant
                forall|p: Pid| #[trigger] pids@.contains(p) <==> other@.contains_key(p),
                forall|p: Pid| #[trigger]
                    self@.contains_key(p) <==> old(self)@.contains_key(p) || pids@.take(
                        i as int,
                    ).contains(p),
                forall|p: Pid| #[trigger]
                    self@.contains_key(p) ==> self@[p] == if pids@.take(i as int).contains(p) {
                        joined(old(self)@, other@)[p]
                    } else {
                        old(self)@[p]
                    },
        {
            let pid: Pid = pids[i];
            assert(pids@.contains(pid));
            let theirs: Counter = *other.get(&pid);
            match self.counter(&pid) {
                Some(ours) => {
                    if ours < theirs {
                        self.set_counter(pid, theirs);
                    }
                },
                None => {
                    self.set_counter(pid, theirs);
                },
            }
            proof {
                lemma_take_next(pids@, i as int);
            }
        }
        proof {
            assert(pids@.take(pids@.len() as int) =~= pids@);
            assert(self@ =~= joined(old(self)@, other@));
        }
    }

    /// Lowers every column to the lesser of the two vectors, over the columns
    /// of both.
    pub fn pointwise_min(&mut self, other: &DotSet)
        ensures
            final(self)@ == met(old(self)@, other@),
    {
        let ours = self.pids();
        for i in 0..ours.len()
            invariant
                forall|p: Pid| #[trigger] ours@.contains(p) <==> old(self)@.contains_key(p),
                forall|p: Pid| #[trigger] self@.contains_key(p) <==> old(self)@.contains_key(p),
                forall|p: Pid| #[trigger]
                    self@.contains_key(p) ==> self@[p] == if ours@.take(i as int).contains(p) {
                        met(old(self)@, other@)[p]
                    } else {
                        old(self)@[p]
                    },
        {
            let pid: Pid = ours[i];
            assert(ours@.contains(pid));
            let here: Counter = *self.get(&pid);
            let there: Counter = *other.get(&pid);
            if there < here {
                self.set_counter(pid, there);
            }
            proof {
                lemma_take_next(ours@, i as int);
            }
        }
        assert(ours@.take(ours@.len() as int) =~= ours@);
        let theirs = other.pids();
        for i in 0..theirs.len()
            invariant
                forall|p: Pid| #[trigger] theirs@.contains(p) <==> other@.contains_key(p),
                forall|p: Pid| #[trigger]
                    self@.contains_key(p) <==> old(self)@.contains_key(p) || theirs@.take(
                        i as int,
                    ).contains(p),
                forall|p: Pid| #[trigger]
                    self@.contains_key(p) ==> self@[p] == met(old(self)@, other@)[p],
        {
            let pid: Pid = theirs[i];
            assert(theirs@.contains(pid));
            if self.counter(&pid).is_none() {
                let there: Counter = *other.get(&pid);
                if there < UNSEEN {
                    self.set_counter(pid, there);
                } else {
                    self.set_counter(pid, UNSEEN);
                }
            }
            proof {
                lemma_take_next(theirs@, i as int);
            }
        }
        proof {
            assert(theirs@.take(theirs@.len() as int) =~= theirs@);
            assert(self@ =~= met(old(self)@, other@));
        }
    }

    /// Sets one column.
    pub fn set_counter(&mut self, pid: Pid, counter: Counter)
        ensures
            final(self)@ == old(self)@.insert(pid, counter),
    {
        self.set.insert(pid, counter);
    }

    /// Drops one column.
    pub fn remove_pid(&mut self, pid: Pid)
        ensures
            final(self)@ == old(self)@.remove(pid),
    {
        self.set.remove(&pid);
    }

    /// The replicas that have a column, in ascending order.
    pub fn pids(&self) -> (pids: Vec<Pid>)
        ensures
            ascending(pids@),
            forall|p: Pid| #[trigger] pids@.contains(p) <==> self@.contains_key(p),
    {
        ascending_keys(&self.set)
    }

    /// The column of a replica, if it has one.
    pub fn counter(&self, pid: &Pid) -> (counter: Option<Counter>)
        ensures
            counter == self@.get(*pid),
    {
        match self.set.get(pid) {
            Some(counter) => Some(*counter),
            None => None,
        }
    }

    /// Records the next dot of a replica, which must follow the one recorded
    /// last; a replica without a column starts anywhere.
    pub fn insert(&mut self, dot: &Dot)
        requires
            old(self)@.contains_key(dot.pid) ==> old(self)@[dot.pid] + 1 == dot.counter,
        ensures
            final(self)@ == old(self)@.insert(dot.pid, dot.counter),
    {
        self.set.insert(dot.pid, dot.counter);
    }

    /// Issues the next dot of a replica.
    pub fn increment_and_get(&mut self, pid: Pid) -> (dot: Dot)
        requires
            old(self)@.contains_key(pid) ==> old(self)@[pid] < Counter::MAX,
        ensures
            dot.pid == pid,
            dot.counter == if old(self)@.contains_key(pid) {
                old(self)@[pid] + 1
            } else {
                0
            },
            final(self)@ == old(self)@.insert(pid, dot.counter),
    {
        let counter: Counter = match self.counter(&pid) {
            Some(count) => count + 1,
            None => 0,
        };
        let dot = Dot { pid, counter };
        self.insert(&dot);
        dot
    }

    /// The counter of a replica; `-1` where it has no column.
    pub fn get(&self, pid: &Pid) -> (counter: &Counter)
        ensures
            *counter == counter_of(self@, *pid),
    {
        match self.set.get(pid) {
            Some(counter) => counter,
            None => &UNSEEN,
        }
    }

    /// Returns true iff self and other are concurrent: each has observed
    /// something that the other has not.
    pub fn is_concurrent_with(&self, other: &DotSet) -> (both: bool)
        ensures
            both == concurrent(self@, other@),
    {
        self.exceeds(other) && other.exceeds(self)
    }

    /// Whether some column of `self` is above the same column of `other`.
    fn exceeds(&self, other: &DotSet) -> (exceeding: bool)
        ensures
            exceeding == exceeds(self@, other@),
    {
        let ours = self.pids();
        for i in 0..ours.len()
            invariant
                forall|p: Pid| #[trigger] ours@.contains(p) <==> self@.contains_key(p),
                forall|p: Pid| #[trigger]
                    ours@.contains(p) && ours@.take(i as int).contains(p) ==> counter_of(self@, p) <= counter_of(
                        other@,
                        p,
                    ),
        {
            let pid: Pid = ours[i];
            if *self.get(&pid) > *other.get(&pid) {
                return true;
            }
            proof {
                lemma_take_next(ours@, i as int);
            }
        }
        assert(ours@.take(ours@.len() as int) =~= ours@);
        let theirs = other.pids();
        for i in 0..theirs.len()
            invariant
                forall|p: Pid| #[trigger] theirs@.contains(p) <==> other@.contains_key(p),
                forall|p: Pid| #[trigger]
                    theirs@.contains(p) && theirs@.take(i as int).contains(p) ==> counter_of(self@, p) <= counter_of(
                        other@,
                        p,
                    ),
        {
            let pid: Pid = theirs[i];
            if *self.get(&pid) > *other.get(&pid) {
                return true;
            }
            proof {
                lemma_take_next(theirs@, i as int);
            }
        }
        proof {
            assert(theirs@.take(theirs@.len() as int) =~= theirs@);
            assert forall|p: Pid| counter_of(self@, p) <= #[trigger] counter_of(other@, p) by {
                assert(ours@.contains(p) <==> self@.contains_key(p));
                assert(theirs@.contains(p) <==> other@.contains_key(p));
            }
        }
        false
    }

    /// Whether `self` lags behind `other`, and whether it leads it, on the
    /// columns that `self` lists.
    fn lags_and_leads(&self, other: &DotSet) -> (found: (bool, bool))
        ensures
            found.0 == lags(self@, other@),
            found.1 == leads(self@, other@),
    {
        let mut has_lower = false;
        let mut has_greater = false;
        let ours = self.pids();
        for i in 0..ours.len()
            invariant
                forall|p: Pid| #[trigger] ours@.contains(p) <==> self@.contains_key(p),
                has_lower ==> lags(self@, other@),
                has_greater ==> leads(self@, other@),
                forall|p: Pid| #[trigger]
                    ours@.contains(p) && ours@.take(i as int).contains(p) ==> (self@[p] < counter_of(other@, p)
                        ==> has_lower) && (self@[p] > counter_of(other@, p) ==> has_greater),
        {
            let pid: Pid = ours[i];
            assert(ours@.contains(pid));
            let here: Counter = *self.get(&pid);
            let there: Counter = *other.get(&pid);
            if here > there {
                has_greater = true;
            } else if here < there {
                has_lower = true;
            }
            proof {
                lemma_take_next(ours@, i as int);
            }
        }
        proof {
            assert(ours@.take(ours@.len() as int) =~= ours@);
            assert forall|p: Pid| #[trigger] self@.contains_key(p) implies (self@[p] < counter_of(
                other@,
                p,
            ) ==> has_lower) && (self@[p] > counter_of(other@, p) ==> has_greater) by {
                assert(ours@.contains(p));
            }
        }
        (has_lower, has_greater)
    }

    /// Compares the two vectors on the columns that `self` lists; see
    /// [`compared`].
    pub fn cmp(&self, other: &DotSet) -> (order: Ordering)
        ensures
            order == compared(self@, other@),
    {
        let (has_lower, has_greater) = self.lags_and_leads(other);
        if has_lower && has_greater {
            Ordering::Equal
        } else if has_lower {
            Ordering::Less
        } else {
            Ordering::Greater
        }
    }

    /// Whether the two vectors have the same columns with the same counters.
    fn same(&self, other: &DotSet) -> (same: bool)
        ensures
            same == (self@ == other@),
    {
        let ours = self.pids();
        let theirs = other.pids();
        for i in 0..ours.len()
            invariant
                forall|p: Pid| #[trigger] ours@.contains(p) <==> self@.contains_key(p),
                forall|p: Pid| #[trigger]
                    ours@.contains(p) && ours@.take(i as int).contains(p) ==> other@.contains_key(p)
                        && self@[p] == other@[p],
        {
            let pid: Pid = ours[i];
            assert(ours@.contains(pid));
            match other.counter(&pid) {
                Some(counter) => {
                    if counter != *self.get(&pid) {
                        return false;
                    }
                },
                None => {
                    return false;
                },
            }
            proof {
                lemma_take_next(ours@, i as int);
            }
        }
        assert(ours@.take(ours@.len() as int) =~= ours@);
        for i in 0..theirs.len()
            invariant
                forall|p: Pid| #[trigger] theirs@.contains(p) <==> other@.contains_key(p),
                forall|p: Pid| #[trigger]
                    theirs@.contains(p) && theirs@.take(i as int).contains(p)
                        ==> self@.contains_key(p),
        {
            let pid: Pid = theirs[i];
            assert(theirs@.contains(pid));
            if self.counter(&pid).is_none() {
                return false;
            }
            proof {
                lemma_take_next(theirs@, i as int);
            }
        }
        proof {
            assert(theirs@.take(theirs@.len() as int) =~= theirs@);
            assert forall|p: Pid| #[trigger] self@.contains_key(p) <==> other@.contains_key(p) by {
                assert(ours@.contains(p) <==> self@.contains_key(p));
                assert(theirs@.contains(p) <==> other@.contains_key(p));
            }
            assert forall|p: Pid| #[trigger] self@.contains_key(p) implies self@[p] == other@[p] by {
                assert(ours@.contains(p));
            }
            assert(self@ =~= other@);
        }
        true
    }

    /// Returns true iff self contains the dot.
    pub fn contains(&self, dot: &Dot) -> (contained: bool)
        ensures
            contained == covers(self@, *dot),
    {
        match self.set.get(&dot.pid) {
            Some(counter) => *counter >= dot.counter,
            None => false,
        }
    }

    /// The garbage-collection epoch that this vector was taken in.
    pub fn gc_counter(&self) -> (counter: &Counter)
        ensures
            *counter == counter_of(self@, STABLE_REPLICA_PID),
    {
        self.get(&STABLE_REPLICA_PID)
    }
}

impl PartialEq for DotSet {
    fn eq(&self, other: &DotSet) -> (equal: bool) {
        self.same(other)
    }
}

impl vstd::std_specs::cmp::PartialEqSpecImpl for DotSet {
    open spec fn obeys_eq_spec() -> bool {
        true
    }

    open spec fn eq_spec(&self, other: &DotSet) -> bool {
        self@ == other@
    }
}

impl Eq for DotSet {

}

impl PartialOrd for DotSet {
    fn partial_cmp(&self, other: &DotSet) -> (order: Option<Ordering>) {
        Some(self.cmp(other))
    }
}

impl vstd::std_specs::cmp::PartialOrdSpecImpl for DotSet {
    open spec fn obeys_partial_cmp_spec() -> bool {
        true
    }

    open spec fn partial_cmp_spec(&self, other: &DotSet) -> Option<Ordering> {
        Some(compared(self@, other@))
    }
}

impl Clone for DotSet {
    fn clone(&self) -> (copy: Self)
        ensures
            copy@ == self@,
    {
        DotSet { set: self.set.clone() }
    }
}

impl Default for DotSet {
    fn default() -> (dots: Self)
        ensures
            dots@ == Map::<Pid, Counter>::empty(),
    {
        Self::new()
    }
}

impl From<(&Pid, &Counter)> for Dot {
    fn from(tuple: (&Pid, &Counter)) -> (dot: Self) {
        Dot { pid: *tuple.0, counter: *tuple.1 }
    }
}

impl vstd::std_specs::convert::FromSpecImpl<(&Pid, &Counter)> for Dot {
    open spec fn obeys_from_spec() -> bool {
        true
    }

    open spec fn from_spec(tuple: (&Pid, &Counter)) -> Self {
        Dot { pid: *tuple.0, counter: *tuple.1 }
    }
}

} // verus!
