//! The observed-remove set.

use vstd::prelude::*;
use crate::crdt::{CRDT, DeltaGroup};
use crate::dots::dot_map::{enumerates, lemma_filter_next, list_of, retained, total, uncovered};
use crate::dots::matrix::listed;
use crate::dots::{covers, Counter, Dot, DotMap, DotSet};
use crate::order::{ordered, Element, SortedMap};
use crate::orset::causal::{causally_ordered, is_group, lemma_ordered_is_group};
use crate::prelude::Pid;

pub mod agreement;
pub mod causal;
pub mod convergence;
pub mod laws;
pub mod operations;

verus! {

/// A change that a client asks for.
#[derive(Debug, Clone, PartialEq, Eq)]
pub enum OrSetMutation<T> {
    Insert(T),
    Remove(T),
}

/// A question that a client asks.
#[derive(Debug, Clone, PartialEq, Eq)]
pub enum OrSetQuery<T> {
    Contains(T),
    Elements,
    Meta,
}

/// How much a set holds: elements, and changes that are not yet collected.
#[derive(Debug, Clone, Copy, PartialEq, Eq)]
pub struct OrSetMeta {
    pub entry_count: usize,
    pub delta_log_count: usize,
}

/// What a client is told.
#[derive(Debug, Clone, PartialEq, Eq)]
pub enum OrSetResponse<T> {
    Acknowledged,
    Contains(bool),
    Elements(Vec<T>),
    Meta(OrSetMeta),
}

/// A change as it travels between replicas. A removal names the dots that it
/// saw, and takes back no other.
#[derive(Debug, Clone, PartialEq, Eq)]
pub enum OrSetChange<T> {
    Insert { element: T },
    Remove { element: T, removed_dots: Vec<Dot> },
}

/// A change together with its dot.
#[derive(Debug, Clone, PartialEq, Eq)]
pub struct OrSetDelta<T> {
    dot: Dot,
    change: OrSetChange<T>,
}

/// Why a change was refused.
#[derive(Debug, Clone, Copy, PartialEq, Eq)]
pub enum OrSetError {
    MissingPid,
}

/// A set whose elements stay as long as one of the dots under which they were
/// inserted was not removed.
#[derive(Debug, Clone)]
pub struct ORSet<T> {
    pid: Option<Pid>,
    entries: SortedMap<T, Vec<Dot>>,
    delta_log: DotMap<OrSetDelta<T>>,
    version_vector: DotSet,
}

/// The meaning of an [`OrSetChange`].
pub enum ChangeView<V> {
    Insert { element: V },
    Remove { element: V, removed_dots: Seq<Dot> },
}

/// The meaning of an [`OrSetDelta`].
pub struct DeltaView<V> {
    pub dot: Dot,
    pub change: ChangeView<V>,
}

/// The meaning of an [`ORSet`]: for each element the dots that hold it, for
/// each replica its changes that are not yet collected, and the version
/// vector.
#[verifier::ext_equal]
#[verifier::reject_recursive_types(V)]
pub struct ORSetView<V> {
    pub pid: Option<Pid>,
    pub entries: Map<V, Seq<Dot>>,
    pub log: Map<Pid, Seq<DeltaView<V>>>,
    pub vector: Map<Pid, Counter>,
}

impl<T: Element> View for OrSetChange<T> {
    type V = ChangeView<T::V>;

    open spec fn view(&self) -> ChangeView<T::V> {
        match self {
            OrSetChange::Insert { element } => ChangeView::Insert { element: element@ },
            OrSetChange::Remove { element, removed_dots } => ChangeView::Remove {
                element: element@,
                removed_dots: removed_dots@,
            },
        }
    }
}

impl<T: Element> View for OrSetDelta<T> {
    type V = DeltaView<T::V>;

    closed spec fn view(&self) -> DeltaView<T::V> {
        DeltaView { dot: self.dot, change: self.change@ }
    }
}

/// The meaning of a list of deltas.
pub open spec fn deltas_view<T: Element>(list: Seq<OrSetDelta<T>>) -> Seq<DeltaView<T::V>> {
    list.map_values(|delta: OrSetDelta<T>| delta@)
}

/// The dots that hold an element.
pub open spec fn dots_of<V>(entries: Map<V, Seq<Dot>>, element: V) -> Seq<Dot> {
    if entries.contains_key(element) {
        entries[element]
    } else {
        Seq::empty()
    }
}

/// Whether a dot holds an element.
pub open spec fn is_contained<V>(entries: Map<V, Seq<Dot>>, element: V) -> bool {
    dots_of(entries, element).len() > 0
}

/// The entries once `dot` holds `element`.
pub open spec fn with_dot<V>(entries: Map<V, Seq<Dot>>, element: V, dot: Dot) -> Map<V, Seq<Dot>> {
    let dots = dots_of(entries, element);
    entries.insert(
        element,
        if dots.contains(dot) {
            dots
        } else {
            dots.push(dot)
        },
    )
}

/// The entries once the dots `removed` do not hold `element` any more; an
/// element that no dot holds is gone.
pub open spec fn without_dots<V>(
    entries: Map<V, Seq<Dot>>,
    element: V,
    removed: Seq<Dot>,
) -> Map<V, Seq<Dot>> {
    let dots = dots_of(entries, element).filter(|dot: Dot| !removed.contains(dot));
    if dots.len() == 0 {
        entries.remove(element)
    } else {
        entries.insert(element, dots)
    }
}

impl<V> ORSetView<V> {
    /// The empty set without an identity.
    pub open spec fn blank() -> ORSetView<V> {
        ORSetView { pid: None, entries: Map::empty(), log: Map::empty(), vector: Map::empty() }
    }

    /// The entries after a change that was issued under `dot`.
    pub open spec fn changed(
        entries: Map<V, Seq<Dot>>,
        dot: Dot,
        change: ChangeView<V>,
    ) -> Map<V, Seq<Dot>> {
        match change {
            ChangeView::Insert { element } => with_dot(entries, element, dot),
            ChangeView::Remove { element, removed_dots } => without_dots(
                entries,
                element,
                removed_dots,
            ),
        }
    }

    /// The state once a delta was taken in, log and all.
    pub open spec fn recorded(self, delta: DeltaView<V>) -> ORSetView<V> {
        ORSetView {
            pid: self.pid,
            entries: Self::changed(self.entries, delta.dot, delta.change),
            log: self.log.insert(delta.dot.pid, self.log_of(delta.dot.pid).push(delta)),
            vector: self.vector.insert(delta.dot.pid, delta.dot.counter),
        }
    }

    /// The changes of one replica that are not yet collected.
    pub open spec fn log_of(self, pid: Pid) -> Seq<DeltaView<V>> {
        if self.log.contains_key(pid) {
            self.log[pid]
        } else {
            Seq::empty()
        }
    }

    /// The dot that the next change of replica `pid` is issued under.
    pub open spec fn next_dot(self, pid: Pid) -> Dot {
        Dot {
            pid,
            counter: if self.vector.contains_key(pid) {
                (self.vector[pid] + 1) as Counter
            } else {
                0
            },
        }
    }

    /// Whether there is a counter left for the next local change.
    pub open spec fn has_next_dot(self) -> bool {
        match self.pid {
            Some(pid) => self.vector.contains_key(pid) ==> self.vector[pid] < Counter::MAX,
            None => true,
        }
    }

    /// The delta of a change that is issued now.
    pub open spec fn issued(self, pid: Pid, insert: bool, element: V) -> DeltaView<V> {
        DeltaView {
            dot: self.next_dot(pid),
            change: if insert {
                ChangeView::Insert { element }
            } else {
                ChangeView::Remove { element, removed_dots: dots_of(self.entries, element) }
            },
        }
    }

    /// The state after a local change; without an identity there is none.
    pub open spec fn mutated(self, insert: bool, element: V) -> ORSetView<V> {
        match self.pid {
            Some(pid) => self.recorded(self.issued(pid, insert, element)),
            None => self,
        }
    }

    /// Whether a delta is new here.
    pub open spec fn lacks(self, delta: DeltaView<V>) -> bool {
        !covers(self.vector, delta.dot)
    }

    /// Whether a delta is known, or follows the last one of its replica.
    pub open spec fn can_apply(self, delta: DeltaView<V>) -> bool {
        self.lacks(delta) && self.vector.contains_key(delta.dot.pid)
            ==> self.vector[delta.dot.pid] + 1 == delta.dot.counter
    }

    /// The state after one remote delta; one that is known changes nothing.
    pub open spec fn applied(self, delta: DeltaView<V>) -> ORSetView<V> {
        if self.lacks(delta) {
            self.recorded(delta)
        } else {
            self
        }
    }

    /// Whether a list of deltas can be applied one after the other.
    pub open spec fn can_merge(self, list: Seq<DeltaView<V>>) -> bool
        decreases list.len(),
    {
        list.len() > 0 ==> self.can_merge(list.drop_last()) && self.merged(
            list.drop_last(),
        ).can_apply(list.last())
    }

    /// The state after a list of deltas.
    pub open spec fn merged(self, list: Seq<DeltaView<V>>) -> ORSetView<V>
        decreases list.len(),
    {
        if list.len() == 0 {
            self
        } else {
            self.merged(list.drop_last()).applied(list.last())
        }
    }

    /// The insertions in a list of deltas that are new here.
    pub open spec fn insertions(self, list: Seq<DeltaView<V>>) -> nat
        decreases list.len(),
    {
        if list.len() == 0 {
            0
        } else {
            self.insertions(list.drop_last()) + if self.merged(list.drop_last()).lacks(
                list.last(),
            ) {
                inserted_by(list.last())
            } else {
                0
            }
        }
    }

    /// The removed dots in a list of deltas that are new here.
    pub open spec fn removals(self, list: Seq<DeltaView<V>>) -> nat
        decreases list.len(),
    {
        if list.len() == 0 {
            0
        } else {
            self.removals(list.drop_last()) + if self.merged(list.drop_last()).lacks(list.last()) {
                removed_by(list.last())
            } else {
                0
            }
        }
    }

    /// The changes of one replica that a replica at `vector` lacks.
    pub open spec fn lacking_of(
        list: Seq<DeltaView<V>>,
        vector: Map<Pid, Counter>,
    ) -> Seq<DeltaView<V>> {
        list.filter(|delta: DeltaView<V>| !covers(vector, delta.dot))
    }

    /// The changes that a replica at `vector` lacks, one replica of `pids`
    /// after the other.
    pub open spec fn lacking(self, vector: Map<Pid, Counter>, pids: Seq<Pid>) -> Seq<DeltaView<V>>
        decreases pids.len(),
    {
        if pids.len() == 0 {
            Seq::empty()
        } else {
            self.lacking(vector, pids.drop_last()) + Self::lacking_of(self.log[pids.last()], vector)
        }
    }

    /// Whether `pids` lists the replicas of the log in ascending order.
    pub open spec fn logs(self, pids: Seq<Pid>) -> bool {
        &&& crate::dots::ascending(pids)
        &&& forall|p: Pid| #[trigger] pids.contains(p) <==> self.log.contains_key(p)
    }

    /// Whether a change stays in the log of a round.
    pub open spec fn stays(
        stable: Map<Pid, Counter>,
        departed: Option<Seq<Pid>>,
        dot: Dot,
    ) -> bool {
        !covers(stable, dot) && !is_departed(departed, dot.pid)
    }

    /// The state after a garbage-collection round: stable changes leave the
    /// log, and departed replicas leave the log and the version vector. The
    /// elements stay; an entry without a dot goes when a replica departs.
    pub open spec fn collected(
        self,
        stable: Map<Pid, Counter>,
        departed: Option<Seq<Pid>>,
    ) -> ORSetView<V> {
        let keep = |delta: DeltaView<V>| Self::stays(stable, departed, delta.dot);
        ORSetView {
            pid: self.pid,
            entries: if is_any_departed(departed) {
                held_only(self.entries)
            } else {
                self.entries
            },
            log: Map::new(
                |p: Pid| self.log.contains_key(p) && self.log[p].filter(keep).len() > 0,
                |p: Pid| self.log[p].filter(keep),
            ),
            vector: self.vector.remove_keys(
                Set::new(|p: Pid| is_departed(departed, p)),
            ),
        }
    }
}

/// Whether a replica is among the departed ones.
pub open spec fn is_departed(departed: Option<Seq<Pid>>, pid: Pid) -> bool {
    departed matches Some(pids) && pids.contains(pid)
}

/// Whether a round lets a replica go.
pub open spec fn is_any_departed(departed: Option<Seq<Pid>>) -> bool {
    departed matches Some(pids) && pids.len() > 0
}

/// The entries that a dot holds.
pub open spec fn held_only<V>(entries: Map<V, Seq<Dot>>) -> Map<V, Seq<Dot>> {
    Map::new(
        |element: V| entries.contains_key(element) && entries[element].len() > 0,
        |element: V| entries[element],
    )
}

/// The insertions of one delta.
pub open spec fn inserted_by<V>(delta: DeltaView<V>) -> nat {
    match delta.change {
        ChangeView::Insert { .. } => 1,
        ChangeView::Remove { .. } => 0,
    }
}

/// The removed dots of one delta.
pub open spec fn removed_by<V>(delta: DeltaView<V>) -> nat {
    match delta.change {
        ChangeView::Insert { .. } => 0,
        ChangeView::Remove { element, removed_dots } => removed_dots.len(),
    }
}

/// The insertions in a list of deltas.
pub open spec fn all_insertions<V>(list: Seq<DeltaView<V>>) -> nat
    decreases list.len(),
{
    if list.len() == 0 {
        0
    } else {
        all_insertions(list.drop_last()) + inserted_by(list.last())
    }
}

/// The removed dots in a list of deltas.
pub open spec fn all_removals<V>(list: Seq<DeltaView<V>>) -> nat
    decreases list.len(),
{
    if list.len() == 0 {
        0
    } else {
        all_removals(list.drop_last()) + removed_by(list.last())
    }
}

/// A count as it is reported: what a `u16` holds of it.
pub open spec fn reported(count: nat) -> u16 {
    (count % 0x1_0000) as u16
}

impl<T: Element> View for ORSet<T> {
    type V = ORSetView<T::V>;

    closed spec fn view(&self) -> ORSetView<T::V> {
        ORSetView {
            pid: self.pid,
            entries: self.entries@.map_values(|dots: Vec<Dot>| dots@),
            log: log_view(self.delta_log@),
            vector: self.version_vector@,
        }
    }
}

/// The meaning of the logged items of one replica.
spec fn items_view<T: Element>(items: Seq<(Dot, OrSetDelta<T>)>) -> Seq<DeltaView<T::V>> {
    items.map_values(|item: (Dot, OrSetDelta<T>)| item.1@)
}

/// The meaning of a log.
spec fn log_view<T: Element>(
    log: Map<Pid, Seq<(Dot, OrSetDelta<T>)>>,
) -> Map<Pid, Seq<DeltaView<T::V>>> {
    log.map_values(|items: Seq<(Dot, OrSetDelta<T>)>| items_view(items))
}

impl<T: Element> OrSetChange<T> {
    /// A copy.
    fn duplicate(&self) -> (copy: Self)
        ensures
            copy@ == self@,
    {
        match self {
            OrSetChange::Insert { element } => OrSetChange::Insert { element: element.duplicate() },
            OrSetChange::Remove { element, removed_dots } => OrSetChange::Remove {
                element: element.duplicate(),
                removed_dots: copied_dots(removed_dots),
            },
        }
    }
}

/// The insertions and the removed dots in a list, as they are reported.
fn change_counts<T: Element>(list: &Vec<OrSetDelta<T>>) -> (counts: (u16, u16))
    ensures
        counts.0 == reported(all_insertions(deltas_view(list@))),
        counts.1 == reported(all_removals(deltas_view(list@))),
{
    let mut insertions: u16 = 0;
    let mut removals: u16 = 0;
    let ghost all = deltas_view(list@);
    assert(all.take(0) =~= Seq::empty());
    for i in 0..list.len()
        invariant
            all == deltas_view(list@),
            insertions == reported(all_insertions(all.take(i as int))),
            removals == reported(all_removals(all.take(i as int))),
    {
        proof {
            assert(all.take(i + 1).drop_last() =~= all.take(i as int));
            assert(all.take(i + 1).last() == list@[i as int]@);
        }
        match &list[i].change {
            OrSetChange::Insert { .. } => {
                insertions = insertions.wrapping_add(1);
            },
            OrSetChange::Remove { removed_dots, .. } => {
                removals = removals.wrapping_add(low_bits(removed_dots.len()));
            },
        }
    }
    assert(all.take(all.len() as int) =~= all);
    (insertions, removals)
}

/// A copy of a list of dots.
fn copied_dots(dots: &Vec<Dot>) -> (copy: Vec<Dot>)
    ensures
        copy@ == dots@,
{
    let copy = dots.clone();
    assert(copy@ =~= dots@);
    copy
}

/// Whether a list of dots holds `dot`.
fn holds_dot(dots: &Vec<Dot>, dot: Dot) -> (held: bool)
    ensures
        held == dots@.contains(dot),
{
    for i in 0..dots.len()
        invariant
            forall|j: int| 0 <= j < i ==> dots@[j] != dot,
    {
        if dots[i] == dot {
            assert(dots@[i as int] == dot);
            return true;
        }
    }
    false
}

/// The dots of a list that `removed` does not hold.
fn remaining_dots(dots: &Vec<Dot>, removed: &Vec<Dot>) -> (remaining: Vec<Dot>)
    ensures
        remaining@ == dots@.filter(|dot: Dot| !removed@.contains(dot)),
{
    let ghost keep = |dot: Dot| !removed@.contains(dot);
    let mut remaining: Vec<Dot> = Vec::new();
    assert(dots@.take(0).filter(keep) =~= Seq::empty()) by {
        reveal(Seq::filter);
    }
    for i in 0..dots.len()
        invariant
            keep == (|dot: Dot| !removed@.contains(dot)),
            remaining@ == dots@.take(i as int).filter(keep),
    {
        proof {
            lemma_filter_next(dots@, keep, i as int);
        }
        if !holds_dot(removed, dots[i]) {
            remaining.push(dots[i]);
        }
    }
    assert(dots@.take(dots@.len() as int) =~= dots@);
    remaining
}

impl<T: Element> OrSetDelta<T> {
    /// A change together with its dot.
    pub fn new(dot: Dot, change: OrSetChange<T>) -> (delta: Self)
        ensures
            delta@ == (DeltaView { dot, change: change@ }),
    {
        OrSetDelta { dot, change }
    }

    /// The dot of the change.
    pub fn dot(&self) -> (dot: Dot)
        ensures
            dot == self@.dot,
    {
        self.dot
    }

    /// The change.
    pub fn change(&self) -> (change: &OrSetChange<T>)
        ensures
            change@ == self@.change,
    {
        &self.change
    }

    /// A copy.
    pub fn duplicate(&self) -> (copy: Self)
        ensures
            copy@ == self@,
    {
        OrSetDelta { dot: self.dot, change: self.change.duplicate() }
    }
}

impl<T: Element> ORSet<T> {
    /// Entries are kept in order; no replica is in the log without a change, and
    /// each change is logged under its own dot.
    pub closed spec fn wf(&self) -> bool {
        &&& self.entries.wf()
        &&& forall|p: Pid| #[trigger]
            self.delta_log@.contains_key(p) ==> self.delta_log@[p].len() > 0
        &&& forall|p: Pid, i: int|
            #![trigger self.delta_log@[p][i]]
            self.delta_log@.contains_key(p) && 0 <= i < self.delta_log@[p].len()
                ==> self.delta_log@[p][i].0 == self.delta_log@[p][i].1.dot
                && self.delta_log@[p][i].0.pid == p
    }

    /// The empty set, which has no identity yet.
    pub fn new() -> (set: Self)
        ensures
            set.wf(),
            set@ == ORSetView::<T::V>::blank(),
    {
        let set = ORSet {
            pid: None,
            entries: SortedMap::new(),
            delta_log: DotMap::new(),
            version_vector: DotSet::new(),
        };
        assert(set@.entries =~= Map::empty());
        assert(set@.log =~= Map::empty());
        set
    }

    /// Lets `dot` hold `element`.
    fn insert_dot(&mut self, element: T, dot: Dot)
        requires
            old(self).wf(),
        ensures
            final(self).wf(),
            final(self)@ == (ORSetView {
                entries: with_dot(old(self)@.entries, element@, dot),
                ..old(self)@
            }),
            final(self).delta_log == old(self).delta_log,
    {
        let mut dots = match self.entries.remove(&element) {
            Some(dots) => dots,
            None => Vec::new(),
        };
        if !holds_dot(&dots, dot) {
            dots.push(dot);
        }
        proof {
            if dots@.len() == 0 {
                assert(dots@.contains(dot));
            }
        }
        self.entries.insert(element, dots);
        assert(self@.entries =~= with_dot(old(self)@.entries, element@, dot));
    }

    /// Takes the dots `removed_dots` from `element`.
    fn remove_dots(&mut self, element: &T, removed_dots: &Vec<Dot>)
        requires
            old(self).wf(),
        ensures
            final(self).wf(),
            final(self)@ == (ORSetView {
                entries: without_dots(old(self)@.entries, element@, removed_dots@),
                ..old(self)@
            }),
            final(self).delta_log == old(self).delta_log,
    {
        match self.entries.remove(element) {
            Some(dots) => {
                let remaining = remaining_dots(&dots, removed_dots);
                if remaining.len() > 0 {
                    self.entries.insert(element.duplicate(), remaining);
                }
            },
            None => {
                assert(Seq::<Dot>::empty().filter(|dot: Dot| !removed_dots@.contains(dot)).len()
                    == 0) by {
                    reveal(Seq::filter);
                }
            },
        }
        assert(self@.entries =~= without_dots(old(self)@.entries, element@, removed_dots@));
    }

    /// Issues the dot of the next local change.
    fn next_dot(&mut self) -> (issued: Result<Dot, OrSetError>)
        requires
            old(self).wf(),
            old(self)@.has_next_dot(),
        ensures
            final(self).wf(),
            final(self).delta_log == old(self).delta_log,
            match issued {
                Ok(dot) => {
                    &&& old(self)@.pid == Some(dot.pid)
                    &&& dot == old(self)@.next_dot(dot.pid)
                    &&& final(self)@ == (ORSetView {
                        vector: old(self)@.vector.insert(dot.pid, dot.counter),
                        ..old(self)@
                    })
                },
                Err(error) => {
                    &&& error == OrSetError::MissingPid
                    &&& old(self)@.pid is None
                    &&& final(self)@ == old(self)@
                },
            },
    {
        match self.pid {
            Some(pid) => Ok(self.version_vector.increment_and_get(pid)),
            None => Err(OrSetError::MissingPid),
        }
    }

    /// Takes in a delta that is new here. Returns how many insertions and how
    /// many removed dots it brings, as they are reported.
    fn take_in(&mut self, delta: OrSetDelta<T>) -> (counts: (u16, u16))
        requires
            old(self).wf(),
            old(self)@.lacks(delta@),
            old(self)@.can_apply(delta@),
        ensures
            final(self).wf(),
            final(self)@ == old(self)@.recorded(delta@),
            counts.0 == reported(inserted_by(delta@)),
            counts.1 == reported(removed_by(delta@)),
    {
        self.version_vector.insert(&delta.dot);
        let counts: (u16, u16) = match &delta.change {
            OrSetChange::Insert { element } => {
                self.insert_dot(element.duplicate(), delta.dot);
                (1, 0)
            },
            OrSetChange::Remove { element, removed_dots } => {
                self.remove_dots(element, removed_dots);
                (0, low_bits(removed_dots.len()))
            },
        };
        self.log_delta(delta);
        counts
    }

    /// Appends a delta to the log.
    fn log_delta(&mut self, delta: OrSetDelta<T>)
        requires
            old(self).wf(),
        ensures
            final(self).wf(),
            final(self)@ == (ORSetView {
                log: old(self)@.log.insert(
                    delta@.dot.pid,
                    old(self)@.log_of(delta@.dot.pid).push(delta@),
                ),
                ..old(self)@
            }),
    {
        let dot = delta.dot;
        let ghost before = self.delta_log@;
        self.delta_log.insert(dot, delta);
        proof {
            assert(items_view(list_of(before, dot.pid).push((dot, delta))) =~= items_view(
                list_of(before, dot.pid),
            ).push(delta@));
            assert(items_view(Seq::<(Dot, OrSetDelta<T>)>::empty()) =~= Seq::empty());
            assert(self@.log =~= old(self)@.log.insert(
                dot.pid,
                old(self)@.log_of(dot.pid).push(delta@),
            ));
        }
    }
}

impl<T: Element> Default for ORSet<T> {
    fn default() -> (set: Self)
        ensures
            set.wf(),
            set@ == ORSetView::<T::V>::blank(),
    {
        Self::new()
    }
}

/// A filtered list of items means the filtered list of their deltas.
proof fn lemma_items_filter<T: Element>(
    items: Seq<(Dot, OrSetDelta<T>)>,
    keep: spec_fn(Dot) -> bool,
)
    requires
        forall|i: int| 0 <= i < items.len() ==> (#[trigger] items[i]).0 == items[i].1.dot,
    ensures
        items_view(items.filter(|item: (Dot, OrSetDelta<T>)| keep(item.0))) == items_view(
            items,
        ).filter(|delta: DeltaView<T::V>| keep(delta.dot)),
    decreases items.len(),
{
    reveal(Seq::filter);
    let on_items = |item: (Dot, OrSetDelta<T>)| keep(item.0);
    let on_deltas = |delta: DeltaView<T::V>| keep(delta.dot);
    if items.len() == 0 {
        assert(items_view(items.filter(on_items)) =~= items_view(items).filter(on_deltas));
    } else {
        let front = items.drop_last();
        assert forall|i: int| 0 <= i < front.len() implies (#[trigger] front[i]).0
            == front[i].1.dot by {
            assert(front[i] == items[i]);
        }
        lemma_items_filter(front, keep);
        assert(items_view(items).drop_last() =~= items_view(front));
        assert(items.last().0 == items.last().1.dot);
        assert(items_view(items).last() == items.last().1@);
        assert(items_view(front.filter(on_items).push(items.last())) =~= items_view(
            front.filter(on_items),
        ).push(items.last().1@));
    }
}

/// The items that a replica lacks mean the deltas that it lacks.
proof fn lemma_uncovered_view<T: Element>(
    set: &ORSet<T>,
    vector: Map<Pid, Counter>,
    pids: Seq<Pid>,
)
    requires
        set.wf(),
        forall|i: int| 0 <= i < pids.len() ==> set.delta_log@.contains_key(#[trigger] pids[i]),
    ensures
        items_view(uncovered(set.delta_log@, vector, pids)) == set@.lacking(vector, pids),
    decreases pids.len(),
{
    if pids.len() == 0 {
        assert(items_view(uncovered(set.delta_log@, vector, pids)) =~= Seq::empty());
    } else {
        let front = pids.drop_last();
        let last = pids.last();
        assert forall|i: int| 0 <= i < front.len() implies set.delta_log@.contains_key(
            #[trigger] front[i],
        ) by {
            assert(front[i] == pids[i]);
        }
        lemma_uncovered_view(set, vector, front);
        assert(set.delta_log@.contains_key(pids[pids.len() - 1]));
        let items = set.delta_log@[last];
        let keep = |dot: Dot| !covers(vector, dot);
        lemma_items_filter(items, keep);
        assert(items.filter(|item: (Dot, OrSetDelta<T>)| keep(item.0)) =~= items.filter(
            |item: (Dot, OrSetDelta<T>)| !covers(vector, item.0),
        )) by {
            lemma_filter_agrees(
                items,
                |item: (Dot, OrSetDelta<T>)| keep(item.0),
                |item: (Dot, OrSetDelta<T>)| !covers(vector, item.0),
            );
        }
        assert(items_view(items).filter(|delta: DeltaView<T::V>| keep(delta.dot))
            =~= ORSetView::lacking_of(items_view(items), vector)) by {
            lemma_filter_agrees(
                items_view(items),
                |delta: DeltaView<T::V>| keep(delta.dot),
                |delta: DeltaView<T::V>| !covers(vector, delta.dot),
            );
        }
        let a = uncovered(set.delta_log@, vector, front);
        let b = items.filter(|item: (Dot, OrSetDelta<T>)| !covers(vector, item.0));
        assert(items_view(a + b) =~= items_view(a) + items_view(b));
        assert(set@.log[last] == items_view(items));
    }
}

/// Predicates that agree on a list filter it alike.
pub proof fn lemma_filter_agrees<A>(list: Seq<A>, one: spec_fn(A) -> bool, other: spec_fn(A) -> bool)
    requires
        forall|i: int| 0 <= i < list.len() ==> one(#[trigger] list[i]) == other(list[i]),
    ensures
        list.filter(one) == list.filter(other),
    decreases list.len(),
{
    reveal(Seq::filter);
    if list.len() > 0 {
        let front = list.drop_last();
        assert forall|i: int| 0 <= i < front.len() implies one(#[trigger] front[i]) == other(
            front[i],
        ) by {
            assert(front[i] == list[i]);
        }
        lemma_filter_agrees(front, one, other);
        assert(one(list[list.len() - 1]) == other(list[list.len() - 1]));
    }
}

impl<T: Element + Clone + Send + Sync> CRDT for ORSet<T> {
    type Delta = OrSetDelta<T>;

    type Query = OrSetQuery<T>;

    type Mutation = OrSetMutation<T>;

    type ClientResponse = Result<OrSetResponse<T>, OrSetError>;

    type Error = OrSetError;

    type State = ORSetView<T::V>;

    open spec fn state(&self) -> ORSetView<T::V> {
        self@
    }

    open spec fn valid(&self) -> bool {
        self.wf()
    }

    open spec fn answers(
        state: ORSetView<T::V>,
        query: OrSetQuery<T>,
        response: Result<OrSetResponse<T>, OrSetError>,
    ) -> bool {
        match query {
            OrSetQuery::Contains(element) => response == Ok::<OrSetResponse<T>, OrSetError>(
                OrSetResponse::Contains(is_contained(state.entries, element@)),
            ),
            OrSetQuery::Elements => {
                &&& response matches Ok(OrSetResponse::Elements(list))
                &&& lists_elements::<T>(list@, state.entries)
            },
            OrSetQuery::Meta => {
                &&& response matches Ok(OrSetResponse::Meta(meta))
                &&& meta.entry_count == state.entries.dom().len()
                &&& meta.delta_log_count == if total_changes(state.log) <= usize::MAX {
                    total_changes(state.log)
                } else {
                    usize::MAX as nat
                }
            },
        }
    }

    open spec fn can_mutate(state: ORSetView<T::V>, mutation: OrSetMutation<T>) -> bool {
        state.has_next_dot()
    }

    open spec fn mutated(state: ORSetView<T::V>, mutation: OrSetMutation<T>) -> ORSetView<T::V> {
        match mutation {
            OrSetMutation::Insert(element) => state.mutated(true, element@),
            OrSetMutation::Remove(element) => state.mutated(false, element@),
        }
    }

    open spec fn acknowledges(
        state: ORSetView<T::V>,
        mutation: OrSetMutation<T>,
        response: Result<OrSetResponse<T>, OrSetError>,
    ) -> bool {
        response == if state.pid is Some {
            Ok::<OrSetResponse<T>, OrSetError>(OrSetResponse::Acknowledged)
        } else {
            Err::<OrSetResponse<T>, OrSetError>(OrSetError::MissingPid)
        }
    }

    open spec fn vector(state: ORSetView<T::V>) -> Map<Pid, Counter> {
        state.vector
    }

    open spec fn is_delta(
        state: ORSetView<T::V>,
        vector: Map<Pid, Counter>,
        group: DeltaGroup<OrSetDelta<T>>,
        counts: (u16, u16),
    ) -> bool {
        &&& is_group(state, vector, deltas_view(group.list@))
        &&& group.version_vector@ == state.vector
        &&& counts.0 == reported(all_insertions(deltas_view(group.list@)))
        &&& counts.1 == reported(all_removals(deltas_view(group.list@)))
    }

    open spec fn can_merge(state: ORSetView<T::V>, group: DeltaGroup<OrSetDelta<T>>) -> bool {
        state.can_merge(deltas_view(group.list@))
    }

    open spec fn merged(
        state: ORSetView<T::V>,
        group: DeltaGroup<OrSetDelta<T>>,
    ) -> ORSetView<T::V> {
        state.merged(deltas_view(group.list@))
    }

    open spec fn merge_counts(
        state: ORSetView<T::V>,
        group: DeltaGroup<OrSetDelta<T>>,
    ) -> (u16, u16) {
        (
            reported(state.insertions(deltas_view(group.list@))),
            reported(state.removals(deltas_view(group.list@))),
        )
    }

    open spec fn identified(state: ORSetView<T::V>, pid: Pid) -> ORSetView<T::V> {
        ORSetView { pid: Some(pid), ..state }
    }

    open spec fn collected(
        state: ORSetView<T::V>,
        stable: Map<Pid, Counter>,
        departed: Option<Seq<Pid>>,
    ) -> ORSetView<T::V> {
        state.collected(stable, departed)
    }

    fn query(&self, query: OrSetQuery<T>) -> (response: Result<OrSetResponse<T>, OrSetError>) {
        match query {
            OrSetQuery::Contains(element) => {
                let contained = match self.entries.get(&element) {
                    Some(dots) => dots.len() > 0,
                    None => false,
                };
                Ok(OrSetResponse::Contains(contained))
            },
            OrSetQuery::Elements => Ok(OrSetResponse::Elements(self.elements())),
            OrSetQuery::Meta => {
                proof {
                    assert(self@.entries.dom() =~= self.entries@.dom());
                    lemma_total_changes(self.delta_log@);
                }
                Ok(
                    OrSetResponse::Meta(
                        OrSetMeta {
                            entry_count: self.entries.len(),
                            delta_log_count: self.delta_log.len(),
                        },
                    ),
                )
            },
        }
    }

    fn set_pid(&mut self, pid: Pid) {
        self.pid = Some(pid);
    }

    fn accepts_mutation(&self, mutation: &OrSetMutation<T>) -> (accepted: bool) {
        match self.pid {
            Some(pid) => match self.version_vector.counter(&pid) {
                Some(counter) => counter < Counter::MAX,
                None => true,
            },
            None => true,
        }
    }

    fn mutate(&mut self, mutation: OrSetMutation<T>) -> (response: Result<
        OrSetResponse<T>,
        OrSetError,
    >) {
        let dot = match self.next_dot() {
            Ok(dot) => dot,
            Err(error) => {
                return Err(error);
            },
        };
        let delta = match mutation {
            OrSetMutation::Insert(element) => {
                self.insert_dot(element.duplicate(), dot);
                OrSetDelta { dot, change: OrSetChange::Insert { element } }
            },
            OrSetMutation::Remove(element) => {
                let removed_dots = match self.entries.get(&element) {
                    Some(dots) => copied_dots(dots),
                    None => Vec::new(),
                };
                self.remove_dots(&element, &removed_dots);
                OrSetDelta { dot, change: OrSetChange::Remove { element, removed_dots } }
            },
        };
        self.log_delta(delta);
        Ok(OrSetResponse::Acknowledged)
    }

    fn get_version_vector(&self) -> (vector: &DotSet) {
        &self.version_vector
    }

    fn get_delta(&self, version_vector: &DotSet) -> (delta: (
        DeltaGroup<OrSetDelta<T>>,
        u16,
        u16,
    )) {
        let found = self.delta_log.get_all_greater_iter(version_vector);
        let ghost pids = choose|pids: Seq<Pid>| #[trigger]
            enumerates(pids, self.delta_log@) && found@.unref() == uncovered(
                self.delta_log@,
                version_vector@,
                pids,
            );
        let list = causally_ordered(&found);
        proof {
            assert forall|i: int| 0 <= i < pids.len() implies self.delta_log@.contains_key(
                #[trigger] pids[i],
            ) by {
                assert(pids.contains(pids[i]));
            }
            lemma_uncovered_view(self, version_vector@, pids);
            assert(self@.logs(pids));
            lemma_ordered_is_group(self@, version_vector@, pids, deltas_view(list@));
        }
        let (insertions, removals) = change_counts(&list);
        (DeltaGroup { list, version_vector: self.version_vector.clone() }, insertions, removals)
    }

    fn accepts_delta_group(&self, delta: &DeltaGroup<OrSetDelta<T>>) -> (accepted: bool) {
        let mut vector = self.version_vector.clone();
        let ghost all = deltas_view(delta.list@);
        assert(all.take(0) =~= Seq::empty());
        for i in 0..delta.list.len()
            invariant
                all == deltas_view(delta.list@),
                self@.can_merge(all.take(i as int)),
                vector@ == self@.merged(all.take(i as int)).vector,
        {
            let dot = delta.list[i].dot;
            proof {
                assert(all.take(i + 1).drop_last() =~= all.take(i as int));
                assert(all.take(i + 1).last() == delta.list@[i as int]@);
            }
            if !vector.contains(&dot) {
                if let Some(counter) = vector.counter(&dot.pid) {
                    if counter + 1 != dot.counter {
                        proof {
                            assert(!self@.can_merge(all.take(i + 1)));
                            if self@.can_merge(all) {
                                lemma_can_merge_prefix(self@, all, i + 1);
                            }
                        }
                        return false;
                    }
                }
                vector.insert(&dot);
            }
        }
        assert(all.take(all.len() as int) =~= all);
        true
    }

    fn merge_delta_group(&mut self, delta: DeltaGroup<OrSetDelta<T>>) -> (counts: (u16, u16)) {
        let mut insertions: u16 = 0;
        let mut removals: u16 = 0;
        let ghost all = deltas_view(delta.list@);
        let ghost start = self@;
        assert(all.take(0) =~= Seq::empty());
        for delta in it: delta.list
            invariant
                all == deltas_view(it.seq()),
                self.wf(),
                start.can_merge(all),
                self@ == start.merged(all.take(it.index() as int)),
                insertions == reported(start.insertions(all.take(it.index() as int))),
                removals == reported(start.removals(all.take(it.index() as int))),
        {
            let ghost i = it.index() as int;
            proof {
                assert(all[i] == delta@);
                assert(all.take(i + 1).drop_last() =~= all.take(i));
                assert(all.take(i + 1).last() == delta@);
                lemma_can_merge_prefix(start, all, i + 1);
            }
            if !self.version_vector.contains(&delta.dot) {
                let (inserted, removed) = self.take_in(delta);
                insertions = insertions.wrapping_add(inserted);
                removals = removals.wrapping_add(removed);
            }
        }
        assert(all.take(all.len() as int) =~= all);
        (insertions, removals)
    }

    fn gc(&mut self, stable: &DotSet, departed_pids: &Option<Vec<Pid>>) {
        self.collect_log(stable, departed_pids);
        if let Some(pids) = departed_pids {
            let ghost vector = self@.vector;
            let ghost before = self@;
            for i in 0..pids.len()
                invariant
                    self.wf(),
                    self@ == (ORSetView { vector: self@.vector, ..before }),
                    forall|p: Pid| #[trigger]
                        self@.vector.contains_key(p) <==> vector.contains_key(p) && !pids@.take(
                            i as int,
                        ).contains(p),
                    forall|p: Pid| #[trigger]
                        self@.vector.contains_key(p) ==> self@.vector[p] == vector[p],
            {
                self.version_vector.remove_pid(pids[i]);
                proof {
                    crate::dots::lemma_take_next(pids@, i as int);
                }
            }
            assert(pids@.take(pids@.len() as int) =~= pids@);
            if pids.len() > 0 {
                self.drop_unheld();
            }
        }
        let ghost after = old(self)@.collected(stable@, listed(*departed_pids));
        assert(self@.vector =~= after.vector);
        assert(self@.entries == after.entries);
    }
}

/// The low sixteen bits of a length.
fn low_bits(length: usize) -> (low: u16)
    ensures
        low == reported(length as nat),
{
    (length % 0x1_0000) as u16
}

/// The changes in a log.
pub open spec fn total_changes<V>(log: Map<Pid, Seq<DeltaView<V>>>) -> nat
    decreases log.dom().len(),
{
    if log.dom().finite() && log.dom().len() > 0 {
        let pid = log.dom().choose();
        log[pid].len() + total_changes(log.remove(pid))
    } else {
        0
    }
}

/// A log has as many changes as it has items.
proof fn lemma_total_changes<T: Element>(log: Map<Pid, Seq<(Dot, OrSetDelta<T>)>>)
    ensures
        total(log) == total_changes(log_view(log)),
    decreases log.dom().len(),
{
    assert(log_view(log).dom() =~= log.dom());
    if log.dom().finite() && log.dom().len() > 0 {
        let pid = log.dom().choose();
        lemma_total_changes(log.remove(pid));
        assert(log_view(log.remove(pid)) =~= log_view(log).remove(pid));
    }
}

/// Whether `list` holds the elements of a set, in ascending order.
pub open spec fn lists_elements<T: Element>(list: Seq<T>, entries: Map<T::V, Seq<Dot>>) -> bool {
    let views = list.map_values(|element: T| element@);
    &&& ordered::<T>(views)
    &&& forall|element: T::V| #[trigger] views.contains(element) <==> entries.contains_key(element)
}

/// A list can be applied only where each of its prefixes can.
proof fn lemma_can_merge_prefix<V>(state: ORSetView<V>, list: Seq<DeltaView<V>>, n: int)
    requires
        0 <= n <= list.len(),
        state.can_merge(list),
    ensures
        state.can_merge(list.take(n)),
    decreases list.len() - n,
{
    if n == list.len() {
        assert(list.take(n) =~= list);
    } else {
        lemma_can_merge_prefix(state, list, n + 1);
        assert(list.take(n + 1).drop_last() =~= list.take(n));
    }
}

impl<T: Element> ORSet<T> {
    /// Drops the entries that no dot holds.
    fn drop_unheld(&mut self)
        requires
            old(self).wf(),
        ensures
            final(self).wf(),
            final(self)@ == (ORSetView { entries: held_only(old(self)@.entries), ..old(self)@ }),
    {
        let list = self.elements();
        let ghost views = list@.map_values(|element: T| element@);
        let ghost entries = self@.entries;
        let ghost before = self@;
        assert(views.take(0) =~= Seq::empty());
        for i in 0..list.len()
            invariant
                self.wf(),
                self@ == (ORSetView { entries: self@.entries, ..before }),
                views == list@.map_values(|element: T| element@),
                forall|element: T::V| #[trigger]
                    self@.entries.contains_key(element) <==> entries.contains_key(element) && !(
                    entries[element].len() == 0 && views.take(i as int).contains(element)),
                forall|element: T::V| #[trigger]
                    self@.entries.contains_key(element) ==> self@.entries[element]
                        == entries[element],
        {
            let ghost shorter = views.take(i as int);
            let ghost longer = views.take(i + 1);
            let ghost key = list@[i as int]@;
            let ghost earlier = self@.entries;
            let unheld = match self.entries.get(&list[i]) {
                Some(dots) => dots.len() == 0,
                None => false,
            };
            assert(earlier.contains_key(key) == self.entries@.contains_key(key));
            assert(unheld <==> earlier.contains_key(key) && earlier[key].len() == 0);
            if unheld {
                self.entries.remove(&list[i]);
                assert(self@.entries =~= earlier.remove(key));
            }
            proof {
                assert(longer =~= shorter.push(key));
                assert forall|element: T::V| #[trigger] longer.contains(element)
                    <==> shorter.contains(element) || element == key by {
                    if shorter.contains(element) {
                        let j = choose|j: int| 0 <= j < shorter.len() && shorter[j] == element;
                        assert(longer[j] == element);
                    }
                    if element == key {
                        assert(longer[i as int] == key);
                    }
                }
            }
        }
        assert(views.take(views.len() as int) =~= views);
        assert(self@.entries =~= held_only(entries));
    }

    /// The elements, in ascending order.
    fn elements(&self) -> (list: Vec<T>)
        requires
            self.wf(),
        ensures
            lists_elements::<T>(list@, self@.entries),
    {
        let mut list: Vec<T> = Vec::new();
        let count: usize = self.entries.len();
        for i in 0..count
            invariant
                self.wf(),
                count == self.entries.order().len(),
                list@.len() == i,
                forall|j: int| 0 <= j < i ==> (#[trigger] list@[j])@ == self.entries.order()[j],
        {
            list.push(self.entries.entry(i).0.duplicate());
        }
        proof {
            self.entries.lemma_entries();
            let views = list@.map_values(|element: T| element@);
            assert(views =~= self.entries.order());
        }
        list
    }

    /// Drops the stable changes and those of departed replicas from the log.
    fn collect_log(&mut self, stable: &DotSet, departed_pids: &Option<Vec<Pid>>)
        requires
            old(self).wf(),
        ensures
            final(self).wf(),
            final(self)@ == (ORSetView {
                vector: old(self)@.vector,
                entries: old(self)@.entries,
                ..old(self)@.collected(stable@, listed(*departed_pids))
            }),
    {
        let ghost departed = listed(*departed_pids);
        let ghost keep = |item: (Dot, OrSetDelta<T>)|
            ORSetView::<T::V>::stays(stable@, departed, item.0);
        let predicate = |dot: &Dot, _delta: &OrSetDelta<T>| -> (kept: bool)
            ensures
                kept == ORSetView::<T::V>::stays(stable@, listed(*departed_pids), *dot),
            { !stable.contains(dot) && !lists_pid(departed_pids, dot.pid) };
        let ghost before = self.delta_log@;
        self.delta_log.retain(predicate);
        proof {
            assert(crate::dots::dot_map::describes(predicate, keep));
            assert(self.delta_log@ == retained(before, keep));
            let state = old(self)@;
            let on_deltas = |delta: DeltaView<T::V>|
                ORSetView::<T::V>::stays(stable@, departed, delta.dot);
            assert forall|p: Pid| before.contains_key(p) implies items_view(
                #[trigger] before[p].filter(keep),
            ) == state.log[p].filter(on_deltas) by {
                let on_dots = |dot: Dot| ORSetView::<T::V>::stays(stable@, departed, dot);
                assert forall|i: int| 0 <= i < before[p].len() implies (#[trigger] before[p][i]).0
                    == before[p][i].1.dot by {}
                lemma_items_filter(before[p], on_dots);
                lemma_filter_agrees(
                    before[p],
                    keep,
                    |item: (Dot, OrSetDelta<T>)| on_dots(item.0),
                );
                lemma_filter_agrees(
                    items_view(before[p]),
                    on_deltas,
                    |delta: DeltaView<T::V>| on_dots(delta.dot),
                );
            }
            assert(self@.log =~= state.collected(stable@, departed).log);
            assert forall|p: Pid, i: int|
                #![trigger self.delta_log@[p][i]]
                self.delta_log@.contains_key(p) && 0 <= i < self.delta_log@[p].len() implies
                self.delta_log@[p][i].0 == self.delta_log@[p][i].1.dot
                && self.delta_log@[p][i].0.pid == p by {
                let kept = self.delta_log@[p][i];
                assert(before[p].filter(keep).contains(kept));
                before[p].lemma_filter_contains_rev(keep, kept);
                let j = choose|j: int| 0 <= j < before[p].len() && before[p][j] == kept;
                assert(before[p][j].0 == before[p][j].1.dot);
            }
        }
    }
}

/// A set taken apart, as it is written to disk: every element with the dots
/// that hold it, and the changes that are not yet collected.
#[derive(Debug, Clone)]
pub struct ORSetParts<T> {
    pub pid: Option<Pid>,
    pub entries: Vec<(T, Vec<Dot>)>,
    pub deltas: Vec<OrSetDelta<T>>,
    pub version_vector: DotSet,
}

/// The meaning of a list of entries.
pub open spec fn entries_view<T: Element>(list: Seq<(T, Vec<Dot>)>) -> Seq<(T::V, Seq<Dot>)> {
    list.map_values(|entry: (T, Vec<Dot>)| (entry.0@, entry.1@))
}

/// The entries in a list; of two for one element the later counts.
pub open spec fn entries_from<V>(list: Seq<(V, Seq<Dot>)>) -> Map<V, Seq<Dot>>
    decreases list.len(),
{
    if list.len() == 0 {
        Map::empty()
    } else {
        entries_from(list.drop_last()).insert(list.last().0, list.last().1)
    }
}

/// A log with one more change.
pub open spec fn log_with<V>(log: Map<Pid, Seq<DeltaView<V>>>, delta: DeltaView<V>) -> Map<
    Pid,
    Seq<DeltaView<V>>,
> {
    log.insert(
        delta.dot.pid,
        (if log.contains_key(delta.dot.pid) {
            log[delta.dot.pid]
        } else {
            Seq::empty()
        }).push(delta),
    )
}

/// The log with the changes of a list.
pub open spec fn log_from<V>(list: Seq<DeltaView<V>>) -> Map<Pid, Seq<DeltaView<V>>>
    decreases list.len(),
{
    if list.len() == 0 {
        Map::empty()
    } else {
        log_with(log_from(list.drop_last()), list.last())
    }
}

impl<T: Element> ORSetParts<T> {
    /// The set that the parts make up.
    pub open spec fn whole(&self) -> ORSetView<T::V> {
        ORSetView {
            pid: self.pid,
            entries: entries_from(entries_view(self.entries@)),
            log: log_from(deltas_view(self.deltas@)),
            vector: self.version_vector@,
        }
    }
}

impl<T: Element> ORSet<T> {
    /// The set, taken apart.
    pub fn to_parts(&self) -> (parts: ORSetParts<T>)
        requires
            self.wf(),
        ensures
            parts.whole() == self@,
    {
        let entries = self.entry_list();
        let deltas = self.delta_list();
        ORSetParts {
            pid: self.pid,
            entries,
            deltas,
            version_vector: self.version_vector.clone(),
        }
    }

    /// The elements with the dots that hold them.
    fn entry_list(&self) -> (list: Vec<(T, Vec<Dot>)>)
        requires
            self.wf(),
        ensures
            entries_from(entries_view(list@)) == self@.entries,
    {
        let mut list: Vec<(T, Vec<Dot>)> = Vec::new();
        let count: usize = self.entries.len();
        proof {
            self.entries.lemma_entries();
        }
        for i in 0..count
            invariant
                self.wf(),
                count == self.entries.order().len(),
                forall|a: int, b: int|
                    0 <= a < b < self.entries.order().len() ==> self.entries.order()[a]
                        != self.entries.order()[b],
                forall|element: T::V| #[trigger]
                    entries_from(entries_view(list@)).contains_key(element)
                        <==> self.entries.order().take(i as int).contains(element),
                forall|element: T::V| #[trigger]
                    entries_from(entries_view(list@)).contains_key(element) ==> entries_from(
                        entries_view(list@),
                    )[element] == self@.entries[element],
        {
            let entry = self.entries.entry(i);
            let dots = entry.1.clone();
            let ghost before = entries_view(list@);
            let ghost key = entry.0@;
            proof {
                assert(dots@ =~= entry.1@);
                assert(self.entries@.contains_key(key)) by {
                    self.entries.lemma_entries();
                    assert(self.entries.order().contains(self.entries.order()[i as int]));
                }
            }
            list.push((entry.0.duplicate(), dots));
            proof {
                let now = entries_view(list@);
                assert(now =~= before.push((key, dots@)));
                assert(now.drop_last() =~= before);
                assert(now.last() == (key, dots@));
                assert(entries_from(now) == entries_from(before).insert(key, dots@));
                assert(self@.entries[key] == dots@);
                let shorter = self.entries.order().take(i as int);
                let longer = self.entries.order().take(i + 1);
                assert(longer =~= shorter.push(key));
                assert forall|element: T::V| #[trigger] longer.contains(element) <==> shorter.contains(
                    element,
                ) || element == key by {
                    if shorter.contains(element) {
                        let j = choose|j: int| 0 <= j < shorter.len() && shorter[j] == element;
                        assert(longer[j] == element);
                    }
                    if element == key {
                        assert(longer[i as int] == key);
                    }
                }
            }
        }
        proof {
            self.entries.lemma_entries();
            assert(self.entries.order().take(count as int) =~= self.entries.order());
            assert(entries_from(entries_view(list@)) =~= self@.entries);
        }
        list
    }

    /// The changes that are not yet collected, one replica after another.
    fn delta_list(&self) -> (list: Vec<OrSetDelta<T>>)
        requires
            self.wf(),
        ensures
            log_from(deltas_view(list@)) == self@.log,
    {
        let mut list: Vec<OrSetDelta<T>> = Vec::new();
        let pids = self.delta_log.pids();
        let ghost log = self@.log;
        assert(deltas_view(list@) =~= Seq::empty());
        for i in 0..pids.len()
            invariant
                self.wf(),
                log == self@.log,
                enumerates(pids@, self.delta_log@),
                forall|p: Pid| #[trigger]
                    log_from(deltas_view(list@)).contains_key(p) <==> pids@.take(i as int).contains(
                        p,
                    ),
                forall|p: Pid| #[trigger]
                    log_from(deltas_view(list@)).contains_key(p) ==> log_from(deltas_view(list@))[p]
                        == log[p],
        {
            let pid: Pid = pids[i];
            let ghost before = log_from(deltas_view(list@));
            assert(pids@.contains(pid));
            assert(!pids@.take(i as int).contains(pid));
            if let Some(items) = self.delta_log.list(&pid) {
                for j in 0..items.len()
                    invariant
                        self.wf(),
                        log == self@.log,
                        self.delta_log@.contains_key(pid),
                        items@ == self.delta_log@[pid],
                        !before.contains_key(pid),
                        log_from(deltas_view(list@)) == if j == 0 {
                            before
                        } else {
                            before.insert(pid, log[pid].take(j as int))
                        },
                {
                    let ghost shorter = deltas_view(list@);
                    let ghost delta = items@[j as int].1@;
                    proof {
                        assert(self.delta_log@[pid][j as int].0.pid == pid);
                        assert(log[pid] == items_view(items@));
                    }
                    list.push(items[j].1.duplicate());
                    proof {
                        assert(deltas_view(list@) =~= shorter.push(delta));
                        assert(deltas_view(list@).drop_last() =~= shorter);
                        assert(deltas_view(list@).last() == delta);
                        assert(delta.dot.pid == pid);
                        assert(log[pid].take(j + 1) =~= log[pid].take(j as int).push(delta));
                        assert(log[pid].take(0) =~= Seq::empty());
                        assert(log_from(deltas_view(list@)) =~= before.insert(
                            pid,
                            log[pid].take(j + 1),
                        ));
                    }
                }
                assert(log[pid] == items_view(items@));
                assert(log[pid].take(items@.len() as int) =~= log[pid]);
            }
            proof {
                crate::dots::lemma_take_next(pids@, i as int);
            }
        }
        proof {
            assert(pids@.take(pids@.len() as int) =~= pids@);
            assert(log_from(deltas_view(list@)) =~= log);
        }
        list
    }

    /// Puts a set together again.
    pub fn from_parts(parts: ORSetParts<T>) -> (set: Self)
        ensures
            set.wf(),
            set@ == parts.whole(),
    {
        let ghost entries = entries_view(parts.entries@);
        let ghost whole = parts.whole();
        let mut set = ORSet::new();
        set.pid = parts.pid;
        set.version_vector = parts.version_vector;
        assert(entries.take(0) =~= Seq::empty());
        for i in 0..parts.entries.len()
            invariant
                entries == entries_view(parts.entries@),
                set.wf(),
                set@.pid == parts.pid,
                set@.vector == parts.version_vector@,
                set@.log == Map::<Pid, Seq<DeltaView<T::V>>>::empty(),
                set@.entries == entries_from(entries.take(i as int)),
        {
            let entry = &parts.entries[i];
            assert(entries[i as int].1 == entry.1@);
            let dots = entry.1.clone();
            let ghost before = set@.entries;
            proof {
                assert(dots@ =~= entry.1@);
                assert(entries.take(i + 1).drop_last() =~= entries.take(i as int));
                assert(entries.take(i + 1).last() == (entry.0@, entry.1@));
            }
            set.entries.insert(entry.0.duplicate(), dots);
            assert(set@.entries =~= before.insert(entry.0@, entry.1@));
        }
        assert(entries.take(entries.len() as int) =~= entries);
        let ghost deltas = deltas_view(parts.deltas@);
        assert(deltas.take(0) =~= Seq::empty());
        for i in 0..parts.deltas.len()
            invariant
                deltas == deltas_view(parts.deltas@),
                set.wf(),
                set@.pid == parts.pid,
                set@.vector == parts.version_vector@,
                set@.log == log_from(deltas.take(i as int)),
                set@.entries == entries_from(entries),
        {
            proof {
                assert(deltas.take(i + 1).drop_last() =~= deltas.take(i as int));
                assert(deltas.take(i + 1).last() == parts.deltas@[i as int]@);
            }
            set.log_delta(parts.deltas[i].duplicate());
        }
        assert(deltas.take(deltas.len() as int) =~= deltas);
        set
    }
}

/// Whether a list of replicas holds `pid`.
fn holds_pid(pids: &Vec<Pid>, pid: Pid) -> (held: bool)
    ensures
        held == pids@.contains(pid),
{
    for i in 0..pids.len()
        invariant
            forall|j: int| 0 <= j < i ==> pids@[j] != pid,
    {
        if pids[i] == pid {
            assert(pids@[i as int] == pid);
            return true;
        }
    }
    false
}

/// Whether an optional list of replicas holds `pid`.
fn lists_pid(pids: &Option<Vec<Pid>>, pid: Pid) -> (held: bool)
    ensures
        held == is_departed(listed(*pids), pid),
{
    match pids {
        Some(pids) => holds_pid(pids, pid),
        None => false,
    }
}

} // verus!
