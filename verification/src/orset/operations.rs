//! What each operation of the set does, entry by entry and change by change.

use vstd::prelude::*;
use crate::crdt::{CRDT, DeltaGroup};
use crate::dots::dot_map::lemma_filter_holds;
use crate::dots::{Counter, Dot};
use crate::order::Element;
use crate::orset::agreement::{
    is_world, law_pulls_bring_agreement, remembers, takes_part, History,
};
use crate::orset::causal::{distinct, in_order, of_pid, orderable, same_runs};
use crate::orset::convergence::{contiguous, law_pull_brings_up_to_date, reaches};
use crate::orset::laws::lemma_filter_none;
use crate::orset::{
    all_insertions, all_removals, deltas_view, dots_of, entries_from, entries_view,
    lemma_filter_agrees, log_from, total_changes, ChangeView, DeltaView, ORSet, ORSetParts,
    ORSetView, OrSetChange, OrSetDelta, OrSetError, OrSetMeta, OrSetMutation, OrSetQuery,
    OrSetResponse,
};
use crate::prelude::Pid;

verus! {

/// What a set means is its view, and its version vector is the one in it.
pub proof fn law_state_is_the_view<T: Element + Clone + Send + Sync>(set: ORSet<T>)
    ensures
        set.state() == set@,
        set.valid() == set.wf(),
        ORSet::<T>::vector(set@) == set@.vector,
{
}

/// An empty set has no identity, no element, no change and has observed nothing.
pub proof fn law_empty_set_is_empty<V>()
    ensures
        ORSetView::<V>::blank().pid is None,
        ORSetView::<V>::blank().entries == Map::<V, Seq<Dot>>::empty(),
        ORSetView::<V>::blank().log == Map::<Pid, Seq<DeltaView<V>>>::empty(),
        ORSetView::<V>::blank().vector == Map::<Pid, Counter>::empty(),
{
}

/// A change means its element and, where it is a removal, the dots that it
/// names.
pub proof fn law_changes_are_seen_as_they_are<T: Element>(
    change: OrSetChange<T>,
    list: Seq<OrSetDelta<T>>,
    i: int,
)
    ensures
        change is Insert ==> change@ == (ChangeView::<T::V>::Insert {
            element: change->Insert_element@,
        }),
        change is Remove ==> change@ == (ChangeView::<T::V>::Remove {
            element: change->Remove_element@,
            removed_dots: change->removed_dots@,
        }),
        deltas_view(list).len() == list.len(),
        0 <= i < list.len() ==> deltas_view(list)[i] == list[i]@,
{
}

/// Taking an identity changes nothing but the identity.
pub proof fn law_identity_is_all_that_changes<T: Element + Clone + Send + Sync>(
    state: ORSetView<T::V>,
    pid: Pid,
)
    ensures
        ORSet::<T>::identified(state, pid).pid == Some(pid),
        ORSet::<T>::identified(state, pid).entries == state.entries,
        ORSet::<T>::identified(state, pid).log == state.log,
        ORSet::<T>::identified(state, pid).vector == state.vector,
{
}

/// A mutation is issued under the dot that follows the last one of the replica,
/// is appended to the log of the replica, and touches no other element and no
/// other replica. An insertion adds its dot to those that hold the element; a
/// removal takes all of them and names them. Without an identity nothing
/// happens.
pub proof fn law_mutation_is_recorded<T: Element + Clone + Send + Sync>(
    state: ORSetView<T::V>,
    mutation: OrSetMutation<T>,
)
    requires
        ORSet::<T>::can_mutate(state, mutation),
    ensures
        ({
            let after = ORSet::<T>::mutated(state, mutation);
            let element = match mutation {
                OrSetMutation::Insert(element) => element@,
                OrSetMutation::Remove(element) => element@,
            };
            match state.pid {
                None => after == state,
                Some(pid) => {
                    let counter: int = if state.vector.contains_key(pid) {
                        state.vector[pid] + 1
                    } else {
                        0
                    };
                    let logged: Seq<DeltaView<T::V>> = if state.log.contains_key(pid) {
                        state.log[pid]
                    } else {
                        Seq::empty()
                    };
                    let held: Seq<Dot> = if state.entries.contains_key(element) {
                        state.entries[element]
                    } else {
                        Seq::empty()
                    };
                    &&& after.pid == state.pid
                    &&& after.vector.dom() == state.vector.dom().insert(pid)
                    &&& after.vector[pid] == counter
                    &&& forall|p: Pid| #[trigger]
                        state.vector.contains_key(p) && p != pid ==> after.vector[p]
                            == state.vector[p]
                    &&& after.log.dom() == state.log.dom().insert(pid)
                    &&& after.log[pid].len() == logged.len() + 1
                    &&& after.log[pid].take(logged.len() as int) == logged
                    &&& after.log[pid].last().dot.pid == pid
                    &&& after.log[pid].last().dot.counter == counter
                    &&& forall|p: Pid| #[trigger]
                        state.log.contains_key(p) && p != pid ==> after.log[p] == state.log[p]
                    &&& forall|e: T::V| #[trigger]
                        after.entries.contains_key(e) && e != element <==> state.entries.contains_key(
                            e,
                        ) && e != element
                    &&& forall|e: T::V| #[trigger]
                        state.entries.contains_key(e) && e != element ==> after.entries[e]
                            == state.entries[e]
                    &&& match mutation {
                        OrSetMutation::Insert(_) => {
                            &&& after.log[pid].last().change == ChangeView::<T::V>::Insert {
                                element,
                            }
                            &&& after.entries.contains_key(element)
                            &&& after.entries[element] == if held.contains(
                                after.log[pid].last().dot,
                            ) {
                                held
                            } else {
                                held.push(after.log[pid].last().dot)
                            }
                        },
                        OrSetMutation::Remove(_) => {
                            &&& after.log[pid].last().change == ChangeView::<T::V>::Remove {
                                element,
                                removed_dots: held,
                            }
                            &&& !after.entries.contains_key(element)
                        },
                    }
                },
            }
        }),
{
    if state.pid is Some {
        let pid = state.pid->0;
        let after = ORSet::<T>::mutated(state, mutation);
        assert(after.vector.dom() =~= state.vector.dom().insert(pid));
        assert(after.log.dom() =~= state.log.dom().insert(pid));
        let logged: Seq<DeltaView<T::V>> = if state.log.contains_key(pid) {
            state.log[pid]
        } else {
            Seq::empty()
        };
        assert(after.log[pid].take(logged.len() as int) =~= logged);
        match mutation {
            OrSetMutation::Insert(_) => {},
            OrSetMutation::Remove(element) => {
                let held = dots_of(state.entries, element@);
                lemma_filter_none(held, |d: Dot| !held.contains(d));
            },
        }
    }
}

/// A mutation can be applied unless the counter of the replica is used up, and
/// the client is told that it was applied exactly where the replica has an
/// identity.
pub proof fn law_mutation_is_acknowledged<T: Element + Clone + Send + Sync>(
    state: ORSetView<T::V>,
    mutation: OrSetMutation<T>,
    response: Result<OrSetResponse<T>, OrSetError>,
)
    ensures
        ORSet::<T>::can_mutate(state, mutation) <==> !(state.pid is Some
            && state.vector.contains_key(state.pid->0) && state.vector[state.pid->0]
            == Counter::MAX),
        ORSet::<T>::acknowledges(state, mutation, response) <==> match state.pid {
            Some(_) => response == Ok::<OrSetResponse<T>, OrSetError>(OrSetResponse::Acknowledged),
            None => response == Err::<OrSetResponse<T>, OrSetError>(OrSetError::MissingPid),
        },
{
}

/// An element is contained exactly if a dot holds it. The elements are listed
/// once each, in ascending order, and none is left out.
pub proof fn law_queries_are_answered<T: Element + Clone + Send + Sync>(
    state: ORSetView<T::V>,
    element: T,
    response: Result<OrSetResponse<T>, OrSetError>,
    list: Vec<T>,
    meta: OrSetMeta,
)
    ensures
        ORSet::<T>::answers(state, OrSetQuery::Contains(element), response) <==> response == Ok::<
            OrSetResponse<T>,
            OrSetError,
        >(
            OrSetResponse::Contains(
                state.entries.contains_key(element@) && state.entries[element@].len() > 0,
            ),
        ),
        ORSet::<T>::answers(state, OrSetQuery::Elements, response) ==> response is Ok
            && response->Ok_0 is Elements,
        ORSet::<T>::answers(state, OrSetQuery::Meta, response) ==> response is Ok
            && response->Ok_0 is Meta,
        ORSet::<T>::answers(
            state,
            OrSetQuery::Elements,
            Ok::<OrSetResponse<T>, OrSetError>(OrSetResponse::Elements(list)),
        ) <==> {
            &&& forall|i: int, j: int|
                0 <= i < j < list@.len() ==> T::precedes(
                    (#[trigger] list@[i])@,
                    (#[trigger] list@[j])@,
                )
            &&& forall|i: int|
                0 <= i < list@.len() ==> state.entries.contains_key((#[trigger] list@[i])@)
            &&& forall|e: T::V| #[trigger]
                state.entries.contains_key(e) ==> exists|i: int|
                    0 <= i < list@.len() && (#[trigger] list@[i])@ == e
        },
        ORSet::<T>::answers(
            state,
            OrSetQuery::Meta,
            Ok::<OrSetResponse<T>, OrSetError>(OrSetResponse::Meta(meta)),
        ) ==> {
            &&& meta.entry_count == state.entries.dom().len()
            &&& total_changes(state.log) <= usize::MAX ==> meta.delta_log_count == total_changes(
                state.log,
            )
        },
{
    let views = list@.map_values(|e: T| e@);
    if ORSet::<T>::answers(
        state,
        OrSetQuery::Elements,
        Ok::<OrSetResponse<T>, OrSetError>(OrSetResponse::Elements(list)),
    ) {
        assert forall|i: int, j: int| 0 <= i < j < list@.len() implies T::precedes(
            (#[trigger] list@[i])@,
            (#[trigger] list@[j])@,
        ) by {
            assert(T::precedes(views[i], views[j]));
        }
        assert forall|i: int| 0 <= i < list@.len() implies state.entries.contains_key(
            (#[trigger] list@[i])@,
        ) by {
            assert(views[i] == list@[i]@);
            assert(views.contains(views[i]));
        }
        assert forall|e: T::V| #[trigger] state.entries.contains_key(e) implies exists|i: int|
            0 <= i < list@.len() && (#[trigger] list@[i])@ == e by {
            assert(views.contains(e));
            let i = choose|i: int| 0 <= i < views.len() && views[i] == e;
            assert(list@[i]@ == e);
        }
    }
    if (forall|i: int, j: int|
        0 <= i < j < list@.len() ==> T::precedes((#[trigger] list@[i])@, (#[trigger] list@[j])@))
        && (forall|i: int|
        0 <= i < list@.len() ==> state.entries.contains_key((#[trigger] list@[i])@)) && (forall|
        e: T::V,
    | #[trigger]
        state.entries.contains_key(e) ==> exists|i: int|
            0 <= i < list@.len() && (#[trigger] list@[i])@ == e) {
        assert forall|i: int, j: int| 0 <= i < j < views.len() implies T::precedes(
            #[trigger] views[i],
            #[trigger] views[j],
        ) by {
            assert(T::precedes(list@[i]@, list@[j]@));
        }
        assert forall|e: T::V| #[trigger] views.contains(e) <==> state.entries.contains_key(e) by {
            if views.contains(e) {
                let i = choose|i: int| 0 <= i < views.len() && views[i] == e;
                assert(list@[i]@ == e);
            }
            if state.entries.contains_key(e) {
                let i = choose|i: int| 0 <= i < list@.len() && (#[trigger] list@[i])@ == e;
                assert(views[i] == e);
            }
        }
    }
}

/// The changes of a log are counted replica by replica.
pub proof fn law_logged_changes_are_counted<V>(log: Map<Pid, Seq<DeltaView<V>>>, pid: Pid)
    requires
        log.dom().finite(),
    ensures
        total_changes(Map::<Pid, Seq<DeltaView<V>>>::empty()) == 0,
        log.contains_key(pid) ==> total_changes(log) == log[pid].len() + total_changes(
            log.remove(pid),
        ),
    decreases log.dom().len(),
{
    assert(Map::<Pid, Seq<DeltaView<V>>>::empty().dom().len() == 0);
    if log.contains_key(pid) {
        assert(log.dom().contains(pid));
        if log.dom().len() == 0 {
            log.dom().lemma_len0_is_empty();
        }
        let first = log.dom().choose();
        assert(log.dom().contains(first));
        if first != pid {
            let rest = log.remove(first);
            let others = log.remove(pid);
            assert(rest.dom() =~= log.dom().remove(first));
            assert(others.dom() =~= log.dom().remove(pid));
            law_logged_changes_are_counted(rest, pid);
            law_logged_changes_are_counted(others, first);
            assert(rest.remove(pid) =~= others.remove(first));
        }
    }
}

/// A group holds of each origin the changes of the log that the vector does not
/// cover, all of them, in their order, and nothing else. It goes with the
/// version vector of the sender.
pub proof fn law_group_leaves_nothing_out<T: Element + Clone + Send + Sync>(
    state: ORSetView<T::V>,
    vector: Map<Pid, Counter>,
    group: DeltaGroup<OrSetDelta<T>>,
    counts: (u16, u16),
    pid: Pid,
    i: int,
)
    requires
        ORSet::<T>::is_delta(state, vector, group, counts),
    ensures
        ({
            let list = group.list@.map_values(|delta: OrSetDelta<T>| delta@);
            let logged: Seq<DeltaView<T::V>> = if state.log.contains_key(pid) {
                state.log[pid]
            } else {
                Seq::empty()
            };
            &&& group.version_vector@ == state.vector
            &&& list.filter(|delta: DeltaView<T::V>| delta.dot.pid == pid) == logged.filter(
                |delta: DeltaView<T::V>|
                    !(vector.contains_key(delta.dot.pid) && delta.dot.counter
                        <= vector[delta.dot.pid]),
            )
            &&& 0 <= i < logged.len() && logged[i].dot.pid == pid && !(vector.contains_key(pid)
                && logged[i].dot.counter <= vector[pid]) ==> list.contains(logged[i])
        }),
{
    let list = group.list@.map_values(|delta: OrSetDelta<T>| delta@);
    assert(list =~= deltas_view(group.list@));
    let logged = state.log_of(pid);
    let fresh = |delta: DeltaView<T::V>|
        !(vector.contains_key(delta.dot.pid) && delta.dot.counter <= vector[delta.dot.pid]);
    lemma_filter_agrees(
        logged,
        fresh,
        |delta: DeltaView<T::V>| !crate::dots::covers(vector, delta.dot),
    );
    assert(of_pid(list, pid) == logged.filter(fresh));
    if 0 <= i < logged.len() && logged[i].dot.pid == pid && fresh(logged[i]) {
        lemma_filter_holds(logged, fresh, logged[i]);
        assert(logged.contains(logged[i]));
        lemma_filter_holds(list, |delta: DeltaView<T::V>| delta.dot.pid == pid, logged[i]);
    }
}

/// No change of a group comes before one that it names, if there is any way to
/// put its changes so that keeps those of each origin in their order.
pub proof fn law_group_is_in_causal_order<T: Element + Clone + Send + Sync>(
    state: ORSetView<T::V>,
    vector: Map<Pid, Counter>,
    group: DeltaGroup<OrSetDelta<T>>,
    counts: (u16, u16),
    other: Seq<DeltaView<T::V>>,
    a: int,
    b: int,
)
    requires
        ORSet::<T>::is_delta(state, vector, group, counts),
        forall|i: int, j: int|
            0 <= i < j < group.list@.len() ==> (#[trigger] group.list@[i])@.dot != (
            #[trigger] group.list@[j])@.dot,
        forall|pid: Pid|
            other.filter(#[trigger] is_of::<T::V>(pid)) == group.list@.map_values(
                |delta: OrSetDelta<T>| delta@,
            ).filter(is_of::<T::V>(pid)),
        forall|i: int, j: int|
            #![trigger other[i], other[j]]
            0 <= i < other.len() && 0 <= j < other.len() && (match other[j].change {
                ChangeView::Insert { .. } => false,
                ChangeView::Remove { removed_dots, .. } => removed_dots.contains(other[i].dot),
            }) ==> i < j,
        0 <= a < group.list@.len(),
        0 <= b < group.list@.len(),
    ensures
        match group.list@[b]@.change {
            ChangeView::Insert { .. } => true,
            ChangeView::Remove { removed_dots, .. } => removed_dots.contains(
                group.list@[a]@.dot,
            ) ==> a < b,
        },
{
    let list = group.list@.map_values(|delta: OrSetDelta<T>| delta@);
    assert(list =~= deltas_view(group.list@));
    assert forall|i: int, j: int|
        0 <= i < list.len() && 0 <= j < list.len() && i != j implies (#[trigger] list[i]).dot != (
    #[trigger] list[j]).dot by {
        if i < j {
            assert(group.list@[i]@.dot != group.list@[j]@.dot);
        } else {
            assert(group.list@[j]@.dot != group.list@[i]@.dot);
        }
    }
    assert(distinct(list));
    assert forall|pid: Pid| #[trigger] of_pid(other, pid) == of_pid(list, pid) by {
        lemma_filter_agrees(
            other,
            is_of::<T::V>(pid),
            |delta: DeltaView<T::V>| delta.dot.pid == pid,
        );
        lemma_filter_agrees(
            list,
            is_of::<T::V>(pid),
            |delta: DeltaView<T::V>| delta.dot.pid == pid,
        );
    }
    assert(same_runs(other, list));
    assert forall|i: int, j: int|
        0 <= i < other.len() && 0 <= j < other.len() && #[trigger] crate::orset::laws::names(
            other[j].change,
            other[i].dot,
        ) implies i < j by {}
    assert(in_order(other));
    assert(orderable(list));
    assert(in_order(list));
    assert(list[a] == group.list@[a]@);
    assert(list[b] == group.list@[b]@);
    if crate::orset::laws::names(list[b].change, list[a].dot) {
        assert(a < b);
    }
}

/// The changes of one origin.
pub open spec fn is_of<V>(pid: Pid) -> spec_fn(DeltaView<V>) -> bool {
    |delta: DeltaView<V>| delta.dot.pid == pid
}

/// The insertions and the removed dots of a list are counted change by change,
/// and a group goes with these counts, modulo what sixteen bits hold.
pub proof fn law_changes_are_counted<T: Element + Clone + Send + Sync>(
    list: Seq<DeltaView<T::V>>,
    delta: DeltaView<T::V>,
    state: ORSetView<T::V>,
    vector: Map<Pid, Counter>,
    group: DeltaGroup<OrSetDelta<T>>,
    counts: (u16, u16),
)
    ensures
        all_insertions(Seq::<DeltaView<T::V>>::empty()) == 0,
        all_removals(Seq::<DeltaView<T::V>>::empty()) == 0,
        all_insertions(list.push(delta)) == all_insertions(list) + match delta.change {
            ChangeView::Insert { .. } => 1int,
            ChangeView::Remove { .. } => 0int,
        },
        all_removals(list.push(delta)) == all_removals(list) + match delta.change {
            ChangeView::Insert { .. } => 0int,
            ChangeView::Remove { removed_dots, .. } => removed_dots.len() as int,
        },
        ORSet::<T>::is_delta(state, vector, group, counts) ==> counts.0 as int == all_insertions(
            group.list@.map_values(|delta: OrSetDelta<T>| delta@),
        ) % 0x1_0000 && counts.1 as int == all_removals(
            group.list@.map_values(|delta: OrSetDelta<T>| delta@),
        ) % 0x1_0000,
{
    assert(list.push(delta).drop_last() =~= list);
    assert(group.list@.map_values(|delta: OrSetDelta<T>| delta@) =~= deltas_view(group.list@));
}

/// A group is merged one change after the other. A change that is known is
/// passed over; one that is not is logged and observed, and does to the
/// entries what it says. It fits if it is the next one of its replica, or the
/// first that is heard of it.
pub proof fn law_group_is_merged_change_by_change<T: Element + Clone + Send + Sync>(
    state: ORSetView<T::V>,
    group: DeltaGroup<OrSetDelta<T>>,
    longer: DeltaGroup<OrSetDelta<T>>,
    last: OrSetDelta<T>,
)
    requires
        longer.list@ == group.list@.push(last),
    ensures
        group.list@.len() == 0 ==> {
            &&& ORSet::<T>::merged(state, group) == state
            &&& ORSet::<T>::can_merge(state, group)
            &&& ORSet::<T>::merge_counts(state, group) == (0u16, 0u16)
        },
        ({
            let before = ORSet::<T>::merged(state, group);
            let after = ORSet::<T>::merged(state, longer);
            let had = ORSet::<T>::merge_counts(state, group);
            let has = ORSet::<T>::merge_counts(state, longer);
            let dot = last@.dot;
            let pid = dot.pid;
            let logged: Seq<DeltaView<T::V>> = if before.log.contains_key(pid) {
                before.log[pid]
            } else {
                Seq::empty()
            };
            if before.vector.contains_key(pid) && dot.counter <= before.vector[pid] {
                &&& after == before
                &&& has == had
                &&& ORSet::<T>::can_merge(state, longer) == ORSet::<T>::can_merge(state, group)
            } else {
                &&& ORSet::<T>::can_merge(state, longer) <==> ORSet::<T>::can_merge(state, group)
                    && (before.vector.contains_key(pid) ==> before.vector[pid] + 1 == dot.counter)
                &&& after.pid == before.pid
                &&& after.vector == before.vector.insert(pid, dot.counter)
                &&& after.log == before.log.insert(pid, logged.push(last@))
                &&& match last@.change {
                    ChangeView::Insert { element } => {
                        let held: Seq<Dot> = if before.entries.contains_key(element) {
                            before.entries[element]
                        } else {
                            Seq::empty()
                        };
                        &&& after.entries == before.entries.insert(
                            element,
                            if held.contains(dot) {
                                held
                            } else {
                                held.push(dot)
                            },
                        )
                        &&& has.0 as int == (had.0 + 1) % 0x1_0000
                        &&& has.1 == had.1
                    },
                    ChangeView::Remove { element, removed_dots } => {
                        let held: Seq<Dot> = if before.entries.contains_key(element) {
                            before.entries[element]
                        } else {
                            Seq::empty()
                        };
                        let rest = held.filter(|d: Dot| !removed_dots.contains(d));
                        &&& after.entries == if rest.len() == 0 {
                            before.entries.remove(element)
                        } else {
                            before.entries.insert(element, rest)
                        }
                        &&& has.0 == had.0
                        &&& has.1 as int == (had.1 + removed_dots.len()) % 0x1_0000
                    },
                }
            }
        }),
{
    let list = deltas_view(group.list@);
    let more = deltas_view(longer.list@);
    assert(more =~= list.push(last@));
    assert(more.drop_last() =~= list);
    if group.list@.len() == 0 {
        assert(list =~= Seq::empty());
    }
    let a = state.insertions(list) as int;
    let b = state.removals(list) as int;
    assert(state.insertions(more) == a + if state.merged(list).lacks(last@) {
        crate::orset::inserted_by(last@)
    } else {
        0
    });
    assert(state.removals(more) == b + if state.merged(list).lacks(last@) {
        crate::orset::removed_by(last@)
    } else {
        0
    });
}

/// A peer that pulls can merge what it is sent, and has then observed what
/// either of the two had. The counts that go with the group are those that the
/// peer finds.
pub proof fn law_group_brings_up_to_date<T: Element + Clone + Send + Sync>(
    source: ORSetView<T::V>,
    target: ORSetView<T::V>,
    group: DeltaGroup<OrSetDelta<T>>,
    counts: (u16, u16),
)
    requires
        contiguous(source),
        reaches(source, target.vector),
        ORSet::<T>::is_delta(source, target.vector, group, counts),
    ensures
        ORSet::<T>::can_merge(target, group),
        ORSet::<T>::merge_counts(target, group) == counts,
        forall|p: Pid| #[trigger]
            ORSet::<T>::merged(target, group).vector.contains_key(p)
                <==> target.vector.contains_key(p) || source.vector.contains_key(p),
        forall|p: Pid|
            ORSet::<T>::merged(target, group).vector.contains_key(p) ==> {
                let counter = #[trigger] ORSet::<T>::merged(target, group).vector[p];
                &&& target.vector.contains_key(p) ==> target.vector[p] <= counter
                &&& source.vector.contains_key(p) ==> source.vector[p] <= counter
                &&& (target.vector.contains_key(p) && counter == target.vector[p]) || (
                source.vector.contains_key(p) && counter == source.vector[p])
            },
{
    law_pull_brings_up_to_date(source, target, deltas_view(group.list@));
}

/// Whatever replicas have issued, pulled and collected: once one has pulled
/// from another and has been pulled from, both contain the same elements.
pub proof fn law_pulls_make_replicas_agree<T: Element + Clone + Send + Sync>(
    issued: Set<DeltaView<T::V>>,
    one: ORSetView<T::V>,
    one_history: History<T::V>,
    other: ORSetView<T::V>,
    other_history: History<T::V>,
    to_one: DeltaGroup<OrSetDelta<T>>,
    to_one_counts: (u16, u16),
    to_other: DeltaGroup<OrSetDelta<T>>,
    to_other_counts: (u16, u16),
    element: T::V,
)
    requires
        is_world(issued),
        takes_part(issued, one, one_history),
        takes_part(issued, other, other_history),
        one_history.gone == other_history.gone,
        remembers(other, other_history, one.vector),
        remembers(one, one_history, other.vector),
        ORSet::<T>::is_delta(other, one.vector, to_one, to_one_counts),
        ORSet::<T>::is_delta(
            ORSet::<T>::merged(one, to_one),
            other.vector,
            to_other,
            to_other_counts,
        ),
    ensures
        ({
            let a = ORSet::<T>::merged(one, to_one);
            let b = ORSet::<T>::merged(other, to_other);
            &&& a.vector == b.vector
            &&& a.entries.contains_key(element) == b.entries.contains_key(element)
            &&& a.entries.contains_key(element) ==> (a.entries[element].len() > 0) == (
            b.entries[element].len() > 0)
        }),
{
    law_pulls_bring_agreement(
        issued,
        one,
        one_history,
        other,
        other_history,
        deltas_view(to_one.list@),
        deltas_view(to_other.list@),
        element,
    );
}

/// A round keeps in the log, in their order, the changes that the frontier does
/// not cover and whose origin has not departed, and drops the others. It
/// forgets the counters of departed replicas and no others, and keeps the
/// identity and every dot that holds an element.
pub proof fn law_round_drops_only_what_it_may<T: Element + Clone + Send + Sync>(
    state: ORSetView<T::V>,
    stable: Map<Pid, Counter>,
    departed: Option<Seq<Pid>>,
    pid: Pid,
    element: T::V,
)
    ensures
        ({
            let after = ORSet::<T>::collected(state, stable, departed);
            let goes = |p: Pid| departed is Some && departed->0.contains(p);
            let logged: Seq<DeltaView<T::V>> = if state.log.contains_key(pid) {
                state.log[pid]
            } else {
                Seq::empty()
            };
            let kept = logged.filter(
                |delta: DeltaView<T::V>|
                    !(stable.contains_key(delta.dot.pid) && delta.dot.counter
                        <= stable[delta.dot.pid]) && !goes(delta.dot.pid),
            );
            &&& after.pid == state.pid
            &&& after.log.contains_key(pid) <==> kept.len() > 0
            &&& after.log.contains_key(pid) ==> after.log[pid] == kept
            &&& after.vector.contains_key(pid) <==> state.vector.contains_key(pid) && !goes(pid)
            &&& after.vector.contains_key(pid) ==> after.vector[pid] == state.vector[pid]
            &&& after.entries.contains_key(element) ==> state.entries.contains_key(element)
                && after.entries[element] == state.entries[element]
            &&& state.entries.contains_key(element) && (state.entries[element].len() > 0
                || departed is None || departed->0.len() == 0) ==> after.entries.contains_key(
                element,
            )
            &&& state.entries.contains_key(element) && state.entries[element].len() == 0
                && departed is Some && departed->0.len() > 0 ==> !after.entries.contains_key(
                element,
            )
        }),
{
    let goes = |p: Pid| departed is Some && departed->0.contains(p);
    let logged = state.log_of(pid);
    let keep = |delta: DeltaView<T::V>|
        !(stable.contains_key(delta.dot.pid) && delta.dot.counter <= stable[delta.dot.pid])
            && !goes(delta.dot.pid);
    lemma_filter_agrees(
        logged,
        keep,
        |delta: DeltaView<T::V>| ORSetView::<T::V>::stays(stable, departed, delta.dot),
    );
    reveal(Seq::filter);
}

/// A set that is taken apart is the same when it is put together: its entries
/// are those of the list, of two for one element the later, and its log holds
/// the changes of the list, of each replica in their order.
pub proof fn law_parts_make_up_the_set<T: Element>(parts: ORSetParts<T>, element: T::V, pid: Pid)
    ensures
        parts.whole().pid == parts.pid,
        parts.whole().vector == parts.version_vector@,
        parts.whole().entries.contains_key(element) <==> exists|i: int|
            0 <= i < parts.entries@.len() && (#[trigger] parts.entries@[i]).0@ == element,
        forall|i: int|
            0 <= i < parts.entries@.len() && (#[trigger] parts.entries@[i]).0@ == element && (
            forall|j: int|
                i < j < parts.entries@.len() ==> (#[trigger] parts.entries@[j]).0@ != element)
                ==> parts.whole().entries[element] == parts.entries@[i].1@,
        ({
            let run = parts.deltas@.map_values(|delta: OrSetDelta<T>| delta@).filter(
                |delta: DeltaView<T::V>| delta.dot.pid == pid,
            );
            &&& parts.whole().log.contains_key(pid) <==> run.len() > 0
            &&& run.len() > 0 ==> parts.whole().log[pid] == run
        }),
{
    let entries = entries_view(parts.entries@);
    if exists|i: int|
        0 <= i < parts.entries@.len() && (#[trigger] parts.entries@[i]).0@ == element {
        let i = choose|i: int|
            0 <= i < parts.entries@.len() && (#[trigger] parts.entries@[i]).0@ == element;
        let last = lemma_last_entry(entries, element, i);
        lemma_entry_at(entries, element, last);
    } else {
        assert forall|j: int| 0 <= j < entries.len() implies (#[trigger] entries[j]).0
            != element by {
            assert(parts.entries@[j].0@ != element);
        }
        lemma_no_entry(entries, element);
    }
    assert forall|i: int|
        0 <= i < parts.entries@.len() && (#[trigger] parts.entries@[i]).0@ == element && (forall|
            j: int,
        |
            i < j < parts.entries@.len() ==> (#[trigger] parts.entries@[j]).0@
                != element) implies parts.whole().entries[element] == parts.entries@[i].1@ by {
        assert forall|j: int| i < j < entries.len() implies (#[trigger] entries[j]).0 != element by {
            assert(parts.entries@[j].0@ != element);
        }
        lemma_entry_at(entries, element, i);
    }
    assert(parts.deltas@.map_values(|delta: OrSetDelta<T>| delta@) =~= deltas_view(parts.deltas@));
    lemma_log_from(deltas_view(parts.deltas@), pid);
}

/// The last entry of a list for an element counts.
proof fn lemma_entry_at<V>(list: Seq<(V, Seq<Dot>)>, element: V, i: int)
    requires
        0 <= i < list.len(),
        list[i].0 == element,
        forall|j: int| i < j < list.len() ==> (#[trigger] list[j]).0 != element,
    ensures
        entries_from(list).contains_key(element),
        entries_from(list)[element] == list[i].1,
    decreases list.len(),
{
    let front = list.drop_last();
    if i < front.len() {
        assert(list[front.len() as int].0 != element);
        assert forall|j: int| i < j < front.len() implies (#[trigger] front[j]).0 != element by {
            assert(list[j].0 != element);
        }
        lemma_entry_at(front, element, i);
    }
}

/// An element that a list has no entry for has none.
proof fn lemma_no_entry<V>(list: Seq<(V, Seq<Dot>)>, element: V)
    requires
        forall|j: int| 0 <= j < list.len() ==> (#[trigger] list[j]).0 != element,
    ensures
        !entries_from(list).contains_key(element),
    decreases list.len(),
{
    if list.len() > 0 {
        let front = list.drop_last();
        assert forall|j: int| 0 <= j < front.len() implies (#[trigger] front[j]).0 != element by {
            assert(list[j].0 != element);
        }
        assert(list[front.len() as int].0 != element);
        lemma_no_entry(front, element);
    }
}

/// Where a list has the last entry for an element.
proof fn lemma_last_entry<V>(list: Seq<(V, Seq<Dot>)>, element: V, i: int) -> (last: int)
    requires
        0 <= i < list.len(),
        list[i].0 == element,
    ensures
        i <= last < list.len(),
        list[last].0 == element,
        forall|j: int| last < j < list.len() ==> (#[trigger] list[j]).0 != element,
    decreases list.len() - i,
{
    if exists|j: int| i < j < list.len() && (#[trigger] list[j]).0 == element {
        let j = choose|j: int| i < j < list.len() && (#[trigger] list[j]).0 == element;
        lemma_last_entry(list, element, j)
    } else {
        i
    }
}

/// The log of a list.
proof fn lemma_log_from<V>(list: Seq<DeltaView<V>>, pid: Pid)
    ensures
        ({
            let run = list.filter(|delta: DeltaView<V>| delta.dot.pid == pid);
            &&& log_from(list).contains_key(pid) <==> run.len() > 0
            &&& run.len() > 0 ==> log_from(list)[pid] == run
        }),
    decreases list.len(),
{
    reveal(Seq::filter);
    if list.len() > 0 {
        lemma_log_from(list.drop_last(), pid);
        let run = list.drop_last().filter(|delta: DeltaView<V>| delta.dot.pid == pid);
        if run.len() == 0 {
            assert(run =~= Seq::empty());
        }
    }
}

} // verus!
