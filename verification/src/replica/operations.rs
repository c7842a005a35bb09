//! What the decisions of a replica come to, case by case.

use vstd::prelude::*;
use super::events::{
    after_round, is_reply, judged, responds, with_fresh_row, DeltaVerdict, ReplicaAction,
    ReplicaEvent,
};
use super::round::{listing_view, step_after_descriptor, step_after_listing, GcStep};
use super::{
    blank_wrapper, is_as_new_as_all, is_newer, is_plan, is_unchanged, rebound, refreshed, shutdowns,
    GcPlan, ReplicaView,
};
use crate::crdt::{
    CRDTWrapper, DeltaGroup, GcMarker, GcMarkerView, PersistentReplica, ReplicaMessage,
    WrapperView, CRDT, STABLE_REPLICA_PID,
};
use crate::dots::dot_map::lemma_filter_holds;
use crate::dots::{Counter, Dot, DotSet};
use crate::object_storage::StoreFault;
use crate::prelude::Pid;
use crate::replica_helpers::ReplicaDescriptor;

verus! {

/// The epoch is the counter of the last marker, and a vector that is sent out
/// carries it in the column of the stable replica; its other columns stay.
pub proof fn law_vectors_are_stamped_with_the_epoch(
    wrapper: WrapperView,
    vector: Map<Pid, Counter>,
    pid: Pid,
)
    requires
        pid != STABLE_REPLICA_PID,
    ensures
        wrapper.epoch() == wrapper.last.marker.counter,
        wrapper.stamped(vector).contains_key(STABLE_REPLICA_PID),
        wrapper.stamped(vector)[STABLE_REPLICA_PID] == wrapper.last.marker.counter,
        wrapper.stamped(vector).contains_key(pid) <==> vector.contains_key(pid),
        vector.contains_key(pid) ==> wrapper.stamped(vector)[pid] == vector[pid],
{
}

/// A round is due exactly if somebody observes and either a departed replica
/// can go or the frontier is ahead of the stable row in some column.
pub proof fn law_round_is_due(wrapper: WrapperView, frontier: Map<Pid, Counter>, pid: Pid)
    requires
        wrapper.matrix.is_frontier(frontier),
    ensures
        ({
            let rows = wrapper.matrix.rows;
            let stable = rows[STABLE_REPLICA_PID];
            let behind = |p: Pid|
                frontier.contains_key(p) && (!rows.contains_key(STABLE_REPLICA_PID)
                    || !stable.contains_key(p) || stable[p] < frontier[p]);
            let observed = exists|o: Pid| #[trigger] wrapper.matrix.observes(o);
            &&& wrapper.needs_gc() ==> observed
            &&& observed && wrapper.matrix.departs(pid) ==> wrapper.needs_gc()
            &&& observed && behind(pid) ==> wrapper.needs_gc()
            &&& wrapper.needs_gc() ==> !rows.contains_key(STABLE_REPLICA_PID) || (exists|p: Pid|
                #[trigger] wrapper.matrix.departs(p)) || exists|p: Pid| #[trigger]
                frontier.contains_key(p) && (!stable.contains_key(p) || stable[p] < frontier[p])
            &&& wrapper.installed(frontier) <==> rows.contains_key(STABLE_REPLICA_PID) && forall|
                p: Pid,
            | #[trigger]
                frontier.contains_key(p) ==> stable.contains_key(p) && frontier[p] <= stable[p]
        }),
{
    if wrapper.needs_gc() && !(exists|p: Pid| #[trigger] wrapper.matrix.departs(p)) {
        let other = choose|other: Map<Pid, Counter>| #[trigger]
            wrapper.matrix.is_frontier(other) && !wrapper.installed(other);
        crate::dots::laws::law_frontier_is_unique(wrapper.matrix, other, frontier);
        assert(other == frontier);
    }
}

/// A wrapper is in order if the local replica has a row, and a stored replica
/// if its wrapper is and its data is valid.
pub proof fn law_wrappers_need_the_own_row<T: CRDT>(
    wrapper: CRDTWrapper,
    stored: PersistentReplica<T>,
)
    ensures
        wrapper.wf() <==> wrapper@.matrix.rows.contains_key(wrapper@.matrix.own_pid),
        stored.wf() <==> stored.local_state.valid() && stored.crdt_wrapper.wf(),
{
}

/// A marker means what its fields do.
pub proof fn law_markers_are_seen_as_they_are(marker: GcMarker)
    ensures
        marker@.marker == marker.marker,
        marker@.stable == marker.stable@,
        marker.departed_pids is None ==> marker@.departed is None,
        marker.departed_pids is Some ==> marker@.departed == Some(marker.departed_pids->0@),
{
}

/// Once a round is applied its marker is the last one, and the matrix is that
/// of the round.
pub proof fn law_applied_round_is_the_last_one(wrapper: WrapperView, marker: GcMarkerView)
    ensures
        wrapper.collected(marker).last == marker,
        wrapper.collected(marker).matrix == wrapper.matrix.collected(
            marker.stable,
            marker.departed,
            marker.marker.counter,
        ),
{
}

/// A stored wrapper that is bound to an identity gets a row for it, with what
/// the data has observed and the epoch; everything else stays.
pub proof fn law_bound_wrapper_has_one_new_row(
    wrapper: WrapperView,
    pid: Pid,
    vector: Map<Pid, Counter>,
)
    ensures
        rebound(wrapper, pid, vector).matrix.own_pid == pid,
        rebound(wrapper, pid, vector).matrix.rows == wrapper.matrix.rows.insert(
            pid,
            vector.insert(STABLE_REPLICA_PID, wrapper.last.marker.counter),
        ),
        rebound(wrapper, pid, vector).matrix.final_dots == wrapper.matrix.final_dots,
        rebound(wrapper, pid, vector).last == wrapper.last,
{
}

/// A blank wrapper has one row, of a replica that has observed nothing, no
/// departed replica, and a last marker from before the first round.
pub proof fn law_blank_wrapper(pid: Pid)
    ensures
        ({
            let blank = blank_wrapper(pid);
            &&& blank.matrix.own_pid == pid
            &&& blank.matrix.rows.dom() == set![pid]
            &&& blank.matrix.rows[pid].dom() == set![pid, STABLE_REPLICA_PID]
            &&& blank.matrix.rows[pid][pid] == -1
            &&& blank.matrix.rows[pid][STABLE_REPLICA_PID] == -1
            &&& blank.matrix.final_dots == Map::<Pid, Counter>::empty()
            &&& blank.last.marker.pid == STABLE_REPLICA_PID
            &&& blank.last.marker.counter == -1
            &&& blank.last.stable == Map::<Pid, Counter>::empty()
            &&& blank.last.departed is None
        }),
{
    assert(blank_wrapper(pid).matrix.rows.dom() =~= set![pid]);
    assert(blank_wrapper(pid).matrix.rows[pid].dom() =~= set![pid, STABLE_REPLICA_PID]);
}

/// Refreshing puts what the data has observed, and the epoch, into the own row,
/// unless that row is of a later epoch. Nothing else changes.
pub proof fn law_refresh_changes_the_own_row_only(
    wrapper: WrapperView,
    vector: Map<Pid, Counter>,
)
    ensures
        ({
            let after = refreshed(wrapper, vector);
            let own_pid = wrapper.matrix.own_pid;
            let own = wrapper.matrix.rows[own_pid];
            let epoch = wrapper.last.marker.counter;
            let ahead = if own.contains_key(STABLE_REPLICA_PID) {
                own[STABLE_REPLICA_PID] > epoch
            } else {
                -1 > epoch
            };
            &&& after.last == wrapper.last
            &&& after.matrix.own_pid == own_pid
            &&& after.matrix.final_dots == wrapper.matrix.final_dots
            &&& ahead ==> after.matrix.rows == wrapper.matrix.rows
            &&& !ahead ==> after.matrix.rows == wrapper.matrix.rows.insert(
                own_pid,
                vector.insert(STABLE_REPLICA_PID, epoch),
            )
        }),
{
}

/// A marker is newer if it is one of the stable replica and of a later epoch; a
/// state is as new as all if no member is in a later one.
pub proof fn law_epochs_decide(
    marker: GcMarkerView,
    wrapper: WrapperView,
    epoch: Counter,
    members: Seq<ReplicaDescriptor>,
    i: int,
)
    requires
        0 <= i < members.len(),
    ensures
        is_newer(marker, wrapper) <==> marker.marker.pid == u128::MAX && marker.marker.counter
            > wrapper.last.marker.counter,
        members[i].gc_counter > epoch ==> !is_as_new_as_all(epoch, members),
        is_as_new_as_all(epoch, Seq::empty()),
        (forall|j: int| 0 <= j < members.len() ==> (#[trigger] members[j]).gc_counter <= epoch)
            ==> is_as_new_as_all(epoch, members),
{
}

/// The members are unchanged unless somebody else is listed who was not known,
/// or who has gone on to a later epoch.
pub proof fn law_membership_changes(
    own_pid: Pid,
    previous: Map<Pid, Counter>,
    members: Seq<ReplicaDescriptor>,
    i: int,
)
    requires
        0 <= i < members.len(),
    ensures
        members[i].pid != own_pid && !previous.contains_key(members[i].pid) ==> !is_unchanged(
            own_pid,
            previous,
            members,
        ),
        members[i].pid != own_pid && previous.contains_key(members[i].pid)
            && previous[members[i].pid] < members[i].gc_counter ==> !is_unchanged(
            own_pid,
            previous,
            members,
        ),
        !is_unchanged(own_pid, previous, members) ==> exists|j: int|
            0 <= j < members.len() && (#[trigger] members[j]).pid != own_pid && (
            !previous.contains_key(members[j].pid) || previous[members[j].pid]
                < members[j].gc_counter),
{
}

/// The shutdowns in a listing are the descriptors with a final counter, all of
/// them and in their order.
pub proof fn law_shutdowns_are_the_final_descriptors(
    members: Seq<ReplicaDescriptor>,
    descriptor: ReplicaDescriptor,
)
    ensures
        shutdowns(members).contains(descriptor) <==> members.contains(descriptor)
            && descriptor.final_counter is Some,
        shutdowns(Seq::empty()) == Seq::<ReplicaDescriptor>::empty(),
        shutdowns(members.push(descriptor)) == if descriptor.final_counter is Some {
            shutdowns(members).push(descriptor)
        } else {
            shutdowns(members)
        },
{
    lemma_filter_holds(
        members,
        |descriptor: ReplicaDescriptor| descriptor.final_counter is Some,
        descriptor,
    );
    reveal(Seq::filter);
    assert(members.push(descriptor).drop_last() =~= members);
}

/// A descriptor names the identity, the address and an epoch, and no final
/// counter; the last one names the current epoch and the last counter that was
/// issued, or minus one.
pub proof fn law_descriptors_describe_the_replica<S>(
    replica: ReplicaView<S>,
    epoch: Counter,
    vector: Map<Pid, Counter>,
)
    ensures
        replica.descriptor(epoch).pid == replica.pid,
        replica.descriptor(epoch).address == replica.address,
        replica.descriptor(epoch).gc_counter == epoch,
        replica.descriptor(epoch).final_counter is None,
        replica.last_descriptor(vector).pid == replica.pid,
        replica.last_descriptor(vector).address == replica.address,
        replica.last_descriptor(vector).gc_counter == replica.wrapper.last.marker.counter,
        replica.last_descriptor(vector).final_counter is Some,
        vector.contains_key(replica.pid) ==> replica.last_descriptor(vector).final_counter->0
            == vector[replica.pid],
        !vector.contains_key(replica.pid) ==> replica.last_descriptor(vector).final_counter->0
            == -1,
{
}

/// A departure is pending exactly if the descriptor has a final counter that is
/// not the one noted. Noting it changes nothing but the final dot.
pub proof fn law_departures_are_pending_until_noted<S>(
    replica: ReplicaView<S>,
    descriptor: ReplicaDescriptor,
    dot: Dot,
)
    ensures
        ({
            let known = replica.wrapper.matrix.final_dots;
            let pid = descriptor.pid;
            let fresh = descriptor.final_counter is Some && !(known.contains_key(pid)
                && known[pid] == descriptor.final_counter->0);
            &&& replica.pending(descriptor) is Some <==> fresh
            &&& fresh ==> replica.pending(descriptor)->0.pid == pid && replica.pending(
                descriptor,
            )->0.counter == descriptor.final_counter->0
            &&& replica.noted(dot).pid == replica.pid
            &&& replica.noted(dot).address == replica.address
            &&& replica.noted(dot).state == replica.state
            &&& replica.noted(dot).wrapper.last == replica.wrapper.last
            &&& replica.noted(dot).wrapper.matrix.own_pid == replica.wrapper.matrix.own_pid
            &&& replica.noted(dot).wrapper.matrix.rows == replica.wrapper.matrix.rows
            &&& replica.noted(dot).wrapper.matrix.final_dots == known.insert(dot.pid, dot.counter)
        }),
{
}

/// A planned round is the one after the last, installs the frontier and lets
/// go, in ascending order, exactly those whose departure has become stable; it
/// replaces the descriptor of the last epoch by that of the next.
pub proof fn law_plans_follow_the_matrix<S>(replica: ReplicaView<S>, plan: GcPlan, pid: Pid)
    requires
        is_plan(replica, plan),
    ensures
        ({
            let marker = plan.marker@;
            let epoch = replica.wrapper.last.marker.counter;
            &&& marker.marker.pid == u128::MAX
            &&& marker.marker.counter == epoch + 1
            &&& replica.wrapper.matrix.is_frontier(marker.stable)
            &&& replica.wrapper.matrix.departs(pid) ==> marker.departed is Some
                && marker.departed->0.contains(pid)
            &&& marker.departed is Some ==> {
                &&& marker.departed->0.len() > 0
                &&& marker.departed->0.contains(pid) ==> replica.wrapper.matrix.departs(pid)
                &&& forall|i: int, j: int|
                    0 <= i < j < marker.departed->0.len() ==> #[trigger] marker.departed->0[i]
                        < #[trigger] marker.departed->0[j]
            }
            &&& plan.previous.pid == replica.pid && plan.next.pid == replica.pid
            &&& plan.previous.address == replica.address && plan.next.address == replica.address
            &&& plan.previous.gc_counter == epoch && plan.next.gc_counter == epoch + 1
            &&& plan.previous.final_counter is None && plan.next.final_counter is None
        }),
{
    if plan.marker@.departed is Some {
        let pids = plan.marker@.departed->0;
        let p = choose|p: Pid| #[trigger] replica.wrapper.matrix.departs(p);
        assert(pids.contains(p));
    }
}

/// Applying a round collects the data and the wrapper, and keeps the identity
/// and the address.
pub proof fn law_round_is_applied_to_both<T: CRDT>(
    replica: ReplicaView<T::State>,
    marker: GcMarkerView,
)
    ensures
        after_round::<T>(replica, marker).pid == replica.pid,
        after_round::<T>(replica, marker).address == replica.address,
        after_round::<T>(replica, marker).state == T::collected(
            replica.state,
            marker.stable,
            marker.departed,
        ),
        after_round::<T>(replica, marker).wrapper == replica.wrapper.collected(marker),
{
}

/// A delta group of an earlier epoch is refused. Otherwise the round of a newer
/// marker is applied, unless it lets the replica itself go, and the group is to
/// be merged exactly if it then fits.
pub proof fn law_delta_groups_are_judged<T: CRDT>(
    replica: ReplicaView<T::State>,
    delta: DeltaGroup<T::Delta>,
    marker: GcMarkerView,
)
    ensures
        ({
            let (verdict, next) = judged::<T>(replica, delta, marker);
            let epoch = replica.wrapper.last.marker.counter;
            let vector = delta.version_vector@;
            let old_group = if vector.contains_key(u128::MAX) {
                vector[u128::MAX] < epoch
            } else {
                -1 < epoch
            };
            let newer = marker.marker.pid == u128::MAX && epoch < marker.marker.counter;
            let own_row = replica.wrapper.matrix.keeps_own_row(marker.departed);
            let after = if newer {
                ReplicaView {
                    pid: replica.pid,
                    address: replica.address,
                    state: T::collected(replica.state, marker.stable, marker.departed),
                    wrapper: replica.wrapper.collected(marker),
                }
            } else {
                replica
            };
            &&& verdict is Refused <==> old_group
            &&& verdict is Excludes <==> !old_group && newer && !own_row
            &&& verdict is Merge <==> !old_group && (newer ==> own_row) && T::can_merge(
                after.state,
                delta,
            )
            &&& verdict is Inapplicable <==> !old_group && (newer ==> own_row) && !T::can_merge(
                after.state,
                delta,
            )
            &&& verdict is Merge ==> verdict == (DeltaVerdict::Merge { collected: newer })
            &&& verdict is Inapplicable ==> verdict == (DeltaVerdict::Inapplicable {
                collected: newer,
            })
            &&& verdict is Refused || verdict is Excludes ==> next == replica
            &&& verdict is Merge || verdict is Inapplicable ==> next == after
        }),
{
}

/// A fresh row is that of the data; nothing else changes.
pub proof fn law_fresh_row_is_that_of_the_data<T: CRDT>(replica: ReplicaView<T::State>)
    ensures
        with_fresh_row::<T>(replica).pid == replica.pid,
        with_fresh_row::<T>(replica).address == replica.address,
        with_fresh_row::<T>(replica).state == replica.state,
        with_fresh_row::<T>(replica).wrapper == refreshed(
            replica.wrapper,
            T::vector(replica.state),
        ),
{
}

/// A version vector is answered with exactly what its sender lacks, stamped
/// with the epoch; the replica takes in the sender's row, then its own.
pub proof fn law_version_vector_is_answered<T: CRDT>(
    replica: ReplicaView<T::State>,
    sender: Pid,
    vector: DotSet,
    action: ReplicaAction<T>,
    next: ReplicaView<T::State>,
)
    requires
        responds::<T>(
            replica,
            ReplicaEvent::Message(ReplicaMessage::VersionVector(sender, vector)),
            action,
            next,
        ),
    ensures
        action matches ReplicaAction::Send(to, ReplicaMessage::DeltaGroup(reply, marker)) && to
            == sender && marker@ == replica.wrapper.last && exists|
            group: DeltaGroup<T::Delta>,
            counts: (u16, u16),
        | #[trigger]
            T::is_delta(replica.state, vector@, group, counts) && reply.list == group.list
                && reply.version_vector@ == group.version_vector@.insert(
                u128::MAX,
                replica.wrapper.last.marker.counter,
            ) && next.wrapper.matrix == replica.wrapper.matrix.updated(sender, vector@).updated(
                replica.wrapper.matrix.own_pid,
                group.version_vector@.insert(u128::MAX, replica.wrapper.last.marker.counter),
            ),
        next.pid == replica.pid,
        next.address == replica.address,
        next.state == replica.state,
        next.wrapper.last == replica.wrapper.last,
{
    let reply = action->Send_1->DeltaGroup_0;
    let (group, counts) = choose|group: DeltaGroup<T::Delta>, counts: (u16, u16)| #[trigger]
        T::is_delta(replica.state, vector@, group, counts) && reply.list == group.list
            && reply.version_vector@ == replica.wrapper.stamped(group.version_vector@) && next
            == (ReplicaView {
            wrapper: refreshed(
                (WrapperView {
                    matrix: replica.wrapper.matrix.updated(sender, vector@),
                    last: replica.wrapper.last,
                }),
                group.version_vector@,
            ),
            ..replica
        });
    assert(T::is_delta(replica.state, vector@, group, counts));
}

/// What such an answer is depends on the data, the vector and the wrapper only.
pub proof fn law_reply_is_what_is_lacking<T: CRDT>(
    replica: ReplicaView<T::State>,
    pid: Pid,
    vector: Map<Pid, Counter>,
    group: DeltaGroup<T::Delta>,
    counts: (u16, u16),
    reply: DeltaGroup<T::Delta>,
    next: ReplicaView<T::State>,
)
    requires
        T::is_delta(replica.state, vector, group, counts),
        reply.list == group.list,
        reply.version_vector@ == group.version_vector@.insert(
            u128::MAX,
            replica.wrapper.last.marker.counter,
        ),
        next.pid == replica.pid,
        next.address == replica.address,
        next.state == replica.state,
        next.wrapper.last == replica.wrapper.last,
        next.wrapper.matrix == replica.wrapper.matrix.updated(pid, vector).updated(
            replica.wrapper.matrix.own_pid,
            reply.version_vector@,
        ),
    ensures
        is_reply::<T>(replica, pid, vector, reply, next),
{
    assert(T::is_delta(replica.state, vector, group, counts));
    assert(next == (ReplicaView {
        wrapper: refreshed(
            (WrapperView {
                matrix: replica.wrapper.matrix.updated(pid, vector),
                last: replica.wrapper.last,
            }),
            group.version_vector@,
        ),
        ..replica
    }));
}

/// A delta group is handed on together with what was judged of it.
pub proof fn law_delta_group_is_handed_on<T: CRDT>(
    replica: ReplicaView<T::State>,
    delta: DeltaGroup<T::Delta>,
    marker: GcMarker,
    action: ReplicaAction<T>,
    next: ReplicaView<T::State>,
)
    requires
        responds::<T>(
            replica,
            ReplicaEvent::Message(ReplicaMessage::DeltaGroup(delta, marker)),
            action,
            next,
        ),
    ensures
        action == ReplicaAction::<T>::Judged(judged::<T>(replica, delta, marker@).0, delta),
        next == judged::<T>(replica, delta, marker@).1,
{
}

/// After a mutation and before a round the own row is brought up to date. A
/// pull asks the given peer with the own vector, and nobody where there is no
/// peer. A round is planned exactly if it is due. The membership is listed and
/// the last descriptor published without any change.
pub proof fn law_remaining_events_are_answered<T: CRDT>(
    replica: ReplicaView<T::State>,
    event: ReplicaEvent<T>,
    action: ReplicaAction<T>,
    next: ReplicaView<T::State>,
)
    requires
        responds::<T>(replica, event, action, next),
    ensures
        event is MutationApplied ==> action is Wait && next == with_fresh_row::<T>(replica),
        event is SyncDue && event->SyncDue_0 is None ==> action is Wait && next == replica,
        event is SyncDue && event->SyncDue_0 is Some ==> {
            &&& next == with_fresh_row::<T>(replica)
            &&& action is Send
            &&& action->Send_0 == event->SyncDue_0->0
            &&& action->Send_1 is VersionVector
            &&& action->Send_1->VersionVector_0 == replica.pid
            &&& action->Send_1->VersionVector_1@ == T::vector(replica.state).insert(
                u128::MAX,
                replica.wrapper.last.marker.counter,
            )
        },
        event is GcDue ==> {
            &&& next == with_fresh_row::<T>(replica)
            &&& next.wrapper.needs_gc() ==> action is Collect && is_plan(
                next,
                action->Collect_0,
            )
            &&& !next.wrapper.needs_gc() ==> action is Wait
        },
        event is MembershipDue ==> action is ListMembers && next == replica,
        event is Shutdown ==> {
            &&& next == replica
            &&& action is Leave
            &&& action->Leave_0 == replica.last_descriptor(T::vector(replica.state))
        },
{
}

/// Only the replica that creates the descriptor of a round goes on with it. It
/// withdraws if the members cannot be listed, withdraws and lists them anew if
/// they have changed, and applies the round otherwise.
pub proof fn law_round_goes_on_step_by_step(
    own_pid: Pid,
    previous: Map<Pid, Counter>,
    created: Result<bool, StoreFault>,
    members: Vec<ReplicaDescriptor>,
    i: int,
)
    ensures
        created is Ok && created->Ok_0 ==> step_after_descriptor(created) == GcStep::ListMembers,
        created is Err || !created->Ok_0 ==> step_after_descriptor(created) == GcStep::Abandon,
        listing_view(None) is None,
        listing_view(Some(members)) is Some,
        listing_view(Some(members))->0 == members@,
        step_after_listing(own_pid, previous, None) == (GcStep::Withdraw { relist: false }),
        0 <= i < members@.len() && members@[i].pid != own_pid && (!previous.contains_key(
            members@[i].pid,
        ) || previous[members@[i].pid] < members@[i].gc_counter) ==> step_after_listing(
            own_pid,
            previous,
            Some(members@),
        ) == (GcStep::Withdraw { relist: true }),
        (forall|j: int|
            0 <= j < members@.len() ==> (#[trigger] members@[j]).pid == own_pid || (
            previous.contains_key(members@[j].pid) && members@[j].gc_counter
                <= previous[members@[j].pid])) ==> step_after_listing(
            own_pid,
            previous,
            Some(members@),
        ) == GcStep::Apply,
{
}

} // verus!
