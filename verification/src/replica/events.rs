//! What a running replica does about each event, one at a time.

use vstd::prelude::*;
use super::{is_newer, is_plan, refreshed, GcObservation, GcPlan, Replica, ReplicaView};
use crate::crdt::{
    DeltaGroup, GcMarker, GcMarkerView, ReplicaMessage, WrapperView, CRDT, STABLE_REPLICA_PID,
};
use crate::dots::{counter_of, Counter};
use crate::prelude::Pid;
use crate::replica_helpers::ReplicaDescriptor;

verus! {

/// What becomes of a delta group that a peer sent.
#[derive(Debug, Clone, Copy, PartialEq, Eq, Structural)]
pub enum DeltaVerdict {
    /// It was taken in an epoch before the current one.
    Refused,
    /// Its marker lets the local replica go.
    Excludes,
    /// It does not fit the data.
    Inapplicable { collected: bool },
    /// It is to be journaled and merged; before that, where the round of its
    /// marker was applied, the replica is to be journaled as a whole.
    Merge { collected: bool },
}

/// What a running replica hears of.
pub enum ReplicaEvent<T: CRDT> {
    /// A mutation of a client was applied.
    MutationApplied,
    /// A peer sent a message.
    Message(ReplicaMessage<T>),
    /// It is time to ask a peer, drawn from those connected, for what is
    /// missing.
    SyncDue(Option<Pid>),
    /// It is time for a garbage-collection round.
    GcDue,
    /// It is time to list the membership directory.
    MembershipDue,
    /// The replica is to shut down.
    Shutdown,
}

/// What a running replica wants done.
pub enum ReplicaAction<T: CRDT> {
    /// Wait for the next event.
    Wait,
    /// Treat a delta group as the verdict says.
    Judged(DeltaVerdict, DeltaGroup<T::Delta>),
    /// Send a message to a peer.
    Send(Pid, ReplicaMessage<T>),
    /// Begin a round.
    Collect(GcPlan),
    /// List the membership directory.
    ListMembers,
    /// Publish the last descriptor and stop.
    Leave(ReplicaDescriptor),
}

/// The replica after the round of a newer marker was applied.
pub open spec fn after_round<T: CRDT>(
    replica: ReplicaView<T::State>,
    marker: GcMarkerView,
) -> ReplicaView<T::State> {
    ReplicaView {
        state: T::collected(replica.state, marker.stable, marker.departed),
        wrapper: replica.wrapper.collected(marker),
        ..replica
    }
}

/// What becomes of a delta group, and what the replica is then.
pub open spec fn judged<T: CRDT>(
    replica: ReplicaView<T::State>,
    delta: DeltaGroup<T::Delta>,
    marker: GcMarkerView,
) -> (DeltaVerdict, ReplicaView<T::State>) {
    let newer = is_newer(marker, replica.wrapper);
    let next = if newer {
        after_round::<T>(replica, marker)
    } else {
        replica
    };
    if counter_of(delta.version_vector@, STABLE_REPLICA_PID) < replica.wrapper.epoch() {
        (DeltaVerdict::Refused, replica)
    } else if newer && !replica.wrapper.matrix.keeps_own_row(marker.departed) {
        (DeltaVerdict::Excludes, replica)
    } else if T::can_merge(next.state, delta) {
        (DeltaVerdict::Merge { collected: newer }, next)
    } else {
        (DeltaVerdict::Inapplicable { collected: newer }, next)
    }
}

/// The replica once its own row is that of its data.
pub open spec fn with_fresh_row<T: CRDT>(replica: ReplicaView<T::State>) -> ReplicaView<T::State> {
    ReplicaView { wrapper: refreshed(replica.wrapper, T::vector(replica.state)), ..replica }
}

/// Whether `reply` is what a peer at `vector` lacks, and `next` is the replica
/// that has taken note of that vector.
pub open spec fn is_reply<T: CRDT>(
    replica: ReplicaView<T::State>,
    pid: Pid,
    vector: Map<Pid, Counter>,
    reply: DeltaGroup<T::Delta>,
    next: ReplicaView<T::State>,
) -> bool {
    exists|group: DeltaGroup<T::Delta>, counts: (u16, u16)| #[trigger]
        T::is_delta(replica.state, vector, group, counts) && reply.list == group.list
            && reply.version_vector@ == replica.wrapper.stamped(group.version_vector@) && next
            == (ReplicaView {
            wrapper: refreshed(
                (WrapperView {
                    matrix: replica.wrapper.matrix.updated(pid, vector),
                    last: replica.wrapper.last,
                }),
                group.version_vector@,
            ),
            ..replica
        })
}

/// Whether `action` and `next` are what an event leads to.
pub open spec fn responds<T: CRDT>(
    replica: ReplicaView<T::State>,
    event: ReplicaEvent<T>,
    action: ReplicaAction<T>,
    next: ReplicaView<T::State>,
) -> bool {
    match event {
        ReplicaEvent::MutationApplied => action is Wait && next == with_fresh_row::<T>(replica),
        ReplicaEvent::Message(ReplicaMessage::DeltaGroup(delta, marker)) => {
            &&& action matches ReplicaAction::Judged(verdict, group)
            &&& group == delta
            &&& (verdict, next) == judged::<T>(replica, delta, marker@)
        },
        ReplicaEvent::Message(ReplicaMessage::VersionVector(pid, vector)) => {
            &&& action matches ReplicaAction::Send(to, ReplicaMessage::DeltaGroup(reply, marker))
            &&& to == pid
            &&& marker@ == replica.wrapper.last
            &&& is_reply::<T>(replica, pid, vector@, reply, next)
        },
        ReplicaEvent::SyncDue(None) => action is Wait && next == replica,
        ReplicaEvent::SyncDue(Some(peer)) => {
            &&& action matches ReplicaAction::Send(to, ReplicaMessage::VersionVector(pid, vector))
            &&& to == peer
            &&& pid == replica.pid
            &&& vector@ == replica.wrapper.stamped(T::vector(replica.state))
            &&& next == with_fresh_row::<T>(replica)
        },
        ReplicaEvent::GcDue => {
            &&& next == with_fresh_row::<T>(replica)
            &&& if next.wrapper.needs_gc() {
                action matches ReplicaAction::Collect(plan) && is_plan(next, plan)
            } else {
                action is Wait
            }
        },
        ReplicaEvent::MembershipDue => action is ListMembers && next == replica,
        ReplicaEvent::Shutdown => {
            &&& next == replica
            &&& action matches ReplicaAction::Leave(descriptor)
            &&& descriptor == replica.last_descriptor(T::vector(replica.state))
        },
    }
}

impl<T: CRDT> Replica<T> {
    /// Decides about a delta group and the marker that came with it; a round
    /// that is newer than the last one is applied first.
    pub fn handle_delta(&mut self, delta: &DeltaGroup<T::Delta>, marker: GcMarker) -> (verdict:
        DeltaVerdict)
        requires
            old(self).wf(),
        ensures
            final(self).wf(),
            (verdict, final(self)@) == judged::<T>(old(self)@, *delta, marker@),
    {
        if self.refuses_delta(delta) {
            return DeltaVerdict::Refused;
        }
        let collected = match self.observe_gc(marker) {
            GcObservation::Excludes => return DeltaVerdict::Excludes,
            GcObservation::Applied => true,
            GcObservation::Ignored => false,
        };
        if self.accepts_delta(delta) {
            DeltaVerdict::Merge { collected }
        } else {
            DeltaVerdict::Inapplicable { collected }
        }
    }

    /// Takes in one event, and says what is to be done.
    pub fn step(&mut self, event: ReplicaEvent<T>) -> (action: ReplicaAction<T>)
        requires
            old(self).wf(),
            event is GcDue ==> old(self)@.wrapper.epoch() < Counter::MAX,
        ensures
            final(self).wf(),
            responds::<T>(old(self)@, event, action, final(self)@),
    {
        match event {
            ReplicaEvent::MutationApplied => {
                self.refresh_own_version_vector();
                ReplicaAction::Wait
            },
            ReplicaEvent::Message(ReplicaMessage::DeltaGroup(delta, marker)) => {
                let verdict = self.handle_delta(&delta, marker);
                ReplicaAction::Judged(verdict, delta)
            },
            ReplicaEvent::Message(ReplicaMessage::VersionVector(pid, version_vector)) => {
                let (delta, marker) = self.answer_version_vector(pid, version_vector);
                ReplicaAction::Send(pid, ReplicaMessage::DeltaGroup(delta, marker))
            },
            ReplicaEvent::SyncDue(None) => ReplicaAction::Wait,
            ReplicaEvent::SyncDue(Some(peer)) => {
                let message = self.pull_request();
                ReplicaAction::Send(peer, message)
            },
            ReplicaEvent::GcDue => match self.plan_gc() {
                Some(plan) => ReplicaAction::Collect(plan),
                None => ReplicaAction::Wait,
            },
            ReplicaEvent::MembershipDue => ReplicaAction::ListMembers,
            ReplicaEvent::Shutdown => ReplicaAction::Leave(self.shutdown_descriptor()),
        }
    }
}

/// A delta group that is refused leaves the replica as it is, and so does its
/// marker.
pub proof fn law_refused_delta_changes_nothing<T: CRDT>(
    replica: ReplicaView<T::State>,
    delta: DeltaGroup<T::Delta>,
    marker: GcMarkerView,
)
    requires
        counter_of(delta.version_vector@, STABLE_REPLICA_PID) < replica.wrapper.epoch(),
    ensures
        judged::<T>(replica, delta, marker) == (DeltaVerdict::Refused, replica),
{
}

/// The epoch of a replica never goes back, whatever a peer sends.
pub proof fn law_epoch_never_goes_back<T: CRDT>(
    replica: ReplicaView<T::State>,
    delta: DeltaGroup<T::Delta>,
    marker: GcMarkerView,
)
    ensures
        replica.wrapper.epoch() <= judged::<T>(replica, delta, marker).1.wrapper.epoch(),
{
}

/// Whatever a peer sends, the identity and the address of a replica stay.
pub proof fn law_events_keep_the_identity<T: CRDT>(
    replica: ReplicaView<T::State>,
    event: ReplicaEvent<T>,
    action: ReplicaAction<T>,
    next: ReplicaView<T::State>,
)
    requires
        responds::<T>(replica, event, action, next),
    ensures
        next.pid == replica.pid,
        next.address == replica.address,
{
}

} // verus!
