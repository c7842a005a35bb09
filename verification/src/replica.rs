//! A replica: the replicated data, what is known of the peers, and every
//! decision that the runtime takes about them.

use std::collections::{HashMap, HashSet};
use vstd::prelude::*;
use crate::crdt::{
    CRDTWrapper, DeltaGroup, GcMarker, GcMarkerView, PersistentReplica, ReplicaMessage,
    WrapperView, CRDT, STABLE_REPLICA_PID,
};
use crate::dots::dot_map::lemma_filter_next;
use crate::dots::{ascending, counter_of, Counter, Dot, DotSet, MatrixView, UNSEEN};
use crate::network::{
    active, announcement, announces_candidate, enqueue_members, is_candidate, with_discovered,
    NetworkMember,
};
use crate::prelude::{Pid, SocketAddress};
use crate::replica_helpers::ReplicaDescriptor;

pub mod events;
pub mod laws;
pub mod operations;
pub mod round;

verus! {

/// A replica in memory. `address` is where its peers reach it.
pub struct Replica<T: CRDT> {
    pid: Pid,
    address: SocketAddress,
    kept: PersistentReplica<T>,
}

/// The meaning of a [`Replica`]: its identity, the state of its data and what
/// it knows of its peers.
pub struct ReplicaView<S> {
    pub pid: Pid,
    pub address: SocketAddress,
    pub state: S,
    pub wrapper: WrapperView,
}

/// What a newly created replica does about the state in object storage.
#[derive(Debug, Clone, Copy, PartialEq, Eq, Structural)]
pub enum BootstrapStep {
    /// The journal held a state: that is used as it is.
    KeepRecovered,
    /// Object storage holds a state: it is installed under the own identity.
    /// Whether it is as new as every member is told along.
    Install { up_to_date: bool },
    /// There is no state anywhere: the own one is written.
    WriteInitial,
}

/// What became of a marker that a peer sent.
#[derive(Debug, Clone, Copy, PartialEq, Eq, Structural)]
pub enum GcObservation {
    /// It is none of the stable replica, or not newer than the last round.
    Ignored,
    /// The round was applied.
    Applied,
    /// The round lets the local replica go, which cannot go on after it.
    Excludes,
}

/// A garbage-collection round that is about to begin: its outcome, and the
/// descriptors before and after it.
#[derive(Debug)]
pub struct GcPlan {
    pub marker: GcMarker,
    pub previous: ReplicaDescriptor,
    pub next: ReplicaDescriptor,
}

/// What a wrapper becomes when it is bound to a replica with the given data.
pub open spec fn rebound(
    wrapper: WrapperView,
    pid: Pid,
    vector: Map<Pid, Counter>,
) -> WrapperView {
    WrapperView {
        matrix: MatrixView {
            own_pid: pid,
            rows: wrapper.matrix.rows.insert(pid, wrapper.stamped(vector)),
            final_dots: wrapper.matrix.final_dots,
        },
        last: wrapper.last,
    }
}

/// The wrapper of a replica that has observed nothing.
pub open spec fn blank_wrapper(pid: Pid) -> WrapperView {
    WrapperView {
        matrix: MatrixView {
            own_pid: pid,
            rows: Map::<Pid, Map<Pid, Counter>>::empty().insert(
                pid,
                MatrixView::unseen_row(pid, UNSEEN),
            ),
            final_dots: Map::empty(),
        },
        last: GcMarkerView {
            marker: Dot { pid: STABLE_REPLICA_PID, counter: UNSEEN },
            stable: Map::empty(),
            departed: None,
        },
    }
}

/// The wrapper once the local data is at `vector`.
pub open spec fn refreshed(wrapper: WrapperView, vector: Map<Pid, Counter>) -> WrapperView {
    WrapperView {
        matrix: wrapper.matrix.updated(wrapper.matrix.own_pid, wrapper.stamped(vector)),
        last: wrapper.last,
    }
}

/// Whether a marker is that of a round after the last one.
pub open spec fn is_newer(marker: GcMarkerView, wrapper: WrapperView) -> bool {
    marker.marker.pid == STABLE_REPLICA_PID && wrapper.epoch() < marker.marker.counter
}

/// Whether no member is in a later epoch.
pub open spec fn is_as_new_as_all(epoch: Counter, members: Seq<ReplicaDescriptor>) -> bool {
    forall|i: int| 0 <= i < members.len() ==> (#[trigger] members[i]).gc_counter <= epoch
}

/// Whether no member is in a later epoch.
fn as_new_as_all(epoch: Counter, members: &Vec<ReplicaDescriptor>) -> (new: bool)
    ensures
        new == is_as_new_as_all(epoch, members@),
{
    for i in 0..members.len()
        invariant
            forall|j: int| 0 <= j < i ==> (#[trigger] members@[j]).gc_counter <= epoch,
    {
        if members[i].gc_counter > epoch {
            assert(members@[i as int].gc_counter > epoch);
            return false;
        }
    }
    true
}

/// Whether every listed replica but the own one was known before, in the same
/// epoch or a later one.
pub open spec fn is_unchanged(
    own_pid: Pid,
    previous: Map<Pid, Counter>,
    current: Seq<ReplicaDescriptor>,
) -> bool {
    forall|i: int|
        0 <= i < current.len() ==> (#[trigger] current[i]).pid == own_pid || (
        previous.contains_key(current[i].pid) && current[i].gc_counter
            <= previous[current[i].pid])
}

/// Whether a round may go on: nobody has joined and nobody has entered a later
/// epoch since the members were last listed.
pub fn membership_is_unchanged(
    own_pid: Pid,
    previous: &HashMap<Pid, Counter>,
    current: &Vec<ReplicaDescriptor>,
) -> (unchanged: bool)
    ensures
        unchanged == is_unchanged(own_pid, previous@, current@),
{
    broadcast use vstd::std_specs::hash::group_hash_axioms;

    for i in 0..current.len()
        invariant
            forall|j: int|
                0 <= j < i ==> (#[trigger] current@[j]).pid == own_pid || (
                previous@.contains_key(current@[j].pid) && current@[j].gc_counter
                    <= previous@[current@[j].pid]),
    {
        let descriptor = current[i];
        assert(descriptor == current@[i as int]);
        if descriptor.pid != own_pid {
            let known = match previous.get(&descriptor.pid) {
                Some(epoch) => descriptor.gc_counter <= *epoch,
                None => false,
            };
            if !known {
                return false;
            }
        }
    }
    true
}

/// The descriptors that retire their replicas.
pub open spec fn shutdowns(members: Seq<ReplicaDescriptor>) -> Seq<ReplicaDescriptor> {
    members.filter(|descriptor: ReplicaDescriptor| descriptor.final_counter is Some)
}

/// The descriptors that retire their replicas, in the order of the directory.
pub fn shutdown_descriptors(members: &Vec<ReplicaDescriptor>) -> (found: Vec<ReplicaDescriptor>)
    ensures
        found@ == shutdowns(members@),
{
    let ghost keep = |descriptor: ReplicaDescriptor| descriptor.final_counter is Some;
    let mut found: Vec<ReplicaDescriptor> = Vec::new();
    assert(members@.take(0).filter(keep) =~= Seq::empty()) by {
        reveal(Seq::filter);
    }
    for i in 0..members.len()
        invariant
            keep == (|descriptor: ReplicaDescriptor| descriptor.final_counter is Some),
            found@ == members@.take(i as int).filter(keep),
    {
        proof {
            lemma_filter_next(members@, keep, i as int);
        }
        if members[i].is_shutdown() {
            found.push(members[i]);
        }
    }
    assert(members@.take(members@.len() as int) =~= members@);
    found
}

impl<S> ReplicaView<S> {
    /// What the replica publishes of itself in an epoch.
    pub open spec fn descriptor(self, epoch: Counter) -> ReplicaDescriptor {
        ReplicaDescriptor {
            pid: self.pid,
            address: self.address,
            gc_counter: epoch,
            final_counter: None,
        }
    }

    /// What the replica publishes of itself when it leaves with its data at
    /// `vector`.
    pub open spec fn last_descriptor(self, vector: Map<Pid, Counter>) -> ReplicaDescriptor {
        ReplicaDescriptor {
            final_counter: Some(counter_of(vector, self.pid)),
            ..self.descriptor(self.wrapper.epoch())
        }
    }

    /// The last dot that a descriptor names, unless it is noted already.
    pub open spec fn pending(self, descriptor: ReplicaDescriptor) -> Option<Dot> {
        match descriptor.final_counter {
            Some(counter) => if self.wrapper.matrix.final_dots.get(descriptor.pid) == Some(counter) {
                None
            } else {
                Some(Dot { pid: descriptor.pid, counter })
            },
            None => None,
        }
    }

    /// The replica once it has noted the last dot of another.
    pub open spec fn noted(self, final_dot: Dot) -> ReplicaView<S> {
        ReplicaView {
            wrapper: WrapperView {
                matrix: MatrixView {
                    final_dots: self.wrapper.matrix.final_dots.insert(
                        final_dot.pid,
                        final_dot.counter,
                    ),
                    ..self.wrapper.matrix
                },
                last: self.wrapper.last,
            },
            ..self
        }
    }
}

impl<T: CRDT> View for Replica<T> {
    type V = ReplicaView<T::State>;

    closed spec fn view(&self) -> ReplicaView<T::State> {
        ReplicaView {
            pid: self.pid,
            address: self.address,
            state: self.kept.local_state.state(),
            wrapper: self.kept.crdt_wrapper@,
        }
    }
}

impl<T: CRDT> Replica<T> {
    /// The data is valid, and the wrapper is that of this replica.
    pub closed spec fn wf(&self) -> bool {
        &&& self.kept.wf()
        &&& self.kept.crdt_wrapper@.matrix.own_pid == self.pid
    }

    /// A replica is the one that its matrix belongs to, and has a row there.
    pub proof fn law_matrix_is_the_own_one(&self)
        requires
            self.wf(),
        ensures
            self@.wrapper.matrix.own_pid == self@.pid,
            self@.wrapper.matrix.has_own_row(),
    {
    }

    /// The identity of a replica: a journal belongs to one logical replica,
    /// whose identity is used again after a restart.
    pub fn effective_pid(
        requested_pid: Pid,
        recovered_replica: Option<&PersistentReplica<T>>,
    ) -> (pid: Pid)
        ensures
            pid == match recovered_replica {
                Some(recovered) => recovered.crdt_wrapper@.matrix.own_pid,
                None => requested_pid,
            },
    {
        match recovered_replica {
            Some(recovered) => recovered.crdt_wrapper.own_pid(),
            None => requested_pid,
        }
    }

    /// A replica at startup: with the state that the journal held, or else with
    /// the given one.
    pub fn start(
        requested_pid: Pid,
        address: SocketAddress,
        crdt: T,
        recovered_replica: Option<PersistentReplica<T>>,
    ) -> (replica: Self)
        requires
            match recovered_replica {
                Some(recovered) => recovered.local_state.valid(),
                None => crdt.valid(),
            },
        ensures
            replica.wf(),
            ({
                let (pid, state, wrapper) = match recovered_replica {
                    Some(recovered) => (
                        recovered.crdt_wrapper@.matrix.own_pid,
                        recovered.local_state.state(),
                        recovered.crdt_wrapper@,
                    ),
                    None => (requested_pid, crdt.state(), blank_wrapper(requested_pid)),
                };
                let bound = T::identified(state, pid);
                replica@ == ReplicaView {
                    pid,
                    address,
                    state: bound,
                    wrapper: rebound(wrapper, pid, T::vector(bound)),
                }
            }),
    {
        let mut kept = match recovered_replica {
            Some(recovered) => recovered,
            None => PersistentReplica {
                local_state: crdt,
                crdt_wrapper: CRDTWrapper::new(requested_pid),
            },
        };
        let pid: Pid = kept.crdt_wrapper.own_pid();
        kept.rebind_own_pid(pid);
        Replica { pid, address, kept }
    }

    /// What a replica does about the state in object storage once it has
    /// started, given the epoch of that state if there is one.
    pub fn bootstrap_step(
        recovered: bool,
        stored_epoch: Option<Counter>,
        members: &Vec<ReplicaDescriptor>,
    ) -> (step: BootstrapStep)
        ensures
            step == if recovered {
                BootstrapStep::KeepRecovered
            } else {
                match stored_epoch {
                    Some(epoch) => BootstrapStep::Install {
                        up_to_date: is_as_new_as_all(epoch, members@),
                    },
                    None => BootstrapStep::WriteInitial,
                }
            },
    {
        if recovered {
            return BootstrapStep::KeepRecovered;
        }
        match stored_epoch {
            Some(epoch) => BootstrapStep::Install { up_to_date: as_new_as_all(epoch, members) },
            None => BootstrapStep::WriteInitial,
        }
    }

    /// Goes over to a state out of object storage, under the own identity.
    pub fn install(&mut self, stored: PersistentReplica<T>)
        requires
            old(self).wf(),
            stored.local_state.valid(),
        ensures
            final(self).wf(),
            ({
                let pid = old(self)@.pid;
                let bound = T::identified(stored.local_state.state(), pid);
                final(self)@ == ReplicaView {
                    pid,
                    address: old(self)@.address,
                    state: bound,
                    wrapper: rebound(stored.crdt_wrapper@, pid, T::vector(bound)),
                }
            }),
    {
        let mut stored = stored;
        stored.rebind_own_pid(self.pid);
        self.kept = stored;
    }

    /// The identity of the replica.
    pub fn pid(&self) -> (pid: Pid)
        ensures
            pid == self@.pid,
    {
        self.pid
    }

    /// The replica as it is kept on disk and in object storage.
    pub fn persistent(&self) -> (kept: &PersistentReplica<T>)
        requires
            self.wf(),
        ensures
            kept.wf(),
            kept.local_state.state() == self@.state,
            kept.crdt_wrapper@ == self@.wrapper,
    {
        &self.kept
    }

    /// Answers a query out of the local data.
    pub fn query(&self, query: T::Query) -> (response: T::ClientResponse)
        requires
            self.wf(),
        ensures
            T::answers(self@.state, query, response),
    {
        self.kept.local_state.query(query)
    }

    /// Whether a mutation can be applied.
    pub fn accepts_mutation(&self, mutation: &T::Mutation) -> (accepted: bool)
        requires
            self.wf(),
        ensures
            accepted == T::can_mutate(self@.state, *mutation),
    {
        self.kept.local_state.accepts_mutation(mutation)
    }

    /// Applies a mutation of a client, which the journal holds by now.
    pub fn mutate(&mut self, mutation: T::Mutation) -> (response: T::ClientResponse)
        requires
            old(self).wf(),
            T::can_mutate(old(self)@.state, mutation),
        ensures
            final(self).wf(),
            final(self)@ == (ReplicaView {
                state: T::mutated(old(self)@.state, mutation),
                ..old(self)@
            }),
            T::acknowledges(old(self)@.state, mutation, response),
    {
        self.kept.local_state.mutate(mutation)
    }

    /// Takes the version vector of the data into the matrix, and returns it
    /// with the current epoch.
    pub fn refresh_own_version_vector(&mut self) -> (stamped: DotSet)
        requires
            old(self).wf(),
        ensures
            final(self).wf(),
            final(self)@ == (ReplicaView {
                wrapper: refreshed(old(self)@.wrapper, T::vector(old(self)@.state)),
                ..old(self)@
            }),
            stamped@ == old(self)@.wrapper.stamped(T::vector(old(self)@.state)),
    {
        let version_vector = self.kept.local_state.get_version_vector().clone();
        self.kept.crdt_wrapper.update_own_version_vector(version_vector)
    }

    /// Whether a delta group is refused: it was taken in an epoch before the
    /// current one, so that what it lacks may have been collected.
    pub fn refuses_delta(&self, delta: &DeltaGroup<T::Delta>) -> (refused: bool)
        requires
            self.wf(),
        ensures
            refused == (counter_of(delta.version_vector@, STABLE_REPLICA_PID)
                < self@.wrapper.epoch()),
    {
        *delta.version_vector.gc_counter() < self.kept.crdt_wrapper.current_gc_marker().counter
    }

    /// Takes in the marker that came with a delta group: a round that is newer
    /// than the last one is applied here too.
    pub fn observe_gc(&mut self, metadata: GcMarker) -> (observation: GcObservation)
        requires
            old(self).wf(),
        ensures
            final(self).wf(),
            observation == if !is_newer(metadata@, old(self)@.wrapper) {
                GcObservation::Ignored
            } else if old(self)@.wrapper.matrix.keeps_own_row(metadata@.departed) {
                GcObservation::Applied
            } else {
                GcObservation::Excludes
            },
            final(self)@ == if observation is Applied {
                ReplicaView {
                    state: T::collected(
                        old(self)@.state,
                        metadata@.stable,
                        metadata@.departed,
                    ),
                    wrapper: old(self)@.wrapper.collected(metadata@),
                    ..old(self)@
                }
            } else {
                old(self)@
            },
    {
        if metadata.marker.pid != STABLE_REPLICA_PID || metadata.marker.counter
            <= self.kept.crdt_wrapper.current_gc_marker().counter {
            return GcObservation::Ignored;
        }
        if !self.kept.crdt_wrapper.survives(&metadata) {
            return GcObservation::Excludes;
        }
        self.apply_gc_marker(metadata);
        GcObservation::Applied
    }

    /// Whether the local replica is still there after the round of `marker`.
    pub fn survives(&self, marker: &GcMarker) -> (survives: bool)
        requires
            self.wf(),
        ensures
            survives == self@.wrapper.matrix.keeps_own_row(marker@.departed),
    {
        self.kept.crdt_wrapper.survives(marker)
    }

    /// Applies the outcome of a round to the data and to the matrix.
    pub fn apply_gc_marker(&mut self, marker: GcMarker)
        requires
            old(self).wf(),
            old(self)@.wrapper.matrix.keeps_own_row(marker@.departed),
        ensures
            final(self).wf(),
            final(self)@ == (ReplicaView {
                state: T::collected(old(self)@.state, marker@.stable, marker@.departed),
                wrapper: old(self)@.wrapper.collected(marker@),
                ..old(self)@
            }),
    {
        self.kept.local_state.gc(&marker.stable, &marker.departed_pids);
        self.kept.crdt_wrapper.push_gc_marker(marker);
    }

    /// Whether a delta group can be merged.
    pub fn accepts_delta(&self, delta: &DeltaGroup<T::Delta>) -> (accepted: bool)
        requires
            self.wf(),
        ensures
            accepted == T::can_merge(self@.state, *delta),
    {
        self.kept.local_state.accepts_delta_group(delta)
    }

    /// Merges a delta group, which the journal holds by now. Returns the number
    /// of insertions and of removals in it.
    pub fn merge_delta(&mut self, delta: DeltaGroup<T::Delta>) -> (counts: (u16, u16))
        requires
            old(self).wf(),
            T::can_merge(old(self)@.state, delta),
        ensures
            final(self).wf(),
            ({
                let state = T::merged(old(self)@.state, delta);
                final(self)@ == ReplicaView {
                    state,
                    wrapper: refreshed(old(self)@.wrapper, T::vector(state)),
                    ..old(self)@
                }
            }),
            counts == T::merge_counts(old(self)@.state, delta),
    {
        let counts = self.kept.local_state.merge_delta_group(delta);
        self.refresh_own_version_vector();
        counts
    }

    /// Answers the version vector of a peer with what it lacks, and with the
    /// outcome of the last round.
    pub fn answer_version_vector(&mut self, pid: Pid, version_vector: DotSet) -> (answer: (
        DeltaGroup<T::Delta>,
        GcMarker,
    ))
        requires
            old(self).wf(),
        ensures
            final(self).wf(),
            final(self)@.pid == old(self)@.pid,
            final(self)@.address == old(self)@.address,
            final(self)@.state == old(self)@.state,
            answer.1@ == old(self)@.wrapper.last,
            exists|group: DeltaGroup<T::Delta>, counts: (u16, u16)| #[trigger]
                T::is_delta(old(self)@.state, version_vector@, group, counts) && answer.0.list
                    == group.list && answer.0.version_vector@ == old(self)@.wrapper.stamped(
                    group.version_vector@,
                ) && final(self)@.wrapper == refreshed(
                    (WrapperView {
                        matrix: old(self)@.wrapper.matrix.updated(pid, version_vector@),
                        last: old(self)@.wrapper.last,
                    }),
                    group.version_vector@,
                ),
    {
        let (group, insertions, removals) = self.kept.local_state.get_delta(&version_vector);
        let ghost found = group;
        let ghost before = self.kept.crdt_wrapper@;
        self.kept.crdt_wrapper.observe_version_vector(pid, version_vector);
        let stamped = self.kept.crdt_wrapper.update_own_version_vector(group.version_vector);
        let delta = DeltaGroup { list: group.list, version_vector: stamped };
        let marker = self.kept.crdt_wrapper.gc_metadata();
        assert(T::is_delta(old(self)@.state, version_vector@, found, (insertions, removals)));
        (delta, marker)
    }

    /// The message that asks a peer for what the replica lacks.
    pub fn pull_request(&mut self) -> (message: ReplicaMessage<T>)
        requires
            old(self).wf(),
        ensures
            final(self).wf(),
            final(self)@ == (ReplicaView {
                wrapper: refreshed(old(self)@.wrapper, T::vector(old(self)@.state)),
                ..old(self)@
            }),
            message matches ReplicaMessage::VersionVector(pid, vector) && pid == old(self)@.pid
                && vector@ == old(self)@.wrapper.stamped(T::vector(old(self)@.state)),
    {
        let version_vector = self.refresh_own_version_vector();
        ReplicaMessage::VersionVector(self.pid, version_vector)
    }

    /// What the replica publishes of itself.
    pub fn replica_descriptor(&self) -> (descriptor: ReplicaDescriptor)
        requires
            self.wf(),
        ensures
            descriptor == self@.descriptor(self@.wrapper.epoch()),
    {
        ReplicaDescriptor {
            pid: self.pid,
            address: self.address,
            gc_counter: self.kept.crdt_wrapper.current_gc_marker().counter,
            final_counter: None,
        }
    }

    /// The next garbage-collection round, if there is anything to do. Its
    /// descriptor is to be published before the round is applied.
    pub fn plan_gc(&mut self) -> (plan: Option<GcPlan>)
        requires
            old(self).wf(),
            old(self)@.wrapper.epoch() < Counter::MAX,
        ensures
            final(self).wf(),
            final(self)@ == (ReplicaView {
                wrapper: refreshed(old(self)@.wrapper, T::vector(old(self)@.state)),
                ..old(self)@
            }),
            plan is Some <==> final(self)@.wrapper.needs_gc(),
            plan is Some ==> is_plan(final(self)@, plan->0),
    {
        self.refresh_own_version_vector();
        if !self.kept.crdt_wrapper.needs_gc() {
            return None;
        }
        let (stable, departed_pids) = self.kept.crdt_wrapper.stable();
        match stable {
            None => None,
            Some(stable) => {
                let previous = self.replica_descriptor();
                let marker = self.kept.crdt_wrapper.next_gc_marker();
                let next = ReplicaDescriptor {
                    pid: self.pid,
                    address: self.address,
                    gc_counter: marker.counter,
                    final_counter: None,
                };
                Some(GcPlan { marker: GcMarker { marker, stable, departed_pids }, previous, next })
            },
        }
    }

    /// The descriptor that retires the replica: it names the last counter that
    /// the replica has issued.
    pub fn shutdown_descriptor(&self) -> (descriptor: ReplicaDescriptor)
        requires
            self.wf(),
        ensures
            descriptor == self@.last_descriptor(T::vector(self@.state)),
    {
        let final_counter: Counter = *self.kept.local_state.get_version_vector().get(&self.pid);
        ReplicaDescriptor {
            pid: self.pid,
            address: self.address,
            gc_counter: self.kept.crdt_wrapper.current_gc_marker().counter,
            final_counter: Some(final_counter),
        }
    }

    /// Takes in a listing of the membership directory. Returns the members to
    /// connect to.
    pub fn take_in_members(
        &mut self,
        members: &Vec<ReplicaDescriptor>,
        connected_pids: &HashSet<Pid>,
    ) -> (announced: Vec<NetworkMember>)
        requires
            old(self).wf(),
        ensures
            final(self).wf(),
            final(self)@ == (ReplicaView {
                wrapper: WrapperView {
                    matrix: with_discovered(
                        old(self)@.wrapper.matrix,
                        active(members@, old(self)@.pid),
                    ),
                    last: old(self)@.wrapper.last,
                },
                ..old(self)@
            }),
            forall|k: int|
                0 <= k < announced@.len() ==> announces_candidate(
                    members@,
                    old(self)@.pid,
                    connected_pids@,
                    #[trigger] announced@[k],
                ),
            forall|i: int| #[trigger]
                is_candidate(members@, old(self)@.pid, connected_pids@, i) ==> exists|k: int|
                    0 <= k < announced@.len() && #[trigger] announced@[k] == announcement(
                        members@[i],
                    ),
            forall|k: int, l: int|
                0 <= k < l < announced@.len() ==> (#[trigger] announced@[k]).pid < (
                #[trigger] announced@[l]).pid,
    {
        enqueue_members(self.pid, members, connected_pids, &mut self.kept.crdt_wrapper)
    }

    /// The last dot of a replica that has shut down, where what it left behind
    /// is still to be fetched.
    pub fn pending_departure(&self, descriptor: &ReplicaDescriptor) -> (final_dot: Option<Dot>)
        requires
            self.wf(),
        ensures
            final_dot == self@.pending(*descriptor),
    {
        match descriptor.final_counter {
            Some(counter) => {
                let final_dot = Dot { pid: descriptor.pid, counter };
                if self.kept.crdt_wrapper.should_fetch_departed_replica(final_dot) {
                    Some(final_dot)
                } else {
                    None
                }
            },
            None => None,
        }
    }

    /// What the state that a departed replica left behind has and the local
    /// data lacks.
    pub fn missing_from(&self, left_behind: &T) -> (delta: DeltaGroup<T::Delta>)
        requires
            self.wf(),
            left_behind.valid(),
        ensures
            exists|counts: (u16, u16)| #[trigger]
                T::is_delta(left_behind.state(), T::vector(self@.state), delta, counts),
    {
        let (delta, insertions, removals) = left_behind.get_delta(
            self.kept.local_state.get_version_vector(),
        );
        assert(T::is_delta(
            left_behind.state(),
            T::vector(self@.state),
            delta,
            (insertions, removals),
        ));
        delta
    }

    /// Notes that a replica has departed; its row stays until its last dot is
    /// stable everywhere.
    pub fn note_departure(&mut self, final_dot: Dot)
        requires
            old(self).wf(),
        ensures
            final(self).wf(),
            final(self)@ == old(self)@.noted(final_dot),
    {
        self.kept.crdt_wrapper.observe_departed_replica(final_dot);
    }
}

/// Whether `plan` is the next round of a replica: its frontier is what every
/// observer has observed, it lets go exactly the departed replicas that can go,
/// and it has the next epoch.
pub open spec fn is_plan<S>(replica: ReplicaView<S>, plan: GcPlan) -> bool {
    let matrix = replica.wrapper.matrix;
    let epoch = replica.wrapper.epoch();
    &&& plan.marker@.marker.pid == STABLE_REPLICA_PID
    &&& plan.marker@.marker.counter == epoch + 1
    &&& matrix.is_frontier(plan.marker@.stable)
    &&& match plan.marker@.departed {
        Some(pids) => {
            &&& ascending(pids)
            &&& exists|p: Pid| #[trigger] matrix.departs(p)
            &&& forall|p: Pid| #[trigger] pids.contains(p) <==> matrix.departs(p)
        },
        None => forall|p: Pid| !#[trigger] matrix.departs(p),
    }
    &&& plan.previous == replica.descriptor(epoch)
    &&& plan.next == replica.descriptor((epoch + 1) as Counter)
}

} // verus!
