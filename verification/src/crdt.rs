//! The contract between the replica runtime and the data types it replicates.

use vstd::prelude::*;
use crate::dots::matrix::listed;
use crate::dots::{ascending, covers, Counter, Dot, DotSet, MatrixView, VersionMatrix, UNSEEN};
use crate::prelude::Pid;

verus! {

/// The reserved identity under which the garbage-collection epoch is counted.
pub const STABLE_REPLICA_PID: Pid = 0xffff_ffff_ffff_ffff_ffff_ffff_ffff_ffffu128;

/// Data that crosses the boundary of a replicated data type.
pub trait CRDTData: Clone + Send + Sync {

}

impl<T: Clone + Send + Sync> CRDTData for T {

}

/// A set of deltas that are causally ordered, with the version vector of the
/// state that they lead to.
#[derive(Debug, Clone)]
pub struct DeltaGroup<D> {
    pub list: Vec<D>,
    pub version_vector: DotSet,
}

/// A replicated data type.
///
/// `State` is what a value means; each operation says over it what it answers
/// and what it leaves behind.
pub trait CRDT: Sized {
    type Delta: CRDTData;

    type Query: CRDTData;

    type Mutation: CRDTData;

    type ClientResponse: CRDTData;

    type Error: CRDTData;

    type State;

    /// What the value means.
    spec fn state(&self) -> Self::State;

    /// The invariant that every operation keeps.
    spec fn valid(&self) -> bool;

    /// Whether `response` answers `query`.
    spec fn answers(
        state: Self::State,
        query: Self::Query,
        response: Self::ClientResponse,
    ) -> bool;

    /// Whether a mutation can be applied.
    spec fn can_mutate(state: Self::State, mutation: Self::Mutation) -> bool;

    /// The state after a mutation.
    spec fn mutated(state: Self::State, mutation: Self::Mutation) -> Self::State;

    /// Whether `response` is what the client of a mutation is told.
    spec fn acknowledges(
        state: Self::State,
        mutation: Self::Mutation,
        response: Self::ClientResponse,
    ) -> bool;

    /// The greatest observed counter of each replica.
    spec fn vector(state: Self::State) -> Map<Pid, Counter>;

    /// Whether `group` holds what a replica at `vector` lacks of `state`, and
    /// `counts` are the insertions and the removals in it.
    spec fn is_delta(
        state: Self::State,
        vector: Map<Pid, Counter>,
        group: DeltaGroup<Self::Delta>,
        counts: (u16, u16),
    ) -> bool;

    /// Whether a group of deltas can be applied.
    spec fn can_merge(state: Self::State, group: DeltaGroup<Self::Delta>) -> bool;

    /// The state after a group of deltas.
    spec fn merged(state: Self::State, group: DeltaGroup<Self::Delta>) -> Self::State;

    /// The insertions and the removals that a group of deltas brings.
    spec fn merge_counts(state: Self::State, group: DeltaGroup<Self::Delta>) -> (u16, u16);

    /// The state of a replica that takes an identity.
    spec fn identified(state: Self::State, pid: Pid) -> Self::State;

    /// The state after a garbage-collection round.
    spec fn collected(
        state: Self::State,
        stable: Map<Pid, Counter>,
        departed: Option<Seq<Pid>>,
    ) -> Self::State;

    /// Queries the state
    fn query(&self, query: Self::Query) -> (response: Self::ClientResponse)
        requires
            self.valid(),
        ensures
            Self::answers(self.state(), query, response),
    ;

    /// Takes the identity under which further mutations are issued.
    fn set_pid(&mut self, pid: Pid)
        requires
            old(self).valid(),
        ensures
            final(self).valid(),
            final(self).state() == Self::identified(old(self).state(), pid),
    ;

    /// Whether [`CRDT::mutate`] can apply `mutation`.
    fn accepts_mutation(&self, mutation: &Self::Mutation) -> (accepted: bool)
        requires
            self.valid(),
        ensures
            accepted == Self::can_mutate(self.state(), *mutation),
    ;

    /// Mutates the state, records the delta and returns the client response
    fn mutate(&mut self, mutation: Self::Mutation) -> (response: Self::ClientResponse)
        requires
            old(self).valid(),
            Self::can_mutate(old(self).state(), mutation),
        ensures
            final(self).valid(),
            final(self).state() == Self::mutated(old(self).state(), mutation),
            Self::acknowledges(old(self).state(), mutation, response),
    ;

    /// Returns the greatest observed sequence number for each replica ID
    fn get_version_vector(&self) -> (vector: &DotSet)
        requires
            self.valid(),
        ensures
            vector@ == Self::vector(self.state()),
    ;

    /// Returns the deltas between the current state and the state represented
    /// by the given version vector together with the number of insertions and
    /// removals in this delta
    fn get_delta(&self, version_vector: &DotSet) -> (delta: (DeltaGroup<Self::Delta>, u16, u16))
        requires
            self.valid(),
        ensures
            Self::is_delta(self.state(), version_vector@, delta.0, (delta.1, delta.2)),
    ;

    /// Whether [`CRDT::merge_delta_group`] can apply `delta`.
    fn accepts_delta_group(&self, delta: &DeltaGroup<Self::Delta>) -> (accepted: bool)
        requires
            self.valid(),
        ensures
            accepted == Self::can_merge(self.state(), *delta),
    ;

    /// Applies the remote delta to the local state
    /// Returns number of insertions and number of removals
    fn merge_delta_group(&mut self, delta: DeltaGroup<Self::Delta>) -> (counts: (u16, u16))
        requires
            old(self).valid(),
            Self::can_merge(old(self).state(), delta),
        ensures
            final(self).valid(),
            final(self).state() == Self::merged(old(self).state(), delta),
            counts == Self::merge_counts(old(self).state(), delta),
    ;

    /// Forgets what every replica has observed, and the replicas that departed.
    fn gc(&mut self, stable: &DotSet, departed_pids: &Option<Vec<Pid>>)
        requires
            old(self).valid(),
        ensures
            final(self).valid(),
            final(self).state() == Self::collected(
                old(self).state(),
                stable@,
                listed(*departed_pids),
            ),
    ;
}

/// The outcome of a garbage-collection round: its epoch, the frontier that it
/// collected and the replicas that it let go.
#[derive(Debug)]
pub struct GcMarker {
    pub marker: Dot,
    pub stable: DotSet,
    pub departed_pids: Option<Vec<Pid>>,
}

/// The meaning of a [`GcMarker`].
#[verifier::ext_equal]
pub struct GcMarkerView {
    pub marker: Dot,
    pub stable: Map<Pid, Counter>,
    pub departed: Option<Seq<Pid>>,
}

impl View for GcMarker {
    type V = GcMarkerView;

    open spec fn view(&self) -> GcMarkerView {
        GcMarkerView {
            marker: self.marker,
            stable: self.stable@,
            departed: listed(self.departed_pids),
        }
    }
}

/// A copy of an optional list of replicas.
pub fn copied_pids(pids: &Option<Vec<Pid>>) -> (copy: Option<Vec<Pid>>)
    ensures
        listed(copy) == listed(*pids),
{
    match pids {
        Some(pids) => {
            let copy = pids.clone();
            assert(copy@ =~= pids@);
            Some(copy)
        },
        None => None,
    }
}

impl Clone for GcMarker {
    fn clone(&self) -> (copy: Self)
        ensures
            copy@ == self@,
    {
        GcMarker {
            marker: self.marker,
            stable: self.stable.clone(),
            departed_pids: copied_pids(&self.departed_pids),
        }
    }
}

/// What a replica keeps beside the replicated data: the version matrix and the
/// marker of the last round.
#[derive(Debug)]
pub struct CRDTWrapper {
    pub version_matrix: VersionMatrix,
    gc_marker: GcMarker,
}

/// The meaning of a [`CRDTWrapper`].
#[verifier::ext_equal]
pub struct WrapperView {
    pub matrix: MatrixView,
    pub last: GcMarkerView,
}

impl View for CRDTWrapper {
    type V = WrapperView;

    closed spec fn view(&self) -> WrapperView {
        WrapperView { matrix: self.version_matrix@, last: self.gc_marker@ }
    }
}

impl WrapperView {
    /// The epoch of the last round.
    pub open spec fn epoch(self) -> Counter {
        self.last.marker.counter
    }

    /// A version vector, marked with the epoch in which it was taken.
    pub open spec fn stamped(self, vector: Map<Pid, Counter>) -> Map<Pid, Counter> {
        vector.insert(STABLE_REPLICA_PID, self.epoch())
    }

    /// Whether a round has anything to do: a departed replica can go, or the
    /// frontier is not yet covered by the stable row.
    pub open spec fn needs_gc(self) -> bool {
        &&& exists|o: Pid| #[trigger] self.matrix.observes(o)
        &&& (exists|p: Pid| #[trigger] self.matrix.departs(p)) || exists|
            frontier: Map<Pid, Counter>,
        | #[trigger]
            self.matrix.is_frontier(frontier) && !self.installed(frontier)
    }

    /// Whether the stable row covers all of `frontier`.
    pub open spec fn installed(self, frontier: Map<Pid, Counter>) -> bool {
        &&& self.matrix.rows.contains_key(STABLE_REPLICA_PID)
        &&& forall|p: Pid| #[trigger]
            frontier.contains_key(p) ==> covers(
                self.matrix.rows[STABLE_REPLICA_PID],
                Dot { pid: p, counter: frontier[p] },
            )
    }

    /// The state after a round.
    pub open spec fn collected(self, marker: GcMarkerView) -> WrapperView {
        WrapperView {
            matrix: self.matrix.collected(marker.stable, marker.departed, marker.marker.counter),
            last: marker,
        }
    }
}

impl CRDTWrapper {
    /// Whether the local replica has a row.
    pub open spec fn wf(&self) -> bool {
        self@.matrix.has_own_row()
    }

    /// The state of a replica that has observed nothing and collected nothing.
    pub fn new(pid: Pid) -> (wrapper: Self)
        ensures
            wrapper.wf(),
            wrapper@.matrix == (MatrixView {
                own_pid: pid,
                rows: Map::<Pid, Map<Pid, Counter>>::empty().insert(
                    pid,
                    MatrixView::unseen_row(pid, UNSEEN),
                ),
                final_dots: Map::empty(),
            }),
            wrapper@.last == (GcMarkerView {
                marker: Dot { pid: STABLE_REPLICA_PID, counter: UNSEEN },
                stable: Map::empty(),
                departed: None,
            }),
    {
        CRDTWrapper {
            version_matrix: VersionMatrix::new(pid),
            gc_marker: GcMarker {
                marker: Dot { pid: STABLE_REPLICA_PID, counter: UNSEEN },
                stable: DotSet::new(),
                departed_pids: None,
            },
        }
    }

    /// A wrapper with the given parts.
    pub fn from_parts(version_matrix: VersionMatrix, gc_marker: GcMarker) -> (wrapper: Self)
        ensures
            wrapper@ == (WrapperView { matrix: version_matrix@, last: gc_marker@ }),
    {
        CRDTWrapper { version_matrix, gc_marker }
    }

    /// The local replica.
    pub fn own_pid(&self) -> (pid: Pid)
        ensures
            pid == self@.matrix.own_pid,
    {
        self.version_matrix.own_pid()
    }

    /// Makes the state that of another replica, whose data is at
    /// `version_vector`.
    pub fn rebind_own_pid(&mut self, pid: Pid, version_vector: DotSet)
        ensures
            final(self).wf(),
            final(self)@ == (WrapperView {
                matrix: MatrixView {
                    own_pid: pid,
                    rows: old(self)@.matrix.rows.insert(
                        pid,
                        old(self)@.stamped(version_vector@),
                    ),
                    final_dots: old(self)@.matrix.final_dots,
                },
                last: old(self)@.last,
            }),
    {
        let mut stamped = version_vector;
        stamped.set_counter(STABLE_REPLICA_PID, self.gc_marker.marker.counter);
        self.version_matrix.rebind_own_pid(pid, stamped);
    }

    /// Makes room for an active replica.
    pub fn observe_active_replica(&mut self, pid: Pid, gc_counter: Counter)
        requires
            old(self).wf(),
        ensures
            final(self).wf(),
            final(self)@ == (WrapperView {
                matrix: old(self)@.matrix.discovered(pid, gc_counter),
                last: old(self)@.last,
            }),
    {
        self.version_matrix.insert_pid(pid, gc_counter);
    }

    /// Notes the last dot of a replica that departed.
    pub fn observe_departed_replica(&mut self, final_dot: Dot)
        requires
            old(self).wf(),
        ensures
            final(self).wf(),
            final(self)@ == (WrapperView {
                matrix: MatrixView {
                    final_dots: old(self)@.matrix.final_dots.insert(
                        final_dot.pid,
                        final_dot.counter,
                    ),
                    ..old(self)@.matrix
                },
                last: old(self)@.last,
            }),
    {
        self.version_matrix.insert_final_dot(final_dot);
    }

    /// Whether the payload of a departed replica is still to be fetched: its
    /// last dot was not noted yet.
    pub fn should_fetch_departed_replica(&self, final_dot: Dot) -> (fetch: bool)
        ensures
            fetch == (self@.matrix.final_dots.get(final_dot.pid) != Some(final_dot.counter)),
    {
        !self.version_matrix.contains_final_dot(final_dot)
    }

    /// The marker of the last round.
    pub fn current_gc_marker(&self) -> (marker: Dot)
        ensures
            marker == self@.last.marker,
    {
        self.gc_marker.marker
    }

    /// The marker of the next round.
    pub fn next_gc_marker(&self) -> (marker: Dot)
        requires
            self@.epoch() < Counter::MAX,
        ensures
            marker.pid == STABLE_REPLICA_PID,
            marker.counter == self@.epoch() + 1,
    {
        Dot { pid: STABLE_REPLICA_PID, counter: self.gc_marker.marker.counter + 1 }
    }

    /// The outcome of the last round, as it is sent to peers.
    pub fn gc_metadata(&self) -> (marker: GcMarker)
        ensures
            marker@ == self@.last,
    {
        self.gc_marker.clone()
    }

    /// Whether the local replica is still there after the round of `marker`.
    pub fn survives(&self, marker: &GcMarker) -> (survives: bool)
        ensures
            survives == self@.matrix.keeps_own_row(marker@.departed),
    {
        self.version_matrix.keeps_own_row(&marker.departed_pids)
    }

    /// Installs the outcome of a round.
    pub fn push_gc_marker(&mut self, marker: GcMarker)
        requires
            old(self)@.matrix.keeps_own_row(marker@.departed),
        ensures
            final(self).wf(),
            final(self)@ == old(self)@.collected(marker@),
            final(self)@.matrix.own_epoch() == final(self)@.epoch(),
    {
        self.version_matrix.apply_gc_marker(
            &marker.stable,
            &marker.departed_pids,
            marker.marker.counter,
        );
        self.gc_marker = marker;
    }

    /// Whether a round has anything to do.
    pub fn needs_gc(&self) -> (needed: bool)
        requires
            self.wf(),
        ensures
            needed == self@.needs_gc(),
    {
        let (stable, departed) = self.version_matrix.get_stable();
        match stable {
            None => false,
            Some(frontier) => {
                let installed = self.is_installed(&frontier);
                proof {
                    assert(self@.matrix.is_frontier(frontier@));
                    assert forall|other: Map<Pid, Counter>| #[trigger]
                        self@.matrix.is_frontier(other) implies other == frontier@ by {
                        crate::dots::laws::law_frontier_is_unique(
                            self@.matrix,
                            other,
                            frontier@,
                        );
                    }
                }
                departed.is_some() || !installed
            },
        }
    }

    /// The stable frontier and the departed replicas that can go.
    pub fn stable(&self) -> (found: (Option<DotSet>, Option<Vec<Pid>>))
        requires
            self.wf(),
        ensures
            found.0 is Some <==> exists|p: Pid| #[trigger] self@.matrix.observes(p),
            found.0 is Some ==> self@.matrix.is_frontier(found.0->0@),
            found.1 is Some <==> found.0 is Some && exists|p: Pid| #[trigger]
                self@.matrix.departs(p),
            found.1 is Some ==> ascending(found.1->0@) && forall|p: Pid| #[trigger]
                found.1->0@.contains(p) <==> self@.matrix.departs(p),
    {
        self.version_matrix.get_stable()
    }

    /// Takes the version vector of a peer into the matrix.
    pub fn observe_version_vector(&mut self, pid: Pid, version_vector: DotSet)
        requires
            old(self).wf(),
        ensures
            final(self).wf(),
            final(self)@ == (WrapperView {
                matrix: old(self)@.matrix.updated(pid, version_vector@),
                last: old(self)@.last,
            }),
    {
        self.version_matrix.update(pid, version_vector);
    }

    /// Whether the stable row covers all of `frontier`.
    fn is_installed(&self, frontier: &DotSet) -> (installed: bool)
        ensures
            installed == self@.installed(frontier@),
    {
        match self.version_matrix.row(&STABLE_REPLICA_PID) {
            None => false,
            Some(row) => {
                let pids = frontier.pids();
                for i in 0..pids.len()
                    invariant
                        self@.matrix.rows.contains_key(STABLE_REPLICA_PID),
                        row@ == self@.matrix.rows[STABLE_REPLICA_PID],
                        forall|p: Pid| #[trigger] pids@.contains(p) <==> frontier@.contains_key(p),
                        forall|p: Pid| #[trigger]
                            pids@.contains(p) && pids@.take(i as int).contains(p) ==> covers(
                                row@,
                                Dot { pid: p, counter: frontier@[p] },
                            ),
                {
                    let pid: Pid = pids[i];
                    assert(pids@.contains(pid));
                    if !row.contains(&Dot { pid, counter: *frontier.get(&pid) }) {
                        return false;
                    }
                    proof {
                        crate::dots::lemma_take_next(pids@, i as int);
                    }
                }
                proof {
                    assert(pids@.take(pids@.len() as int) =~= pids@);
                    assert forall|p: Pid| #[trigger] frontier@.contains_key(p) implies covers(
                        row@,
                        Dot { pid: p, counter: frontier@[p] },
                    ) by {
                        assert(pids@.contains(p));
                    }
                }
                true
            },
        }
    }

    /// Takes the version vector of the local data as the local row, and
    /// returns it marked with the current epoch.
    pub fn update_own_version_vector(&mut self, version_vector: DotSet) -> (stamped: DotSet)
        requires
            old(self).wf(),
        ensures
            final(self).wf(),
            stamped@ == old(self)@.stamped(version_vector@),
            final(self)@ == (WrapperView {
                matrix: old(self)@.matrix.updated(old(self)@.matrix.own_pid, stamped@),
                last: old(self)@.last,
            }),
    {
        let mut stamped = version_vector;
        stamped.set_counter(STABLE_REPLICA_PID, self.gc_marker.marker.counter);
        let own_pid: Pid = self.version_matrix.own_pid();
        self.version_matrix.update(own_pid, stamped.clone());
        stamped
    }
}

impl Clone for CRDTWrapper {
    fn clone(&self) -> (copy: Self)
        ensures
            copy@ == self@,
    {
        CRDTWrapper {
            version_matrix: self.version_matrix.clone(),
            gc_marker: self.gc_marker.clone(),
        }
    }
}

/// A replica as it is kept: its data and what it knows of its peers.
pub struct PersistentReplica<T: CRDT> {
    pub local_state: T,
    pub crdt_wrapper: CRDTWrapper,
}

impl<T: CRDT> PersistentReplica<T> {
    /// Both parts are well formed.
    pub open spec fn wf(&self) -> bool {
        self.local_state.valid() && self.crdt_wrapper.wf()
    }

    /// The stored state of one replica as the start of another, which has a
    /// row from then on.
    pub fn rebind_own_pid(&mut self, pid: Pid)
        requires
            old(self).local_state.valid(),
        ensures
            final(self).wf(),
            final(self).local_state.state() == T::identified(
                old(self).local_state.state(),
                pid,
            ),
            final(self).crdt_wrapper@ == (WrapperView {
                matrix: MatrixView {
                    own_pid: pid,
                    rows: old(self).crdt_wrapper@.matrix.rows.insert(
                        pid,
                        old(self).crdt_wrapper@.stamped(
                            T::vector(T::identified(old(self).local_state.state(), pid)),
                        ),
                    ),
                    final_dots: old(self).crdt_wrapper@.matrix.final_dots,
                },
                last: old(self).crdt_wrapper@.last,
            }),
    {
        self.local_state.set_pid(pid);
        let version_vector = self.local_state.get_version_vector().clone();
        self.crdt_wrapper.rebind_own_pid(pid, version_vector);
    }
}

/// What replicas send each other.
pub enum ReplicaMessage<T: CRDT> {
    DeltaGroup(DeltaGroup<T::Delta>, GcMarker),
    VersionVector(Pid, DotSet),
}

/// What a client sends.
pub enum CRDTClientRequest<T: CRDT> {
    Mutation(T::Mutation),
    Query(T::Query),
}

} // verus!
