//! What holds of replicas as a whole.

use vstd::prelude::*;
use super::{is_as_new_as_all, is_newer, is_plan, is_unchanged, rebound, refreshed, GcPlan, ReplicaView};
use crate::crdt::{GcMarkerView, WrapperView, STABLE_REPLICA_PID};
use crate::dots::laws::law_frontier_is_observed_by_all;
use crate::dots::{counter_of, covers, Counter, Dot, MatrixView, UNSEEN};
use crate::network::{
    active, is_candidate, is_listed, is_newest_epoch, is_retired, with_discovered,
};
use crate::orset::agreement::{is_history, law_round_is_remembered, remembers, History};
use crate::orset::laws::law_gc_keeps_what_is_needed;
use crate::orset::{is_departed, ORSetView};
use crate::prelude::Pid;
use crate::replica_helpers::ReplicaDescriptor;

verus! {

/// A round takes the replica to its epoch, and the same marker is ignored
/// afterwards.
pub proof fn law_round_is_applied_once(wrapper: WrapperView, marker: GcMarkerView)
    ensures
        wrapper.collected(marker).epoch() == marker.marker.counter,
        !is_newer(marker, wrapper.collected(marker)),
{
}

/// A delta group of a peer is refused exactly if the peer is in an earlier
/// epoch.
pub proof fn law_refusal_is_by_epoch(
    wrapper: WrapperView,
    peer: WrapperView,
    vector: Map<Pid, Counter>,
)
    ensures
        (counter_of(peer.stamped(vector), STABLE_REPLICA_PID) < wrapper.epoch()) <==> (peer.epoch()
            < wrapper.epoch()),
{
}

/// Binding a stored state to an identity keeps all that it knew of others, and
/// a state that is bound to its own identity keeps that identity.
pub proof fn law_identity_survives_a_restart(
    wrapper: WrapperView,
    pid: Pid,
    vector: Map<Pid, Counter>,
    other: Pid,
)
    requires
        other != pid,
    ensures
        rebound(wrapper, pid, vector).matrix.own_pid == pid,
        rebound(wrapper, pid, vector).last == wrapper.last,
        rebound(wrapper, pid, vector).matrix.rows.contains_key(other)
            == wrapper.matrix.rows.contains_key(other),
        wrapper.matrix.rows.contains_key(other) ==> rebound(wrapper, pid, vector).matrix.rows[other]
            == wrapper.matrix.rows[other],
        rebound(wrapper, pid, vector).matrix.own_row() == wrapper.stamped(vector),
        rebound(wrapper, pid, vector).matrix.own_epoch() == wrapper.epoch(),
{
}

/// A replica that starts with a stored state that is up to date is in no earlier
/// epoch than any member that was listed, so that no peer refuses its changes.
pub proof fn law_installed_state_is_up_to_date(
    stored: WrapperView,
    pid: Pid,
    vector: Map<Pid, Counter>,
    members: Seq<ReplicaDescriptor>,
    i: int,
)
    requires
        is_as_new_as_all(stored.epoch(), members),
        0 <= i < members.len(),
    ensures
        members[i].gc_counter <= rebound(stored, pid, vector).epoch(),
        members[i].gc_counter <= rebound(stored, pid, vector).matrix.own_epoch(),
{
}

/// While the local row is in the epoch of the last round, a refresh takes
/// effect: the row is then the version vector of the data, in that epoch.
pub proof fn law_refresh_takes_effect(wrapper: WrapperView, vector: Map<Pid, Counter>)
    requires
        wrapper.matrix.has_own_row(),
        wrapper.matrix.own_epoch() <= wrapper.epoch(),
    ensures
        refreshed(wrapper, vector).matrix.own_row() == wrapper.stamped(vector),
        refreshed(wrapper, vector).matrix.own_epoch() == wrapper.epoch(),
{
}

/// Membership that has not changed lets a round go on.
pub proof fn law_same_membership_is_unchanged(
    own_pid: Pid,
    previous: Map<Pid, Counter>,
    members: Seq<ReplicaDescriptor>,
)
    requires
        forall|p: Pid| #[trigger] previous.contains_key(p) <==> is_listed(members, p),
        forall|p: Pid| #[trigger]
            previous.contains_key(p) ==> is_newest_epoch(members, p, previous[p]),
    ensures
        is_unchanged(own_pid, previous, members),
{
    assert forall|i: int| 0 <= i < members.len() implies (#[trigger] members[i]).pid == own_pid || (
    previous.contains_key(members[i].pid) && members[i].gc_counter
        <= previous[members[i].pid]) by {
        assert(is_listed(members, members[i].pid));
        assert(previous.contains_key(members[i].pid));
    }
}

/// A peer that joined, or that entered a later epoch, ends a round.
pub proof fn law_changed_membership_ends_the_round(
    own_pid: Pid,
    previous: Map<Pid, Counter>,
    members: Seq<ReplicaDescriptor>,
    i: int,
)
    requires
        0 <= i < members.len(),
        members[i].pid != own_pid,
        !previous.contains_key(members[i].pid) || previous[members[i].pid]
            < members[i].gc_counter,
    ensures
        !is_unchanged(own_pid, previous, members),
{
}

/// A candidate for a connection is never the replica itself, a retired one or
/// one that is connected.
pub proof fn law_candidates_are_connectable(
    members: Seq<ReplicaDescriptor>,
    local_pid: Pid,
    connected: Set<Pid>,
    i: int,
)
    requires
        is_candidate(members, local_pid, connected, i),
    ensures
        members[i].pid != local_pid,
        members[i].final_counter is None,
        !is_retired(members, members[i].pid),
        !connected.contains(members[i].pid),
{
}

/// Taking in a listing twice is the same as once, and no known row is changed.
pub proof fn law_discovery_keeps_known_rows(
    matrix: MatrixView,
    members: Seq<ReplicaDescriptor>,
    local_pid: Pid,
)
    ensures
        with_discovered(
            with_discovered(matrix, active(members, local_pid)),
            active(members, local_pid),
        ) == with_discovered(matrix, active(members, local_pid)),
        forall|p: Pid| #[trigger]
            matrix.rows.contains_key(p) ==> with_discovered(
                matrix,
                active(members, local_pid),
            ).rows.contains_key(p) && with_discovered(matrix, active(members, local_pid)).rows[p]
                == matrix.rows[p],
{
    let once = with_discovered(matrix, active(members, local_pid));
    let twice = with_discovered(once, active(members, local_pid));
    assert(twice.rows =~= once.rows);
}

/// The frontier of a planned round is covered by the stable row once the round
/// is applied.
pub proof fn law_round_installs_its_frontier<S>(replica: ReplicaView<S>, plan: GcPlan)
    requires
        is_plan(replica, plan),
        replica.wrapper.matrix.own_pid != STABLE_REPLICA_PID,
        replica.wrapper.matrix.observes(replica.wrapper.matrix.own_pid),
        replica.wrapper.matrix.own_epoch() <= replica.wrapper.epoch(),
    ensures
        replica.wrapper.collected(plan.marker@).installed(plan.marker@.stable),
{
    let matrix = replica.wrapper.matrix;
    let frontier = plan.marker@.stable;
    let after = replica.wrapper.collected(plan.marker@);
    let row = after.matrix.rows[STABLE_REPLICA_PID];
    assert(row == frontier.insert(STABLE_REPLICA_PID, plan.marker@.marker.counter));
    assert forall|p: Pid| #[trigger] frontier.contains_key(p) implies covers(
        row,
        Dot { pid: p, counter: frontier[p] },
    ) by {
        if p == STABLE_REPLICA_PID {
            assert(matrix.is_floor(p, frontier[p]));
            assert(frontier[p] <= counter_of(matrix.rows[matrix.own_pid], p));
        }
    }
}

/// After a round that let nobody go, there is something to do again only if a
/// departed replica can go now: the frontier stays where it is until a peer
/// reports progress.
pub proof fn law_round_settles<S>(replica: ReplicaView<S>, plan: GcPlan)
    requires
        is_plan(replica, plan),
        plan.marker@.departed is None,
        replica.wrapper.matrix.own_pid != STABLE_REPLICA_PID,
        replica.wrapper.matrix.observes(replica.wrapper.matrix.own_pid),
        replica.wrapper.matrix.own_epoch() <= replica.wrapper.epoch(),
    ensures
        ({
            let after = replica.wrapper.collected(plan.marker@);
            after.needs_gc() <==> exists|p: Pid| #[trigger] after.matrix.departs(p)
        }),
{
    let matrix = replica.wrapper.matrix;
    let own = matrix.own_pid;
    let frontier = plan.marker@.stable;
    let after = replica.wrapper.collected(plan.marker@);
    let next = after.matrix;
    let epoch = plan.marker@.marker.counter;
    law_round_installs_its_frontier(replica, plan);
    assert(matrix.leaving_of(None) =~= Set::<Pid>::empty());
    assert forall|p: Pid| #[trigger] matrix.rows.contains_key(p) && p != own && p
        != STABLE_REPLICA_PID implies next.rows.contains_key(p) && next.rows[p]
        == matrix.rows[p] by {
        assert(matrix.rows[p].remove_keys(Set::empty()) =~= matrix.rows[p]);
    }
    assert(matrix.rows[own].remove_keys(Set::empty()) =~= matrix.rows[own]);
    assert(next.rows[own] == matrix.rows[own].insert(STABLE_REPLICA_PID, epoch));
    assert(next.final_dots =~= matrix.final_dots);
    assert forall|p: Pid| #[trigger] next.observes(p) <==> matrix.observes(p) by {
        if matrix.final_dots.contains_key(p) && p != STABLE_REPLICA_PID {
            assert(covers(next.own_row(), next.final_dot(p)) == covers(
                matrix.own_row(),
                matrix.final_dot(p),
            ));
        }
    }
    assert(next.observes(own));
    assert forall|other: Map<Pid, Counter>| #[trigger] next.is_frontier(other) implies after
        .installed(other) by {
        let row = next.rows[STABLE_REPLICA_PID];
        assert forall|p: Pid| #[trigger] other.contains_key(p) implies covers(
            row,
            Dot { pid: p, counter: other[p] },
        ) by {
            assert(next.is_floor(p, other[p]));
            assert(other[p] <= counter_of(next.rows[own], p));
            if p != STABLE_REPLICA_PID {
                assert(next.has_column(p));
                assert(matrix.has_column(p)) by {
                    if !matrix.observes(p) {
                        let o = choose|o: Pid| #[trigger]
                            next.observes(o) && next.rows[o].contains_key(p);
                        assert(matrix.observes(o));
                        assert(matrix.rows[o].contains_key(p));
                    }
                }
                assert(!matrix.departs(p));
                assert(frontier.contains_key(p));
                assert(matrix.is_floor(p, frontier[p]));
                let o = choose|o: Pid| #[trigger]
                    matrix.observes(o) && counter_of(matrix.rows[o], p) == frontier[p];
                assert(next.observes(o));
                assert(other[p] <= counter_of(next.rows[o], p));
                assert(counter_of(next.rows[o], p) == counter_of(matrix.rows[o], p));
            }
        }
    }
}

/// A planned round withholds nothing from any observer: of every origin that
/// the round does not let go, the set still holds the changes that the row of
/// the observer lacks.
pub proof fn law_round_withholds_nothing<V>(
    replica: ReplicaView<ORSetView<V>>,
    plan: GcPlan,
    observer: Pid,
    pid: Pid,
)
    requires
        is_plan(replica, plan),
        replica.wrapper.matrix.observes(observer),
        !replica.wrapper.matrix.departs(pid),
        forall|i: int|
            0 <= i < replica.state.log_of(pid).len() ==> (#[trigger] replica.state.log_of(
                pid,
            )[i]).dot.pid == pid && UNSEEN < replica.state.log_of(pid)[i].dot.counter,
    ensures
        ({
            let vector = replica.wrapper.matrix.rows[observer];
            let after = replica.state.collected(plan.marker@.stable, plan.marker@.departed);
            ORSetView::lacking_of(after.log_of(pid), vector) == ORSetView::lacking_of(
                replica.state.log_of(pid),
                vector,
            )
        }),
{
    let matrix = replica.wrapper.matrix;
    let stable = plan.marker@.stable;
    let departed = plan.marker@.departed;
    let vector = matrix.rows[observer];
    let list = replica.state.log_of(pid);
    assert forall|i: int|
        0 <= i < list.len() && !ORSetView::<V>::stays(stable, departed, (#[trigger] list[i]).dot)
        implies covers(vector, list[i].dot) by {
        assert(list[i].dot.pid == pid);
        assert(!is_departed(departed, pid));
        law_frontier_is_observed_by_all(matrix, stable, observer, list[i].dot);
    }
    law_gc_keeps_what_is_needed(replica.state, stable, departed, vector, pid);
}

/// After a planned round any observer can still be brought up to date: what
/// the replica has dropped the observer has observed.
pub proof fn law_planned_round_is_remembered<V>(
    replica: ReplicaView<ORSetView<V>>,
    plan: GcPlan,
    history: History<V>,
    observer: Pid,
)
    requires
        is_plan(replica, plan),
        replica.wrapper.matrix.observes(observer),
        is_history(replica.state, history),
        remembers(replica.state, history, replica.wrapper.matrix.rows[observer]),
    ensures
        remembers(
            replica.state.collected(plan.marker@.stable, plan.marker@.departed),
            History {
                list: history.list,
                gone: history.gone.union(
                    Set::new(|p: Pid| is_departed(plan.marker@.departed, p)),
                ),
            },
            replica.wrapper.matrix.rows[observer],
        ),
{
    let matrix = replica.wrapper.matrix;
    let stable = plan.marker@.stable;
    let vector = matrix.rows[observer];
    assert forall|dot: Dot| 0 <= dot.counter && #[trigger] covers(stable, dot) implies covers(
        vector,
        dot,
    ) by {
        law_frontier_is_observed_by_all(matrix, stable, observer, dot);
    }
    law_round_is_remembered(replica.state, history, stable, plan.marker@.departed, vector);
}

/// A departure that was noted is not pending any more, so that what the
/// replica left behind is fetched once.
pub proof fn law_departure_is_noted_once<S>(
    replica: ReplicaView<S>,
    descriptor: ReplicaDescriptor,
    final_dot: Dot,
    other: ReplicaDescriptor,
)
    requires
        replica.pending(descriptor) == Some(final_dot),
        other.pid != descriptor.pid,
    ensures
        replica.noted(final_dot).pending(descriptor) is None,
        replica.noted(final_dot).pending(other) == replica.pending(other),
{
}

/// The descriptor with which a replica shuts down names the last of its own
/// dots: its data covers all of them up to that one, and none after it.
pub proof fn law_shutdown_names_the_last_dot<S>(
    replica: ReplicaView<S>,
    vector: Map<Pid, Counter>,
    counter: Counter,
)
    requires
        0 <= counter,
    ensures
        covers(vector, Dot { pid: replica.pid, counter }) <==> counter <= replica.last_descriptor(
            vector,
        ).final_counter->0,
{
}

} // verus!
