//! What the network manager does about each event, and which members the
//! replica speaks of.

use vstd::prelude::*;
use super::manager::{
    backoff, outcome, ConnectionResult, Handshake, ManagerView, NetworkAction, NetworkEvent,
};
use super::{
    active, announcement, announces_candidate, holds_candidate, is_active, is_candidate, is_listed,
    is_newest_epoch, is_retired, newest_epoch, with_discovered, NetworkLatencyProfile,
    NetworkMember,
};
use crate::crdt::STABLE_REPLICA_PID;
use crate::dots::{Counter, MatrixView};
use crate::prelude::{address_precedes, Pid, SocketAddress};
use crate::replica_helpers::ReplicaDescriptor;

verus! {

/// An active member with another identity and a greater address that is neither
/// gone, connected, being tried nor waiting for its retry is connected to,
/// whoever else is connected, tried or gone. It is being tried from then on, and
/// nothing else changes.
pub proof fn law_eligible_member_is_connected_to(
    manager: ManagerView,
    member: NetworkMember,
    now_ms: u64,
)
    requires
        member.final_counter is None,
        member.pid != manager.pid,
        address_precedes(manager.address, member.address),
        !manager.dead.contains(member.pid),
        !manager.connected.contains(member.pid),
        !manager.connecting.contains(member.pid),
        !(manager.retry_at.contains_key(member.pid) && manager.retry_at[member.pid] > now_ms),
    ensures
        manager.connects_to(member, now_ms),
        manager.answer(NetworkEvent::Member(member), now_ms) == NetworkAction::Connect(member),
        manager.after(NetworkEvent::Member(member), now_ms) == manager.told_of(member, now_ms),
        ({
            let after = manager.told_of(member, now_ms);
            &&& after.connecting == manager.connecting.insert(member.pid)
            &&& after.pid == manager.pid
            &&& after.address == manager.address
            &&& after.dead == manager.dead
            &&& after.connected == manager.connected
            &&& after.retry_at == manager.retry_at
            &&& after.failures == manager.failures
        }),
{
}

/// An active member for which one of these conditions fails is not connected
/// to, and nothing changes.
pub proof fn law_other_members_are_passed_over(
    manager: ManagerView,
    member: NetworkMember,
    now_ms: u64,
)
    requires
        member.final_counter is None,
        member.pid == manager.pid || !address_precedes(manager.address, member.address)
            || manager.dead.contains(member.pid) || manager.connected.contains(member.pid)
            || manager.connecting.contains(member.pid) || (manager.retry_at.contains_key(member.pid)
            && manager.retry_at[member.pid] > now_ms),
    ensures
        !manager.connects_to(member, now_ms),
        manager.answer(NetworkEvent::Member(member), now_ms) == NetworkAction::Wait,
        manager.after(NetworkEvent::Member(member), now_ms) == manager,
        manager.told_of(member, now_ms) == manager,
{
}

/// A member that has left is forgotten in every respect but that it is gone,
/// and no other member is touched.
pub proof fn law_departure_touches_one_member(
    manager: ManagerView,
    member: NetworkMember,
    now_ms: u64,
)
    requires
        member.final_counter is Some,
    ensures
        !manager.connects_to(member, now_ms),
        manager.answer(NetworkEvent::Member(member), now_ms) == NetworkAction::Wait,
        manager.after(NetworkEvent::Member(member), now_ms) == manager.told_of(member, now_ms),
        ({
            let after = manager.told_of(member, now_ms);
            &&& after.pid == manager.pid
            &&& after.address == manager.address
            &&& after.dead == manager.dead.insert(member.pid)
            &&& after.connected == manager.connected.remove(member.pid)
            &&& after.connecting == manager.connecting.remove(member.pid)
            &&& after.retry_at == manager.retry_at.remove(member.pid)
            &&& after.failures == manager.failures.remove(member.pid)
        }),
{
}

/// A connection is registered exactly if it leads to the member that was
/// expected, if one was, and that member is neither gone nor connected. The
/// expected member is not being tried any more, and its failures are forgotten.
pub proof fn law_established_connections(
    manager: ManagerView,
    expected_pid: Option<Pid>,
    peer_pid: Pid,
    now_ms: u64,
)
    ensures
        ({
            let result = ConnectionResult::Established { expected_pid, peer_pid };
            let event = NetworkEvent::Result(result);
            let after = manager.after(event, now_ms);
            let wanted = (expected_pid is None || expected_pid->0 == peer_pid)
                && !manager.dead.contains(peer_pid) && !manager.connected.contains(peer_pid);
            &&& manager.answer(event, now_ms) == if wanted {
                NetworkAction::Register(peer_pid)
            } else {
                NetworkAction::Abort
            }
            &&& after == manager.after_attempt(result, now_ms)
            &&& after.pid == manager.pid
            &&& after.address == manager.address
            &&& after.dead == manager.dead
            &&& after.connected == if wanted {
                manager.connected.insert(peer_pid)
            } else {
                manager.connected
            }
            &&& match expected_pid {
                Some(pid) => {
                    &&& after.connecting == manager.connecting.remove(pid)
                    &&& after.retry_at == manager.retry_at.remove(pid)
                    &&& after.failures == manager.failures.remove(pid)
                },
                None => {
                    &&& after.connecting == manager.connecting
                    &&& after.retry_at == manager.retry_at
                    &&& after.failures == manager.failures
                },
            }
        }),
{
}

/// A failed attempt counts one more failure of the member, which may be tried
/// again after two, four, eight, sixteen and then thirty seconds. An attempt
/// that expected nobody changes nothing.
pub proof fn law_failed_attempts(
    manager: ManagerView,
    expected_pid: Option<Pid>,
    now_ms: u64,
)
    ensures
        ({
            let result = ConnectionResult::Failed { expected_pid };
            let event = NetworkEvent::Result(result);
            let after = manager.after(event, now_ms);
            &&& manager.answer(event, now_ms) == NetworkAction::Wait
            &&& after == manager.after_attempt(result, now_ms)
            &&& expected_pid is None ==> after == manager
            &&& expected_pid matches Some(pid) ==> {
                let failures: int = if !manager.failures.contains_key(pid) {
                    1
                } else if manager.failures[pid] < u32::MAX {
                    manager.failures[pid] + 1
                } else {
                    u32::MAX as int
                };
                let wait_ms: int = if failures == 1 {
                    2_000
                } else if failures == 2 {
                    4_000
                } else if failures == 3 {
                    8_000
                } else if failures == 4 {
                    16_000
                } else if failures == 0 {
                    1_000
                } else {
                    30_000
                };
                &&& after.pid == manager.pid
                &&& after.address == manager.address
                &&& after.dead == manager.dead
                &&& after.connected == manager.connected
                &&& after.connecting == manager.connecting.remove(pid)
                &&& after.failures.dom() == manager.failures.dom().insert(pid)
                &&& after.failures[pid] == failures
                &&& after.retry_at.dom() == manager.retry_at.dom().insert(pid)
                &&& after.retry_at[pid] == if now_ms + wait_ms <= u64::MAX {
                    now_ms + wait_ms
                } else {
                    u64::MAX as int
                }
                &&& forall|p: Pid| #[trigger]
                    manager.failures.contains_key(p) && p != pid ==> after.failures[p]
                        == manager.failures[p]
                &&& forall|p: Pid| #[trigger]
                    manager.retry_at.contains_key(p) && p != pid ==> after.retry_at[p]
                        == manager.retry_at[p]
            }
        }),
{
    reveal_with_fuel(crate::network::manager::doubled, 6);
    if let Some(pid) = expected_pid {
        let after = manager.after_attempt(ConnectionResult::Failed { expected_pid }, now_ms);
        assert(after.failures.dom() =~= manager.failures.dom().insert(pid));
        assert(after.retry_at.dom() =~= manager.retry_at.dom().insert(pid));
    }
}

/// The wait after so many failures in a row.
pub proof fn law_backoff_doubles(failures: u32)
    ensures
        backoff(0) == 1,
        backoff(1) == 2,
        backoff(2) == 4,
        backoff(3) == 8,
        backoff(4) == 16,
        failures >= 5 ==> backoff(failures) == 30,
{
    reveal_with_fuel(crate::network::manager::doubled, 6);
}

/// A peer that connects is shaken hands with; a registration that was not taken
/// is withdrawn, and its connection closed; everything else changes nothing.
pub proof fn law_remaining_events(manager: ManagerView, pid: Pid, now_ms: u64)
    ensures
        manager.answer(NetworkEvent::Accepted, now_ms) == NetworkAction::Handshake,
        manager.answer(NetworkEvent::AcceptFailed, now_ms) == NetworkAction::Wait,
        manager.answer(NetworkEvent::Shutdown, now_ms) == NetworkAction::Stop,
        manager.answer(NetworkEvent::Registration { pid, taken: true }, now_ms)
            == NetworkAction::Wait,
        manager.answer(NetworkEvent::Registration { pid, taken: false }, now_ms)
            == NetworkAction::Abort,
        manager.after(NetworkEvent::Accepted, now_ms) == manager,
        manager.after(NetworkEvent::AcceptFailed, now_ms) == manager,
        manager.after(NetworkEvent::Shutdown, now_ms) == manager,
        manager.after(NetworkEvent::Registration { pid, taken: true }, now_ms) == manager,
        ({
            let after = manager.after(NetworkEvent::Registration { pid, taken: false }, now_ms);
            &&& after.connected == manager.connected.remove(pid)
            &&& after.pid == manager.pid
            &&& after.address == manager.address
            &&& after.dead == manager.dead
            &&& after.connecting == manager.connecting
            &&& after.retry_at == manager.retry_at
            &&& after.failures == manager.failures
        }),
{
}

/// An attempt is established exactly if the handshake was completed, with the
/// peer that it named.
pub proof fn law_handshake_decides(expected_pid: Option<Pid>, handshake: Handshake)
    ensures
        match handshake {
            Handshake::Completed(pid) => outcome(expected_pid, handshake)
                == (ConnectionResult::Established { expected_pid, peer_pid: pid }),
            Handshake::Failed | Handshake::TimedOut | Handshake::NotReady => outcome(
                expected_pid,
                handshake,
            ) == (ConnectionResult::Failed { expected_pid }),
        },
{
}

/// Addresses of version 4 come before those of version 6; within a version the
/// IP address decides, then the port, the flow information and the scope.
pub proof fn law_addresses_are_compared_field_by_field(a: SocketAddress, b: SocketAddress)
    ensures
        a.ip is V4 && b.ip is V6 ==> address_precedes(a, b) && !address_precedes(b, a),
        a.ip is V4 && b.ip is V4 && a.ip->V4_0 < b.ip->V4_0 ==> address_precedes(a, b),
        a.ip is V6 && b.ip is V6 && a.ip->V6_0 < b.ip->V6_0 ==> address_precedes(a, b),
        a.ip == b.ip && a.port < b.port ==> address_precedes(a, b),
        a.ip == b.ip && a.port == b.port && a.flow_info < b.flow_info ==> address_precedes(a, b),
        a.ip == b.ip && a.port == b.port && a.flow_info == b.flow_info && a.scope_id < b.scope_id
            ==> address_precedes(a, b),
        address_precedes(a, b) ==> !address_precedes(b, a),
        a == b ==> !address_precedes(a, b),
{
}

/// A descriptor with a final counter retires its replica, and nothing else
/// does. A descriptor is active exactly if it is that of another replica which
/// nothing retires; the active ones keep their order.
pub proof fn law_active_members(
    members: Seq<ReplicaDescriptor>,
    local_pid: Pid,
    descriptor: ReplicaDescriptor,
    i: int,
)
    ensures
        0 <= i < members.len() && members[i].final_counter is Some ==> is_retired(
            members,
            members[i].pid,
        ),
        is_retired(members, descriptor.pid) ==> exists|j: int|
            0 <= j < members.len() && (#[trigger] members[j]).pid == descriptor.pid
                && members[j].final_counter is Some,
        active(members, local_pid).contains(descriptor) <==> members.contains(descriptor)
            && descriptor.pid != local_pid && !(exists|j: int|
            0 <= j < members.len() && (#[trigger] members[j]).pid == descriptor.pid
                && members[j].final_counter is Some),
        active(members, local_pid) == members.filter(
            |d: ReplicaDescriptor| d.pid != local_pid && !is_retired(members, d.pid),
        ),
{
    crate::dots::dot_map::lemma_filter_holds(
        members,
        |d: ReplicaDescriptor| is_active(members, local_pid, d),
        descriptor,
    );
    crate::orset::lemma_filter_agrees(
        members,
        |d: ReplicaDescriptor| d.pid != local_pid && !is_retired(members, d.pid),
        |d: ReplicaDescriptor| is_active(members, local_pid, d),
    );
}

/// Every other replica that the directory lists, that nothing retires and that
/// is not connected has exactly one candidate: the first of those of its
/// descriptors with the greatest epoch.
pub proof fn law_every_open_peer_has_one_candidate(
    members: Seq<ReplicaDescriptor>,
    local_pid: Pid,
    connected: Set<Pid>,
    i: int,
    pid: Pid,
)
    requires
        0 <= i < members.len(),
        members[i].pid == pid,
    ensures
        pid != local_pid && !connected.contains(pid) && (forall|j: int|
            0 <= j < members.len() && (#[trigger] members[j]).pid == pid
                ==> members[j].final_counter is None) ==> exists|k: int|
            is_candidate(members, local_pid, connected, k) && #[trigger] members[k].pid == pid
                && members[i].gc_counter <= members[k].gc_counter,
        pid == local_pid || connected.contains(pid) || is_retired(members, pid) ==> !is_candidate(
            members,
            local_pid,
            connected,
            i,
        ),
        forall|k: int|
            #![trigger is_candidate(members, local_pid, connected, k)]
            is_candidate(members, local_pid, connected, k) && is_candidate(
                members,
                local_pid,
                connected,
                i,
            ) && members[k].pid == pid ==> k == i,
{
    if pid != local_pid && !connected.contains(pid) && (forall|j: int|
        0 <= j < members.len() && (#[trigger] members[j]).pid == pid ==> members[j].final_counter
            is None) {
        let k = lemma_newest_place(members, pid, i, members.len() as int);
        assert(!is_retired(members, pid));
        assert(is_candidate(members, local_pid, connected, k));
        assert(members[k].pid == pid);
    }
}

/// The first of the descriptors of a replica with the greatest epoch.
proof fn lemma_newest_place(
    members: Seq<ReplicaDescriptor>,
    pid: Pid,
    i: int,
    n: int,
) -> (k: int)
    requires
        0 <= i < n <= members.len(),
        members[i].pid == pid,
    ensures
        0 <= k < n,
        members[k].pid == pid,
        forall|j: int|
            0 <= j < n && (#[trigger] members[j]).pid == pid ==> members[j].gc_counter
                <= members[k].gc_counter && (j < k ==> members[j].gc_counter
                < members[k].gc_counter),
    decreases n,
{
    if exists|j: int| 0 <= j < n - 1 && (#[trigger] members[j]).pid == pid {
        let j = choose|j: int| 0 <= j < n - 1 && (#[trigger] members[j]).pid == pid;
        let k = lemma_newest_place(members, pid, j, n - 1);
        if members[n - 1].pid == pid && members[k].gc_counter < members[n - 1].gc_counter {
            n - 1
        } else {
            k
        }
    } else {
        n - 1
    }
}

/// The manager is told of exactly the candidates, with their addresses.
pub proof fn law_candidates_are_announced(
    members: Seq<ReplicaDescriptor>,
    local_pid: Pid,
    connected: Set<Pid>,
    i: int,
    descriptor: ReplicaDescriptor,
    member: NetworkMember,
)
    ensures
        announcement(descriptor).pid == descriptor.pid,
        announcement(descriptor).address == descriptor.address,
        announcement(descriptor).final_counter == descriptor.final_counter,
        is_candidate(members, local_pid, connected, i) ==> announces_candidate(
            members,
            local_pid,
            connected,
            announcement(members[i]),
        ) && holds_candidate(members, local_pid, connected, members[i]),
        announces_candidate(members, local_pid, connected, member) ==> exists|k: int|
            0 <= k < members.len() && (#[trigger] members[k]).pid == member.pid
                && members[k].address == member.address && members[k].final_counter is None
                && member.final_counter is None,
        holds_candidate(members, local_pid, connected, descriptor) ==> members.contains(descriptor)
            && descriptor.pid != local_pid && descriptor.final_counter is None
            && !connected.contains(descriptor.pid),
{
    if announces_candidate(members, local_pid, connected, member) {
        let k = choose|k: int| #[trigger]
            is_candidate(members, local_pid, connected, k) && announcement(members[k]) == member;
        assert(members[k].pid == member.pid);
    }
}

/// Every listed replica but the stable one gets a row where it had none: with
/// its greatest epoch, and with nothing observed. Rows that were there stay.
pub proof fn law_discovered_replicas_get_a_row(
    matrix: MatrixView,
    members: Seq<ReplicaDescriptor>,
    pid: Pid,
    i: int,
)
    requires
        0 <= i < members.len(),
        members[i].pid == pid,
    ensures
        ({
            let after = with_discovered(matrix, members);
            &&& after.own_pid == matrix.own_pid
            &&& after.final_dots == matrix.final_dots
            &&& forall|p: Pid| #[trigger]
                matrix.rows.contains_key(p) ==> after.rows.contains_key(p) && after.rows[p]
                    == matrix.rows[p]
            &&& after.rows.contains_key(pid) <==> matrix.rows.contains_key(pid) || pid
                != STABLE_REPLICA_PID
            &&& forall|p: Pid| #[trigger]
                after.rows.contains_key(p) ==> matrix.rows.contains_key(p) || exists|j: int|
                    0 <= j < members.len() && (#[trigger] members[j]).pid == p
            &&& !matrix.rows.contains_key(pid) && pid != STABLE_REPLICA_PID ==> {
                let row = after.rows[pid];
                &&& row.dom() == set![pid, STABLE_REPLICA_PID]
                &&& row[pid] == -1
                &&& members[i].gc_counter <= row[STABLE_REPLICA_PID]
                &&& exists|j: int|
                    0 <= j < members.len() && (#[trigger] members[j]).pid == pid
                        && members[j].gc_counter == row[STABLE_REPLICA_PID]
            }
        }),
{
    let k = lemma_newest_place(members, pid, i, members.len() as int);
    assert(is_newest_epoch(members, pid, members[k].gc_counter));
    assert(is_newest_epoch(members, pid, newest_epoch(members, pid)));
    assert(is_listed(members, pid));
    let row = MatrixView::unseen_row(pid, newest_epoch(members, pid));
    assert(row.dom() =~= set![pid, STABLE_REPLICA_PID]);
}

/// The epoch of a replica in a listing is the greatest that one of its
/// descriptors has.
pub proof fn law_listed_epochs(
    members: Seq<ReplicaDescriptor>,
    pid: Pid,
    epoch: Counter,
    i: int,
)
    ensures
        is_newest_epoch(members, pid, epoch) && 0 <= i < members.len() && members[i].pid == pid
            ==> members[i].gc_counter <= epoch,
        is_newest_epoch(members, pid, epoch) ==> exists|j: int|
            0 <= j < members.len() && (#[trigger] members[j]).pid == pid && members[j].gc_counter
                == epoch,
        0 <= i < members.len() ==> is_listed(members, members[i].pid),
        is_listed(members, pid) ==> exists|j: int|
            0 <= j < members.len() && (#[trigger] members[j]).pid == pid,
{
}

/// The delay of a message is off the base latency by the jitter at most, down to
/// nothing.
pub proof fn law_delay_is_off_by_the_jitter(profile: NetworkLatencyProfile)
    ensures
        profile.jitter_ms == 0 ==> profile.least() == profile.base_latency_ms
            && profile.greatest() == profile.base_latency_ms,
        profile.jitter_ms <= profile.base_latency_ms ==> profile.least() + profile.jitter_ms
            == profile.base_latency_ms,
        profile.jitter_ms > profile.base_latency_ms ==> profile.least() == 0,
        profile.base_latency_ms + profile.jitter_ms <= u64::MAX ==> profile.greatest()
            == profile.base_latency_ms + profile.jitter_ms,
        profile.base_latency_ms + profile.jitter_ms > u64::MAX ==> profile.greatest() == u64::MAX,
{
}

} // verus!
