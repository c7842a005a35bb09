//! Which peers to connect to, and what becomes of the attempts.

use std::collections::{HashMap, HashSet};
use vstd::prelude::*;
use crate::crdt::{CRDTWrapper, STABLE_REPLICA_PID, WrapperView};
use crate::dots::dot_map::lemma_filter_next;
use crate::dots::{ascending, ascending_keys, lemma_take_next, Counter, MatrixView};
use crate::prelude::{random_between, Pid, SocketAddress};
use crate::replica_config::{interval_value, text_view};
use crate::replica_helpers::ReplicaDescriptor;
use crate::text::{chars_of, parse_u64};

pub mod manager;
pub mod operations;

pub use manager::{
    ConnectionResult, Handshake, NetworkAction, NetworkEvent, NetworkManager,
};

verus! {

broadcast use vstd::std_specs::hash::group_hash_axioms;

/// Whether a descriptor in the directory retires `pid`.
pub open spec fn is_retired(members: Seq<ReplicaDescriptor>, pid: Pid) -> bool {
    exists|i: int|
        0 <= i < members.len() && (#[trigger] members[i]).pid == pid && members[i].final_counter
            is Some
}

/// Whether a descriptor is that of a peer which no other descriptor retires.
pub open spec fn is_active(
    members: Seq<ReplicaDescriptor>,
    local_pid: Pid,
    descriptor: ReplicaDescriptor,
) -> bool {
    descriptor.pid != local_pid && !is_retired(members, descriptor.pid)
}

/// The descriptors of active peers.
pub open spec fn active(members: Seq<ReplicaDescriptor>, local_pid: Pid) -> Seq<
    ReplicaDescriptor,
> {
    members.filter(|descriptor: ReplicaDescriptor| is_active(members, local_pid, descriptor))
}

/// The replicas that the directory retires.
fn retired_pids(members: &Vec<ReplicaDescriptor>) -> (retired: HashSet<Pid>)
    ensures
        forall|p: Pid| #[trigger] retired@.contains(p) <==> is_retired(members@, p),
{
    let mut retired: HashSet<Pid> = HashSet::new();
    for i in 0..members.len()
        invariant
            forall|p: Pid| #[trigger]
                retired@.contains(p) <==> is_retired(members@.take(i as int), p),
    {
        let descriptor = members[i];
        let ghost before = retired@;
        if descriptor.is_shutdown() {
            retired.insert(descriptor.pid);
        }
        proof {
            let now = members@.take(i + 1);
            let earlier = members@.take(i as int);
            assert forall|p: Pid| #[trigger] retired@.contains(p) <==> is_retired(now, p) by {
                if is_retired(earlier, p) {
                    let k = choose|k: int|
                        0 <= k < earlier.len() && (#[trigger] earlier[k]).pid == p
                            && earlier[k].final_counter is Some;
                    assert(now[k] == earlier[k]);
                }
                if is_retired(now, p) {
                    let k = choose|k: int|
                        0 <= k < now.len() && (#[trigger] now[k]).pid == p && now[k].final_counter
                            is Some;
                    if k < i {
                        assert(earlier[k] == now[k]);
                    }
                }
                if descriptor.pid == p && descriptor.final_counter is Some {
                    assert(now[i as int] == descriptor);
                }
            }
        }
    }
    assert(members@.take(members@.len() as int) =~= members@);
    retired
}

/// The descriptors of active peers, in the order of the directory.
pub fn active_members(members: &Vec<ReplicaDescriptor>, local_pid: Pid) -> (found: Vec<
    ReplicaDescriptor,
>)
    ensures
        found@ == active(members@, local_pid),
{
    let retired = retired_pids(members);
    let ghost keep = |descriptor: ReplicaDescriptor|
        is_active(members@, local_pid, descriptor);
    let mut found: Vec<ReplicaDescriptor> = Vec::new();
    assert(members@.take(0).filter(keep) =~= Seq::empty()) by {
        reveal(Seq::filter);
    }
    for i in 0..members.len()
        invariant
            keep == (|descriptor: ReplicaDescriptor|
                is_active(members@, local_pid, descriptor)),
            forall|p: Pid| #[trigger] retired@.contains(p) <==> is_retired(members@, p),
            found@ == members@.take(i as int).filter(keep),
    {
        let descriptor = members[i];
        proof {
            lemma_filter_next(members@, keep, i as int);
        }
        if descriptor.pid != local_pid && !retired.contains(&descriptor.pid) {
            found.push(descriptor);
        }
    }
    assert(members@.take(members@.len() as int) =~= members@);
    found
}

/// Whether `epoch` is the greatest epoch that the list gives `pid`.
pub open spec fn is_newest_epoch(
    members: Seq<ReplicaDescriptor>,
    pid: Pid,
    epoch: Counter,
) -> bool {
    &&& exists|i: int|
        0 <= i < members.len() && (#[trigger] members[i]).pid == pid && members[i].gc_counter
            == epoch
    &&& forall|i: int|
        0 <= i < members.len() && (#[trigger] members[i]).pid == pid ==> members[i].gc_counter
            <= epoch
}

/// Whether the list has a descriptor of `pid`.
pub open spec fn is_listed(members: Seq<ReplicaDescriptor>, pid: Pid) -> bool {
    exists|i: int| 0 <= i < members.len() && (#[trigger] members[i]).pid == pid
}

/// The greatest epoch of each replica in a list.
pub fn membership_gc_counters_by_pid(members: &Vec<ReplicaDescriptor>) -> (epochs: HashMap<
    Pid,
    Counter,
>)
    ensures
        forall|p: Pid| #[trigger] epochs@.contains_key(p) <==> is_listed(members@, p),
        forall|p: Pid| #[trigger]
            epochs@.contains_key(p) ==> is_newest_epoch(members@, p, epochs@[p]),
{
    let mut epochs: HashMap<Pid, Counter> = HashMap::new();
    for i in 0..members.len()
        invariant
            forall|p: Pid| #[trigger]
                epochs@.contains_key(p) <==> is_listed(members@.take(i as int), p),
            forall|p: Pid| #[trigger]
                epochs@.contains_key(p) ==> is_newest_epoch(
                    members@.take(i as int),
                    p,
                    epochs@[p],
                ),
    {
        let descriptor = members[i];
        let ghost before = epochs@;
        let newer = match epochs.get(&descriptor.pid) {
            Some(epoch) => *epoch < descriptor.gc_counter,
            None => true,
        };
        if newer {
            epochs.insert(descriptor.pid, descriptor.gc_counter);
        }
        proof {
            let earlier = members@.take(i as int);
            let now = members@.take(i + 1);
            assert(now[i as int] == descriptor);
            assert forall|k: int| 0 <= k < i implies now[k] == #[trigger] earlier[k] by {}
            assert forall|p: Pid| #[trigger] epochs@.contains_key(p) <==> is_listed(now, p) by {
                if is_listed(earlier, p) {
                    let k = choose|k: int|
                        0 <= k < earlier.len() && (#[trigger] earlier[k]).pid == p;
                    assert(now[k].pid == p);
                }
                if is_listed(now, p) {
                    let k = choose|k: int| 0 <= k < now.len() && (#[trigger] now[k]).pid == p;
                    if k < i {
                        assert(earlier[k].pid == p);
                    }
                }
            }
            assert forall|p: Pid| #[trigger] epochs@.contains_key(p) implies is_newest_epoch(
                now,
                p,
                epochs@[p],
            ) by {
                if before.contains_key(p) {
                    assert(is_newest_epoch(earlier, p, before[p]));
                    let k = choose|k: int|
                        0 <= k < earlier.len() && (#[trigger] earlier[k]).pid == p
                            && earlier[k].gc_counter == before[p];
                    assert(now[k].pid == p && now[k].gc_counter == before[p]);
                }
                assert forall|k: int| 0 <= k < now.len() && (#[trigger] now[k]).pid == p implies
                    now[k].gc_counter <= epochs@[p] by {
                    if k < i {
                        assert(earlier[k].pid == p);
                        assert(is_listed(earlier, p));
                        assert(before.contains_key(p));
                    }
                }
                if p == descriptor.pid && newer {
                    assert(now[i as int].pid == p && now[i as int].gc_counter == epochs@[p]);
                }
            }
        }
    }
    assert(members@.take(members@.len() as int) =~= members@);
    epochs
}

/// Whether place `i` of the list holds the descriptor to connect by: the
/// replica is not connected yet, and no other place has a later epoch of it,
/// nor an earlier place the same.
pub open spec fn is_candidate(
    members: Seq<ReplicaDescriptor>,
    local_pid: Pid,
    connected: Set<Pid>,
    i: int,
) -> bool {
    &&& 0 <= i < members.len()
    &&& is_active(members, local_pid, members[i])
    &&& !connected.contains(members[i].pid)
    &&& forall|j: int|
        0 <= j < members.len() && (#[trigger] members[j]).pid == members[i].pid
            ==> members[j].gc_counter <= members[i].gc_counter && (j < i ==> members[j].gc_counter
            < members[i].gc_counter)
}

/// Whether a descriptor is that of a candidate.
pub open spec fn holds_candidate(
    members: Seq<ReplicaDescriptor>,
    local_pid: Pid,
    connected: Set<Pid>,
    descriptor: ReplicaDescriptor,
) -> bool {
    exists|i: int| #[trigger]
        is_candidate(members, local_pid, connected, i) && members[i] == descriptor
}

/// Return one current, connectable descriptor per peer PID, in ascending order
/// of the PIDs.
///
/// Membership descriptors are immutable and a replica publishes a new one
/// whenever its GC marker changes. A final descriptor retires the entire PID.
pub fn network_connection_candidates<'a>(
    members: &'a Vec<ReplicaDescriptor>,
    local_pid: Pid,
    connected_pids: &HashSet<Pid>,
) -> (candidates: Vec<&'a ReplicaDescriptor>)
    ensures
        forall|k: int|
            0 <= k < candidates@.len() ==> holds_candidate(
                members@,
                local_pid,
                connected_pids@,
                *(#[trigger] candidates@[k]),
            ),
        forall|i: int| #[trigger]
            is_candidate(members@, local_pid, connected_pids@, i) ==> exists|k: int|
                0 <= k < candidates@.len() && *(#[trigger] candidates@[k]) == members@[i],
        forall|k: int, l: int|
            0 <= k < l < candidates@.len() ==> (#[trigger] candidates@[k]).pid < (
            #[trigger] candidates@[l]).pid,
{
    let retired = retired_pids(members);
    let mut newest: HashMap<Pid, usize> = HashMap::new();
    for i in 0..members.len()
        invariant
            forall|p: Pid| #[trigger] retired@.contains(p) <==> is_retired(members@, p),
            forall|p: Pid| #[trigger]
                newest@.contains_key(p) <==> p != local_pid && !is_retired(members@, p)
                    && !connected_pids@.contains(p) && is_listed(members@.take(i as int), p),
            forall|p: Pid| #[trigger]
                newest@.contains_key(p) ==> newest@[p] < i && is_first_newest(
                    members@.take(i as int),
                    p,
                    newest@[p] as int,
                ),
    {
        let descriptor = members[i];
        let ghost before = newest@;
        let pid: Pid = descriptor.pid;
        let wanted = pid != local_pid && !retired.contains(&pid) && !connected_pids.contains(&pid);
        let mut newer = false;
        if wanted {
            newer = match newest.get(&pid) {
                Some(at) => {
                    assert(before.contains_key(pid));
                    members[*at].gc_counter < descriptor.gc_counter
                },
                None => true,
            };
            if newer {
                newest.insert(pid, i);
            }
        }
        proof {
            let earlier = members@.take(i as int);
            let now = members@.take(i + 1);
            assert(now[i as int] == descriptor);
            assert forall|k: int| 0 <= k < i implies now[k] == #[trigger] earlier[k] by {}
            assert forall|p: Pid| is_listed(now, p) <==> is_listed(earlier, p) || p == pid by {
                if is_listed(earlier, p) {
                    let k = choose|k: int|
                        0 <= k < earlier.len() && (#[trigger] earlier[k]).pid == p;
                    assert(now[k].pid == p);
                }
                if is_listed(now, p) {
                    let k = choose|k: int| 0 <= k < now.len() && (#[trigger] now[k]).pid == p;
                    if k < i {
                        assert(earlier[k].pid == p);
                    }
                }
            }
            assert forall|p: Pid| #[trigger] newest@.contains_key(p) implies newest@[p] < i + 1
                && is_first_newest(now, p, newest@[p] as int) by {
                let at = newest@[p] as int;
                if at < i {
                    assert(before.contains_key(p));
                    assert(is_first_newest(earlier, p, at));
                    assert(now[at] == earlier[at]);
                    assert(members@[at] == earlier[at]);
                }
                assert forall|j: int| 0 <= j < now.len() && (#[trigger] now[j]).pid == p implies
                    now[j].gc_counter <= now[at].gc_counter && (j < at ==> now[j].gc_counter
                    < now[at].gc_counter) by {
                    if j < i {
                        assert(earlier[j].pid == p);
                        assert(is_listed(earlier, p));
                        assert(before.contains_key(p));
                        assert(is_first_newest(earlier, p, before[p] as int));
                        assert(members@[before[p] as int] == earlier[before[p] as int]);
                    }
                }
            }
        }
    }
    assert(members@.take(members@.len() as int) =~= members@);
    let pids = ascending_keys(&newest);
    let mut candidates: Vec<&'a ReplicaDescriptor> = Vec::new();
    for k in 0..pids.len()
        invariant
            ascending(pids@),
            candidates@.len() == k,
            forall|p: Pid| #[trigger] pids@.contains(p) <==> newest@.contains_key(p),
            forall|p: Pid| #[trigger]
                newest@.contains_key(p) ==> newest@[p] < members@.len() && is_first_newest(
                    members@,
                    p,
                    newest@[p] as int,
                ),
            forall|l: int|
                0 <= l < k ==> *(#[trigger] candidates@[l]) == members@[newest@[pids@[l]] as int]
                    && candidates@[l].pid == pids@[l],
    {
        assert(pids@.contains(pids@[k as int]));
        if let Some(at) = newest.get(&pids[k]) {
            candidates.push(&members[*at]);
        }
    }
    proof {
        assert forall|l: int| 0 <= l < candidates@.len() implies holds_candidate(
            members@,
            local_pid,
            connected_pids@,
            *(#[trigger] candidates@[l]),
        ) by {
            let i = newest@[pids@[l]] as int;
            assert(pids@.contains(pids@[l]));
            assert(is_first_newest(members@, pids@[l], i));
            assert(is_candidate(members@, local_pid, connected_pids@, i));
            assert(*candidates@[l] == members@[i]);
        }
        assert forall|i: int| #[trigger]
            is_candidate(members@, local_pid, connected_pids@, i) implies exists|l: int|
            0 <= l < candidates@.len() && *(#[trigger] candidates@[l]) == members@[i] by {
            let pid = members@[i].pid;
            assert(is_listed(members@, pid));
            assert(newest@.contains_key(pid));
            assert(pids@.contains(pid));
            let l = choose|l: int| 0 <= l < pids@.len() && pids@[l] == pid;
            let j = newest@[pid] as int;
            assert(is_first_newest(members@, pid, j));
            assert(members@[j].pid == pid);
            assert(i == j);
            assert(*candidates@[l] == members@[i]);
        }
    }
    candidates
}

/// Whether place `at` holds the first of the newest descriptors of `pid`.
spec fn is_first_newest(members: Seq<ReplicaDescriptor>, pid: Pid, at: int) -> bool {
    &&& 0 <= at < members.len()
    &&& members[at].pid == pid
    &&& forall|j: int|
        0 <= j < members.len() && (#[trigger] members[j]).pid == pid ==> members[j].gc_counter
            <= members[at].gc_counter && (j < at ==> members[j].gc_counter
            < members[at].gc_counter)
}

/// The greatest epoch that a list gives `pid`.
pub open spec fn newest_epoch(members: Seq<ReplicaDescriptor>, pid: Pid) -> Counter {
    choose|epoch: Counter| is_newest_epoch(members, pid, epoch)
}

/// A matrix with a row for every listed replica: those that had none are known
/// by their newest epoch only.
pub open spec fn with_discovered(
    matrix: MatrixView,
    members: Seq<ReplicaDescriptor>,
) -> MatrixView {
    MatrixView {
        rows: Map::new(
            |p: Pid|
                matrix.rows.contains_key(p) || (p != STABLE_REPLICA_PID && is_listed(members, p)),
            |p: Pid|
                if matrix.rows.contains_key(p) {
                    matrix.rows[p]
                } else {
                    MatrixView::unseen_row(p, newest_epoch(members, p))
                },
        ),
        ..matrix
    }
}

/// A member of the network, as it is handed to the network manager.
#[derive(Debug, Clone, Copy, PartialEq, Eq, Structural)]
pub struct NetworkMember {
    pub pid: Pid,
    pub address: SocketAddress,
    pub final_counter: Option<Counter>,
}

/// What the network manager is told of a descriptor.
pub open spec fn announcement(descriptor: ReplicaDescriptor) -> NetworkMember {
    NetworkMember {
        pid: descriptor.pid,
        address: descriptor.address,
        final_counter: descriptor.final_counter,
    }
}

impl NetworkMember {
    /// Whether the member has left the network.
    pub fn is_shutdown(&self) -> (shutdown: bool)
        ensures
            shutdown == (self.final_counter is Some),
    {
        self.final_counter.is_some()
    }

    /// The member that a descriptor speaks of.
    pub fn from_descriptor(descriptor: &ReplicaDescriptor) -> (member: Self)
        ensures
            member == announcement(*descriptor),
    {
        NetworkMember {
            pid: descriptor.pid,
            address: descriptor.address,
            final_counter: descriptor.final_counter,
        }
    }
}

/// Makes room for every active peer in the version matrix.
fn observe_active_members(members: &Vec<ReplicaDescriptor>, crdt_wrapper: &mut CRDTWrapper)
    requires
        old(crdt_wrapper).wf(),
    ensures
        final(crdt_wrapper).wf(),
        final(crdt_wrapper)@ == (WrapperView {
            matrix: with_discovered(old(crdt_wrapper)@.matrix, members@),
            last: old(crdt_wrapper)@.last,
        }),
{
    let epochs = membership_gc_counters_by_pid(members);
    let pids = ascending_keys(&epochs);
    let ghost start = crdt_wrapper@;
    for i in 0..pids.len()
        invariant
            crdt_wrapper.wf(),
            start == old(crdt_wrapper)@,
            ascending(pids@),
            forall|p: Pid| #[trigger] pids@.contains(p) <==> epochs@.contains_key(p),
            forall|p: Pid| #[trigger] epochs@.contains_key(p) <==> is_listed(members@, p),
            forall|p: Pid| #[trigger]
                epochs@.contains_key(p) ==> is_newest_epoch(members@, p, epochs@[p]),
            crdt_wrapper@.last == start.last,
            crdt_wrapper@.matrix.own_pid == start.matrix.own_pid,
            crdt_wrapper@.matrix.final_dots == start.matrix.final_dots,
            forall|p: Pid| #[trigger]
                crdt_wrapper@.matrix.rows.contains_key(p) <==> start.matrix.rows.contains_key(p)
                    || (p != STABLE_REPLICA_PID && pids@.take(i as int).contains(p)),
            forall|p: Pid| #[trigger]
                crdt_wrapper@.matrix.rows.contains_key(p) ==> crdt_wrapper@.matrix.rows[p]
                    == with_discovered(start.matrix, members@).rows[p],
    {
        let pid: Pid = pids[i];
        assert(pids@.contains(pid));
        proof {
            lemma_take_next(pids@, i as int);
            assert(is_listed(members@, pid));
            assert(is_newest_epoch(members@, pid, newest_epoch(members@, pid)));
            assert(newest_epoch(members@, pid) == epochs@[pid]) by {
                lemma_newest_epoch_is_unique(
                    members@,
                    pid,
                    newest_epoch(members@, pid),
                    epochs@[pid],
                );
            }
        }
        if let Some(epoch) = epochs.get(&pid) {
            crdt_wrapper.observe_active_replica(pid, *epoch);
        }
    }
    proof {
        assert(pids@.take(pids@.len() as int) =~= pids@);
        assert(crdt_wrapper@.matrix.rows =~= with_discovered(start.matrix, members@).rows);
    }
}

/// A list gives a replica one greatest epoch at most.
proof fn lemma_newest_epoch_is_unique(
    members: Seq<ReplicaDescriptor>,
    pid: Pid,
    a: Counter,
    b: Counter,
)
    requires
        is_newest_epoch(members, pid, a),
        is_newest_epoch(members, pid, b),
    ensures
        a == b,
{
}

/// Takes in a listing of the membership directory: every active peer gets a
/// row in the version matrix, and those to connect to are returned, in
/// ascending order of their PIDs.
pub fn enqueue_members(
    local_pid: Pid,
    members: &Vec<ReplicaDescriptor>,
    connected_pids: &HashSet<Pid>,
    crdt_wrapper: &mut CRDTWrapper,
) -> (announced: Vec<NetworkMember>)
    requires
        old(crdt_wrapper).wf(),
    ensures
        final(crdt_wrapper).wf(),
        final(crdt_wrapper)@ == (WrapperView {
            matrix: with_discovered(old(crdt_wrapper)@.matrix, active(members@, local_pid)),
            last: old(crdt_wrapper)@.last,
        }),
        forall|k: int|
            0 <= k < announced@.len() ==> announces_candidate(
                members@,
                local_pid,
                connected_pids@,
                #[trigger] announced@[k],
            ),
        forall|i: int| #[trigger]
            is_candidate(members@, local_pid, connected_pids@, i) ==> exists|k: int|
                0 <= k < announced@.len() && #[trigger] announced@[k] == announcement(members@[i]),
        forall|k: int, l: int|
            0 <= k < l < announced@.len() ==> (#[trigger] announced@[k]).pid < (
            #[trigger] announced@[l]).pid,
{
    observe_active_members(&active_members(members, local_pid), crdt_wrapper);
    let candidates = network_connection_candidates(members, local_pid, connected_pids);
    let mut announced: Vec<NetworkMember> = Vec::new();
    for k in 0..candidates.len()
        invariant
            announced@.len() == k,
            forall|l: int|
                0 <= l < k ==> #[trigger] announced@[l] == announcement(*candidates@[l]),
    {
        announced.push(NetworkMember::from_descriptor(candidates[k]));
    }
    proof {
        assert forall|k: int| 0 <= k < announced@.len() implies announces_candidate(
            members@,
            local_pid,
            connected_pids@,
            #[trigger] announced@[k],
        ) by {
            assert(holds_candidate(members@, local_pid, connected_pids@, *candidates@[k]));
        }
        assert forall|i: int| #[trigger]
            is_candidate(members@, local_pid, connected_pids@, i) implies exists|k: int|
            0 <= k < announced@.len() && #[trigger] announced@[k] == announcement(
                members@[i],
            ) by {
            let k = choose|k: int|
                0 <= k < candidates@.len() && *(#[trigger] candidates@[k]) == members@[i];
            assert(announced@[k] == announcement(members@[i]));
        }
    }
    announced
}

/// Whether `member` speaks of a candidate.
pub open spec fn announces_candidate(
    members: Seq<ReplicaDescriptor>,
    local_pid: Pid,
    connected: Set<Pid>,
    member: NetworkMember,
) -> bool {
    exists|i: int| #[trigger]
        is_candidate(members, local_pid, connected, i) && announcement(members[i]) == member
}

/// One of the peers, drawn at random, to exchange state with.
pub fn random_peer(peers: &Vec<Pid>) -> (peer: Option<Pid>)
    ensures
        match peer {
            Some(pid) => peers@.contains(pid),
            None => peers@.len() == 0,
        },
{
    if peers.len() == 0 {
        return None;
    }
    let drawn: u128 = random_between(0, (peers.len() - 1) as u128);
    peer_at(peers, drawn)
}

/// The peer at the index that was drawn.
pub fn peer_at(peers: &Vec<Pid>, drawn: u128) -> (peer: Option<Pid>)
    ensures
        peer == if drawn < peers@.len() {
            Some(peers@[drawn as int])
        } else {
            None
        },
{
    if drawn < peers.len() as u128 {
        Some(peers[drawn as usize])
    } else {
        None
    }
}

/// The delay that is added to every message, to imitate a slow network.
#[derive(Debug, Clone, Copy, PartialEq, Eq, Structural)]
pub struct NetworkLatencyProfile {
    pub base_latency_ms: u64,
    pub jitter_ms: u64,
}

impl NetworkLatencyProfile {
    /// The profile that two optional texts set. A text that is no whole number
    /// of milliseconds is refused.
    pub fn from_values(base_latency: &Option<String>, jitter: &Option<String>) -> (profile: Option<
        Self,
    >)
        ensures
            profile == match (
                interval_value(text_view(*base_latency), 0),
                interval_value(text_view(*jitter), 0),
            ) {
                (Some(base_latency_ms), Some(jitter_ms)) => Some(
                    NetworkLatencyProfile { base_latency_ms, jitter_ms },
                ),
                _ => None,
            },
    {
        match (interval_ms(base_latency), interval_ms(jitter)) {
            (Some(base_latency_ms), Some(jitter_ms)) => Some(
                NetworkLatencyProfile { base_latency_ms, jitter_ms },
            ),
            _ => None,
        }
    }

    /// Whether there is any delay.
    pub fn is_enabled(&self) -> (enabled: bool)
        ensures
            enabled == (self.base_latency_ms != 0 || self.jitter_ms != 0),
    {
        self.base_latency_ms != 0 || self.jitter_ms != 0
    }

    /// The least delay.
    pub open spec fn least(self) -> int {
        if self.jitter_ms <= self.base_latency_ms {
            self.base_latency_ms - self.jitter_ms
        } else {
            0
        }
    }

    /// The greatest delay.
    pub open spec fn greatest(self) -> int {
        if self.base_latency_ms + self.jitter_ms <= u64::MAX {
            self.base_latency_ms + self.jitter_ms
        } else {
            u64::MAX as int
        }
    }

    /// The least and the greatest delay, in milliseconds.
    pub fn delay_bounds(&self) -> (bounds: (u64, u64))
        ensures
            bounds.0 == self.least(),
            bounds.1 == self.greatest(),
            bounds.0 <= bounds.1,
    {
        (
            self.base_latency_ms.saturating_sub(self.jitter_ms),
            self.base_latency_ms.saturating_add(self.jitter_ms),
        )
    }

    /// The delay of one message, in milliseconds: the base latency, off by the
    /// jitter at most.
    pub fn sample_delay(&self) -> (delay_ms: u64)
        ensures
            self.least() <= delay_ms <= self.greatest(),
    {
        if self.jitter_ms == 0 {
            return self.base_latency_ms;
        }
        let (lower, upper) = self.delay_bounds();
        random_between(lower as u128, upper as u128) as u64
    }
}

/// The milliseconds that an optional text sets; none without a text.
fn interval_ms(text: &Option<String>) -> (millis: Option<u64>)
    ensures
        millis == interval_value(text_view(*text), 0),
{
    match text {
        None => Some(0),
        Some(text) => parse_u64(&chars_of(text.as_str())),
    }
}

} // verus!
