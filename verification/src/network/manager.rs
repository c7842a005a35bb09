//! The network manager: which members are connected, which are being tried and
//! which are gone for good.

use std::collections::{HashMap, HashSet};
use vstd::prelude::*;
use super::NetworkMember;
use crate::prelude::{address_precedes, law_addresses_are_ordered, Pid, ServerAddr, SocketAddress};

verus! {

broadcast use vstd::std_specs::hash::group_hash_axioms;

/// How long a connection and a handshake may take, in milliseconds.
pub const CONNECTION_TIMEOUT_MS: u64 = 5_000;

/// The longest wait before a member is tried again, in seconds.
pub const MAX_CONNECTION_RETRY_BACKOFF_SECS: u64 = 30;

/// What became of a connection attempt. An attempt that the peer began expects
/// nobody in particular.
#[derive(Debug, Clone, Copy, PartialEq, Eq, Structural)]
pub enum ConnectionResult {
    Established { expected_pid: Option<Pid>, peer_pid: Pid },
    Failed { expected_pid: Option<Pid> },
}

/// What became of the exchange of PIDs that opens a connection.
#[derive(Debug, Clone, Copy, PartialEq, Eq, Structural)]
pub enum Handshake {
    Completed(Pid),
    Failed,
    TimedOut,
    NotReady,
}

/// What the network manager hears of.
#[derive(Debug, Clone, Copy, PartialEq, Eq, Structural)]
pub enum NetworkEvent {
    /// A peer has connected.
    Accepted,
    /// A peer could not be accepted.
    AcceptFailed,
    /// The replica speaks of a member.
    Member(NetworkMember),
    /// An attempt has ended.
    Result(ConnectionResult),
    /// The replica was offered the channel to a peer.
    Registration { pid: Pid, taken: bool },
    /// The replica shuts down.
    Shutdown,
}

/// What the network manager wants done.
#[derive(Debug, Clone, Copy, PartialEq, Eq, Structural)]
pub enum NetworkAction {
    /// Exchange PIDs on the connection that was accepted.
    Handshake,
    /// Connect to a member.
    Connect(NetworkMember),
    /// Offer the replica the channel to a peer.
    Register(Pid),
    /// Close the connection in question.
    Abort,
    /// Wait for the next event.
    Wait,
    /// End every connection.
    Stop,
}

/// The result of an attempt, as the handshake decides it.
pub open spec fn outcome(expected_pid: Option<Pid>, handshake: Handshake) -> ConnectionResult {
    match handshake {
        Handshake::Completed(peer_pid) => ConnectionResult::Established { expected_pid, peer_pid },
        _ => ConnectionResult::Failed { expected_pid },
    }
}

/// The result of an attempt, as the handshake decides it.
pub fn connection_outcome(expected_pid: Option<Pid>, handshake: Handshake) -> (result:
    ConnectionResult)
    ensures
        result == outcome(expected_pid, handshake),
{
    match handshake {
        Handshake::Completed(peer_pid) => ConnectionResult::Established { expected_pid, peer_pid },
        Handshake::Failed | Handshake::TimedOut | Handshake::NotReady => ConnectionResult::Failed {
            expected_pid,
        },
    }
}

/// Two to the power of `n`.
pub open spec fn doubled(n: nat) -> nat
    decreases n,
{
    if n == 0 {
        1
    } else {
        2 * doubled((n - 1) as nat)
    }
}

/// The wait after so many failures in a row, in seconds: it doubles with each
/// of them, up to a limit.
pub open spec fn backoff(failures: u32) -> nat {
    let grown = doubled(if failures < 5 {
        failures as nat
    } else {
        5
    });
    if grown < MAX_CONNECTION_RETRY_BACKOFF_SECS {
        grown
    } else {
        MAX_CONNECTION_RETRY_BACKOFF_SECS as nat
    }
}

/// The wait after so many failures in a row, in seconds.
pub fn retry_backoff_secs(failures: u32) -> (secs: u64)
    ensures
        secs == backoff(failures),
{
    let exponent: u32 = if failures < 5 {
        failures
    } else {
        5
    };
    let multiplier: u64 = 1u64 << exponent;
    proof {
        reveal_with_fuel(doubled, 6);
        assert(1u64 << 0 == 1 && 1u64 << 1 == 2 && 1u64 << 2 == 4 && 1u64 << 3 == 8 && 1u64 << 4
            == 16 && 1u64 << 5 == 32) by (bit_vector);
    }
    if multiplier < MAX_CONNECTION_RETRY_BACKOFF_SECS {
        multiplier
    } else {
        MAX_CONNECTION_RETRY_BACKOFF_SECS
    }
}

/// The state of the network manager of a replica. Times are milliseconds of
/// one monotonic clock.
#[derive(Debug)]
pub struct NetworkManager {
    pub pid: Pid,
    pub address: ServerAddr,
    dead_members: HashSet<Pid>,
    connected_members: HashSet<Pid>,
    connecting_members: HashSet<Pid>,
    connection_retry_at: HashMap<Pid, u64>,
    connection_failures: HashMap<Pid, u32>,
}

/// The meaning of a [`NetworkManager`].
#[verifier::ext_equal]
pub struct ManagerView {
    pub pid: Pid,
    pub address: SocketAddress,
    pub dead: Set<Pid>,
    pub connected: Set<Pid>,
    pub connecting: Set<Pid>,
    pub retry_at: Map<Pid, u64>,
    pub failures: Map<Pid, u32>,
}

impl View for NetworkManager {
    type V = ManagerView;

    closed spec fn view(&self) -> ManagerView {
        ManagerView {
            pid: self.pid,
            address: SocketAddress {
                ip: self.address.ip,
                port: self.address.internal_port,
                flow_info: 0,
                scope_id: 0,
            },
            dead: self.dead_members@,
            connected: self.connected_members@,
            connecting: self.connecting_members@,
            retry_at: self.connection_retry_at@,
            failures: self.connection_failures@,
        }
    }
}

impl ManagerView {
    /// No member that is gone for good is connected or being tried.
    pub open spec fn wf(self) -> bool {
        forall|p: Pid| #[trigger]
            self.dead.contains(p) ==> !self.connected.contains(p) && !self.connecting.contains(p)
    }

    /// Whether a member is to be connected to now. Of two members only the one
    /// with the lesser address begins, so that they do not meet half way.
    pub open spec fn connects_to(self, member: NetworkMember, now_ms: u64) -> bool {
        &&& member.final_counter is None
        &&& member.pid != self.pid
        &&& address_precedes(self.address, member.address)
        &&& !self.dead.contains(member.pid)
        &&& !self.connected.contains(member.pid)
        &&& !self.connecting.contains(member.pid)
        &&& self.retry_at.contains_key(member.pid) ==> self.retry_at[member.pid] <= now_ms
    }

    /// The state after the replica spoke of a member.
    pub open spec fn told_of(self, member: NetworkMember, now_ms: u64) -> ManagerView {
        if member.final_counter is Some {
            ManagerView {
                dead: self.dead.insert(member.pid),
                connected: self.connected.remove(member.pid),
                connecting: self.connecting.remove(member.pid),
                retry_at: self.retry_at.remove(member.pid),
                failures: self.failures.remove(member.pid),
                ..self
            }
        } else if self.connects_to(member, now_ms) {
            ManagerView { connecting: self.connecting.insert(member.pid), ..self }
        } else {
            self
        }
    }

    /// The failures in a row of a member, once one more is counted.
    pub open spec fn next_failures(self, pid: Pid) -> u32 {
        let failures: u32 = if self.failures.contains_key(pid) {
            self.failures[pid]
        } else {
            0
        };
        if failures < u32::MAX {
            (failures + 1) as u32
        } else {
            u32::MAX
        }
    }

    /// When a member is tried again, once one more failure is counted.
    pub open spec fn next_retry(self, pid: Pid, now_ms: u64) -> u64 {
        let at = now_ms + 1000 * backoff(self.next_failures(pid));
        if at <= u64::MAX {
            at as u64
        } else {
            u64::MAX
        }
    }

    /// The state once the attempt to reach a member is over.
    pub open spec fn no_longer_trying(self, expected_pid: Option<Pid>) -> ManagerView {
        match expected_pid {
            Some(pid) => ManagerView {
                connecting: self.connecting.remove(pid),
                retry_at: self.retry_at.remove(pid),
                failures: self.failures.remove(pid),
                ..self
            },
            None => self,
        }
    }

    /// Whether a connection that was established is kept: it leads to the
    /// expected member, which is neither gone nor connected already.
    pub open spec fn keeps(self, expected_pid: Option<Pid>, peer_pid: Pid) -> bool {
        &&& expected_pid is Some ==> expected_pid == Some(peer_pid)
        &&& !self.dead.contains(peer_pid)
        &&& !self.connected.contains(peer_pid)
    }

    /// The state after an attempt.
    pub open spec fn after_attempt(self, result: ConnectionResult, now_ms: u64) -> ManagerView {
        match result {
            ConnectionResult::Failed { expected_pid: Some(pid) } => ManagerView {
                connecting: self.connecting.remove(pid),
                failures: self.failures.insert(pid, self.next_failures(pid)),
                retry_at: self.retry_at.insert(pid, self.next_retry(pid, now_ms)),
                ..self
            },
            ConnectionResult::Failed { expected_pid: None } => self,
            ConnectionResult::Established { expected_pid, peer_pid } => {
                let rest = self.no_longer_trying(expected_pid);
                if self.keeps(expected_pid, peer_pid) {
                    ManagerView { connected: rest.connected.insert(peer_pid), ..rest }
                } else {
                    rest
                }
            },
        }
    }

    /// The state after an event.
    pub open spec fn after(self, event: NetworkEvent, now_ms: u64) -> ManagerView {
        match event {
            NetworkEvent::Member(member) => self.told_of(member, now_ms),
            NetworkEvent::Result(result) => self.after_attempt(result, now_ms),
            NetworkEvent::Registration { pid, taken: false } => ManagerView {
                connected: self.connected.remove(pid),
                ..self
            },
            _ => self,
        }
    }

    /// What an event asks for.
    pub open spec fn answer(self, event: NetworkEvent, now_ms: u64) -> NetworkAction {
        match event {
            NetworkEvent::Accepted => NetworkAction::Handshake,
            NetworkEvent::Member(member) => if self.connects_to(member, now_ms) {
                NetworkAction::Connect(member)
            } else {
                NetworkAction::Wait
            },
            NetworkEvent::Result(ConnectionResult::Established { expected_pid, peer_pid }) =>
            if self.keeps(expected_pid, peer_pid) {
                NetworkAction::Register(peer_pid)
            } else {
                NetworkAction::Abort
            },
            NetworkEvent::Registration { pid, taken: false } => NetworkAction::Abort,
            NetworkEvent::Shutdown => NetworkAction::Stop,
            _ => NetworkAction::Wait,
        }
    }
}

impl NetworkManager {
    /// The manager of a replica that knows of no member.
    pub fn new(address: ServerAddr, pid: Pid) -> (manager: Self)
        ensures
            manager@ == (ManagerView {
                pid,
                address: SocketAddress {
                    ip: address.ip,
                    port: address.internal_port,
                    flow_info: 0,
                    scope_id: 0,
                },
                dead: Set::empty(),
                connected: Set::empty(),
                connecting: Set::empty(),
                retry_at: Map::empty(),
                failures: Map::empty(),
            }),
            manager@.wf(),
    {
        NetworkManager {
            pid,
            address,
            dead_members: HashSet::new(),
            connected_members: HashSet::new(),
            connecting_members: HashSet::new(),
            connection_retry_at: HashMap::new(),
            connection_failures: HashMap::new(),
        }
    }

    /// Takes in what the replica says of a member. Returns whether to connect
    /// to it.
    pub fn handle_new_member(&mut self, member: NetworkMember, now_ms: u64) -> (connect: bool)
        requires
            old(self)@.wf(),
        ensures
            final(self)@.wf(),
            final(self)@ == old(self)@.told_of(member, now_ms),
            connect == old(self)@.connects_to(member, now_ms),
    {
        if member.is_shutdown() {
            self.dead_members.insert(member.pid);
            self.connecting_members.remove(&member.pid);
            self.connected_members.remove(&member.pid);
            self.connection_retry_at.remove(&member.pid);
            self.connection_failures.remove(&member.pid);
            return false;
        }
        let waits = match self.connection_retry_at.get(&member.pid) {
            Some(retry_at) => *retry_at > now_ms,
            None => false,
        };
        if member.pid == self.pid || !self.address.internal().precedes(&member.address)
            || self.dead_members.contains(&member.pid) || self.connected_members.contains(
            &member.pid,
        ) || self.connecting_members.contains(&member.pid) || waits {
            return false;
        }
        self.connecting_members.insert(member.pid);
        true
    }

    /// Takes in what became of an attempt, and says what to do with the
    /// connection.
    pub fn handle_connection_result(&mut self, result: ConnectionResult, now_ms: u64) -> (action:
        NetworkAction)
        requires
            old(self)@.wf(),
        ensures
            final(self)@.wf(),
            final(self)@ == old(self)@.after_attempt(result, now_ms),
            action == old(self)@.answer(NetworkEvent::Result(result), now_ms),
    {
        match result {
            ConnectionResult::Failed { expected_pid } => {
                if let Some(pid) = expected_pid {
                    self.count_failure(pid, now_ms);
                }
                NetworkAction::Wait
            },
            ConnectionResult::Established { expected_pid, peer_pid } => {
                if let Some(expected_pid) = expected_pid {
                    self.connecting_members.remove(&expected_pid);
                    self.connection_retry_at.remove(&expected_pid);
                    self.connection_failures.remove(&expected_pid);
                    if peer_pid != expected_pid {
                        return NetworkAction::Abort;
                    }
                }
                if self.dead_members.contains(&peer_pid) || self.connected_members.contains(
                    &peer_pid,
                ) {
                    return NetworkAction::Abort;
                }
                self.connected_members.insert(peer_pid);
                NetworkAction::Register(peer_pid)
            },
        }
    }

    /// Counts a failed attempt, and puts the next one off.
    fn count_failure(&mut self, pid: Pid, now_ms: u64)
        requires
            old(self)@.wf(),
        ensures
            final(self)@.wf(),
            final(self)@ == old(self)@.after_attempt(
                ConnectionResult::Failed { expected_pid: Some(pid) },
                now_ms,
            ),
    {
        self.connecting_members.remove(&pid);
        let failures: u32 = match self.connection_failures.get(&pid) {
            Some(failures) => failures.saturating_add(1),
            None => 1,
        };
        let delay_ms: u64 = 1000 * retry_backoff_secs(failures);
        self.connection_failures.insert(pid, failures);
        self.connection_retry_at.insert(pid, now_ms.saturating_add(delay_ms));
    }

    /// Takes back the registration of a peer whose channel the replica could
    /// not take.
    pub fn withdraw(&mut self, pid: Pid)
        requires
            old(self)@.wf(),
        ensures
            final(self)@.wf(),
            final(self)@ == (ManagerView {
                connected: old(self)@.connected.remove(pid),
                ..old(self)@
            }),
    {
        self.connected_members.remove(&pid);
    }

    /// Takes in one event, and says what it asks for.
    pub fn step(&mut self, event: NetworkEvent, now_ms: u64) -> (action: NetworkAction)
        requires
            old(self)@.wf(),
        ensures
            final(self)@.wf(),
            final(self)@ == old(self)@.after(event, now_ms),
            action == old(self)@.answer(event, now_ms),
    {
        match event {
            NetworkEvent::Accepted => NetworkAction::Handshake,
            NetworkEvent::AcceptFailed => NetworkAction::Wait,
            NetworkEvent::Member(member) => {
                if self.handle_new_member(member, now_ms) {
                    NetworkAction::Connect(member)
                } else {
                    NetworkAction::Wait
                }
            },
            NetworkEvent::Result(result) => self.handle_connection_result(result, now_ms),
            NetworkEvent::Registration { pid, taken } => {
                if taken {
                    NetworkAction::Wait
                } else {
                    self.withdraw(pid);
                    NetworkAction::Abort
                }
            },
            NetworkEvent::Shutdown => NetworkAction::Stop,
        }
    }
}

/// Of two members with different addresses exactly one connects to the other,
/// as far as their addresses go; of two with the same address neither does.
pub proof fn law_one_side_connects(
    a: ManagerView,
    b: ManagerView,
    of_a: NetworkMember,
    of_b: NetworkMember,
    now_ms: u64,
)
    requires
        of_a.address == a.address,
        of_b.address == b.address,
    ensures
        !(a.connects_to(of_b, now_ms) && b.connects_to(of_a, now_ms)),
        a.address != b.address ==> (address_precedes(a.address, of_b.address)
            <==> !address_precedes(b.address, of_a.address)),
        a.address == b.address ==> !a.connects_to(of_b, now_ms) && !b.connects_to(of_a, now_ms),
{
    law_addresses_are_ordered(a.address, b.address, a.address);
}

/// A member that has shut down is gone for good: whatever happens next, it is
/// neither connected nor tried, and no event leads to a connection with it.
pub proof fn law_departure_is_final(
    manager: ManagerView,
    pid: Pid,
    event: NetworkEvent,
    now_ms: u64,
)
    requires
        manager.wf(),
        manager.dead.contains(pid),
    ensures
        manager.after(event, now_ms).wf(),
        manager.after(event, now_ms).dead.contains(pid),
        !manager.after(event, now_ms).connected.contains(pid),
        !manager.after(event, now_ms).connecting.contains(pid),
        forall|member: NetworkMember|
            member.pid == pid ==> manager.answer(event, now_ms) != NetworkAction::Connect(member),
        manager.answer(event, now_ms) != NetworkAction::Register(pid),
{
}

/// After a shutdown announcement the member is gone.
pub proof fn law_shutdown_retires_the_member(
    manager: ManagerView,
    member: NetworkMember,
    now_ms: u64,
)
    requires
        manager.wf(),
        member.final_counter is Some,
    ensures
        manager.after(NetworkEvent::Member(member), now_ms).dead.contains(member.pid),
        manager.answer(NetworkEvent::Member(member), now_ms) == NetworkAction::Wait,
{
}

/// A peer is registered once at most: while it is connected no event registers
/// it again or begins another attempt.
pub proof fn law_one_connection_per_peer(
    manager: ManagerView,
    pid: Pid,
    event: NetworkEvent,
    now_ms: u64,
)
    requires
        manager.connected.contains(pid),
    ensures
        manager.answer(event, now_ms) != NetworkAction::Register(pid),
        forall|member: NetworkMember|
            member.pid == pid ==> manager.answer(event, now_ms) != NetworkAction::Connect(member),
{
}

/// While an attempt is under way no other begins.
pub proof fn law_one_attempt_at_a_time(
    manager: ManagerView,
    member: NetworkMember,
    now_ms: u64,
    later_ms: u64,
)
    requires
        manager.connects_to(member, now_ms),
    ensures
        !manager.told_of(member, now_ms).connects_to(member, later_ms),
{
}

/// The wait grows with the failures and stays between two and thirty seconds.
pub proof fn law_backoff_is_bounded(fewer: u32, more: u32)
    requires
        1 <= fewer <= more,
    ensures
        2 <= backoff(fewer) <= backoff(more) <= 30,
{
    reveal_with_fuel(doubled, 6);
}

/// A member that could not be reached is left alone until its wait is over,
/// and may be tried again then.
pub proof fn law_failure_puts_off(
    manager: ManagerView,
    member: NetworkMember,
    now_ms: u64,
    later_ms: u64,
)
    requires
        manager.connects_to(member, now_ms),
        now_ms + 30_000 <= u64::MAX,
    ensures
        ({
            let trying = manager.told_of(member, now_ms);
            let failed = trying.after_attempt(
                ConnectionResult::Failed { expected_pid: Some(member.pid) },
                now_ms,
            );
            failed.connects_to(member, later_ms) <==> now_ms + 1000 * backoff(
                manager.next_failures(member.pid),
            ) <= later_ms
        }),
{
    let failures = manager.next_failures(member.pid);
    law_backoff_is_bounded(failures, failures);
}

} // verus!
