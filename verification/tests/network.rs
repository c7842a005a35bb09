use std::collections::HashSet;

use gresse::crdt::CRDTWrapper;
use gresse::dots::Counter;
use gresse::network::manager::{
    connection_outcome, retry_backoff_secs, ConnectionResult, Handshake, NetworkAction,
    NetworkEvent, NetworkManager,
};
use gresse::network::{
    active_members, enqueue_members, membership_gc_counters_by_pid, network_connection_candidates,
    peer_at, random_peer, NetworkLatencyProfile, NetworkMember,
};
use gresse::prelude::{IpAddress, Pid, ServerAddr, SocketAddress};
use gresse::replica_helpers::ReplicaDescriptor;

fn loopback(port: u16) -> SocketAddress {
    SocketAddress::new(IpAddress::V4(0x7f00_0001), port)
}

fn membership_descriptor(
    pid: Pid,
    gc_counter: Counter,
    final_counter: Option<Counter>,
) -> ReplicaDescriptor {
    ReplicaDescriptor {
        pid,
        address: loopback(19080),
        gc_counter,
        final_counter,
    }
}

fn manager(pid: Pid, internal_port: u16) -> NetworkManager {
    NetworkManager::new(
        ServerAddr {
            ip: IpAddress::V4(0x7f00_0001),
            http_port: 9090,
            internal_port,
        },
        pid,
    )
}

fn member(pid: Pid, port: u16, final_counter: Option<Counter>) -> NetworkMember {
    NetworkMember {
        pid,
        address: loopback(port),
        final_counter,
    }
}

#[test]
fn network_connection_candidates_deduplicates_and_skips_departed_members() {
    let members = vec![
        membership_descriptor(1, 1, None),
        membership_descriptor(1, 2, None),
        membership_descriptor(2, 1, None),
        membership_descriptor(2, 2, Some(9)),
        membership_descriptor(3, 1, None),
        membership_descriptor(4, 1, None),
    ];
    let connected_pids = HashSet::from([4]);

    let candidates = network_connection_candidates(&members, 3, &connected_pids);

    assert_eq!(candidates.len(), 1);
    assert_eq!(candidates[0].pid, 1);
    assert_eq!(candidates[0].gc_counter, 2);
}

#[test]
fn candidates_come_in_order_and_the_first_of_equals_wins() {
    let mut first = membership_descriptor(9, 5, None);
    first.address = loopback(1);
    let mut second = membership_descriptor(9, 5, None);
    second.address = loopback(2);
    let members = vec![first, second, membership_descriptor(2, 0, None)];

    let candidates = network_connection_candidates(&members, 1, &HashSet::new());

    let found: Vec<(Pid, SocketAddress)> = candidates.iter().map(|d| (d.pid, d.address)).collect();
    assert_eq!(found, vec![(2, loopback(19080)), (9, loopback(1))]);
}

#[test]
fn newest_epochs_are_counted_per_replica() {
    let members = vec![
        membership_descriptor(1, 4, None),
        membership_descriptor(1, 2, Some(3)),
        membership_descriptor(2, -1, None),
    ];
    let epochs = membership_gc_counters_by_pid(&members);
    assert_eq!(epochs.len(), 2);
    assert_eq!(epochs[&1], 4);
    assert_eq!(epochs[&2], -1);
    assert_eq!(active_members(&members, 7), vec![members[2]]);
}

#[test]
fn enqueued_members_get_rows_and_are_announced() {
    let mut wrapper = CRDTWrapper::new(3);
    let members = vec![
        membership_descriptor(1, 4, None),
        membership_descriptor(1, 6, None),
        membership_descriptor(2, 1, Some(8)),
        membership_descriptor(3, 1, None),
        membership_descriptor(4, 2, None),
    ];

    let announced = enqueue_members(3, &members, &HashSet::from([4]), &mut wrapper);

    assert_eq!(announced, vec![NetworkMember::from_descriptor(&members[1])]);
    let row = wrapper.version_matrix.row(&1).expect("row of an active peer");
    assert_eq!(row.counter(&1), Some(-1));
    assert_eq!(*row.gc_counter(), 6);
    assert!(wrapper.version_matrix.row(&4).is_some());
    assert!(wrapper.version_matrix.row(&2).is_none());
}

#[test]
fn latency_is_off_by_the_jitter_at_most() {
    let quiet = NetworkLatencyProfile::from_values(&None, &None).expect("no latency");
    assert!(!quiet.is_enabled());
    assert_eq!(quiet.sample_delay(), 0);

    let fixed = NetworkLatencyProfile::from_values(&Some("40".to_string()), &None).unwrap();
    assert!(fixed.is_enabled());
    assert_eq!(fixed.sample_delay(), 40);

    let jittered =
        NetworkLatencyProfile::from_values(&Some("40".to_string()), &Some("15".to_string()))
            .unwrap();
    assert_eq!(jittered.delay_bounds(), (25, 55));
    for _ in 0..200 {
        let delay = jittered.sample_delay();
        assert!((25..=55).contains(&delay));
    }
    let wide = NetworkLatencyProfile {
        base_latency_ms: 5,
        jitter_ms: 50,
    };
    assert_eq!(wide.delay_bounds(), (0, 55));
    for _ in 0..200 {
        assert!(wide.sample_delay() <= 55);
    }
    let endless = NetworkLatencyProfile {
        base_latency_ms: u64::MAX,
        jitter_ms: 1,
    };
    assert_eq!(endless.delay_bounds(), (u64::MAX - 1, u64::MAX));

    assert!(NetworkLatencyProfile::from_values(&Some("soon".to_string()), &None).is_none());
    assert!(NetworkLatencyProfile::from_values(&None, &Some("-1".to_string())).is_none());
}

#[test]
fn a_random_peer_is_one_of_the_peers() {
    assert_eq!(random_peer(&Vec::new()), None);
    assert_eq!(random_peer(&vec![8]), Some(8));
    let peers = vec![5, 6, 7];
    assert_eq!(peer_at(&peers, 0), Some(5));
    assert_eq!(peer_at(&peers, 2), Some(7));
    assert_eq!(peer_at(&peers, 3), None);
    for _ in 0..100 {
        assert!(peers.contains(&random_peer(&peers).unwrap()));
    }
}

#[test]
fn backoff_doubles_up_to_thirty_seconds() {
    let waits: Vec<u64> = (0..8).map(retry_backoff_secs).collect();
    assert_eq!(waits, vec![1, 2, 4, 8, 16, 30, 30, 30]);
    assert_eq!(retry_backoff_secs(u32::MAX), 30);
}

#[test]
fn only_the_lesser_address_connects() {
    let mut low = manager(1, 100);
    let mut high = manager(2, 200);
    assert!(low.handle_new_member(member(2, 200, None), 0));
    assert!(!high.handle_new_member(member(1, 100, None), 0));
    // the same address, and the own PID
    assert!(!low.handle_new_member(member(3, 100, None), 0));
    assert!(!low.handle_new_member(member(1, 300, None), 0));
}

#[test]
fn failed_attempts_are_put_off() {
    let mut manager = manager(1, 100);
    let peer = member(2, 200, None);
    assert_eq!(
        manager.step(NetworkEvent::Member(peer), 1_000),
        NetworkAction::Connect(peer)
    );
    // one attempt at a time
    assert_eq!(
        manager.step(NetworkEvent::Member(peer), 1_000),
        NetworkAction::Wait
    );
    let failed = connection_outcome(Some(2), Handshake::TimedOut);
    assert_eq!(
        failed,
        ConnectionResult::Failed {
            expected_pid: Some(2)
        }
    );
    assert_eq!(
        manager.step(NetworkEvent::Result(failed), 1_500),
        NetworkAction::Wait
    );
    assert!(!manager.handle_new_member(peer, 3_499));
    assert!(manager.handle_new_member(peer, 3_500));
    manager.step(NetworkEvent::Result(failed), 4_000);
    assert!(!manager.handle_new_member(peer, 7_999));
    assert!(manager.handle_new_member(peer, 8_000));

    // a failed attempt of a peer that connected by itself is nobody's
    assert_eq!(
        manager.step(
            NetworkEvent::Result(connection_outcome(None, Handshake::Failed)),
            0
        ),
        NetworkAction::Wait
    );
}

#[test]
fn established_connections_are_registered_once() {
    let mut manager = manager(1, 100);
    let peer = member(2, 200, None);
    assert!(manager.handle_new_member(peer, 0));
    let established = connection_outcome(Some(2), Handshake::Completed(2));
    assert_eq!(
        manager.handle_connection_result(established, 0),
        NetworkAction::Register(2)
    );
    assert_eq!(
        manager.handle_connection_result(connection_outcome(None, Handshake::Completed(2)), 0),
        NetworkAction::Abort
    );
    assert!(!manager.handle_new_member(peer, 0));

    // the replica could not take the channel
    assert_eq!(
        manager.step(
            NetworkEvent::Registration {
                pid: 2,
                taken: false
            },
            0
        ),
        NetworkAction::Abort
    );
    assert!(manager.handle_new_member(peer, 0));

    // somebody else answers
    assert_eq!(
        manager.handle_connection_result(connection_outcome(Some(2), Handshake::Completed(9)), 0),
        NetworkAction::Abort
    );
    assert_eq!(
        manager.step(NetworkEvent::Registration { pid: 9, taken: true }, 0),
        NetworkAction::Wait
    );
}

#[test]
fn departed_members_stay_away() {
    let mut manager = manager(1, 100);
    let peer = member(2, 200, None);
    assert!(manager.handle_new_member(peer, 0));
    assert!(!manager.handle_new_member(member(2, 200, Some(7)), 0));
    assert!(!manager.handle_new_member(peer, 100_000));
    assert_eq!(
        manager.handle_connection_result(connection_outcome(Some(2), Handshake::Completed(2)), 0),
        NetworkAction::Abort
    );
    assert_eq!(
        manager.step(NetworkEvent::Accepted, 0),
        NetworkAction::Handshake
    );
    assert_eq!(
        manager.step(NetworkEvent::AcceptFailed, 0),
        NetworkAction::Wait
    );
    assert_eq!(manager.step(NetworkEvent::Shutdown, 0), NetworkAction::Stop);
}
