use std::collections::{HashMap, HashSet};

use gresse::crdt::{
    CRDTWrapper, DeltaGroup, GcMarker, PersistentReplica, ReplicaMessage, CRDT, STABLE_REPLICA_PID,
};
use gresse::dots::matrix::{MatrixParts, VersionMatrix};
use gresse::dots::{Counter, Dot, DotSet};
use gresse::network::membership_gc_counters_by_pid;
use gresse::object_storage::StoreFault;
use gresse::orset::{ORSet, OrSetDelta, OrSetMeta, OrSetMutation, OrSetQuery, OrSetResponse};
use gresse::prelude::{IpAddress, Pid, SocketAddress};
use gresse::replica::events::{DeltaVerdict, ReplicaAction, ReplicaEvent};
use gresse::replica::round::{
    after_descriptor, after_store, validate_gc_membership, GcStep, TakeOver,
};
use gresse::replica::{shutdown_descriptors, BootstrapStep, GcObservation, Replica};
use gresse::replica_helpers::ReplicaDescriptor;

type Fruits = ORSet<String>;

fn address(pid: Pid) -> SocketAddress {
    SocketAddress::new(IpAddress::V4(0x7f00_0001), 1000 + pid as u16)
}

fn replica(pid: Pid) -> Replica<Fruits> {
    Replica::start(pid, address(pid), Fruits::new(), None)
}

fn insert(replica: &mut Replica<Fruits>, element: &str) {
    replica
        .mutate(OrSetMutation::Insert(element.to_string()))
        .unwrap();
}

fn elements(replica: &Replica<Fruits>) -> Vec<String> {
    match replica.query(OrSetQuery::Elements).unwrap() {
        OrSetResponse::Elements(list) => list,
        other => panic!("no elements: {other:?}"),
    }
}

fn log_length(replica: &Replica<Fruits>) -> usize {
    match replica.query(OrSetQuery::Meta).unwrap() {
        OrSetResponse::Meta(meta) => meta.delta_log_count,
        other => panic!("no meta: {other:?}"),
    }
}

fn descriptor(pid: Pid, gc_counter: Counter, final_counter: Option<Counter>) -> ReplicaDescriptor {
    ReplicaDescriptor {
        pid,
        address: address(pid),
        gc_counter,
        final_counter,
    }
}

/// Lets `to` pull from `from`, and returns what became of the answer.
fn pull(to: &mut Replica<Fruits>, from: &mut Replica<Fruits>) -> DeltaVerdict {
    let ReplicaAction::Send(peer, request) = to.step(ReplicaEvent::SyncDue(Some(from.pid())))
    else {
        panic!("a pull request is sent");
    };
    assert_eq!(peer, from.pid());
    let ReplicaAction::Send(back, reply) = from.step(ReplicaEvent::Message(request)) else {
        panic!("a pull request is answered");
    };
    assert_eq!(back, to.pid());
    let ReplicaAction::Judged(verdict, delta) = to.step(ReplicaEvent::Message(reply)) else {
        panic!("an answer is judged");
    };
    if matches!(verdict, DeltaVerdict::Merge { .. }) {
        to.merge_delta(delta);
    }
    verdict
}

#[test]
fn recovered_replica_uses_persisted_pid() {
    let recovered = PersistentReplica {
        local_state: ORSet::<String>::new(),
        crdt_wrapper: CRDTWrapper::new(41),
    };

    assert_eq!(
        Replica::<ORSet<String>>::effective_pid(99, Some(&recovered)),
        41
    );
    assert_eq!(Replica::<ORSet<String>>::effective_pid(99, None), 99);
}

#[test]
fn a_restart_keeps_the_identity_and_the_data() {
    let mut state = Fruits::new();
    state.set_pid(41);
    state.mutate(OrSetMutation::Insert("apple".into())).unwrap();
    let recovered = PersistentReplica {
        local_state: state,
        crdt_wrapper: CRDTWrapper::new(41),
    };
    let mut restarted = Replica::start(99, address(41), Fruits::new(), Some(recovered));
    assert_eq!(restarted.pid(), 41);
    assert_eq!(elements(&restarted), vec!["apple".to_string()]);
    insert(&mut restarted, "banana");
    assert_eq!(
        restarted
            .persistent()
            .local_state
            .get_version_vector()
            .counter(&41),
        Some(1)
    );
}

#[test]
fn a_stored_state_is_installed_under_the_own_identity() {
    let mut source = replica(1);
    insert(&mut source, "source");
    let stored = PersistentReplica {
        local_state: source.persistent().local_state.clone(),
        crdt_wrapper: source.persistent().crdt_wrapper.clone(),
    };
    let mut fresh = replica(2);
    fresh.install(stored);
    assert_eq!(fresh.pid(), 2);
    assert_eq!(fresh.persistent().crdt_wrapper.own_pid(), 2);
    assert_eq!(elements(&fresh), vec!["source".to_string()]);
    insert(&mut fresh, "local");
    assert_eq!(
        fresh
            .persistent()
            .local_state
            .get_version_vector()
            .counter(&2),
        Some(0)
    );
}

#[test]
fn a_stored_state_without_a_row_of_its_own_gets_one() {
    let rowless = || PersistentReplica {
        local_state: Fruits::new(),
        crdt_wrapper: CRDTWrapper::from_parts(
            VersionMatrix::from_parts(MatrixParts {
                own_pid: 7,
                rows: Vec::new(),
                final_dots: Vec::new(),
            }),
            GcMarker {
                marker: Dot { pid: 7, counter: 4 },
                stable: DotSet::new(),
                departed_pids: None,
            },
        ),
    };
    let mut installed = replica(1);
    installed.install(rowless());
    let recovered = Replica::start(9, address(9), Fruits::new(), Some(rowless()));
    assert_eq!((installed.pid(), recovered.pid()), (1, 7));
    for one in [installed, recovered] {
        let wrapper = &one.persistent().crdt_wrapper;
        let row = wrapper.version_matrix.row(&one.pid()).expect("a row");
        assert_eq!(*row.gc_counter(), 4);
        assert_eq!(wrapper.current_gc_marker().counter, 4);
    }
}

#[test]
fn bootstrap_prefers_the_journal_to_object_storage() {
    let members = vec![descriptor(1, 3, None), descriptor(2, -1, None)];
    let step = |recovered: bool, stored: Option<Counter>| {
        Replica::<Fruits>::bootstrap_step(recovered, stored, &members)
    };
    assert_eq!(step(true, Some(0)), BootstrapStep::KeepRecovered);
    assert_eq!(step(true, None), BootstrapStep::KeepRecovered);
    for (epoch, up_to_date) in [(2, false), (3, true), (4, true)] {
        assert_eq!(
            step(false, Some(epoch)),
            BootstrapStep::Install { up_to_date }
        );
    }
    assert_eq!(step(false, None), BootstrapStep::WriteInitial);
}

#[test]
fn mutations_reach_a_peer_by_a_pull() {
    let mut a = replica(1);
    let mut b = replica(2);
    insert(&mut a, "apple");
    insert(&mut b, "banana");
    assert_eq!(pull(&mut b, &mut a), DeltaVerdict::Merge { collected: false });
    assert_eq!(pull(&mut a, &mut b), DeltaVerdict::Merge { collected: false });
    let both = vec!["apple".to_string(), "banana".to_string()];
    assert_eq!(elements(&a), both);
    assert_eq!(elements(&b), both);
}

#[test]
fn without_a_peer_nothing_is_pulled() {
    let mut a = replica(1);
    assert!(matches!(
        a.step(ReplicaEvent::SyncDue(None)),
        ReplicaAction::Wait
    ));
    assert!(matches!(
        a.step(ReplicaEvent::MembershipDue),
        ReplicaAction::ListMembers
    ));
    assert!(matches!(
        a.step(ReplicaEvent::MutationApplied),
        ReplicaAction::Wait
    ));
}

#[test]
fn a_single_replica_collects_its_garbage() {
    let mut a = replica(1);
    insert(&mut a, "apple");
    assert_eq!(log_length(&a), 1);
    let ReplicaAction::Collect(plan) = a.step(ReplicaEvent::GcDue) else {
        panic!("there is something to collect");
    };
    assert_eq!(
        plan.marker.marker,
        Dot {
            pid: STABLE_REPLICA_PID,
            counter: 0
        }
    );
    assert_eq!(plan.previous, descriptor(1, -1, None));
    assert_eq!(plan.next, descriptor(1, 0, None));
    assert_eq!(plan.marker.stable.counter(&1), Some(0));
    assert_eq!(plan.marker.departed_pids, None);
    assert!(a.survives(&plan.marker));
    a.apply_gc_marker(plan.marker);
    assert_eq!(log_length(&a), 0);
    assert_eq!(elements(&a), vec!["apple".to_string()]);
    assert_eq!(a.replica_descriptor(), descriptor(1, 0, None));
    // nothing is left to do until something happens
    assert!(matches!(
        a.step(ReplicaEvent::GcDue),
        ReplicaAction::Wait
    ));
    insert(&mut a, "banana");
    assert!(matches!(
        a.step(ReplicaEvent::GcDue),
        ReplicaAction::Collect(_)
    ));
}

#[test]
fn a_round_reaches_peers_with_the_next_delta() {
    let mut a = replica(1);
    let mut b = replica(2);
    let members = vec![descriptor(1, -1, None), descriptor(2, -1, None)];
    a.take_in_members(&members, &HashSet::new());
    b.take_in_members(&members, &HashSet::new());
    insert(&mut a, "apple");
    pull(&mut b, &mut a);
    pull(&mut a, &mut b);
    pull(&mut b, &mut a);
    let plan = a.plan_gc().expect("a stable frontier");
    assert_eq!(plan.marker.stable.counter(&1), Some(0));
    a.apply_gc_marker(plan.marker);
    assert_eq!(log_length(&a), 0);
    assert_eq!(log_length(&b), 1);

    // b is an epoch behind: what it sends is refused until it has caught up
    insert(&mut b, "banana");
    assert_eq!(pull(&mut a, &mut b), DeltaVerdict::Refused);
    assert_eq!(elements(&a), vec!["apple".to_string()]);
    assert_eq!(pull(&mut b, &mut a), DeltaVerdict::Merge { collected: true });
    assert_eq!(log_length(&b), 1);
    assert_eq!(pull(&mut a, &mut b), DeltaVerdict::Merge { collected: false });
    assert_eq!(
        elements(&a),
        vec!["apple".to_string(), "banana".to_string()]
    );
}

#[test]
fn markers_are_observed_once_and_never_backwards() {
    let mut a = replica(1);
    let marker = |pid: Pid, counter: Counter, departed: Option<Vec<Pid>>| GcMarker {
        marker: Dot { pid, counter },
        stable: DotSet::new(),
        departed_pids: departed,
    };
    assert_eq!(
        a.observe_gc(marker(STABLE_REPLICA_PID, 3, None)),
        GcObservation::Applied
    );
    assert_eq!(
        a.observe_gc(marker(STABLE_REPLICA_PID, 3, None)),
        GcObservation::Ignored
    );
    assert_eq!(
        a.observe_gc(marker(STABLE_REPLICA_PID, 2, None)),
        GcObservation::Ignored
    );
    assert_eq!(a.observe_gc(marker(7, 9, None)), GcObservation::Ignored);
    assert_eq!(
        a.observe_gc(marker(STABLE_REPLICA_PID, 4, Some(vec![1]))),
        GcObservation::Excludes
    );
    assert_eq!(a.replica_descriptor().gc_counter, 3);
}

#[test]
fn a_delta_with_a_gap_does_not_fit() {
    let mut a = replica(1);
    insert(&mut a, "apple");
    let mut b = replica(2);
    pull(&mut b, &mut a);
    insert(&mut a, "banana");
    let vector = a.persistent().local_state.get_version_vector().clone();
    insert(&mut a, "cherry");
    let (late, _, _) = a.persistent().local_state.get_delta(&vector);
    let marker = a.persistent().crdt_wrapper.gc_metadata();
    let group: DeltaGroup<OrSetDelta<String>> = DeltaGroup {
        list: late.list,
        version_vector: b.refresh_own_version_vector(),
    };
    assert!(!b.accepts_delta(&group));
    assert_eq!(
        b.handle_delta(&group, marker),
        DeltaVerdict::Inapplicable { collected: false }
    );
}

#[test]
fn a_departed_replica_is_taken_over_and_forgotten() {
    let mut a = replica(1);
    let mut b = replica(2);
    let members = vec![descriptor(1, -1, None), descriptor(2, -1, None)];
    a.take_in_members(&members, &HashSet::new());
    b.take_in_members(&members, &HashSet::new());
    insert(&mut a, "apple");
    pull(&mut b, &mut a);
    insert(&mut b, "elderberry");

    let ReplicaAction::Leave(last) = b.step(ReplicaEvent::Shutdown) else {
        panic!("a replica leaves");
    };
    assert_eq!(last, descriptor(2, -1, Some(0)));
    assert_eq!(shutdown_descriptors(&vec![members[0], last]), vec![last]);

    let final_dot = a.pending_departure(&last).expect("a departure to take in");
    assert_eq!(final_dot, Dot { pid: 2, counter: 0 });
    assert_eq!(a.pending_departure(&members[1]), None);
    assert!(matches!(a.take_over(&None), TakeOver::NotYet));
    let left_behind = Some(b.persistent().local_state.clone());
    let TakeOver::Merge(delta) = a.take_over(&left_behind) else {
        panic!("the last mutation is missing");
    };
    assert!(a.accepts_delta(&delta));
    a.merge_delta(delta);
    assert!(matches!(a.take_over(&left_behind), TakeOver::Nothing));
    a.note_departure(final_dot);
    assert_eq!(a.pending_departure(&last), None);
    assert_eq!(
        elements(&a),
        vec!["apple".to_string(), "elderberry".to_string()]
    );

    // the first round makes the last dot stable, the second lets b go
    let first = a.plan_gc().expect("a first round");
    assert_eq!(first.marker.departed_pids, None);
    a.apply_gc_marker(first.marker);
    let second = a.plan_gc().expect("a second round");
    assert_eq!(second.marker.departed_pids, Some(vec![2]));
    a.apply_gc_marker(second.marker);
    assert!(a.plan_gc().is_none());
    assert_eq!(
        elements(&a),
        vec!["apple".to_string(), "elderberry".to_string()]
    );
}

/// Six mutations that leave two elements behind.
fn mutate_fruits(replica: &mut Replica<Fruits>) {
    let operations = [
        OrSetMutation::Insert("apple".to_string()),
        OrSetMutation::Insert("banana".to_string()),
        OrSetMutation::Insert("citrus".to_string()),
        OrSetMutation::Remove("banana".to_string()),
        OrSetMutation::Insert("date".to_string()),
        OrSetMutation::Remove("apple".to_string()),
    ];
    for operation in operations {
        assert_eq!(
            replica.mutate(operation).unwrap(),
            OrSetResponse::Acknowledged
        );
    }
}

fn meta(replica: &Replica<Fruits>) -> OrSetResponse<String> {
    replica.query(OrSetQuery::Meta).unwrap()
}

#[test]
fn garbage_collection_brings_both_replicas_to_the_same_lengths() {
    let mut a = replica(1);
    let mut b = replica(2);
    let members = vec![descriptor(1, -1, None), descriptor(2, -1, None)];
    a.take_in_members(&members, &HashSet::new());
    b.take_in_members(&members, &HashSet::new());
    mutate_fruits(&mut a);
    pull(&mut b, &mut a);
    // the second request tells a what b has seen
    pull(&mut b, &mut a);
    let plan = a.plan_gc().expect("a stable frontier");
    a.apply_gc_marker(plan.marker);
    assert_eq!(pull(&mut b, &mut a), DeltaVerdict::Merge { collected: true });
    let expected = OrSetResponse::Meta(OrSetMeta {
        entry_count: 2,
        delta_log_count: 0,
    });
    assert_eq!(meta(&a), expected);
    assert_eq!(meta(&b), expected);
}

#[test]
fn the_last_mutation_outlives_its_replica() {
    let mut a = replica(1);
    let mut b = replica(2);
    let members = vec![descriptor(1, -1, None), descriptor(2, -1, None)];
    a.take_in_members(&members, &HashSet::new());
    b.take_in_members(&members, &HashSet::new());
    mutate_fruits(&mut a);
    insert(&mut b, "elderberry");
    let ReplicaAction::Leave(last) = b.step(ReplicaEvent::Shutdown) else {
        panic!("a replica leaves");
    };
    let left_behind = Some(b.persistent().local_state.clone());
    let TakeOver::Merge(delta) = a.take_over(&left_behind) else {
        panic!("the last mutation is missing");
    };
    a.merge_delta(delta);
    let final_dot = a.pending_departure(&last).expect("a departure to take in");
    a.note_departure(final_dot);
    while let Some(plan) = a.plan_gc() {
        a.apply_gc_marker(plan.marker);
    }
    assert_eq!(
        meta(&a),
        OrSetResponse::Meta(OrSetMeta {
            entry_count: 3,
            delta_log_count: 0,
        })
    );
    assert_eq!(
        a.query(OrSetQuery::Contains("elderberry".to_string()))
            .unwrap(),
        OrSetResponse::Contains(true)
    );
}

#[test]
fn members_are_announced_and_discovered() {
    let mut a = replica(1);
    let members = vec![
        descriptor(1, 0, None),
        descriptor(2, 3, None),
        descriptor(3, 0, Some(4)),
    ];
    let announced = a.take_in_members(&members, &HashSet::new());
    assert_eq!(announced.len(), 1);
    assert_eq!(announced[0].pid, 2);
    let row = a
        .persistent()
        .crdt_wrapper
        .version_matrix
        .row(&2)
        .expect("row of the peer");
    assert_eq!(*row.gc_counter(), 3);
    // a peer that was never heard of blocks the frontier
    insert(&mut a, "apple");
    let plan = a.plan_gc().expect("a frontier");
    assert_eq!(plan.marker.stable.counter(&1), Some(-1));
}

#[test]
fn rounds_go_on_only_among_the_same_members() {
    let members = vec![descriptor(1, 0, None), descriptor(2, 3, None)];
    let previous = membership_gc_counters_by_pid(&members);
    let listing = |list: Vec<ReplicaDescriptor>| {
        validate_gc_membership(1, &previous, &Some(list))
    };
    assert_eq!(listing(members.clone()), GcStep::Apply);
    // the own descriptor is new, a peer is gone
    assert_eq!(listing(vec![descriptor(1, 1, None)]), GcStep::Apply);
    assert_eq!(
        listing(vec![descriptor(2, 4, None)]),
        GcStep::Withdraw { relist: true }
    );
    assert_eq!(
        listing(vec![descriptor(5, -1, None)]),
        GcStep::Withdraw { relist: true }
    );
    assert_eq!(
        validate_gc_membership(1, &HashMap::new(), &None),
        GcStep::Withdraw { relist: false }
    );

    assert_eq!(after_descriptor(Ok(true)), GcStep::ListMembers);
    assert_eq!(after_descriptor(Ok(false)), GcStep::Abandon);
    assert_eq!(after_descriptor(Err(StoreFault::Other)), GcStep::Abandon);
    assert_eq!(after_store(true), GcStep::CleanUp);
    assert_eq!(after_store(false), GcStep::Abandon);
}

#[test]
fn a_pull_request_carries_the_epoch() {
    let mut a = replica(1);
    insert(&mut a, "apple");
    let ReplicaMessage::VersionVector(pid, vector) = a.pull_request() else {
        panic!("a version vector is sent");
    };
    assert_eq!(pid, 1);
    assert_eq!(vector.counter(&1), Some(0));
    assert_eq!(*vector.gc_counter(), -1);
}
