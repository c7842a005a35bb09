use gresse::crdt::STABLE_REPLICA_PID;
use gresse::dots::{Counter, Dot, DotMap, DotSet, VersionMatrix};
use gresse::prelude::Pid;

fn dot_set(entries: &[(Pid, Counter)]) -> DotSet {
    let mut dots = DotSet::new();
    for (pid, counter) in entries {
        dots.set_counter(*pid, *counter);
    }
    dots
}

fn apply_gc(
    matrix: &mut VersionMatrix,
    stable: DotSet,
    departed_pids: Option<Vec<Pid>>,
    gc_counter: Counter,
) {
    matrix.apply_gc_marker(&stable, &departed_pids, gc_counter);
}

#[test]
fn stable_is_the_pointwise_minimum_and_missing_means_unseen() {
    let mut matrix = VersionMatrix::new(1);
    matrix.update(1, dot_set(&[(1, 4), (2, 2)]));
    matrix.update(2, dot_set(&[(1, 3)]));

    let (stable, departed) = matrix.get_stable();
    let stable = stable.expect("matrix has observer rows");

    assert_eq!(stable.counter(&1), Some(3));
    assert_eq!(stable.counter(&2), Some(-1));
    assert_eq!(departed, None);
}

#[test]
fn discovered_replica_starts_with_a_conservative_row() {
    let mut matrix = VersionMatrix::new(1);
    matrix.insert_pid(2, 0);

    let discovered = matrix.row(&2).expect("discovered replica row");
    assert_eq!(discovered.counter(&2), Some(-1));
    assert_eq!(discovered.counter(&STABLE_REPLICA_PID), Some(0));

    let observed = dot_set(&[(STABLE_REPLICA_PID, 0), (1, 3), (2, 2)]);
    matrix.update(2, observed.clone());
    matrix.insert_pid(2, 0);
    assert_eq!(matrix.row(&2), Some(&observed));
}

#[test]
fn applying_gc_marker_advances_own_epoch_and_rejects_stale_rows() {
    let mut matrix = VersionMatrix::new(1);
    matrix.update(1, dot_set(&[(STABLE_REPLICA_PID, 0), (1, 2)]));
    matrix.update(2, dot_set(&[(STABLE_REPLICA_PID, 0), (1, 1), (2, 1)]));
    let stable = matrix.get_stable().0.expect("stable frontier");

    matrix.apply_gc_marker(&stable, &None, 1);
    assert_eq!(
        matrix
            .row(&1)
            .expect("own row")
            .counter(&STABLE_REPLICA_PID),
        Some(1)
    );

    matrix.update(2, dot_set(&[(STABLE_REPLICA_PID, 0), (1, 2), (2, 2)]));
    assert_eq!(matrix.row(&2).expect("peer row").counter(&2), Some(1));
    matrix.update(2, dot_set(&[(STABLE_REPLICA_PID, 1), (1, 2), (2, 2)]));
    assert_eq!(matrix.row(&2).expect("peer row").counter(&2), Some(2));
}

#[test]
fn departed_row_stops_blocking_other_columns_after_local_final_dot() {
    let mut matrix = VersionMatrix::new(1);
    matrix.update(1, dot_set(&[(1, 4), (2, 5), (3, 2)]));
    matrix.update(2, dot_set(&[(1, 1), (2, 5)]));
    matrix.update(3, dot_set(&[(1, 3), (2, 4), (3, 2)]));
    matrix.insert_final_dot(Dot { pid: 2, counter: 5 });

    let (stable, departed) = matrix.get_stable();
    let stable = stable.expect("matrix has observer rows");
    assert_eq!(stable.counter(&1), Some(3));
    assert_eq!(stable.counter(&2), Some(4));
    assert_eq!(departed, None);

    matrix.update(3, dot_set(&[(1, 3), (2, 5), (3, 2)]));
    let (stable, departed) = matrix.get_stable();
    let stable = stable.expect("matrix has observer rows");
    assert_eq!(stable.counter(&1), Some(3));
    assert_eq!(stable.counter(&2), Some(5));
    assert_eq!(departed, None);
}

#[test]
fn removed_departure_is_not_reported_again() {
    let mut matrix = VersionMatrix::new(1);
    matrix.update(1, dot_set(&[(STABLE_REPLICA_PID, 0), (1, 0), (2, -1)]));
    matrix.insert_final_dot(Dot {
        pid: 2,
        counter: -1,
    });

    // A missing entry defaults to -1 for frontier calculations, but that
    // does not mean the stable replica has explicitly observed this dot.
    assert_eq!(matrix.get_stable().1, None);
    matrix.update(
        STABLE_REPLICA_PID,
        dot_set(&[(STABLE_REPLICA_PID, 0), (1, 0)]),
    );
    assert_eq!(matrix.get_stable().1, None);

    matrix.update(
        STABLE_REPLICA_PID,
        dot_set(&[(STABLE_REPLICA_PID, 0), (1, 0), (2, -1)]),
    );
    assert_eq!(matrix.get_stable().1, Some(vec![2]));
    matrix.remove_pids(&vec![2]);
    assert_eq!(matrix.get_stable().1, None);
}

#[test]
fn stable_frontier_progresses_across_two_gc_rounds_before_removing_departure() {
    let mut matrix = VersionMatrix::new(1);
    matrix.update(
        1,
        dot_set(&[(STABLE_REPLICA_PID, 0), (1, 4), (2, 5), (3, 2)]),
    );
    matrix.update(
        2,
        dot_set(&[(STABLE_REPLICA_PID, 0), (1, 1), (2, 5), (3, 0)]),
    );
    matrix.update(
        3,
        dot_set(&[(STABLE_REPLICA_PID, 0), (1, 3), (2, 5), (3, 2)]),
    );
    matrix.update(
        STABLE_REPLICA_PID,
        dot_set(&[(STABLE_REPLICA_PID, 0), (1, 1), (2, 4), (3, 0)]),
    );
    matrix.insert_final_dot(Dot { pid: 2, counter: 5 });

    // The current frontier covers replica 2's final dot and advances past
    // the older stable frontier, but removal must wait for one GC round.
    let (first_stable, first_departed) = matrix.get_stable();
    let first_stable = first_stable.expect("matrix has observer rows");
    assert_eq!(first_stable.counter(&1), Some(3));
    assert_eq!(first_stable.counter(&2), Some(5));
    assert_eq!(first_stable.counter(&3), Some(2));
    assert_eq!(first_departed, None);
    apply_gc(&mut matrix, first_stable, first_departed, 1);

    // Once the first frontier is installed as the stable replica's row,
    // the next round can announce and remove the departed replica.
    let (second_stable, second_departed) = matrix.get_stable();
    let second_stable = second_stable.expect("matrix has observer rows");
    assert_eq!(second_stable.counter(&1), Some(3));
    assert_eq!(second_stable.counter(&2), None);
    assert_eq!(second_stable.counter(&3), Some(2));
    assert_eq!(second_departed, Some(vec![2]));
    apply_gc(&mut matrix, second_stable.clone(), second_departed, 2);

    let (settled_stable, settled_departed) = matrix.get_stable();
    assert_eq!(settled_stable, Some(second_stable));
    assert_eq!(settled_departed, None);
}

#[test]
fn tracks_final_dots_for_idempotent_shutdown_processing() {
    let final_dot = Dot {
        pid: 42,
        counter: 17,
    };
    let mut matrix = VersionMatrix::new(0);

    assert!(!matrix.contains_final_dot(final_dot));
    matrix.insert_final_dot(final_dot);
    assert!(matrix.contains_final_dot(final_dot));
    assert!(!matrix.contains_final_dot(Dot {
        pid: 42,
        counter: 18,
    }));
}

#[test]
fn merge_takes_the_greater_counters() {
    let mut a = dot_set(&[(1, 4), (2, 1)]);
    a.merge(&dot_set(&[(2, 5), (3, 0)]));
    assert_eq!(a, dot_set(&[(1, 4), (2, 5), (3, 0)]));
    let before = a.clone();
    a.merge(&dot_set(&[(2, 5)]));
    assert_eq!(a, before);
    assert_eq!(a.pids(), vec![1, 2, 3]);
}

#[test]
fn pointwise_minimum_keeps_the_lesser_counters() {
    let mut a = dot_set(&[(1, 4), (2, 1)]);
    a.pointwise_min(&dot_set(&[(1, 2), (2, 6)]));
    assert_eq!(a.counter(&1), Some(2));
    assert_eq!(a.counter(&2), Some(1));
}

#[test]
fn issued_dots_follow_each_other() {
    let mut dots = DotSet::new();
    assert_eq!(dots.increment_and_get(5), Dot { pid: 5, counter: 0 });
    assert_eq!(dots.increment_and_get(5), Dot { pid: 5, counter: 1 });
    assert!(dots.contains(&Dot { pid: 5, counter: 0 }));
    assert!(!dots.contains(&Dot { pid: 5, counter: 2 }));
    assert!(!dots.contains(&Dot { pid: 6, counter: 0 }));
    dots.insert(&Dot { pid: 5, counter: 2 });
    assert_eq!(*dots.get(&5), 2);
    assert_eq!(*dots.get(&9), -1);
    dots.remove_pid(5);
    assert_eq!(dots.counter(&5), None);
}

#[test]
fn version_vectors_are_compared() {
    let base = dot_set(&[(1, 1)]);
    let later = dot_set(&[(1, 2)]);
    let other = dot_set(&[(1, 0), (2, 0)]);
    assert_eq!(base.partial_cmp(&later), Some(std::cmp::Ordering::Less));
    assert_eq!(later.partial_cmp(&base), Some(std::cmp::Ordering::Greater));
    assert_eq!(later.partial_cmp(&other), Some(std::cmp::Ordering::Greater));
    assert_eq!(
        dot_set(&[(1, 2), (2, -1)]).partial_cmp(&other),
        Some(std::cmp::Ordering::Equal)
    );
    assert_eq!(
        base.partial_cmp(&base.clone()),
        Some(std::cmp::Ordering::Greater)
    );
    assert!(later.is_concurrent_with(&other));
    assert!(other.is_concurrent_with(&later));
    assert!(!base.is_concurrent_with(&later));
    assert!(!base.is_concurrent_with(&base));
}

#[test]
fn dots_are_made_of_pairs() {
    assert_eq!(Dot::from((&3, &4)), Dot { pid: 3, counter: 4 });
}

#[test]
fn logs_hand_out_what_a_vector_lacks() {
    let mut log: DotMap<&str> = DotMap::new();
    assert!(log.is_empty());
    for (pid, counter, value) in [(2, 0, "c"), (1, 0, "a"), (1, 1, "b"), (3, 0, "d")] {
        log.insert(Dot { pid, counter }, value);
    }
    assert_eq!(log.len(), 4);
    assert_eq!(log.pids(), vec![1, 2, 3]);
    let lacking: Vec<&str> = log
        .get_all_greater_iter(&dot_set(&[(1, 0), (3, 7)]))
        .iter()
        .map(|item| item.1)
        .collect();
    assert_eq!(lacking, vec!["b", "c"]);
    log.retain(|dot, _| dot.pid != 1);
    assert_eq!(log.pids(), vec![2, 3]);
    assert_eq!(log.list(&1), None);
    assert_eq!(log.list(&3).map(|list| list.len()), Some(1));
}

#[test]
fn matrices_are_taken_apart_and_put_together() {
    let mut matrix = VersionMatrix::new(1);
    matrix.insert_pid(2, 3);
    matrix.update(2, dot_set(&[(1, 5), (STABLE_REPLICA_PID, 3)]));
    matrix.insert_final_dot(Dot { pid: 2, counter: 8 });
    let parts = matrix.to_parts();
    assert_eq!(parts.own_pid, 1);
    assert_eq!(parts.rows.len(), 2);
    assert_eq!(parts.final_dots, vec![Dot { pid: 2, counter: 8 }]);
    for again in [VersionMatrix::from_parts(parts), matrix.clone()] {
        assert_eq!(again.own_pid(), 1);
        assert_eq!(again.row(&2), matrix.row(&2));
        assert!(again.contains_final_dot(Dot { pid: 2, counter: 8 }));
        assert!(!again.contains_final_dot(Dot { pid: 2, counter: 7 }));
    }
}

#[test]
fn a_replica_notices_that_it_is_let_go() {
    let mut matrix = VersionMatrix::new(1);
    assert!(matrix.keeps_own_row(&Some(vec![1])));
    apply_gc(&mut matrix, dot_set(&[(1, 0)]), None, 0);
    assert!(!matrix.keeps_own_row(&Some(vec![2, 1])));
    assert!(matrix.keeps_own_row(&Some(vec![2])));
    assert!(matrix.keeps_own_row(&None));
    // its announced last dot is not stable yet
    matrix.insert_final_dot(Dot { pid: 1, counter: 5 });
    assert!(matrix.keeps_own_row(&Some(vec![1])));
}
