use gresse::metrics::{MetricRecord, Metrics, StartupMetrics};

fn told(record: &MetricRecord) -> (&str, &str, Option<&str>) {
    (&record.event, &record.phase, record.detail.as_deref())
}

#[test]
fn stale_gc_delta_refusal_records_counters_and_timing() {
    let received_us = 1_000_000;
    let timestamp_us = 1_000_450;
    let metrics = Metrics::new(7);

    let row = metrics.peer_replication_merge_delta_refused_stale_gc(
        timestamp_us,
        4,
        6,
        received_us,
        12,
        99,
    );

    assert_eq!(metrics.file_name(), "server_7.csv");
    assert_eq!(row.source, "server");
    assert_eq!(row.replica_pid, 7);
    assert_eq!(row.timestamp_us, timestamp_us);
    assert_eq!(row.event, "peer_replication_merge_delta");
    assert_eq!(row.phase, "refused_stale_gc");
    assert_eq!(row.gc_marker, Some(4));
    assert_eq!(row.sent_us, Some(99));
    assert_eq!(row.received_us, Some(received_us));
    assert_eq!(
        row.detail.as_deref(),
        Some("remote_gc_counter=4,current_gc_counter=6,delta_len=12")
    );
    assert_eq!(
        row.latency_us,
        Some(timestamp_us.saturating_sub(received_us))
    );

    let early = metrics.peer_replication_merge_delta_refused_stale_gc(5, 4, 6, 9, 12, 99);
    assert_eq!(early.latency_us, Some(0));
}

#[test]
fn spans_tell_how_long_they_took() {
    let metrics = Metrics::new(3);
    let span = metrics.client_mutation_completed(5, 10, 25);
    assert_eq!(
        told(&span),
        ("client_mutation", "completed", Some("http_data_plane"))
    );
    assert_eq!(span.timestamp_us, 25);
    assert_eq!(span.received_us, Some(5));
    assert_eq!(span.start_us, Some(10));
    assert_eq!(span.end_us, Some(25));
    assert_eq!(span.latency_us, Some(15));
    assert_eq!(span.insert_count, None);

    let merge = metrics.peer_replication_merge_delta_completed(Some(2), 1, 2, 3, 4, 5);
    assert_eq!(
        told(&merge),
        (
            "peer_replication_merge_delta",
            "completed",
            Some("delta_len=4,sent_us=5")
        )
    );
    assert_eq!(merge.gc_marker, Some(2));
    let get = metrics.peer_replication_get_delta_completed(8, None, 1, 2, 3, 4, 5);
    assert_eq!(get.peer_pid, Some(8));
    assert_eq!(get.event, "peer_replication_get_delta");

    let read = metrics.membership_directory_read_with_count(None, 1, 2, "poll", 3);
    assert_eq!(
        told(&read),
        (
            "membership_directory_read",
            "completed",
            Some("poll:3 descriptors")
        )
    );
    let failed = metrics.membership_directory_read_failed(Some(1), 1, 2, "poll", "timed out");
    assert_eq!(
        told(&failed),
        (
            "membership_directory_read",
            "failed",
            Some("poll: timed out")
        )
    );
    let listed = metrics.membership_directory_read_completed(Some(1), 1, 2, "x".to_string());
    assert_eq!(
        told(&listed),
        ("membership_directory_read", "completed", Some("x"))
    );

    assert_eq!(
        told(&metrics.persistent_state_fetch_completed(1, 2, "d".to_string())),
        ("persistent_state_fetch", "completed", Some("d"))
    );
    assert_eq!(
        told(&metrics.membership_descriptor_write_completed(1, 2, "d".to_string())),
        ("membership_descriptor_write", "completed", Some("d"))
    );
    assert_eq!(
        told(&metrics.persistent_state_write_completed(1, 2, None)),
        ("persistent_state_write", "completed", None)
    );
    assert_eq!(
        told(&metrics.persistent_state_write_failed(1, 2, "d".to_string())),
        ("persistent_state_write", "failed", Some("d"))
    );
    assert_eq!(
        told(&metrics.gc_local_collect_completed(4, 1, 2, &Some(vec![1, 20, 3]))),
        (
            "gc_local_collect",
            "completed",
            Some("departed_pids=Some([1, 20, 3])")
        )
    );
    assert_eq!(
        metrics
            .gc_local_collect_completed(4, 1, 2, &Some(vec![]))
            .detail
            .as_deref(),
        Some("departed_pids=Some([])")
    );
    assert_eq!(
        metrics
            .gc_local_collect_completed(4, 1, 2, &None)
            .detail
            .as_deref(),
        Some("departed_pids=None")
    );
    assert_eq!(
        told(&metrics.gc_persistent_state_write_completed(4, 1, 2, 512)),
        (
            "gc_persistent_state_write",
            "completed",
            Some("state_bytes=512")
        )
    );
}

#[test]
fn instants_have_one_time() {
    let metrics = Metrics::new(3);
    let instant = metrics.peer_replication_connection_established(40, 9);
    assert_eq!(
        told(&instant),
        ("peer_replication_connection", "established", None)
    );
    assert_eq!(instant.timestamp_us, 40);
    assert_eq!(instant.peer_pid, Some(9));
    assert_eq!(instant.latency_us, None);
    assert_eq!(instant.start_us, None);

    assert_eq!(
        told(&metrics.recovered_membership_cleanup(1, 2, None)),
        ("recovered_membership_cleanup", "completed", None)
    );
    assert_eq!(
        told(&metrics.recovered_membership_cleanup(1, 2, Some("lost".to_string()))),
        ("recovered_membership_cleanup", "failed", Some("lost"))
    );
    assert_eq!(
        told(&metrics.replica_init_started(1)),
        ("replica_init", "start", None)
    );
    assert_eq!(
        told(&metrics.replica_init_completed(1)),
        ("replica_init", "completed", None)
    );
    assert_eq!(
        told(&metrics.persistent_state_fetch_instant(1, "journal".to_string())),
        ("persistent_state_fetch", "completed", Some("journal"))
    );
    assert_eq!(
        told(&metrics.peer_replication_pull_request_sent(1, 2)),
        (
            "peer_replication_pull_request",
            "sent",
            Some("connected_peers=2")
        )
    );
    assert_eq!(
        told(&metrics.gc_init_started(1, 0, -1)),
        ("gc_init", "start", Some("previous_gc_marker=-1"))
    );
    assert_eq!(
        told(&metrics.gc_init_failed(1, 0, "d".to_string())),
        ("gc_init", "failed", Some("d"))
    );
    assert_eq!(
        told(&metrics.gc_init_aborted(1, 0)),
        ("gc_init", "aborted", Some("membership_changed"))
    );
    assert_eq!(
        told(&metrics.gc_persistent_state_write_failed(1, 0, "d".to_string())),
        ("gc_persistent_state_write", "failed", Some("d"))
    );
    assert_eq!(
        told(&metrics.gc_finalize_completed(1, 0, "d".to_string())),
        ("gc_finalize", "completed", Some("d"))
    );
    assert_eq!(
        told(&metrics.gc_membership_cleanup_completed(1, Some(0))),
        ("gc_membership_cleanup", "completed", None)
    );
    assert_eq!(
        told(&metrics.gc_membership_descriptor_write_completed(1, 0, "d".to_string())),
        ("gc_membership_descriptor_write", "completed", Some("d"))
    );
    assert_eq!(
        told(&metrics.gc_observed_started(1, 0)),
        ("gc_observed", "start", None)
    );
    assert_eq!(metrics.gc_observed_completed(1, 6).gc_marker, Some(6));
}

#[test]
fn startup_times_are_kept() {
    let mut times = StartupMetrics::construction_complete(1, 2, 3, 4, 5, 6);
    assert_eq!(times.crdt_pid_set_us, 1);
    assert_eq!(times.object_storage_client_ready_us, 6);
    assert_eq!(times.replica_init_completed_us, 0);
    times.record_run_started(7);
    times.record_bootstrap_completed(8, 9, 10, 11, 12);
    assert_eq!(times.replica_run_start_us, 7);
    assert_eq!(times.replica_init_start_us, 8);
    assert_eq!(times.persistent_state_fetch_completed_us, 9);
    assert_eq!(times.membership_descriptor_write_completed_us, 10);
    assert_eq!(times.membership_directory_read_completed_us, 11);
    assert_eq!(times.replica_init_completed_us, 12);
    assert_eq!(times.crdt_pid_set_us, 1);
}
