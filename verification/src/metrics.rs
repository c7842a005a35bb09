//! What a replica reports of itself: one record per protocol event, to be
//! written as a row of a CSV file.

use vstd::prelude::*;
use crate::dots::matrix::listed;
use crate::dots::Counter;
use crate::prelude::Pid;
use crate::replica_config::text_view;
use crate::text::{
    append_chars, chars_of, decimal, format_i64, format_u128, signed_decimal, text_of,
};

pub mod operations;

verus! {

/// A row of the file. Times are microseconds since the epoch of the clock.
#[derive(Debug, Clone)]
pub struct MetricRecord {
    pub source: String,
    pub event: String,
    pub phase: String,
    pub timestamp_us: u128,
    pub replica_pid: Pid,
    pub peer_pid: Option<Pid>,
    pub gc_marker: Option<Counter>,
    pub sent_us: Option<u128>,
    pub received_us: Option<u128>,
    pub start_us: Option<u128>,
    pub end_us: Option<u128>,
    pub insert_count: Option<u16>,
    pub delete_count: Option<u16>,
    pub detail: Option<String>,
    pub client_id: Option<String>,
    pub operation: Option<String>,
    pub value: Option<i32>,
    pub status_code: Option<u16>,
    pub latency_us: Option<u128>,
}

/// The meaning of a [`MetricRecord`] of a replica, which has neither counts
/// nor what only a client reports.
pub struct RecordView {
    pub event: Seq<char>,
    pub phase: Seq<char>,
    pub timestamp_us: u128,
    pub replica_pid: Pid,
    pub peer_pid: Option<Pid>,
    pub gc_marker: Option<Counter>,
    pub sent_us: Option<u128>,
    pub received_us: Option<u128>,
    pub start_us: Option<u128>,
    pub end_us: Option<u128>,
    pub detail: Option<Seq<char>>,
    pub latency_us: Option<u128>,
}

impl View for MetricRecord {
    type V = RecordView;

    open spec fn view(&self) -> RecordView {
        RecordView {
            event: self.event@,
            phase: self.phase@,
            timestamp_us: self.timestamp_us,
            replica_pid: self.replica_pid,
            peer_pid: self.peer_pid,
            gc_marker: self.gc_marker,
            sent_us: self.sent_us,
            received_us: self.received_us,
            start_us: self.start_us,
            end_us: self.end_us,
            detail: text_view(self.detail),
            latency_us: self.latency_us,
        }
    }
}

impl MetricRecord {
    /// Whether the record is one of a server: it has no counts and nothing
    /// that only a client reports.
    pub open spec fn is_of_server(&self) -> bool {
        &&& self.source@ == "server"@
        &&& self.insert_count is None
        &&& self.delete_count is None
        &&& self.client_id is None
        &&& self.operation is None
        &&& self.value is None
        &&& self.status_code is None
    }
}

/// How long something took; nothing where the clock went backwards.
pub open spec fn elapsed(from_us: u128, to_us: u128) -> u128 {
    if from_us <= to_us {
        (to_us - from_us) as u128
    } else {
        0
    }
}

/// The record of an event at one point in time.
pub open spec fn instant_view(
    replica_pid: Pid,
    timestamp_us: u128,
    event: Seq<char>,
    phase: Seq<char>,
    peer_pid: Option<Pid>,
    gc_marker: Option<Counter>,
    detail: Option<Seq<char>>,
) -> RecordView {
    RecordView {
        event,
        phase,
        timestamp_us,
        replica_pid,
        peer_pid,
        gc_marker,
        sent_us: None,
        received_us: None,
        start_us: None,
        end_us: None,
        detail,
        latency_us: None,
    }
}

/// The record of an event that took some time.
pub open spec fn span_view(
    replica_pid: Pid,
    event: Seq<char>,
    phase: Seq<char>,
    peer_pid: Option<Pid>,
    gc_marker: Option<Counter>,
    start_us: u128,
    end_us: u128,
    received_us: Option<u128>,
    detail: Option<Seq<char>>,
) -> RecordView {
    RecordView {
        event,
        phase,
        timestamp_us: end_us,
        replica_pid,
        peer_pid,
        gc_marker,
        sent_us: None,
        received_us,
        start_us: Some(start_us),
        end_us: Some(end_us),
        detail,
        latency_us: Some(elapsed(start_us, end_us)),
    }
}

/// An owned copy of a text.
fn owned(text: &str) -> (copy: String)
    ensures
        copy@ == text@,
{
    text_of(&chars_of(text))
}

/// A text followed by a number.
fn labelled(label: &str, number: u128) -> (chars: Vec<char>)
    ensures
        chars@ == label@ + decimal(number as nat),
{
    let mut chars = chars_of(label);
    append_chars(&mut chars, &format_u128(number));
    chars
}

/// A text followed by a counter.
fn labelled_counter(label: &str, counter: Counter) -> (chars: Vec<char>)
    ensures
        chars@ == label@ + signed_decimal(counter as int),
{
    let mut chars = chars_of(label);
    append_chars(&mut chars, &format_i64(counter));
    chars
}

/// The text of a list of replicas, with a comma and a space between them.
pub open spec fn pids_text(pids: Seq<Pid>) -> Seq<char>
    decreases pids.len(),
{
    if pids.len() == 0 {
        Seq::empty()
    } else if pids.len() == 1 {
        decimal(pids[0] as nat)
    } else {
        pids_text(pids.drop_last()) + ", "@ + decimal(pids.last() as nat)
    }
}

/// The text of an optional list of replicas.
pub open spec fn departed_text(departed: Option<Seq<Pid>>) -> Seq<char> {
    match departed {
        Some(pids) => "Some(["@ + pids_text(pids) + "])"@,
        None => "None"@,
    }
}

/// The text of an optional list of replicas.
fn departed_chars(departed: &Option<Vec<Pid>>) -> (chars: Vec<char>)
    ensures
        chars@ == departed_text(listed(*departed)),
{
    match departed {
        None => chars_of("None"),
        Some(pids) => {
            let mut list: Vec<char> = Vec::new();
            for i in 0..pids.len()
                invariant
                    list@ == pids_text(pids@.take(i as int)),
            {
                let ghost before = pids@.take(i as int);
                let ghost now = pids@.take(i + 1);
                proof {
                    assert(now.drop_last() =~= before);
                    assert(now.last() == pids@[i as int]);
                    assert(i == 0 ==> list@ =~= Seq::empty());
                    assert(i == 0 ==> now[0] == pids@[0]);
                    assert(Seq::<char>::empty() + decimal(pids@[i as int] as nat) =~= decimal(
                        pids@[i as int] as nat,
                    ));
                }
                if i > 0 {
                    append_chars(&mut list, &chars_of(", "));
                }
                append_chars(&mut list, &format_u128(pids[i]));
            }
            assert(pids@.take(pids@.len() as int) =~= pids@);
            let mut chars = chars_of("Some([");
            append_chars(&mut chars, &list);
            append_chars(&mut chars, &chars_of("])"));
            chars
        },
    }
}

/// The times at which the steps of a startup were done, in microseconds.
#[derive(Debug, Clone, Copy, PartialEq, Eq, Structural)]
pub struct StartupMetrics {
    pub crdt_pid_set_us: u128,
    pub http_server_ready_us: u128,
    pub network_manager_ready_us: u128,
    pub metric_writer_ready_us: u128,
    pub object_storage_client_start_us: u128,
    pub object_storage_client_ready_us: u128,
    pub replica_run_start_us: u128,
    pub replica_init_start_us: u128,
    pub persistent_state_fetch_completed_us: u128,
    pub membership_descriptor_write_completed_us: u128,
    pub membership_directory_read_completed_us: u128,
    pub replica_init_completed_us: u128,
}

impl Default for StartupMetrics {
    /// Nothing is done yet.
    fn default() -> (metrics: Self)
        ensures
            metrics == (StartupMetrics {
                crdt_pid_set_us: 0,
                http_server_ready_us: 0,
                network_manager_ready_us: 0,
                metric_writer_ready_us: 0,
                object_storage_client_start_us: 0,
                object_storage_client_ready_us: 0,
                replica_run_start_us: 0,
                replica_init_start_us: 0,
                persistent_state_fetch_completed_us: 0,
                membership_descriptor_write_completed_us: 0,
                membership_directory_read_completed_us: 0,
                replica_init_completed_us: 0,
            }),
    {
        StartupMetrics {
            crdt_pid_set_us: 0,
            http_server_ready_us: 0,
            network_manager_ready_us: 0,
            metric_writer_ready_us: 0,
            object_storage_client_start_us: 0,
            object_storage_client_ready_us: 0,
            replica_run_start_us: 0,
            replica_init_start_us: 0,
            persistent_state_fetch_completed_us: 0,
            membership_descriptor_write_completed_us: 0,
            membership_directory_read_completed_us: 0,
            replica_init_completed_us: 0,
        }
    }
}

impl StartupMetrics {
    /// The times of a replica that is constructed but not yet running.
    pub fn construction_complete(
        crdt_pid_set_us: u128,
        http_server_ready_us: u128,
        network_manager_ready_us: u128,
        metric_writer_ready_us: u128,
        object_storage_client_start_us: u128,
        object_storage_client_ready_us: u128,
    ) -> (metrics: Self)
        ensures
            metrics == (StartupMetrics {
                crdt_pid_set_us,
                http_server_ready_us,
                network_manager_ready_us,
                metric_writer_ready_us,
                object_storage_client_start_us,
                object_storage_client_ready_us,
                replica_run_start_us: 0,
                replica_init_start_us: 0,
                persistent_state_fetch_completed_us: 0,
                membership_descriptor_write_completed_us: 0,
                membership_directory_read_completed_us: 0,
                replica_init_completed_us: 0,
            }),
    {
        let mut metrics = StartupMetrics::default();
        metrics.crdt_pid_set_us = crdt_pid_set_us;
        metrics.http_server_ready_us = http_server_ready_us;
        metrics.network_manager_ready_us = network_manager_ready_us;
        metrics.metric_writer_ready_us = metric_writer_ready_us;
        metrics.object_storage_client_start_us = object_storage_client_start_us;
        metrics.object_storage_client_ready_us = object_storage_client_ready_us;
        metrics
    }

    /// Notes when the replica began to run.
    pub fn record_run_started(&mut self, timestamp_us: u128)
        ensures
            *final(self) == (StartupMetrics { replica_run_start_us: timestamp_us, ..*old(self) }),
    {
        self.replica_run_start_us = timestamp_us;
    }

    /// Notes when the steps of the bootstrap were done.
    pub fn record_bootstrap_completed(
        &mut self,
        replica_init_start_us: u128,
        persistent_state_fetch_completed_us: u128,
        membership_descriptor_write_completed_us: u128,
        membership_directory_read_completed_us: u128,
        replica_init_completed_us: u128,
    )
        ensures
            *final(self) == (StartupMetrics {
                replica_init_start_us,
                persistent_state_fetch_completed_us,
                membership_descriptor_write_completed_us,
                membership_directory_read_completed_us,
                replica_init_completed_us,
                ..*old(self)
            }),
    {
        self.replica_init_start_us = replica_init_start_us;
        self.persistent_state_fetch_completed_us = persistent_state_fetch_completed_us;
        self.membership_descriptor_write_completed_us = membership_descriptor_write_completed_us;
        self.membership_directory_read_completed_us = membership_directory_read_completed_us;
        self.replica_init_completed_us = replica_init_completed_us;
    }
}

/// The records of one replica.
#[derive(Debug, Clone, Copy, PartialEq, Eq, Structural)]
pub struct Metrics {
    pub replica_pid: Pid,
}

impl Metrics {
    /// The records of a replica.
    pub fn new(replica_pid: Pid) -> (metrics: Self)
        ensures
            metrics.replica_pid == replica_pid,
    {
        Metrics { replica_pid }
    }

    /// The name of the file that the records go to.
    pub fn file_name(&self) -> (name: String)
        ensures
            name@ == "server_"@ + decimal(self.replica_pid as nat) + ".csv"@,
    {
        let mut name = labelled("server_", self.replica_pid);
        append_chars(&mut name, &chars_of(".csv"));
        text_of(&name)
    }

    /// An event at one point in time.
    fn instant(
        &self,
        timestamp_us: u128,
        event: &str,
        phase: &str,
        peer_pid: Option<Pid>,
        gc_marker: Option<Counter>,
        detail: Option<String>,
    ) -> (record: MetricRecord)
        ensures
            record.is_of_server(),
            record@ == instant_view(
                self.replica_pid,
                timestamp_us,
                event@,
                phase@,
                peer_pid,
                gc_marker,
                text_view(detail),
            ),
    {
        MetricRecord {
            source: owned("server"),
            event: owned(event),
            phase: owned(phase),
            timestamp_us,
            replica_pid: self.replica_pid,
            peer_pid,
            gc_marker,
            sent_us: None,
            received_us: None,
            start_us: None,
            end_us: None,
            insert_count: None,
            delete_count: None,
            detail,
            client_id: None,
            operation: None,
            value: None,
            status_code: None,
            latency_us: None,
        }
    }

    /// An event that took some time.
    fn span(
        &self,
        event: &str,
        phase: &str,
        peer_pid: Option<Pid>,
        gc_marker: Option<Counter>,
        start_us: u128,
        end_us: u128,
        received_us: Option<u128>,
        detail: Option<String>,
    ) -> (record: MetricRecord)
        ensures
            record.is_of_server(),
            record@ == span_view(
                self.replica_pid,
                event@,
                phase@,
                peer_pid,
                gc_marker,
                start_us,
                end_us,
                received_us,
                text_view(detail),
            ),
    {
        MetricRecord {
            source: owned("server"),
            event: owned(event),
            phase: owned(phase),
            timestamp_us: end_us,
            replica_pid: self.replica_pid,
            peer_pid,
            gc_marker,
            sent_us: None,
            received_us,
            start_us: Some(start_us),
            end_us: Some(end_us),
            insert_count: None,
            delete_count: None,
            detail,
            client_id: None,
            operation: None,
            value: None,
            status_code: None,
            latency_us: Some(end_us.saturating_sub(start_us)),
        }
    }

    /// A delta group was refused because it was taken in an earlier epoch.
    pub fn peer_replication_merge_delta_refused_stale_gc(
        &self,
        refused_us: u128,
        remote_gc_counter: Counter,
        current_gc_counter: Counter,
        received_us: u128,
        delta_len: usize,
        sent_us: u128,
    ) -> (record: MetricRecord)
        ensures
            record.is_of_server(),
            record@ == (RecordView {
                event: "peer_replication_merge_delta"@,
                phase: "refused_stale_gc"@,
                timestamp_us: refused_us,
                replica_pid: self.replica_pid,
                peer_pid: None,
                gc_marker: Some(remote_gc_counter),
                sent_us: Some(sent_us),
                received_us: Some(received_us),
                start_us: None,
                end_us: None,
                detail: Some(
                    "remote_gc_counter="@ + signed_decimal(remote_gc_counter as int)
                        + ",current_gc_counter="@ + signed_decimal(current_gc_counter as int)
                        + ",delta_len="@ + decimal(delta_len as nat),
                ),
                latency_us: Some(elapsed(received_us, refused_us)),
            }),
    {
        let mut detail = labelled_counter("remote_gc_counter=", remote_gc_counter);
        append_chars(
            &mut detail,
            &labelled_counter(",current_gc_counter=", current_gc_counter),
        );
        append_chars(&mut detail, &labelled(",delta_len=", delta_len as u128));
        proof {
            let head = "remote_gc_counter="@ + signed_decimal(remote_gc_counter as int);
            let middle = ",current_gc_counter="@;
            let current = signed_decimal(current_gc_counter as int);
            assert(head + (middle + current) =~= head + middle + current);
            let label = ",delta_len="@;
            let number = decimal(delta_len as nat);
            assert((head + middle + current) + (label + number) =~= head + middle + current + label
                + number);
        }
        let mut record = self.instant(
            refused_us,
            "peer_replication_merge_delta",
            "refused_stale_gc",
            None,
            Some(remote_gc_counter),
            Some(text_of(&detail)),
        );
        record.sent_us = Some(sent_us);
        record.received_us = Some(received_us);
        record.latency_us = Some(refused_us.saturating_sub(received_us));
        record
    }

    /// A mutation of a client was applied.
    pub fn client_mutation_completed(
        &self,
        received_us: u128,
        start_us: u128,
        end_us: u128,
    ) -> (record: MetricRecord)
        ensures
            record.is_of_server(),
            record@ == span_view(
                self.replica_pid,
                "client_mutation"@,
                "completed"@,
                None,
                None,
                start_us,
                end_us,
                Some(received_us),
                Some("http_data_plane"@),
            ),
    {
        self.span(
            "client_mutation",
            "completed",
            None,
            None,
            start_us,
            end_us,
            Some(received_us),
            Some(owned("http_data_plane")),
        )
    }

    /// A connection to a peer was established.
    pub fn peer_replication_connection_established(
        &self,
        timestamp_us: u128,
        peer_pid: Pid,
    ) -> (record: MetricRecord)
        ensures
            record.is_of_server(),
            record@ == instant_view(
                self.replica_pid,
                timestamp_us,
                "peer_replication_connection"@,
                "established"@,
                Some(peer_pid),
                None,
                None,
            ),
    {
        self.instant(
            timestamp_us,
            "peer_replication_connection",
            "established",
            Some(peer_pid),
            None,
            None,
        )
    }

    /// The descriptors of a replica that was recovered were cleaned up, or were
    /// not.
    pub fn recovered_membership_cleanup(
        &self,
        timestamp_us: u128,
        peer_pid: Pid,
        failure: Option<String>,
    ) -> (record: MetricRecord)
        ensures
            record.is_of_server(),
            record@ == instant_view(
                self.replica_pid,
                timestamp_us,
                "recovered_membership_cleanup"@,
                if failure is None {
                    "completed"@
                } else {
                    "failed"@
                },
                Some(peer_pid),
                None,
                text_view(failure),
            ),
    {
        let phase = if failure.is_none() {
            "completed"
        } else {
            "failed"
        };
        self.instant(
            timestamp_us,
            "recovered_membership_cleanup",
            phase,
            Some(peer_pid),
            None,
            failure,
        )
    }

    /// The bootstrap began.
    pub fn replica_init_started(
        &self,
        timestamp_us: u128,
    ) -> (record: MetricRecord)
        ensures
            record.is_of_server(),
            record@ == instant_view(
                self.replica_pid,
                timestamp_us,
                "replica_init"@,
                "start"@,
                None,
                None,
                None,
            ),
    {
        self.instant(timestamp_us, "replica_init", "start", None, None, None)
    }

    /// The bootstrap is done.
    pub fn replica_init_completed(
        &self,
        timestamp_us: u128,
    ) -> (record: MetricRecord)
        ensures
            record.is_of_server(),
            record@ == instant_view(
                self.replica_pid,
                timestamp_us,
                "replica_init"@,
                "completed"@,
                None,
                None,
                None,
            ),
    {
        self.instant(timestamp_us, "replica_init", "completed", None, None, None)
    }

    /// The stored state was fetched.
    pub fn persistent_state_fetch_completed(
        &self,
        start_us: u128,
        end_us: u128,
        detail: String,
    ) -> (record: MetricRecord)
        ensures
            record.is_of_server(),
            record@ == span_view(
                self.replica_pid,
                "persistent_state_fetch"@,
                "completed"@,
                None,
                None,
                start_us,
                end_us,
                None,
                Some(detail@),
            ),
    {
        self.span(
            "persistent_state_fetch",
            "completed",
            None,
            None,
            start_us,
            end_us,
            None,
            Some(detail),
        )
    }

    /// There was no need to fetch a stored state.
    pub fn persistent_state_fetch_instant(
        &self,
        timestamp_us: u128,
        detail: String,
    ) -> (record: MetricRecord)
        ensures
            record.is_of_server(),
            record@ == instant_view(
                self.replica_pid,
                timestamp_us,
                "persistent_state_fetch"@,
                "completed"@,
                None,
                None,
                Some(detail@),
            ),
    {
        self.instant(timestamp_us, "persistent_state_fetch", "completed", None, None, Some(detail))
    }

    /// The own descriptor was written.
    pub fn membership_descriptor_write_completed(
        &self,
        start_us: u128,
        end_us: u128,
        detail: String,
    ) -> (record: MetricRecord)
        ensures
            record.is_of_server(),
            record@ == span_view(
                self.replica_pid,
                "membership_descriptor_write"@,
                "completed"@,
                None,
                None,
                start_us,
                end_us,
                None,
                Some(detail@),
            ),
    {
        self.span(
            "membership_descriptor_write",
            "completed",
            None,
            None,
            start_us,
            end_us,
            None,
            Some(detail),
        )
    }

    /// The membership directory was listed.
    pub fn membership_directory_read_completed(
        &self,
        gc_marker: Option<Counter>,
        start_us: u128,
        end_us: u128,
        detail: String,
    ) -> (record: MetricRecord)
        ensures
            record.is_of_server(),
            record@ == span_view(
                self.replica_pid,
                "membership_directory_read"@,
                "completed"@,
                None,
                gc_marker,
                start_us,
                end_us,
                None,
                Some(detail@),
            ),
    {
        self.span(
            "membership_directory_read",
            "completed",
            None,
            gc_marker,
            start_us,
            end_us,
            None,
            Some(detail),
        )
    }

    /// The membership directory could not be listed.
    pub fn membership_directory_read_failed(
        &self,
        gc_marker: Option<Counter>,
        start_us: u128,
        end_us: u128,
        operation: &str,
        error: &str,
    ) -> (record: MetricRecord)
        ensures
            record.is_of_server(),
            record@ == span_view(
                self.replica_pid,
                "membership_directory_read"@,
                "failed"@,
                None,
                gc_marker,
                start_us,
                end_us,
                None,
                Some(operation@ + ": "@ + error@),
            ),
    {
        let mut detail = chars_of(operation);
        append_chars(&mut detail, &chars_of(": "));
        append_chars(&mut detail, &chars_of(error));
        self.span(
            "membership_directory_read",
            "failed",
            None,
            gc_marker,
            start_us,
            end_us,
            None,
            Some(text_of(&detail)),
        )
    }

    /// The membership directory was listed, with so many descriptors in it.
    pub fn membership_directory_read_with_count(
        &self,
        gc_marker: Option<Counter>,
        start_us: u128,
        end_us: u128,
        operation: &str,
        descriptor_count: usize,
    ) -> (record: MetricRecord)
        ensures
            record.is_of_server(),
            record@ == span_view(
                self.replica_pid,
                "membership_directory_read"@,
                "completed"@,
                None,
                gc_marker,
                start_us,
                end_us,
                None,
                Some(operation@.push(':') + decimal(descriptor_count as nat) + " descriptors"@),
            ),
    {
        let mut detail = chars_of(operation);
        detail.push(':');
        append_chars(&mut detail, &format_u128(descriptor_count as u128));
        append_chars(&mut detail, &chars_of(" descriptors"));
        self.span(
            "membership_directory_read",
            "completed",
            None,
            gc_marker,
            start_us,
            end_us,
            None,
            Some(text_of(&detail)),
        )
    }

    /// The stored state was written.
    pub fn persistent_state_write_completed(
        &self,
        start_us: u128,
        end_us: u128,
        detail: Option<String>,
    ) -> (record: MetricRecord)
        ensures
            record.is_of_server(),
            record@ == span_view(
                self.replica_pid,
                "persistent_state_write"@,
                "completed"@,
                None,
                None,
                start_us,
                end_us,
                None,
                text_view(detail),
            ),
    {
        self.span("persistent_state_write", "completed", None, None, start_us, end_us, None, detail)
    }

    /// The stored state could not be written.
    pub fn persistent_state_write_failed(
        &self,
        start_us: u128,
        end_us: u128,
        detail: String,
    ) -> (record: MetricRecord)
        ensures
            record.is_of_server(),
            record@ == span_view(
                self.replica_pid,
                "persistent_state_write"@,
                "failed"@,
                None,
                None,
                start_us,
                end_us,
                None,
                Some(detail@),
            ),
    {
        self.span(
            "persistent_state_write",
            "failed",
            None,
            None,
            start_us,
            end_us,
            None,
            Some(detail),
        )
    }

    /// A delta group was merged.
    pub fn peer_replication_merge_delta_completed(
        &self,
        gc_marker: Option<Counter>,
        received_us: u128,
        start_us: u128,
        end_us: u128,
        delta_len: usize,
        sent_us: u128,
    ) -> (record: MetricRecord)
        ensures
            record.is_of_server(),
            record@ == span_view(
                self.replica_pid,
                "peer_replication_merge_delta"@,
                "completed"@,
                None,
                gc_marker,
                start_us,
                end_us,
                Some(received_us),
                Some(transfer_text(delta_len, sent_us)),
            ),
    {
        let detail = transfer_chars(delta_len, sent_us);
        self.span(
            "peer_replication_merge_delta",
            "completed",
            None,
            gc_marker,
            start_us,
            end_us,
            Some(received_us),
            Some(text_of(&detail)),
        )
    }

    /// A delta group was put together for a peer.
    pub fn peer_replication_get_delta_completed(
        &self,
        peer_pid: Pid,
        gc_marker: Option<Counter>,
        received_us: u128,
        start_us: u128,
        end_us: u128,
        delta_len: usize,
        sent_us: u128,
    ) -> (record: MetricRecord)
        ensures
            record.is_of_server(),
            record@ == span_view(
                self.replica_pid,
                "peer_replication_get_delta"@,
                "completed"@,
                Some(peer_pid),
                gc_marker,
                start_us,
                end_us,
                Some(received_us),
                Some(transfer_text(delta_len, sent_us)),
            ),
    {
        let detail = transfer_chars(delta_len, sent_us);
        self.span(
            "peer_replication_get_delta",
            "completed",
            Some(peer_pid),
            gc_marker,
            start_us,
            end_us,
            Some(received_us),
            Some(text_of(&detail)),
        )
    }

    /// A peer was asked for what is missing.
    pub fn peer_replication_pull_request_sent(
        &self,
        timestamp_us: u128,
        connected_peers: usize,
    ) -> (record: MetricRecord)
        ensures
            record.is_of_server(),
            record@ == instant_view(
                self.replica_pid,
                timestamp_us,
                "peer_replication_pull_request"@,
                "sent"@,
                None,
                None,
                Some("connected_peers="@ + decimal(connected_peers as nat)),
            ),
    {
        let detail = labelled("connected_peers=", connected_peers as u128);
        self.instant(
            timestamp_us,
            "peer_replication_pull_request",
            "sent",
            None,
            None,
            Some(text_of(&detail)),
        )
    }

    /// A round began.
    pub fn gc_init_started(
        &self,
        timestamp_us: u128,
        marker: Counter,
        previous_marker: Counter,
    ) -> (record: MetricRecord)
        ensures
            record.is_of_server(),
            record@ == instant_view(
                self.replica_pid,
                timestamp_us,
                "gc_init"@,
                "start"@,
                None,
                Some(marker),
                Some("previous_gc_marker="@ + signed_decimal(previous_marker as int)),
            ),
    {
        let detail = labelled_counter("previous_gc_marker=", previous_marker);
        self.instant(timestamp_us, "gc_init", "start", None, Some(marker), Some(text_of(&detail)))
    }

    /// A round could not begin.
    pub fn gc_init_failed(
        &self,
        timestamp_us: u128,
        marker: Counter,
        detail: String,
    ) -> (record: MetricRecord)
        ensures
            record.is_of_server(),
            record@ == instant_view(
                self.replica_pid,
                timestamp_us,
                "gc_init"@,
                "failed"@,
                None,
                Some(marker),
                Some(detail@),
            ),
    {
        self.instant(timestamp_us, "gc_init", "failed", None, Some(marker), Some(detail))
    }

    /// A round was given up, as the membership has changed.
    pub fn gc_init_aborted(
        &self,
        timestamp_us: u128,
        marker: Counter,
    ) -> (record: MetricRecord)
        ensures
            record.is_of_server(),
            record@ == instant_view(
                self.replica_pid,
                timestamp_us,
                "gc_init"@,
                "aborted"@,
                None,
                Some(marker),
                Some("membership_changed"@),
            ),
    {
        self.instant(
            timestamp_us,
            "gc_init",
            "aborted",
            None,
            Some(marker),
            Some(owned("membership_changed")),
        )
    }

    /// The own data was collected.
    pub fn gc_local_collect_completed(
        &self,
        marker: Counter,
        start_us: u128,
        end_us: u128,
        departed_pids: &Option<Vec<Pid>>,
    ) -> (record: MetricRecord)
        ensures
            record.is_of_server(),
            record@ == span_view(
                self.replica_pid,
                "gc_local_collect"@,
                "completed"@,
                None,
                Some(marker),
                start_us,
                end_us,
                None,
                Some("departed_pids="@ + departed_text(listed(*departed_pids))),
            ),
    {
        let mut detail = chars_of("departed_pids=");
        append_chars(&mut detail, &departed_chars(departed_pids));
        self.span(
            "gc_local_collect",
            "completed",
            None,
            Some(marker),
            start_us,
            end_us,
            None,
            Some(text_of(&detail)),
        )
    }

    /// The outcome of a round could not be stored.
    pub fn gc_persistent_state_write_failed(
        &self,
        timestamp_us: u128,
        marker: Counter,
        detail: String,
    ) -> (record: MetricRecord)
        ensures
            record.is_of_server(),
            record@ == instant_view(
                self.replica_pid,
                timestamp_us,
                "gc_persistent_state_write"@,
                "failed"@,
                None,
                Some(marker),
                Some(detail@),
            ),
    {
        self.instant(
            timestamp_us,
            "gc_persistent_state_write",
            "failed",
            None,
            Some(marker),
            Some(detail),
        )
    }

    /// The outcome of a round was stored.
    pub fn gc_persistent_state_write_completed(
        &self,
        marker: Counter,
        start_us: u128,
        end_us: u128,
        state_bytes: usize,
    ) -> (record: MetricRecord)
        ensures
            record.is_of_server(),
            record@ == span_view(
                self.replica_pid,
                "gc_persistent_state_write"@,
                "completed"@,
                None,
                Some(marker),
                start_us,
                end_us,
                None,
                Some("state_bytes="@ + decimal(state_bytes as nat)),
            ),
    {
        let detail = labelled("state_bytes=", state_bytes as u128);
        self.span(
            "gc_persistent_state_write",
            "completed",
            None,
            Some(marker),
            start_us,
            end_us,
            None,
            Some(text_of(&detail)),
        )
    }

    /// A round is done.
    pub fn gc_finalize_completed(
        &self,
        timestamp_us: u128,
        marker: Counter,
        detail: String,
    ) -> (record: MetricRecord)
        ensures
            record.is_of_server(),
            record@ == instant_view(
                self.replica_pid,
                timestamp_us,
                "gc_finalize"@,
                "completed"@,
                None,
                Some(marker),
                Some(detail@),
            ),
    {
        self.instant(timestamp_us, "gc_finalize", "completed", None, Some(marker), Some(detail))
    }

    /// The descriptors of departed replicas were deleted.
    pub fn gc_membership_cleanup_completed(
        &self,
        timestamp_us: u128,
        marker: Option<Counter>,
    ) -> (record: MetricRecord)
        ensures
            record.is_of_server(),
            record@ == instant_view(
                self.replica_pid,
                timestamp_us,
                "gc_membership_cleanup"@,
                "completed"@,
                None,
                marker,
                None,
            ),
    {
        self.instant(timestamp_us, "gc_membership_cleanup", "completed", None, marker, None)
    }

    /// The descriptor of a round was written.
    pub fn gc_membership_descriptor_write_completed(
        &self,
        timestamp_us: u128,
        marker: Counter,
        detail: String,
    ) -> (record: MetricRecord)
        ensures
            record.is_of_server(),
            record@ == instant_view(
                self.replica_pid,
                timestamp_us,
                "gc_membership_descriptor_write"@,
                "completed"@,
                None,
                Some(marker),
                Some(detail@),
            ),
    {
        self.instant(
            timestamp_us,
            "gc_membership_descriptor_write",
            "completed",
            None,
            Some(marker),
            Some(detail),
        )
    }

    /// The round of a peer is about to be applied.
    pub fn gc_observed_started(
        &self,
        timestamp_us: u128,
        marker: Counter,
    ) -> (record: MetricRecord)
        ensures
            record.is_of_server(),
            record@ == instant_view(
                self.replica_pid,
                timestamp_us,
                "gc_observed"@,
                "start"@,
                None,
                Some(marker),
                None,
            ),
    {
        self.instant(timestamp_us, "gc_observed", "start", None, Some(marker), None)
    }

    /// The round of a peer was applied.
    pub fn gc_observed_completed(
        &self,
        timestamp_us: u128,
        marker: Counter,
    ) -> (record: MetricRecord)
        ensures
            record.is_of_server(),
            record@ == instant_view(
                self.replica_pid,
                timestamp_us,
                "gc_observed"@,
                "completed"@,
                None,
                Some(marker),
                None,
            ),
    {
        self.instant(timestamp_us, "gc_observed", "completed", None, Some(marker), None)
    }
}

/// What is told of a delta group on its way.
pub open spec fn transfer_text(delta_len: usize, sent_us: u128) -> Seq<char> {
    "delta_len="@ + decimal(delta_len as nat) + ",sent_us="@ + decimal(sent_us as nat)
}

/// What is told of a delta group on its way.
fn transfer_chars(delta_len: usize, sent_us: u128) -> (chars: Vec<char>)
    ensures
        chars@ == transfer_text(delta_len, sent_us),
{
    let mut chars = labelled("delta_len=", delta_len as u128);
    append_chars(&mut chars, &chars_of(",sent_us="));
    append_chars(&mut chars, &format_u128(sent_us));
    chars
}

} // verus!
