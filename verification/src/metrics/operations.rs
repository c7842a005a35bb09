//! What the records of a replica hold.

use vstd::prelude::*;
use super::{
    departed_text, elapsed, instant_view, pids_text, span_view, transfer_text, MetricRecord,
};
use crate::dots::Counter;
use crate::prelude::Pid;
use crate::text::decimal;

verus! {

/// A time that has passed is the difference of its ends, and none where the
/// clock went back.
pub proof fn law_elapsed_time(from_us: u128, to_us: u128)
    ensures
        from_us <= to_us ==> elapsed(from_us, to_us) + from_us == to_us,
        to_us < from_us ==> elapsed(from_us, to_us) == 0,
{
}

/// The record of an instant holds what is told of it and no other time.
pub proof fn law_records_of_instants(
    replica_pid: Pid,
    timestamp_us: u128,
    event: Seq<char>,
    phase: Seq<char>,
    peer_pid: Option<Pid>,
    gc_marker: Option<Counter>,
    detail: Option<Seq<char>>,
)
    ensures
        ({
            let record = instant_view(
                replica_pid,
                timestamp_us,
                event,
                phase,
                peer_pid,
                gc_marker,
                detail,
            );
            &&& record.event == event
            &&& record.phase == phase
            &&& record.timestamp_us == timestamp_us
            &&& record.replica_pid == replica_pid
            &&& record.peer_pid == peer_pid
            &&& record.gc_marker == gc_marker
            &&& record.detail == detail
            &&& record.sent_us is None && record.received_us is None
            &&& record.start_us is None && record.end_us is None
            &&& record.latency_us is None
        }),
{
}

/// The record of a span holds what is told of it, is stamped with its end, and
/// its latency is the time from its start to its end.
pub proof fn law_records_of_spans(
    replica_pid: Pid,
    event: Seq<char>,
    phase: Seq<char>,
    peer_pid: Option<Pid>,
    gc_marker: Option<Counter>,
    start_us: u128,
    end_us: u128,
    received_us: Option<u128>,
    detail: Option<Seq<char>>,
)
    ensures
        ({
            let record = span_view(
                replica_pid,
                event,
                phase,
                peer_pid,
                gc_marker,
                start_us,
                end_us,
                received_us,
                detail,
            );
            &&& record.event == event
            &&& record.phase == phase
            &&& record.timestamp_us == end_us
            &&& record.replica_pid == replica_pid
            &&& record.peer_pid == peer_pid
            &&& record.gc_marker == gc_marker
            &&& record.detail == detail
            &&& record.sent_us is None && record.received_us == received_us
            &&& record.start_us == Some(start_us) && record.end_us == Some(end_us)
            &&& start_us <= end_us ==> record.latency_us == Some((end_us - start_us) as u128)
            &&& end_us < start_us ==> record.latency_us == Some(0u128)
        }),
{
}

/// A record of a replica names the server as its source and holds nothing that
/// only a client reports; the rest is seen as it is.
pub proof fn law_records_of_the_server(record: MetricRecord)
    ensures
        record.is_of_server() <==> {
            &&& record.source@ == "server"@
            &&& record.insert_count is None && record.delete_count is None
            &&& record.client_id is None && record.operation is None
            &&& record.value is None && record.status_code is None
        },
        record@.event == record.event@,
        record@.phase == record.phase@,
        record@.timestamp_us == record.timestamp_us,
        record@.replica_pid == record.replica_pid,
        record@.peer_pid == record.peer_pid,
        record@.gc_marker == record.gc_marker,
        record@.sent_us == record.sent_us,
        record@.received_us == record.received_us,
        record@.start_us == record.start_us,
        record@.end_us == record.end_us,
        record.detail is None ==> record@.detail is None,
        record.detail is Some ==> record@.detail == Some(record.detail->0@),
        record@.latency_us == record.latency_us,
{
}

/// A list of replicas is written with a comma and a space between any two, and
/// an optional one in brackets.
pub proof fn law_lists_of_replicas_are_written(pids: Seq<Pid>, pid: Pid)
    ensures
        pids_text(Seq::empty()) == Seq::<char>::empty(),
        pids_text(seq![pid]) == decimal(pid as nat),
        pids.len() > 0 ==> pids_text(pids.push(pid)) == pids_text(pids) + seq![',', ' ']
            + decimal(pid as nat),
        departed_text(None) == seq!['N', 'o', 'n', 'e'],
        departed_text(Some(pids)) == seq!['S', 'o', 'm', 'e', '(', '['] + pids_text(pids)
            + seq![']', ')'],
{
    reveal_strlit(", ");
    reveal_strlit("None");
    reveal_strlit("Some([");
    reveal_strlit("])");
    assert(", "@ =~= seq![',', ' ']);
    assert("None"@ =~= seq!['N', 'o', 'n', 'e']);
    assert("Some(["@ =~= seq!['S', 'o', 'm', 'e', '(', '[']);
    assert("])"@ =~= seq![']', ')']);
    assert(pids.push(pid).drop_last() =~= pids);
}

/// Of a delta group on its way the number of deltas and the time are told.
pub proof fn law_transfers_are_written(delta_len: usize, sent_us: u128)
    ensures
        transfer_text(delta_len, sent_us) == "delta_len="@ + decimal(delta_len as nat)
            + ",sent_us="@ + decimal(sent_us as nat),
{
}

} // verus!
