//! What a journal makes of the bytes and the records that it is given.

use vstd::prelude::*;
use super::{
    applied, frames, is_ascii_white_space, is_blank_line, lines_view, name_or, name_view,
    record_lines, recovers, replayed, same_error, JournalError, JournalFiles, LogRecord, Recovery,
    ReplayEnd,
};
use crate::crdt::{PersistentReplica, CRDT};
use crate::dots::dot_map::lemma_filter_holds;

verus! {

/// A line ends at every line feed and nowhere else. A log is thus cut into its
/// lines byte by byte.
pub proof fn law_line_feeds_end_lines(bytes: Seq<u8>, byte: u8)
    ensures
        frames(Seq::empty()).0.len() == 0,
        frames(Seq::empty()).1.len() == 0,
        byte == 10 ==> frames(bytes.push(byte)).0 == frames(bytes).0.push(frames(bytes).1),
        byte == 10 ==> frames(bytes.push(byte)).1 == Seq::<u8>::empty(),
        byte != 10 ==> frames(bytes.push(byte)).0 == frames(bytes).0,
        byte != 10 ==> frames(bytes.push(byte)).1 == frames(bytes).1.push(byte),
{
    assert(bytes.push(byte).drop_last() =~= bytes);
}

/// A line is blank if it holds nothing but spaces, tabs, line feeds, form feeds
/// and carriage returns. The records are the other lines, all of them and in
/// their order.
pub proof fn law_blank_lines_are_left_out(lines: Seq<Seq<u8>>, line: Seq<u8>, byte: u8, i: int)
    ensures
        is_ascii_white_space(byte) <==> byte == 32 || byte == 9 || byte == 10 || byte == 12 || byte
            == 13,
        is_blank_line(Seq::empty()),
        is_blank_line(line) && 0 <= i < line.len() ==> line[i] == 32 || 9 <= line[i] <= 10 || 12
            <= line[i] <= 13,
        !is_blank_line(line) ==> exists|j: int|
            0 <= j < line.len() && (#[trigger] line[j]) != 32 && line[j] != 9 && line[j] != 10
                && line[j] != 12 && line[j] != 13,
        record_lines(lines).contains(line) <==> lines.contains(line) && !is_blank_line(line),
        record_lines(Seq::empty()) == Seq::<Seq<u8>>::empty(),
        record_lines(lines.push(line)) == if is_blank_line(line) {
            record_lines(lines)
        } else {
            record_lines(lines).push(line)
        },
{
    if !is_blank_line(line) {
        let j = choose|j: int| 0 <= j < line.len() && !is_ascii_white_space(#[trigger] line[j]);
        assert(line[j] != 32);
    }
    lemma_filter_holds(lines, |line: Seq<u8>| !is_blank_line(line), line);
    super::lemma_filter_push(lines, |line: Seq<u8>| !is_blank_line(line), line);
    reveal(Seq::filter);
}

/// The lines are seen as they are.
pub proof fn law_lines_are_seen_as_they_are(lines: Seq<Vec<u8>>, i: int)
    ensures
        lines_view(lines).len() == lines.len(),
        0 <= i < lines.len() ==> lines_view(lines)[i] == lines[i]@,
{
}

/// A record of another generation changes nothing, whatever it holds. One of
/// the same generation is a delta group that is merged or a mutation that is
/// applied; where it does not fit, the replay ends as inapplicable. Everything
/// else is corrupt.
pub proof fn law_records_are_applied_by_type<T: CRDT>(
    state: T::State,
    generation: u64,
    record: LogRecord<T>,
)
    ensures
        ({
            let outcome = applied::<T>(state, generation, Some(record));
            let current = record.generation == generation;
            let is_group = record.record_type@ == "delta_group"@;
            let is_mutation = record.record_type@ == "mutation"@;
            &&& applied::<T>(state, generation, None) == Err::<T::State, ReplayEnd>(
                ReplayEnd::Corrupt,
            )
            &&& !current ==> outcome == Ok::<T::State, ReplayEnd>(state)
            &&& current && is_group && record.delta is Some && T::can_merge(state, record.delta->0)
                ==> outcome == Ok::<T::State, ReplayEnd>(T::merged(state, record.delta->0))
            &&& current && is_group && record.delta is Some && !T::can_merge(state, record.delta->0)
                ==> outcome == Err::<T::State, ReplayEnd>(ReplayEnd::Inapplicable)
            &&& current && is_mutation && record.mutation is Some && T::can_mutate(
                state,
                record.mutation->0,
            ) ==> outcome == Ok::<T::State, ReplayEnd>(T::mutated(state, record.mutation->0))
            &&& current && is_mutation && record.mutation is Some && !T::can_mutate(
                state,
                record.mutation->0,
            ) ==> outcome == Err::<T::State, ReplayEnd>(ReplayEnd::Inapplicable)
            &&& current && (is_group ==> record.delta is None) && (is_mutation
                ==> record.mutation is None) ==> outcome == Err::<T::State, ReplayEnd>(
                ReplayEnd::Corrupt,
            )
        }),
{
    assert("delta_group"@.len() != "mutation"@.len()) by {
        reveal_strlit("delta_group");
        reveal_strlit("mutation");
    }
}

/// A log is replayed record by record, from the first on, until one of them
/// ends the replay; the state is then that before it.
pub proof fn law_replay_stops_at_the_first_bad_record<T: CRDT>(
    state: T::State,
    generation: u64,
    line: Option<LogRecord<T>>,
    lines: Seq<Option<LogRecord<T>>>,
)
    ensures
        replayed::<T>(state, generation, Seq::empty()) == (state, ReplayEnd::Complete),
        applied::<T>(state, generation, line) is Ok ==> replayed::<T>(
            state,
            generation,
            seq![line] + lines,
        ) == replayed::<T>(applied::<T>(state, generation, line)->Ok_0, generation, lines),
        applied::<T>(state, generation, line) is Err ==> replayed::<T>(
            state,
            generation,
            seq![line] + lines,
        ) == (state, applied::<T>(state, generation, line)->Err_0),
{
    let all = seq![line] + lines;
    assert(all[0] == line);
    assert(all.skip(1) =~= lines);
}

/// A path without a file name goes by the default one.
pub proof fn law_names_default(name: &str, default: Seq<char>)
    ensures
        name_or(name_view(Some(name)), default) == name@,
        name_or(name_view(None), default) == default,
{
}

/// Files can be read back unless they hold a replica whose data is not valid.
pub proof fn law_files_need_valid_data<T: CRDT>(files: JournalFiles<T>)
    ensures
        !files.wf() <==> files.snapshot is Some && files.snapshot->0.replica is Some
            && !files.snapshot->0.replica->0.local_state.valid(),
{
}

/// Without a snapshot nothing is recovered, and it is an error if there are log
/// records nevertheless. A snapshot of another type, or one that cannot be
/// decoded, is an error.
pub proof fn law_unusable_files_are_refused<T: CRDT>(
    files: JournalFiles<T>,
    outcome: Result<Option<Recovery<T>>, JournalError>,
)
    requires
        recovers(files, outcome),
    ensures
        files.snapshot is None && files.log_length == 0 ==> outcome is Ok && outcome->Ok_0 is None,
        files.snapshot is None && files.log_length > 0 ==> outcome is Err
            && outcome->Err_0 is MissingSnapshot,
        files.snapshot is Some && files.snapshot->0.record_type@ != "snapshot"@ ==> outcome is Err
            && outcome->Err_0 is UnknownRecordType && outcome->Err_0->UnknownRecordType_0@
            == files.snapshot->0.record_type@,
        files.snapshot is Some && files.snapshot->0.record_type@ == "snapshot"@
            && files.snapshot->0.replica is None ==> outcome is Err
            && outcome->Err_0 is Undecodable,
{
}

/// A snapshot that can be decoded gives back its replica with the log replayed
/// on its data. The journal is to be repaired, under the next generation, if
/// the replay met a corrupt record or the last line was cut off. It is an error
/// if a record did not fit, or if there is no next generation to repair under.
pub proof fn law_snapshot_and_log_are_recovered<T: CRDT>(
    files: JournalFiles<T>,
    outcome: Result<Option<Recovery<T>>, JournalError>,
    kept: PersistentReplica<T>,
)
    requires
        recovers(files, outcome),
        files.snapshot is Some,
        files.snapshot->0.record_type@ == "snapshot"@,
        files.snapshot->0.replica == Some(kept),
    ensures
        ({
            let generation = files.snapshot->0.generation;
            let (state, end) = replayed::<T>(kept.local_state.state(), generation, files.lines@);
            let cut = end is Corrupt || files.torn;
            let found = outcome->Ok_0->0;
            &&& outcome is Err <==> end is Inapplicable || (cut && generation == u64::MAX)
            &&& end is Inapplicable ==> outcome->Err_0 is Inapplicable
            &&& outcome is Err && !(end is Inapplicable) ==> outcome->Err_0 is NoGenerationLeft
            &&& outcome is Ok ==> {
                &&& outcome->Ok_0 is Some
                &&& found.replica.local_state.valid()
                &&& found.replica.local_state.state() == state
                &&& found.replica.crdt_wrapper@ == kept.crdt_wrapper@
                &&& found.repair is Some <==> cut
                &&& cut ==> found.repair->0 == generation + 1
            }
        }),
{
}

/// Two errors are the same if they are of one kind and, where they name a
/// record type, name the same one.
pub proof fn law_errors_are_told_apart(a: JournalError, b: JournalError)
    ensures
        same_error(a, b) ==> (a is MissingSnapshot <==> b is MissingSnapshot),
        same_error(a, b) ==> (a is UnknownRecordType <==> b is UnknownRecordType),
        same_error(a, b) ==> (a is Undecodable <==> b is Undecodable),
        same_error(a, b) ==> (a is Inapplicable <==> b is Inapplicable),
        same_error(a, b) ==> (a is NoGenerationLeft <==> b is NoGenerationLeft),
        a is UnknownRecordType && b is UnknownRecordType ==> (same_error(a, b)
            <==> a->UnknownRecordType_0@ == b->UnknownRecordType_0@),
        same_error(a, a),
{
}

} // verus!
