//! The durability journal: a snapshot, and a log of what happened since.
//!
//! A generation is stamped on both, so that recovery ignores an old log if a
//! crash happens after the snapshot was replaced but before the log was
//! truncated. A record that was only half written is discarded together with
//! all that follows it.

use vstd::prelude::*;
use crate::crdt::{DeltaGroup, PersistentReplica, CRDT};
use crate::text::{append_chars, chars_equal, chars_of, decimal, format_u128, text_of};

pub mod laws;
pub mod operations;

verus! {

/// Why a journal cannot be used.
#[derive(Debug)]
pub enum JournalError {
    /// There are log records, but no snapshot that they extend.
    MissingSnapshot,
    /// The snapshot file holds a record of another type.
    UnknownRecordType(String),
    /// The snapshot cannot be decoded.
    Undecodable,
    /// A record does not fit the state that it is to be applied to.
    Inapplicable,
    /// The journal is to be repaired, and there is no generation left for it.
    NoGenerationLeft,
}

/// The byte that ends a record.
pub const LINE_END: u8 = 10;

/// The complete lines of a log, without their ends, and what follows the last
/// of them.
pub open spec fn frames(bytes: Seq<u8>) -> (Seq<Seq<u8>>, Seq<u8>)
    decreases bytes.len(),
{
    if bytes.len() == 0 {
        (Seq::empty(), Seq::empty())
    } else {
        let (lines, rest) = frames(bytes.drop_last());
        if bytes.last() == LINE_END {
            (lines.push(rest), Seq::empty())
        } else {
            (lines, rest.push(bytes.last()))
        }
    }
}

/// Whether a byte is white space in ASCII.
pub open spec fn is_ascii_white_space(byte: u8) -> bool {
    byte == 0x20 || byte == 0x09 || byte == 0x0a || byte == 0x0c || byte == 0x0d
}

/// Whether a line holds nothing but white space.
pub open spec fn is_blank_line(line: Seq<u8>) -> bool {
    forall|i: int| 0 <= i < line.len() ==> is_ascii_white_space(#[trigger] line[i])
}

/// The lines that hold a record.
pub open spec fn record_lines(lines: Seq<Seq<u8>>) -> Seq<Seq<u8>> {
    lines.filter(|line: Seq<u8>| !is_blank_line(line))
}

/// The views of a list of lines.
pub open spec fn lines_view(lines: Seq<Vec<u8>>) -> Seq<Seq<u8>> {
    lines.map_values(|line: Vec<u8>| line@)
}

/// Whether a line holds nothing but white space.
fn blank_line(line: &Vec<u8>) -> (blank: bool)
    ensures
        blank == is_blank_line(line@),
{
    for i in 0..line.len()
        invariant
            forall|j: int| 0 <= j < i ==> is_ascii_white_space(#[trigger] line@[j]),
    {
        let byte: u8 = line[i];
        if !(byte == 0x20 || byte == 0x09 || byte == 0x0a || byte == 0x0c || byte == 0x0d) {
            return false;
        }
    }
    true
}

/// Cuts a log into its records. The flag tells whether the last line was cut
/// off before its end.
pub fn split_log(bytes: &Vec<u8>) -> (log: (Vec<Vec<u8>>, bool))
    ensures
        lines_view(log.0@) == record_lines(frames(bytes@).0),
        log.1 == (frames(bytes@).1.len() > 0),
{
    let ghost keep = |line: Seq<u8>| !is_blank_line(line);
    let mut lines: Vec<Vec<u8>> = Vec::new();
    let mut line: Vec<u8> = Vec::new();
    proof {
        assert(bytes@.take(0) =~= Seq::<u8>::empty());
        assert(lines_view(lines@) =~= Seq::<Seq<u8>>::empty().filter(keep)) by {
            reveal(Seq::filter);
        }
    }
    for i in 0..bytes.len()
        invariant
            keep == (|line: Seq<u8>| !is_blank_line(line)),
            lines_view(lines@) == frames(bytes@.take(i as int)).0.filter(keep),
            line@ == frames(bytes@.take(i as int)).1,
    {
        let byte: u8 = bytes[i];
        let ghost found = lines_view(lines@);
        let ghost complete = frames(bytes@.take(i as int)).0;
        proof {
            assert(bytes@.take(i + 1).drop_last() =~= bytes@.take(i as int));
            assert(bytes@.take(i + 1).last() == byte);
        }
        if byte == LINE_END {
            let ghost text = line@;
            proof {
                lemma_filter_push(complete, keep, text);
            }
            if !blank_line(&line) {
                let mut next: Vec<u8> = Vec::new();
                std::mem::swap(&mut line, &mut next);
                lines.push(next);
                assert(lines_view(lines@) =~= found.push(text));
            } else {
                line = Vec::new();
            }
        } else {
            line.push(byte);
        }
    }
    assert(bytes@.take(bytes@.len() as int) =~= bytes@);
    let torn = line.len() > 0;
    (lines, torn)
}

/// What a filter keeps of a longer list.
pub proof fn lemma_filter_push(
    lines: Seq<Seq<u8>>,
    keep: spec_fn(Seq<u8>) -> bool,
    line: Seq<u8>,
)
    ensures
        lines.push(line).filter(keep) == if keep(line) {
            lines.filter(keep).push(line)
        } else {
            lines.filter(keep)
        },
{
    reveal(Seq::filter);
    assert(lines.push(line).drop_last() =~= lines);
}

/// The bytes of a record as they are written: its text and the end of the line.
pub fn frame_record(text: Vec<u8>) -> (bytes: Vec<u8>)
    ensures
        bytes@ == text@.push(LINE_END),
{
    let mut bytes = text;
    bytes.push(LINE_END);
    bytes
}

/// A record of the log. The payload is there as far as it could be decoded: as
/// a delta group, as a mutation, or not at all.
pub struct LogRecord<T: CRDT> {
    pub generation: u64,
    pub record_type: String,
    pub delta: Option<DeltaGroup<T::Delta>>,
    pub mutation: Option<T::Mutation>,
}

/// The record in the snapshot file, with the replica if it could be decoded.
pub struct SnapshotRecord<T: CRDT> {
    pub generation: u64,
    pub record_type: String,
    pub replica: Option<PersistentReplica<T>>,
}

/// How the replay of a log ends.
#[derive(Debug, Clone, Copy, PartialEq, Eq, Structural)]
pub enum ReplayEnd {
    /// Every record was replayed or belongs to another generation.
    Complete,
    /// A record is corrupt: what follows it is discarded.
    Corrupt,
    /// A record does not fit the state.
    Inapplicable,
}

/// What one record leads to: the next state, or the end of the replay.
pub open spec fn applied<T: CRDT>(
    state: T::State,
    generation: u64,
    line: Option<LogRecord<T>>,
) -> Result<T::State, ReplayEnd> {
    match line {
        None => Err(ReplayEnd::Corrupt),
        Some(record) => if record.generation != generation {
            Ok(state)
        } else if record.record_type@ == "delta_group"@ {
            match record.delta {
                Some(delta) => if T::can_merge(state, delta) {
                    Ok(T::merged(state, delta))
                } else {
                    Err(ReplayEnd::Inapplicable)
                },
                None => Err(ReplayEnd::Corrupt),
            }
        } else if record.record_type@ == "mutation"@ {
            match record.mutation {
                Some(mutation) => if T::can_mutate(state, mutation) {
                    Ok(T::mutated(state, mutation))
                } else {
                    Err(ReplayEnd::Inapplicable)
                },
                None => Err(ReplayEnd::Corrupt),
            }
        } else {
            Err(ReplayEnd::Corrupt)
        },
    }
}

/// The state that a log leads to, and how its replay ends.
pub open spec fn replayed<T: CRDT>(
    state: T::State,
    generation: u64,
    lines: Seq<Option<LogRecord<T>>>,
) -> (T::State, ReplayEnd)
    decreases lines.len(),
{
    if lines.len() == 0 {
        (state, ReplayEnd::Complete)
    } else {
        match applied::<T>(state, generation, lines[0]) {
            Ok(next) => replayed::<T>(next, generation, lines.skip(1)),
            Err(end) => (state, end),
        }
    }
}

/// Applies one record.
fn apply_record<T: CRDT>(
    replica: &mut PersistentReplica<T>,
    generation: u64,
    line: Option<LogRecord<T>>,
) -> (end: Option<ReplayEnd>)
    requires
        old(replica).local_state.valid(),
    ensures
        final(replica).local_state.valid(),
        final(replica).crdt_wrapper@ == old(replica).crdt_wrapper@,
        match applied::<T>(old(replica).local_state.state(), generation, line) {
            Ok(next) => end is None && final(replica).local_state.state() == next,
            Err(reason) => end == Some(reason) && final(replica).local_state.state() == old(
                replica,
            ).local_state.state(),
        },
{
    let record = match line {
        None => return Some(ReplayEnd::Corrupt),
        Some(record) => record,
    };
    if record.generation != generation {
        return None;
    }
    let record_type = chars_of(record.record_type.as_str());
    if chars_equal(&record_type, "delta_group") {
        match record.delta {
            Some(delta) => {
                if !replica.local_state.accepts_delta_group(&delta) {
                    return Some(ReplayEnd::Inapplicable);
                }
                replica.local_state.merge_delta_group(delta);
                None
            },
            None => Some(ReplayEnd::Corrupt),
        }
    } else if chars_equal(&record_type, "mutation") {
        match record.mutation {
            Some(mutation) => {
                if !replica.local_state.accepts_mutation(&mutation) {
                    return Some(ReplayEnd::Inapplicable);
                }
                replica.local_state.mutate(mutation);
                None
            },
            None => Some(ReplayEnd::Corrupt),
        }
    } else {
        Some(ReplayEnd::Corrupt)
    }
}

/// Replays a log on the snapshot that it extends. A record of another
/// generation is passed over; the first corrupt one ends the replay.
pub fn replay<T: CRDT>(
    replica: &mut PersistentReplica<T>,
    generation: u64,
    lines: Vec<Option<LogRecord<T>>>,
) -> (end: ReplayEnd)
    requires
        old(replica).local_state.valid(),
    ensures
        final(replica).local_state.valid(),
        final(replica).crdt_wrapper@ == old(replica).crdt_wrapper@,
        (final(replica).local_state.state(), end) == replayed::<T>(
            old(replica).local_state.state(),
            generation,
            lines@,
        ),
{
    let ghost all = lines@;
    let ghost start = replica.local_state.state();
    assert(all.skip(0) =~= all);
    for line in it: lines.into_iter()
        invariant
            it.seq() == all,
            replica.local_state.valid(),
            replica.crdt_wrapper@ == old(replica).crdt_wrapper@,
            start == old(replica).local_state.state(),
            all == lines@,
            replayed::<T>(start, generation, all) == replayed::<T>(
                replica.local_state.state(),
                generation,
                all.skip(it.index() as int),
            ),
    {
        proof {
            let rest = all.skip(it.index() as int);
            assert(rest[0] == line);
            assert(rest.skip(1) =~= all.skip(it.index() + 1));
        }
        if let Some(end) = apply_record(replica, generation, line) {
            return end;
        }
    }
    assert(all.skip(all.len() as int).len() == 0);
    ReplayEnd::Complete
}

/// What is on disk: whether there is a snapshot, and the records of the log. A
/// log that is not there has no bytes.
pub struct JournalFiles<T: CRDT> {
    pub snapshot: Option<SnapshotRecord<T>>,
    pub log_length: u64,
    pub lines: Vec<Option<LogRecord<T>>>,
    pub torn: bool,
}

/// What a journal gives back. Where a part of the log was discarded, the
/// replica is to be written anew under the generation given.
pub struct Recovery<T: CRDT> {
    pub replica: PersistentReplica<T>,
    pub repair: Option<u64>,
}

/// The file name that a journal goes by where its path has none.
pub open spec fn name_or(name: Option<Seq<char>>, default: Seq<char>) -> Seq<char> {
    match name {
        Some(name) => name,
        None => default,
    }
}

/// The characters of an optional name.
pub open spec fn name_view(name: Option<&str>) -> Option<Seq<char>> {
    match name {
        Some(name) => Some(name@),
        None => None,
    }
}

/// The characters of a name, or those that stand for it.
fn name_chars(name: Option<&str>, default: &str) -> (chars: Vec<char>)
    ensures
        chars@ == name_or(name_view(name), default@),
{
    match name {
        Some(name) => chars_of(name),
        None => chars_of(default),
    }
}

/// The name of the snapshot file of a journal.
pub fn snapshot_name(file_name: Option<&str>) -> (name: String)
    ensures
        name@ == name_or(name_view(file_name), "durability"@) + ".snapshot.json"@,
{
    let mut name = name_chars(file_name, "durability");
    append_chars(&mut name, &chars_of(".snapshot.json"));
    text_of(&name)
}

/// The name of the log file of a journal.
pub fn mutation_log_name(file_name: Option<&str>) -> (name: String)
    ensures
        name@ == name_or(name_view(file_name), "durability"@) + ".mutations.jsonl"@,
{
    let mut name = name_chars(file_name, "durability");
    append_chars(&mut name, &chars_of(".mutations.jsonl"));
    text_of(&name)
}

/// The name of the file that keeps other processes out of a journal.
pub fn lock_name(file_name: Option<&str>) -> (name: String)
    ensures
        name@ == seq!['.'] + name_or(name_view(file_name), "durability"@) + ".lock"@,
{
    let mut name = vec!['.'];
    append_chars(&mut name, &name_chars(file_name, "durability"));
    append_chars(&mut name, &chars_of(".lock"));
    text_of(&name)
}

/// The name of the file that replaces a snapshot once it is complete.
pub fn replacement_name(file_name: Option<&str>, process_id: u32) -> (name: String)
    ensures
        name@ == (seq!['.'] + name_or(name_view(file_name), "durability.snapshot.json"@)).push('.')
            + decimal(process_id as nat) + ".tmp"@,
{
    let mut name = vec!['.'];
    append_chars(&mut name, &name_chars(file_name, "durability.snapshot.json"));
    name.push('.');
    append_chars(&mut name, &format_u128(process_id as u128));
    append_chars(&mut name, &chars_of(".tmp"));
    text_of(&name)
}

/// The generation of a snapshot file, which may be missing.
pub fn snapshot_generation(record: Option<(u64, &str)>) -> (generation: Result<u64, JournalError>)
    ensures
        match record {
            None => generation is Ok && generation->Ok_0 == 0,
            Some((stamp, record_type)) => if record_type@ == "snapshot"@ {
                generation is Ok && generation->Ok_0 == stamp
            } else {
                generation is Err && generation->Err_0 is UnknownRecordType
                    && generation->Err_0->UnknownRecordType_0@ == record_type@
            },
        },
{
    match record {
        None => Ok(0),
        Some((stamp, record_type)) => {
            let chars = chars_of(record_type);
            if chars_equal(&chars, "snapshot") {
                Ok(stamp)
            } else {
                Err(JournalError::UnknownRecordType(text_of(&chars)))
            }
        },
    }
}

/// The journal of a replica: where it is switched off nothing is kept.
#[derive(Debug)]
pub struct DiskJournal {
    enabled: bool,
    generation: u64,
}

/// The meaning of a [`DiskJournal`].
pub struct JournalView {
    pub enabled: bool,
    pub generation: u64,
}

impl View for DiskJournal {
    type V = JournalView;

    closed spec fn view(&self) -> JournalView {
        JournalView { enabled: self.enabled, generation: self.generation }
    }
}

impl<T: CRDT> JournalFiles<T> {
    /// The data of the snapshot is valid where there is one.
    pub open spec fn wf(&self) -> bool {
        match self.snapshot {
            Some(record) => record.replica is Some ==> record.replica->0.local_state.valid(),
            None => true,
        }
    }

    /// Why nothing can be recovered, if so, before the log is replayed.
    pub open spec fn refusal(&self) -> Option<JournalError> {
        match self.snapshot {
            None => if self.log_length > 0 {
                Some(JournalError::MissingSnapshot)
            } else {
                None
            },
            Some(record) => if record.record_type@ != "snapshot"@ {
                Some(JournalError::UnknownRecordType(record.record_type))
            } else if record.replica is None {
                Some(JournalError::Undecodable)
            } else {
                None
            },
        }
    }
}

/// Whether `error` says the same as `expected`.
pub open spec fn same_error(error: JournalError, expected: JournalError) -> bool {
    match (error, expected) {
        (JournalError::MissingSnapshot, JournalError::MissingSnapshot) => true,
        (JournalError::UnknownRecordType(a), JournalError::UnknownRecordType(b)) => a@ == b@,
        (JournalError::Undecodable, JournalError::Undecodable) => true,
        (JournalError::Inapplicable, JournalError::Inapplicable) => true,
        (JournalError::NoGenerationLeft, JournalError::NoGenerationLeft) => true,
        _ => false,
    }
}

/// Whether `outcome` is what the files give back.
pub open spec fn recovers<T: CRDT>(
    files: JournalFiles<T>,
    outcome: Result<Option<Recovery<T>>, JournalError>,
) -> bool {
    match (files.refusal(), files.snapshot) {
        (Some(expected), _) => outcome is Err && same_error(outcome->Err_0, expected),
        (None, None) => outcome is Ok && outcome->Ok_0 is None,
        (None, Some(record)) => {
            let kept = record.replica->0;
            let (state, end) = replayed::<T>(
                kept.local_state.state(),
                record.generation,
                files.lines@,
            );
            if end is Inapplicable {
                outcome is Err && outcome->Err_0 is Inapplicable
            } else if (end is Corrupt || files.torn) && record.generation == u64::MAX {
                outcome is Err && outcome->Err_0 is NoGenerationLeft
            } else {
                &&& outcome is Ok && outcome->Ok_0 is Some
                &&& outcome->Ok_0->0.replica.local_state.valid()
                &&& outcome->Ok_0->0.replica.local_state.state() == state
                &&& outcome->Ok_0->0.replica.crdt_wrapper@ == kept.crdt_wrapper@
                &&& outcome->Ok_0->0.repair == if end is Corrupt || files.torn {
                    Some((record.generation + 1) as u64)
                } else {
                    None
                }
            }
        },
    }
}

impl DiskJournal {
    /// A journal on disk, given the generation and the type of the record in
    /// its snapshot file, if there is one.
    pub fn new(snapshot: Option<(u64, &str)>) -> (journal: Result<Self, JournalError>)
        ensures
            match snapshot {
                None => journal is Ok && journal->Ok_0@ == (JournalView {
                    enabled: true,
                    generation: 0,
                }),
                Some((stamp, record_type)) => if record_type@ == "snapshot"@ {
                    journal is Ok && journal->Ok_0@ == (JournalView {
                        enabled: true,
                        generation: stamp,
                    })
                } else {
                    journal is Err && journal->Err_0 is UnknownRecordType
                        && journal->Err_0->UnknownRecordType_0@ == record_type@
                },
            },
    {
        match snapshot_generation(snapshot) {
            Ok(generation) => Ok(DiskJournal { enabled: true, generation }),
            Err(error) => Err(error),
        }
    }

    /// The journal of a replica that keeps nothing.
    pub fn disabled() -> (journal: Self)
        ensures
            journal@ == (JournalView { enabled: false, generation: 0 }),
    {
        DiskJournal { enabled: false, generation: 0 }
    }

    /// Whether anything is kept.
    pub fn is_enabled(&self) -> (enabled: bool)
        ensures
            enabled == self@.enabled,
    {
        self.enabled
    }

    /// Reads back what is on disk.
    pub fn recover<T: CRDT>(&self, files: JournalFiles<T>) -> (outcome: Result<
        Option<Recovery<T>>,
        JournalError,
    >)
        requires
            files.wf(),
        ensures
            !self@.enabled ==> outcome is Ok && outcome->Ok_0 is None,
            self@.enabled ==> recovers(files, outcome),
    {
        if !self.enabled {
            return Ok(None);
        }
        let record = match files.snapshot {
            None => {
                if files.log_length > 0 {
                    return Err(JournalError::MissingSnapshot);
                }
                return Ok(None);
            },
            Some(record) => record,
        };
        let record_type = chars_of(record.record_type.as_str());
        if !chars_equal(&record_type, "snapshot") {
            return Err(JournalError::UnknownRecordType(record.record_type));
        }
        let mut replica = match record.replica {
            None => return Err(JournalError::Undecodable),
            Some(replica) => replica,
        };
        let end = replay(&mut replica, record.generation, files.lines);
        let discard_suffix = match end {
            ReplayEnd::Inapplicable => return Err(JournalError::Inapplicable),
            ReplayEnd::Corrupt => true,
            ReplayEnd::Complete => files.torn,
        };
        if discard_suffix && record.generation == u64::MAX {
            return Err(JournalError::NoGenerationLeft);
        }
        let repair = if discard_suffix {
            Some(record.generation + 1)
        } else {
            None
        };
        Ok(Some(Recovery { replica, repair }))
    }

    /// The generation of the next snapshot; none where nothing is kept.
    pub fn next_generation(&self) -> (generation: Option<u64>)
        requires
            self@.enabled ==> self@.generation < u64::MAX,
        ensures
            generation == if self@.enabled {
                Some((self@.generation + 1) as u64)
            } else {
                None
            },
    {
        if self.enabled {
            Some(self.generation + 1)
        } else {
            None
        }
    }

    /// The generation that is stamped on a record; none where nothing is kept.
    pub fn record_generation(&self) -> (generation: Option<u64>)
        ensures
            generation == if self@.enabled {
                Some(self@.generation)
            } else {
                None
            },
    {
        if self.enabled {
            Some(self.generation)
        } else {
            None
        }
    }

    /// Goes over to the generation of a snapshot that is on disk now.
    pub fn commit(&mut self, generation: u64)
        ensures
            final(self)@ == (JournalView { generation, ..old(self)@ }),
    {
        self.generation = generation;
    }
}

} // verus!
