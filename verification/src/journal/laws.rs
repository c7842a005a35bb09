//! What holds of the journal as a whole.

use vstd::prelude::*;
use super::{
    applied, frames, record_lines, replayed, LogRecord, ReplayEnd, LINE_END,
};
use crate::crdt::{DeltaGroup, CRDT};

verus! {

/// The bytes of a log with the given lines.
pub open spec fn framed(lines: Seq<Seq<u8>>) -> Seq<u8>
    decreases lines.len(),
{
    if lines.len() == 0 {
        Seq::empty()
    } else {
        framed(lines.drop_last()) + lines.last().push(LINE_END)
    }
}

/// Whether a line has no end inside.
pub open spec fn is_one_line(line: Seq<u8>) -> bool {
    forall|i: int| 0 <= i < line.len() ==> #[trigger] line[i] != LINE_END
}

/// The frames of a log that goes on within a line.
proof fn lemma_frames_within_a_line(bytes: Seq<u8>, more: Seq<u8>)
    requires
        is_one_line(more),
    ensures
        frames(bytes + more).0 == frames(bytes).0,
        frames(bytes + more).1 == frames(bytes).1 + more,
    decreases more.len(),
{
    if more.len() == 0 {
        assert(bytes + more =~= bytes);
        assert(frames(bytes).1 + more =~= frames(bytes).1);
    } else {
        lemma_frames_within_a_line(bytes, more.drop_last());
        assert((bytes + more).drop_last() =~= bytes + more.drop_last());
        assert((bytes + more).last() == more.last());
        assert(frames(bytes).1 + more =~= (frames(bytes).1 + more.drop_last()).push(more.last()));
    }
}

/// A log is read back line by line, as it was written.
pub proof fn law_log_is_read_back(lines: Seq<Seq<u8>>)
    requires
        forall|i: int| 0 <= i < lines.len() ==> is_one_line(#[trigger] lines[i]),
    ensures
        frames(framed(lines)) == (lines, Seq::<u8>::empty()),
    decreases lines.len(),
{
    if lines.len() > 0 {
        let before = framed(lines.drop_last());
        let line = lines.last();
        law_log_is_read_back(lines.drop_last());
        assert(is_one_line(lines[lines.len() - 1]));
        lemma_frames_within_a_line(before, line);
        let all = framed(lines);
        assert(all =~= (before + line).push(LINE_END));
        assert(all.drop_last() =~= before + line);
        assert(Seq::<u8>::empty() + line =~= line);
        assert(lines.drop_last().push(line) =~= lines);
    } else {
        assert(lines =~= Seq::empty());
    }
}

/// Wherever a crash cuts a log off, what is read back is some of its first
/// lines, whole.
pub proof fn law_cut_log_keeps_whole_lines(lines: Seq<Seq<u8>>, cut: int)
    requires
        forall|i: int| 0 <= i < lines.len() ==> is_one_line(#[trigger] lines[i]),
        0 <= cut <= framed(lines).len(),
    ensures
        frames(framed(lines).take(cut)).0.len() <= lines.len(),
        frames(framed(lines).take(cut)).0 == lines.take(
            frames(framed(lines).take(cut)).0.len() as int,
        ),
    decreases lines.len(),
{
    if lines.len() == 0 {
        assert(framed(lines).take(cut) =~= Seq::empty());
        assert(lines.take(0) =~= Seq::empty());
    } else {
        let before = framed(lines.drop_last());
        let line = lines.last();
        assert(is_one_line(lines[lines.len() - 1]));
        let all = framed(lines);
        assert(all =~= before + line.push(LINE_END));
        if cut <= before.len() {
            law_cut_log_keeps_whole_lines(lines.drop_last(), cut);
            assert(all.take(cut) =~= before.take(cut));
            let n = frames(before.take(cut)).0.len() as int;
            assert(lines.drop_last().take(n) =~= lines.take(n));
        } else if cut < all.len() {
            law_log_is_read_back(lines.drop_last());
            let part = line.take(cut - before.len());
            assert(is_one_line(part));
            lemma_frames_within_a_line(before, part);
            assert(all.take(cut) =~= before + part);
            assert(lines.take(lines.len() - 1) =~= lines.drop_last());
        } else {
            law_log_is_read_back(lines);
            assert(all.take(cut) =~= all);
            assert(lines.take(lines.len() as int) =~= lines);
        }
    }
}

/// Whether every record can be replayed, one after another, in the given
/// generation.
pub open spec fn applicable<T: CRDT>(
    state: T::State,
    generation: u64,
    lines: Seq<Option<LogRecord<T>>>,
) -> bool {
    replayed::<T>(state, generation, lines).1 is Complete
}

/// A replay goes on where that of the records before it ended.
pub proof fn law_replay_goes_on<T: CRDT>(
    state: T::State,
    generation: u64,
    lines: Seq<Option<LogRecord<T>>>,
    more: Seq<Option<LogRecord<T>>>,
)
    requires
        applicable::<T>(state, generation, lines),
    ensures
        replayed::<T>(state, generation, lines + more) == replayed::<T>(
            replayed::<T>(state, generation, lines).0,
            generation,
            more,
        ),
    decreases lines.len(),
{
    if lines.len() == 0 {
        assert(lines + more =~= more);
    } else {
        let next = applied::<T>(state, generation, lines[0])->Ok_0;
        law_replay_goes_on::<T>(next, generation, lines.skip(1), more);
        assert((lines + more)[0] == lines[0]);
        assert((lines + more).skip(1) =~= lines.skip(1) + more);
    }
}

/// A record that is appended to a log is replayed after all the others.
pub proof fn law_appended_record_is_replayed<T: CRDT>(
    state: T::State,
    generation: u64,
    lines: Seq<Option<LogRecord<T>>>,
    record: LogRecord<T>,
)
    requires
        applicable::<T>(state, generation, lines),
        applied::<T>(
            replayed::<T>(state, generation, lines).0,
            generation,
            Some(record),
        ) is Ok,
    ensures
        applicable::<T>(state, generation, lines.push(Some(record))),
        replayed::<T>(state, generation, lines.push(Some(record))).0 == applied::<T>(
            replayed::<T>(state, generation, lines).0,
            generation,
            Some(record),
        )->Ok_0,
{
    let more = seq![Some(record)];
    law_replay_goes_on::<T>(state, generation, lines, more);
    assert(lines + more =~= lines.push(Some(record)));
    let reached = replayed::<T>(state, generation, lines).0;
    let next = applied::<T>(reached, generation, Some(record))->Ok_0;
    assert(more[0] == Some(record));
    assert(replayed::<T>(next, generation, more.skip(1)) == (next, ReplayEnd::Complete));
}

/// From a corrupt record on a log is discarded: the state is that of the
/// records before it.
pub proof fn law_corrupt_suffix_is_discarded<T: CRDT>(
    state: T::State,
    generation: u64,
    lines: Seq<Option<LogRecord<T>>>,
    more: Seq<Option<LogRecord<T>>>,
)
    requires
        applicable::<T>(state, generation, lines),
    ensures
        replayed::<T>(state, generation, lines.push(None) + more) == (
            replayed::<T>(state, generation, lines).0,
            ReplayEnd::Corrupt,
        ),
{
    let suffix = seq![None::<LogRecord<T>>] + more;
    law_replay_goes_on::<T>(state, generation, lines, suffix);
    assert(lines + suffix =~= lines.push(None) + more);
    assert(suffix[0] is None);
}

/// A log that a crash left behind when its snapshot was replaced changes
/// nothing.
pub proof fn law_old_log_is_ignored<T: CRDT>(
    state: T::State,
    generation: u64,
    lines: Seq<Option<LogRecord<T>>>,
)
    requires
        forall|i: int|
            0 <= i < lines.len() ==> (#[trigger] lines[i]) is Some && lines[i]->0.generation
                != generation,
    ensures
        replayed::<T>(state, generation, lines) == (state, ReplayEnd::Complete),
    decreases lines.len(),
{
    if lines.len() > 0 {
        assert(lines[0] is Some);
        let rest = lines.skip(1);
        assert forall|i: int| 0 <= i < rest.len() implies (#[trigger] rest[i]) is Some
            && rest[i]->0.generation != generation by {
            assert(rest[i] == lines[i + 1]);
        }
        law_old_log_is_ignored::<T>(state, generation, rest);
    }
}

/// Whatever an old log holds, corrupt lines too, the state stays that of the
/// snapshot.
pub proof fn law_old_log_never_changes_the_state<T: CRDT>(
    state: T::State,
    generation: u64,
    lines: Seq<Option<LogRecord<T>>>,
)
    requires
        forall|i: int|
            0 <= i < lines.len() && (#[trigger] lines[i]) is Some ==> lines[i]->0.generation
                != generation,
    ensures
        replayed::<T>(state, generation, lines).0 == state,
        replayed::<T>(state, generation, lines).1 !is Inapplicable,
    decreases lines.len(),
{
    if lines.len() > 0 && lines[0] is Some {
        let rest = lines.skip(1);
        assert forall|i: int| 0 <= i < rest.len() && (#[trigger] rest[i]) is Some implies rest[i]
            ->0.generation != generation by {
            assert(rest[i] == lines[i + 1]);
        }
        law_old_log_never_changes_the_state::<T>(state, generation, rest);
    }
}

/// Where the journal held the state of a replica, it holds it again after a
/// mutation that was recorded before it was applied.
pub proof fn law_journal_follows_mutations<T: CRDT>(
    snapshot: T::State,
    generation: u64,
    lines: Seq<Option<LogRecord<T>>>,
    record: LogRecord<T>,
    state: T::State,
    mutation: T::Mutation,
)
    requires
        replayed::<T>(snapshot, generation, lines) == (state, ReplayEnd::Complete),
        record.generation == generation,
        record.record_type@ == "mutation"@,
        record.mutation == Some(mutation),
        T::can_mutate(state, mutation),
    ensures
        replayed::<T>(snapshot, generation, lines.push(Some(record))) == (
            T::mutated(state, mutation),
            ReplayEnd::Complete,
        ),
{
    reveal_strlit("mutation");
    reveal_strlit("delta_group");
    assert("mutation"@.len() != "delta_group"@.len());
    law_appended_record_is_replayed::<T>(snapshot, generation, lines, record);
}

/// Where the journal held the state of a replica, it holds it again after a
/// delta group that was recorded before it was merged.
pub proof fn law_journal_follows_delta_groups<T: CRDT>(
    snapshot: T::State,
    generation: u64,
    lines: Seq<Option<LogRecord<T>>>,
    record: LogRecord<T>,
    state: T::State,
    delta: DeltaGroup<T::Delta>,
)
    requires
        replayed::<T>(snapshot, generation, lines) == (state, ReplayEnd::Complete),
        record.generation == generation,
        record.record_type@ == "delta_group"@,
        record.delta == Some(delta),
        T::can_merge(state, delta),
    ensures
        replayed::<T>(snapshot, generation, lines.push(Some(record))) == (
            T::merged(state, delta),
            ReplayEnd::Complete,
        ),
{
    law_appended_record_is_replayed::<T>(snapshot, generation, lines, record);
}

/// The records that the first lines of a log hold are the first records of the
/// log.
proof fn lemma_first_lines_hold_the_first_records(lines: Seq<Seq<u8>>, n: int)
    requires
        0 <= n <= lines.len(),
    ensures
        record_lines(lines.take(n)).len() <= record_lines(lines).len(),
        record_lines(lines.take(n)) == record_lines(lines).take(
            record_lines(lines.take(n)).len() as int,
        ),
    decreases lines.len() - n,
{
    let keep = |line: Seq<u8>| !super::is_blank_line(line);
    if n == lines.len() {
        assert(lines.take(n) =~= lines);
        assert(record_lines(lines).take(record_lines(lines).len() as int) =~= record_lines(lines));
    } else {
        lemma_first_lines_hold_the_first_records(lines, n + 1);
        super::lemma_filter_push(lines.take(n), keep, lines[n]);
        assert(lines.take(n + 1) =~= lines.take(n).push(lines[n]));
        let shorter = record_lines(lines.take(n));
        let longer = record_lines(lines.take(n + 1));
        assert(longer =~= shorter || longer =~= shorter.push(lines[n]));
        assert(shorter =~= longer.take(shorter.len() as int));
        assert(record_lines(lines).take(shorter.len() as int) =~= record_lines(lines).take(
            longer.len() as int,
        ).take(shorter.len() as int));
    }
}

/// Wherever a crash cuts off a log whose records can all be replayed, recovery
/// gives the state after some of its first records. Whatever `decode` reads
/// the records with, nothing else can come back.
pub proof fn law_crash_loses_a_suffix_only<T: CRDT>(
    state: T::State,
    generation: u64,
    lines: Seq<Seq<u8>>,
    cut: int,
    decode: spec_fn(Seq<u8>) -> Option<LogRecord<T>>,
)
    requires
        forall|i: int| 0 <= i < lines.len() ==> is_one_line(#[trigger] lines[i]),
        0 <= cut <= framed(lines).len(),
        applicable::<T>(state, generation, record_lines(lines).map_values(decode)),
    ensures
        ({
            let kept = record_lines(frames(framed(lines).take(cut)).0);
            let all = record_lines(lines).map_values(decode);
            &&& kept.len() <= all.len()
            &&& replayed::<T>(state, generation, kept.map_values(decode)) == replayed::<T>(
                state,
                generation,
                all.take(kept.len() as int),
            )
            &&& applicable::<T>(state, generation, kept.map_values(decode))
        }),
{
    let found = frames(framed(lines).take(cut)).0;
    law_cut_log_keeps_whole_lines(lines, cut);
    lemma_first_lines_hold_the_first_records(lines, found.len() as int);
    let kept = record_lines(found);
    let all = record_lines(lines).map_values(decode);
    assert(kept.map_values(decode) =~= all.take(kept.len() as int));
    lemma_first_records_are_applicable::<T>(state, generation, all, kept.len() as int);
}

/// Where a log can be replayed, so can its first records.
proof fn lemma_first_records_are_applicable<T: CRDT>(
    state: T::State,
    generation: u64,
    lines: Seq<Option<LogRecord<T>>>,
    n: int,
)
    requires
        applicable::<T>(state, generation, lines),
        0 <= n <= lines.len(),
    ensures
        applicable::<T>(state, generation, lines.take(n)),
    decreases n,
{
    if n > 0 {
        let next = applied::<T>(state, generation, lines[0])->Ok_0;
        lemma_first_records_are_applicable::<T>(next, generation, lines.skip(1), n - 1);
        assert(lines.take(n)[0] == lines[0]);
        assert(lines.take(n).skip(1) =~= lines.skip(1).take(n - 1));
    }
}

} // verus!
