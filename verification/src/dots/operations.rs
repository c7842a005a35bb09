//! What the operations on version vectors, on the version matrix and on logs
//! do, column by column and row by row.

use vstd::prelude::*;
use super::dot_map::{
    all_answered, all_chosen, answered, chosen, describes, enumerates, lemma_filter_holds, list_of, retained, total, uncovered,
    uncovered_of,
};
use super::matrix::{final_dots_from, listed, rows_from, MatrixParts};
use super::{
    ascending, compared, concurrent, counter_of, covers, exceeds, joined, met, Counter, Dot, DotSet,
    MatrixView, UNSEEN,
};
use crate::crdt::STABLE_REPLICA_PID;
use crate::prelude::Pid;

verus! {

/// A replica of which nothing was observed counts as minus one, and the stable
/// replica has the greatest identity there is.
pub proof fn law_distinguished_values()
    ensures
        UNSEEN == -1,
        STABLE_REPLICA_PID == u128::MAX,
{
}

/// A version vector covers the dots of a replica up to its column, and none of
/// a replica without one.
pub proof fn law_columns_cover_dots(vector: Map<Pid, Counter>, pid: Pid, counter: Counter)
    ensures
        covers(vector, Dot { pid, counter }) <==> vector.contains_key(pid) && counter
            <= vector[pid],
        vector.contains_key(pid) ==> counter_of(vector, pid) == vector[pid],
        !vector.contains_key(pid) ==> counter_of(vector, pid) == -1,
{
}

/// A merged vector has the columns of both, each the greater of the two.
pub proof fn law_merge_takes_the_greater(
    a: Map<Pid, Counter>,
    b: Map<Pid, Counter>,
    pid: Pid,
)
    ensures
        joined(a, b).contains_key(pid) <==> a.contains_key(pid) || b.contains_key(pid),
        a.contains_key(pid) && !b.contains_key(pid) ==> joined(a, b)[pid] == a[pid],
        b.contains_key(pid) && !a.contains_key(pid) ==> joined(a, b)[pid] == b[pid],
        a.contains_key(pid) && b.contains_key(pid) && a[pid] <= b[pid] ==> joined(a, b)[pid]
            == b[pid],
        a.contains_key(pid) && b.contains_key(pid) && b[pid] <= a[pid] ==> joined(a, b)[pid]
            == a[pid],
{
}

/// A pointwise minimum has the columns of both, each the lesser of the two,
/// where a column that is missing counts as unseen.
pub proof fn law_minimum_takes_the_lesser(
    a: Map<Pid, Counter>,
    b: Map<Pid, Counter>,
    pid: Pid,
)
    ensures
        met(a, b).contains_key(pid) <==> a.contains_key(pid) || b.contains_key(pid),
        ({
            let x: int = if a.contains_key(pid) {
                a[pid] as int
            } else {
                -1
            };
            let y: int = if b.contains_key(pid) {
                b[pid] as int
            } else {
                -1
            };
            met(a, b).contains_key(pid) ==> met(a, b)[pid] == if x <= y {
                x
            } else {
                y
            }
        }),
{
}

/// Two vectors are concurrent exactly if each has a column above that of the
/// other, where a column that is missing counts as unseen.
pub proof fn law_concurrent_vectors_differ_both_ways(
    a: Map<Pid, Counter>,
    b: Map<Pid, Counter>,
    p: Pid,
    q: Pid,
)
    ensures
        ({
            let above = |x: Map<Pid, Counter>, y: Map<Pid, Counter>, r: Pid|
                (if x.contains_key(r) {
                    x[r] as int
                } else {
                    -1
                }) > (if y.contains_key(r) {
                    y[r] as int
                } else {
                    -1
                });
            &&& above(a, b, p) && above(b, a, q) ==> concurrent(a, b)
            &&& above(a, b, p) ==> exceeds(a, b)
            &&& concurrent(a, b) ==> exists|r: Pid, s: Pid|
                #![trigger counter_of(a, r), counter_of(b, s)]
                counter_of(a, r) > counter_of(b, r) && counter_of(b, s) > counter_of(a, s)
        }),
{
    assert(counter_of(a, p) > counter_of(b, p) ==> exceeds(a, b));
    assert(counter_of(b, q) > counter_of(a, q) ==> exceeds(b, a));
    if concurrent(a, b) {
        let r = choose|r: Pid| counter_of(a, r) > #[trigger] counter_of(b, r);
        let s = choose|s: Pid| counter_of(b, s) > #[trigger] counter_of(a, s);
        assert(counter_of(a, r) > counter_of(b, r) && counter_of(b, s) > counter_of(a, s));
    }
}

/// How a vector compares with another is decided on its own columns: it is less
/// if one is below and none above, greater if none is below, and it is neither
/// if they differ both ways.
pub proof fn law_comparison_reads_the_own_columns(
    a: Map<Pid, Counter>,
    b: Map<Pid, Counter>,
    p: Pid,
    q: Pid,
)
    ensures
        a.contains_key(p) && a[p] < counter_of(b, p) ==> !(compared(a, b) is Greater),
        a.contains_key(q) && a[q] > counter_of(b, q) ==> !(compared(a, b) is Less),
        a.contains_key(p) && a[p] < counter_of(b, p) && a.contains_key(q) && a[q] > counter_of(b, q)
            ==> compared(a, b) is Equal,
        (forall|r: Pid| #[trigger] a.contains_key(r) ==> a[r] >= counter_of(b, r)) ==> compared(a, b)
            is Greater,
        a.contains_key(p) && a[p] < counter_of(b, p) && (forall|r: Pid| #[trigger]
            a.contains_key(r) ==> a[r] <= counter_of(b, r)) ==> compared(a, b) is Less,
{
}

/// Two vectors are equal exactly if they have the same columns with the same
/// counters; they are ordered as they compare, and never without an order.
pub proof fn law_vectors_are_equal_column_by_column(a: DotSet, b: DotSet, pid: Pid)
    ensures
        vstd::std_specs::cmp::PartialEqSpec::eq_spec(&a, &b) <==> a@ == b@,
        vstd::std_specs::cmp::PartialEqSpec::eq_spec(&a, &b) && a@.contains_key(pid)
            ==> b@.contains_key(pid) && a@[pid] == b@[pid],
        vstd::std_specs::cmp::PartialOrdSpec::partial_cmp_spec(&a, &b) is Some,
        vstd::std_specs::cmp::PartialOrdSpec::partial_cmp_spec(&a, &b)->0 == compared(a@, b@),
{
}

/// A dot that is made of an identity and a counter has both.
pub proof fn law_dots_are_made_of_their_parts(pid: Pid, counter: Counter)
    ensures
        <Dot as vstd::std_specs::convert::FromSpec<(&Pid, &Counter)>>::from_spec(
            (&pid, &counter),
        ).pid == pid,
        <Dot as vstd::std_specs::convert::FromSpec<(&Pid, &Counter)>>::from_spec(
            (&pid, &counter),
        ).counter == counter,
{
}

/// A version vector that arrives becomes the row of its replica unless its epoch
/// is behind the local one; nothing else changes.
pub proof fn law_row_is_taken_in_by_epoch(
    matrix: MatrixView,
    pid: Pid,
    vector: Map<Pid, Counter>,
)
    ensures
        ({
            let after = matrix.updated(pid, vector);
            let own = matrix.rows[matrix.own_pid];
            let own_epoch: int = if own.contains_key(STABLE_REPLICA_PID) {
                own[STABLE_REPLICA_PID] as int
            } else {
                -1
            };
            let epoch: int = if vector.contains_key(STABLE_REPLICA_PID) {
                vector[STABLE_REPLICA_PID] as int
            } else {
                -1
            };
            &&& matrix.own_row() == own
            &&& matrix.own_epoch() == own_epoch
            &&& after.own_pid == matrix.own_pid
            &&& after.final_dots == matrix.final_dots
            &&& own_epoch <= epoch ==> after.rows == matrix.rows.insert(pid, vector)
            &&& own_epoch > epoch ==> after.rows == matrix.rows
        }),
{
}

/// A replica that is discovered gets a row with its epoch and nothing observed,
/// unless it has one or is the stable one; nothing else changes.
pub proof fn law_discovery_adds_one_row(matrix: MatrixView, pid: Pid, epoch: Counter)
    ensures
        ({
            let after = matrix.discovered(pid, epoch);
            let fresh = pid != STABLE_REPLICA_PID && !matrix.rows.contains_key(pid);
            &&& after.own_pid == matrix.own_pid
            &&& after.final_dots == matrix.final_dots
            &&& !fresh ==> after == matrix
            &&& fresh ==> {
                &&& after.rows.dom() == matrix.rows.dom().insert(pid)
                &&& after.rows[pid].dom() == set![pid, STABLE_REPLICA_PID]
                &&& after.rows[pid][pid] == -1
                &&& after.rows[pid][STABLE_REPLICA_PID] == epoch
                &&& forall|p: Pid| #[trigger]
                    matrix.rows.contains_key(p) ==> after.rows[p] == matrix.rows[p]
            }
            &&& pid != STABLE_REPLICA_PID ==> MatrixView::unseen_row(pid, epoch)[pid] == -1
            &&& MatrixView::unseen_row(pid, epoch)[STABLE_REPLICA_PID] == epoch
            &&& MatrixView::unseen_row(pid, epoch).dom() == set![pid, STABLE_REPLICA_PID]
        }),
{
    let after = matrix.discovered(pid, epoch);
    let row = MatrixView::unseen_row(pid, epoch);
    assert(row.dom() =~= set![pid, STABLE_REPLICA_PID]);
    if pid != STABLE_REPLICA_PID && !matrix.rows.contains_key(pid) {
        assert(after.rows.dom() =~= matrix.rows.dom().insert(pid));
    }
}

/// Of the replicas that are asked to go, those go whose last dot the stable row
/// covers or that have announced none; without a stable row nobody goes. With
/// them go their row, their final dot and their column in every other row, and
/// nothing else.
pub proof fn law_removal_takes_row_column_and_final_dot(
    matrix: MatrixView,
    pids: Seq<Pid>,
    pid: Pid,
    column: Pid,
)
    ensures
        ({
            let gone = matrix.leaving(pids);
            let after = matrix.without(gone);
            let stable = matrix.rows[STABLE_REPLICA_PID];
            &&& gone.contains(pid) <==> pids.contains(pid) && matrix.rows.contains_key(
                STABLE_REPLICA_PID,
            ) && (matrix.final_dots.contains_key(pid) ==> stable.contains_key(pid)
                && matrix.final_dots[pid] <= stable[pid])
            &&& matrix.leaving_of(Some(pids)) == gone
            &&& matrix.leaving_of(None) == Set::<Pid>::empty()
            &&& after.own_pid == matrix.own_pid
            &&& after.rows.contains_key(pid) <==> matrix.rows.contains_key(pid) && !gone.contains(
                pid,
            )
            &&& after.rows.contains_key(pid) ==> {
                &&& after.rows[pid].contains_key(column) <==> matrix.rows[pid].contains_key(column)
                    && !gone.contains(column)
                &&& after.rows[pid].contains_key(column) ==> after.rows[pid][column]
                    == matrix.rows[pid][column]
            }
            &&& after.final_dots.contains_key(pid) <==> matrix.final_dots.contains_key(pid)
                && !gone.contains(pid)
            &&& after.final_dots.contains_key(pid) ==> after.final_dots[pid]
                == matrix.final_dots[pid]
            &&& matrix.keeps_own_row(Some(pids)) <==> matrix.own_pid == STABLE_REPLICA_PID || (
            matrix.rows.contains_key(matrix.own_pid) && !gone.contains(matrix.own_pid))
            &&& matrix.keeps_own_row(None) <==> matrix.own_pid == STABLE_REPLICA_PID
                || matrix.rows.contains_key(matrix.own_pid)
        }),
{
}

/// A round installs its frontier as the stable row and its epoch in the stable
/// and in the local row. What else the rows hold stays, but for the replicas
/// that go.
pub proof fn law_round_installs_frontier_and_epoch(
    matrix: MatrixView,
    stable: Map<Pid, Counter>,
    departed: Option<Seq<Pid>>,
    epoch: Counter,
    pid: Pid,
    column: Pid,
)
    requires
        matrix.keeps_own_row(departed),
    ensures
        ({
            let after = matrix.collected(stable, departed, epoch);
            let gone = matrix.leaving_of(departed);
            &&& after.own_pid == matrix.own_pid
            &&& after.rows.contains_key(STABLE_REPLICA_PID)
            &&& after.rows[STABLE_REPLICA_PID] == stable.insert(STABLE_REPLICA_PID, epoch)
            &&& after.rows.contains_key(matrix.own_pid)
            &&& after.rows[matrix.own_pid].contains_key(STABLE_REPLICA_PID)
            &&& after.rows[matrix.own_pid][STABLE_REPLICA_PID] == epoch
            &&& pid != STABLE_REPLICA_PID ==> (after.rows.contains_key(pid)
                <==> matrix.rows.contains_key(pid) && !gone.contains(pid))
            &&& pid != STABLE_REPLICA_PID && after.rows.contains_key(pid) && !(pid
                == matrix.own_pid && column == STABLE_REPLICA_PID) ==> {
                &&& after.rows[pid].contains_key(column) <==> matrix.rows[pid].contains_key(column)
                    && !gone.contains(column)
                &&& after.rows[pid].contains_key(column) ==> after.rows[pid][column]
                    == matrix.rows[pid][column]
            }
            &&& after.final_dots.contains_key(pid) <==> matrix.final_dots.contains_key(pid)
                && !gone.contains(pid)
            &&& after.final_dots.contains_key(pid) ==> after.final_dots[pid]
                == matrix.final_dots[pid]
        }),
{
}

/// Every row but the stable one observes, until its replica has departed and
/// the local row covers its last dot. A departed replica can go exactly if the
/// stable row covers its last dot.
pub proof fn law_observers_and_departures(matrix: MatrixView, pid: Pid)
    ensures
        ({
            let own = matrix.rows[matrix.own_pid];
            let stable = matrix.rows[STABLE_REPLICA_PID];
            &&& matrix.observes(pid) <==> matrix.rows.contains_key(pid) && pid
                != STABLE_REPLICA_PID && !(matrix.final_dots.contains_key(pid) && own.contains_key(
                pid,
            ) && matrix.final_dots[pid] <= own[pid])
            &&& matrix.departs(pid) <==> matrix.rows.contains_key(STABLE_REPLICA_PID)
                && matrix.final_dots.contains_key(pid) && stable.contains_key(pid)
                && matrix.final_dots[pid] <= stable[pid]
        }),
{
}

/// The frontier has a column for every observer and for every column that an
/// observer has, but for the replicas that can go. The column is the least
/// counter that an observer gives the replica, where one without a column gives
/// minus one.
pub proof fn law_frontier_is_the_minimum(
    matrix: MatrixView,
    frontier: Map<Pid, Counter>,
    observer: Pid,
    pid: Pid,
)
    requires
        matrix.is_frontier(frontier),
        matrix.observes(observer),
    ensures
        matrix.departs(pid) ==> !frontier.contains_key(pid),
        !matrix.departs(observer) ==> frontier.contains_key(observer),
        !matrix.departs(pid) && matrix.rows[observer].contains_key(pid) ==> frontier.contains_key(
            pid,
        ),
        frontier.contains_key(pid) ==> matrix.observes(pid) || exists|o: Pid| #[trigger]
            matrix.observes(o) && matrix.rows[o].contains_key(pid),
        frontier.contains_key(pid) && matrix.rows[observer].contains_key(pid) ==> frontier[pid]
            <= matrix.rows[observer][pid],
        frontier.contains_key(pid) && !matrix.rows[observer].contains_key(pid) ==> frontier[pid]
            <= -1,
        frontier.contains_key(pid) ==> exists|o: Pid| #[trigger]
            matrix.observes(o) && frontier[pid] == if matrix.rows[o].contains_key(pid) {
                matrix.rows[o][pid] as int
            } else {
                -1
            },
{
    if frontier.contains_key(pid) {
        assert(matrix.is_floor(pid, frontier[pid]));
        let o = choose|o: Pid| #[trigger]
            matrix.observes(o) && counter_of(matrix.rows[o], pid) == frontier[pid];
        assert(matrix.observes(o));
    }
}

/// A matrix that is taken apart is the same when it is put together; of two rows
/// or final dots for one replica the later counts.
pub proof fn law_parts_make_up_the_matrix(
    parts: MatrixParts,
    rows: Seq<(Pid, DotSet)>,
    row: (Pid, DotSet),
    dots: Seq<Dot>,
    dot: Dot,
)
    ensures
        parts.whole().own_pid == parts.own_pid,
        parts.whole().rows == rows_from(parts.rows@),
        parts.whole().final_dots == final_dots_from(parts.final_dots@),
        rows_from(Seq::<(Pid, DotSet)>::empty()) == Map::<Pid, Map<Pid, Counter>>::empty(),
        rows_from(rows.push(row)) == rows_from(rows).insert(row.0, row.1@),
        final_dots_from(Seq::<Dot>::empty()) == Map::<Pid, Counter>::empty(),
        final_dots_from(dots.push(dot)) == final_dots_from(dots).insert(dot.pid, dot.counter),
{
    assert(rows.push(row).drop_last() =~= rows);
    assert(dots.push(dot).drop_last() =~= dots);
}

/// What is listed of an optional list is the list.
pub proof fn law_listed_is_the_list(pids: Option<Vec<Pid>>)
    ensures
        pids is None ==> listed(pids) is None,
        pids is Some ==> listed(pids) is Some && listed(pids)->0 == pids->0@,
{
}

/// What is found in a log are, replica after replica, the items whose dots the
/// vector does not cover, all of them and in their order.
pub proof fn law_uncovered_items_are_found<T>(
    log: Map<Pid, Seq<(Dot, T)>>,
    vector: Map<Pid, Counter>,
    pids: Seq<Pid>,
    pid: Pid,
    list: Seq<(Dot, T)>,
    item: (Dot, T),
)
    ensures
        uncovered(log, vector, Seq::<Pid>::empty()) == Seq::<(Dot, T)>::empty(),
        uncovered(log, vector, pids.push(pid)) == uncovered(log, vector, pids) + log[pid].filter(
            |i: (Dot, T)| !(vector.contains_key(i.0.pid) && i.0.counter <= vector[i.0.pid]),
        ),
        uncovered_of(list, vector).contains(item) <==> list.contains(item) && !(
        vector.contains_key(item.0.pid) && item.0.counter <= vector[item.0.pid]),
        enumerates(pids, log) <==> (forall|i: int, j: int|
            0 <= i < j < pids.len() ==> #[trigger] pids[i] < #[trigger] pids[j]) && (forall|p: Pid|
            #[trigger] pids.contains(p) <==> log.contains_key(p)),
        list_of(log, pid) == if log.contains_key(pid) {
            log[pid]
        } else {
            Seq::empty()
        },
{
    assert(pids.push(pid).drop_last() =~= pids);
    crate::orset::lemma_filter_agrees(
        log[pid],
        |i: (Dot, T)| !(vector.contains_key(i.0.pid) && i.0.counter <= vector[i.0.pid]),
        |i: (Dot, T)| !covers(vector, i.0),
    );
    lemma_filter_holds(list, |i: (Dot, T)| !covers(vector, i.0), item);
}

/// A log that is thinned out keeps the items that are wanted, in their order,
/// and the replicas that have one left.
pub proof fn law_thinned_log<T>(
    log: Map<Pid, Seq<(Dot, T)>>,
    keep: spec_fn((Dot, T)) -> bool,
    pid: Pid,
    list: Seq<(Dot, T)>,
    answers: Seq<bool>,
    item: (Dot, T),
    answer: bool,
)
    ensures
        retained(log, keep).contains_key(pid) <==> log.contains_key(pid) && log[pid].filter(
            keep,
        ).len() > 0,
        retained(log, keep).contains_key(pid) ==> retained(log, keep)[pid] == log[pid].filter(keep),
        chosen(Seq::<(Dot, T)>::empty(), Seq::<bool>::empty()) == Seq::<(Dot, T)>::empty(),
        chosen(list.push(item), answers.push(answer)) == if answer {
            chosen(list, answers).push(item)
        } else {
            chosen(list, answers)
        },
{
    assert(list.push(item).drop_last() =~= list);
    assert(answers.push(answer).drop_last() =~= answers);
}

/// The items of a log are counted replica by replica.
pub proof fn law_logged_items_are_counted<T>(log: Map<Pid, Seq<(Dot, T)>>, pid: Pid)
    requires
        log.dom().finite(),
    ensures
        total(Map::<Pid, Seq<(Dot, T)>>::empty()) == 0,
        log.contains_key(pid) ==> total(log) == log[pid].len() + total(log.remove(pid)),
{
    assert(Map::<Pid, Seq<(Dot, T)>>::empty().dom().len() == 0);
    if log.contains_key(pid) {
        super::dot_map::lemma_total_with(log, pid);
    }
}

/// Replicas are listed in ascending order, each of them once.
pub proof fn law_replicas_are_listed_in_ascending_order(pids: Seq<Pid>, i: int, j: int)
    ensures
        ascending(pids) && 0 <= i < j < pids.len() ==> pids[i] < pids[j],
        0 <= i < j < pids.len() && pids[i] >= pids[j] ==> !ascending(pids),
        (forall|a: int, b: int|
            0 <= a < b < pids.len() ==> #[trigger] pids[a] < #[trigger] pids[b]) ==> ascending(
            pids,
        ),
{
}

/// The local replica has a row if there is one under its identity. The frontier
/// has a column for an observer and for a column of an observer. A final dot is
/// that which was announced.
pub proof fn law_rows_columns_and_final_dots(matrix: MatrixView, pid: Pid, observer: Pid)
    ensures
        matrix.has_own_row() <==> matrix.rows.contains_key(matrix.own_pid),
        matrix.observes(pid) ==> matrix.has_column(pid),
        matrix.observes(observer) && matrix.rows[observer].contains_key(pid) ==> matrix.has_column(
            pid,
        ),
        matrix.has_column(pid) ==> matrix.observes(pid) || exists|o: Pid| #[trigger]
            matrix.observes(o) && matrix.rows[o].contains_key(pid),
        matrix.final_dot(pid).pid == pid,
        matrix.final_dot(pid).counter == matrix.final_dots[pid],
{
}

/// A predicate is asked about every item of every replica. The items for which
/// it says yes stay, in their order, and so do the replicas that have one left.
pub proof fn law_answers_decide_what_stays<T, F: Fn(&Dot, &T) -> bool>(
    f: F,
    keep: spec_fn((Dot, T)) -> bool,
    log: Map<Pid, Seq<(Dot, T)>>,
    answers: Map<Pid, Seq<bool>>,
    pid: Pid,
    i: int,
    dot: Dot,
    value: T,
    kept: bool,
)
    ensures
        describes(f, keep) && call_ensures(f, (&dot, &value), kept) ==> kept == keep((dot, value)),
        (forall|d: Dot, v: T, k: bool|
            #[trigger] call_ensures(f, (&d, &v), k) ==> k == keep((d, v))) ==> describes(f, keep),
        all_answered(f, log, answers) && log.contains_key(pid) ==> answers[pid].len()
            == log[pid].len(),
        all_answered(f, log, answers) && log.contains_key(pid) && 0 <= i < log[pid].len()
            ==> call_ensures(f, (&log[pid][i].0, &log[pid][i].1), answers[pid][i]),
        all_chosen(log, answers).contains_key(pid) <==> log.contains_key(pid) && chosen(
            log[pid],
            answers[pid],
        ).len() > 0,
        all_chosen(log, answers).contains_key(pid) ==> all_chosen(log, answers)[pid] == chosen(
            log[pid],
            answers[pid],
        ),
{
    if all_answered(f, log, answers) && log.contains_key(pid) {
        assert(answered(f, log[pid], answers[pid]));
    }
}

} // verus!
