//! What holds of version vectors and of the version matrix as a whole.

use vstd::prelude::*;
use crate::crdt::STABLE_REPLICA_PID;
use crate::dots::{
    compared, concurrent, counter_of, covers, joined, met, Counter, Dot, MatrixView, UNSEEN,
};
use crate::prelude::Pid;

verus! {

/// Merging is commutative, associative and idempotent: replicas that merge the
/// same vectors agree, in whatever order and however often these arrive.
pub proof fn law_merge_is_a_join(
    a: Map<Pid, Counter>,
    b: Map<Pid, Counter>,
    c: Map<Pid, Counter>,
)
    ensures
        joined(a, b) == joined(b, a),
        joined(joined(a, b), c) == joined(a, joined(b, c)),
        joined(a, a) == a,
        joined(a, Map::empty()) == a,
{
    assert(joined(a, b) =~= joined(b, a));
    assert(joined(joined(a, b), c) =~= joined(a, joined(b, c)));
    assert(joined(a, a) =~= a);
    assert(joined(a, Map::empty()) =~= a);
}

/// A merged vector covers exactly the dots that one of the two covered.
pub proof fn law_merge_covers_either(a: Map<Pid, Counter>, b: Map<Pid, Counter>, dot: Dot)
    ensures
        covers(joined(a, b), dot) <==> covers(a, dot) || covers(b, dot),
{
}

/// The pointwise minimum covers no dot that one of the two does not have.
pub proof fn law_minimum_is_below_both(a: Map<Pid, Counter>, b: Map<Pid, Counter>, pid: Pid)
    ensures
        counter_of(met(a, b), pid) <= counter_of(a, pid),
        counter_of(met(a, b), pid) <= counter_of(b, pid),
        counter_of(met(a, b), pid) == counter_of(a, pid) || counter_of(met(a, b), pid)
            == counter_of(b, pid),
{
}

/// A dot that a replica issues was covered by no vector that its own covers,
/// and is covered from then on.
pub proof fn law_issued_dot_is_fresh(vector: Map<Pid, Counter>, dot: Dot)
    requires
        dot.counter == if vector.contains_key(dot.pid) {
            vector[dot.pid] + 1
        } else {
            0
        },
    ensures
        !covers(vector, dot),
        covers(vector.insert(dot.pid, dot.counter), dot),
        forall|d: Dot| covers(vector, d) ==> covers(vector.insert(dot.pid, dot.counter), d),
{
}

/// Concurrency is symmetric, no vector is concurrent with itself or with one
/// that it was merged into, and of two vectors that are not concurrent one is
/// nowhere above the other.
pub proof fn law_concurrency(a: Map<Pid, Counter>, b: Map<Pid, Counter>)
    ensures
        concurrent(a, b) == concurrent(b, a),
        !concurrent(a, a),
        (forall|p: Pid| #[trigger] a.contains_key(p) ==> a[p] >= UNSEEN) && (forall|p: Pid|
            #[trigger] b.contains_key(p) ==> b[p] >= UNSEEN) ==> !concurrent(a, joined(a, b)),
        !concurrent(a, b) <==> (forall|p: Pid| #[trigger] counter_of(a, p) <= counter_of(b, p)) || (
        forall|p: Pid| #[trigger] counter_of(b, p) <= counter_of(a, p)),
{
}

/// Columns that differ in both directions are found on the columns that one
/// side lists only where the two vectors are concurrent.
pub proof fn law_incomparable_is_concurrent(a: Map<Pid, Counter>, b: Map<Pid, Counter>)
    ensures
        compared(a, b) is Equal ==> concurrent(a, b),
{
    if compared(a, b) is Equal {
        let p = choose|p: Pid| #[trigger] a.contains_key(p) && a[p] < counter_of(b, p);
        assert(counter_of(b, p) > counter_of(a, p));
        let q = choose|q: Pid| #[trigger] a.contains_key(q) && a[q] > counter_of(b, q);
        assert(counter_of(a, q) > counter_of(b, q));
    }
}

/// A matrix has one stable frontier.
pub proof fn law_frontier_is_unique(
    matrix: MatrixView,
    one: Map<Pid, Counter>,
    other: Map<Pid, Counter>,
)
    requires
        matrix.is_frontier(one),
        matrix.is_frontier(other),
    ensures
        one == other,
{
    assert forall|p: Pid| one.contains_key(p) <==> other.contains_key(p) by {}
    assert forall|p: Pid| one.contains_key(p) implies one[p] == other[p] by {
        assert(matrix.is_floor(p, one[p]));
        assert(other.contains_key(p));
        assert(matrix.is_floor(p, other[p]));
    }
    assert(one =~= other);
}

/// Every dot that the stable frontier covers, from the first one on, has been
/// observed by every observer, so it can be collected.
pub proof fn law_frontier_is_observed_by_all(
    matrix: MatrixView,
    frontier: Map<Pid, Counter>,
    observer: Pid,
    dot: Dot,
)
    requires
        matrix.is_frontier(frontier),
        matrix.observes(observer),
        dot.counter > UNSEEN,
        covers(frontier, dot),
    ensures
        covers(matrix.rows[observer], dot),
{
    assert(matrix.is_floor(dot.pid, frontier[dot.pid]));
    assert(frontier[dot.pid] <= counter_of(matrix.rows[observer], dot.pid));
}

/// A replica that was just discovered holds the frontier back entirely: as
/// long as nothing was heard from it, no dot is stable.
pub proof fn law_discovery_blocks_the_frontier(
    matrix: MatrixView,
    pid: Pid,
    epoch: Counter,
    frontier: Map<Pid, Counter>,
    dot: Dot,
)
    requires
        !matrix.rows.contains_key(pid),
        pid != STABLE_REPLICA_PID,
        !matrix.final_dots.contains_key(pid),
        matrix.discovered(pid, epoch).is_frontier(frontier),
        dot.pid != STABLE_REPLICA_PID,
        dot.counter > UNSEEN,
    ensures
        !covers(frontier, dot),
{
    let after = matrix.discovered(pid, epoch);
    assert(after.observes(pid));
    if frontier.contains_key(dot.pid) {
        assert(after.is_floor(dot.pid, frontier[dot.pid]));
        assert(frontier[dot.pid] <= counter_of(after.rows[pid], dot.pid));
    }
}

/// Discovering a known replica again changes nothing.
pub proof fn law_discovery_is_idempotent(
    matrix: MatrixView,
    pid: Pid,
    epoch: Counter,
    later: Counter,
)
    ensures
        matrix.discovered(pid, epoch).discovered(pid, later) == matrix.discovered(pid, epoch),
{
}

/// A departure takes two rounds: as long as the stable row does not cover the
/// last dot of a replica, the replica stays, whatever the round asks for.
pub proof fn law_departure_waits_for_the_stable_row(
    matrix: MatrixView,
    pids: Seq<Pid>,
    pid: Pid,
)
    requires
        matrix.final_dots.contains_key(pid),
        matrix.rows.contains_key(STABLE_REPLICA_PID) ==> !covers(
            matrix.rows[STABLE_REPLICA_PID],
            matrix.final_dot(pid),
        ),
    ensures
        !matrix.departs(pid),
        !matrix.leaving(pids).contains(pid),
        matrix.without(matrix.leaving(pids)).final_dots.contains_key(pid),
        matrix.rows.contains_key(pid) ==> matrix.without(
            matrix.leaving(pids),
        ).rows.contains_key(pid),
{
}

/// The round after the one whose frontier covers the last dot of a departed
/// replica reports the replica.
pub proof fn law_next_round_reports_the_departure(
    matrix: MatrixView,
    frontier: Map<Pid, Counter>,
    epoch: Counter,
    pid: Pid,
)
    requires
        pid != STABLE_REPLICA_PID,
        matrix.final_dots.contains_key(pid),
        covers(frontier, matrix.final_dot(pid)),
        matrix.own_pid != STABLE_REPLICA_PID,
    ensures
        matrix.collected(frontier, None, epoch).departs(pid),
{
    let after = matrix.collected(frontier, None, epoch);
    assert(after.rows[STABLE_REPLICA_PID] == frontier.insert(STABLE_REPLICA_PID, epoch));
    assert(after.final_dots.contains_key(pid));
}

/// A departed replica that was removed is not reported again, and no row
/// speaks of it any more.
pub proof fn law_removed_departure_is_not_reported_again(
    matrix: MatrixView,
    pids: Seq<Pid>,
    pid: Pid,
)
    requires
        matrix.leaving(pids).contains(pid),
    ensures
        !matrix.without(matrix.leaving(pids)).departs(pid),
        !matrix.without(matrix.leaving(pids)).rows.contains_key(pid),
        forall|p: Pid| #[trigger]
            matrix.without(matrix.leaving(pids)).rows.contains_key(p) ==> !matrix.without(
                matrix.leaving(pids),
            ).rows[p].contains_key(pid),
{
}

/// Exactly the departures that a matrix reports leave it when they are
/// removed: what is reported can be removed at once.
pub proof fn law_reported_departures_can_be_removed(matrix: MatrixView, pids: Seq<Pid>, pid: Pid)
    requires
        forall|p: Pid| #[trigger] pids.contains(p) <==> matrix.departs(p),
        matrix.departs(pid),
    ensures
        matrix.leaving(pids).contains(pid),
{
    assert(pids.contains(pid));
}

/// After a round a version vector of an earlier epoch changes nothing.
pub proof fn law_stale_rows_are_rejected(
    matrix: MatrixView,
    stable: Map<Pid, Counter>,
    departed: Option<Seq<Pid>>,
    epoch: Counter,
    pid: Pid,
    vector: Map<Pid, Counter>,
)
    requires
        matrix.keeps_own_row(departed),
        counter_of(vector, STABLE_REPLICA_PID) < epoch,
    ensures
        matrix.collected(stable, departed, epoch).updated(pid, vector) == matrix.collected(
            stable,
            departed,
            epoch,
        ),
{
    let after = matrix.collected(stable, departed, epoch);
    assert(after.own_row().contains_key(STABLE_REPLICA_PID));
}

/// The local row survives every operation that does not remove the local
/// replica itself.
pub proof fn law_own_row_is_kept(
    matrix: MatrixView,
    pid: Pid,
    vector: Map<Pid, Counter>,
    epoch: Counter,
    pids: Seq<Pid>,
)
    requires
        matrix.has_own_row(),
        !pids.contains(matrix.own_pid),
    ensures
        matrix.updated(pid, vector).has_own_row(),
        matrix.discovered(pid, epoch).has_own_row(),
        matrix.without(matrix.leaving(pids)).has_own_row(),
        matrix.keeps_own_row(Some(pids)),
        matrix.keeps_own_row(None),
{
}

} // verus!
