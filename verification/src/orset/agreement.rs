//! All replicas of an observed-remove set together: whoever has observed the
//! same changes holds the same elements, whatever happened in between.

use vstd::prelude::*;
use crate::dots::dot_map::lemma_filter_holds;
use crate::dots::{covers, joined, Counter, Dot};
use crate::orset::causal::{
    distinct, in_order, is_group, lemma_distinct_filter, lemma_distinct_runs, lemma_filter_at,
    lemma_filter_push, lemma_same_runs_hold, of_pid, orderable, same_runs,
};
use crate::orset::convergence::{
    causal, contiguous, inserts, law_causal_history_decides, law_pull_brings_up_to_date,
    law_replicas_converge, lemma_filter_run, lemma_pull_prefix, lemma_replayed_is_occupied, reaches,
    removes, replayed, run_below, run_to,
};
use crate::orset::laws::{holds, law_gc_keeps_the_elements, lemma_filter_all, lemma_filter_none, names};
use crate::orset::{is_contained, is_departed, lemma_filter_agrees, DeltaView, ORSetView};
use crate::prelude::Pid;

verus! {

/// What a replica has gone through: the changes that it has taken in, in that
/// order, and the replicas that it has let go.
#[verifier::reject_recursive_types(V)]
pub struct History<V> {
    pub list: Seq<DeltaView<V>>,
    pub gone: Set<Pid>,
}

/// Whether a change with this dot is in a list.
pub open spec fn occurs<V>(list: Seq<DeltaView<V>>, dot: Dot) -> bool {
    exists|i: int| 0 <= i < list.len() && (#[trigger] list[i]).dot == dot
}

/// Whether `part` is the end of `whole`.
pub open spec fn is_tail<A>(part: Seq<A>, whole: Seq<A>) -> bool {
    part.len() <= whole.len() && part == whole.skip(whole.len() - part.len())
}

/// Whether `run` holds the changes of a replica from the first one on up to
/// the one that `vector` tells.
pub open spec fn is_run<V>(run: Seq<DeltaView<V>>, pid: Pid, vector: Map<Pid, Counter>) -> bool {
    &&& run.len() == if vector.contains_key(pid) {
        vector[pid] + 1
    } else {
        0
    }
    &&& forall|i: int|
        0 <= i < run.len() ==> (#[trigger] run[i]).dot.pid == pid && run[i].dot.counter == i
}

/// Whether a state is what a history leads to: it holds the elements of the
/// history, its version vector counts the changes, and its log is the end of
/// them. No change comes before one that it refers to.
pub open spec fn is_history<V>(state: ORSetView<V>, history: History<V>) -> bool {
    &&& state.entries == replayed(history.list)
    &&& in_order(history.list)
    &&& distinct(history.list)
    &&& forall|i: int, dot: Dot|
        0 <= i < history.list.len() && #[trigger] names(history.list[i].change, dot) ==> occurs(
            history.list,
            dot,
        )
    &&& forall|p: Pid| #[trigger] state.log.contains_key(p) ==> state.log[p].len() > 0
    &&& forall|p: Pid| #[trigger] state.vector.contains_key(p) ==> 0 <= state.vector[p]
    &&& forall|p: Pid| #[trigger]
        history.gone.contains(p) ==> !state.vector.contains_key(p) && !state.log.contains_key(p)
    &&& forall|p: Pid|
        !history.gone.contains(p) ==> is_run(#[trigger] of_pid(history.list, p), p, state.vector)
            && is_tail(state.log_of(p), of_pid(history.list, p))
}

/// Whether the changes that were ever issued have dots of their own, counted
/// from zero.
pub open spec fn is_world<V>(issued: Set<DeltaView<V>>) -> bool {
    &&& forall|one: DeltaView<V>, other: DeltaView<V>| #[trigger]
        issued.contains(one) && #[trigger] issued.contains(other) && one.dot == other.dot ==> one
            == other
    &&& forall|delta: DeltaView<V>| #[trigger] issued.contains(delta) ==> 0 <= delta.dot.counter
}

/// Whether a replica has taken in issued changes only, and of those all that
/// its version vector covers and all of the replicas that it has let go.
pub open spec fn takes_part<V>(
    issued: Set<DeltaView<V>>,
    state: ORSetView<V>,
    history: History<V>,
) -> bool {
    &&& is_history(state, history)
    &&& forall|i: int| 0 <= i < history.list.len() ==> issued.contains(#[trigger] history.list[i])
    &&& forall|delta: DeltaView<V>| #[trigger]
        issued.contains(delta) && (history.gone.contains(delta.dot.pid) || covers(
            state.vector,
            delta.dot,
        )) ==> history.list.contains(delta)
}

/// Whether a replica knows all changes that were issued in its name.
pub open spec fn knows_its_own<V>(
    issued: Set<DeltaView<V>>,
    state: ORSetView<V>,
    history: History<V>,
) -> bool {
    &&& state.pid is Some
    &&& !history.gone.contains(state.pid->0)
    &&& forall|delta: DeltaView<V>| #[trigger]
        issued.contains(delta) && delta.dot.pid == state.pid->0 ==> history.list.contains(delta)
}

/// Whether everything that a replica does not have in its log any more is
/// known at `vector`.
pub open spec fn remembers<V>(
    state: ORSetView<V>,
    history: History<V>,
    vector: Map<Pid, Counter>,
) -> bool {
    forall|i: int|
        0 <= i < history.list.len() && !history.gone.contains(
            (#[trigger] history.list[i]).dot.pid,
        ) && !state.log_of(history.list[i].dot.pid).contains(history.list[i]) ==> covers(
            vector,
            history.list[i].dot,
        )
}

/// The history with more changes.
pub open spec fn extended<V>(history: History<V>, list: Seq<DeltaView<V>>) -> History<V> {
    History { list: history.list + list, gone: history.gone }
}

/// A change in order is causal.
proof fn lemma_order_is_causal<V>(list: Seq<DeltaView<V>>)
    requires
        in_order(list),
    ensures
        causal(list),
{
    assert forall|i: int, j: int, element: V, dot: Dot|
        0 <= i < list.len() && 0 <= j < list.len() && #[trigger] inserts(list[i], element, dot)
            && #[trigger] removes(list[j], element, dot) implies i < j by {
        assert(names(list[j].change, list[i].dot));
    }
}

/// Where a change of the history is in the run of its replica.
proof fn lemma_place<V>(state: ORSetView<V>, history: History<V>, i: int)
    requires
        is_history(state, history),
        0 <= i < history.list.len(),
        !history.gone.contains(history.list[i].dot.pid),
    ensures
        ({
            let dot = history.list[i].dot;
            let run = of_pid(history.list, dot.pid);
            &&& covers(state.vector, dot)
            &&& 0 <= dot.counter < run.len()
            &&& run[dot.counter as int] == history.list[i]
        }),
{
    let dot = history.list[i].dot;
    lemma_filter_at(history.list, |d: DeltaView<V>| d.dot.pid == dot.pid, i);
    let run = of_pid(history.list, dot.pid);
    assert(is_run(run, dot.pid, state.vector));
}

/// Recording a change drops nothing.
proof fn lemma_recorded_is_remembered<V>(
    state: ORSetView<V>,
    history: History<V>,
    delta: DeltaView<V>,
    vector: Map<Pid, Counter>,
)
    requires
        remembers(state, history, vector),
    ensures
        remembers(state.recorded(delta), extended(history, seq![delta]), vector),
{
    let after = state.recorded(delta);
    let more = extended(history, seq![delta]);
    let n = history.list.len() as int;
    assert forall|i: int|
        0 <= i < more.list.len() && !more.gone.contains((#[trigger] more.list[i]).dot.pid)
            && !after.log_of(more.list[i].dot.pid).contains(more.list[i]) implies covers(
        vector,
        more.list[i].dot,
    ) by {
        let p = more.list[i].dot.pid;
        let part = state.log_of(p);
        if i == n {
            assert(after.log_of(p)[part.len() as int] == delta);
        } else {
            assert(more.list[i] == history.list[i]);
            if part.contains(more.list[i]) {
                let k = choose|k: int| 0 <= k < part.len() && part[k] == more.list[i];
                assert(after.log_of(p)[k] == more.list[i]);
            }
            assert(!state.log_of(history.list[i].dot.pid).contains(history.list[i]));
        }
    }
}

/// A replica that takes in the next change of another, or of its own, goes on
/// taking part.
proof fn lemma_takes_in<V>(
    issued: Set<DeltaView<V>>,
    state: ORSetView<V>,
    history: History<V>,
    delta: DeltaView<V>,
)
    requires
        is_world(issued),
        takes_part(issued, state, history),
        issued.contains(delta),
        !history.gone.contains(delta.dot.pid),
        delta.dot.counter == if state.vector.contains_key(delta.dot.pid) {
            state.vector[delta.dot.pid] + 1
        } else {
            0
        },
        forall|dot: Dot| #[trigger] names(delta.change, dot) ==> occurs(history.list, dot),
    ensures
        takes_part(issued, state.recorded(delta), extended(history, seq![delta])),
        forall|vector: Map<Pid, Counter>|
            remembers(state, history, vector) ==> #[trigger] remembers(
                state.recorded(delta),
                extended(history, seq![delta]),
                vector,
            ),
{
    assert forall|vector: Map<Pid, Counter>| remembers(state, history, vector) implies #[trigger] remembers(
        state.recorded(delta),
        extended(history, seq![delta]),
        vector,
    ) by {
        lemma_recorded_is_remembered(state, history, delta, vector);
    }
    let after = state.recorded(delta);
    let list = history.list;
    let more = extended(history, seq![delta]);
    let n = list.len() as int;
    let pid = delta.dot.pid;
    assert(more.list =~= list.push(delta));
    assert(more.list.drop_last() =~= list);
    assert forall|i: int| 0 <= i < n implies (#[trigger] list[i]).dot != delta.dot by {
        if list[i].dot == delta.dot {
            lemma_place(state, history, i);
        }
    }
    assert(!occurs(list, delta.dot));
    assert forall|i: int, j: int|
        0 <= i < more.list.len() && 0 <= j < more.list.len() && #[trigger] names(
            more.list[j].change,
            more.list[i].dot,
        ) implies i < j by {
        if j < n {
            assert(names(list[j].change, more.list[i].dot));
            if i < n {
                assert(names(list[j].change, list[i].dot));
            } else {
                assert(occurs(list, delta.dot));
            }
        } else if i == n {
            assert(names(delta.change, delta.dot));
        }
    }
    assert forall|i: int, dot: Dot|
        0 <= i < more.list.len() && #[trigger] names(more.list[i].change, dot) implies occurs(
        more.list,
        dot,
    ) by {
        if i < n {
            assert(names(list[i].change, dot));
        } else {
            assert(names(delta.change, dot));
        }
        let k = choose|k: int| 0 <= k < list.len() && (#[trigger] list[k]).dot == dot;
        assert(more.list[k].dot == dot);
    }
    assert forall|p: Pid| !more.gone.contains(p) implies is_run(
        #[trigger] of_pid(more.list, p),
        p,
        after.vector,
    ) && is_tail(after.log_of(p), of_pid(more.list, p)) by {
        lemma_filter_push(list, |d: DeltaView<V>| d.dot.pid == p, delta);
        let run = of_pid(list, p);
        assert(is_run(run, p, state.vector) && is_tail(state.log_of(p), run));
        if p == pid {
            let part = state.log_of(p);
            assert(part.push(delta) =~= run.push(delta).skip(run.len() - part.len()));
        } else {
            assert(after.log_of(p) == state.log_of(p));
        }
    }
    assert forall|other: DeltaView<V>| #[trigger]
        issued.contains(other) && (more.gone.contains(other.dot.pid) || covers(
            after.vector,
            other.dot,
        )) implies more.list.contains(other) by {
        if history.gone.contains(other.dot.pid) || covers(state.vector, other.dot) {
            assert(list.contains(other));
            let k = choose|k: int| 0 <= k < list.len() && list[k] == other;
            assert(more.list[k] == other);
        } else {
            assert(other.dot == delta.dot);
            assert(more.list[n] == other);
        }
    }
    assert forall|i: int| 0 <= i < more.list.len() implies issued.contains(
        #[trigger] more.list[i],
    ) by {
        if i < n {
            assert(issued.contains(list[i]));
        }
    }
}

/// An empty replica takes part, whatever its name.
pub proof fn law_empty_replica_takes_part<V>(issued: Set<DeltaView<V>>, pid: Option<Pid>)
    ensures
        takes_part(
            issued,
            ORSetView { pid, ..ORSetView::<V>::blank() },
            History { list: Seq::empty(), gone: Set::empty() },
        ),
{
    let state = ORSetView { pid, ..ORSetView::<V>::blank() };
    let list = Seq::<DeltaView<V>>::empty();
    assert forall|p: Pid| is_run(#[trigger] of_pid(list, p), p, state.vector) && is_tail(
        state.log_of(p),
        of_pid(list, p),
    ) by {
        reveal(Seq::filter);
        assert(list.skip(0) =~= list);
    }
}

/// A replica that starts from the state of another takes part as that one
/// does.
pub proof fn law_installed_state_takes_part<V>(
    issued: Set<DeltaView<V>>,
    state: ORSetView<V>,
    history: History<V>,
    pid: Pid,
)
    requires
        takes_part(issued, state, history),
    ensures
        takes_part(issued, ORSetView { pid: Some(pid), ..state }, history),
        !history.gone.contains(pid) && (forall|delta: DeltaView<V>| #[trigger]
            issued.contains(delta) ==> delta.dot.pid != pid) ==> knows_its_own(
            issued,
            ORSetView { pid: Some(pid), ..state },
            history,
        ),
{
    let after = ORSetView { pid: Some(pid), ..state };
    assert forall|p: Pid| !history.gone.contains(p) implies is_run(
        #[trigger] of_pid(history.list, p),
        p,
        after.vector,
    ) && is_tail(after.log_of(p), of_pid(history.list, p)) by {
        assert(after.log_of(p) == state.log_of(p));
    }
}

/// A replica that issues a change goes on taking part and knowing its own
/// changes, and so do the others.
pub proof fn law_mutation_takes_part<V>(
    issued: Set<DeltaView<V>>,
    state: ORSetView<V>,
    history: History<V>,
    insert: bool,
    element: V,
    other: ORSetView<V>,
    other_history: History<V>,
)
    requires
        is_world(issued),
        takes_part(issued, state, history),
        knows_its_own(issued, state, history),
        state.has_next_dot(),
        takes_part(issued, other, other_history),
        !other_history.gone.contains(state.pid->0),
    ensures
        ({
            let delta = state.issued(state.pid->0, insert, element);
            let world = issued.insert(delta);
            let after = state.mutated(insert, element);
            &&& is_world(world)
            &&& takes_part(world, after, extended(history, seq![delta]))
            &&& knows_its_own(world, after, extended(history, seq![delta]))
            &&& forall|vector: Map<Pid, Counter>|
                remembers(state, history, vector) ==> #[trigger] remembers(
                    after,
                    extended(history, seq![delta]),
                    vector,
                )
            &&& takes_part(world, other, other_history)
            &&& knows_its_own(issued, other, other_history) && other.pid != state.pid
                ==> knows_its_own(world, other, other_history)
        }),
{
    let pid = state.pid->0;
    let delta = state.issued(pid, insert, element);
    let world = issued.insert(delta);
    let list = history.list;
    let more = extended(history, seq![delta]);
    assert(is_run(of_pid(list, pid), pid, state.vector));
    assert forall|one: DeltaView<V>| #[trigger] issued.contains(one) implies one.dot
        != delta.dot by {
        if one.dot == delta.dot {
            assert(list.contains(one));
            let k = choose|k: int| 0 <= k < list.len() && list[k] == one;
            lemma_place(state, history, k);
        }
    }
    assert(takes_part(world, state, history)) by {
        assert forall|i: int| 0 <= i < list.len() implies world.contains(#[trigger] list[i]) by {
            assert(issued.contains(list[i]));
        }
    }
    assert forall|dot: Dot| #[trigger] names(delta.change, dot) implies occurs(list, dot) by {
        lemma_order_is_causal(list);
        law_causal_history_decides(list, element, dot);
        assert(holds(state.entries, element, dot));
        let k = choose|k: int| 0 <= k < list.len() && #[trigger] inserts(list[k], element, dot);
        assert(list[k].dot == dot);
    }
    lemma_takes_in(world, state, history, delta);
    assert forall|one: DeltaView<V>| #[trigger] world.contains(one) && one.dot.pid
        == pid implies more.list.contains(one) by {
        if one == delta {
            assert(more.list[list.len() as int] == delta);
        } else {
            assert(list.contains(one));
            let k = choose|k: int| 0 <= k < list.len() && list[k] == one;
            assert(more.list[k] == one);
        }
    }
    let seen = other_history.list;
    assert(takes_part(world, other, other_history)) by {
        assert forall|i: int| 0 <= i < seen.len() implies world.contains(#[trigger] seen[i]) by {
            assert(issued.contains(seen[i]));
        }
        let run = of_pid(seen, pid);
        assert(is_run(run, pid, other.vector));
        if covers(other.vector, delta.dot) {
            let twin = run[delta.dot.counter as int];
            assert(twin.dot == delta.dot);
            lemma_filter_holds(seen, |d: DeltaView<V>| d.dot.pid == pid, twin);
            assert(run.contains(twin));
            let k = choose|k: int| 0 <= k < seen.len() && seen[k] == twin;
            assert(issued.contains(seen[k]));
        }
    }
}

/// A round leaves a replica taking part, where all changes of the replicas
/// that it lets go have been taken in.
pub proof fn law_round_takes_part<V>(
    issued: Set<DeltaView<V>>,
    state: ORSetView<V>,
    history: History<V>,
    stable: Map<Pid, Counter>,
    departed: Option<Seq<Pid>>,
)
    requires
        takes_part(issued, state, history),
        forall|delta: DeltaView<V>| #[trigger]
            issued.contains(delta) && is_departed(departed, delta.dot.pid)
                ==> history.list.contains(delta),
    ensures
        takes_part(
            issued,
            state.collected(stable, departed),
            History {
                list: history.list,
                gone: history.gone.union(Set::new(|p: Pid| is_departed(departed, p))),
            },
        ),
{
    let after = state.collected(stable, departed);
    let gone = history.gone.union(Set::new(|p: Pid| is_departed(departed, p)));
    let keep = |delta: DeltaView<V>| ORSetView::<V>::stays(stable, departed, delta.dot);
    lemma_replayed_is_occupied(history.list);
    law_gc_keeps_the_elements(state, stable, departed);
    assert forall|p: Pid| #[trigger] gone.contains(p) implies !after.vector.contains_key(p)
        && !after.log.contains_key(p) by {
        if is_departed(departed, p) && state.log.contains_key(p) && !history.gone.contains(p) {
            let run = of_pid(history.list, p);
            assert(is_run(run, p, state.vector) && is_tail(state.log_of(p), run));
            assert forall|i: int| 0 <= i < state.log[p].len() implies !keep(
                #[trigger] state.log[p][i],
            ) by {
                assert(state.log[p][i] == run[run.len() - state.log[p].len() + i]);
            }
            lemma_filter_none(state.log[p], keep);
        }
    }
    assert forall|p: Pid| !gone.contains(p) implies is_run(
        #[trigger] of_pid(history.list, p),
        p,
        after.vector,
    ) && is_tail(after.log_of(p), of_pid(history.list, p)) by {
        let run = of_pid(history.list, p);
        let part = state.log_of(p);
        assert(is_run(run, p, state.vector) && is_tail(part, run));
        let m = run.len() - part.len();
        if state.log.contains_key(p) {
            let last = state.vector[p];
            assert forall|i: int| 0 <= i < part.len() implies (#[trigger] part[i]).dot.pid == p
                && part[i].dot.counter == last - (part.len() - 1 - i) by {
                assert(part[i] == run[m + i]);
            }
            assert(run_to(part, p, last));
            if stable.contains_key(p) {
                lemma_filter_run(part, p, last, stable[p]);
                lemma_filter_agrees(
                    part,
                    keep,
                    |delta: DeltaView<V>| delta.dot.counter > stable[p],
                );
                let k = run_below(part.len(), last, stable[p]);
                assert(part.filter(keep) == part.skip(k));
                assert(part.skip(k) =~= run.skip(m + k));
            } else {
                lemma_filter_all(part, keep);
            }
            if part.filter(keep).len() == 0 {
                assert(after.log_of(p) =~= Seq::empty());
                assert(run.skip(run.len() as int) =~= Seq::empty());
            }
        }
    }
    assert forall|delta: DeltaView<V>| #[trigger]
        issued.contains(delta) && (gone.contains(delta.dot.pid) || covers(
            after.vector,
            delta.dot,
        )) implies history.list.contains(delta) by {}
}

/// A round drops nothing that a replica at `vector` lacks, where that replica
/// has observed all that is stable.
pub proof fn law_round_is_remembered<V>(
    state: ORSetView<V>,
    history: History<V>,
    stable: Map<Pid, Counter>,
    departed: Option<Seq<Pid>>,
    vector: Map<Pid, Counter>,
)
    requires
        is_history(state, history),
        remembers(state, history, vector),
        forall|dot: Dot| 0 <= dot.counter && #[trigger] covers(stable, dot) ==> covers(vector, dot),
    ensures
        remembers(
            state.collected(stable, departed),
            History {
                list: history.list,
                gone: history.gone.union(Set::new(|p: Pid| is_departed(departed, p))),
            },
            vector,
        ),
{
    let after = state.collected(stable, departed);
    let gone = history.gone.union(Set::new(|p: Pid| is_departed(departed, p)));
    let keep = |delta: DeltaView<V>| ORSetView::<V>::stays(stable, departed, delta.dot);
    assert forall|i: int|
        0 <= i < history.list.len() && !gone.contains((#[trigger] history.list[i]).dot.pid)
            && !after.log_of(history.list[i].dot.pid).contains(history.list[i]) implies covers(
        vector,
        history.list[i].dot,
    ) by {
        let delta = history.list[i];
        let part = state.log_of(delta.dot.pid);
        if part.contains(delta) && keep(delta) {
            lemma_filter_holds(part, keep, delta);
            assert(part.filter(keep).contains(delta));
        }
        lemma_place(state, history, i);
    }
}

/// The log of a replica that takes part has no gaps, and reaches back far
/// enough for whoever knows what it has dropped.
proof fn lemma_log_reaches<V>(
    state: ORSetView<V>,
    history: History<V>,
    vector: Map<Pid, Counter>,
)
    requires
        is_history(state, history),
        remembers(state, history, vector),
        forall|p: Pid| #[trigger] vector.contains_key(p) ==> 0 <= vector[p],
    ensures
        contiguous(state),
        reaches(state, vector),
{
    assert forall|p: Pid| #[trigger] state.log.contains_key(p) implies state.vector.contains_key(p)
        && state.log[p].len() > 0 && run_to(state.log[p], p, state.vector[p]) && (
    vector.contains_key(p) ==> state.log[p][0].dot.counter <= vector[p] + 1) by {
        assert(!history.gone.contains(p));
        let run = of_pid(history.list, p);
        let part = state.log[p];
        assert(is_run(run, p, state.vector) && is_tail(state.log_of(p), run));
        let m = run.len() - part.len();
        assert forall|i: int| 0 <= i < part.len() implies (#[trigger] part[i]).dot.pid == p
            && part[i].dot.counter == state.vector[p] - (part.len() - 1 - i) by {
            assert(part[i] == run[m + i]);
        }
        assert(part[0] == run[m]);
        if m > 0 {
            lemma_dropped_is_known(state, history, vector, p, m - 1);
        }
    }
    assert forall|p: Pid| #[trigger]
        state.vector.contains_key(p) && !state.log.contains_key(p) implies covers(
        vector,
        Dot { pid: p, counter: state.vector[p] },
    ) by {
        assert(!history.gone.contains(p));
        let run = of_pid(history.list, p);
        assert(is_run(run, p, state.vector) && is_tail(state.log_of(p), run));
        lemma_dropped_is_known(state, history, vector, p, run.len() - 1);
    }
}

/// A change that is not in the log any more is known at the vector.
proof fn lemma_dropped_is_known<V>(
    state: ORSetView<V>,
    history: History<V>,
    vector: Map<Pid, Counter>,
    pid: Pid,
    k: int,
)
    requires
        is_history(state, history),
        remembers(state, history, vector),
        !history.gone.contains(pid),
        0 <= k < of_pid(history.list, pid).len() - state.log_of(pid).len(),
    ensures
        covers(vector, of_pid(history.list, pid)[k].dot),
{
    let run = of_pid(history.list, pid);
    let part = state.log_of(pid);
    let m = run.len() - part.len();
    assert(is_run(run, pid, state.vector) && is_tail(part, run));
    lemma_filter_holds(history.list, |d: DeltaView<V>| d.dot.pid == pid, run[k]);
    assert(run.contains(run[k]));
    let i = choose|i: int| 0 <= i < history.list.len() && history.list[i] == run[k];
    if part.contains(run[k]) {
        let j = choose|j: int| 0 <= j < part.len() && part[j] == run[k];
        assert(part[j] == run[m + j]);
        assert(run[m + j].dot.counter == m + j);
    }
    assert(!state.log_of(history.list[i].dot.pid).contains(history.list[i]));
}

/// A list in order stays so when it is filtered.
proof fn lemma_order_filter<V>(list: Seq<DeltaView<V>>, keep: spec_fn(DeltaView<V>) -> bool)
    requires
        in_order(list),
    ensures
        in_order(list.filter(keep)),
    decreases list.len(),
{
    reveal(Seq::filter);
    if list.len() > 0 {
        let front = list.drop_last();
        let n = front.len() as int;
        assert forall|i: int, j: int|
            0 <= i < n && 0 <= j < n && #[trigger] names(front[j].change, front[i].dot) implies i
            < j by {
            assert(names(list[j].change, list[i].dot));
        }
        lemma_order_filter(front, keep);
        let kept = front.filter(keep);
        let all = list.filter(keep);
        if keep(list.last()) {
            assert forall|i: int, j: int|
                0 <= i < all.len() && 0 <= j < all.len() && #[trigger] names(
                    all[j].change,
                    all[i].dot,
                ) implies i < j by {
                if j < kept.len() {
                    if i < kept.len() {
                        assert(names(kept[j].change, kept[i].dot));
                    } else {
                        lemma_filter_holds(front, keep, kept[j]);
                        assert(kept.contains(kept[j]));
                        let b = choose|b: int| 0 <= b < front.len() && front[b] == kept[j];
                        assert(names(list[b].change, list[n].dot));
                    }
                } else if i == j {
                    assert(names(list[n].change, list[n].dot));
                }
            }
        }
    }
}

/// Filtering twice goes either way round.
proof fn lemma_filters_commute<A>(
    list: Seq<A>,
    one: spec_fn(A) -> bool,
    other: spec_fn(A) -> bool,
)
    ensures
        list.filter(one).filter(other) == list.filter(other).filter(one),
    decreases list.len(),
{
    if list.len() == 0 {
        reveal(Seq::filter);
    } else {
        let front = list.drop_last();
        let last = list.last();
        assert(list =~= front.push(last));
        lemma_filters_commute(front, one, other);
        lemma_filter_push(front, one, last);
        lemma_filter_push(front, other, last);
        lemma_filter_push(front.filter(one), other, last);
        lemma_filter_push(front.filter(other), one, last);
    }
}

/// What a replica at `vector` lacks of a history.
spec fn unknown<V>(history: History<V>, vector: Map<Pid, Counter>) -> spec_fn(DeltaView<V>) -> bool {
    |delta: DeltaView<V>| !history.gone.contains(delta.dot.pid) && !covers(vector, delta.dot)
}

/// A group holds exactly what is lacking of the history of its sender, and it
/// can be put in order.
proof fn lemma_group_is_the_rest<V>(
    source: ORSetView<V>,
    history: History<V>,
    vector: Map<Pid, Counter>,
    list: Seq<DeltaView<V>>,
)
    requires
        is_history(source, history),
        remembers(source, history, vector),
        is_group(source, vector, list),
    ensures
        same_runs(history.list.filter(unknown(history, vector)), list),
        in_order(list),
{
    let pick = unknown(history, vector);
    let rest = history.list.filter(pick);
    assert forall|p: Pid| #[trigger] of_pid(rest, p) == of_pid(list, p) by {
        let of_p = |d: DeltaView<V>| d.dot.pid == p;
        let fresh = |d: DeltaView<V>| !covers(vector, d.dot);
        let run = of_pid(history.list, p);
        let part = source.log_of(p);
        lemma_filters_commute(history.list, pick, of_p);
        assert(of_pid(rest, p) == run.filter(pick));
        assert(of_pid(list, p) == part.filter(fresh));
        assert forall|i: int| 0 <= i < run.len() implies (#[trigger] run[i]).dot.pid == p by {
            lemma_filter_holds(history.list, of_p, run[i]);
            assert(run.contains(run[i]));
        }
        if history.gone.contains(p) {
            lemma_filter_none(run, pick);
            reveal(Seq::filter);
            assert(part =~= Seq::empty());
        } else {
            assert(is_run(run, p, source.vector) && is_tail(part, run));
            let m = run.len() - part.len();
            lemma_filter_agrees(run, pick, fresh);
            assert(run =~= run.take(m) + run.skip(m));
            Seq::filter_distributes_over_add(run.take(m), run.skip(m), fresh);
            assert forall|k: int| 0 <= k < run.take(m).len() implies !fresh(
                #[trigger] run.take(m)[k],
            ) by {
                lemma_dropped_is_known(source, history, vector, p, k);
            }
            lemma_filter_none(run.take(m), fresh);
            assert(Seq::<DeltaView<V>>::empty() + part.filter(fresh) =~= part.filter(fresh));
        }
    }
    lemma_order_filter(history.list, pick);
    lemma_distinct_runs(history.list);
    lemma_distinct_runs(list);
    assert forall|p: Pid| distinct(#[trigger] of_pid(list, p)) by {
        lemma_filters_commute(history.list, pick, |d: DeltaView<V>| d.dot.pid == p);
        assert(distinct(of_pid(history.list, p)));
        assert(of_pid(rest, p) == of_pid(list, p));
        lemma_distinct_filter(of_pid(history.list, p), pick);
    }
    assert(same_runs(rest, list) && in_order(rest));
    assert(orderable(list));
}

/// The first `n` changes of a pull.
proof fn lemma_pull_part<V>(
    issued: Set<DeltaView<V>>,
    source: ORSetView<V>,
    source_history: History<V>,
    target: ORSetView<V>,
    target_history: History<V>,
    list: Seq<DeltaView<V>>,
    n: int,
)
    requires
        is_world(issued),
        takes_part(issued, source, source_history),
        takes_part(issued, target, target_history),
        source_history.gone == target_history.gone,
        remembers(source, source_history, target.vector),
        is_group(source, target.vector, list),
        contiguous(source),
        reaches(source, target.vector),
        in_order(list),
        same_runs(source_history.list.filter(unknown(source_history, target.vector)), list),
        0 <= n <= list.len(),
    ensures
        takes_part(issued, target.merged(list.take(n)), extended(target_history, list.take(n))),
        forall|vector: Map<Pid, Counter>|
            remembers(target, target_history, vector) ==> #[trigger] remembers(
                target.merged(list.take(n)),
                extended(target_history, list.take(n)),
                vector,
            ),
    decreases n,
{
    if n == 0 {
        assert(list.take(0) =~= Seq::empty());
        assert(target_history.list + Seq::<DeltaView<V>>::empty() =~= target_history.list);
    } else {
        lemma_pull_part(
            issued,
            source,
            source_history,
            target,
            target_history,
            list,
            n - 1,
        );
        lemma_pull_prefix(source, target, list, n - 1);
        let part = list.take(n - 1);
        let middle = target.merged(part);
        let history = extended(target_history, part);
        let delta = list[n - 1];
        let pid = delta.dot.pid;
        let rest = source_history.list.filter(unknown(source_history, target.vector));
        assert(list.take(n).drop_last() =~= part);
        assert(list.take(n) =~= part.push(delta));
        assert(extended(target_history, list.take(n)).list =~= extended(
            history,
            seq![delta],
        ).list);
        assert(list.contains(delta));
        lemma_same_runs_hold(rest, list, delta);
        lemma_filter_holds(source_history.list, unknown(source_history, target.vector), delta);
        let at = choose|at: int|
            0 <= at < source_history.list.len() && source_history.list[at] == delta;
        assert(issued.contains(source_history.list[at]));
        if !middle.vector.contains_key(pid) {
            lemma_starts_at_zero(source, source_history, target.vector, pid);
            lemma_filter_at(list, |d: DeltaView<V>| d.dot.pid == pid, n - 1);
            assert(of_pid(list, pid) == ORSetView::lacking_of(source.log_of(pid), target.vector));
        }
        assert forall|dot: Dot| #[trigger] names(delta.change, dot) implies occurs(
            history.list,
            dot,
        ) by {
            assert(names(source_history.list[at].change, dot));
            let k = choose|k: int|
                0 <= k < source_history.list.len() && (#[trigger] source_history.list[k]).dot
                    == dot;
            let named = source_history.list[k];
            assert(issued.contains(named));
            if source_history.gone.contains(dot.pid) || covers(target.vector, dot) {
                assert(target_history.list.contains(named));
                let m = choose|m: int|
                    0 <= m < target_history.list.len() && target_history.list[m] == named;
                assert(history.list[m].dot == dot);
            } else {
                lemma_filter_holds(
                    source_history.list,
                    unknown(source_history, target.vector),
                    named,
                );
                assert(source_history.list.contains(named));
                lemma_same_runs_hold(rest, list, named);
                let m = choose|m: int| 0 <= m < list.len() && list[m] == named;
                assert(names(list[n - 1].change, list[m].dot));
                assert(part[m] == named);
                assert(history.list[target_history.list.len() + m].dot == dot);
            }
        }
        lemma_takes_in(issued, middle, history, delta);
        assert(extended(target_history, list.take(n)) == extended(history, seq![delta]));
        assert(target.merged(list.take(n)) == middle.recorded(delta));
        assert forall|vector: Map<Pid, Counter>|
            remembers(target, target_history, vector) implies #[trigger] remembers(
            target.merged(list.take(n)),
            extended(target_history, list.take(n)),
            vector,
        ) by {
            assert(remembers(middle, history, vector));
        }
    }
}

/// To a replica that knows nothing of an origin its changes are sent from the
/// first one on.
proof fn lemma_starts_at_zero<V>(
    state: ORSetView<V>,
    history: History<V>,
    vector: Map<Pid, Counter>,
    pid: Pid,
)
    requires
        is_history(state, history),
        remembers(state, history, vector),
        !history.gone.contains(pid),
        !vector.contains_key(pid),
    ensures
        ORSetView::lacking_of(state.log_of(pid), vector) == of_pid(history.list, pid),
        is_run(of_pid(history.list, pid), pid, state.vector),
{
    let run = of_pid(history.list, pid);
    let part = state.log_of(pid);
    assert(is_run(run, pid, state.vector) && is_tail(part, run));
    if part.len() < run.len() {
        lemma_dropped_is_known(state, history, vector, pid, 0);
    }
    assert(part =~= run);
    lemma_filter_all(part, |d: DeltaView<V>| !covers(vector, d.dot));
}

/// A replica that pulls from another goes on taking part: what it is sent is
/// in causal order, fits, and brings it to the join of both version vectors.
pub proof fn law_pull_takes_part<V>(
    issued: Set<DeltaView<V>>,
    source: ORSetView<V>,
    source_history: History<V>,
    target: ORSetView<V>,
    target_history: History<V>,
    list: Seq<DeltaView<V>>,
)
    requires
        is_world(issued),
        takes_part(issued, source, source_history),
        takes_part(issued, target, target_history),
        source_history.gone == target_history.gone,
        remembers(source, source_history, target.vector),
        is_group(source, target.vector, list),
    ensures
        in_order(list),
        target.can_merge(list),
        target.merged(list).vector == joined(target.vector, source.vector),
        takes_part(issued, target.merged(list), extended(target_history, list)),
        forall|vector: Map<Pid, Counter>|
            remembers(target, target_history, vector) ==> #[trigger] remembers(
                target.merged(list),
                extended(target_history, list),
                vector,
            ),
{
    lemma_log_reaches(source, source_history, target.vector);
    law_pull_brings_up_to_date(source, target, list);
    lemma_group_is_the_rest(source, source_history, target.vector, list);
    lemma_pull_part(
        issued,
        source,
        source_history,
        target,
        target_history,
        list,
        list.len() as int,
    );
    assert(list.take(list.len() as int) =~= list);
}

/// Replicas that have observed the same changes hold the same elements, by the
/// same dots, whatever was issued, pulled and collected on the way.
pub proof fn law_equal_vectors_agree<V>(
    issued: Set<DeltaView<V>>,
    one: ORSetView<V>,
    one_history: History<V>,
    other: ORSetView<V>,
    other_history: History<V>,
    element: V,
    dot: Dot,
)
    requires
        takes_part(issued, one, one_history),
        takes_part(issued, other, other_history),
        one_history.gone == other_history.gone,
        one.vector == other.vector,
    ensures
        holds(one.entries, element, dot) == holds(other.entries, element, dot),
        is_contained(one.entries, element) == is_contained(other.entries, element),
        one.entries.contains_key(element) == other.entries.contains_key(element),
{
    lemma_order_is_causal(one_history.list);
    lemma_order_is_causal(other_history.list);
    assert forall|delta: DeltaView<V>| #[trigger]
        one_history.list.contains(delta) <==> other_history.list.contains(delta) by {
        if one_history.list.contains(delta) {
            lemma_taken_in_by_both(issued, one, one_history, other, other_history, delta);
        }
        if other_history.list.contains(delta) {
            lemma_taken_in_by_both(issued, other, other_history, one, one_history, delta);
        }
    }
    law_replicas_converge(one_history.list, other_history.list, element, dot);
}

/// What one replica has taken in, another at the same vector has too.
proof fn lemma_taken_in_by_both<V>(
    issued: Set<DeltaView<V>>,
    one: ORSetView<V>,
    one_history: History<V>,
    other: ORSetView<V>,
    other_history: History<V>,
    delta: DeltaView<V>,
)
    requires
        takes_part(issued, one, one_history),
        takes_part(issued, other, other_history),
        one_history.gone == other_history.gone,
        one.vector == other.vector,
        one_history.list.contains(delta),
    ensures
        other_history.list.contains(delta),
{
    let k = choose|k: int| 0 <= k < one_history.list.len() && one_history.list[k] == delta;
    assert(issued.contains(one_history.list[k]));
    if !one_history.gone.contains(delta.dot.pid) {
        lemma_place(one, one_history, k);
    }
}

/// Two replicas of which one pulls from the other and is then pulled from hold
/// the same elements.
pub proof fn law_pulls_bring_agreement<V>(
    issued: Set<DeltaView<V>>,
    one: ORSetView<V>,
    one_history: History<V>,
    other: ORSetView<V>,
    other_history: History<V>,
    to_one: Seq<DeltaView<V>>,
    to_other: Seq<DeltaView<V>>,
    element: V,
)
    requires
        is_world(issued),
        takes_part(issued, one, one_history),
        takes_part(issued, other, other_history),
        one_history.gone == other_history.gone,
        remembers(other, other_history, one.vector),
        is_group(other, one.vector, to_one),
        remembers(one, one_history, other.vector),
        is_group(one.merged(to_one), other.vector, to_other),
    ensures
        one.merged(to_one).vector == other.merged(to_other).vector,
        is_contained(one.merged(to_one).entries, element) == is_contained(
            other.merged(to_other).entries,
            element,
        ),
        one.merged(to_one).entries.contains_key(element) == other.merged(
            to_other,
        ).entries.contains_key(element),
{
    law_pull_takes_part(issued, other, other_history, one, one_history, to_one);
    let middle = one.merged(to_one);
    let history = extended(one_history, to_one);
    assert(remembers(middle, history, other.vector));
    law_pull_takes_part(issued, middle, history, other, other_history, to_other);
    let last = other.merged(to_other);
    assert(last.vector =~= middle.vector);
    law_equal_vectors_agree(
        issued,
        middle,
        history,
        last,
        extended(other_history, to_other),
        element,
        Dot { pid: 0, counter: 0 },
    );
}

} // verus!
