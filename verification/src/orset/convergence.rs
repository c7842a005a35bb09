//! Replicas of the observed-remove set that exchange deltas come to agree.

use vstd::prelude::*;
use crate::dots::{covers, joined, Counter, Dot};
use crate::orset::causal::{is_group, lemma_filter_at, lemma_filter_push, of_pid};
use crate::orset::laws::{
    holds, law_change_is_exact, lemma_filter_all, lemma_filter_none, lemma_same_holders, occupied,
};
use crate::orset::{
    all_insertions, all_removals, dots_of, is_contained, is_departed, lemma_filter_agrees, ChangeView, DeltaView,
    ORSetView,
};
use crate::prelude::Pid;

verus! {

/// The entries that a list of changes leads to, from none on.
pub open spec fn replayed<V>(list: Seq<DeltaView<V>>) -> Map<V, Seq<Dot>>
    decreases list.len(),
{
    if list.len() == 0 {
        Map::empty()
    } else {
        ORSetView::changed(replayed(list.drop_last()), list.last().dot, list.last().change)
    }
}

/// Whether a change inserts `element` under `dot`.
pub open spec fn inserts<V>(delta: DeltaView<V>, element: V, dot: Dot) -> bool {
    delta.dot == dot && delta.change == ChangeView::<V>::Insert { element }
}

/// Whether a change takes `dot` from `element`.
pub open spec fn removes<V>(delta: DeltaView<V>, element: V, dot: Dot) -> bool {
    delta.change matches ChangeView::Remove { element: e, removed_dots } && e == element
        && removed_dots.contains(dot)
}

/// Whether no removal comes before an insertion that it names.
pub open spec fn causal<V>(list: Seq<DeltaView<V>>) -> bool {
    forall|i: int, j: int, element: V, dot: Dot|
        0 <= i < list.len() && 0 <= j < list.len() && #[trigger] inserts(list[i], element, dot)
            && #[trigger] removes(list[j], element, dot) ==> i < j
}

/// After changes in causal order a dot holds an element exactly if one of them
/// inserted it and none removed it: the order does not matter.
pub proof fn law_causal_history_decides<V>(list: Seq<DeltaView<V>>, element: V, dot: Dot)
    requires
        causal(list),
    ensures
        holds(replayed(list), element, dot) <==> {
            &&& exists|i: int| 0 <= i < list.len() && #[trigger] inserts(list[i], element, dot)
            &&& !exists|j: int| 0 <= j < list.len() && #[trigger] removes(list[j], element, dot)
        },
    decreases list.len(),
{
    if list.len() == 0 {
        assert(dots_of(replayed(list), element) =~= Seq::empty());
    } else {
        let front = list.drop_last();
        let last = list.last();
        let n = front.len() as int;
        assert forall|i: int, j: int, e: V, d: Dot|
            0 <= i < front.len() && 0 <= j < front.len() && #[trigger] inserts(front[i], e, d)
                && #[trigger] removes(front[j], e, d) implies i < j by {
            assert(inserts(list[i], e, d) && removes(list[j], e, d));
        }
        law_causal_history_decides(front, element, dot);
        law_change_is_exact(replayed(front), last.dot, last.change, element, dot);
        assert(list[n] == last);
        if exists|i: int| 0 <= i < front.len() && #[trigger] inserts(front[i], element, dot) {
            let i = choose|i: int| 0 <= i < front.len() && #[trigger] inserts(front[i], element, dot);
            assert(inserts(list[i], element, dot));
        }
        if exists|j: int| 0 <= j < front.len() && #[trigger] removes(front[j], element, dot) {
            let j = choose|j: int| 0 <= j < front.len() && #[trigger] removes(front[j], element, dot);
            assert(removes(list[j], element, dot));
            assert(!inserts(list[n], element, dot));
        }
        if exists|i: int| 0 <= i < list.len() && #[trigger] inserts(list[i], element, dot) {
            let i = choose|i: int| 0 <= i < list.len() && #[trigger] inserts(list[i], element, dot);
            if i < n {
                assert(inserts(front[i], element, dot));
            }
        }
        if exists|j: int| 0 <= j < list.len() && #[trigger] removes(list[j], element, dot) {
            let j = choose|j: int| 0 <= j < list.len() && #[trigger] removes(list[j], element, dot);
            if j < n {
                assert(removes(front[j], element, dot));
            }
        }
        assert(inserts(last, element, dot) ==> inserts(list[n], element, dot));
        assert(removes(last, element, dot) ==> removes(list[n], element, dot));
    }
}

/// Replayed entries are never without a dot.
pub(super) proof fn lemma_replayed_is_occupied<V>(list: Seq<DeltaView<V>>)
    ensures
        occupied(replayed(list)),
    decreases list.len(),
{
    if list.len() > 0 {
        let front = list.drop_last();
        lemma_replayed_is_occupied(front);
        if let ChangeView::Insert { element } = list.last().change {
            let dots = dots_of(replayed(front), element);
            assert(dots.contains(list.last().dot) ==> dots.len() > 0);
        }
    }
}

/// Two replicas that have taken in the same changes, each in an order that
/// respects causality, contain the same elements, held by the same dots.
pub proof fn law_replicas_converge<V>(
    one: Seq<DeltaView<V>>,
    other: Seq<DeltaView<V>>,
    element: V,
    dot: Dot,
)
    requires
        causal(one),
        causal(other),
        forall|delta: DeltaView<V>| #[trigger] one.contains(delta) <==> other.contains(delta),
    ensures
        holds(replayed(one), element, dot) == holds(replayed(other), element, dot),
        is_contained(replayed(one), element) == is_contained(replayed(other), element),
        replayed(one).contains_key(element) == replayed(other).contains_key(element),
{
    assert forall|d: Dot| #[trigger] holds(replayed(one), element, d) == holds(replayed(other), element, d) by {
        law_causal_history_decides(one, element, d);
        law_causal_history_decides(other, element, d);
        lemma_same_changes(one, other, element, d);
        lemma_same_changes(other, one, element, d);
    }
    lemma_replayed_is_occupied(one);
    lemma_replayed_is_occupied(other);
    lemma_same_holders(replayed(one), replayed(other), element);
}

/// What one list inserts or removes, a list with all of its changes does too.
proof fn lemma_same_changes<V>(
    one: Seq<DeltaView<V>>,
    other: Seq<DeltaView<V>>,
    element: V,
    dot: Dot,
)
    requires
        forall|delta: DeltaView<V>| #[trigger] one.contains(delta) ==> other.contains(delta),
    ensures
        (exists|i: int| 0 <= i < one.len() && #[trigger] inserts(one[i], element, dot)) ==> (exists|
            i: int,
        |
            0 <= i < other.len() && #[trigger] inserts(other[i], element, dot)),
        (exists|i: int| 0 <= i < one.len() && #[trigger] removes(one[i], element, dot)) ==> (exists|
            i: int,
        |
            0 <= i < other.len() && #[trigger] removes(other[i], element, dot)),
{
    if exists|i: int| 0 <= i < one.len() && #[trigger] inserts(one[i], element, dot) {
        let i = choose|i: int| 0 <= i < one.len() && #[trigger] inserts(one[i], element, dot);
        assert(one.contains(one[i]));
        let k = choose|k: int| 0 <= k < other.len() && other[k] == one[i];
        assert(inserts(other[k], element, dot));
    }
    if exists|i: int| 0 <= i < one.len() && #[trigger] removes(one[i], element, dot) {
        let i = choose|i: int| 0 <= i < one.len() && #[trigger] removes(one[i], element, dot);
        assert(one.contains(one[i]));
        let k = choose|k: int| 0 <= k < other.len() && other[k] == one[i];
        assert(removes(other[k], element, dot));
    }
}

/// A replica whose entries are those of its history keeps them so when it
/// takes in one more change, its own or that of another.
pub proof fn law_recording_extends_the_history<V>(
    state: ORSetView<V>,
    history: Seq<DeltaView<V>>,
    delta: DeltaView<V>,
)
    requires
        state.entries == replayed(history),
    ensures
        state.recorded(delta).entries == replayed(history.push(delta)),
        ORSetView::<V>::blank().entries == replayed(Seq::<DeltaView<V>>::empty()),
{
    assert(history.push(delta).drop_last() =~= history);
}

/// Whether `list` holds consecutive changes of `pid`, up to `last`.
pub open spec fn run_to<V>(list: Seq<DeltaView<V>>, pid: Pid, last: Counter) -> bool {
    forall|i: int|
        0 <= i < list.len() ==> (#[trigger] list[i]).dot.pid == pid && list[i].dot.counter == last - (
        list.len() - 1 - i)
}

/// Whether the log of each replica runs without a gap up to its counter.
pub open spec fn contiguous<V>(state: ORSetView<V>) -> bool {
    forall|p: Pid| #[trigger]
        state.log.contains_key(p) ==> state.vector.contains_key(p) && state.log[p].len() > 0
            && run_to(state.log[p], p, state.vector[p])
}

/// Recording the next delta of a replica keeps the log without gaps.
proof fn lemma_recorded_is_contiguous<V>(state: ORSetView<V>, delta: DeltaView<V>)
    requires
        contiguous(state),
        state.vector.contains_key(delta.dot.pid) ==> state.vector[delta.dot.pid] + 1
            == delta.dot.counter,
    ensures
        contiguous(state.recorded(delta)),
{
    let after = state.recorded(delta);
    let pid = delta.dot.pid;
    assert(run_to(after.log[pid], pid, after.vector[pid])) by {
        let list = after.log[pid];
        assert forall|i: int| 0 <= i < list.len() implies (#[trigger] list[i]).dot.pid == pid
            && list[i].dot.counter == after.vector[pid] - (list.len() - 1 - i) by {
            if i < list.len() - 1 {
                assert(list[i] == state.log[pid][i]);
            }
        }
    }
}

/// The log never has a gap: not in an empty set, not after a local change,
/// not after a group that was merged, and not after a round.
pub proof fn law_log_is_contiguous<V>(
    state: ORSetView<V>,
    insert: bool,
    element: V,
    list: Seq<DeltaView<V>>,
    stable: Map<Pid, Counter>,
    departed: Option<Seq<Pid>>,
)
    requires
        contiguous(state),
    ensures
        contiguous(ORSetView::<V>::blank()),
        state.has_next_dot() ==> contiguous(state.mutated(insert, element)),
        state.can_merge(list) ==> contiguous(state.merged(list)),
        contiguous(state.collected(stable, departed)),
{
    if state.pid is Some && state.has_next_dot() {
        lemma_recorded_is_contiguous(state, state.issued(state.pid->0, insert, element));
    }
    if state.can_merge(list) {
        lemma_merged_is_contiguous(state, list);
    }
    let after = state.collected(stable, departed);
    assert forall|p: Pid| #[trigger] after.log.contains_key(p) implies after.vector.contains_key(p)
        && run_to(after.log[p], p, after.vector[p]) by {
        let keep = |delta: DeltaView<V>| ORSetView::<V>::stays(stable, departed, delta.dot);
        let items = state.log[p];
        if is_departed(departed, p) {
            lemma_filter_none(items, keep);
        } else if stable.contains_key(p) {
            lemma_filter_run(items, p, state.vector[p], stable[p]);
            lemma_filter_agrees(
                items,
                keep,
                |delta: DeltaView<V>| delta.dot.counter > stable[p],
            );
        } else {
            lemma_filter_all(items, keep);
        }
    }
}

/// Merging keeps the log without gaps.
proof fn lemma_merged_is_contiguous<V>(state: ORSetView<V>, list: Seq<DeltaView<V>>)
    requires
        contiguous(state),
        state.can_merge(list),
    ensures
        contiguous(state.merged(list)),
    decreases list.len(),
{
    if list.len() > 0 {
        let front = list.drop_last();
        lemma_merged_is_contiguous(state, front);
        if state.merged(front).lacks(list.last()) {
            lemma_recorded_is_contiguous(state.merged(front), list.last());
        }
    }
}

/// How many changes of a run up to `last` are not above `bound`.
pub(super) closed spec fn run_below(len: nat, last: Counter, bound: Counter) -> int {
    if bound >= last {
        len as int
    } else if bound < last - len {
        0
    } else {
        bound - (last - len)
    }
}

/// The changes of a run above a bound are the end of the run.
pub(super) proof fn lemma_filter_run<V>(list: Seq<DeltaView<V>>, pid: Pid, last: Counter, bound: Counter)
    requires
        run_to(list, pid, last),
    ensures
        0 <= run_below(list.len(), last, bound) <= list.len(),
        list.filter(|delta: DeltaView<V>| delta.dot.counter > bound) == list.skip(
            run_below(list.len(), last, bound),
        ),
        run_to(list.filter(|delta: DeltaView<V>| delta.dot.counter > bound), pid, last),
    decreases list.len(),
{
    let above = |delta: DeltaView<V>| delta.dot.counter > bound;
    let k = run_below(list.len(), last, bound);
    if bound >= last {
        assert forall|i: int| 0 <= i < list.len() implies !above(#[trigger] list[i]) by {}
        lemma_filter_none(list, above);
        assert(list.skip(k) =~= Seq::empty());
    } else if list.len() > 0 {
        reveal(Seq::filter);
        let front = list.drop_last();
        assert(list[list.len() - 1].dot.counter == last);
        if list.len() > 1 {
            let previous = list[list.len() - 2].dot.counter;
            assert(previous == last - 1);
            assert forall|i: int| 0 <= i < front.len() implies (#[trigger] front[i]).dot.pid == pid
                && front[i].dot.counter == previous - (front.len() - 1 - i) by {
                assert(front[i] == list[i]);
            }
            lemma_filter_run(front, pid, previous, bound);
            assert(run_below(front.len(), previous, bound) == k);
            assert(front.skip(k).push(list.last()) =~= list.skip(k));
        } else {
            assert(front.filter(above) =~= Seq::empty());
            assert(list.skip(0) =~= list);
            assert(Seq::<DeltaView<V>>::empty().push(list.last()) =~= list);
            assert(k == 0);
        }
    } else {
        reveal(Seq::filter);
        assert(list.skip(0) =~= list);
    }
    let rest = list.skip(k);
    assert forall|i: int| 0 <= i < rest.len() implies (#[trigger] rest[i]).dot.pid == pid
        && rest[i].dot.counter == last - (rest.len() - 1 - i) by {
        assert(rest[i] == list[k + i]);
    }
}

/// Whether the log of `source` reaches back far enough for a replica at
/// `vector`: what the replica lacks of each origin is still there.
pub open spec fn reaches<V>(source: ORSetView<V>, vector: Map<Pid, Counter>) -> bool {
    &&& forall|p: Pid| #[trigger]
        source.log.contains_key(p) && vector.contains_key(p) ==> source.log[p][0].dot.counter
            <= vector[p] + 1
    &&& forall|p: Pid| #[trigger]
        source.vector.contains_key(p) && !source.log.contains_key(p) ==> covers(
            vector,
            Dot { pid: p, counter: source.vector[p] },
        )
}

/// What a replica at `vector` is sent of one origin: consecutive changes, from
/// the first that it lacks to the last that there is.
proof fn lemma_run_of_origin<V>(source: ORSetView<V>, vector: Map<Pid, Counter>, pid: Pid)
    requires
        contiguous(source),
        reaches(source, vector),
    ensures
        ({
            let run = ORSetView::lacking_of(source.log_of(pid), vector);
            &&& run.len() > 0 ==> source.vector.contains_key(pid) && run_to(
                run,
                pid,
                source.vector[pid],
            )
            &&& run.len() > 0 && vector.contains_key(pid) ==> run[0].dot.counter == vector[pid] + 1
            &&& run.len() == 0 && source.vector.contains_key(pid) ==> covers(
                vector,
                Dot { pid, counter: source.vector[pid] },
            )
        }),
{
    let keep = |delta: DeltaView<V>| !covers(vector, delta.dot);
    if source.log.contains_key(pid) {
        let items = source.log[pid];
        let last = source.vector[pid];
        let run = ORSetView::lacking_of(items, vector);
        if vector.contains_key(pid) {
            let bound = vector[pid];
            lemma_filter_run(items, pid, last, bound);
            lemma_filter_agrees(items, keep, |delta: DeltaView<V>| delta.dot.counter > bound);
            let k = run_below(items.len(), last, bound);
            assert(items[0].dot.counter <= bound + 1);
            if run.len() > 0 {
                assert(run[0] == items[k]);
                assert(items[k].dot.counter == bound + 1);
            }
        } else {
            assert forall|i: int| 0 <= i < items.len() implies keep(#[trigger] items[i]) by {}
            lemma_filter_all(items, keep);
        }
    } else {
        reveal(Seq::filter);
    }
}

/// Answering a pull: the deltas that a replica lacks can be merged, and bring
/// it to the join of both version vectors. The counts that are sent along are
/// those that the receiver finds.
pub proof fn law_pull_brings_up_to_date<V>(
    source: ORSetView<V>,
    target: ORSetView<V>,
    list: Seq<DeltaView<V>>,
)
    requires
        contiguous(source),
        reaches(source, target.vector),
        is_group(source, target.vector, list),
    ensures
        target.can_merge(list),
        target.merged(list).vector == joined(target.vector, source.vector),
        target.insertions(list) == all_insertions(list),
        target.removals(list) == all_removals(list),
{
    let n = list.len() as int;
    lemma_pull_prefix(source, target, list, n);
    assert(list.take(n) =~= list);
    let after = target.merged(list).vector;
    assert forall|p: Pid| #[trigger] after.contains_key(p) <==> joined(
        target.vector,
        source.vector,
    ).contains_key(p) by {
        lemma_run_of_origin(source, target.vector, p);
        assert(of_pid(list, p) == ORSetView::lacking_of(source.log_of(p), target.vector));
    }
    assert forall|p: Pid| #[trigger] after.contains_key(p) implies after[p] == joined(
        target.vector,
        source.vector,
    )[p] by {
        lemma_run_of_origin(source, target.vector, p);
        let run = of_pid(list, p);
        assert(run == ORSetView::lacking_of(source.log_of(p), target.vector));
        if run.len() > 0 {
            assert(run[run.len() - 1].dot.counter == source.vector[p]);
            assert(run[0].dot.counter <= source.vector[p]);
        }
    }
    assert(after =~= joined(target.vector, source.vector));
}

/// The effect of the first `n` changes of a pull: each is the next one of its
/// origin.
pub(super) proof fn lemma_pull_prefix<V>(
    source: ORSetView<V>,
    target: ORSetView<V>,
    list: Seq<DeltaView<V>>,
    n: int,
)
    requires
        contiguous(source),
        reaches(source, target.vector),
        is_group(source, target.vector, list),
        0 <= n <= list.len(),
    ensures
        ({
            let part = list.take(n);
            let after = target.merged(part).vector;
            &&& target.can_merge(part)
            &&& target.insertions(part) == all_insertions(part)
            &&& target.removals(part) == all_removals(part)
            &&& forall|p: Pid| #[trigger]
                after.contains_key(p) <==> target.vector.contains_key(p) || of_pid(part, p).len()
                    > 0
            &&& forall|p: Pid| #[trigger]
                after.contains_key(p) ==> after[p] == if of_pid(part, p).len() > 0 {
                    of_pid(part, p).last().dot.counter
                } else {
                    target.vector[p]
                }
            &&& n < list.len() ==> target.merged(part).lacks(list[n]) && target.merged(
                part,
            ).can_apply(list[n])
        }),
    decreases n,
{
    let part = list.take(n);
    let after = target.merged(part).vector;
    if n == 0 {
        assert(part =~= Seq::empty());
        assert forall|p: Pid| (#[trigger] of_pid(part, p)).len() == 0 by {
            reveal(Seq::filter);
        }
    } else {
        lemma_pull_prefix(source, target, list, n - 1);
        let front = list.take(n - 1);
        let delta = list[n - 1];
        assert(part.drop_last() =~= front);
        assert(part =~= front.push(delta));
        assert(after =~= target.merged(front).vector.insert(delta.dot.pid, delta.dot.counter));
        assert forall|p: Pid| #[trigger] of_pid(part, p) == if p == delta.dot.pid {
            of_pid(front, p).push(delta)
        } else {
            of_pid(front, p)
        } by {
            lemma_filter_push(front, |d: DeltaView<V>| d.dot.pid == p, delta);
        }
    }
    if n < list.len() {
        let delta = list[n];
        let pid = delta.dot.pid;
        let run = of_pid(list, pid);
        lemma_run_of_origin(source, target.vector, pid);
        lemma_filter_at(list, |d: DeltaView<V>| d.dot.pid == pid, n);
        assert(run == ORSetView::lacking_of(source.log_of(pid), target.vector));
        let c = of_pid(part, pid).len() as int;
        assert(run[c] == delta);
        if c > 0 {
            assert(of_pid(part, pid).last() == run[c - 1]);
            assert(run[c - 1].dot.counter + 1 == run[c].dot.counter);
        }
        assert(after.contains_key(pid) ==> after[pid] + 1 == delta.dot.counter);
    }
}

} // verus!
