//! The order in which changes are sent: none before one that it refers to.

use std::collections::HashSet;
use vstd::prelude::*;
use crate::dots::dot_map::{lemma_filter_holds, lemma_filter_next};
use crate::dots::{ascending, covers, Counter, Dot};
use crate::order::{Element, SortedMap};
use crate::orset::laws::{lemma_filter_all, lemma_filter_none, names};
use crate::orset::{deltas_view, items_view, DeltaView, ORSetView, OrSetChange, OrSetDelta};
use crate::prelude::Pid;

verus! {

/// The changes of one replica in a list.
pub open spec fn of_pid<V>(list: Seq<DeltaView<V>>, pid: Pid) -> Seq<DeltaView<V>> {
    list.filter(|delta: DeltaView<V>| delta.dot.pid == pid)
}

/// Whether two lists hold the same changes of each replica, in the same order.
pub open spec fn same_runs<V>(one: Seq<DeltaView<V>>, other: Seq<DeltaView<V>>) -> bool {
    forall|p: Pid| #[trigger] of_pid(one, p) == of_pid(other, p)
}

/// Whether no change comes before one whose dot it names.
pub open spec fn in_order<V>(list: Seq<DeltaView<V>>) -> bool {
    forall|i: int, j: int|
        0 <= i < list.len() && 0 <= j < list.len() && #[trigger] names(
            list[j].change,
            list[i].dot,
        ) ==> i < j
}

/// Whether no dot occurs twice in a list.
pub open spec fn distinct<V>(list: Seq<DeltaView<V>>) -> bool {
    forall|i: int, j: int|
        0 <= i < list.len() && 0 <= j < list.len() && i != j ==> (#[trigger] list[i]).dot != (
        #[trigger] list[j]).dot
}

/// Whether there is a way to put the changes in order that keeps those of each
/// replica in theirs.
pub open spec fn orderable<V>(list: Seq<DeltaView<V>>) -> bool {
    &&& distinct(list)
    &&& exists|other: Seq<DeltaView<V>>| #[trigger] same_runs(other, list) && in_order(other)
}

/// Whether `list` is what a replica at `vector` lacks: of each origin the
/// changes that `state` still has and `vector` does not cover, and in order,
/// if that is possible.
pub open spec fn is_group<V>(
    state: ORSetView<V>,
    vector: Map<Pid, Counter>,
    list: Seq<DeltaView<V>>,
) -> bool {
    &&& forall|p: Pid| #[trigger]
        of_pid(list, p) == ORSetView::lacking_of(state.log_of(p), vector)
    &&& orderable(list) ==> in_order(list)
}

/// The changes that are not done yet.
spec fn left_over<V>(list: Seq<DeltaView<V>>, done: Seq<bool>) -> Seq<DeltaView<V>>
    decreases list.len(),
{
    if list.len() == 0 {
        Seq::empty()
    } else {
        let front = left_over(list.drop_last(), done.drop_last());
        if done.last() {
            front
        } else {
            front.push(list.last())
        }
    }
}

/// Whether the changes of a replica that come before change `i` are all done.
spec fn is_first<V>(list: Seq<DeltaView<V>>, done: Seq<bool>, i: int) -> bool {
    forall|j: int| 0 <= j < i && (#[trigger] list[j]).dot.pid == list[i].dot.pid ==> done[j]
}

/// Whether a change names no dot of one that is not done.
spec fn is_free<V>(list: Seq<DeltaView<V>>, done: Seq<bool>, i: int) -> bool {
    forall|j: int| 0 <= j < list.len() && !done[j] ==> !#[trigger] names(list[i].change, list[j].dot)
}

/// What a filter does to one more item.
pub proof fn lemma_filter_push<A>(list: Seq<A>, keep: spec_fn(A) -> bool, item: A)
    ensures
        list.push(item).filter(keep) == if keep(item) {
            list.filter(keep).push(item)
        } else {
            list.filter(keep)
        },
{
    reveal(Seq::filter);
    assert(list.push(item).drop_last() =~= list);
}

/// Of a replica all of whose changes are done nothing is left over.
proof fn lemma_none_left<V>(list: Seq<DeltaView<V>>, done: Seq<bool>, pid: Pid)
    requires
        list.len() == done.len(),
        forall|j: int| 0 <= j < list.len() && (#[trigger] list[j]).dot.pid == pid ==> done[j],
    ensures
        of_pid(left_over(list, done), pid) == Seq::<DeltaView<V>>::empty(),
    decreases list.len(),
{
    let keep = |delta: DeltaView<V>| delta.dot.pid == pid;
    if list.len() == 0 {
        reveal(Seq::filter);
    } else {
        let front = list.drop_last();
        assert forall|j: int| 0 <= j < front.len() && (#[trigger] front[j]).dot.pid
            == pid implies done.drop_last()[j] by {
            assert(list[j].dot.pid == pid);
        }
        lemma_none_left(front, done.drop_last(), pid);
        assert(list[list.len() - 1] == list.last());
        lemma_filter_push(left_over(front, done.drop_last()), keep, list.last());
    }
}

/// What is left over once the first change of a replica is done.
proof fn lemma_one_done<V>(list: Seq<DeltaView<V>>, done: Seq<bool>, i: int)
    requires
        list.len() == done.len(),
        0 <= i < list.len(),
        !done[i],
        is_first(list, done, i),
    ensures
        left_over(list, done).len() == left_over(list, done.update(i, true)).len() + 1,
        forall|p: Pid| #[trigger]
            of_pid(left_over(list, done), p) == if p == list[i].dot.pid {
                seq![list[i]] + of_pid(left_over(list, done.update(i, true)), p)
            } else {
                of_pid(left_over(list, done.update(i, true)), p)
            },
    decreases list.len(),
{
    let after = done.update(i, true);
    let front = list.drop_last();
    let n = front.len() as int;
    let had = left_over(front, done.drop_last());
    let has = left_over(front, after.drop_last());
    if i == n {
        assert(after.drop_last() =~= done.drop_last());
        assert forall|p: Pid| #[trigger] of_pid(left_over(list, done), p) == if p
            == list[i].dot.pid {
            seq![list[i]] + of_pid(left_over(list, after), p)
        } else {
            of_pid(left_over(list, after), p)
        } by {
            lemma_filter_push(had, |delta: DeltaView<V>| delta.dot.pid == p, list[i]);
            if p == list[i].dot.pid {
                assert forall|j: int| 0 <= j < front.len() && (#[trigger] front[j]).dot.pid
                    == p implies done.drop_last()[j] by {
                    assert(list[j].dot.pid == p);
                }
                lemma_none_left(front, done.drop_last(), p);
                assert(Seq::<DeltaView<V>>::empty().push(list[i]) =~= seq![list[i]] + Seq::<
                    DeltaView<V>,
                >::empty());
            }
        }
    } else {
        assert(after.drop_last() =~= done.drop_last().update(i, true));
        assert forall|j: int| 0 <= j < i && (#[trigger] front[j]).dot.pid
            == front[i].dot.pid implies done.drop_last()[j] by {
            assert(list[j].dot.pid == list[i].dot.pid);
        }
        lemma_one_done(front, done.drop_last(), i);
        assert forall|p: Pid| #[trigger] of_pid(left_over(list, done), p) == if p
            == list[i].dot.pid {
            seq![list[i]] + of_pid(left_over(list, after), p)
        } else {
            of_pid(left_over(list, after), p)
        } by {
            let keep = |delta: DeltaView<V>| delta.dot.pid == p;
            lemma_filter_push(had, keep, list.last());
            lemma_filter_push(has, keep, list.last());
            assert(of_pid(had, p) == if p == list[i].dot.pid {
                seq![list[i]] + of_pid(has, p)
            } else {
                of_pid(has, p)
            });
            assert((seq![list[i]] + of_pid(has, p)).push(list.last()) =~= seq![list[i]] + of_pid(
                has,
                p,
            ).push(list.last()));
        }
    }
}

/// Everything is left over at first, and nothing in the end.
proof fn lemma_left_over_ends<V>(list: Seq<DeltaView<V>>, done: Seq<bool>)
    requires
        list.len() == done.len(),
    ensures
        (forall|i: int| 0 <= i < done.len() ==> !#[trigger] done[i]) ==> left_over(list, done)
            == list,
        left_over(list, done).len() > 0 <==> exists|i: int| 0 <= i < done.len()
            && !#[trigger] done[i],
    decreases list.len(),
{
    if list.len() > 0 {
        let rest = done.drop_last();
        lemma_left_over_ends(list.drop_last(), rest);
        let n = rest.len() as int;
        assert(done[n] == done.last());
        assert forall|i: int| 0 <= i < n implies rest[i] == #[trigger] done[i] by {}
        if forall|i: int| 0 <= i < done.len() ==> !#[trigger] done[i] {
            assert forall|i: int| 0 <= i < rest.len() implies !#[trigger] rest[i] by {
                assert(!done[i]);
            }
            assert(list.drop_last().push(list.last()) =~= list);
        }
        if exists|i: int| 0 <= i < done.len() && !#[trigger] done[i] {
            let i = choose|i: int| 0 <= i < done.len() && !#[trigger] done[i];
            if i < n {
                assert(!rest[i]);
            }
        }
        if exists|i: int| 0 <= i < rest.len() && !#[trigger] rest[i] {
            let i = choose|i: int| 0 <= i < rest.len() && !#[trigger] rest[i];
            assert(!done[i]);
        }
    }
}

/// Where an item of a list is after filtering.
pub proof fn lemma_filter_at<A>(list: Seq<A>, keep: spec_fn(A) -> bool, i: int)
    requires
        0 <= i < list.len(),
        keep(list[i]),
    ensures
        list.take(i).filter(keep).len() < list.filter(keep).len(),
        list.filter(keep)[list.take(i).filter(keep).len() as int] == list[i],
        list.take(i).filter(keep) == list.filter(keep).take(
            list.take(i).filter(keep).len() as int,
        ),
{
    let front = list.take(i);
    let rest = list.skip(i + 1);
    lemma_filter_next(list, keep, i);
    assert(list =~= list.take(i + 1) + rest);
    Seq::filter_distributes_over_add(list.take(i + 1), rest, keep);
    let kept = front.filter(keep);
    assert(list.filter(keep) == kept.push(list[i]) + rest.filter(keep));
    assert(list.filter(keep).take(kept.len() as int) =~= kept);
}

/// A list without duplicates stays so when it is filtered, and a list whose
/// runs have none has none itself.
pub proof fn lemma_distinct_runs<V>(list: Seq<DeltaView<V>>)
    ensures
        distinct(list) <==> forall|p: Pid| distinct(#[trigger] of_pid(list, p)),
{
    if distinct(list) {
        assert forall|p: Pid| distinct(#[trigger] of_pid(list, p)) by {
            lemma_distinct_filter(list, |delta: DeltaView<V>| delta.dot.pid == p);
        }
    }
    if forall|p: Pid| distinct(#[trigger] of_pid(list, p)) {
        assert forall|i: int, j: int| 0 <= i < list.len() && 0 <= j < list.len() && i != j implies (
        #[trigger] list[i]).dot != (#[trigger] list[j]).dot by {
            if list[i].dot == list[j].dot {
                let (a, b) = if i < j {
                    (i, j)
                } else {
                    (j, i)
                };
                let p = list[a].dot.pid;
                let keep = |delta: DeltaView<V>| delta.dot.pid == p;
                lemma_filter_at(list, keep, a);
                lemma_filter_at(list, keep, b);
                lemma_filter_at(list.take(b), keep, a);
                assert(list.take(b).take(a) =~= list.take(a));
                assert(distinct(of_pid(list, p)));
            }
        }
    }
}

/// A list without duplicates has none after filtering.
pub(super) proof fn lemma_distinct_filter<V>(
    list: Seq<DeltaView<V>>,
    keep: spec_fn(DeltaView<V>) -> bool,
)
    requires
        distinct(list),
    ensures
        distinct(list.filter(keep)),
    decreases list.len(),
{
    reveal(Seq::filter);
    if list.len() > 0 {
        let front = list.drop_last();
        assert(distinct(front)) by {
            assert forall|i: int, j: int|
                0 <= i < front.len() && 0 <= j < front.len() && i != j implies (
            #[trigger] front[i]).dot != (#[trigger] front[j]).dot by {
                assert(list[i].dot != list[j].dot);
            }
        }
        lemma_distinct_filter(front, keep);
        let kept = front.filter(keep);
        if keep(list.last()) {
            assert forall|i: int| 0 <= i < kept.len() implies (#[trigger] kept[i]).dot
                != list.last().dot by {
                lemma_filter_holds(front, keep, kept[i]);
                assert(kept.contains(kept[i]));
                let k = choose|k: int| 0 <= k < front.len() && front[k] == kept[i];
                assert(list[k].dot != list[list.len() - 1].dot);
            }
        }
    }
}

/// Lists with the same runs hold the same changes.
pub proof fn lemma_same_runs_hold<V>(
    one: Seq<DeltaView<V>>,
    other: Seq<DeltaView<V>>,
    delta: DeltaView<V>,
)
    requires
        same_runs(one, other),
    ensures
        one.contains(delta) <==> other.contains(delta),
{
    let keep = |d: DeltaView<V>| d.dot.pid == delta.dot.pid;
    assert(of_pid(one, delta.dot.pid) == of_pid(other, delta.dot.pid));
    lemma_filter_holds(one, keep, delta);
    lemma_filter_holds(other, keep, delta);
}

/// As long as changes are left over that can be put in order, one of them can
/// be done next.
proof fn lemma_some_is_next<V>(
    list: Seq<DeltaView<V>>,
    other: Seq<DeltaView<V>>,
    done: Seq<bool>,
    left: int,
) -> (next: int)
    requires
        list.len() == done.len(),
        distinct(list),
        same_runs(other, list),
        in_order(other),
        0 <= left < list.len(),
        !done[left],
    ensures
        0 <= next < list.len(),
        !done[next],
        is_first(list, done, next),
        is_free(list, done, next),
{
    lemma_same_runs_hold(other, list, list[left]);
    assert(list.contains(list[left]));
    let k = choose|k: int| 0 <= k < other.len() && other[k] == list[left];
    let first = lemma_least_left(list, other, done, k, left);
    let k = first.0;
    let next = first.1;
    let x = list[next];
    let p = x.dot.pid;
    let keep = |d: DeltaView<V>| d.dot.pid == p;
    assert forall|j: int| 0 <= j < next && (#[trigger] list[j]).dot.pid
        == list[next].dot.pid implies done[j] by {
        assert(of_pid(other, p) == of_pid(list, p));
        lemma_filter_at(list, keep, next);
        lemma_filter_at(other, keep, k);
        lemma_distinct_runs(list);
        assert(distinct(of_pid(list, p)));
        let a = list.take(next).filter(keep).len() as int;
        let b = other.take(k).filter(keep).len() as int;
        assert(of_pid(list, p)[a].dot == of_pid(list, p)[b].dot);
        assert(a == b);
        assert(list.take(next)[j] == list[j]);
        assert(list.take(next).contains(list[j]));
        lemma_filter_holds(list.take(next), keep, list[j]);
        lemma_filter_holds(other.take(k), keep, list[j]);
        let m = choose|m: int| 0 <= m < other.take(k).len() && other.take(k)[m] == list[j];
        assert(other[m] == list[j]);
    }
    assert forall|j: int| 0 <= j < list.len() && !done[j] implies !#[trigger] names(
        list[next].change,
        list[j].dot,
    ) by {
        if names(list[next].change, list[j].dot) {
            assert(list.contains(list[j]));
            lemma_same_runs_hold(other, list, list[j]);
            let m = choose|m: int| 0 <= m < other.len() && other[m] == list[j];
            assert(names(other[k].change, other[m].dot));
            assert(m < k);
        }
    }
    next
}

/// The first change of an order that is left over.
proof fn lemma_least_left<V>(
    list: Seq<DeltaView<V>>,
    other: Seq<DeltaView<V>>,
    done: Seq<bool>,
    k: int,
    left: int,
) -> (first: (int, int))
    requires
        list.len() == done.len(),
        0 <= k < other.len(),
        0 <= left < list.len(),
        other[k] == list[left],
        !done[left],
    ensures
        0 <= first.0 < other.len(),
        0 <= first.1 < list.len(),
        other[first.0] == list[first.1],
        !done[first.1],
        forall|m: int, j: int|
            0 <= m < first.0 && 0 <= j < list.len() && #[trigger] other[m] == #[trigger] list[j]
                ==> done[j],
    decreases k,
{
    if exists|m: int, j: int|
        0 <= m < k && 0 <= j < list.len() && #[trigger] other[m] == #[trigger] list[j] && !done[j] {
        let (m, j) = choose|m: int, j: int|
            0 <= m < k && 0 <= j < list.len() && #[trigger] other[m] == #[trigger] list[j]
                && !done[j];
        lemma_least_left(list, other, done, m, j)
    } else {
        (k, left)
    }
}

/// Whether `index` tells for each dot where the change with that dot is.
spec fn finds<V>(
    index: Map<(Pid, Counter), usize>,
    list: Seq<DeltaView<V>>,
    upto: int,
) -> bool {
    &&& forall|key: (Pid, Counter)| #[trigger]
        index.contains_key(key) ==> index[key] < upto && list[index[key] as int].dot == Dot {
            pid: key.0,
            counter: key.1,
        }
    &&& distinct(list) ==> forall|j: int|
        0 <= j < upto ==> #[trigger] index.contains_key((list[j].dot.pid, list[j].dot.counter))
            && index[(list[j].dot.pid, list[j].dot.counter)] == j
}

/// Where the change with each dot is.
fn indexed<T: Element>(found: &Vec<&(Dot, OrSetDelta<T>)>) -> (index: SortedMap<
    (Pid, Counter),
    usize,
>)
    ensures
        index.wf(),
        finds(index@, items_view(found@.unref()), found@.len() as int),
{
    let mut index: SortedMap<(Pid, Counter), usize> = SortedMap::new();
    let ghost list = items_view(found@.unref());
    for i in 0..found.len()
        invariant
            index.wf(),
            list == items_view(found@.unref()),
            finds(index@, list, i as int),
    {
        let delta = &found[i].1;
        assert(list[i as int] == delta@);
        let ghost before = index@;
        let key: (Pid, Counter) = (delta.dot.pid, delta.dot.counter);
        index.insert(key, i);
        proof {
            assert(key@ == key);
            assert(index@ == before.insert(key, i));
            if distinct(list) {
                assert forall|j: int| 0 <= j < i + 1 implies #[trigger] index@.contains_key(
                    (list[j].dot.pid, list[j].dot.counter),
                ) && index@[(list[j].dot.pid, list[j].dot.counter)] == j by {
                    if j < i {
                        assert(list[j].dot != list[i as int].dot);
                        assert(before.contains_key((list[j].dot.pid, list[j].dot.counter)));
                    }
                }
            }
        }
    }
    index
}

/// Whether a change names the dot of one that is not done.
fn waits<T: Element>(
    change: &OrSetChange<T>,
    index: &SortedMap<(Pid, Counter), usize>,
    done: &Vec<bool>,
    Ghost(list): Ghost<Seq<DeltaView<T::V>>>,
) -> (waiting: bool)
    requires
        index.wf(),
        finds(index@, list, list.len() as int),
        list.len() == done@.len(),
    ensures
        distinct(list) ==> waiting == exists|j: int|
            0 <= j < list.len() && !done@[j] && #[trigger] names(change@, list[j].dot),
{
    match change {
        OrSetChange::Insert { .. } => false,
        OrSetChange::Remove { removed_dots, .. } => {
            for i in 0..removed_dots.len()
                invariant
                    index.wf(),
                    finds(index@, list, list.len() as int),
                    list.len() == done@.len(),
                    change matches OrSetChange::Remove { removed_dots: r, .. } && r == removed_dots,
                    distinct(list) ==> forall|k: int, j: int|
                        0 <= k < i && 0 <= j < list.len() && !done@[j]
                            ==> #[trigger] removed_dots@[k] != (#[trigger] list[j]).dot,
            {
                let dot: Dot = removed_dots[i];
                let key: (Pid, Counter) = (dot.pid, dot.counter);
                assert(key@ == key);
                if let Some(at) = index.get(&key) {
                    let at: usize = *at;
                    if !done[at] {
                        assert(removed_dots@.contains(dot));
                        assert(names(change@, list[at as int].dot));
                        return true;
                    }
                }
            }
            proof {
                if distinct(list) {
                    assert forall|j: int| 0 <= j < list.len() && !done@[j] implies !#[trigger] names(
                        change@,
                        list[j].dot,
                    ) by {
                        if names(change@, list[j].dot) {
                            let k = choose|k: int|
                                0 <= k < removed_dots@.len() && removed_dots@[k] == list[j].dot;
                            assert(removed_dots@[k] != list[j].dot);
                        }
                    }
                }
            }
            false
        },
    }
}

/// What holds after some of the changes are done: `out` lists them, what each
/// replica has left comes after what it has done, and, unless an order was
/// forced, none that is done refers to one that is not.
spec fn is_under_way<V>(
    list: Seq<DeltaView<V>>,
    done: Seq<bool>,
    out: Seq<DeltaView<V>>,
) -> bool {
    &&& list.len() == done.len()
    &&& out.len() + left_over(list, done).len() == list.len()
    &&& forall|p: Pid| #[trigger]
        of_pid(out, p) + of_pid(left_over(list, done), p) == of_pid(list, p)
    &&& orderable(list) ==> in_order(out) && forall|m: int, j: int|
        0 <= m < out.len() && 0 <= j < list.len() && !done[j] ==> !#[trigger] names(
            out[m].change,
            list[j].dot,
        )
}

/// One more change is done.
proof fn lemma_goes_on<V>(
    list: Seq<DeltaView<V>>,
    done: Seq<bool>,
    out: Seq<DeltaView<V>>,
    i: int,
)
    requires
        is_under_way(list, done, out),
        0 <= i < list.len(),
        !done[i],
        is_first(list, done, i),
        orderable(list) ==> is_free(list, done, i),
    ensures
        is_under_way(list, done.update(i, true), out.push(list[i])),
{
    let after = done.update(i, true);
    let more = out.push(list[i]);
    lemma_one_done(list, done, i);
    assert forall|p: Pid| #[trigger] of_pid(more, p) + of_pid(left_over(list, after), p) == of_pid(
        list,
        p,
    ) by {
        lemma_filter_push(out, |delta: DeltaView<V>| delta.dot.pid == p, list[i]);
        assert(of_pid(out, p) + of_pid(left_over(list, done), p) == of_pid(list, p));
        let rest = of_pid(left_over(list, after), p);
        assert(of_pid(out, p) + (seq![list[i]] + rest) =~= of_pid(out, p).push(list[i]) + rest);
    }
    if orderable(list) {
        assert forall|a: int, b: int|
            0 <= a < more.len() && 0 <= b < more.len() && #[trigger] names(
                more[b].change,
                more[a].dot,
            ) implies a < b by {
            if b == out.len() {
                assert(more[b] == list[i]);
                if a == b {
                    assert(names(list[i].change, list[i].dot));
                }
            } else {
                assert(more[b] == out[b]);
                if a == out.len() {
                    assert(names(out[b].change, list[i].dot));
                } else {
                    assert(more[a] == out[a]);
                    assert(names(out[b].change, out[a].dot));
                }
            }
        }
        assert forall|m: int, j: int|
            0 <= m < more.len() && 0 <= j < list.len() && !after[j] implies !#[trigger] names(
            more[m].change,
            list[j].dot,
        ) by {
            assert(!done[j]);
            if m == out.len() {
                assert(!names(list[i].change, list[j].dot));
            } else {
                assert(!names(out[m].change, list[j].dot));
            }
        }
    }
}

/// The first entry that is false.
fn first_left(done: &Vec<bool>) -> (at: usize)
    requires
        exists|i: int| 0 <= i < done@.len() && !#[trigger] done@[i],
    ensures
        at < done@.len(),
        !done@[at as int],
        forall|i: int| 0 <= i < at ==> #[trigger] done@[i],
{
    let mut at: usize = 0;
    while done[at]
        invariant
            at < done@.len(),
            forall|i: int| 0 <= i < at ==> #[trigger] done@[i],
            exists|i: int| 0 <= i < done@.len() && !#[trigger] done@[i],
        decreases done@.len() - at,
    {
        assert(at < done.len());
        at = at + 1;
    }
    at
}

/// The changes in an order that keeps those of each replica in theirs and in
/// which none comes before one that it names, if there is such an order.
pub(super) fn causally_ordered<T: Element>(found: &Vec<&(Dot, OrSetDelta<T>)>) -> (list: Vec<
    OrSetDelta<T>,
>)
    ensures
        same_runs(deltas_view(list@), items_view(found@.unref())),
        orderable(items_view(found@.unref())) ==> in_order(deltas_view(list@)),
{
    let ghost items = items_view(found@.unref());
    let index = indexed(found);
    let mut done: Vec<bool> = Vec::new();
    for i in 0..found.len()
        invariant
            done@.len() == i,
            forall|j: int| 0 <= j < i ==> !#[trigger] done@[j],
    {
        done.push(false);
    }
    let mut list: Vec<OrSetDelta<T>> = Vec::new();
    proof {
        lemma_left_over_ends(items, done@);
        assert(deltas_view(list@) =~= Seq::empty());
        assert forall|p: Pid| #[trigger] of_pid(deltas_view(list@), p) + of_pid(
            left_over(items, done@),
            p,
        ) == of_pid(items, p) by {
            reveal(Seq::filter);
            assert(Seq::<DeltaView<T::V>>::empty() + of_pid(items, p) =~= of_pid(items, p));
        }
    }
    while list.len() < found.len()
        invariant
            items == items_view(found@.unref()),
            index.wf(),
            finds(index@, items, items.len() as int),
            is_under_way(items, done@, deltas_view(list@)),
        decreases found@.len() - list@.len(),
    {
        let ghost start = done@;
        let sent: usize = list.len();
        let mut blocked: HashSet<Pid> = HashSet::new();
        for i in 0..found.len()
            invariant
                items == items_view(found@.unref()),
                index.wf(),
                finds(index@, items, items.len() as int),
                is_under_way(items, done@, deltas_view(list@)),
                sent <= list@.len() <= found@.len(),
                forall|j: int| 0 <= j < i && !(#[trigger] done@[j]) ==> blocked@.contains(
                    items[j].dot.pid,
                ),
                forall|p: Pid| #[trigger]
                    blocked@.contains(p) ==> exists|j: int|
                        0 <= j < i && !done@[j] && (#[trigger] items[j]).dot.pid == p,
                list@.len() == sent ==> done@ == start,
                list@.len() == sent && orderable(items) ==> forall|j: int|
                    0 <= j < i && !(#[trigger] done@[j]) ==> !(is_first(items, done@, j) && is_free(
                        items,
                        done@,
                        j,
                    )),
        {
            if !done[i] {
                let delta = &found[i].1;
                assert(items[i as int] == delta@);
                let is_blocked: bool = blocked.contains(&delta.dot.pid);
                let waiting: bool = waits(&delta.change, &index, &done, Ghost(items));
                if is_blocked || waiting {
                    proof {
                        if is_blocked {
                            let j = choose|j: int|
                                0 <= j < i && !done@[j] && (#[trigger] items[j]).dot.pid
                                    == items[i as int].dot.pid;
                            assert(!is_first(items, done@, i as int));
                        }
                    }
                    let ghost before = blocked@;
                    blocked.insert(delta.dot.pid);
                    proof {
                        assert forall|p: Pid| #[trigger] blocked@.contains(p) implies exists|j: int|
                            0 <= j < i + 1 && !done@[j] && (#[trigger] items[j]).dot.pid == p by {
                            if before.contains(p) {
                                let j = choose|j: int|
                                    0 <= j < i && !done@[j] && (#[trigger] items[j]).dot.pid == p;
                                assert(0 <= j < i + 1);
                            } else {
                                assert(items[i as int].dot.pid == p);
                            }
                        }
                    }
                } else {
                    let copy = delta.duplicate();
                    proof {
                        assert(is_first(items, done@, i as int));
                        lemma_goes_on(items, done@, deltas_view(list@), i as int);
                        assert(deltas_view(list@.push(copy)) =~= deltas_view(list@).push(copy@));
                    }
                    let ghost before = done@;
                    done.set(i, true);
                    list.push(copy);
                    proof {
                        assert(done@ == before.update(i as int, true));
                        assert forall|p: Pid| #[trigger] blocked@.contains(p) implies exists|j: int|
                            0 <= j < i + 1 && !done@[j] && (#[trigger] items[j]).dot.pid == p by {
                            let j = choose|j: int|
                                0 <= j < i && !before[j] && (#[trigger] items[j]).dot.pid == p;
                            assert(!done@[j]);
                        }
                    }
                }
            }
        }
        if list.len() == sent {
            proof {
                lemma_left_over_ends(items, done@);
            }
            let at: usize = first_left(&done);
            let copy = found[at].1.duplicate();
            proof {
                assert(items[at as int] == copy@);
                if orderable(items) {
                    let other = choose|other: Seq<DeltaView<T::V>>| #[trigger]
                        same_runs(other, items) && in_order(other);
                    let next = lemma_some_is_next(items, other, done@, at as int);
                    assert(!done@[next]);
                }
                lemma_goes_on(items, done@, deltas_view(list@), at as int);
                assert(deltas_view(list@.push(copy)) =~= deltas_view(list@).push(copy@));
            }
            done.set(at, true);
            list.push(copy);
        }
    }
    proof {
        lemma_left_over_ends(items, done@);
        assert forall|p: Pid| #[trigger] of_pid(deltas_view(list@), p) == of_pid(items, p) by {
            reveal(Seq::filter);
            assert(left_over(items, done@) =~= Seq::empty());
            assert(of_pid(deltas_view(list@), p) + of_pid(left_over(items, done@), p) == of_pid(
                items,
                p,
            ));
            assert(of_pid(deltas_view(list@), p) + Seq::<DeltaView<T::V>>::empty() =~= of_pid(
                deltas_view(list@),
                p,
            ));
        }
    }
    list
}

/// What a log lacks of one origin is what it lacks of all, picked by origin.
proof fn lemma_lacking_of_pid<V>(
    state: ORSetView<V>,
    vector: Map<Pid, Counter>,
    pids: Seq<Pid>,
    pid: Pid,
)
    requires
        ascending(pids),
        forall|i: int| 0 <= i < pids.len() ==> state.log.contains_key(#[trigger] pids[i]),
        forall|p: Pid, i: int|
            state.log.contains_key(p) && 0 <= i < state.log[p].len()
                ==> (#[trigger] state.log[p][i]).dot.pid == p,
    ensures
        of_pid(state.lacking(vector, pids), pid) == if pids.contains(pid) {
            ORSetView::lacking_of(state.log_of(pid), vector)
        } else {
            Seq::empty()
        },
    decreases pids.len(),
{
    let keep = |delta: DeltaView<V>| delta.dot.pid == pid;
    if pids.len() == 0 {
        reveal(Seq::filter);
    } else {
        let front = pids.drop_last();
        let last = pids.last();
        assert forall|i: int| 0 <= i < front.len() implies state.log.contains_key(
            #[trigger] front[i],
        ) by {
            assert(front[i] == pids[i]);
        }
        lemma_lacking_of_pid(state, vector, front, pid);
        assert(pids[pids.len() - 1] == last);
        let before = state.lacking(vector, front);
        let run = ORSetView::lacking_of(state.log[last], vector);
        Seq::filter_distributes_over_add(before, run, keep);
        assert forall|i: int| 0 <= i < run.len() implies (#[trigger] run[i]).dot.pid == last by {
            lemma_filter_holds(
                state.log[last],
                |delta: DeltaView<V>| !covers(vector, delta.dot),
                run[i],
            );
            assert(run.contains(run[i]));
        }
        assert(pids.contains(pid) <==> front.contains(pid) || pid == last) by {
            assert(pids =~= front.push(last));
            if front.contains(pid) {
                let i = choose|i: int| 0 <= i < front.len() && front[i] == pid;
                assert(pids[i] == pid);
            }
            if pids.contains(pid) && pid != last {
                let i = choose|i: int| 0 <= i < pids.len() && pids[i] == pid;
                assert(front[i] == pid);
            }
        }
        if pid == last {
            if front.contains(pid) {
                let i = choose|i: int| 0 <= i < front.len() && front[i] == pid;
                assert(pids[i] < pids[pids.len() - 1]);
            }
            lemma_filter_all(run, keep);
            assert(Seq::<DeltaView<V>>::empty() + run =~= run);
        } else {
            lemma_filter_none(run, keep);
            assert(of_pid(before, pid) + Seq::<DeltaView<V>>::empty() =~= of_pid(before, pid));
        }
    }
}

/// A list in the order that was found answers a pull.
pub(super) proof fn lemma_ordered_is_group<V>(
    state: ORSetView<V>,
    vector: Map<Pid, Counter>,
    pids: Seq<Pid>,
    list: Seq<DeltaView<V>>,
)
    requires
        state.logs(pids),
        forall|p: Pid, i: int|
            state.log.contains_key(p) && 0 <= i < state.log[p].len()
                ==> (#[trigger] state.log[p][i]).dot.pid == p,
        same_runs(list, state.lacking(vector, pids)),
        orderable(state.lacking(vector, pids)) ==> in_order(list),
    ensures
        is_group(state, vector, list),
{
    let found = state.lacking(vector, pids);
    assert forall|i: int| 0 <= i < pids.len() implies state.log.contains_key(#[trigger] pids[i]) by {
        assert(pids.contains(pids[i]));
    }
    assert forall|p: Pid| #[trigger] of_pid(list, p) == ORSetView::lacking_of(
        state.log_of(p),
        vector,
    ) by {
        lemma_lacking_of_pid(state, vector, pids, p);
        assert(of_pid(list, p) == of_pid(found, p));
        if !pids.contains(p) {
            reveal(Seq::filter);
            assert(!state.log.contains_key(p));
        }
    }
    if orderable(list) {
        lemma_distinct_runs(list);
        lemma_distinct_runs(found);
        assert forall|p: Pid| distinct(#[trigger] of_pid(found, p)) by {
            assert(of_pid(list, p) == of_pid(found, p));
        }
        let other = choose|other: Seq<DeltaView<V>>| #[trigger]
            same_runs(other, list) && in_order(other);
        assert(same_runs(other, found)) by {
            assert forall|p: Pid| #[trigger] of_pid(other, p) == of_pid(found, p) by {
                assert(of_pid(list, p) == of_pid(found, p));
            }
        }
    }
}

} // verus!
