//! A log of values, each under the dot that it was issued with.

use std::collections::HashMap;
use vstd::prelude::*;
use crate::dots::{ascending, ascending_keys, covers, lemma_take_next, Counter, Dot, DotSet};
use crate::prelude::Pid;

verus! {

broadcast use vstd::std_specs::hash::group_hash_axioms;

/// Values by the replica that issued them, each with its dot, in the order in
/// which they were inserted.
#[derive(Debug, Clone)]
pub struct DotMap<T> {
    map: HashMap<Pid, Vec<(Dot, T)>>,
}

impl<T> View for DotMap<T> {
    type V = Map<Pid, Seq<(Dot, T)>>;

    closed spec fn view(&self) -> Map<Pid, Seq<(Dot, T)>> {
        self.map@.map_values(|list: Vec<(Dot, T)>| list@)
    }
}

/// The values of one replica.
pub open spec fn list_of<T>(log: Map<Pid, Seq<(Dot, T)>>, pid: Pid) -> Seq<(Dot, T)> {
    if log.contains_key(pid) {
        log[pid]
    } else {
        Seq::empty()
    }
}

/// The number of values in a log.
pub open spec fn total<T>(log: Map<Pid, Seq<(Dot, T)>>) -> nat
    decreases log.dom().len(),
{
    if log.dom().finite() && log.dom().len() > 0 {
        let pid = log.dom().choose();
        log[pid].len() + total(log.remove(pid))
    } else {
        0
    }
}

/// The values of a list whose dots `vector` does not cover.
pub open spec fn uncovered_of<T>(
    list: Seq<(Dot, T)>,
    vector: Map<Pid, Counter>,
) -> Seq<(Dot, T)> {
    list.filter(|item: (Dot, T)| !covers(vector, item.0))
}

/// The values whose dots `vector` does not cover, one replica of `pids` after
/// the other.
pub open spec fn uncovered<T>(
    log: Map<Pid, Seq<(Dot, T)>>,
    vector: Map<Pid, Counter>,
    pids: Seq<Pid>,
) -> Seq<(Dot, T)>
    decreases pids.len(),
{
    if pids.len() == 0 {
        Seq::empty()
    } else {
        uncovered(log, vector, pids.drop_last()) + uncovered_of(log[pids.last()], vector)
    }
}

/// Whether `pids` lists the replicas of a log in ascending order.
pub open spec fn enumerates<T>(pids: Seq<Pid>, log: Map<Pid, Seq<(Dot, T)>>) -> bool {
    &&& ascending(pids)
    &&& forall|p: Pid| #[trigger] pids.contains(p) <==> log.contains_key(p)
}

/// Whether `keep` is what the executable predicate `f` computes.
pub open spec fn describes<T, F: Fn(&Dot, &T) -> bool>(
    f: F,
    keep: spec_fn((Dot, T)) -> bool,
) -> bool {
    forall|dot: Dot, value: T, kept: bool|
        #[trigger] call_ensures(f, (&dot, &value), kept) ==> kept == keep((dot, value))
}

/// Whether the executable predicate `f` gives these answers for the items of a
/// list, one each.
pub open spec fn answered<T, F: Fn(&Dot, &T) -> bool>(
    f: F,
    list: Seq<(Dot, T)>,
    answers: Seq<bool>,
) -> bool {
    &&& answers.len() == list.len()
    &&& forall|i: int|
        0 <= i < list.len() ==> call_ensures(f, (&list[i].0, &list[i].1), #[trigger] answers[i])
}

/// The items that were answered with yes, in their order.
pub open spec fn chosen<T>(list: Seq<(Dot, T)>, answers: Seq<bool>) -> Seq<(Dot, T)>
    decreases list.len(),
{
    if list.len() == 0 {
        Seq::empty()
    } else {
        let front = chosen(list.drop_last(), answers.drop_last());
        if answers.last() {
            front.push(list.last())
        } else {
            front
        }
    }
}

/// Whether `f` gives these answers for the items of each replica.
pub open spec fn all_answered<T, F: Fn(&Dot, &T) -> bool>(
    f: F,
    log: Map<Pid, Seq<(Dot, T)>>,
    answers: Map<Pid, Seq<bool>>,
) -> bool {
    forall|p: Pid| #[trigger] log.contains_key(p) ==> answered(f, log[p], answers[p])
}

/// A log with the values that were answered with yes, and without the replicas
/// of which nothing is left.
pub open spec fn all_chosen<T>(
    log: Map<Pid, Seq<(Dot, T)>>,
    answers: Map<Pid, Seq<bool>>,
) -> Map<Pid, Seq<(Dot, T)>> {
    Map::new(
        |p: Pid| log.contains_key(p) && chosen(log[p], answers[p]).len() > 0,
        |p: Pid| chosen(log[p], answers[p]),
    )
}

/// Whether the values of a replica are chosen by these answers.
spec fn settled<T, F: Fn(&Dot, &T) -> bool>(
    f: F,
    before: Map<Pid, Seq<(Dot, T)>>,
    after: Map<Pid, Seq<(Dot, T)>>,
    answers: Map<Pid, Seq<bool>>,
    pid: Pid,
) -> bool {
    let left = chosen(before[pid], answers[pid]);
    &&& answered(f, before[pid], answers[pid])
    &&& after.contains_key(pid) <==> left.len() > 0
    &&& after.contains_key(pid) ==> after[pid] == left
}

/// Where a spec predicate describes the executable one, its answers choose as
/// a filter does.
proof fn lemma_chosen_is_filter<T, F: Fn(&Dot, &T) -> bool>(
    f: F,
    keep: spec_fn((Dot, T)) -> bool,
    list: Seq<(Dot, T)>,
    answers: Seq<bool>,
)
    requires
        describes(f, keep),
        answered(f, list, answers),
    ensures
        chosen(list, answers) == list.filter(keep),
    decreases list.len(),
{
    reveal(Seq::filter);
    if list.len() > 0 {
        let front = list.drop_last();
        let rest = answers.drop_last();
        let n = front.len() as int;
        assert forall|i: int| 0 <= i < front.len() implies call_ensures(
            f,
            (&front[i].0, &front[i].1),
            #[trigger] rest[i],
        ) by {
            assert(call_ensures(f, (&list[i].0, &list[i].1), answers[i]));
        }
        lemma_chosen_is_filter(f, keep, front, rest);
        assert(call_ensures(f, (&list[n].0, &list[n].1), answers[n]));
    }
}

/// A log without the values that `keep` turns down, and without the replicas
/// of which nothing is left.
pub open spec fn retained<T>(
    log: Map<Pid, Seq<(Dot, T)>>,
    keep: spec_fn((Dot, T)) -> bool,
) -> Map<Pid, Seq<(Dot, T)>> {
    Map::new(
        |p: Pid| log.contains_key(p) && log[p].filter(keep).len() > 0,
        |p: Pid| log[p].filter(keep),
    )
}

/// The number of values, counted with any one replica first.
pub(super) proof fn lemma_total_with<T>(log: Map<Pid, Seq<(Dot, T)>>, pid: Pid)
    requires
        log.dom().finite(),
        log.contains_key(pid),
    ensures
        total(log) == log[pid].len() + total(log.remove(pid)),
    decreases log.dom().len(),
{
    let first = log.dom().choose();
    assert(log.dom().contains(pid));
    assert(log.dom().len() > 0) by {
        if log.dom().len() == 0 {
            log.dom().lemma_len0_is_empty();
        }
    }
    if first != pid {
        let rest = log.remove(first);
        assert(log.dom().contains(first));
        assert(rest.dom() =~= log.dom().remove(first));
        lemma_total_with(rest, pid);
        let others = log.remove(pid);
        assert(others.dom() =~= log.dom().remove(pid));
        lemma_total_with(others, first);
        assert(rest.remove(pid) =~= others.remove(first));
    }
}

/// A prefix, filtered, one element further.
pub proof fn lemma_filter_next<A>(list: Seq<A>, keep: spec_fn(A) -> bool, i: int)
    requires
        0 <= i < list.len(),
    ensures
        list.take(i + 1).filter(keep) == if keep(list[i]) {
            list.take(i).filter(keep).push(list[i])
        } else {
            list.take(i).filter(keep)
        },
{
    reveal(Seq::filter);
    assert(list.take(i + 1).drop_last() =~= list.take(i));
    assert(list.take(i + 1).last() == list[i]);
}

/// What a filtered list holds.
pub proof fn lemma_filter_holds<A>(list: Seq<A>, keep: spec_fn(A) -> bool, item: A)
    ensures
        list.filter(keep).contains(item) <==> list.contains(item) && keep(item),
    decreases list.len(),
{
    reveal(Seq::filter);
    if list.len() > 0 {
        let front = list.drop_last();
        let last = list.last();
        lemma_filter_holds(front, keep, item);
        assert(list =~= front.push(last));
        let kept = front.filter(keep);
        if front.contains(item) {
            let i = choose|i: int| 0 <= i < front.len() && front[i] == item;
            assert(list[i] == item);
        }
        if list.contains(item) && item != last {
            let i = choose|i: int| 0 <= i < list.len() && list[i] == item;
            assert(front[i] == item);
        }
        assert(list[list.len() - 1] == last);
        if keep(last) {
            assert(kept.push(last)[kept.len() as int] == last);
            if kept.contains(item) {
                let i = choose|i: int| 0 <= i < kept.len() && kept[i] == item;
                assert(kept.push(last)[i] == item);
            }
            if kept.push(last).contains(item) && item != last {
                let i = choose|i: int| 0 <= i < kept.push(last).len() && kept.push(last)[i] == item;
                assert(kept[i] == item);
            }
        }
    }
}

impl<T> DotMap<T> {
    /// The empty log.
    pub fn new() -> (log: Self)
        ensures
            log@ == Map::<Pid, Seq<(Dot, T)>>::empty(),
    {
        let log = DotMap { map: HashMap::new() };
        assert(log@ =~= Map::<Pid, Seq<(Dot, T)>>::empty());
        log
    }

    /// Whether no replica has a value here.
    pub fn is_empty(&self) -> (empty: bool)
        ensures
            empty == (self@ == Map::<Pid, Seq<(Dot, T)>>::empty()),
    {
        proof {
            if self.map@.is_empty() {
                assert(self.map@.dom() =~= Set::empty());
                assert(self@ =~= Map::<Pid, Seq<(Dot, T)>>::empty());
            } else if self@ == Map::<Pid, Seq<(Dot, T)>>::empty() {
                assert(self.map@.dom() =~= self@.dom());
            }
        }
        self.map.is_empty()
    }

    /// The number of values, as far as a `usize` can hold it.
    pub fn len(&self) -> (count: usize)
        ensures
            count == if total(self@) <= usize::MAX {
                total(self@)
            } else {
                usize::MAX as nat
            },
    {
        let pids = ascending_keys(&self.map);
        let ghost mut rest = self@;
        let mut count: usize = 0;
        proof {
            assert(pids@.skip(0) =~= pids@);
            assert(self@.dom() =~= self.map@.dom());
        }
        for i in 0..pids.len()
            invariant
                ascending(pids@),
                forall|p: Pid| #[trigger] pids@.contains(p) <==> self@.contains_key(p),
                rest.dom().finite(),
                forall|p: Pid| #[trigger]
                    rest.contains_key(p) <==> self@.contains_key(p) && !pids@.take(
                        i as int,
                    ).contains(p),
                forall|p: Pid| #[trigger] rest.contains_key(p) ==> rest[p] == self@[p],
                count == if total(self@) - total(rest) <= usize::MAX {
                    total(self@) - total(rest)
                } else {
                    usize::MAX as int
                },
                total(rest) <= total(self@),
        {
            let pid: Pid = pids[i];
            assert(pids@.contains(pid));
            proof {
                assert(!pids@.take(i as int).contains(pid));
                lemma_total_with(rest, pid);
                lemma_take_next(pids@, i as int);
                rest = rest.remove(pid);
            }
            if let Some(list) = self.map.get(&pid) {
                count = count.saturating_add(list.len());
            }
        }
        proof {
            assert(pids@.take(pids@.len() as int) =~= pids@);
            assert(rest.dom() =~= Set::empty());
            assert(total(rest) == 0);
        }
        count
    }

    /// Appends a value to those of its replica; that groups arrive without
    /// gaps is up to the replication protocol.
    pub fn insert(&mut self, dot: Dot, value: T)
        ensures
            final(self)@ == old(self)@.insert(
                dot.pid,
                list_of(old(self)@, dot.pid).push((dot, value)),
            ),
    {
        let mut list = match self.map.remove(&dot.pid) {
            Some(list) => list,
            None => Vec::new(),
        };
        list.push((dot, value));
        self.map.insert(dot.pid, list);
        assert(self@ =~= old(self)@.insert(
            dot.pid,
            list_of(old(self)@, dot.pid).push((dot, value)),
        ));
    }

    /// The replicas that have a value here, in ascending order.
    pub fn pids(&self) -> (pids: Vec<Pid>)
        ensures
            enumerates(pids@, self@),
    {
        ascending_keys(&self.map)
    }

    /// The values of one replica, if it has any.
    pub fn list(&self, pid: &Pid) -> (list: Option<&Vec<(Dot, T)>>)
        ensures
            match list {
                Some(list) => self@.contains_key(*pid) && self@[*pid] == list@,
                None => !self@.contains_key(*pid),
            },
    {
        self.map.get(pid)
    }

    /// Returns all items with dots not subsumed by `dot_set`: replica after
    /// replica, in ascending order, and those of a replica in the order in
    /// which they were inserted.
    pub fn get_all_greater_iter<'a>(&'a self, dot_set: &DotSet) -> (found: Vec<&'a (Dot, T)>)
        ensures
            exists|pids: Seq<Pid>| #[trigger]
                enumerates(pids, self@) && found@.unref() == uncovered(self@, dot_set@, pids),
    {
        let pids = self.pids();
        let mut found: Vec<&'a (Dot, T)> = Vec::new();
        assert(pids@.take(0) =~= Seq::empty());
        for i in 0..pids.len()
            invariant
                enumerates(pids@, self@),
                found@.unref() == uncovered(self@, dot_set@, pids@.take(i as int)),
        {
            let pid: Pid = pids[i];
            assert(pids@.contains(pid));
            let ghost before = found@.unref();
            let ghost keep = |item: (Dot, T)| !covers(dot_set@, item.0);
            if let Some(list) = self.map.get(&pid) {
                assert(list@.take(0).filter(keep) =~= Seq::empty()) by {
                    reveal(Seq::filter);
                }
                for j in 0..list.len()
                    invariant
                        keep == (|item: (Dot, T)| !covers(dot_set@, item.0)),
                        found@.unref() == before + list@.take(j as int).filter(keep),
                {
                    let item = &list[j];
                    proof {
                        lemma_filter_next(list@, keep, j as int);
                    }
                    let ghost so_far = found@;
                    if !dot_set.contains(&item.0) {
                        found.push(item);
                        assert(found@.unref() =~= so_far.unref().push(*item));
                    }
                }
                proof {
                    assert(list@.take(list@.len() as int) =~= list@);
                    assert(pids@.take(i + 1).drop_last() =~= pids@.take(i as int));
                    assert(self@[pid] == list@);
                }
            }
        }
        assert(pids@.take(pids@.len() as int) =~= pids@);
        found
    }

    /// Keeps the values for which `predicate` holds, and drops the replicas of
    /// which nothing is left.
    pub fn retain<F>(&mut self, predicate: F) where F: Fn(&Dot, &T) -> bool
        requires
            forall|dot: Dot, value: T| #[trigger] call_requires(predicate, (&dot, &value)),
        ensures
            exists|answers: Map<Pid, Seq<bool>>| #[trigger]
                all_answered(predicate, old(self)@, answers) && final(self)@ == all_chosen(
                    old(self)@,
                    answers,
                ),
            forall|keep: spec_fn((Dot, T)) -> bool| #[trigger]
                describes(predicate, keep) ==> final(self)@ == retained(old(self)@, keep),
    {
        let pids = self.pids();
        let ghost mut answers: Map<Pid, Seq<bool>> = Map::empty();
        assert(pids@.take(0) =~= Seq::empty());
        for i in 0..pids.len()
            invariant
                ascending(pids@),
                forall|dot: Dot, value: T| #[trigger] call_requires(predicate, (&dot, &value)),
                forall|p: Pid| #[trigger] pids@.contains(p) <==> old(self)@.contains_key(p),
                forall|p: Pid| #[trigger]
                    self@.contains_key(p) ==> old(self)@.contains_key(p),
                forall|p: Pid| #[trigger]
                    old(self)@.contains_key(p) && !pids@.take(i as int).contains(p)
                        ==> self@.contains_key(p) && self@[p] == old(self)@[p],
                forall|p: Pid|
                    pids@.contains(p) && pids@.take(i as int).contains(p) ==> #[trigger] settled(
                        predicate,
                        old(self)@,
                        self@,
                        answers,
                        p,
                    ),
        {
            let pid: Pid = pids[i];
            assert(pids@.contains(pid));
            assert(!pids@.take(i as int).contains(pid));
            let ghost before = self@;
            if let Some(list) = self.map.remove(&pid) {
                assert(self@ =~= before.remove(pid));
                let ghost items = list@;
                assert(items == old(self)@[pid]);
                let ghost had = answers;
                let kept = filtered(list, &predicate);
                proof {
                    let given = choose|given: Seq<bool>| #[trigger]
                        answered(predicate, items, given) && kept@ == chosen(items, given);
                    answers = answers.insert(pid, given);
                }
                if kept.len() > 0 {
                    self.map.insert(pid, kept);
                    assert(self@ =~= before.insert(pid, kept@));
                }
                proof {
                    lemma_take_next(pids@, i as int);
                    assert forall|p: Pid|
                        pids@.contains(p) && pids@.take(i + 1).contains(p) implies #[trigger] settled(
                        predicate,
                        old(self)@,
                        self@,
                        answers,
                        p,
                    ) by {
                        if p != pid {
                            assert(settled(predicate, old(self)@, before, had, p));
                        }
                    }
                }
            }
        }
        proof {
            assert(pids@.take(pids@.len() as int) =~= pids@);
            assert forall|p: Pid| #[trigger] old(self)@.contains_key(p) implies settled(
                predicate,
                old(self)@,
                self@,
                answers,
                p,
            ) by {
                assert(pids@.contains(p));
            }
            assert(all_answered(predicate, old(self)@, answers));
            assert forall|p: Pid| #[trigger] self@.contains_key(p) <==> all_chosen(
                old(self)@,
                answers,
            ).contains_key(p) by {
                if old(self)@.contains_key(p) {
                    assert(settled(predicate, old(self)@, self@, answers, p));
                }
            }
            assert(self@ =~= all_chosen(old(self)@, answers));
            assert forall|keep: spec_fn((Dot, T)) -> bool| #[trigger]
                describes(predicate, keep) implies self@ == retained(old(self)@, keep) by {
                assert forall|p: Pid| #[trigger] old(self)@.contains_key(p) implies chosen(
                    old(self)@[p],
                    answers[p],
                ) == old(self)@[p].filter(keep) by {
                    lemma_chosen_is_filter(predicate, keep, old(self)@[p], answers[p]);
                }
                assert(self@ =~= retained(old(self)@, keep));
            }
        }
    }
}

/// The items of a list for which `predicate` holds.
fn filtered<T, F: Fn(&Dot, &T) -> bool>(list: Vec<(Dot, T)>, predicate: &F) -> (kept: Vec<(Dot, T)>)
    requires
        forall|dot: Dot, value: T| #[trigger] call_requires(*predicate, (&dot, &value)),
    ensures
        exists|answers: Seq<bool>| #[trigger]
            answered(*predicate, list@, answers) && kept@ == chosen(list@, answers),
{
    let mut kept: Vec<(Dot, T)> = Vec::new();
    let ghost items = list@;
    let ghost mut answers: Seq<bool> = Seq::empty();
    for item in it: list
        invariant
            it.seq() == items,
            forall|dot: Dot, value: T| #[trigger] call_requires(*predicate, (&dot, &value)),
            answered(*predicate, items.take(it.index() as int), answers),
            kept@ == chosen(items.take(it.index() as int), answers),
    {
        let ghost i = it.index() as int;
        let yes: bool = predicate(&item.0, &item.1);
        proof {
            let more = answers.push(yes);
            let part = items.take(i + 1);
            assert(part.drop_last() =~= items.take(i));
            assert(part.last() == items[i]);
            assert(more.drop_last() =~= answers);
            assert forall|j: int| 0 <= j < part.len() implies call_ensures(
                *predicate,
                (&part[j].0, &part[j].1),
                #[trigger] more[j],
            ) by {
                if j < i {
                    assert(items.take(i)[j] == part[j]);
                    assert(call_ensures(
                        *predicate,
                        (&items.take(i)[j].0, &items.take(i)[j].1),
                        answers[j],
                    ));
                }
            }
            answers = more;
        }
        if yes {
            kept.push(item);
        }
    }
    assert(items.take(items.len() as int) =~= items);
    kept
}

} // verus!
