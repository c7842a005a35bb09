//! What holds of the observed-remove set as a whole.

use vstd::prelude::*;
use crate::crdt::CRDT;
use crate::dots::dot_map::lemma_filter_holds;
use crate::dots::{covers, Counter, Dot};
use crate::order::Element;
use crate::orset::{
    dots_of, held_only, is_contained, with_dot, without_dots, ChangeView, DeltaView, ORSet, ORSetView,
    OrSetError, OrSetQuery, OrSetResponse,
};
use crate::prelude::Pid;

verus! {

/// Whether `dot` holds `element`.
pub open spec fn holds<V>(entries: Map<V, Seq<Dot>>, element: V, dot: Dot) -> bool {
    dots_of(entries, element).contains(dot)
}

/// Whether every entry has a dot that holds it.
pub open spec fn occupied<V>(entries: Map<V, Seq<Dot>>) -> bool {
    forall|element: V| #[trigger] entries.contains_key(element) ==> entries[element].len() > 0
}

/// Filtering out everything leaves nothing.
pub proof fn lemma_filter_none<A>(list: Seq<A>, keep: spec_fn(A) -> bool)
    requires
        forall|i: int| 0 <= i < list.len() ==> !keep(#[trigger] list[i]),
    ensures
        list.filter(keep) == Seq::<A>::empty(),
    decreases list.len(),
{
    reveal(Seq::filter);
    if list.len() > 0 {
        let front = list.drop_last();
        assert forall|i: int| 0 <= i < front.len() implies !keep(#[trigger] front[i]) by {
            assert(front[i] == list[i]);
        }
        lemma_filter_none(front, keep);
        assert(!keep(list[list.len() - 1]));
    }
}

/// Filtering out nothing leaves everything.
pub proof fn lemma_filter_all<A>(list: Seq<A>, keep: spec_fn(A) -> bool)
    requires
        forall|i: int| 0 <= i < list.len() ==> keep(#[trigger] list[i]),
    ensures
        list.filter(keep) == list,
    decreases list.len(),
{
    reveal(Seq::filter);
    if list.len() > 0 {
        let front = list.drop_last();
        assert forall|i: int| 0 <= i < front.len() implies keep(#[trigger] front[i]) by {
            assert(front[i] == list[i]);
        }
        lemma_filter_all(front, keep);
        assert(keep(list[list.len() - 1]));
        assert(front.push(list.last()) =~= list);
    }
}

/// Which dots hold which elements after a change: an insertion adds its own
/// dot, a removal takes the dots that it names, and nothing else happens.
pub proof fn law_change_is_exact<V>(
    entries: Map<V, Seq<Dot>>,
    issued: Dot,
    change: ChangeView<V>,
    element: V,
    dot: Dot,
)
    ensures
        holds(ORSetView::changed(entries, issued, change), element, dot) <==> match change {
            ChangeView::Insert { element: e } => holds(entries, element, dot) || (element == e
                && dot == issued),
            ChangeView::Remove { element: e, removed_dots } => holds(entries, element, dot) && !(
            element == e && removed_dots.contains(dot)),
        },
{
    match change {
        ChangeView::Insert { element: e } => {
            let dots = dots_of(entries, e);
            if !dots.contains(issued) {
                assert(dots.push(issued)[dots.len() as int] == issued);
                if dots.contains(dot) {
                    let i = choose|i: int| 0 <= i < dots.len() && dots[i] == dot;
                    assert(dots.push(issued)[i] == dot);
                }
                if dots.push(issued).contains(dot) && dot != issued {
                    let i = choose|i: int|
                        0 <= i < dots.push(issued).len() && dots.push(issued)[i] == dot;
                    assert(dots[i] == dot);
                }
            }
        },
        ChangeView::Remove { element: e, removed_dots } => {
            let keep = |d: Dot| !removed_dots.contains(d);
            let dots = dots_of(entries, e);
            lemma_filter_holds(dots, keep, dot);
            if dots.filter(keep).len() == 0 {
                assert(dots_of(entries.remove(e), e) =~= Seq::empty());
                assert(!dots.filter(keep).contains(dot));
            }
        },
    }
}

/// No change leaves an entry without a dot.
proof fn lemma_changed_is_occupied<V>(
    entries: Map<V, Seq<Dot>>,
    issued: Dot,
    change: ChangeView<V>,
)
    requires
        occupied(entries),
    ensures
        occupied(ORSetView::changed(entries, issued, change)),
{
    if let ChangeView::Insert { element } = change {
        let dots = dots_of(entries, element);
        assert(dots.contains(issued) ==> dots.len() > 0);
    }
}

/// An inserted element is read back, and no other element is touched.
pub proof fn law_insert_is_read_back<V>(state: ORSetView<V>, element: V, other: V)
    requires
        state.pid is Some,
        other != element,
    ensures
        is_contained(state.mutated(true, element).entries, element),
        dots_of(state.mutated(true, element).entries, other) == dots_of(state.entries, other),
        state.mutated(true, element).entries.contains_key(other) == state.entries.contains_key(
            other,
        ),
{
    let dots = dots_of(state.entries, element);
    assert(dots.contains(state.next_dot(state.pid->0)) ==> dots.len() > 0);
}

/// A removed element is not read back, and no other element is touched.
pub proof fn law_remove_is_read_back<V>(state: ORSetView<V>, element: V, other: V)
    requires
        state.pid is Some,
        other != element,
    ensures
        !state.mutated(false, element).entries.contains_key(element),
        !is_contained(state.mutated(false, element).entries, element),
        dots_of(state.mutated(false, element).entries, other) == dots_of(state.entries, other),
        state.mutated(false, element).entries.contains_key(other) == state.entries.contains_key(
            other,
        ),
{
    let dots = dots_of(state.entries, element);
    assert forall|i: int| 0 <= i < dots.len() implies !(|d: Dot| !dots.contains(d))(
        #[trigger] dots[i],
    ) by {}
    lemma_filter_none(dots, |d: Dot| !dots.contains(d));
}

/// In an empty set every entry has a dot, and so it stays: no change, no group
/// that is merged and no round leaves an entry without one.
pub proof fn law_entries_keep_a_dot<V>(
    state: ORSetView<V>,
    insert: bool,
    element: V,
    list: Seq<DeltaView<V>>,
    stable: Map<Pid, Counter>,
    departed: Option<Seq<Pid>>,
)
    requires
        occupied(state.entries),
    ensures
        occupied(ORSetView::<V>::blank().entries),
        occupied(state.mutated(insert, element).entries),
        occupied(state.merged(list).entries),
        occupied(state.collected(stable, departed).entries),
    decreases list.len(),
{
    if state.pid is Some {
        let delta = state.issued(state.pid->0, insert, element);
        lemma_changed_is_occupied(state.entries, delta.dot, delta.change);
    }
    if list.len() > 0 {
        law_entries_keep_a_dot(state, insert, element, list.drop_last(), stable, departed);
        let before = state.merged(list.drop_last());
        lemma_changed_is_occupied(before.entries, list.last().dot, list.last().change);
    }
}

/// The list of elements names those that the set is said to contain, and no
/// others, where every entry has a dot.
pub proof fn law_elements_are_contained<T: Element + Clone + Send + Sync>(
    state: ORSetView<T::V>,
    list: Vec<T>,
    element: T,
    contained: bool,
)
    requires
        ORSet::<T>::answers(
            state,
            OrSetQuery::Elements,
            Ok::<OrSetResponse<T>, OrSetError>(OrSetResponse::Elements(list)),
        ),
        ORSet::<T>::answers(
            state,
            OrSetQuery::Contains(element),
            Ok::<OrSetResponse<T>, OrSetError>(OrSetResponse::Contains(contained)),
        ),
    ensures
        contained ==> exists|i: int| 0 <= i < list@.len() && (#[trigger] list@[i])@ == element@,
        occupied(state.entries) ==> (contained <==> exists|i: int|
            0 <= i < list@.len() && (#[trigger] list@[i])@ == element@),
{
    let views = list@.map_values(|e: T| e@);
    assert(state.entries.contains_key(element@) == views.contains(element@));
    if contained {
        let i = choose|i: int| 0 <= i < views.len() && views[i] == element@;
        assert(list@[i]@ == element@);
    }
    if exists|i: int| 0 <= i < list@.len() && (#[trigger] list@[i])@ == element@ {
        let i = choose|i: int| 0 <= i < list@.len() && (#[trigger] list@[i])@ == element@;
        assert(views[i] == element@);
    }
}

/// An insertion that a removal has not seen survives it, whichever of the two
/// arrives first.
pub proof fn law_unseen_insertion_survives_removal<V>(
    entries: Map<V, Seq<Dot>>,
    element: V,
    dot: Dot,
    removed_dots: Seq<Dot>,
)
    requires
        !removed_dots.contains(dot),
    ensures
        holds(without_dots(with_dot(entries, element, dot), element, removed_dots), element, dot),
        holds(with_dot(without_dots(entries, element, removed_dots), element, dot), element, dot),
{
    let insert = ChangeView::Insert { element };
    let remove = ChangeView::Remove { element, removed_dots };
    let inserted = ORSetView::changed(entries, dot, insert);
    let removed = ORSetView::changed(entries, dot, remove);
    law_change_is_exact(entries, dot, insert, element, dot);
    law_change_is_exact(inserted, dot, remove, element, dot);
    law_change_is_exact(removed, dot, insert, element, dot);
}

/// Whether a removal names the dot of another change.
pub open spec fn names<V>(change: ChangeView<V>, dot: Dot) -> bool {
    change matches ChangeView::Remove { element, removed_dots } && removed_dots.contains(dot)
}

/// Changes of which neither has seen the other commute: both orders leave the
/// same elements, held by the same dots.
pub proof fn law_unrelated_changes_commute<V>(
    entries: Map<V, Seq<Dot>>,
    one: DeltaView<V>,
    other: DeltaView<V>,
    element: V,
    dot: Dot,
)
    requires
        !names(one.change, other.dot),
        !names(other.change, one.dot),
    ensures
        ({
            let ab = ORSetView::changed(
                ORSetView::changed(entries, one.dot, one.change),
                other.dot,
                other.change,
            );
            let ba = ORSetView::changed(
                ORSetView::changed(entries, other.dot, other.change),
                one.dot,
                one.change,
            );
            &&& holds(ab, element, dot) == holds(ba, element, dot)
            &&& ab.contains_key(element) == ba.contains_key(element)
            &&& is_contained(ab, element) == is_contained(ba, element)
        }),
{
    let a = ORSetView::changed(entries, one.dot, one.change);
    let b = ORSetView::changed(entries, other.dot, other.change);
    let ab = ORSetView::changed(a, other.dot, other.change);
    let ba = ORSetView::changed(b, one.dot, one.change);
    assert forall|d: Dot| #[trigger] holds(ab, element, d) == holds(ba, element, d) by {
        law_change_is_exact(entries, one.dot, one.change, element, d);
        law_change_is_exact(entries, other.dot, other.change, element, d);
        law_change_is_exact(a, other.dot, other.change, element, d);
        law_change_is_exact(b, one.dot, one.change, element, d);
    }
    lemma_same_holders(ab, ba, element);
    lemma_touched(entries, one.dot, one.change, element);
    lemma_touched(entries, other.dot, other.change, element);
    lemma_touched(a, other.dot, other.change, element);
    lemma_touched(b, one.dot, one.change, element);
}

/// Whether a change is about an element.
spec fn touches<V>(change: ChangeView<V>, element: V) -> bool {
    match change {
        ChangeView::Insert { element: e } => e == element,
        ChangeView::Remove { element: e, removed_dots } => e == element,
    }
}

/// An element that a change is about has an entry afterwards exactly if a dot
/// holds it; the entry of another stays.
proof fn lemma_touched<V>(
    entries: Map<V, Seq<Dot>>,
    issued: Dot,
    change: ChangeView<V>,
    element: V,
)
    ensures
        ({
            let after = ORSetView::changed(entries, issued, change);
            if touches(change, element) {
                after.contains_key(element) == is_contained(after, element)
            } else {
                &&& after.contains_key(element) == entries.contains_key(element)
                &&& dots_of(after, element) == dots_of(entries, element)
            }
        }),
{
    if let ChangeView::Insert { element: e } = change {
        let dots = dots_of(entries, e);
        assert(dots.contains(issued) ==> dots.len() > 0);
    }
}

/// Entries that hold an element by the same dots contain it alike.
pub proof fn lemma_same_holders<V>(
    one: Map<V, Seq<Dot>>,
    other: Map<V, Seq<Dot>>,
    element: V,
)
    requires
        forall|d: Dot| #[trigger] holds(one, element, d) == holds(other, element, d),
    ensures
        is_contained(one, element) == is_contained(other, element),
{
    if is_contained(one, element) {
        assert(holds(one, element, dots_of(one, element)[0]));
        assert(holds(other, element, dots_of(one, element)[0]));
    }
    if is_contained(other, element) {
        assert(holds(other, element, dots_of(other, element)[0]));
        assert(holds(one, element, dots_of(other, element)[0]));
    }
}

/// Taking in a delta never forgets a dot, and covers that of the delta.
proof fn lemma_applied_covers<V>(state: ORSetView<V>, delta: DeltaView<V>)
    ensures
        covers(state.applied(delta).vector, delta.dot),
        forall|d: Dot| #[trigger]
            covers(state.vector, d) ==> covers(state.applied(delta).vector, d),
{
}

/// Merging never forgets a dot, and covers every dot of the list.
proof fn lemma_merged_covers<V>(state: ORSetView<V>, list: Seq<DeltaView<V>>)
    ensures
        forall|d: Dot| #[trigger] covers(state.vector, d) ==> covers(state.merged(list).vector, d),
        forall|i: int|
            0 <= i < list.len() ==> covers(state.merged(list).vector, (#[trigger] list[i]).dot),
    decreases list.len(),
{
    if list.len() > 0 {
        let front = list.drop_last();
        lemma_merged_covers(state, front);
        lemma_applied_covers(state.merged(front), list.last());
        assert forall|i: int| 0 <= i < list.len() implies covers(
            state.merged(list).vector,
            (#[trigger] list[i]).dot,
        ) by {
            if i < front.len() {
                assert(front[i] == list[i]);
                assert(covers(state.merged(front).vector, front[i].dot));
            }
        }
    }
}

/// Deltas that are all known change nothing.
proof fn lemma_known_deltas<V>(state: ORSetView<V>, list: Seq<DeltaView<V>>)
    requires
        forall|i: int| 0 <= i < list.len() ==> covers(state.vector, (#[trigger] list[i]).dot),
    ensures
        state.merged(list) == state,
        state.can_merge(list),
        state.insertions(list) == 0,
        state.removals(list) == 0,
    decreases list.len(),
{
    if list.len() > 0 {
        let front = list.drop_last();
        assert forall|i: int| 0 <= i < front.len() implies covers(
            state.vector,
            (#[trigger] front[i]).dot,
        ) by {
            assert(front[i] == list[i]);
        }
        lemma_known_deltas(state, front);
        assert(covers(state.vector, list[list.len() - 1].dot));
    }
}

/// Merging the same group a second time changes nothing and brings nothing.
pub proof fn law_merge_is_idempotent<V>(state: ORSetView<V>, list: Seq<DeltaView<V>>)
    ensures
        state.merged(list).can_merge(list),
        state.merged(list).merged(list) == state.merged(list),
        state.merged(list).insertions(list) == 0,
        state.merged(list).removals(list) == 0,
{
    lemma_merged_covers(state, list);
    lemma_known_deltas(state.merged(list), list);
}

/// A round keeps every element, held by the same dots, and changes no answer
/// where every entry has a dot.
pub proof fn law_gc_keeps_the_elements<V>(
    state: ORSetView<V>,
    stable: Map<Pid, Counter>,
    departed: Option<Seq<Pid>>,
)
    ensures
        forall|element: V|
            dots_of(#[trigger] state.collected(stable, departed).entries, element) == dots_of(
                state.entries,
                element,
            ),
        occupied(state.entries) ==> state.collected(stable, departed).entries == state.entries,
        state.collected(stable, departed).pid == state.pid,
{
    if occupied(state.entries) {
        assert(held_only(state.entries) =~= state.entries);
    }
}

/// A round withholds nothing from a replica that knows everything that the
/// round drops: of each origin it is sent the same changes as before.
pub proof fn law_gc_keeps_what_is_needed<V>(
    state: ORSetView<V>,
    stable: Map<Pid, Counter>,
    departed: Option<Seq<Pid>>,
    vector: Map<Pid, Counter>,
    pid: Pid,
)
    requires
        forall|i: int|
            0 <= i < state.log_of(pid).len() && !ORSetView::<V>::stays(
                stable,
                departed,
                (#[trigger] state.log_of(pid)[i]).dot,
            ) ==> covers(vector, state.log_of(pid)[i].dot),
    ensures
        ORSetView::lacking_of(state.collected(stable, departed).log_of(pid), vector)
            == ORSetView::lacking_of(state.log_of(pid), vector),
{
    let keep = |delta: DeltaView<V>| ORSetView::<V>::stays(stable, departed, delta.dot);
    let lacks = |delta: DeltaView<V>| !covers(vector, delta.dot);
    let list = state.log_of(pid);
    lemma_filter_filter(list, keep, lacks);
    if state.log.contains_key(pid) && list.filter(keep).len() == 0 {
        assert(list.filter(keep) =~= Seq::empty());
        assert(state.collected(stable, departed).log_of(pid) =~= Seq::empty());
    }
    if !state.log.contains_key(pid) {
        assert(state.collected(stable, departed).log_of(pid) =~= list);
    }
}

/// Filtering twice is filtering once, where the second filter lets through
/// only what the first one does.
proof fn lemma_filter_filter<A>(list: Seq<A>, one: spec_fn(A) -> bool, two: spec_fn(A) -> bool)
    requires
        forall|i: int| 0 <= i < list.len() && !one(#[trigger] list[i]) ==> !two(list[i]),
    ensures
        list.filter(one).filter(two) == list.filter(two),
    decreases list.len(),
{
    reveal(Seq::filter);
    if list.len() > 0 {
        let front = list.drop_last();
        assert forall|i: int| 0 <= i < front.len() && !one(#[trigger] front[i]) implies !two(
            front[i],
        ) by {
            assert(front[i] == list[i]);
        }
        lemma_filter_filter(front, one, two);
        let last = list[list.len() - 1];
        if one(last) {
            assert(front.filter(one).push(last).drop_last() =~= front.filter(one));
        }
    }
}

} // verus!
