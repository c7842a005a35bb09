use gresse::crdt::{DeltaGroup, CRDT};
use gresse::dots::{Dot, DotSet};
use gresse::orset::{
    ORSet, OrSetChange, OrSetDelta, OrSetError, OrSetMutation, OrSetQuery, OrSetResponse,
};

#[test]
fn insert_and_remove_element() {
    let mut set = ORSet::<String>::new();
    set.set_pid(1);

    set.mutate(OrSetMutation::Insert("apple".into())).unwrap();
    assert_eq!(
        set.query(OrSetQuery::Contains("apple".into())).unwrap(),
        OrSetResponse::Contains(true)
    );

    set.mutate(OrSetMutation::Remove("apple".into())).unwrap();
    assert_eq!(
        set.query(OrSetQuery::Contains("apple".into())).unwrap(),
        OrSetResponse::Contains(false)
    );
}

type Fruits = ORSet<String>;

fn fruits(pid: u128, elements: &[&str]) -> Fruits {
    let mut set = Fruits::new();
    set.set_pid(pid);
    for element in elements {
        set.mutate(OrSetMutation::Insert(element.to_string()))
            .unwrap();
    }
    set
}

fn listed(set: &Fruits) -> Vec<String> {
    match set.query(OrSetQuery::Elements).unwrap() {
        OrSetResponse::Elements(list) => list,
        other => panic!("no elements: {other:?}"),
    }
}

fn pull(to: &mut Fruits, from: &Fruits) -> (u16, u16) {
    let (delta, _, _) = from.get_delta(to.get_version_vector());
    assert!(to.accepts_delta_group(&delta));
    to.merge_delta_group(delta)
}

#[test]
fn a_set_without_an_identity_refuses_changes() {
    let mut set = Fruits::new();
    assert_eq!(
        set.mutate(OrSetMutation::Insert("apple".into())),
        Err(OrSetError::MissingPid)
    );
    assert!(listed(&set).is_empty());
}

#[test]
fn concurrent_insertions_survive_a_removal() {
    let mut a = fruits(1, &["apple"]);
    let mut b = fruits(2, &[]);
    pull(&mut b, &a);
    a.mutate(OrSetMutation::Remove("apple".into())).unwrap();
    b.mutate(OrSetMutation::Insert("apple".into())).unwrap();
    pull(&mut a, &b);
    pull(&mut b, &a);
    assert_eq!(listed(&a), vec!["apple".to_string()]);
    assert_eq!(listed(&b), vec!["apple".to_string()]);
}

#[test]
fn replicas_converge_in_any_order() {
    let mut a = fruits(1, &["apple", "cherry"]);
    let mut b = fruits(2, &["banana"]);
    let mut c = fruits(3, &["apple"]);
    a.mutate(OrSetMutation::Remove("cherry".into())).unwrap();
    pull(&mut c, &b);
    pull(&mut c, &a);
    pull(&mut b, &c);
    pull(&mut a, &b);
    let all = vec!["apple".to_string(), "banana".to_string()];
    assert_eq!(listed(&a), all);
    assert_eq!(listed(&b), all);
    assert_eq!(listed(&c), all);
    // a second pull brings nothing
    assert_eq!(pull(&mut a, &c), (0, 0));
    assert_eq!(listed(&a), all);
}

#[test]
fn a_group_is_in_causal_order() {
    // each replica removes what the one after it has inserted
    let mut a = fruits(1, &[]);
    let mut b = fruits(2, &[]);
    let mut c = fruits(3, &["cherry"]);
    pull(&mut b, &c);
    b.mutate(OrSetMutation::Remove("cherry".into())).unwrap();
    b.mutate(OrSetMutation::Insert("banana".into())).unwrap();
    pull(&mut a, &b);
    a.mutate(OrSetMutation::Remove("banana".into())).unwrap();
    a.mutate(OrSetMutation::Insert("apple".into())).unwrap();
    pull(&mut c, &a);
    c.mutate(OrSetMutation::Remove("apple".into())).unwrap();

    let (delta, insertions, removals) = c.get_delta(&DotSet::new());
    assert_eq!((insertions, removals), (3, 3));
    let dots: Vec<(u128, i64)> = delta
        .list
        .iter()
        .map(|delta| (delta.dot().pid, delta.dot().counter))
        .collect();
    assert_eq!(dots, vec![(3, 0), (2, 0), (2, 1), (1, 0), (1, 1), (3, 1)]);
    let mut d = fruits(4, &[]);
    assert_eq!(pull(&mut d, &c), (3, 3));
    assert!(listed(&c).is_empty());
    assert!(listed(&d).is_empty());
}

#[test]
fn changes_that_refer_to_each_other_are_all_sent() {
    let dot = |pid: u128, counter: i64| Dot { pid, counter };
    let remove = |at: Dot, named: Dot| {
        OrSetDelta::new(
            at,
            OrSetChange::Remove {
                element: "apple".to_string(),
                removed_dots: vec![named],
            },
        )
    };
    let mut a = fruits(9, &[]);
    let group = DeltaGroup {
        list: vec![remove(dot(1, 0), dot(2, 0)), remove(dot(2, 0), dot(1, 0))],
        version_vector: DotSet::new(),
    };
    assert!(a.accepts_delta_group(&group));
    a.merge_delta_group(group);
    assert_eq!(a.get_delta(&DotSet::new()).0.list.len(), 2);
}

#[test]
fn deltas_are_counted() {
    let mut a = fruits(1, &["apple", "banana"]);
    a.mutate(OrSetMutation::Remove("apple".into())).unwrap();
    let (delta, insertions, removals) = a.get_delta(&DotSet::new());
    assert_eq!(delta.list.len(), 3);
    assert_eq!((insertions, removals), (2, 1));
    let mut b = fruits(2, &[]);
    assert_eq!(b.merge_delta_group(delta.clone()), (2, 1));
    assert_eq!(b.merge_delta_group(delta), (0, 0));
}

#[test]
fn a_gap_in_the_deltas_is_noticed() {
    let mut a = fruits(1, &["apple"]);
    let mut b = fruits(2, &[]);
    pull(&mut b, &a);
    a.mutate(OrSetMutation::Insert("banana".into())).unwrap();
    let vector = a.get_version_vector().clone();
    a.mutate(OrSetMutation::Insert("cherry".into())).unwrap();
    let (late, _, _) = a.get_delta(&vector);
    assert!(!b.accepts_delta_group(&late));
}

#[test]
fn collected_changes_leave_the_log_and_the_elements_stay() {
    let mut a = fruits(1, &["apple"]);
    let b = fruits(2, &["banana"]);
    pull(&mut a, &b);
    let meta = |set: &Fruits| match set.query(OrSetQuery::Meta).unwrap() {
        OrSetResponse::Meta(meta) => (meta.entry_count, meta.delta_log_count),
        other => panic!("no meta: {other:?}"),
    };
    assert_eq!(meta(&a), (2, 2));
    let mut stable = DotSet::new();
    stable.set_counter(1, 0);
    a.gc(&stable, &None);
    assert_eq!(meta(&a), (2, 1));
    a.gc(&stable, &Some(vec![2]));
    assert_eq!(meta(&a), (2, 0));
    assert_eq!(a.get_version_vector().counter(&2), None);
    assert_eq!(
        listed(&a),
        vec!["apple".to_string(), "banana".to_string()]
    );
}

#[test]
fn sets_are_taken_apart_and_put_together() {
    let mut a = fruits(1, &["apple", "banana"]);
    let b = fruits(2, &["apple", "cherry"]);
    pull(&mut a, &b);
    a.mutate(OrSetMutation::Remove("banana".into())).unwrap();
    let parts = a.to_parts();
    assert_eq!(parts.pid, Some(1));
    assert_eq!(parts.entries.len(), 2);
    assert_eq!(parts.entries[0].0, "apple");
    assert_eq!(parts.entries[0].1.len(), 2);
    assert_eq!(parts.deltas.len(), 5);

    let mut again = Fruits::from_parts(parts.clone());
    assert_eq!(listed(&again), listed(&a));
    assert_eq!(again.get_version_vector(), a.get_version_vector());
    let (delta, _, _) = again.get_delta(&DotSet::new());
    assert_eq!(delta.list, a.get_delta(&DotSet::new()).0.list);
    again.mutate(OrSetMutation::Insert("date".into())).unwrap();
    assert_eq!(again.get_version_vector().counter(&1), Some(3));

    // an entry without a dot is listed, but not contained
    let mut unheld = parts;
    unheld.entries[0].1.clear();
    let mut unheld = Fruits::from_parts(unheld);
    assert_eq!(listed(&unheld), listed(&a));
    assert_eq!(
        unheld.query(OrSetQuery::Contains("apple".into())).unwrap(),
        OrSetResponse::Contains(false)
    );
    unheld.gc(&DotSet::new(), &Some(Vec::new()));
    assert_eq!(listed(&unheld), listed(&a));
    unheld.gc(&DotSet::new(), &Some(vec![8]));
    assert_eq!(listed(&unheld), vec!["cherry".to_string()]);
}
