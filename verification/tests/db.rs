use gresse::db::composite_view::CompositeView;
use gresse::db::view::View;
use gresse::db::ztable::ZTable;
use gresse::multimap::MultiMap;
use gresse::order::{Element, SortedMap, SortedSet};

#[test]
fn test_ztable() {
    let mut table = ZTable::new_with_shards(4);

    table.insert("a", 30);
    table.insert("b", 20);
    table.insert("a", 30);

    assert_eq!(table.get(&"a"), Some(&30));
    assert_eq!(table.get(&"b"), Some(&20));
    assert_eq!(table.get(&"c"), None);

    let mut all_values: Vec<(_, _)> = table.iter_all().into_iter().collect();
    all_values.sort_by(|a, b| a.0.cmp(b.0));
    assert_eq!(all_values, vec![(&"a", &30), (&"b", &20)]);
}

#[test]
fn test_map_reduce_active() {
    let mut table = ZTable::new_with_shards(4);
    table.insert("a", 10);
    table.insert("b", 20);
    table.insert("c", 30);
    table.remove(&"missing");

    let (sum, mut keys) = table.map_reduce_active(
        |_shard_index, shard| {
            let mut local_sum = 0;
            let mut local_keys = Vec::new();
            for i in 0..shard.len() {
                let (key, (weight, value)) = shard.entry(i);
                if *weight > 0 {
                    local_sum += *value;
                    local_keys.push(*key);
                }
            }
            (local_sum, local_keys)
        },
        (0, Vec::new()),
        |(sum, mut keys): (i32, Vec<&str>), (local_sum, mut local_keys)| {
            keys.append(&mut local_keys);
            (sum + local_sum, keys)
        },
    );

    keys.sort();
    assert_eq!(sum, 60);
    assert_eq!(keys, vec!["a", "b", "c"]);
}

fn keys<K: Element + Clone>(list: &SortedSet<K>) -> Vec<K> {
    (0..list.len()).map(|i| list.at(i).clone()).collect()
}

#[test]
fn weights_go_below_zero() {
    let mut table: ZTable<u32, i32> = ZTable::new_with_shards(0);
    assert_eq!(table.shard_count(), 1);
    assert!(table.is_empty());
    assert_eq!(table.remove(&7), -1);
    assert_eq!(table.get_weight(&7), -1);
    assert_eq!(table.get(&7), Some(&0));
    assert!(table.iter_all().is_empty());
    assert_eq!(table.insert(7, 5), 0);
    assert_eq!(table.insert(7, 6), 1);
    assert_eq!(table.iter_all(), vec![(&7, &6)]);
    assert_eq!(table.remove(&7), 0);
    assert!(table.is_empty());
}

#[test]
fn entries_are_restored_as_they_were() {
    let mut table: ZTable<u32, i32> = ZTable::new_with_shards(3);
    table.insert(1, 10);
    table.restore(1, -2, 20);
    table.restore(2, 0, 30);
    assert_eq!((table.get_weight(&1), table.get(&1)), (-2, Some(&20)));
    assert_eq!((table.get_weight(&2), table.get(&2)), (0, Some(&30)));
    assert_eq!(table.insert(2, 40), 1);
    assert_eq!(table.iter_all(), vec![(&2, &40)]);
    // as many removals as insertions leave nothing
    table.insert(7, 1);
    table.insert(7, 2);
    table.remove(&7);
    table.remove(&7);
    assert_eq!(table.get(&7), None);
}

#[test]
fn shards_divide_the_keys() {
    let mut table: ZTable<u32, u32> = ZTable::new_with_shards(4);
    for key in 0..100 {
        table.insert(key, key * 2);
    }
    assert_eq!(table.len(), 100);
    let in_shards: usize = (0..4).map(|i| table.shard_at(i).len()).sum();
    assert_eq!(in_shards, 100);
    assert!((0..4).all(|i| table.shard_at(i).len() < 100));
    for key in 0..100 {
        assert_eq!(table.get(&key), Some(&(key * 2)));
    }
    assert_eq!(table.iter_all().len(), 100);
}

#[test]
fn views_answer_by_key_and_by_value() {
    let mut view: View<u32, i32> = View::new();
    assert!(view.is_empty());
    view.insert_values(&vec![(1, 10), (2, 20), (3, 10), (4, 30)]);
    view.insert(2, 25);
    assert_eq!(view.len(), 4);
    assert_eq!(view.get_value(&2), Some(&25));
    assert_eq!(view.get_value(&9), None);
    assert_eq!(view.get_keys_by_value(&10).map(keys), Some(vec![1, 3]));
    assert!(view.get_keys_by_value(&20).is_none());
    assert_eq!(view.to_vec(), vec![(1, 10), (2, 25), (3, 10), (4, 30)]);
    let found: Vec<(i32, Vec<u32>)> = view
        .range_query(10..30)
        .iter()
        .map(|(value, found)| (*value, keys(found)))
        .collect();
    assert_eq!(found, vec![(10, vec![1, 3]), (25, vec![2])]);
    assert!(view.range_query(11..11).is_empty());
    assert_eq!(view.min_k(3), vec![(10, 1), (10, 3), (25, 2)]);
    assert_eq!(view.min_k(0), vec![]);
    assert_eq!(view.min_k(9).len(), 4);

    assert!(view.remove_by_key(&4));
    assert!(!view.remove_by_key(&4));
    view.remove_by_value(&10);
    assert_eq!(view.to_vec(), vec![(2, 25)]);
    assert!(View::<u32, i32>::default().is_empty());
}

#[test]
fn composite_views_answer_by_either_half() {
    let mut view: CompositeView<String, i32> = CompositeView::new();
    let key = |s: &str, u: &str| (s.to_string(), u.to_string());
    view.insert_values(vec![
        (key("a", "x"), 3),
        (key("a", "y"), 1),
        (key("b", "x"), 2),
    ]);
    // what is there stays as it is
    view.insert(key("a", "x"), 9);
    assert_eq!(view.len(), 3);
    let (a, b, x, y) = (
        "a".to_string(),
        "b".to_string(),
        "x".to_string(),
        "y".to_string(),
    );
    assert_eq!(view.get_value(&a, &x), Some(&3));
    assert_eq!(view.get_value(&b, &y), None);
    assert_eq!(
        view.get_keys_b(&a).map(keys),
        Some(vec![x.clone(), y.clone()])
    );
    assert_eq!(
        view.get_keys_a(&x).map(keys),
        Some(vec![a.clone(), b.clone()])
    );
    assert_eq!(
        view.get_by_key_s(&a),
        Some(vec![(key("a", "y"), 1), (key("a", "x"), 3)])
    );
    assert_eq!(
        view.get_by_key_u(&x),
        Some(vec![(key("a", "x"), 3), (key("b", "x"), 2)])
    );
    assert_eq!(view.query_a(&a), Some(vec![(&x, &3), (&y, &1)]));
    assert_eq!(view.query_b(&y), Some(vec![(&a, &1)]));
    assert_eq!(view.min_k(&a, 1), Some(vec![(1, y.clone())]));
    assert_eq!(
        view.min_k(&a, 5),
        Some(vec![(1, y.clone()), (3, x.clone())])
    );
    assert_eq!(view.min_k(&y, 5), None);
    assert_eq!(
        view.sorted_entries(),
        vec![
            (a.clone(), x.clone(), 3),
            (a.clone(), y.clone(), 1),
            (b.clone(), x.clone(), 2)
        ]
    );

    assert!(view.remove(&a, &y));
    assert!(!view.remove(&a, &y));
    assert_eq!(view.remove_by_key_u(&x), 2);
    assert!(view.is_empty());
    view.insert(key("a", "x"), 9);
    assert_eq!(view.remove_by_key_s(&a), 1);
    assert_eq!(view.remove_by_key_s(&a), 0);
    assert!(view.get_keys_a(&x).is_none());
}

#[test]
fn sorted_collections_keep_their_order() {
    let mut map: SortedMap<String, u8> = SortedMap::new();
    for (i, key) in ["b", "a", "c", "ab", ""].iter().enumerate() {
        assert_eq!(map.insert(key.to_string(), i as u8), None);
    }
    assert_eq!(map.insert("c".to_string(), 9), Some(2));
    let order: Vec<&str> = (0..map.len()).map(|i| map.entry(i).0.as_str()).collect();
    assert_eq!(order, vec!["", "a", "ab", "b", "c"]);
    assert_eq!(map.get(&"c".to_string()), Some(&9));
    assert_eq!(map.remove(&"ab".to_string()), Some(3));
    assert!(!map.contains_key(&"ab".to_string()));
    assert!(!map.is_empty());

    let mut pairs: SortedSet<(i32, &str)> = SortedSet::new();
    for pair in [(2, "a"), (-1, "z"), (2, "Z")] {
        assert!(pairs.insert(pair));
    }
    assert!(!pairs.insert((2, "a")));
    assert_eq!(keys(&pairs.duplicate()), vec![(-1, "z"), (2, "Z"), (2, "a")]);
    assert!(pairs.remove(&(2, "Z")));
    assert!(!pairs.contains(&(2, "Z")));

    let mut names: MultiMap<u32, String> = MultiMap::new();
    names.insert(1, "b".to_string());
    names.insert(1, "a".to_string());
    assert_eq!(
        names.get(&1).map(keys),
        Some(vec!["a".to_string(), "b".to_string()])
    );
    names.remove(&1, &"a".to_string());
    names.remove(&1, &"b".to_string());
    assert!(names.get(&1).is_none());
}
