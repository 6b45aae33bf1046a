use std::collections::BTreeMap;
use std::fmt::Debug;

use sum_tree::{
    Bound, Dimension, Edit, Item, KeyedItem, MapEntry, MapKey, MapKeyRef, MultimapKey, Node, SumTree,
    Summary, TreeMultimap, TREE_BASE, TREE_MAX,
};

#[derive(Clone, Debug, PartialEq, Eq)]
struct Tagged {
    tag: u32,
    text: &'static str,
}

impl KeyedItem for Tagged {
    type Key = u32;

    fn key(&self) -> u32 {
        self.tag
    }
}

fn tagged(tag: u32, text: &'static str) -> Tagged {
    Tagged { tag, text }
}

fn pairs<K: Ord + Clone + Debug + Default, V: KeyedItem + Clone>(map: &TreeMultimap<K, V>) -> Vec<(K, V)> {
    map.iter()
        .to_vec()
        .into_iter()
        .map(|(k, v)| (k.clone(), v.clone()))
        .collect()
}

fn depth_of<K: Ord + Clone + Debug + Default, V: KeyedItem>(
    node: &Node<MapEntry<K, V>>,
    root: bool,
) -> usize {
    match node {
        Node::Leaf {
            items,
            item_summaries,
            ..
        } => {
            assert_eq!(items.len(), item_summaries.len());
            assert!(items.len() <= TREE_MAX);
            assert!(root || items.len() >= TREE_BASE);
            0
        }
        Node::Internal {
            height,
            child_summaries,
            child_trees,
            ..
        } => {
            assert_eq!(child_trees.len(), child_summaries.len());
            assert!(child_trees.len() <= TREE_MAX);
            assert!(child_trees.len() >= if root { 2 } else { TREE_BASE });
            let depths: Vec<usize> = child_trees.iter().map(|c| depth_of(c, false)).collect();
            for d in &depths {
                assert_eq!(*d + 1, *height as usize);
            }
            *height as usize
        }
    }
}

fn last_key<K: Ord + Clone + Debug + Default, V: KeyedItem>(node: &Node<MapEntry<K, V>>) -> Option<&K> {
    match node {
        Node::Leaf { items, .. } => items.last().map(|e| &e.key),
        Node::Internal { child_trees, .. } => child_trees.last().and_then(last_key),
    }
}

fn check_summaries<K: Ord + Clone + Debug + Default, V: KeyedItem>(
    node: &Node<MapEntry<K, V>>,
) {
    match node {
        Node::Leaf {
            summary,
            items,
            item_summaries,
        } => {
            for (item, cached) in items.iter().zip(item_summaries.iter()) {
                assert_eq!(Some(&item.key), cached.0.as_ref().map(|pair| &pair.0));
            }
            assert_eq!(items.last().map(|last| &last.key), summary.0.as_ref().map(|pair| &pair.0));
        }
        Node::Internal {
            summary,
            child_summaries,
            child_trees,
            ..
        } => {
            for (child, cached) in child_trees.iter().zip(child_summaries.iter()) {
                assert_eq!(last_key(child), cached.0.as_ref().map(|pair| &pair.0));
                check_summaries(child);
            }
            assert_eq!(last_key(node), summary.0.as_ref().map(|pair| &pair.0));
        }
    }
}

fn check_shape<K: Ord + Clone + Debug + Default, V: KeyedItem>(map: &TreeMultimap<K, V>) {
    depth_of(&map.0.root, true);
    check_summaries(&map.0.root);
}

#[test]
fn test_empty_map() {
    let mut map: TreeMultimap<u64, u64> = TreeMultimap::default();
    assert!(map.is_empty());
    assert_eq!(map.iter().to_vec(), vec![]);
    assert_eq!(map.values().to_vec(), Vec::<&u64>::new());
    assert_eq!(map.get(&1).next(), None);
    assert!(!map.contains_key(&1));
    assert_eq!(map.closest(&5), None);
    assert_eq!(map.remove(&9), None);
    assert!(map.is_empty());
}

#[test]
fn test_new_is_empty() {
    let map: TreeMultimap<i32, &str> = TreeMultimap::new();
    assert!(map.is_empty());
    let mut map = map;
    map.insert(1, "a");
    assert!(!map.is_empty());
}

#[test]
fn test_insert_orders_by_outer_then_inner_key() {
    let mut map = TreeMultimap::default();
    map.insert(2, tagged(1, "c"));
    map.insert(1, tagged(9, "b"));
    map.insert(1, tagged(3, "a"));
    map.insert(2, tagged(0, "d"));
    assert_eq!(
        pairs(&map),
        vec![
            (1, tagged(3, "a")),
            (1, tagged(9, "b")),
            (2, tagged(0, "d")),
            (2, tagged(1, "c")),
        ]
    );
}

#[test]
fn test_insert_replaces_same_composite_key() {
    let mut map = TreeMultimap::default();
    map.insert(1, tagged(1, "a"));
    map.insert(1, tagged(2, "b"));
    map.insert(1, tagged(1, "c"));
    assert_eq!(pairs(&map), vec![(1, tagged(1, "c")), (1, tagged(2, "b"))]);
}

#[test]
fn test_insert_twice_is_insert_once() {
    let mut once = TreeMultimap::default();
    let mut twice = TreeMultimap::default();
    for k in [5, 1, 9, 3] {
        once.insert(k, tagged(7, "x"));
        twice.insert(k, tagged(7, "x"));
    }
    once.insert(3, tagged(8, "y"));
    twice.insert(3, tagged(8, "y"));
    twice.insert(3, tagged(8, "y"));
    assert_eq!(pairs(&once), pairs(&twice));
    assert_eq!(pairs(&twice).len(), 5);
}

#[test]
fn test_numbers_as_values_share_one_key() {
    let mut map = TreeMultimap::default();
    map.insert("a", 1u64);
    map.insert("a", 2u64);
    assert_eq!(map.iter().to_vec(), vec![(&"a", &2u64)]);
}

#[test]
fn test_get_yields_values_of_one_outer_key() {
    let mut map = TreeMultimap::default();
    map.insert(1, tagged(5, "e"));
    map.insert(2, tagged(2, "b"));
    map.insert(2, tagged(1, "a"));
    map.insert(2, tagged(3, "c"));
    map.insert(3, tagged(0, "z"));
    let mut values = map.get(&2);
    assert_eq!(values.next(), Some(&tagged(1, "a")));
    assert_eq!(values.next(), Some(&tagged(2, "b")));
    assert_eq!(values.next(), Some(&tagged(3, "c")));
    assert_eq!(values.next(), None);
    assert_eq!(values.next(), None);
    assert_eq!(map.get(&4).to_vec(), Vec::<&Tagged>::new());
    assert_eq!(map.get(&0).to_vec(), Vec::<&Tagged>::new());
    assert_eq!(map.get(&1).to_vec(), vec![&tagged(5, "e")]);
}

#[test]
fn test_contains_key() {
    let mut map = TreeMultimap::default();
    map.insert(10, "x");
    map.insert(20, "y");
    assert!(map.contains_key(&10));
    assert!(map.contains_key(&20));
    assert!(!map.contains_key(&15));
    assert!(!map.contains_key(&5));
    assert!(!map.contains_key(&25));
}

#[test]
fn test_remove_takes_one_entry_with_least_inner_key() {
    let mut map = TreeMultimap::default();
    map.insert(1, tagged(2, "b"));
    map.insert(1, tagged(1, "a"));
    map.insert(1, tagged(3, "c"));
    map.insert(2, tagged(0, "z"));
    assert_eq!(map.remove(&1), Some(tagged(1, "a")));
    assert_eq!(
        pairs(&map),
        vec![(1, tagged(2, "b")), (1, tagged(3, "c")), (2, tagged(0, "z"))]
    );
    assert_eq!(map.remove(&1), Some(tagged(2, "b")));
    assert_eq!(map.remove(&1), Some(tagged(3, "c")));
    assert_eq!(map.remove(&1), None);
    assert_eq!(pairs(&map), vec![(2, tagged(0, "z"))]);
}

#[test]
fn test_remove_absent_key_changes_nothing() {
    let mut map = TreeMultimap::default();
    map.insert(1, "a");
    map.insert(3, "c");
    assert_eq!(map.remove(&9), None);
    assert_eq!(map.remove(&2), None);
    assert_eq!(map.remove(&0), None);
    assert_eq!(map.iter().to_vec(), vec![(&1, &"a"), (&3, &"c")]);
}

#[test]
fn test_closest_is_floor() {
    let mut map = TreeMultimap::default();
    map.insert(10, tagged(1, "a"));
    map.insert(10, tagged(2, "b"));
    map.insert(20, tagged(1, "c"));
    assert_eq!(map.closest(&9), None);
    assert_eq!(map.closest(&10), Some((&10, &tagged(2, "b"))));
    assert_eq!(map.closest(&15), Some((&10, &tagged(2, "b"))));
    assert_eq!(map.closest(&20), Some((&20, &tagged(1, "c"))));
    assert_eq!(map.closest(&99), Some((&20, &tagged(1, "c"))));
}

#[test]
fn test_range_honours_both_bounds() {
    let mut map = TreeMultimap::default();
    for k in 1..=10 {
        map.insert(k, "v");
    }
    let keys = |start: Bound<&i32>, end: Bound<&i32>| -> Vec<i32> {
        map.range(start, end)
            .to_vec()
            .into_iter()
            .map(|(k, _)| *k)
            .collect()
    };
    assert_eq!(keys(Bound::Included(&3), Bound::Included(&6)), vec![3, 4, 5, 6]);
    assert_eq!(keys(Bound::Included(&3), Bound::Excluded(&6)), vec![3, 4, 5]);
    assert_eq!(keys(Bound::Excluded(&3), Bound::Included(&6)), vec![4, 5, 6]);
    assert_eq!(keys(Bound::Excluded(&3), Bound::Excluded(&6)), vec![4, 5]);
    assert_eq!(keys(Bound::Unbounded, Bound::Excluded(&3)), vec![1, 2]);
    assert_eq!(keys(Bound::Included(&9), Bound::Unbounded), vec![9, 10]);
    assert_eq!(
        keys(Bound::Unbounded, Bound::Unbounded),
        (1..=10).collect::<Vec<_>>()
    );
    assert_eq!(keys(Bound::Included(&6), Bound::Included(&3)), Vec::<i32>::new());
    assert_eq!(keys(Bound::Excluded(&4), Bound::Excluded(&5)), Vec::<i32>::new());
    assert_eq!(keys(Bound::Included(&11), Bound::Unbounded), Vec::<i32>::new());
    assert_eq!(keys(Bound::Included(&0), Bound::Included(&1)), vec![1]);
}

#[test]
fn test_range_holds_every_value_of_a_boundary_key() {
    let mut map = TreeMultimap::default();
    map.insert(1, tagged(1, "a"));
    map.insert(2, tagged(1, "b"));
    map.insert(2, tagged(2, "c"));
    map.insert(3, tagged(1, "d"));
    let got: Vec<(i32, u32)> = map
        .range(Bound::Included(&2), Bound::Included(&2))
        .to_vec()
        .into_iter()
        .map(|(k, v)| (*k, v.tag))
        .collect();
    assert_eq!(got, vec![(2, 1), (2, 2)]);
    let got: Vec<(i32, u32)> = map
        .range(Bound::Excluded(&2), Bound::Unbounded)
        .to_vec()
        .into_iter()
        .map(|(k, v)| (*k, v.tag))
        .collect();
    assert_eq!(got, vec![(3, 1)]);
}

#[test]
fn test_iter_from_starts_at_first_key_not_below() {
    let mut map = TreeMultimap::default();
    for k in [2, 4, 6, 8] {
        map.insert(k, "v");
    }
    let from = |k: i32| -> Vec<i32> {
        let k = k;
        map.iter_from(&k).to_vec().into_iter().map(|(k, _)| *k).collect()
    };
    assert_eq!(from(0), vec![2, 4, 6, 8]);
    assert_eq!(from(4), vec![4, 6, 8]);
    assert_eq!(from(5), vec![6, 8]);
    assert_eq!(from(9), Vec::<i32>::new());
}

#[test]
fn test_values_in_entry_order() {
    let mut map = TreeMultimap::default();
    map.insert(3, "c");
    map.insert(1, "a");
    map.insert(2, "b");
    assert_eq!(map.values().to_vec(), vec![&"a", &"b", &"c"]);
    let mut values = map.values();
    assert_eq!(values.next(), Some(&"a"));
    assert_eq!(values.next(), Some(&"b"));
    assert_eq!(values.next(), Some(&"c"));
    assert_eq!(values.next(), None);
}

#[test]
fn test_update_changes_first_entry_of_key() {
    let mut map = TreeMultimap::default();
    map.insert(1, tagged(1, "a"));
    map.insert(1, tagged(2, "b"));
    map.insert(2, tagged(1, "c"));
    let old = map.update(&1, |v| {
        let old = v.text;
        v.text = "changed";
        old
    });
    assert_eq!(old, Some("a"));
    assert_eq!(
        pairs(&map),
        vec![
            (1, tagged(1, "changed")),
            (1, tagged(2, "b")),
            (2, tagged(1, "c")),
        ]
    );
    assert_eq!(map.update(&7, |v| v.tag), None);
    assert_eq!(pairs(&map).len(), 3);
}

#[test]
fn test_retain_keeps_order() {
    let mut map = TreeMultimap::default();
    map.insert(4, "d");
    map.insert(5, "e");
    map.insert(6, "f");
    map.retain(|k, _| k % 2 == 0);
    assert_eq!(map.iter().to_vec(), vec![(&4, &"d"), (&6, &"f")]);
    map.retain(|_, _| false);
    assert!(map.is_empty());
}

#[test]
fn test_insert_tree_replaces_and_appends() {
    let mut map = TreeMultimap::default();
    map.insert(1, tagged(1, "a"));
    map.insert(1, tagged(2, "b"));
    map.insert(3, tagged(1, "c"));
    let mut other = TreeMultimap::default();
    other.insert(1, tagged(2, "B"));
    other.insert(2, tagged(1, "x"));
    other.insert(4, tagged(1, "y"));
    map.insert_tree(other);
    assert_eq!(
        pairs(&map),
        vec![
            (1, tagged(1, "a")),
            (1, tagged(2, "B")),
            (2, tagged(1, "x")),
            (3, tagged(1, "c")),
            (4, tagged(1, "y")),
        ]
    );
}

#[test]
fn test_from_ordered_entries_round_trip() {
    let mut map = TreeMultimap::default();
    for k in 0..100 {
        map.insert((k * 37) % 101, tagged(k, "t"));
    }
    let entries = pairs(&map);
    let rebuilt = TreeMultimap::from_ordered_entries(entries.clone());
    assert_eq!(pairs(&rebuilt), entries);
    check_shape(&rebuilt);
    let empty: TreeMultimap<i32, Tagged> = TreeMultimap::from_ordered_entries(Vec::new());
    assert!(empty.is_empty());
}

#[test]
fn test_remove_range_between_keys_is_half_open() {
    let mut map = TreeMultimap::default();
    for k in 0..50 {
        map.insert(k, tagged(0, "t"));
        map.insert(k, tagged(1, "u"));
    }
    map.remove_range(&10, &20);
    let keys: Vec<i32> = map.iter().to_vec().into_iter().map(|(k, _)| *k).collect();
    let expected: Vec<i32> = (0..50)
        .filter(|k| !(10 <= *k && *k < 20))
        .flat_map(|k| [k, k])
        .collect();
    assert_eq!(keys, expected);
    check_shape(&map);
    map.remove_range(&30, &30);
    assert_eq!(map.iter().to_vec().len(), expected.len());
    map.remove_range(&40, &35);
    assert_eq!(map.iter().to_vec().len(), expected.len());
    map.remove_range(&45, &1000);
    assert_eq!(map.closest(&1000).map(|(k, _)| *k), Some(44));
    map.remove_range(&-5, &3);
    assert_eq!(map.iter().next().map(|(k, _)| *k), Some(3));
}

#[test]
fn test_large_map_keeps_its_shape() {
    let mut map = TreeMultimap::default();
    let n: i64 = 5000;
    for i in 0..n {
        map.insert((i * 7919) % n, tagged(0, "t"));
        if i % 500 == 0 {
            check_shape(&map);
        }
    }
    check_shape(&map);
    let keys: Vec<i64> = map.iter().to_vec().into_iter().map(|(k, _)| *k).collect();
    assert_eq!(keys, (0..n).collect::<Vec<_>>());
    for i in 0..n {
        if i % 3 != 0 {
            assert_eq!(map.remove(&i), Some(tagged(0, "t")));
        }
    }
    check_shape(&map);
    let keys: Vec<i64> = map.iter().to_vec().into_iter().map(|(k, _)| *k).collect();
    assert_eq!(keys, (0..n).filter(|i| i % 3 == 0).collect::<Vec<_>>());
    assert_eq!(map.closest(&4), Some((&3, &tagged(0, "t"))));
    assert_eq!(map.get(&4).next(), None);
    assert_eq!(map.get(&6).next(), Some(&tagged(0, "t")));
}

struct Lcg(u64);

impl Lcg {
    fn next(&mut self, bound: u64) -> u64 {
        self.0 = self
            .0
            .wrapping_mul(6364136223846793005)
            .wrapping_add(1442695040888963407);
        (self.0 >> 33) % bound
    }
}

fn reference(model: &BTreeMap<(i64, u32), Tagged>) -> Vec<(i64, Tagged)> {
    model.iter().map(|((k, _), v)| (*k, v.clone())).collect()
}

#[test]
fn test_matches_reference_ordered_map() {
    let mut rng = Lcg(42);
    let mut map: TreeMultimap<i64, Tagged> = TreeMultimap::default();
    let mut model: BTreeMap<(i64, u32), Tagged> = BTreeMap::new();
    for step in 0..4000 {
        let key = rng.next(60) as i64;
        let tag = rng.next(4) as u32;
        match rng.next(9) {
            0..=3 => {
                map.insert(key, tagged(tag, "i"));
                model.insert((key, tag), tagged(tag, "i"));
            }
            4 => {
                let first = model.range((key, 0)..=(key, u32::MAX)).next().map(|(k, _)| *k);
                let expected = first.and_then(|k| model.remove(&k));
                assert_eq!(map.remove(&key), expected);
            }
            5 => {
                let first = model.range((key, 0)..=(key, u32::MAX)).next().map(|(k, _)| *k);
                let expected = first.map(|k| {
                    let v = model.get_mut(&k).unwrap();
                    v.text = "u";
                    v.tag
                });
                let got = map.update(&key, |v| {
                    v.text = "u";
                    v.tag
                });
                assert_eq!(got, expected);
            }
            6 => {
                let end = key + rng.next(10) as i64;
                map.remove_range(&key, &end);
                model.retain(|(k, _), _| !(key <= *k && *k < end));
            }
            7 => {
                if step % 5 == 0 {
                    map.retain(|k, v| (*k + v.tag as i64) % 3 != 0);
                    model.retain(|(k, _), v| (*k + v.tag as i64) % 3 != 0);
                }
            }
            _ => {
                let mut other = TreeMultimap::default();
                for _ in 0..rng.next(6) {
                    let k = rng.next(60) as i64;
                    let t = rng.next(4) as u32;
                    other.insert(k, tagged(t, "m"));
                }
                for (k, v) in pairs(&other) {
                    model.insert((k, v.tag), v);
                }
                map.insert_tree(other);
            }
        }
        if step % 97 == 0 {
            assert_eq!(pairs(&map), reference(&model));
            check_shape(&map);
        }
        let probe = rng.next(60) as i64;
        let expected: Vec<Tagged> = model
            .range((probe, 0)..=(probe, u32::MAX))
            .map(|(_, v)| v.clone())
            .collect();
        let got: Vec<Tagged> = map.get(&probe).to_vec().into_iter().cloned().collect();
        assert_eq!(got, expected);
        let floor = model
            .range(..=(probe, u32::MAX))
            .next_back()
            .map(|((k, _), v)| (*k, v.clone()));
        assert_eq!(map.closest(&probe).map(|(k, v)| (*k, v.clone())), floor);
    }
    assert_eq!(pairs(&map), reference(&model));
    check_shape(&map);
}

#[test]
fn test_tree_from_items_and_into_vec() {
    let entries: Vec<MapEntry<i32, Tagged>> = (0..300)
        .map(|k| MapEntry {
            key: k,
            value: tagged(0, "t"),
        })
        .collect();
    let tree = SumTree::from_items(entries);
    assert!(!tree.is_empty());
    assert_eq!(tree.first().map(|e| e.key), Some(0));
    assert_eq!(tree.summary(), &MultimapKey::of(299, 0));
    let back = tree.into_vec();
    assert_eq!(back.iter().map(|e| e.key).collect::<Vec<_>>(), (0..300).collect::<Vec<_>>());
}

fn entry(key: i32, tag: u32, text: &'static str) -> MapEntry<i32, Tagged> {
    MapEntry {
        key,
        value: tagged(tag, text),
    }
}

fn listed(tree: SumTree<MapEntry<i32, Tagged>>) -> Vec<(i32, u32, &'static str)> {
    tree.into_vec()
        .into_iter()
        .map(|e| (e.key, e.value.tag, e.value.text))
        .collect()
}

#[test]
fn test_insert_or_replace_on_tree() {
    let mut tree = SumTree::new();
    tree.insert_or_replace(entry(2, 1, "b"));
    tree.insert_or_replace(entry(1, 1, "a"));
    tree.insert_or_replace(entry(2, 0, "c"));
    tree.insert_or_replace(entry(2, 1, "d"));
    assert_eq!(listed(tree), vec![(1, 1, "a"), (2, 0, "c"), (2, 1, "d")]);
}

#[test]
fn test_remove_key_on_tree() {
    let mut tree = SumTree::new();
    for k in 0..40 {
        tree.insert_or_replace(entry(k, 0, "x"));
        tree.insert_or_replace(entry(k, 1, "y"));
    }
    tree.remove_key(&MultimapKey::of(7, 1));
    tree.remove_key(&MultimapKey::of(7, 5));
    tree.remove_key(&MultimapKey::of(99, 0));
    tree.remove_key(&MultimapKey::of(0, 0));
    let got = listed(tree);
    assert_eq!(got.len(), 78);
    assert_eq!(got[0], (0, 1, "y"));
    assert!(got.contains(&(7, 0, "x")));
    assert!(!got.contains(&(7, 1, "y")));
}

#[test]
fn test_edit_applies_inserts_and_removes_in_order() {
    let mut tree = SumTree::new();
    tree.insert_or_replace(entry(1, 0, "a"));
    tree.insert_or_replace(entry(2, 0, "b"));
    tree.insert_or_replace(entry(3, 0, "c"));
    tree.edit(vec![
        Edit::Insert(entry(4, 0, "d")),
        Edit::Remove(MultimapKey::of(2, 0)),
        Edit::Insert(entry(1, 0, "A")),
        Edit::Insert(entry(2, 1, "e")),
        Edit::Remove(MultimapKey::of(4, 0)),
        Edit::Remove(MultimapKey::of(9, 9)),
    ]);
    assert_eq!(listed(tree), vec![(1, 0, "A"), (2, 1, "e"), (3, 0, "c")]);
    let mut tree: SumTree<MapEntry<i32, Tagged>> = SumTree::new();
    tree.edit(Vec::new());
    assert!(tree.is_empty());
}

#[test]
fn test_clone_is_a_copy_of_its_own() {
    let mut map = TreeMultimap::default();
    for k in 0..100 {
        map.insert(k, tagged(k as u32 % 3, "t"));
    }
    let copy = map.clone();
    check_shape(&copy);
    assert_eq!(pairs(&copy), pairs(&map));
    map.remove(&5);
    map.insert(200, tagged(0, "n"));
    assert_eq!(pairs(&copy).len(), 100);
    assert_eq!(copy.get(&5).next(), Some(&tagged(2, "t")));
    assert_eq!(copy.get(&200).next(), None);
    assert_eq!(map.get(&5).next(), None);
}

#[test]
fn test_zero_summary_is_the_identity() {
    let zero = MultimapKey::<u32, u8>::zero();
    assert_eq!(zero, MultimapKey::default());
    let mut acc = MultimapKey::of(5u32, 0u8);
    acc.add_summary(&zero);
    assert_eq!(acc, MultimapKey::of(5, 0));
    let mut acc = MultimapKey::<u32, u8>::zero();
    acc.add_summary(&MultimapKey::of(5, 0));
    assert_eq!(acc, MultimapKey::of(5, 0));
    let mut acc = MultimapKey::of(5u32, 0u8);
    acc.add_summary(&MultimapKey::of(0, 0));
    assert_eq!(acc, MultimapKey::of(0, 0));
    let mut acc = MultimapKey::<u32, u8>::zero();
    acc.add_summary(&MultimapKey::zero());
    assert_eq!(acc, MultimapKey::zero());

    let zero = MapKey::<u32>::zero();
    assert_eq!(zero, MapKey::default());
    let mut acc = MapKey(Some(7u32));
    acc.add_summary(&zero);
    assert_eq!(acc, MapKey(Some(7)));
    let mut acc = MapKey::<u32>::zero();
    acc.add_summary(&MapKey(Some(7)));
    assert_eq!(acc, MapKey(Some(7)));
}

#[test]
fn test_zero_summary_does_not_move_a_coordinate() {
    let zero = MultimapKey::<u32, u8>::zero();
    let seven = MultimapKey::of(7u32, 1u8);
    let mut at = <MapKeyRef<u32> as Dimension<MultimapKey<u32, u8>>>::zero();
    assert_eq!(at.0, None);
    at.add_summary(&zero);
    assert_eq!(at.0, None);
    at.add_summary(&seven);
    assert_eq!(at.0, Some(&7));
    at.add_summary(&zero);
    assert_eq!(at.0, Some(&7));
}

#[test]
fn test_summary_of_an_entry_is_its_composite_key() {
    let e = entry(3, 9, "x");
    assert_eq!(e.summary(), MultimapKey::of(3, 9));
    assert_eq!(e.key(), MultimapKey::of(3, 9));
    let empty: SumTree<MapEntry<i32, Tagged>> = SumTree::new();
    assert_eq!(empty.summary(), &MultimapKey::zero());
}

#[test]
fn test_to_btree_map_keeps_the_last_value_of_an_outer_key() {
    let mut map = TreeMultimap::default();
    map.insert(1, tagged(1, "a"));
    map.insert(1, tagged(2, "b"));
    map.insert(2, tagged(5, "c"));
    map.insert(3, tagged(0, "d"));
    map.insert(3, tagged(9, "e"));
    let b = map.to_btree_map();
    let got: Vec<(i32, Tagged)> = b.into_iter().collect();
    assert_eq!(
        got,
        vec![(1, tagged(2, "b")), (2, tagged(5, "c")), (3, tagged(9, "e"))]
    );
    let empty: TreeMultimap<i32, Tagged> = TreeMultimap::default();
    assert!(empty.to_btree_map().is_empty());
}

#[test]
fn test_from_btree_map_and_back() {
    let mut b = BTreeMap::new();
    for k in 0..200 {
        b.insert((k * 37) % 211, tagged(k as u32, "v"));
    }
    let map = TreeMultimap::from_btree_map(&b);
    check_shape(&map);
    let expected: Vec<(i32, Tagged)> = b.iter().map(|(k, v)| (*k, v.clone())).collect();
    assert_eq!(pairs(&map), expected);
    assert_eq!(map.to_btree_map(), b);
    let none: BTreeMap<i32, Tagged> = BTreeMap::new();
    assert!(TreeMultimap::from_btree_map(&none).is_empty());
}

#[test]
fn test_debug_shows_the_entries() {
    let mut map = TreeMultimap::default();
    map.insert(7, "seven");
    let shown = format!("{:?}", map);
    assert!(shown.contains("seven"));
    assert!(shown.contains("7"));
}
