use std::cmp::Ordering;
use std::path::{Path, PathBuf};

use sum_tree::{MapSeekTarget, TreeMultimap};

#[test]
fn test_basic() {
    let mut map = TreeMultimap::default();
    assert_eq!(map.iter().to_vec(), vec![]);

    map.insert(3, "c");
    assert_eq!(map.get(&3).next(), Some(&"c"));
    assert_eq!(map.iter().to_vec(), vec![(&3, &"c")]);

    map.insert(1, "a");
    assert_eq!(map.get(&1).next(), Some(&"a"));
    assert_eq!(map.iter().to_vec(), vec![(&1, &"a"), (&3, &"c")]);

    map.insert(2, "b");
    assert_eq!(map.get(&2).next(), Some(&"b"));
    assert_eq!(map.get(&1).next(), Some(&"a"));
    assert_eq!(map.get(&3).next(), Some(&"c"));
    assert_eq!(
        map.iter().to_vec(),
        vec![(&1, &"a"), (&2, &"b"), (&3, &"c")]
    );

    assert_eq!(map.closest(&0), None);
    assert_eq!(map.closest(&1), Some((&1, &"a")));
    assert_eq!(map.closest(&10), Some((&3, &"c")));

    map.remove(&2);
    assert_eq!(map.get(&2).next(), None);
    assert_eq!(map.iter().to_vec(), vec![(&1, &"a"), (&3, &"c")]);

    assert_eq!(map.closest(&2), Some((&1, &"a")));

    map.remove(&3);
    assert_eq!(map.get(&3).next(), None);
    assert_eq!(map.iter().to_vec(), vec![(&1, &"a")]);

    map.remove(&1);
    assert_eq!(map.get(&1).next(), None);
    assert_eq!(map.iter().to_vec(), vec![]);

    map.insert(4, "d");
    map.insert(5, "e");
    map.insert(6, "f");
    map.retain(|key, _| *key % 2 == 0);
    assert_eq!(map.iter().to_vec(), vec![(&4, &"d"), (&6, &"f")]);
}

#[test]
fn test_iter_from() {
    let mut map = TreeMultimap::default();

    map.insert("a", 1);
    map.insert("b", 2);
    map.insert("baa", 3);
    map.insert("baaab", 4);
    map.insert("c", 5);

    let mut entries = map.iter_from(&"ba");
    let result = std::iter::from_fn(|| entries.next())
        .take_while(|(key, _)| key.starts_with(&"ba"))
        .collect::<Vec<_>>();

    assert_eq!(result.len(), 2);
    assert!(result.iter().find(|(k, _)| k == &&"baa").is_some());
    assert!(result.iter().find(|(k, _)| k == &&"baaab").is_some());

    let mut entries = map.iter_from(&"c");
    let result = std::iter::from_fn(|| entries.next())
        .take_while(|(key, _)| key.starts_with(&"c"))
        .collect::<Vec<_>>();

    assert_eq!(result.len(), 1);
    assert!(result.iter().find(|(k, _)| k == &&"c").is_some());
}

#[test]
fn test_insert_tree() {
    let mut map = TreeMultimap::default();
    map.insert("a", 1);
    map.insert("b", 2);
    map.insert("c", 3);

    let mut other = TreeMultimap::default();
    other.insert("a", 2);
    other.insert("b", 2);
    other.insert("d", 4);

    map.insert_tree(other);

    assert_eq!(map.iter().to_vec().len(), 4);
    assert_eq!(map.get(&"a").next(), Some(&2));
    assert_eq!(map.get(&"b").next(), Some(&2));
    assert_eq!(map.get(&"c").next(), Some(&3));
    assert_eq!(map.get(&"d").next(), Some(&4));
}

#[derive(Debug)]
pub struct PathDescendants<'a>(&'a Path);

impl MapSeekTarget<PathBuf> for PathDescendants<'_> {
    fn cmp_cursor(&self, key: &PathBuf) -> Ordering {
        if key.starts_with(&self.0) {
            Ordering::Greater
        } else {
            self.0.cmp(key)
        }
    }
}

#[test]
fn test_remove_between_and_path_successor() {
    let mut map = TreeMultimap::default();

    map.insert(PathBuf::from("a"), 1);
    map.insert(PathBuf::from("a/a"), 1);
    map.insert(PathBuf::from("b"), 2);
    map.insert(PathBuf::from("b/a/a"), 3);
    map.insert(PathBuf::from("b/a/a/a/b"), 4);
    map.insert(PathBuf::from("c"), 5);
    map.insert(PathBuf::from("c/a"), 6);

    map.remove_range(
        &PathBuf::from("b/a"),
        &PathDescendants(&PathBuf::from("b/a")),
    );

    assert_eq!(map.get(&PathBuf::from("a")).next(), Some(&1));
    assert_eq!(map.get(&PathBuf::from("a/a")).next(), Some(&1));
    assert_eq!(map.get(&PathBuf::from("b")).next(), Some(&2));
    assert_eq!(map.get(&PathBuf::from("b/a/a")).next(), None);
    assert_eq!(map.get(&PathBuf::from("b/a/a/a/b")).next(), None);
    assert_eq!(map.get(&PathBuf::from("c")).next(), Some(&5));
    assert_eq!(map.get(&PathBuf::from("c/a")).next(), Some(&6));

    map.remove_range(&PathBuf::from("c"), &PathDescendants(&PathBuf::from("c")));

    assert_eq!(map.get(&PathBuf::from("a")).next(), Some(&1));
    assert_eq!(map.get(&PathBuf::from("a/a")).next(), Some(&1));
    assert_eq!(map.get(&PathBuf::from("b")).next(), Some(&2));
    assert_eq!(map.get(&PathBuf::from("c")).next(), None);
    assert_eq!(map.get(&PathBuf::from("c/a")).next(), None);

    map.remove_range(&PathBuf::from("a"), &PathDescendants(&PathBuf::from("a")));

    assert_eq!(map.get(&PathBuf::from("a")).next(), None);
    assert_eq!(map.get(&PathBuf::from("a/a")).next(), None);
    assert_eq!(map.get(&PathBuf::from("b")).next(), Some(&2));

    map.remove_range(&PathBuf::from("b"), &PathDescendants(&PathBuf::from("b")));

    assert_eq!(map.get(&PathBuf::from("b")).next(), None);
}
