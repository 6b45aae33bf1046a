use std::cmp::Ordering;

use sum_tree::{Bias, Cursor, Dimension, Item, Node, SeekTarget, SumTree, Summary, TREE_BASE, TREE_MAX};

#[derive(Clone, Debug, PartialEq, Eq)]
struct Total {
    count: usize,
    sum: u64,
}

impl Summary for Total {
    fn zero() -> Self {
        Total { count: 0, sum: 0 }
    }

    fn add_summary(&mut self, other: &Self) {
        self.count += other.count;
        self.sum += other.sum;
    }
}

#[derive(Clone, Debug, PartialEq, Eq)]
struct Weight(u64);

impl Item for Weight {
    type Summary = Total;

    fn summary(&self) -> Total {
        Total {
            count: 1,
            sum: self.0,
        }
    }
}

#[derive(Clone, Debug, PartialEq, Eq)]
struct Count(usize);

impl<'a> Dimension<'a, Total> for Count {
    fn zero() -> Self {
        Count(0)
    }

    fn add_summary(&mut self, summary: &'a Total) {
        self.0 += summary.count;
    }
}

#[derive(Clone, Debug, PartialEq, Eq)]
struct Sum(u64);

impl<'a> Dimension<'a, Total> for Sum {
    fn zero() -> Self {
        Sum(0)
    }

    fn add_summary(&mut self, summary: &'a Total) {
        self.0 += summary.sum;
    }
}

struct AtCount(usize);

impl<'a> SeekTarget<'a, Total, Count> for AtCount {
    fn cmp(&self, cursor_location: &Count) -> Ordering {
        self.0.cmp(&cursor_location.0)
    }
}

struct AtSum(u64);

impl<'a> SeekTarget<'a, Total, Sum> for AtSum {
    fn cmp(&self, cursor_location: &Sum) -> Ordering {
        self.0.cmp(&cursor_location.0)
    }
}

fn weights(range: std::ops::Range<u64>) -> Vec<Weight> {
    range.map(Weight).collect()
}

fn tree_of(range: std::ops::Range<u64>) -> SumTree<Weight> {
    SumTree::from_items(weights(range))
}

fn check_node(node: &Node<Weight>, root: bool) -> (usize, Total) {
    match node {
        Node::Leaf {
            summary,
            items,
            item_summaries,
        } => {
            assert!(items.len() <= TREE_MAX);
            assert!(root || items.len() >= TREE_BASE);
            let mut total = Total::zero();
            for (item, cached) in items.iter().zip(item_summaries.iter()) {
                assert_eq!(&item.summary(), cached);
                total.add_summary(cached);
            }
            if !items.is_empty() {
                assert_eq!(summary, &total);
            }
            (0, total)
        }
        Node::Internal {
            height,
            summary,
            child_summaries,
            child_trees,
        } => {
            assert!(child_trees.len() <= TREE_MAX);
            assert!(child_trees.len() >= if root { 2 } else { TREE_BASE });
            let mut total = Total::zero();
            for (child, cached) in child_trees.iter().zip(child_summaries.iter()) {
                let (depth, below) = check_node(child, false);
                assert_eq!(depth + 1, *height as usize);
                assert_eq!(&below, cached);
                total.add_summary(&below);
            }
            assert_eq!(summary, &total);
            (*height as usize, total)
        }
    }
}

#[test]
fn test_push_and_summary() {
    let mut tree = SumTree::new();
    assert!(tree.is_empty());
    for w in 1..=100u64 {
        tree.push(Weight(w));
        check_node(&tree.root, true);
    }
    assert_eq!(
        tree.summary(),
        &Total {
            count: 100,
            sum: 5050
        }
    );
    assert_eq!(tree.into_vec(), weights(1..101));
}

#[test]
fn test_from_item() {
    let tree = SumTree::from_item(Weight(7));
    assert_eq!(tree.summary(), &Total { count: 1, sum: 7 });
    assert_eq!(tree.first(), Some(&Weight(7)));
    assert_eq!(tree.into_single(), Weight(7));
}

#[test]
fn test_append_trees_of_every_height() {
    for left in [0u64, 1, 5, 16, 17, 40, 200, 300, 3000] {
        for right in [0u64, 1, 7, 16, 33, 129, 257, 2500] {
            let mut tree = tree_of(0..left);
            tree.append(tree_of(left..left + right));
            let (_, total) = check_node(&tree.root, true);
            assert_eq!(total.count as u64, left + right);
            assert_eq!(tree.into_vec(), weights(0..left + right));
        }
    }
}

#[test]
fn test_join_is_append() {
    let joined = SumTree::join(tree_of(0..50), tree_of(50..60));
    check_node(&joined.root, true);
    assert_eq!(joined.into_vec(), weights(0..60));
}

#[test]
fn test_split_first() {
    let (first, rest) = tree_of(3..500).split_first();
    assert_eq!(first, Weight(3));
    check_node(&rest.root, true);
    assert_eq!(rest.into_vec(), weights(4..500));
    let (only, rest) = tree_of(9..10).split_first();
    assert_eq!(only, Weight(9));
    assert!(rest.is_empty());
}

#[test]
fn test_cursor_walks_forward_and_back() {
    let tree = tree_of(0..100);
    let mut cursor = Cursor::<Weight, Count>::new(&tree);
    assert_eq!(cursor.item(), None);
    assert_eq!(cursor.start(), &Count(0));
    for w in 0..100u64 {
        cursor.next();
        assert_eq!(cursor.item(), Some(&Weight(w)));
        assert_eq!(cursor.start(), &Count(w as usize));
        assert_eq!(cursor.end(), Count(w as usize + 1));
    }
    cursor.next();
    assert_eq!(cursor.item(), None);
    assert_eq!(cursor.start(), &Count(100));
    assert_eq!(cursor.end(), Count(100));
    cursor.next();
    assert_eq!(cursor.item(), None);
    for w in (0..100u64).rev() {
        cursor.prev();
        assert_eq!(cursor.item(), Some(&Weight(w)));
        assert_eq!(cursor.start(), &Count(w as usize));
    }
    cursor.prev();
    assert_eq!(cursor.item(), None);
    assert_eq!(cursor.start(), &Count(0));
    cursor.prev();
    assert_eq!(cursor.item(), None);
    cursor.next();
    assert_eq!(cursor.item(), Some(&Weight(0)));
}

#[test]
fn test_cursor_on_empty_tree() {
    let tree: SumTree<Weight> = SumTree::new();
    let mut cursor = Cursor::<Weight, Count>::new(&tree);
    assert_eq!(cursor.item(), None);
    cursor.next();
    assert_eq!(cursor.item(), None);
    cursor.prev();
    assert_eq!(cursor.item(), None);
    cursor.seek(&AtCount(3), Bias::Left);
    assert_eq!(cursor.item(), None);
    assert_eq!(cursor.start(), &Count(0));
}

#[test]
fn test_seek_by_count_under_both_biases() {
    let tree = tree_of(0..1000);
    for k in [1usize, 2, 16, 17, 256, 257, 999, 1000] {
        let mut cursor = Cursor::<Weight, Count>::new(&tree);
        cursor.seek(&AtCount(k), Bias::Left);
        assert_eq!(cursor.item(), Some(&Weight(k as u64 - 1)));
        assert_eq!(cursor.end(), Count(k));
    }
    for k in [0usize, 1, 15, 16, 255, 256, 998, 999] {
        let mut cursor = Cursor::<Weight, Count>::new(&tree);
        cursor.seek(&AtCount(k), Bias::Right);
        assert_eq!(cursor.item(), Some(&Weight(k as u64)));
        assert_eq!(cursor.start(), &Count(k));
    }
    let mut cursor = Cursor::<Weight, Count>::new(&tree);
    cursor.seek(&AtCount(1000), Bias::Right);
    assert_eq!(cursor.item(), None);
    assert_eq!(cursor.start(), &Count(1000));
    let mut cursor = Cursor::<Weight, Count>::new(&tree);
    cursor.seek(&AtCount(5000), Bias::Left);
    assert_eq!(cursor.item(), None);
    cursor.prev();
    assert_eq!(cursor.item(), Some(&Weight(999)));
}

#[test]
fn test_seek_moves_forward_only() {
    let tree = tree_of(0..200);
    let mut cursor = Cursor::<Weight, Count>::new(&tree);
    cursor.seek(&AtCount(100), Bias::Right);
    assert_eq!(cursor.item(), Some(&Weight(100)));
    cursor.seek(&AtCount(150), Bias::Right);
    assert_eq!(cursor.item(), Some(&Weight(150)));
    cursor.seek(&AtCount(20), Bias::Right);
    assert_eq!(cursor.item(), Some(&Weight(150)));
}

#[test]
fn test_seek_by_another_dimension() {
    let tree = tree_of(1..101);
    let mut cursor = Cursor::<Weight, Sum>::new(&tree);
    cursor.seek(&AtSum(10), Bias::Left);
    assert_eq!(cursor.item(), Some(&Weight(4)));
    assert_eq!(cursor.start(), &Sum(6));
    assert_eq!(cursor.end(), Sum(10));
    let mut cursor = Cursor::<Weight, Sum>::new(&tree);
    cursor.seek(&AtSum(10), Bias::Right);
    assert_eq!(cursor.item(), Some(&Weight(5)));
    assert_eq!(cursor.start(), &Sum(10));
    let mut cursor = Cursor::<Weight, Sum>::new(&tree);
    cursor.seek(&AtSum(11), Bias::Left);
    assert_eq!(cursor.item(), Some(&Weight(5)));
}

#[test]
fn test_locate_and_split_at() {
    for n in [0u64, 1, 16, 17, 100, 1000] {
        for k in [0usize, 1, 8, 16, 17, 99, 100, 999, 1000, 2000] {
            let tree = tree_of(0..n);
            let path = tree.locate::<Count, AtCount>(&AtCount(k), Bias::Right);
            let (left, right) = tree.split_at(&path);
            let cut = (k as u64).min(n);
            check_node(&left.root, true);
            check_node(&right.root, true);
            assert_eq!(left.into_vec(), weights(0..cut));
            assert_eq!(right.into_vec(), weights(cut..n));
        }
    }
}

#[test]
fn test_path_of_cursor() {
    let tree = tree_of(0..40);
    let mut cursor = Cursor::<Weight, Count>::new(&tree);
    cursor.next();
    let path = cursor.path();
    assert_eq!(path.iter().sum::<usize>(), 0);
    assert_eq!(path.len(), 2);
}

#[test]
fn test_from_items_builds_balanced_trees() {
    for n in [
        0u64, 1, 7, 8, 15, 16, 17, 23, 24, 25, 31, 32, 33, 100, 255, 256, 257, 263, 264, 272,
        273, 4095, 4096, 4097, 4103, 4104, 5000,
    ] {
        let tree = tree_of(0..n);
        let (_, total) = check_node(&tree.root, true);
        assert_eq!(total.count as u64, n);
        assert_eq!(tree.is_empty(), n == 0);
        assert_eq!(tree.into_vec(), weights(0..n));
    }
}

#[test]
fn test_from_items_fills_leaves_to_the_brim() {
    let tree = tree_of(0..64);
    match &tree.root {
        Node::Internal { child_trees, .. } => {
            assert_eq!(child_trees.len(), 4);
            for child in child_trees {
                match child {
                    Node::Leaf { items, .. } => assert_eq!(items.len(), 16),
                    Node::Internal { .. } => panic!("a tree of 64 items has one level of leaves"),
                }
            }
        }
        Node::Leaf { .. } => panic!("64 items do not fit in one leaf"),
    }
    let tree = tree_of(0..20);
    match &tree.root {
        Node::Internal { child_trees, .. } => {
            let sizes: Vec<usize> = child_trees
                .iter()
                .map(|c| match c {
                    Node::Leaf { items, .. } => items.len(),
                    Node::Internal { .. } => 0,
                })
                .collect();
            assert_eq!(sizes, vec![12, 8]);
        }
        Node::Leaf { .. } => panic!("20 items do not fit in one leaf"),
    }
}
