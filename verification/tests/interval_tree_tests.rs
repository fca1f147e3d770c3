use space_partitioning::interval_tree::interval_tree_node::{IntervalTreeNode, IntervalTreeNodeOption};
use space_partitioning::interval_tree::{InorderIterator, Interval, IntervalTree, IntervalTreeEntry, IntervalType};
use std::ops::RangeInclusive;

fn entries_of(ranges: Vec<RangeInclusive<i32>>) -> Vec<IntervalTreeEntry<i32, ()>> {
    ranges.into_iter().map(|r| r.into()).collect()
}

fn test_ranges() -> Vec<RangeInclusive<i32>> {
    vec![15..=20, 10..=30, 17..=19, 5..=20, 12..=15, 30..=40]
}

/// Constructs a test tree.
fn construct_test_root_node() -> IntervalTreeNode<i32, ()> {
    IntervalTreeNodeOption::from_iter(entries_of(test_ranges())).unwrap()
}

fn collect_inorder<'a>(node: &'a IntervalTreeNode<i32, ()>, out: &mut Vec<&'a IntervalTreeEntry<i32, ()>>) {
    if let Some(left) = &node.left {
        collect_inorder(left, out);
    }
    out.push(&node.entry);
    if let Some(right) = &node.right {
        collect_inorder(right, out);
    }
}

#[test]
fn insert_only_works() {
    let mut tree = IntervalTree::default();
    assert_eq!(tree.len(), 0);
    tree.insert((15..=20, 4.2));
    assert_eq!(tree.len(), 1);
    tree.insert((10..=30, 13.37));
    assert_eq!(tree.len(), 2);
}

#[test]
fn from_constructor_works() {
    let mut tree = IntervalTree::new_from_entry(15..=20);
    assert_eq!(tree.len(), 1);
    tree.insert(15..=20);
    assert_eq!(tree.len(), 2);
}

#[test]
fn range_without_data_works() {
    let tree = IntervalTree::from_iter(entries_of(test_ranges()));
    assert_eq!(tree.len(), 6);
}

#[test]
fn interval_without_data_works() {
    let tree: IntervalTree<i32, ()> = IntervalTree::from_iter(vec![
        Interval::from(15..=20).into(),
        Interval::from(10..=30).into(),
        Interval::from(17..=19).into(),
        Interval::from(5..=20).into(),
        Interval::from(12..=15).into(),
        Interval::from(30..=40).into(),
    ]);
    assert_eq!(tree.len(), 6);
}

#[test]
fn range_with_data_works() {
    let tree: IntervalTree<i32, i32> = IntervalTree::from_iter(vec![
        (15..=20, 1).into(),
        (10..=30, 2).into(),
        (17..=19, 3).into(),
        (5..=20, 4).into(),
        (12..=15, 5).into(),
        (30..=40, 6).into(),
    ]);
    assert_eq!(tree.len(), 6);
}

#[test]
fn interval_with_data_works() {
    let tree: IntervalTree<i32, i32> = IntervalTree::from_iter(vec![
        (Interval::from(15..=20), 1).into(),
        (Interval::from(10..=30), 2).into(),
        (Interval::from(17..=19), 3).into(),
        (Interval::from(5..=20), 4).into(),
        (Interval::from(12..=15), 5).into(),
        (Interval::from(30..=40), 6).into(),
    ]);
    assert_eq!(tree.len(), 6);
}

#[test]
fn interval_tree_last_works() {
    let tree = IntervalTree::from_iter(entries_of(test_ranges()));
    let last = tree.iter_inorder().last();
    assert!(last.is_some());
    let last = last.unwrap();
    assert_eq!(last.interval.start, 30);
    assert_eq!(last.interval.end, 40);
}

#[test]
fn interval_tree_overlap_search_works() {
    let tree = IntervalTree::from_iter(entries_of(test_ranges()));
    let overlap = tree.overlap_search(Interval::from(6..=7));
    assert_eq!(overlap.unwrap().interval, Interval::from(5..=20));
}

#[test]
fn interval_tree_len_works() {
    let tree = IntervalTree::from_iter(entries_of(test_ranges()));
    assert_eq!(tree.len(), 6);
}

#[test]
fn len_when_empty_works() {
    let tree = IntervalTree::from_iter(entries_of(vec![]));
    assert_eq!(tree.len(), 0);
}

#[derive(Debug, PartialOrd, PartialEq, Copy, Clone, Default)]
struct Vec2d {
    pub x: f64,
    pub y: f64,
}

impl IntervalType for Vec2d {}

#[test]
fn it_works() {
    let tree = IntervalTree::from_iter(vec![
        (Interval::new(Vec2d { x: 1., y: 2. }, Vec2d { x: 10., y: 10. }), "A").into(),
        (Interval::new(Vec2d { x: -5., y: -5. }, Vec2d { x: 5., y: 5. }), "B").into(),
        (Interval::new(Vec2d { x: -10., y: -10. }, Vec2d { x: -7., y: -7. }), "C").into(),
    ]);

    let test = Interval::new(Vec2d::default(), Vec2d::default());
    let result = tree.overlap_search(test).unwrap();

    assert_eq!(result.data, "B")
}

#[test]
fn size_hint_when_empty_works() {
    let iter = InorderIterator::<i32, ()>::empty();
    let (min, max) = iter.size_hint();
    assert_eq!(min, 0);
    assert_eq!(max, None);
}

#[test]
fn size_hint_works() {
    let root = construct_test_root_node();
    let (min, max) = InorderIterator::new(&root).size_hint();
    assert_eq!(min, 6);
    assert_eq!(max, Some(6));
}

#[test]
fn count_when_empty_works() {
    let iter = InorderIterator::<i32, ()>::empty();
    assert_eq!(iter.count(), 0);
}

#[test]
fn count_works() {
    let root = construct_test_root_node();
    let count = InorderIterator::new(&root).count();
    assert_eq!(count, 6);
}

#[test]
fn inorder_iterator_last_works() {
    let root = construct_test_root_node();
    let last = InorderIterator::new(&root).last();
    assert!(last.is_some());
    let last = last.unwrap();
    assert_eq!(last.interval.start, 30);
    assert_eq!(last.interval.end, 40);
}

#[test]
fn iteration_when_empty_works() {
    let mut iter = InorderIterator::<i32, ()>::empty();
    assert!(iter.next().is_none());
}

#[test]
fn iteration_works() {
    let root = construct_test_root_node();

    // Collect the expected nodes.
    let mut expected = Vec::default();
    collect_inorder(&root, &mut expected);
    assert_eq!(expected.len(), 6);

    // Reverse the collection for easier handling.
    // This allows us to pop elements from the back until
    // the set is empty.
    expected.reverse();

    // Act / Assert
    let mut iter = InorderIterator::new(&root);
    while let Some(entry) = iter.next() {
        let expected_entry = expected.pop();
        assert!(expected_entry.is_some());
        assert_eq!(expected_entry.unwrap().interval, entry.interval);
    }
    assert!(expected.is_empty());
}

#[test]
fn for_each_works() {
    let root = construct_test_root_node();

    // Collect the expected nodes.
    let mut expected = Vec::default();
    collect_inorder(&root, &mut expected);

    // Act
    let mut collected = Vec::default();
    InorderIterator::new(&root).for_each(|entry| collected.push(entry));

    // Assert
    assert_eq!(expected.len(), collected.len());
    for (expected_entry, entry) in expected.into_iter().zip(collected) {
        assert_eq!(expected_entry.interval, entry.interval);
    }
}

#[test]
fn interval_tree_node_overlap_search_works() {
    let root = construct_test_root_node();
    let overlap = root.overlap_search(&Interval::from(6..=7));
    assert_eq!(overlap.map(|entry| entry.interval), Some(Interval::from(5..=20)));
}

#[test]
fn interval_tree_node_len_works() {
    let root = construct_test_root_node();
    assert_eq!(root.len(), 6);
}

#[test]
fn node_overlap_search_works() {
    let mut root = IntervalTreeNode::new_from_pair(15..=20, ());
    for range in [10..=30, 17..=19, 5..=20, 12..=15, 30..=40] {
        root.insert(IntervalTreeNode::new_from_pair(range, ()));
    }
    let overlap = root.overlap_search(&Interval::from(6..=7));
    assert_eq!(overlap.map(|entry| entry.interval), Some(Interval::from(5..=20)));
}

#[test]
fn node_len_works() {
    let mut root = IntervalTreeNode::new_from_pair(15..=20, ());
    for range in [10..=30, 17..=19, 5..=20, 12..=15, 30..=40] {
        root.insert(IntervalTreeNode::new_from_pair(range, ()));
    }
    assert_eq!(root.len(), 6);
}

#[test]
fn inorder_starts_do_not_decrease() {
    let tree = IntervalTree::from_iter(entries_of(test_ranges()));
    let starts: Vec<i32> = tree.iter_inorder().collect().iter().map(|e| e.interval.start).collect();
    assert_eq!(starts, vec![5, 10, 12, 15, 17, 30]);
}

#[test]
fn equal_starts_keep_insertion_order() {
    let mut tree: IntervalTree<i32, &str> = IntervalTree::default();
    tree.insert((5..=6, "first"));
    tree.insert((5..=9, "second"));
    tree.insert((1..=2, "front"));
    tree.insert((5..=7, "third"));
    let data: Vec<&str> = tree.iter_inorder().collect().iter().map(|e| e.data).collect();
    assert_eq!(data, vec!["front", "first", "second", "third"]);
}

#[test]
fn overlap_search_finds_nothing_when_nothing_overlaps() {
    let tree = IntervalTree::from_iter(entries_of(test_ranges()));
    assert!(tree.overlap_search(Interval::new(41, 50)).is_none());
    assert!(tree.overlap_search(Interval::new(0, 4)).is_none());
    let empty: IntervalTree<i32, ()> = IntervalTree::default();
    assert!(empty.overlap_search(Interval::new(0, 100)).is_none());
    assert!(empty.is_empty());
    assert!(empty.iter_inorder().next().is_none());
}

#[test]
fn overlap_search_uses_the_largest_end_below_a_node() {
    // The entry that ends last sits deep in the left subtree.
    let mut tree: IntervalTree<i32, u8> = IntervalTree::new_from_entry((50..=60, 0));
    tree.insert((20..=25, 1));
    tree.insert((10..=45, 2));
    tree.insert((30..=31, 3));
    let found = tree.overlap_search(Interval::new(40, 42)).unwrap();
    assert_eq!(found.data, 2);
    assert_eq!(found.interval, Interval::new(10, 45));
}

#[test]
fn interval_overlap_is_closed() {
    let a = Interval::new(1, 5);
    assert!(a.overlaps_with(&Interval::new(5, 9)));
    assert!(a.overlaps_with(&Interval::new(-3, 1)));
    assert!(!a.overlaps_with(&Interval::new(6, 9)));
    assert!(Interval::from((2, 3)).overlaps_with(&a));
}

#[test]
fn tree_from_one_interval_holds_it() {
    let tree = IntervalTree::from(Interval::new(3, 4));
    assert_eq!(tree.len(), 1);
    let tree = IntervalTree::from((Interval::new(3, 4), "x"));
    assert_eq!(tree.iter_inorder().last().unwrap().data, "x");
}
