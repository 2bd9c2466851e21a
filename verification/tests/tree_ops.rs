// Behaviour of the tree over a simple ordered type.

use ordered_tree::tree::BinaryTree;

#[test]
fn empty_tree_finds_nothing() {
    let t = BinaryTree::<u64>::default();
    assert!(!t.find(0));
    assert!(!t.find(17));
}

#[test]
fn inserted_values_are_found_absent_are_not() {
    let mut t = BinaryTree::<u64>::default();
    assert!(t.insert(8));
    assert!(t.insert(3));
    assert!(t.insert(12));
    assert!(t.insert(1));
    assert!(t.insert(5));
    for v in [8u64, 3, 12, 1, 5] {
        assert!(t.find(v));
    }
    for v in [0u64, 2, 4, 6, 7, 9, 13] {
        assert!(!t.find(v));
    }
}

#[test]
fn duplicate_insert_reports_false_and_changes_nothing() {
    let mut t = BinaryTree::<u64>::default();
    assert!(t.insert(10));
    assert!(t.insert(4));
    assert!(t.insert(20));
    assert!(!t.insert(10));
    assert!(!t.insert(4));
    for v in [10u64, 4, 20] {
        assert!(t.find(v));
    }
    assert!(!t.find(5));
    let pairs = t.traverse();
    let shape: Vec<(u64, usize)> = pairs.iter().map(|p| (*p.0, p.1)).collect();
    assert_eq!(shape, vec![(10, 0), (4, 1), (20, 1)]);
}

#[test]
fn delete_leaf() {
    let mut t = BinaryTree::<u64>::default();
    t.insert(10);
    t.insert(4);
    t.insert(20);
    assert!(t.delete(4));
    assert!(!t.find(4));
    assert!(t.find(10));
    assert!(t.find(20));
}

#[test]
fn delete_node_with_one_child() {
    let mut t = BinaryTree::<u64>::default();
    t.insert(10);
    t.insert(4);
    t.insert(2);
    assert!(t.delete(4));
    assert!(!t.find(4));
    assert!(t.find(10));
    assert!(t.find(2));
    let pairs = t.traverse();
    let shape: Vec<(u64, usize)> = pairs.iter().map(|p| (*p.0, p.1)).collect();
    assert_eq!(shape, vec![(10, 0), (2, 1)]);
}

#[test]
fn delete_node_with_two_children_takes_the_successor() {
    let mut t = BinaryTree::<u64>::default();
    for v in [8u64, 3, 12, 10, 14, 9] {
        t.insert(v);
    }
    // 8 has both children; its in-order successor is 9, the least value of
    // its right subtree.
    assert!(t.delete(8));
    assert!(!t.find(8));
    for v in [3u64, 12, 10, 14, 9] {
        assert!(t.find(v));
    }
    let pairs = t.traverse();
    let shape: Vec<(u64, usize)> = pairs.iter().map(|p| (*p.0, p.1)).collect();
    // The successor 9 replaces 8 at the root; the rest keeps its place.
    assert_eq!(shape, vec![(9, 0), (3, 1), (12, 1), (10, 2), (14, 2)]);
}

#[test]
fn delete_absent_value_reports_false_and_changes_nothing() {
    let mut t = BinaryTree::<u64>::default();
    assert!(!t.delete(7));
    t.insert(10);
    t.insert(4);
    t.insert(20);
    assert!(!t.delete(7));
    assert!(!t.delete(11));
    for v in [10u64, 4, 20] {
        assert!(t.find(v));
    }
    let pairs = t.traverse();
    let shape: Vec<(u64, usize)> = pairs.iter().map(|p| (*p.0, p.1)).collect();
    assert_eq!(shape, vec![(10, 0), (4, 1), (20, 1)]);
}

#[test]
fn delete_root_until_empty() {
    let mut t = BinaryTree::<u64>::default();
    for v in [5u64, 2, 8] {
        t.insert(v);
    }
    assert!(t.delete(5));
    assert!(t.delete(8));
    assert!(t.delete(2));
    assert!(!t.find(5));
    assert!(!t.find(2));
    assert!(!t.find(8));
    assert!(t.traverse().is_empty());
    // The emptied tree accepts values again.
    assert!(t.insert(5));
    assert!(t.find(5));
}

#[test]
fn extreme_values_are_ordinary_members() {
    let mut t = BinaryTree::<u64>::default();
    assert!(t.insert(u64::MAX));
    assert!(t.insert(0));
    assert!(t.insert(u64::MAX / 2));
    assert!(!t.insert(u64::MAX));
    assert!(t.find(0));
    assert!(t.find(u64::MAX));
    assert!(t.delete(0));
    assert!(!t.find(0));
    assert!(t.find(u64::MAX));
    assert!(t.find(u64::MAX / 2));
}

#[test]
fn many_inserts_and_deletes_stay_consistent() {
    let mut t = BinaryTree::<u64>::default();
    // A fixed scattered insertion order.
    let mut values: Vec<u64> = Vec::new();
    let mut x: u64 = 1;
    for _ in 0..60 {
        x = (x * 73 + 11) % 127;
        values.push(x);
    }
    let mut present: Vec<u64> = Vec::new();
    for &v in &values {
        let was_new = t.insert(v);
        assert_eq!(was_new, !present.contains(&v));
        if was_new {
            present.push(v);
        }
    }
    for &v in &present {
        assert!(t.find(v));
    }
    // Delete every even value that is present.
    for v in 0..127u64 {
        let held = present.contains(&v);
        if v % 2 == 0 {
            assert_eq!(t.delete(v), held);
        }
    }
    for &v in &present {
        assert_eq!(t.find(v), v % 2 != 0);
    }
}

// Rebuild the in-order listing from a pre-order dump of a search tree: the
// first entry is the root, the values below it form the left subtree, the
// rest the right subtree.
fn in_order_of(pre_order: &[u64]) -> Vec<u64> {
    if pre_order.is_empty() {
        return vec![];
    }
    let root = pre_order[0];
    let mut split = 1;
    while split < pre_order.len() && pre_order[split] < root {
        split += 1;
    }
    let mut out = in_order_of(&pre_order[1..split]);
    out.push(root);
    out.extend(in_order_of(&pre_order[split..]));
    out
}

#[test]
fn in_order_listing_stays_strictly_increasing() {
    let mut t = BinaryTree::<u64>::default();
    for v in [8u64, 3, 12, 1, 5, 10, 14, 4, 9, 3, 12] {
        t.insert(v);
    }
    t.delete(8);
    t.delete(1);
    t.delete(99);
    let values: Vec<u64> = t.traverse().iter().map(|p| *p.0).collect();
    let listing = in_order_of(&values);
    assert_eq!(listing, vec![3, 4, 5, 9, 10, 12, 14]);
    for w in listing.windows(2) {
        assert!(w[0] < w[1]);
    }
}

#[test]
fn traverse_lists_nodes_before_their_subtrees() {
    let mut t = BinaryTree::<u64>::default();
    for v in [6u64, 2, 9, 1, 4, 7] {
        t.insert(v);
    }
    let pairs = t.traverse();
    let shape: Vec<(u64, usize)> = pairs.iter().map(|p| (*p.0, p.1)).collect();
    assert_eq!(
        shape,
        vec![(6, 0), (2, 1), (1, 2), (4, 2), (9, 1), (7, 2)]
    );
}
