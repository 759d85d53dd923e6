use avltree::order::TotalOrder;
use avltree::tree::{AVLTree, Link, Node};
use std::cmp::Ordering;

/// Walks a subtree, asserting height correctness, balance and order at
/// every node; returns its height.
fn check_subtree(link: &Link<u32>, low: Option<u32>, high: Option<u32>) -> usize {
    match link {
        Some(n) => {
            if let Some(lo) = low {
                assert!(lo < n.value);
            }
            if let Some(hi) = high {
                assert!(n.value < hi);
            }
            let hl = check_subtree(&n.left, low, Some(n.value));
            let hr = check_subtree(&n.right, Some(n.value), high);
            assert!(hl <= hr + 1 && hr <= hl + 1, "unbalanced at {}", n.value);
            assert_eq!(n.height, 1 + hl.max(hr));
            n.height
        }
        None => 0,
    }
}

fn check_tree(tree: &AVLTree<u32>) {
    check_subtree(&tree.root, None, None);
}

fn count_nodes(link: &Link<u32>) -> usize {
    match link {
        Some(n) => 1 + count_nodes(&n.left) + count_nodes(&n.right),
        None => 0,
    }
}

fn build(values: &[u32]) -> AVLTree<u32> {
    let mut tree: AVLTree<u32> = AVLTree::new();
    for v in values {
        tree.insert(*v);
    }
    tree
}

#[test]
fn test_new_tree() {
    let tree: AVLTree<u32> = AVLTree::new();
    assert_eq!(tree.root, None);
}

#[test]
fn test_tree_height() {
    let tree: AVLTree<u32> = AVLTree::new();
    assert_eq!(tree.tree_height(), 0);
}

#[test]
fn test_empty_tree() {
    let tree: AVLTree<u32> = AVLTree::new();
    assert!(tree.empty());
}

#[test]
fn test_root_insert() {
    let mut tree: AVLTree<u32> = AVLTree::new();
    tree.insert(1);
    assert_eq!(
        tree,
        AVLTree { root: Some(Box::new(Node { value: 1, left: None, right: None, height: 1 })) }
    );
}

#[test]
fn test_get_height() {
    let mut tree: AVLTree<u32> = AVLTree::new();
    assert_eq!(tree.get_height(&tree.root), 0);
    tree.insert(2);
    assert_eq!(tree.get_height(&tree.root), 1);
    tree.insert(1);
    tree.insert(3);
    assert_eq!(tree.get_height(&tree.root), 2);
    tree.insert(4);
    assert_eq!(tree.get_height(&tree.root), 3);
}

#[test]
fn test_test() {
    let mut tree: AVLTree<u32> = AVLTree::new();
    tree.insert(3);
    tree.insert(4);
    tree.insert(1);
    tree.insert(2);
}

#[test]
fn round_trip_scenario() {
    let tree = build(&[3, 4, 1, 2]);
    assert_eq!(tree.tree_height(), 3);
    assert!(!tree.empty());
    assert_eq!(tree.inorder_traversal(), vec![1, 2, 3, 4]);
    check_tree(&tree);
}

#[test]
fn insert_four_keeps_root_and_order() {
    let tree = build(&[2, 1, 3, 4]);
    assert_eq!(tree.inorder_traversal(), vec![1, 2, 3, 4]);
    let root = tree.root.as_ref().unwrap();
    assert_eq!(root.value, 2);
    assert_eq!(tree.tree_height(), 3);
    check_tree(&tree);
}

#[test]
fn single_left_rotation_on_ascending_inserts() {
    let tree = build(&[1, 2, 3]);
    let root = tree.root.as_ref().unwrap();
    assert_eq!(root.value, 2);
    assert_eq!(root.height, 2);
    assert_eq!(root.left.as_ref().unwrap().value, 1);
    assert_eq!(root.right.as_ref().unwrap().value, 3);
    check_tree(&tree);
}

#[test]
fn single_right_rotation_on_descending_inserts() {
    let tree = build(&[3, 2, 1]);
    let root = tree.root.as_ref().unwrap();
    assert_eq!(root.value, 2);
    assert_eq!(tree.tree_height(), 2);
    assert_eq!(tree.inorder_traversal(), vec![1, 2, 3]);
    check_tree(&tree);
}

#[test]
fn left_right_double_rotation() {
    let tree = build(&[3, 1, 2]);
    let root = tree.root.as_ref().unwrap();
    assert_eq!(root.value, 2);
    assert_eq!(root.left.as_ref().unwrap().value, 1);
    assert_eq!(root.right.as_ref().unwrap().value, 3);
    check_tree(&tree);
}

#[test]
fn right_left_double_rotation() {
    let tree = build(&[1, 3, 2]);
    let root = tree.root.as_ref().unwrap();
    assert_eq!(root.value, 2);
    assert_eq!(root.height, 2);
    check_tree(&tree);
}

#[test]
fn two_child_deletion_uses_successor() {
    let mut tree = build(&[2, 1, 4, 3, 5]);
    tree.delete(4);
    assert_eq!(tree.inorder_traversal(), vec![1, 2, 3, 5]);
    let right = tree.root.as_ref().unwrap().right.as_ref().unwrap();
    assert_eq!(right.value, 5);
    assert_eq!(right.left.as_ref().unwrap().value, 3);
    check_tree(&tree);
}

#[test]
fn delete_root_with_two_children() {
    let mut tree = build(&[2, 1, 3]);
    tree.delete(2);
    assert_eq!(tree.root.as_ref().unwrap().value, 3);
    assert_eq!(tree.inorder_traversal(), vec![1, 3]);
    check_tree(&tree);
}

#[test]
fn delete_leaf_and_single_child_nodes() {
    let mut tree = build(&[2, 1, 3, 4]);
    tree.delete(3);
    assert_eq!(tree.inorder_traversal(), vec![1, 2, 4]);
    check_tree(&tree);
    tree.delete(4);
    assert_eq!(tree.inorder_traversal(), vec![1, 2]);
    assert_eq!(tree.tree_height(), 2);
    check_tree(&tree);
}

#[test]
fn delete_rebalances_after_shrinking() {
    let mut tree = build(&[2, 1, 3, 4]);
    tree.delete(1);
    let root = tree.root.as_ref().unwrap();
    assert_eq!(root.value, 3);
    assert_eq!(tree.tree_height(), 2);
    assert_eq!(tree.inorder_traversal(), vec![2, 3, 4]);
    check_tree(&tree);
}

#[test]
fn delete_on_empty_tree_is_a_no_op() {
    let mut tree: AVLTree<u32> = AVLTree::new();
    tree.delete(7);
    assert!(tree.empty());
    assert_eq!(tree.root, None);
}

#[test]
fn delete_then_absent_and_second_delete_changes_nothing() {
    let mut tree = build(&[5, 3, 8, 1, 4, 7, 9]);
    tree.delete(3);
    assert!(!tree.inorder_traversal().contains(&3));
    let snapshot = build(&[5, 3, 8, 1, 4, 7, 9]);
    assert_ne!(tree, snapshot);
    let before = tree.inorder_traversal();
    let height_before = tree.tree_height();
    tree.delete(3);
    assert_eq!(tree.inorder_traversal(), before);
    assert_eq!(tree.tree_height(), height_before);
    check_tree(&tree);
}

#[test]
fn delete_last_value_empties_the_tree() {
    let mut tree = build(&[9]);
    tree.delete(9);
    assert!(tree.empty());
    assert_eq!(tree.tree_height(), 0);
    assert_eq!(tree.leaves(), 0);
}

#[test]
fn inserting_a_present_value_changes_nothing() {
    let mut tree = build(&[4, 2, 6, 1, 3]);
    let once = build(&[4, 2, 6, 1, 3]);
    tree.insert(3);
    assert_eq!(tree, once);
    tree.insert(4);
    assert_eq!(tree, once);
}

#[test]
fn leaves_counts_childless_nodes() {
    let tree: AVLTree<u32> = AVLTree::new();
    assert_eq!(tree.leaves(), 0);
    let tree = build(&[1]);
    assert_eq!(tree.leaves(), 1);
    let tree = build(&[2, 1, 3, 4]);
    assert_eq!(tree.leaves(), 2);
    let tree = build(&[4, 2, 6, 1, 3, 5, 7]);
    assert_eq!(tree.leaves(), 4);
    assert_eq!(tree.inorder_traversal(), vec![1, 2, 3, 4, 5, 6, 7]);
}

#[test]
fn queries_leave_the_tree_intact() {
    let tree = build(&[3, 4, 1, 2]);
    let copy = build(&[3, 4, 1, 2]);
    let _ = tree.inorder_traversal();
    let _ = tree.leaves();
    assert_eq!(tree, copy);
    assert_eq!(tree.inorder_traversal(), vec![1, 2, 3, 4]);
}

#[test]
fn invariants_hold_over_many_operations() {
    let mut tree: AVLTree<u32> = AVLTree::new();
    let mut expected: Vec<u32> = Vec::new();
    for i in 0..200u32 {
        let v = (i * 37) % 101;
        tree.insert(v);
        if !expected.contains(&v) {
            expected.push(v);
        }
        check_tree(&tree);
    }
    for i in 0..120u32 {
        let v = (i * 53) % 101;
        tree.delete(v);
        expected.retain(|x| *x != v);
        check_tree(&tree);
    }
    expected.sort();
    let seen = tree.inorder_traversal();
    assert_eq!(seen, expected);
    for w in seen.windows(2) {
        assert!(w[0] < w[1]);
    }
    let nodes = count_nodes(&tree.root);
    let h = tree.tree_height();
    assert!(tree.leaves() <= nodes);
    assert!(h <= nodes && nodes <= (1usize << h) - 1);
}

#[test]
fn height_grows_logarithmically_on_sorted_input() {
    let mut tree: AVLTree<u32> = AVLTree::new();
    for v in 0..1023u32 {
        tree.insert(v);
    }
    assert_eq!(tree.tree_height(), 10);
    assert_eq!(tree.leaves(), 512);
    check_tree(&tree);
}

#[test]
fn extreme_values_are_ordered() {
    let mut tree: AVLTree<i64> = AVLTree::new();
    tree.insert(i64::MAX);
    tree.insert(i64::MIN);
    tree.insert(0);
    tree.insert(-5);
    assert_eq!(tree.inorder_traversal(), vec![i64::MIN, -5, 0, i64::MAX]);
}

#[test]
fn compare_follows_integer_order() {
    assert_eq!(1u32.compare(&2), Ordering::Less);
    assert_eq!(2u32.compare(&2), Ordering::Equal);
    assert_eq!(3u64.compare(&2), Ordering::Greater);
    assert_eq!((-3i32).compare(&2), Ordering::Less);
}

#[test]
fn node_new_is_a_leaf() {
    let n: Node<u32> = Node::new(8);
    assert_eq!(n, Node { value: 8, left: None, right: None, height: 1 });
}

#[test]
fn level_right_child_gets_single_left_rotation() {
    let mut tree = build(&[2, 1, 4, 3, 5]);
    tree.delete(1);
    let root = tree.root.as_ref().unwrap();
    assert_eq!(root.value, 4);
    let left = root.left.as_ref().unwrap();
    assert_eq!(left.value, 2);
    assert_eq!(left.right.as_ref().unwrap().value, 3);
    assert_eq!(root.right.as_ref().unwrap().value, 5);
    assert_eq!(tree.tree_height(), 3);
    check_tree(&tree);
}

#[test]
fn level_left_child_gets_single_right_rotation() {
    let mut tree = build(&[4, 5, 2, 1, 3]);
    tree.delete(5);
    let root = tree.root.as_ref().unwrap();
    assert_eq!(root.value, 2);
    assert_eq!(root.left.as_ref().unwrap().value, 1);
    let right = root.right.as_ref().unwrap();
    assert_eq!(right.value, 4);
    assert_eq!(right.left.as_ref().unwrap().value, 3);
    check_tree(&tree);
}

#[test]
fn clone_is_a_deep_equal_copy() {
    let tree = build(&[5, 3, 8, 1, 4]);
    let mut copy = tree.clone();
    assert_eq!(copy, tree);
    copy.delete(3);
    assert_eq!(tree.inorder_traversal(), vec![1, 3, 4, 5, 8]);
    assert_eq!(copy.inorder_traversal(), vec![1, 4, 5, 8]);
}

#[test]
fn char_and_u8_values() {
    let mut letters: AVLTree<char> = AVLTree::new();
    for c in ['d', 'b', 'a', 'c', 'e'] {
        letters.insert(c);
    }
    assert_eq!(letters.inorder_traversal(), vec!['a', 'b', 'c', 'd', 'e']);
    let mut bytes: AVLTree<u8> = AVLTree::new();
    bytes.insert(255);
    bytes.insert(0);
    bytes.insert(7);
    assert_eq!(bytes.inorder_traversal(), vec![0, 7, 255]);
    assert_eq!('a'.compare(&'b'), Ordering::Less);
}
