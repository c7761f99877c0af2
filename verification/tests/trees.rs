use treapkit::bst::{Node, Tree};
use treapkit::search_trees::{EBSTNode, RBSTNode};

#[test]
fn bst_keeps_values_in_order() {
    let mut tree = Tree::new();
    for v in [5, 3, 8, 1, 4, 8] {
        tree.insert(v);
    }
    let mut walk = tree.iter();
    let mut seen = Vec::new();
    while let Some(v) = walk.next() {
        seen.push(v);
    }
    assert_eq!(seen, vec![1, 3, 4, 5, 8, 8]);
    assert_eq!(tree.min(), Some(1));
    assert_eq!(tree.max(), Some(8));
    assert!(tree.contains(4));
    assert!(tree.search(8));
    assert!(!tree.contains(7));
}

#[test]
fn bst_remove_takes_one_value_out() {
    let mut tree = Tree::new();
    for v in [50, 30, 70, 20, 40, 60, 80, 35, 45] {
        tree.insert(v);
    }
    assert!(tree.remove(30));
    assert!(!tree.remove(30));
    assert!(tree.remove(50));
    assert!(tree.remove(80));
    assert!(!tree.remove(99));
    let mut walk = tree.iter();
    let mut seen = Vec::new();
    while let Some(v) = walk.next() {
        seen.push(v);
    }
    assert_eq!(seen, vec![20, 35, 40, 45, 60, 70]);
}

#[test]
fn empty_bst() {
    let mut tree: Tree<i32> = Tree::default();
    assert_eq!(tree.min(), None);
    assert_eq!(tree.max(), None);
    assert!(!tree.search(1));
    assert!(!tree.remove(1));
    assert_eq!(tree.iter().next(), None);
    assert!(tree.root.is_none());
    let node = Node::new(3);
    assert_eq!(node.value, 3);
}

#[test]
fn ebst_records_depths() {
    let mut tree = EBSTNode::new(50, 0);
    for k in [30, 70, 20, 40, 30] {
        tree.insert(k, 0);
    }
    assert_eq!(tree.search(50), Some(0));
    assert_eq!(tree.search(30), Some(1));
    assert_eq!(tree.search(70), Some(1));
    assert_eq!(tree.search(20), Some(2));
    assert_eq!(tree.search(40), Some(2));
    assert_eq!(tree.search(60), None);
    assert_eq!(tree.remove(30), None);
    assert_eq!(tree.search(30), Some(1));
}

#[test]
fn rbst_finds_only_what_lies_on_the_search_path() {
    let mut tree = RBSTNode::new(5);
    assert!(tree.search(5));
    assert!(!tree.search(4));
    for k in 0..50 {
        tree.insert(k);
    }
    assert!(tree.search(5));
    assert!(!tree.search(77));
    assert_eq!(tree.remove(5), None);
    assert!(tree.search(5));
}
