use treapkit::avl::{AVLTree, TreeNode};

#[test]
fn avl_holds_what_was_put_in() {
    let mut tree = AVLTree::new();
    for v in 0..1000 {
        tree.insert((v * 37) % 1009);
    }
    for v in 0..1000 {
        assert!(tree.search((v * 37) % 1009));
    }
    assert!(!tree.search(-1));
    assert!(!tree.search(2000));
}

#[test]
fn avl_remove_takes_values_out() {
    let mut tree = AVLTree::new();
    for v in [50, 30, 70, 20, 40, 60, 80, 50] {
        tree.insert(v);
    }
    tree.remove(50);
    assert!(!tree.search(50));
    tree.remove(20);
    tree.remove(99);
    for v in [30, 40, 60, 70, 80] {
        assert!(tree.search(v));
    }
    assert!(!tree.search(20));
    for v in [30, 40, 60, 70, 80] {
        tree.remove(v);
        assert!(!tree.search(v));
    }
    tree.remove(1);
    assert!(!tree.search(1));
}

#[test]
fn avl_stays_low_on_rising_input() {
    let mut root = None;
    for v in 0..1024 {
        root = Some(TreeNode::insert(root, v));
    }
    assert_eq!(TreeNode::height(&root), 11);
    assert_eq!(TreeNode::height(&None), 0);
    assert_eq!(TreeNode::height(&Some(Box::new(TreeNode::new(1)))), 1);
}
