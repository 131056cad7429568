use binary_search_tree::error::BSTError;
use binary_search_tree::node::Node;
use binary_search_tree::tree::BinarySearchTree;

fn sample_tree() -> BinarySearchTree {
    let mut bst = BinarySearchTree::new();
    for v in [10, 5, 15, 3, 7, 12, 18] {
        assert_eq!(bst.insert(v), Ok(()));
    }
    bst
}

#[test]
fn sample_traversals_and_measures() {
    let bst = sample_tree();
    assert_eq!(bst.in_order_traversal(), vec![3, 5, 7, 10, 12, 15, 18]);
    assert_eq!(bst.pre_order_traversal(), vec![10, 5, 3, 7, 15, 12, 18]);
    assert_eq!(bst.post_order_traversal(), vec![3, 7, 5, 12, 18, 15, 10]);
    assert_eq!(bst.count_nodes(), 7);
    assert_eq!(bst.find_min(), Some(&3));
    assert_eq!(bst.find_max(), Some(&18));
    assert_eq!(bst.height(), 3);
    assert!(bst.is_balanced());
}

#[test]
fn duplicate_insert_fails_and_keeps_tree() {
    let mut bst = sample_tree();
    assert_eq!(bst.insert(10), Err(BSTError::DuplicateValue));
    assert_eq!(bst.count_nodes(), 7);
    assert_eq!(bst.in_order_traversal(), vec![3, 5, 7, 10, 12, 15, 18]);
    assert_eq!(bst.pre_order_traversal(), vec![10, 5, 3, 7, 15, 12, 18]);
    assert!(bst.search(10));
    assert!(!bst.search(20));
}

#[test]
fn delete_node_with_two_children() {
    let mut bst = sample_tree();
    assert_eq!(bst.delete(15), Ok(()));
    assert_eq!(bst.in_order_traversal(), vec![3, 5, 7, 10, 12, 18]);
    assert_eq!(bst.pre_order_traversal(), vec![10, 5, 3, 7, 18, 12]);
    assert_eq!(bst.height(), 3);
    assert_eq!(bst.count_nodes(), 6);
    assert!(!bst.search(15));
}

#[test]
fn delete_missing_value_fails() {
    let mut bst = sample_tree();
    assert_eq!(bst.delete(15), Ok(()));
    assert_eq!(bst.delete(20), Err(BSTError::ValueNotFound));
    assert_eq!(bst.in_order_traversal(), vec![3, 5, 7, 10, 12, 18]);
    assert_eq!(bst.height(), 3);
}

#[test]
fn empty_tree_edge_cases() {
    let mut bst = BinarySearchTree::new();
    assert_eq!(bst.find_min(), None);
    assert_eq!(bst.find_max(), None);
    assert_eq!(bst.height(), 0);
    assert_eq!(bst.count_nodes(), 0);
    assert!(bst.is_balanced());
    assert!(bst.in_order_traversal().is_empty());
    assert!(bst.pre_order_traversal().is_empty());
    assert!(bst.post_order_traversal().is_empty());
    assert!(!bst.search(0));
    assert_eq!(bst.delete(0), Err(BSTError::ValueNotFound));
    assert_eq!(bst.delete(-7), Err(BSTError::ValueNotFound));
}

#[test]
fn in_order_is_sorted_for_any_insertion_order() {
    let mut bst = BinarySearchTree::new();
    for v in [42, -3, 17, 0, 99, -50, 8, 23, 1, i32::MAX, i32::MIN] {
        assert_eq!(bst.insert(v), Ok(()));
    }
    assert_eq!(
        bst.in_order_traversal(),
        vec![i32::MIN, -50, -3, 0, 1, 8, 17, 23, 42, 99, i32::MAX]
    );
    assert_eq!(bst.count_nodes(), 11);
    assert_eq!(bst.find_min(), Some(&i32::MIN));
    assert_eq!(bst.find_max(), Some(&i32::MAX));
}

#[test]
fn search_follows_inserts_and_deletes() {
    let mut bst = sample_tree();
    for v in [10, 5, 15, 3, 7, 12, 18] {
        assert!(bst.search(v));
    }
    for v in [0, 4, 11, 20, -1] {
        assert!(!bst.search(v));
    }
    assert_eq!(bst.delete(5), Ok(()));
    assert!(!bst.search(5));
    assert_eq!(bst.insert(5), Ok(()));
    assert!(bst.search(5));
}

#[test]
fn each_delete_removes_one_value_in_order() {
    let mut bst = sample_tree();
    let mut expected = vec![3, 5, 7, 10, 12, 15, 18];
    for v in [10, 3, 18, 12, 5, 15, 7] {
        assert_eq!(bst.delete(v), Ok(()));
        expected.retain(|&x| x != v);
        assert_eq!(bst.in_order_traversal(), expected);
        assert_eq!(bst.count_nodes(), expected.len());
    }
    assert_eq!(bst.height(), 0);
    assert_eq!(bst.find_min(), None);
}

#[test]
fn delete_root_with_two_children_takes_successor() {
    let mut bst = sample_tree();
    assert_eq!(bst.delete(10), Ok(()));
    assert_eq!(bst.pre_order_traversal(), vec![12, 5, 3, 7, 15, 18]);
    assert_eq!(bst.post_order_traversal(), vec![3, 7, 5, 18, 15, 12]);
}

#[test]
fn delete_node_with_one_child_promotes_it() {
    let mut bst = BinarySearchTree::new();
    for v in [8, 4, 2] {
        assert_eq!(bst.insert(v), Ok(()));
    }
    assert_eq!(bst.delete(4), Ok(()));
    assert_eq!(bst.pre_order_traversal(), vec![8, 2]);
    assert_eq!(bst.delete(8), Ok(()));
    assert_eq!(bst.pre_order_traversal(), vec![2]);
}

#[test]
fn count_and_height_agree() {
    let mut bst = BinarySearchTree::new();
    for v in 1..=15 {
        assert_eq!(bst.insert(v), Ok(()));
        let n = bst.count_nodes();
        assert_eq!(n, bst.in_order_traversal().len());
        assert_eq!(bst.height(), n);
        assert!((1usize << bst.height()) >= n + 1);
    }
    let balanced = sample_tree();
    assert!((1usize << balanced.height()) >= balanced.count_nodes() + 1);
}

#[test]
fn balance_is_checked_at_the_root_only() {
    let mut chain = BinarySearchTree::new();
    for v in [1, 2, 3] {
        assert_eq!(chain.insert(v), Ok(()));
    }
    assert!(!chain.is_balanced());

    // The root's subtrees have heights 3 and 2, but the left one is a chain
    // below its own root.
    let mut shallow = BinarySearchTree::new();
    for v in [50, 30, 70, 20, 60, 10] {
        assert_eq!(shallow.insert(v), Ok(()));
    }
    assert_eq!(shallow.height(), 4);
    assert!(shallow.is_balanced());
}

#[test]
fn error_messages() {
    assert_eq!(
        BSTError::DuplicateValue.message(),
        "Duplicate value: cannot insert the same value twice"
    );
    assert_eq!(
        BSTError::ValueNotFound.message(),
        "Value not found: cannot delete a non-existent value"
    );
}

#[test]
fn node_operations() {
    let mut node = Node::new(10);
    assert_eq!(node.insert(5), Ok(()));
    assert_eq!(node.insert(15), Ok(()));
    assert_eq!(node.insert(5), Err(BSTError::DuplicateValue));
    assert!(node.search(15));
    assert!(!node.search(6));
    assert_eq!(*node.find_min(), 5);
    assert_eq!(*node.find_max(), 15);
    assert_eq!(node.count_nodes(), 3);
    assert_eq!(node.height(), 2);
    assert!(node.is_balanced());

    let mut listed = vec![0];
    node.in_order_traversal(&mut listed);
    assert_eq!(listed, vec![0, 5, 10, 15]);
    let mut listed = Vec::new();
    node.pre_order_traversal(&mut listed);
    assert_eq!(listed, vec![10, 5, 15]);
    let mut listed = Vec::new();
    node.post_order_traversal(&mut listed);
    assert_eq!(listed, vec![5, 15, 10]);

    assert!(matches!(node.delete(99), Err(BSTError::ValueNotFound)));
    assert_eq!(node.count_nodes(), 3);
    let rest = node.delete(10).unwrap().unwrap();
    assert_eq!(rest.value, 15);
    assert_eq!(rest.count_nodes(), 2);
    assert!(node.left.is_none() && node.right.is_none());

    let mut leaf = Node::new(1);
    assert!(leaf.delete(1).unwrap().is_none());
}

#[test]
fn insert_adds_a_leaf_and_delete_never_raises_height() {
    let mut bst = sample_tree();
    let before = bst.pre_order_traversal();
    let height = bst.height();
    assert_eq!(bst.insert(11), Ok(()));
    let after: Vec<i32> = bst.pre_order_traversal().into_iter().filter(|&x| x != 11).collect();
    assert_eq!(after, before);
    assert_eq!(bst.pre_order_traversal(), vec![10, 5, 3, 7, 15, 12, 11, 18]);
    assert_eq!(bst.height(), height + 1);
    for v in [12, 10, 3, 15] {
        let h = bst.height();
        assert_eq!(bst.delete(v), Ok(()));
        assert!(bst.height() <= h);
    }
    assert_eq!(bst.pre_order_traversal(), vec![11, 5, 7, 18]);
}
