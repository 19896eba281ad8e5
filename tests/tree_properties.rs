use arena_tree::binary_tree::{BinaryTree, BinaryTreeNode};

fn links(tree: &BinaryTree<i32>) -> Vec<(usize, usize, usize)> {
    let mut out = Vec::new();
    for k in 0..tree.len() {
        let n = tree.get_node(k).unwrap();
        out.push((n.index, n.left, n.right));
    }
    out
}

#[test]
fn len_counts_every_insertion() {
    let mut tree: BinaryTree<i32> = BinaryTree::new();
    assert_eq!(tree.len(), 0);
    let r = tree.add_root(BinaryTreeNode::new(1));
    assert_eq!(tree.len(), 1);
    tree.add_left_node(r, BinaryTreeNode::new(2));
    assert_eq!(tree.len(), 2);
    tree.add_right_node(r, BinaryTreeNode::new(3));
    assert_eq!(tree.len(), 3);
    tree.add_left_node(99, BinaryTreeNode::new(4));
    assert_eq!(tree.len(), 4);
}

#[test]
fn is_empty_matches_len() {
    let mut tree: BinaryTree<i32> = BinaryTree::new();
    assert_eq!(tree.is_empty(), tree.len() == 0);
    tree.add_root(BinaryTreeNode::new(1));
    assert_eq!(tree.is_empty(), tree.len() == 0);
    assert!(!tree.is_empty());
}

#[test]
fn root_is_at_zero_with_its_value() {
    let mut tree: BinaryTree<i32> = BinaryTree::new();
    tree.add_root(BinaryTreeNode::new(42));
    assert_eq!(tree.get_root_index(), 0);
    assert_eq!(tree.get_node(0).unwrap().value, 42);
    assert_eq!(tree.get_node(0).unwrap().index, 0);
}

#[test]
fn child_is_linked_from_its_parent() {
    let mut tree: BinaryTree<i32> = BinaryTree::new();
    let r = tree.add_root(BinaryTreeNode::new(1));
    let a = tree.add_right_node(r, BinaryTreeNode::new(2));
    let b = tree.add_left_node(a, BinaryTreeNode::new(3));
    let c = tree.add_right_node(a, BinaryTreeNode::new(4));
    assert_eq!((a, b, c), (1, 2, 3));
    assert_eq!(tree.get_node(r).unwrap().right, a);
    assert_eq!(tree.get_node(a).unwrap().left, b);
    assert_eq!(tree.get_node(a).unwrap().right, c);
    assert_eq!(tree.get_node(b).unwrap().value, 3);
    assert_eq!(tree.get_node(c).unwrap().value, 4);
    assert_eq!(tree.get_node(c).unwrap().index, 3);
}

#[test]
fn absent_child_exactly_when_link_is_zero() {
    let mut tree: BinaryTree<i32> = BinaryTree::new();
    let r = tree.add_root(BinaryTreeNode::new(1));
    tree.add_left_node(r, BinaryTreeNode::new(2));
    let root = tree.get_node(r).unwrap();
    assert_eq!(root.left, 1);
    assert_eq!(tree.get_left_child(root).unwrap().value, 2);
    assert_eq!(root.right, 0);
    assert!(tree.get_right_child(root).is_none());
    let leaf = tree.get_node(1).unwrap();
    assert!(tree.get_left_child(leaf).is_none());
    assert!(tree.get_right_child(leaf).is_none());
}

#[test]
fn stale_link_gives_no_child() {
    let mut tree: BinaryTree<i32> = BinaryTree::new();
    tree.add_root(BinaryTreeNode::new(1));
    tree.get_node_mut(0).unwrap().left = 7;
    let root = tree.get_node(0).unwrap();
    assert!(tree.get_left_child(root).is_none());
    assert!(!tree.is_well_formed());
}

#[test]
fn value_written_through_mutable_lookup_is_read_back() {
    let mut tree: BinaryTree<i32> = BinaryTree::new();
    tree.add_root(BinaryTreeNode::new(10));
    tree.get_node_mut(0).unwrap().value = 11;
    assert_eq!(tree.get_node(0).unwrap().value, 11);
    assert_eq!(tree.len(), 1);
}

#[test]
fn lookups_past_the_end_are_absent() {
    let mut tree: BinaryTree<i32> = BinaryTree::new();
    assert!(tree.get_node(0).is_none());
    assert!(tree.get_node_mut(0).is_none());
    tree.add_root(BinaryTreeNode::new(1));
    assert!(tree.get_node(1).is_none());
    assert!(tree.get_node_mut(1).is_none());
    assert!(tree.get_node(usize::MAX).is_none());
}

#[test]
fn out_of_range_parent_appends_without_links() {
    let mut tree: BinaryTree<i32> = BinaryTree::new();
    let r = tree.add_root(BinaryTreeNode::new(1));
    tree.add_left_node(r, BinaryTreeNode::new(2));
    let before = links(&tree);
    let i = tree.add_left_node(5, BinaryTreeNode::new(3));
    let j = tree.add_right_node(3, BinaryTreeNode::new(4));
    assert_eq!((i, j), (2, 3));
    assert_eq!(tree.len(), 4);
    let after = links(&tree);
    assert_eq!(&after[..2], &before[..]);
    assert_eq!(after[2], (2, 0, 0));
    assert_eq!(after[3], (3, 0, 0));
    assert_eq!(tree.get_node(3).unwrap().value, 4);
}

#[test]
fn second_root_is_an_orphan() {
    let mut tree: BinaryTree<i32> = BinaryTree::new();
    tree.add_root(BinaryTreeNode::new(1));
    let second = tree.add_root(BinaryTreeNode::new(2));
    assert_eq!(second, 1);
    assert_eq!(tree.get_node(0).unwrap().left, 0);
    assert_eq!(tree.get_node(0).unwrap().right, 0);
    assert_eq!(tree.get_node(1).unwrap().value, 2);
    assert_eq!(tree.preorder(), vec![(0, 0)]);
}

#[test]
fn relinking_a_side_keeps_the_newest_child() {
    let mut tree: BinaryTree<i32> = BinaryTree::new();
    let r = tree.add_root(BinaryTreeNode::new(1));
    tree.add_left_node(r, BinaryTreeNode::new(2));
    let newer = tree.add_left_node(r, BinaryTreeNode::new(3));
    assert_eq!(tree.get_node(r).unwrap().left, newer);
    assert_eq!(tree.preorder(), vec![(0, 0), (1, 2)]);
}

#[test]
fn preorder_of_empty_tree_is_empty() {
    let tree: BinaryTree<i32> = BinaryTree::new();
    assert!(tree.is_well_formed());
    assert!(tree.preorder().is_empty());
}

#[test]
fn preorder_of_left_chain_goes_deeper() {
    let mut tree: BinaryTree<i32> = BinaryTree::new();
    let mut p = tree.add_root(BinaryTreeNode::new(0));
    for v in 1..5 {
        p = tree.add_left_node(p, BinaryTreeNode::new(v));
    }
    assert_eq!(
        tree.preorder(),
        vec![(0, 0), (1, 1), (2, 2), (3, 3), (4, 4)]
    );
}

#[test]
fn wrong_index_field_is_not_well_formed() {
    let mut tree: BinaryTree<i32> = BinaryTree::new();
    tree.add_root(BinaryTreeNode::new(1));
    tree.add_left_node(0, BinaryTreeNode::new(2));
    assert!(tree.is_well_formed());
    tree.get_node_mut(1).unwrap().index = 0;
    assert!(!tree.is_well_formed());
}

#[test]
fn nodes_round_trip_through_raw_form() {
    let mut tree: BinaryTree<i32> = BinaryTree::new();
    let r = tree.add_root(BinaryTreeNode::new(1));
    tree.add_right_node(r, BinaryTreeNode::new(2));
    let before = links(&tree);
    let rebuilt = BinaryTree::from_nodes(tree.into_nodes());
    assert_eq!(links(&rebuilt), before);
    assert_eq!(rebuilt.get_node(1).unwrap().value, 2);
}
