use dibrova::bst::Direction;
use dibrova::bst::SimpleBst;
use dibrova::bst::SimpleBstNode;
use dibrova::bst::flip_direction;
use dibrova::bst::get_extreme;
use dibrova::bst::next_inorder;

/// Builds the three-node tree `medium` on top, `small` left, `large` right,
/// and returns the tree with the indices of root, left and right nodes.
fn get_three_nodes(small: u64, medium: u64, large: u64) -> (SimpleBst, usize, usize, usize) {
    let mut bst = SimpleBst::new();
    bst.insert(medium);
    bst.insert(small);
    bst.insert(large);
    let root = bst.get_root().unwrap();
    let left = bst.get_node(root).get_child(Direction::Left).unwrap();
    let right = bst.get_node(root).get_child(Direction::Right).unwrap();
    (bst, root, left, right)
}

fn collect(bst: &SimpleBst) -> Vec<u64> {
    let mut it = bst.iter();
    let mut out = Vec::new();
    while let Some(v) = it.next() {
        out.push(v);
    }
    out
}

#[test]
fn test_flip_direction() {
    assert_eq!(flip_direction(Direction::Left), Direction::Right);
    assert_eq!(flip_direction(Direction::Right), Direction::Left);
}

#[test]
fn test_simple_node_creation() {
    assert!(8 < 9);
    assert!(10 > 9);
    let (bst, root, left, right) = get_three_nodes(8, 9, 10);
    assert_eq!(bst.get_node(root).as_value(), 9);
    assert_eq!(bst.get_node(left).as_value(), 8);
    assert_eq!(bst.get_node(right).as_value(), 10);
}

#[test]
fn test_simple_node_relationships() {
    let (bst, root, left, right) = get_three_nodes(8, 9, 10);
    assert_eq!(bst.get_node(root).get_child(Direction::Left), Some(left));
    assert_eq!(bst.get_node(root).get_child(Direction::Right), Some(right));
    assert_eq!(bst.get_node(bst.get_node(left).get_parent().unwrap()).as_value(), 9);
    assert_eq!(bst.get_node(bst.get_node(right).get_parent().unwrap()).as_value(), 9);
    assert_eq!(bst.get_node(root).is_root(), true);
    assert_eq!(bst.get_node(root).is_leaf(), false);
    assert_eq!(bst.get_node(left).is_root(), false);
    assert_eq!(bst.get_node(left).is_leaf(), true);
    assert_eq!(bst.get_node(right).is_root(), false);
    assert_eq!(bst.get_node(right).is_leaf(), true);
    assert!(bst.is_child(left, Direction::Left));
    assert!(!bst.is_child(left, Direction::Right));
    assert!(bst.is_child(right, Direction::Right));
    assert!(!bst.is_child(root, Direction::Left));
}

#[test]
fn test_simple_node_ordering() {
    let small = SimpleBstNode::new(8);
    let medium = SimpleBstNode::new(9);
    let large = SimpleBstNode::new(10);
    assert!(small < medium);
    assert!(small < large);
    assert!(large > medium);
    assert!(large > small);
    assert!(medium > small);
    assert!(medium < large);
    assert!(small == SimpleBstNode::new(8));
}

#[test]
fn test_simple_bst_creation() {
    let mut bst = SimpleBst::new();
    assert!(bst.get_root().is_none());
    bst.insert(1);
    let root = bst.get_root().unwrap();
    assert_eq!(bst.get_node(root).as_value(), 1);
}

#[test]
fn test_simple_bst_insertion() {
    // Case 1:
    //   2
    //  / \
    // 1   4
    //    /
    //   3
    let mut bst = SimpleBst::new();
    bst.insert(2);
    bst.insert(4);
    bst.insert(1);
    bst.insert(3);
    let root = bst.get_root().unwrap();
    assert_eq!(bst.get_node(root).as_value(), 2);
    let roots_left_child = bst.get_node(root).get_child(Direction::Left).unwrap();
    let roots_right_child = bst.get_node(root).get_child(Direction::Right).unwrap();
    assert_eq!(bst.get_node(roots_left_child).as_value(), 1);
    assert_eq!(bst.get_node(roots_right_child).as_value(), 4);
    assert!(bst.get_node(roots_left_child).get_child(Direction::Left).is_none());
    assert!(bst.get_node(roots_left_child).get_child(Direction::Right).is_none());
    assert!(bst.get_node(roots_right_child).get_child(Direction::Right).is_none());
    let roots_grandchild = bst.get_node(roots_right_child).get_child(Direction::Left).unwrap();
    assert_eq!(bst.get_node(roots_grandchild).as_value(), 3);

    // Case 2: a single descending-to-the-right chain 1 -> 2 -> 3 -> 4
    let mut bst = SimpleBst::new();
    bst.insert(1);
    bst.insert(2);
    bst.insert(3);
    bst.insert(4);
    let n1 = bst.get_root().unwrap();
    let n2 = bst.get_node(n1).get_child(Direction::Right).unwrap();
    let n3 = bst.get_node(n2).get_child(Direction::Right).unwrap();
    let n4 = bst.get_node(n3).get_child(Direction::Right).unwrap();
    assert!(bst.get_node(n4).get_child(Direction::Right).is_none());
    for (node, expected_value) in vec![(n1, 1), (n2, 2), (n3, 3), (n4, 4)] {
        assert_eq!(bst.get_node(node).as_value(), expected_value);
        assert!(bst.get_node(node).get_child(Direction::Left).is_none());
    }
}

#[test]
fn test_duplicate_insert_is_ignored() {
    let mut bst = SimpleBst::new();
    bst.insert(2);
    bst.insert(1);
    bst.insert(3);
    bst.insert(2);
    bst.insert(1);
    assert_eq!(bst.in_order(), vec![1, 2, 3]);
    let root = bst.get_root().unwrap();
    assert_eq!(bst.get_node(root).as_value(), 2);
}

#[test]
fn test_get_extreme() {
    let (bst, root, left, right) = get_three_nodes(7, 8, 9);
    assert_eq!(get_extreme(&bst, root, Direction::Left), left);
    assert_eq!(get_extreme(&bst, root, Direction::Right), right);
    assert_eq!(get_extreme(&bst, left, Direction::Left), left);
    assert_eq!(get_extreme(&bst, left, Direction::Right), left);
    assert_eq!(get_extreme(&bst, right, Direction::Left), right);
    assert_eq!(get_extreme(&bst, right, Direction::Right), right);
}

#[test]
fn test_next_inroder() {
    //   2
    //  / \
    // 1   4
    //    /
    //   3
    let mut bst = SimpleBst::new();
    bst.insert(2);
    bst.insert(4);
    bst.insert(1);
    bst.insert(3);
    let root = bst.get_root().unwrap();
    let e1node = get_extreme(&bst, root, Direction::Left);
    let e2node = next_inorder(&bst, e1node).unwrap();
    let e3node = next_inorder(&bst, e2node).unwrap();
    let e4node = next_inorder(&bst, e3node).unwrap();
    let should_be_none = next_inorder(&bst, e4node);

    assert_eq!(bst.get_node(e1node).as_value(), 1);
    assert_eq!(bst.get_node(e2node).as_value(), 2);
    assert_eq!(bst.get_node(e3node).as_value(), 3);
    assert_eq!(bst.get_node(e4node).as_value(), 4);
    assert!(should_be_none.is_none());
}

#[test]
fn bst_test_iter() {
    let mut bst = SimpleBst::new();
    bst.insert(2);
    bst.insert(4);
    bst.insert(1);
    bst.insert(3);
    assert_eq!(collect(&bst), vec![1, 2, 3, 4]);
}

#[test]
fn test_find() {
    //   3
    //  / \
    // 1   5
    //    /
    //   4
    let mut bst = SimpleBst::new();
    bst.insert(3);
    bst.insert(5);
    bst.insert(1);
    bst.insert(4);
    assert_eq!(bst.get_node(bst.find(3).unwrap()).as_value(), 3);
    assert_eq!(bst.get_node(bst.find(5).unwrap()).as_value(), 5);
    assert_eq!(bst.get_node(bst.find(1).unwrap()).as_value(), 1);
    assert_eq!(bst.get_node(bst.find(4).unwrap()).as_value(), 4);
    assert!(bst.find(2).is_none());
    assert!(bst.find(6).is_none());
}

fn six_node_tree() -> SimpleBst {
    //     3
    //   /   \
    // 1       5
    //  \     / \
    //   2   4   6
    let mut bst = SimpleBst::new();
    bst.insert(3);
    bst.insert(1);
    bst.insert(5);
    bst.insert(2);
    bst.insert(4);
    bst.insert(6);
    bst
}

#[test]
fn test_extract() {
    let mut bst = six_node_tree();
    let e3node = bst.get_root().unwrap();
    assert_eq!(bst.get_node(e3node).as_value(), 3);
    let e1node = bst.get_node(e3node).get_child(Direction::Left).unwrap();
    assert_eq!(bst.get_node(e1node).as_value(), 1);
    let e2node = bst.get_node(e1node).get_child(Direction::Right).unwrap();
    assert_eq!(bst.get_node(e2node).as_value(), 2);
    let e5node = bst.get_node(e3node).get_child(Direction::Right).unwrap();
    assert_eq!(bst.get_node(e5node).as_value(), 5);
    let e4node = bst.get_node(e5node).get_child(Direction::Left).unwrap();
    assert_eq!(bst.get_node(e4node).as_value(), 4);
    let e6node = bst.get_node(e5node).get_child(Direction::Right).unwrap();
    assert_eq!(bst.get_node(e6node).as_value(), 6);

    // extract a node without children
    let (maybe_direction_and_parent, maybe_left_child, maybe_right_child) = bst.extract(e2node);
    let (direction, parent) = maybe_direction_and_parent.unwrap();
    assert_eq!(direction, Direction::Right);
    assert_eq!(parent, e1node);
    assert_eq!(maybe_left_child, None);
    assert_eq!(maybe_right_child, None);

    // extract a node with two children
    let (maybe_direction_and_parent, maybe_left_child, maybe_right_child) = bst.extract(e5node);
    let (direction, parent) = maybe_direction_and_parent.unwrap();
    assert_eq!(direction, Direction::Right);
    assert_eq!(parent, e3node);
    assert_eq!(maybe_left_child, Some(e4node));
    assert_eq!(maybe_right_child, Some(e6node));

    // extract the root
    let (maybe_direction_and_parent, maybe_left_child, maybe_right_child) = bst.extract(e3node);
    assert_eq!(maybe_direction_and_parent, None);
    assert_eq!(maybe_left_child, Some(e1node));
    assert_eq!(maybe_right_child, None);

    // rebuild and extract a leaf on the right edge
    let mut bst = six_node_tree();
    let e3node = bst.get_root().unwrap();
    let e5node = bst.get_node(e3node).get_child(Direction::Right).unwrap();
    let e6node = bst.get_node(e5node).get_child(Direction::Right).unwrap();
    let (maybe_direction_and_parent, maybe_left_child, maybe_right_child) = bst.extract(e6node);
    let (direction, parent) = maybe_direction_and_parent.unwrap();
    assert_eq!(direction, Direction::Right);
    assert_eq!(parent, e5node);
    assert_eq!(maybe_left_child, None);
    assert_eq!(maybe_right_child, None);
}

#[test]
fn test_into_value() {
    // a freshly made node carries no links and can be consumed
    let node = SimpleBstNode::new(42);
    assert_eq!(node.into_value(), 42);
    // an extracted leaf is fully unlinked and can be consumed as well
    let mut bst = SimpleBst::new();
    bst.insert(2);
    bst.insert(1);
    let leaf = bst.find(1).unwrap();
    bst.extract(leaf);
    let detached = bst.get_node(leaf);
    assert!(detached.is_root());
    assert!(detached.is_leaf());
    assert_eq!(detached.into_value(), 1);
}

#[test]
fn test_delete_two_children_keeps_inner_subtree() {
    // removing a node with two children promotes an extremum of one side;
    // the extremum's own inner subtree is transplanted, never lost
    let mut bst = SimpleBst::new();
    for v in [5u64, 2, 8, 1, 4, 3] {
        bst.insert(v);
    }
    assert_eq!(bst.delete(5), Some(5));
    for v in [1u64, 2, 3, 4, 8] {
        assert!(bst.find(v).is_some());
    }
    assert_eq!(bst.in_order(), vec![1, 2, 3, 4, 8]);
}

#[test]
fn test_delete() {
    let mut bst = six_node_tree();

    assert_eq!(bst.delete(5), Some(5));
    assert_eq!(collect(&bst), vec![1, 2, 3, 4, 6]);

    assert_eq!(bst.delete(3), Some(3));
    assert_eq!(collect(&bst), vec![1, 2, 4, 6]);

    assert_eq!(bst.delete(4), Some(4));
    assert_eq!(collect(&bst), vec![1, 2, 6]);

    assert_eq!(bst.delete(2), Some(2));
    assert_eq!(collect(&bst), vec![1, 6]);

    assert_eq!(bst.delete(6), Some(6));
    assert_eq!(collect(&bst), vec![1]);

    assert_eq!(bst.delete(1), Some(1));
    assert!(collect(&bst).is_empty());

    assert_eq!(bst.delete(1), None);
}

#[test]
fn test_delete_all_in_random_order() {
    // deleting every inserted value eventually empties the tree
    let values = [13u64, 7, 21, 3, 11, 17, 29, 2, 5, 19];
    let mut bst = SimpleBst::new();
    for v in values {
        bst.insert(v);
    }
    for v in [11u64, 29, 13, 2, 21, 7, 3, 19, 17, 5] {
        bst.delete(v);
        assert!(bst.find(v).is_none());
    }
    assert!(collect(&bst).is_empty());
    for v in values {
        assert!(bst.find(v).is_none());
    }
}

#[test]
fn test_in_order_is_sorted() {
    let mut bst = SimpleBst::new();
    for v in [5u64, 9, 1, 7, 3, 8, 2] {
        bst.insert(v);
    }
    assert_eq!(bst.in_order(), vec![1, 2, 3, 5, 7, 8, 9]);
}
