use algorithms_exercises::avl_tree::{AVLTree, Node};

#[test]
fn test_node_update_in_new_location() {
    {
        let mut node = Node::new(10, None, None);
        node.update_in_new_location();
        assert_eq!(node.height, 1);
    }

    {
        let mut left_child = Node::new(5, None, None);
        left_child.height = 2;
        let mut node = Node::new(10, Some(Box::new(left_child)), None);
        node.update_in_new_location();
        assert_eq!(node.height, 3);
    }

    {
        let mut right_child = Node::new(15, None, None);
        right_child.height = 2;
        let mut node = Node::new(10, None, Some(Box::new(right_child)));
        node.update_in_new_location();
        assert_eq!(node.height, 3);
    }

    {
        let mut left_child = Node::new(5, None, None);
        left_child.height = 3;
        let mut right_child = Node::new(15, None, None);
        right_child.height = 2;
        let mut node = Node::new(10, Some(Box::new(left_child)), Some(Box::new(right_child)));
        node.update_in_new_location();
        assert_eq!(node.height, 4);
    }

    {
        let mut left_child = Node::new(5, None, None);
        left_child.height = 2;
        let mut right_child = Node::new(15, None, None);
        right_child.height = 3;
        let mut node = Node::new(10, Some(Box::new(left_child)), Some(Box::new(right_child)));
        node.update_in_new_location();
        assert_eq!(node.height, 4);
    }
}

#[test]
fn test_rotate_ll() {
    {
        let right_grand_child = Some(Box::new(Node::new(25, None, None)));
        let left_grand_child = Some(Box::new(Node::new(5, None, None)));
        let left_child = Some(Box::new(Node::new(10, left_grand_child, Some(Box::new(Node::new(15, None, None))))));
        let mut root = Node::new(20, left_child, right_grand_child);

        root.rotate_ll();

        assert_eq!(root.value, 10);
        assert_eq!(root.left.as_ref().unwrap().value, 5);
        assert_eq!(root.right.as_ref().unwrap().value, 20);
        assert_eq!(root.right.as_ref().unwrap().left.as_ref().unwrap().value, 15);
        assert_eq!(root.right.as_ref().unwrap().right.as_ref().unwrap().value, 25);
    }

    {
        let left_grand_child = Some(Box::new(Node::new(5, None, None)));
        let left_child = Some(Box::new(Node::new(10, left_grand_child, Some(Box::new(Node::new(15, None, None))))));
        let mut root = Node::new(20, left_child, Some(Box::new(Node::new(25, None, None))));

        root.rotate_ll();

        assert_eq!(root.height, 3);
        assert_eq!(root.left.as_ref().unwrap().height, 1);
        assert_eq!(root.right.as_ref().unwrap().height, 2);
    }
}

#[test]
fn test_rotate_rr() {
    {
        let left_grand_child = Some(Box::new(Node::new(5, None, None)));
        let right_grand_child = Some(Box::new(Node::new(25, None, None)));
        let right_child = Some(Box::new(Node::new(20, Some(Box::new(Node::new(15, None, None))), right_grand_child)));
        let mut root = Node::new(10, left_grand_child, right_child);

        root.rotate_rr();

        assert_eq!(root.value, 20);
        assert_eq!(root.left.as_ref().unwrap().value, 10);
        assert_eq!(root.right.as_ref().unwrap().value, 25);
        assert_eq!(root.left.as_ref().unwrap().left.as_ref().unwrap().value, 5);
        assert_eq!(root.left.as_ref().unwrap().right.as_ref().unwrap().value, 15);
    }

    {
        let left_grand_child = Some(Box::new(Node::new(5, None, None)));
        let right_child = Some(Box::new(Node::new(20, Some(Box::new(Node::new(15, None, None))), Some(Box::new(Node::new(25, None, None))))));
        let mut root = Node::new(10, left_grand_child, right_child);

        root.rotate_rr();

        assert_eq!(root.height, 3);
        assert_eq!(root.left.as_ref().unwrap().height, 2);
        assert_eq!(root.right.as_ref().unwrap().height, 1);
    }
}

#[test]
fn test_balance() {
    {
        let mut root = Node::new(3, None, None);
        root.left = Some(Box::new(Node::new(2, None, None)));
        root.left.as_mut().unwrap().left = Some(Box::new(Node::new(1, None, None)));
        root.height = 3;
        root.left.as_mut().unwrap().height = 2;
        root.left.as_mut().unwrap().left.as_mut().unwrap().height = 1;

        root.balance();

        assert_eq!(root.value, 2);
        assert_eq!(root.height, 2);
        assert_eq!(root.left.as_ref().unwrap().value, 1);
        assert_eq!(root.left.as_ref().unwrap().height, 1);
        assert_eq!(root.right.as_ref().unwrap().value, 3);
        assert_eq!(root.right.as_ref().unwrap().height, 1);
    }

    {
        let mut root = Node::new(1, None, None);
        root.right = Some(Box::new(Node::new(2, None, None)));
        root.right.as_mut().unwrap().right = Some(Box::new(Node::new(3, None, None)));
        root.height = 3;
        root.right.as_mut().unwrap().height = 2;
        root.right.as_mut().unwrap().right.as_mut().unwrap().height = 1;

        root.balance();

        assert_eq!(root.value, 2);
        assert_eq!(root.height, 2);
        assert_eq!(root.left.as_ref().unwrap().value, 1);
        assert_eq!(root.left.as_ref().unwrap().height, 1);
        assert_eq!(root.right.as_ref().unwrap().value, 3);
        assert_eq!(root.right.as_ref().unwrap().height, 1);
    }

    {
        let mut root = Node::new(3, None, None);
        root.left = Some(Box::new(Node::new(1, None, None)));
        root.left.as_mut().unwrap().right = Some(Box::new(Node::new(2, None, None)));
        root.height = 3;
        root.left.as_mut().unwrap().height = 2;
        root.left.as_mut().unwrap().right.as_mut().unwrap().height = 1;

        root.balance();

        assert_eq!(root.value, 2);
        assert_eq!(root.height, 2);
        assert_eq!(root.left.as_ref().unwrap().value, 1);
        assert_eq!(root.left.as_ref().unwrap().height, 1);
        assert_eq!(root.right.as_ref().unwrap().value, 3);
        assert_eq!(root.right.as_ref().unwrap().height, 1);
    }

    {
        let mut root = Node::new(1, None, None);
        root.right = Some(Box::new(Node::new(3, None, None)));
        root.right.as_mut().unwrap().left = Some(Box::new(Node::new(2, None, None)));
        root.height = 3;
        root.right.as_mut().unwrap().height = 2;
        root.right.as_mut().unwrap().left.as_mut().unwrap().height = 1;

        root.balance();

        assert_eq!(root.value, 2);
        assert_eq!(root.height, 2);
        assert_eq!(root.left.as_ref().unwrap().value, 1);
        assert_eq!(root.left.as_ref().unwrap().height, 1);
        assert_eq!(root.right.as_ref().unwrap().value, 3);
        assert_eq!(root.right.as_ref().unwrap().height, 1);
    }
}

#[test]
fn test_avl_tree() {
    let avl_tree = AVLTree::new(Vec::from([3, 7, 4, 6, 5, 1, 10, 2, 9, 8]));

    assert_eq!(avl_tree.root.as_ref().unwrap().value, 4);

    assert_eq!(
        avl_tree.root.as_ref().unwrap().left.as_ref().unwrap().value,
        2
    );

    assert_eq!(
        avl_tree.root.as_ref().unwrap()
            .left.as_ref().unwrap()
            .left.as_ref().unwrap()
            .value,
        1
    );
    assert!(
        avl_tree.root.as_ref().unwrap()
            .left.as_ref().unwrap()
            .left.as_ref().unwrap()
            .left.as_ref().is_none(),
    );
    assert!(
        avl_tree.root.as_ref().unwrap()
            .left.as_ref().unwrap()
            .left.as_ref().unwrap()
            .right.as_ref().is_none(),
    );

    assert_eq!(
        avl_tree.root.as_ref().unwrap()
            .left.as_ref().unwrap()
            .right.as_ref().unwrap()
            .value,
        3
    );
    assert!(
        avl_tree.root.as_ref().unwrap()
            .left.as_ref().unwrap()
            .right.as_ref().unwrap()
            .left.as_ref().is_none(),
    );
    assert!(
        avl_tree.root.as_ref().unwrap()
            .left.as_ref().unwrap()
            .right.as_ref().unwrap()
            .right.as_ref().is_none(),
    );

    assert_eq!(
        avl_tree.root.as_ref().unwrap()
            .right.as_ref().unwrap()
            .value,
        7
    );

    assert_eq!(
        avl_tree.root.as_ref().unwrap()
            .right.as_ref().unwrap()
            .left.as_ref().unwrap()
            .value,
        6
    );
    assert!(
        avl_tree.root.as_ref().unwrap()
            .right.as_ref().unwrap()
            .left.as_ref().unwrap()
            .right.as_ref().is_none()
    );

    assert_eq!(
        avl_tree.root.as_ref().unwrap()
            .right.as_ref().unwrap()
            .left.as_ref().unwrap()
            .left.as_ref().unwrap()
            .value,
        5
    );
    assert!(
        avl_tree.root.as_ref().unwrap()
            .right.as_ref().unwrap()
            .left.as_ref().unwrap()
            .left.as_ref().unwrap()
            .left.as_ref().is_none()
    );
    assert!(
        avl_tree.root.as_ref().unwrap()
            .right.as_ref().unwrap()
            .right.as_ref().unwrap()
            .left.as_ref().unwrap()
            .right.as_ref().is_none()
    );

    assert_eq!(
        avl_tree.root.as_ref().unwrap()
            .right.as_ref().unwrap()
            .right.as_ref().unwrap()
            .value,
        9
    );

    assert_eq!(
        avl_tree.root.as_ref().unwrap()
            .right.as_ref().unwrap()
            .right.as_ref().unwrap()
            .left.as_ref().unwrap()
            .value,
        8
    );
    assert!(
        avl_tree.root.as_ref().unwrap()
            .right.as_ref().unwrap()
            .right.as_ref().unwrap()
            .left.as_ref().unwrap()
            .left.as_ref().is_none()
    );

    assert_eq!(
        avl_tree.root.as_ref().unwrap()
            .right.as_ref().unwrap()
            .right.as_ref().unwrap()
            .right.as_ref().unwrap()
            .value,
        10
    );
    assert!(
        avl_tree.root.as_ref().unwrap()
            .right.as_ref().unwrap()
            .right.as_ref().unwrap()
            .right.as_ref().unwrap()
            .left.as_ref().is_none()
    );
    assert!(
        avl_tree.root.as_ref().unwrap()
            .right.as_ref().unwrap()
            .right.as_ref().unwrap()
            .right.as_ref().unwrap()
            .right.as_ref().is_none()
    );
}

/// Walks a subtree, asserting cached heights, balance and order, and returns
/// its height together with its values in order.
fn subtree_shape(node: &Option<Box<Node<i64>>>) -> (usize, Vec<i64>) {
    match node {
        None => (0, Vec::new()),
        Some(n) => {
            let (lh, mut values) = subtree_shape(&n.left);
            let (rh, right_values) = subtree_shape(&n.right);
            assert_eq!(n.height, 1 + lh.max(rh));
            assert!(lh.abs_diff(rh) <= 1);
            for v in &values {
                assert!(*v <= n.value);
            }
            for v in &right_values {
                assert!(*v >= n.value);
            }
            values.push(n.value);
            values.extend(right_values);
            (n.height, values)
        }
    }
}

fn found_by_descent(node: &Option<Box<Node<i64>>>, x: i64) -> bool {
    match node {
        None => false,
        Some(n) => {
            if x == n.value {
                true
            } else if x < n.value {
                found_by_descent(&n.left, x)
            } else {
                found_by_descent(&n.right, x)
            }
        }
    }
}

#[test]
fn avl_mixed_inserts_root() {
    let avl_tree = AVLTree::new(Vec::from([1, 3, 2, 5, 4]));
    assert_eq!(avl_tree.root.as_ref().unwrap().value, 2);
}

#[test]
fn avl_single_rotation_fixture() {
    let avl_tree = AVLTree::new(Vec::from([3, 2, 1]));
    let root = avl_tree.root.as_ref().unwrap();
    assert_eq!(root.value, 2);
    assert_eq!(root.height, 2);
    assert_eq!(root.left.as_ref().unwrap().value, 1);
    assert_eq!(root.left.as_ref().unwrap().height, 1);
    assert_eq!(root.right.as_ref().unwrap().value, 3);
    assert_eq!(root.right.as_ref().unwrap().height, 1);
}

#[test]
fn avl_double_rotation_fixture() {
    let avl_tree = AVLTree::new(Vec::from([3, 1, 2]));
    let root = avl_tree.root.as_ref().unwrap();
    assert_eq!(root.value, 2);
    assert_eq!(root.height, 2);
    assert_eq!(root.left.as_ref().unwrap().value, 1);
    assert_eq!(root.right.as_ref().unwrap().value, 3);
}

#[test]
fn avl_balance_leaves_balanced_node_unchanged() {
    let left = Some(Box::new(Node::new(1, None, None)));
    let right = Some(Box::new(Node::new(3, None, None)));
    let mut root = Node::new(2, left, right);
    root.height = 2;
    root.balance();
    assert_eq!(root.value, 2);
    assert_eq!(root.height, 2);
    assert_eq!(root.left.as_ref().unwrap().value, 1);
    assert_eq!(root.right.as_ref().unwrap().value, 3);

    let mut leaning = Node::new(2, Some(Box::new(Node::new(1, None, None))), None);
    leaning.height = 2;
    leaning.balance();
    assert_eq!(leaning.value, 2);
    assert_eq!(leaning.height, 2);
    assert_eq!(leaning.left.as_ref().unwrap().value, 1);
    assert!(leaning.right.is_none());
}

#[test]
fn avl_invariants_hold_after_every_add() {
    let mut tree = AVLTree::new(Vec::new());
    assert!(tree.root.is_none());
    let mut added: Vec<i64> = Vec::new();
    for k in 0..200i64 {
        let v = (k * 37) % 101 - 50;
        tree.add(v);
        added.push(v);
        let (_, values) = subtree_shape(&tree.root);
        let mut expected = added.clone();
        expected.sort();
        assert_eq!(values, expected);
        for x in &added {
            assert!(found_by_descent(&tree.root, *x));
        }
    }
}

#[test]
fn avl_ascending_inserts_stay_shallow() {
    let tree = AVLTree::new((1..=1023).collect());
    let (height, values) = subtree_shape(&tree.root);
    assert!(height <= 14);
    assert_eq!(values, (1..=1023).collect::<Vec<i64>>());
}

#[test]
fn avl_equal_values_go_right_then_rotate() {
    let tree = AVLTree::new(Vec::from([1, 1, 1]));
    let root = tree.root.as_ref().unwrap();
    assert_eq!(root.value, 1);
    assert_eq!(root.left.as_ref().unwrap().value, 1);
    assert_eq!(root.right.as_ref().unwrap().value, 1);
    subtree_shape(&tree.root);
}

#[test]
fn avl_right_left_rotation() {
    let mut root = Node::new(1, None, None);
    root.right = Some(Box::new(Node::new(3, None, None)));
    root.right.as_mut().unwrap().left = Some(Box::new(Node::new(2, None, None)));
    root.height = 3;
    root.right.as_mut().unwrap().height = 2;
    root.balance();
    assert_eq!(root.value, 2);
    assert_eq!(root.left.as_ref().unwrap().value, 1);
    assert_eq!(root.right.as_ref().unwrap().value, 3);
    assert!(root.right.as_ref().unwrap().left.is_none());
}
