use red_black_tree::model::Color;
use red_black_tree::red_black_tree::RedBlackTree;

fn snapshot(t: &RedBlackTree) -> (Vec<i32>, Vec<i32>, Vec<i32>, Vec<Option<Color>>) {
    let ino = t.inorder_traversal();
    let colors = ino.iter().map(|&k| t.color_of(k)).collect();
    (t.preorder_traversal(), ino, t.postorder_traversal(), colors)
}

#[test]
fn empty_tree_has_nothing() {
    let mut t = RedBlackTree::new();
    assert_eq!(t.size(), 0);
    assert_eq!(t.get(5), None);
    t.delete(5);
    assert_eq!(t.size(), 0);
    assert_eq!(t.black_height(), 0);
}

#[test]
fn membership_follows_insert_and_delete() {
    let mut t = RedBlackTree::new();
    t.insert(8);
    t.insert(3);
    t.insert(12);
    assert_eq!(t.get(8), Some(8));
    assert_eq!(t.get(3), Some(3));
    assert_eq!(t.get(12), Some(12));
    assert_eq!(t.get(7), None);
    t.delete(3);
    assert_eq!(t.get(3), None);
    assert_eq!(t.get(8), Some(8));
    assert_eq!(t.size(), 2);
}

#[test]
fn duplicate_insert_is_a_structural_no_op() {
    let mut t = RedBlackTree::new();
    for k in [5, 1, 9, 3, 7, 11] {
        t.insert(k);
    }
    let before = snapshot(&t);
    t.insert(9);
    t.insert(5);
    t.insert(11);
    assert_eq!(snapshot(&t), before);
    assert_eq!(t.size(), 6);
}

#[test]
fn absent_delete_is_a_structural_no_op() {
    let mut t = RedBlackTree::new();
    for k in [5, 1, 9, 3, 7, 11] {
        t.insert(k);
    }
    let before = snapshot(&t);
    t.delete(0);
    t.delete(6);
    t.delete(100);
    assert_eq!(snapshot(&t), before);
    assert_eq!(t.size(), 6);
}

#[test]
fn delete_red_leaf() {
    let mut t = RedBlackTree::new();
    for k in [10, 5, 15] {
        t.insert(k);
    }
    t.delete(5);
    assert_eq!(t.inorder_traversal(), vec![10, 15]);
    assert_eq!(t.color_of(10), Some(Color::Black));
    assert_eq!(t.color_of(15), Some(Color::Red));
}

#[test]
fn delete_node_with_one_child_promotes_it_black() {
    let mut t = RedBlackTree::new();
    for k in [10, 5, 15, 12] {
        t.insert(k);
    }
    // 15 is black with the red child 12
    t.delete(15);
    assert_eq!(t.inorder_traversal(), vec![5, 10, 12]);
    assert_eq!(t.color_of(12), Some(Color::Black));
    assert_eq!(t.get(15), None);
}

#[test]
fn delete_node_with_two_children_splices_successor() {
    let mut t = RedBlackTree::new();
    for k in [10, 5, 15, 12, 20] {
        t.insert(k);
    }
    t.delete(15);
    assert_eq!(t.inorder_traversal(), vec![5, 10, 12, 20]);
    assert_eq!(t.get(15), None);
    assert_eq!(t.get(20), Some(20));
}

#[test]
fn delete_root_with_two_children() {
    let mut t = RedBlackTree::new();
    for k in [10, 5, 15] {
        t.insert(k);
    }
    t.delete(10);
    assert_eq!(t.inorder_traversal(), vec![5, 15]);
    assert_eq!(t.get(10), None);
    // the successor 15 takes the root position and its colour
    assert_eq!(t.color_of(15), Some(Color::Black));
}

#[test]
fn successor_is_direct_right_child() {
    // deleting 10 whose right child 12 is its own successor exercises
    // the one-step splice
    let mut t = RedBlackTree::new();
    for k in [10, 5, 12] {
        t.insert(k);
    }
    t.delete(10);
    assert_eq!(t.inorder_traversal(), vec![5, 12]);
    assert_eq!(t.color_of(12), Some(Color::Black));
    assert_eq!(t.color_of(5), Some(Color::Red));
}

#[test]
fn extreme_keys_are_ordinary() {
    let mut t = RedBlackTree::new();
    t.insert(i32::MAX);
    t.insert(i32::MIN);
    t.insert(0);
    t.insert(-1);
    assert_eq!(t.inorder_traversal(), vec![i32::MIN, -1, 0, i32::MAX]);
    t.delete(i32::MIN);
    assert_eq!(t.inorder_traversal(), vec![-1, 0, i32::MAX]);
    assert_eq!(t.get(i32::MAX), Some(i32::MAX));
}

#[test]
fn inorder_is_always_sorted() {
    let mut t = RedBlackTree::new();
    for k in [41, 38, 31, 12, 19, 8, 45, 99, -3, 0, 55, 23] {
        t.insert(k);
        let ino = t.inorder_traversal();
        for w in ino.windows(2) {
            assert!(w[0] < w[1]);
        }
    }
    for k in [19, 41, -3, 99] {
        t.delete(k);
        let ino = t.inorder_traversal();
        for w in ino.windows(2) {
            assert!(w[0] < w[1]);
        }
    }
    assert_eq!(t.size(), 8);
}

#[test]
fn traversal_orders_agree_on_contents() {
    let mut t = RedBlackTree::new();
    for k in [7, 2, 9, 1, 5, 8, 11] {
        t.insert(k);
    }
    let mut pre = t.preorder_traversal();
    let mut post = t.postorder_traversal();
    let ino = t.inorder_traversal();
    pre.sort();
    post.sort();
    assert_eq!(pre, ino);
    assert_eq!(post, ino);
}
