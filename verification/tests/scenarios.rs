use red_black_tree::model::Color;
use red_black_tree::red_black_tree::RedBlackTree;

fn build(keys: &[i32]) -> RedBlackTree {
    let mut t = RedBlackTree::new();
    for &k in keys {
        t.insert(k);
    }
    t
}

#[test]
fn ascending_insert_rotates_rr() {
    let t = build(&[10, 20, 30]);
    assert_eq!(t.preorder_traversal(), vec![20, 10, 30]);
    assert_eq!(t.inorder_traversal(), vec![10, 20, 30]);
    assert_eq!(t.postorder_traversal(), vec![10, 30, 20]);
    assert_eq!(t.color_of(20), Some(Color::Black));
    assert_eq!(t.color_of(10), Some(Color::Red));
    assert_eq!(t.color_of(30), Some(Color::Red));
}

#[test]
fn descending_insert_rotates_ll() {
    let t = build(&[30, 20, 10]);
    assert_eq!(t.preorder_traversal(), vec![20, 10, 30]);
    assert_eq!(t.inorder_traversal(), vec![10, 20, 30]);
    assert_eq!(t.color_of(20), Some(Color::Black));
    assert_eq!(t.color_of(10), Some(Color::Red));
    assert_eq!(t.color_of(30), Some(Color::Red));
}

#[test]
fn zigzag_insert_rotates_lr() {
    let t = build(&[10, 30, 20]);
    assert_eq!(t.preorder_traversal(), vec![20, 10, 30]);
    assert_eq!(t.inorder_traversal(), vec![10, 20, 30]);
    assert_eq!(t.color_of(20), Some(Color::Black));
    assert_eq!(t.color_of(10), Some(Color::Red));
    assert_eq!(t.color_of(30), Some(Color::Red));
}

#[test]
fn zigzag_insert_rotates_rl() {
    let t = build(&[30, 10, 20]);
    assert_eq!(t.preorder_traversal(), vec![20, 10, 30]);
    assert_eq!(t.inorder_traversal(), vec![10, 20, 30]);
    assert_eq!(t.color_of(20), Some(Color::Black));
}

#[test]
fn seven_keys_black_height_two() {
    let t = build(&[4, 2, 6, 1, 3, 5, 7]);
    assert_eq!(t.size(), 7);
    assert_eq!(t.black_height(), 2);
    assert_eq!(t.inorder_traversal(), vec![1, 2, 3, 4, 5, 6, 7]);
    assert_eq!(t.color_of(4), Some(Color::Black));
    assert_eq!(t.color_of(2), Some(Color::Black));
    assert_eq!(t.color_of(6), Some(Color::Black));
    assert_eq!(t.color_of(1), Some(Color::Red));
    assert_eq!(t.color_of(3), Some(Color::Red));
    assert_eq!(t.color_of(5), Some(Color::Red));
    assert_eq!(t.color_of(7), Some(Color::Red));
}

#[test]
fn single_node_delete_empties_tree() {
    let mut t = RedBlackTree::new();
    t.insert(10);
    assert_eq!(t.size(), 1);
    t.delete(10);
    assert_eq!(t.size(), 0);
    assert_eq!(t.get(10), None);
    assert_eq!(t.inorder_traversal(), Vec::<i32>::new());
}

#[test]
fn uncle_recolour_keeps_root_black() {
    // inserting 1 under 2 with red uncle 6 recolours instead of rotating
    let t = build(&[4, 2, 6, 1]);
    assert_eq!(t.color_of(4), Some(Color::Black));
    assert_eq!(t.color_of(2), Some(Color::Black));
    assert_eq!(t.color_of(6), Some(Color::Black));
    assert_eq!(t.color_of(1), Some(Color::Red));
    assert_eq!(t.preorder_traversal(), vec![4, 2, 1, 6]);
}
