use red_black_tree::model::Color;
use red_black_tree::red_black_tree::RedBlackTree;

enum Shape {
    Leaf,
    Node(i32, Box<Shape>, Box<Shape>),
}

fn rebuild(pre: &[i32], ino: &[i32]) -> Shape {
    if pre.is_empty() {
        return Shape::Leaf;
    }
    let root = pre[0];
    let pos = ino.iter().position(|&k| k == root).expect("root must appear in-order");
    let left = rebuild(&pre[1..1 + pos], &ino[..pos]);
    let right = rebuild(&pre[1 + pos..], &ino[pos + 1..]);
    Shape::Node(root, Box::new(left), Box::new(right))
}

fn colour(t: &RedBlackTree, key: i32) -> Color {
    t.color_of(key).expect("stored key must have a colour")
}

/// Checks the red-black colouring over the rebuilt shape and returns
/// the black height; panics on any violation.
fn check_colours(t: &RedBlackTree, shape: &Shape) -> usize {
    match shape {
        Shape::Leaf => 0,
        Shape::Node(key, left, right) => {
            let c = colour(t, *key);
            if c == Color::Red {
                if let Shape::Node(lk, _, _) = &**left {
                    assert_ne!(colour(t, *lk), Color::Red, "red node {key} has red left child");
                }
                if let Shape::Node(rk, _, _) = &**right {
                    assert_ne!(colour(t, *rk), Color::Red, "red node {key} has red right child");
                }
            }
            let hl = check_colours(t, left);
            let hr = check_colours(t, right);
            assert_eq!(hl, hr, "black heights differ under {key}");
            hl + if c == Color::Black { 1 } else { 0 }
        },
    }
}

fn check_invariants(t: &RedBlackTree, reference: &[i32]) {
    let ino = t.inorder_traversal();
    assert_eq!(ino, reference, "in-order keys must match the reference set");
    assert_eq!(t.size(), reference.len());
    let pre = t.preorder_traversal();
    if let Some(&root) = pre.first() {
        assert_eq!(colour(t, root), Color::Black, "root must be black");
    }
    let shape = rebuild(&pre, &ino);
    let h = check_colours(t, &shape);
    assert_eq!(h, t.black_height());
}

struct Lcg(u64);

impl Lcg {
    fn next(&mut self) -> u64 {
        self.0 = self.0.wrapping_mul(6364136223846793005).wrapping_add(1442695040888963407);
        self.0 >> 33
    }
}

#[test]
fn random_inserts_then_deletes_match_reference_set() {
    let mut rng = Lcg(0x5eed);
    let mut tree = RedBlackTree::new();
    let mut reference: Vec<i32> = Vec::new();
    for _ in 0..300 {
        let key = (rng.next() % 500) as i32;
        tree.insert(key);
        if let Err(at) = reference.binary_search(&key) {
            reference.insert(at, key);
        }
        check_invariants(&tree, &reference);
        assert_eq!(tree.get(key), Some(key));
    }
    while !reference.is_empty() {
        let at = (rng.next() as usize) % reference.len();
        let key = reference.remove(at);
        tree.delete(key);
        check_invariants(&tree, &reference);
        assert_eq!(tree.get(key), None);
    }
    assert_eq!(tree.size(), 0);
}

#[test]
fn interleaved_random_operations_match_reference_set() {
    let mut rng = Lcg(0xace);
    let mut tree = RedBlackTree::new();
    let mut reference: Vec<i32> = Vec::new();
    for _ in 0..400 {
        let key = (rng.next() % 120) as i32 - 60;
        if rng.next() % 3 == 0 {
            tree.delete(key);
            if let Ok(at) = reference.binary_search(&key) {
                reference.remove(at);
            }
            assert_eq!(tree.get(key), None);
        } else {
            tree.insert(key);
            if let Err(at) = reference.binary_search(&key) {
                reference.insert(at, key);
            }
            assert_eq!(tree.get(key), Some(key));
        }
        check_invariants(&tree, &reference);
    }
}
