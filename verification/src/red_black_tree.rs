//! The red-black tree container and its verified operations.

use vstd::prelude::*;

use crate::model::Color;
use crate::model::Tree;
use crate::model::Side;
use crate::model::balanced;
use crate::model::black_height_of;
use crate::model::bst;
use crate::model::child_of;
use crate::model::color_in;
use crate::model::inorder;
use crate::model::is_node;
use crate::model::is_red;
use crate::model::key_of;
use crate::model::keys;
use crate::model::left_of;
use crate::model::lemma_all_above_equiv;
use crate::model::lemma_all_below_equiv;
use crate::model::lemma_color_in_some;
use crate::model::lemma_parts;
use crate::model::lemma_keys_len;
use crate::model::no_red_red;
use crate::model::node_count;
use crate::model::opposite;
use crate::model::postorder;
use crate::model::preorder;
use crate::model::right_of;
use crate::model::root_color;
use crate::model::rotated_left;
use crate::model::rotated_right;
use crate::model::with_color;

verus! {

/// An ordered set of `i32` keys kept as a red-black tree.
pub struct RedBlackTree {
    pub root: Tree,
}

impl View for RedBlackTree {
    type V = Set<i32>;

    open spec fn view(&self) -> Set<i32> {
        keys(self.root)
    }
}

impl RedBlackTree {
    /// The invariants that hold after every public operation: the tree
    /// is a binary search tree, no red node has a red child, every path
    /// from a node to an empty link crosses the same number of black
    /// nodes, and the root is black when the tree is not empty.
    pub open spec fn wf(self) -> bool {
        &&& bst(self.root)
        &&& no_red_red(self.root)
        &&& balanced(self.root)
        &&& root_color(self.root) == Color::Black
    }

    /// Creates an empty tree.
    pub fn new() -> (tree: Self)
        ensures
            tree.wf(),
            tree@ == Set::<i32>::empty(),
    {
        proof {
            assert(keys(Tree::Nil) =~= Set::<i32>::empty());
        }
        RedBlackTree { root: Tree::Nil }
    }

    /// The number of distinct keys currently present, counted by a full
    /// traversal.
    pub fn size(&self) -> (n: usize)
        requires
            self.wf(),
            node_count(self.root) <= usize::MAX,
        ensures
            n == self@.len(),
    {
        proof {
            lemma_keys_len(self.root);
        }
        Self::count_size(&self.root)
    }

    /// Reads the colour of a subtree's root; an empty link reads black.
    pub fn node_is_red(t: &Tree) -> (b: bool)
        ensures
            b == is_red(*t),
    {
        match t {
            Tree::Node { color: Color::Red, .. } => true,
            _ => false,
        }
    }

    /// Tests whether the subtree is a node rather than an empty link.
    pub fn node_exists(t: &Tree) -> (b: bool)
        ensures
            b == is_node(*t),
    {
        match t {
            Tree::Nil => false,
            Tree::Node { .. } => true,
        }
    }

    /// Borrows the child of a node on the given side.
    pub fn child(t: &Tree, side: Side) -> (r: &Tree)
        ensures
            *r == child_of(*t, side),
    {
        match t {
            Tree::Nil => t,
            Tree::Node { left, right, .. } => if side == Side::Left {
                left
            } else {
                right
            },
        }
    }

    /// The other child slot.
    pub fn opposite_side(side: Side) -> (r: Side)
        ensures
            r == opposite(side),
    {
        if side == Side::Left {
            Side::Right
        } else {
            Side::Left
        }
    }

    /// Recolours the root of a subtree; an empty link stays empty.
    pub fn set_color(t: Tree, color: Color) -> (r: Tree)
        ensures
            r == with_color(t, color),
    {
        match t {
            Tree::Nil => Tree::Nil,
            Tree::Node { key, left, right, .. } => Tree::Node { key, color, left, right },
        }
    }

    /// Left rotation: the right child is promoted to the subtree's root,
    /// the former root becomes its left child, and the promoted node's
    /// old left subtree crosses over to become the former root's right
    /// child.  Key order and the set of nodes are unchanged, and no
    /// colour changes: recolouring is the caller's responsibility.
    pub fn rotate_left(grand_parent: Tree) -> (r: Tree)
        requires
            is_node(grand_parent),
            is_node(right_of(grand_parent)),
        ensures
            r == rotated_left(grand_parent),
    {
        match grand_parent {
            Tree::Node { key: gk, color: gc, left: gl, right: gr } => match *gr {
                Tree::Node { key: pk, color: pc, left: pl, right: pr } => (Tree::Node {
                    key: pk,
                    color: pc,
                    left: Box::new(Tree::Node { key: gk, color: gc, left: gl, right: pl }),
                    right: pr,
                }),
                Tree::Nil => Tree::Nil,
            },
            Tree::Nil => Tree::Nil,
        }
    }

    /// Right rotation: the mirror image of `rotate_left`.
    pub fn rotate_right(grand_parent: Tree) -> (r: Tree)
        requires
            is_node(grand_parent),
            is_node(left_of(grand_parent)),
        ensures
            r == rotated_right(grand_parent),
    {
        match grand_parent {
            Tree::Node { key: gk, color: gc, left: gl, right: gr } => match *gl {
                Tree::Node { key: pk, color: pc, left: pl, right: pr } => (Tree::Node {
                    key: pk,
                    color: pc,
                    left: pl,
                    right: Box::new(Tree::Node { key: gk, color: gc, left: pr, right: gr }),
                }),
                Tree::Nil => Tree::Nil,
            },
            Tree::Nil => Tree::Nil,
        }
    }

    /// Counts the nodes of a subtree.
    pub fn count_size(t: &Tree) -> (n: usize)
        requires
            node_count(*t) <= usize::MAX,
        ensures
            n == node_count(*t),
        decreases *t,
    {
        match t {
            Tree::Nil => 0,
            Tree::Node { left, right, .. } => {
                let l = Self::count_size(left);
                let r = Self::count_size(right);
                l + 1 + r
            },
        }
    }

    /// Locates the node holding `key` by the standard descent: equal
    /// stops, smaller goes left, larger goes right.
    pub fn find<'a>(t: &'a Tree, key: i32) -> (r: Option<&'a Tree>)
        requires
            bst(*t),
        ensures
            r.is_some() <==> keys(*t).contains(key),
            r.is_some() ==> is_node(*r.unwrap()) && key_of(*r.unwrap()) == key,
        decreases *t,
    {
        proof {
            lemma_parts(*t);
        }
        match t {
            Tree::Nil => None,
            Tree::Node { key: k0, left, right, .. } => {
                proof {
                    lemma_all_below_equiv(**left, *k0);
                    lemma_all_above_equiv(**right, *k0);
                }
                if key == *k0 {
                    Some(t)
                } else if key < *k0 {
                    Self::find(left, key)
                } else {
                    Self::find(right, key)
                }
            },
        }
    }

    /// Returns the key if it is present, or the explicit absence marker.
    pub fn get(&self, key: i32) -> (r: Option<i32>)
        requires
            self.wf(),
        ensures
            r == if self@.contains(key) {
                Some(key)
            } else {
                None::<i32>
            },
    {
        let mut cur: &Tree = &self.root;
        loop
            invariant
                bst(*cur),
                keys(*cur).contains(key) == keys(self.root).contains(key),
            decreases node_count(*cur),
        {
            proof {
                lemma_parts(*cur);
            }
            match cur {
                Tree::Nil => {
                    return None;
                },
                Tree::Node { key: k0, left, right, .. } => {
                    proof {
                        lemma_all_below_equiv(**left, *k0);
                        lemma_all_above_equiv(**right, *k0);
                    }
                    if key == *k0 {
                        return Some(*k0);
                    } else if key < *k0 {
                        cur = left;
                    } else {
                        cur = right;
                    }
                },
            }
        }
    }

    /// The colour of the node holding `key`, or `None` if it is absent.
    pub fn color_of(&self, key: i32) -> (r: Option<Color>)
        requires
            self.wf(),
        ensures
            r == color_in(self.root, key),
            r.is_some() <==> self@.contains(key),
    {
        proof {
            lemma_color_in_some(self.root, key);
        }
        Self::color_at(&self.root, key)
    }

    /// The recursive lookup behind `color_of`.
    fn color_at(t: &Tree, key: i32) -> (r: Option<Color>)
        ensures
            r == color_in(*t, key),
        decreases *t,
    {
        match t {
            Tree::Nil => None,
            Tree::Node { key: k0, color, left, right } => {
                if key == *k0 {
                    Some(*color)
                } else if key < *k0 {
                    Self::color_at(left, key)
                } else {
                    Self::color_at(right, key)
                }
            },
        }
    }

    /// The number of black nodes on the path from the root to the
    /// leftmost empty link; under the tree's invariants every path to an
    /// empty link crosses the same number.
    pub fn black_height(&self) -> (h: usize)
        requires
            black_height_of(self.root) <= usize::MAX,
        ensures
            h == black_height_of(self.root),
    {
        let mut h: usize = 0;
        let mut cur: &Tree = &self.root;
        loop
            invariant
                black_height_of(*cur) + h == black_height_of(self.root),
                black_height_of(self.root) <= usize::MAX,
            decreases node_count(*cur),
        {
            proof {
                lemma_parts(*cur);
            }
            match cur {
                Tree::Nil => {
                    return h;
                },
                Tree::Node { color, left, .. } => {
                    if *color == Color::Black {
                        h = h + 1;
                    }
                    cur = left;
                },
            }
        }
    }

    /// The keys in node-left-right order.
    pub fn preorder_traversal(&self) -> (r: Vec<i32>)
        ensures
            r@ == preorder(self.root),
    {
        let mut out = Vec::new();
        Self::do_preorder_traversal(&self.root, &mut out);
        proof {
            assert(Seq::<i32>::empty() + preorder(self.root) =~= preorder(self.root));
        }
        out
    }

    /// The keys in ascending order.
    pub fn inorder_traversal(&self) -> (r: Vec<i32>)
        ensures
            r@ == inorder(self.root),
    {
        let mut out = Vec::new();
        Self::do_inorder_traversal(&self.root, &mut out);
        proof {
            assert(Seq::<i32>::empty() + inorder(self.root) =~= inorder(self.root));
        }
        out
    }

    /// The keys in left-right-node order.
    pub fn postorder_traversal(&self) -> (r: Vec<i32>)
        ensures
            r@ == postorder(self.root),
    {
        let mut out = Vec::new();
        Self::do_postorder_traversal(&self.root, &mut out);
        proof {
            assert(Seq::<i32>::empty() + postorder(self.root) =~= postorder(self.root));
        }
        out
    }

    /// Appends the subtree's keys to `out` in node-left-right order.
    pub fn do_preorder_traversal(node: &Tree, out: &mut Vec<i32>)
        ensures
            final(out)@ == old(out)@ + preorder(*node),
        decreases *node,
    {
        proof {
            lemma_parts(*node);
        }
        match node {
            Tree::Nil => {
                proof {
                    assert(old(out)@ + preorder(Tree::Nil) =~= old(out)@);
                }
            },
            Tree::Node { key, left, right, .. } => {
                out.push(*key);
                Self::do_preorder_traversal(left, out);
                Self::do_preorder_traversal(right, out);
                proof {
                    assert(out@ =~= old(out)@ + preorder(*node));
                }
            },
        }
    }

    /// Appends the subtree's keys to `out` in ascending order.
    pub fn do_inorder_traversal(node: &Tree, out: &mut Vec<i32>)
        ensures
            final(out)@ == old(out)@ + inorder(*node),
        decreases *node,
    {
        proof {
            lemma_parts(*node);
        }
        match node {
            Tree::Nil => {
                proof {
                    assert(old(out)@ + inorder(Tree::Nil) =~= old(out)@);
                }
            },
            Tree::Node { key, left, right, .. } => {
                Self::do_inorder_traversal(left, out);
                out.push(*key);
                Self::do_inorder_traversal(right, out);
                proof {
                    assert(out@ =~= old(out)@ + inorder(*node));
                }
            },
        }
    }

    /// Appends the subtree's keys to `out` in left-right-node order.
    pub fn do_postorder_traversal(node: &Tree, out: &mut Vec<i32>)
        ensures
            final(out)@ == old(out)@ + postorder(*node),
        decreases *node,
    {
        proof {
            lemma_parts(*node);
        }
        match node {
            Tree::Nil => {
                proof {
                    assert(old(out)@ + postorder(Tree::Nil) =~= old(out)@);
                }
            },
            Tree::Node { key, left, right, .. } => {
                Self::do_postorder_traversal(left, out);
                Self::do_postorder_traversal(right, out);
                out.push(*key);
                proof {
                    assert(out@ =~= old(out)@ + postorder(*node));
                }
            },
        }
    }
}

} // verus!
