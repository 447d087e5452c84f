//! The global laws of the container, proved once and for all from the
//! invariants that every operation maintains.

use vstd::prelude::*;

use crate::model::Color;
use crate::model::Tree;
use crate::model::balanced;
use crate::model::black_height_of;
use crate::model::bst;
use crate::model::inorder;
use crate::model::keys;
use crate::model::lemma_all_above_equiv;
use crate::model::lemma_all_below_equiv;
use crate::model::lemma_parts;
use crate::red_black_tree::RedBlackTree;

verus! {

/// True when walking `path` from the root of `t` (`false` steps left,
/// `true` steps right) ends exactly on an empty link.
pub open spec fn follows_to_nil(t: Tree, path: Seq<bool>) -> bool
    decreases path.len(),
{
    match t {
        Tree::Nil => path.len() == 0,
        Tree::Node { left, right, .. } => path.len() > 0 && follows_to_nil(
            if path[0] {
                *right
            } else {
                *left
            },
            path.skip(1),
        ),
    }
}

/// The number of black nodes met while walking `path` from the root of
/// `t`.
pub open spec fn blacks_on_path(t: Tree, path: Seq<bool>) -> nat
    decreases path.len(),
{
    match t {
        Tree::Nil => 0,
        Tree::Node { color, left, right, .. } => (if color == Color::Black {
            1nat
        } else {
            0nat
        }) + if path.len() == 0 {
            0nat
        } else {
            blacks_on_path(
                if path[0] {
                    *right
                } else {
                    *left
                },
                path.skip(1),
            )
        },
    }
}

/// In a search subtree the in-order listing is strictly increasing and
/// visits exactly the stored keys.
pub proof fn lemma_inorder_sorted(t: Tree)
    requires
        bst(t),
    ensures
        forall|i: int, j: int|
            0 <= i < j < inorder(t).len() ==> inorder(t)[i] < inorder(t)[j],
        forall|i: int| 0 <= i < inorder(t).len() ==> keys(t).contains(inorder(t)[i]),
    decreases t,
{
    lemma_parts(t);
    match t {
        Tree::Nil => {},
        Tree::Node { key, left, right, .. } => {
            lemma_inorder_sorted(*left);
            lemma_inorder_sorted(*right);
            lemma_all_below_equiv(*left, key);
            lemma_all_above_equiv(*right, key);
            let a = inorder(*left);
            let mid = seq![key];
            let b = inorder(*right);
            let whole = a + mid + b;
            assert(inorder(t) == whole);
            assert forall|i: int| 0 <= i < whole.len() implies keys(t).contains(whole[i]) by {
                if i < a.len() {
                    assert(whole[i] == a[i]);
                    assert(keys(*left).contains(a[i]));
                } else if i == a.len() {
                    assert(whole[i] == key);
                } else {
                    assert(whole[i] == b[i - a.len() - 1]);
                    assert(keys(*right).contains(b[i - a.len() - 1]));
                }
            }
            assert forall|i: int, j: int| 0 <= i < j < whole.len() implies whole[i] < whole[j] by {
                if i < a.len() {
                    assert(whole[i] == a[i] && keys(*left).contains(a[i]));
                    if j < a.len() {
                        assert(whole[j] == a[j]);
                    } else if j == a.len() {
                        assert(whole[j] == key);
                        assert(a[i] < key);
                    } else {
                        assert(whole[j] == b[j - a.len() - 1]);
                        assert(keys(*right).contains(b[j - a.len() - 1]));
                        assert(a[i] < key < whole[j]);
                    }
                } else if i == a.len() {
                    assert(whole[i] == key);
                    assert(whole[j] == b[j - a.len() - 1]);
                    assert(keys(*right).contains(b[j - a.len() - 1]));
                } else {
                    assert(whole[i] == b[i - a.len() - 1]);
                    assert(whole[j] == b[j - a.len() - 1]);
                }
            }
        },
    }
}

/// Under `balanced`, every path that ends on an empty link crosses the
/// same number of black nodes, namely the subtree's black height.
pub proof fn lemma_blacks_on_path(t: Tree, path: Seq<bool>)
    requires
        balanced(t),
        follows_to_nil(t, path),
    ensures
        blacks_on_path(t, path) == black_height_of(t),
    decreases path.len(),
{
    lemma_parts(t);
    match t {
        Tree::Nil => {},
        Tree::Node { left, right, .. } => {
            if path[0] {
                lemma_blacks_on_path(*right, path.skip(1));
            } else {
                lemma_blacks_on_path(*left, path.skip(1));
            }
        },
    }
}

/// Law: for every reachable state of the container, an in-order
/// traversal yields strictly increasing keys, and those keys are
/// exactly the container's contents.
pub proof fn lemma_tree_inorder_strictly_increasing(t: RedBlackTree)
    requires
        t.wf(),
    ensures
        forall|i: int, j: int|
            0 <= i < j < inorder(t.root).len() ==> inorder(t.root)[i] < inorder(t.root)[j],
        forall|i: int| 0 <= i < inorder(t.root).len() ==> t@.contains(inorder(t.root)[i]),
{
    lemma_inorder_sorted(t.root);
}

/// Law: for every reachable state of the container, the black height
/// computed independently along any root-to-empty-link path is the same.
pub proof fn lemma_tree_black_height_uniform(t: RedBlackTree, path: Seq<bool>)
    requires
        t.wf(),
        follows_to_nil(t.root, path),
    ensures
        blacks_on_path(t.root, path) == black_height_of(t.root),
{
    lemma_blacks_on_path(t.root, path);
}

} // verus!

