//! The tree datatype and the specification functions that describe it:
//! the set of keys a subtree holds, the binary-search ordering, the
//! red-black colouring invariants, and the three traversal orders.

use vstd::prelude::*;

verus! {

/// The colour of a tree node.
#[derive(Clone, Copy, PartialEq, Eq, Structural, Debug)]
pub enum Color {
    Red,
    Black,
}

/// An owned binary tree of `i32` keys with coloured nodes.  An absent
/// child is `Nil`; `Nil` counts as black for black-height purposes.
#[derive(Debug)]
pub enum Tree {
    Nil,
    Node { key: i32, color: Color, left: Box<Tree>, right: Box<Tree> },
}

/// Which child slot of a node is meant.
#[derive(Clone, Copy, PartialEq, Eq, Structural, Debug)]
pub enum Side {
    Left,
    Right,
}

/// The other child slot.
pub open spec fn opposite(side: Side) -> Side {
    if side == Side::Left {
        Side::Right
    } else {
        Side::Left
    }
}

/// True when the subtree is a node rather than an empty link.
pub open spec fn is_node(t: Tree) -> bool {
    match t {
        Tree::Nil => false,
        Tree::Node { .. } => true,
    }
}

/// The key at the subtree's root; zero for an empty link.
pub open spec fn key_of(t: Tree) -> i32 {
    match t {
        Tree::Nil => 0,
        Tree::Node { key, .. } => key,
    }
}

/// The left child of the subtree's root.
pub open spec fn left_of(t: Tree) -> Tree {
    match t {
        Tree::Nil => Tree::Nil,
        Tree::Node { left, .. } => *left,
    }
}

/// The right child of the subtree's root.
pub open spec fn right_of(t: Tree) -> Tree {
    match t {
        Tree::Nil => Tree::Nil,
        Tree::Node { right, .. } => *right,
    }
}

/// The child of the subtree's root on the given side.
pub open spec fn child_of(t: Tree, side: Side) -> Tree {
    if side == Side::Left {
        left_of(t)
    } else {
        right_of(t)
    }
}

/// The tree with its root recoloured; an empty link stays empty.
pub open spec fn with_color(t: Tree, c: Color) -> Tree {
    match t {
        Tree::Nil => Tree::Nil,
        Tree::Node { key, left, right, .. } => Tree::Node { key, color: c, left, right },
    }
}

/// The left rotation of a tree whose right child is a node: that child
/// is promoted to the root, the former root becomes its left child and
/// inherits the promoted node's old left subtree as its own right child.
/// Colours travel with their nodes.
pub open spec fn rotated_left(t: Tree) -> Tree {
    match t {
        Tree::Node { key: gk, color: gc, left: gl, right: gr } => match *gr {
            Tree::Node { key: pk, color: pc, left: pl, right: pr } => (Tree::Node {
                key: pk,
                color: pc,
                left: Box::new(Tree::Node { key: gk, color: gc, left: gl, right: pl }),
                right: pr,
            }),
            Tree::Nil => t,
        },
        Tree::Nil => t,
    }
}

/// The mirror image of `rotated_left`.
pub open spec fn rotated_right(t: Tree) -> Tree {
    match t {
        Tree::Node { key: gk, color: gc, left: gl, right: gr } => match *gl {
            Tree::Node { key: pk, color: pc, left: pl, right: pr } => (Tree::Node {
                key: pk,
                color: pc,
                left: pl,
                right: Box::new(Tree::Node { key: gk, color: gc, left: pr, right: gr }),
            }),
            Tree::Nil => t,
        },
        Tree::Nil => t,
    }
}

/// The set of keys stored in a subtree.
pub open spec fn keys(t: Tree) -> Set<i32>
    decreases t,
{
    match t {
        Tree::Nil => Set::empty(),
        Tree::Node { key, left, right, .. } => keys(*left).union(keys(*right)).insert(key),
    }
}

/// The number of nodes in a subtree.
pub open spec fn node_count(t: Tree) -> nat
    decreases t,
{
    match t {
        Tree::Nil => 0,
        Tree::Node { left, right, .. } => 1 + node_count(*left) + node_count(*right),
    }
}

/// The colour of a subtree's root; an empty subtree counts as black.
pub open spec fn root_color(t: Tree) -> Color {
    match t {
        Tree::Nil => Color::Black,
        Tree::Node { color, .. } => color,
    }
}

/// True when the subtree's root is a red node.
pub open spec fn is_red(t: Tree) -> bool {
    root_color(t) == Color::Red
}

/// Every key in the subtree is strictly below `bound`.
pub open spec fn all_below(t: Tree, bound: i32) -> bool
    decreases t,
{
    match t {
        Tree::Nil => true,
        Tree::Node { key, left, right, .. } => key < bound && all_below(*left, bound)
            && all_below(*right, bound),
    }
}

/// Every key in the subtree is strictly above `bound`.
pub open spec fn all_above(t: Tree, bound: i32) -> bool
    decreases t,
{
    match t {
        Tree::Nil => true,
        Tree::Node { key, left, right, .. } => key > bound && all_above(*left, bound)
            && all_above(*right, bound),
    }
}

/// Binary-search ordering: at every node, the left subtree holds only
/// smaller keys and the right subtree only larger ones.
pub open spec fn bst(t: Tree) -> bool
    decreases t,
{
    match t {
        Tree::Nil => true,
        Tree::Node { key, left, right, .. } => all_below(*left, key) && all_above(*right, key)
            && bst(*left) && bst(*right),
    }
}

/// No red node has a red child on any edge inside the subtree.
pub open spec fn no_red_red(t: Tree) -> bool
    decreases t,
{
    match t {
        Tree::Nil => true,
        Tree::Node { color, left, right, .. } => (color == Color::Red ==> root_color(*left)
            == Color::Black && root_color(*right) == Color::Black) && no_red_red(*left)
            && no_red_red(*right),
    }
}

/// The number of black nodes on the path from the root to the leftmost
/// empty link.  Under `balanced` this is the black height of every path.
pub open spec fn black_height_of(t: Tree) -> nat
    decreases t,
{
    match t {
        Tree::Nil => 0,
        Tree::Node { color, left, .. } => (if color == Color::Black {
            1nat
        } else {
            0nat
        }) + black_height_of(*left),
    }
}

/// Both children of every node carry the same black height.
pub open spec fn balanced(t: Tree) -> bool
    decreases t,
{
    match t {
        Tree::Nil => true,
        Tree::Node { left, right, .. } => black_height_of(*left) == black_height_of(*right)
            && balanced(*left) && balanced(*right),
    }
}

/// The shape a subtree may have in the middle of an insertion: both
/// children are internally free of red-red edges, and a red root has at
/// most one red child.  The lone allowed violation is thus an edge from
/// the root to one red child, which the caller repairs.
pub open spec fn almost_rb(t: Tree) -> bool {
    match t {
        Tree::Nil => true,
        Tree::Node { color, left, right, .. } => no_red_red(*left) && no_red_red(*right) && (color
            == Color::Red ==> !(is_red(*left) && is_red(*right))),
    }
}

/// The keys of a subtree in ascending order of visit: left, node, right.
pub open spec fn inorder(t: Tree) -> Seq<i32>
    decreases t,
{
    match t {
        Tree::Nil => Seq::empty(),
        Tree::Node { key, left, right, .. } => inorder(*left) + seq![key] + inorder(*right),
    }
}

/// The keys of a subtree visited node first, then left, then right.
pub open spec fn preorder(t: Tree) -> Seq<i32>
    decreases t,
{
    match t {
        Tree::Nil => Seq::empty(),
        Tree::Node { key, left, right, .. } => seq![key] + preorder(*left) + preorder(*right),
    }
}

/// The keys of a subtree visited left, then right, then node last.
pub open spec fn postorder(t: Tree) -> Seq<i32>
    decreases t,
{
    match t {
        Tree::Nil => Seq::empty(),
        Tree::Node { key, left, right, .. } => postorder(*left) + postorder(*right) + seq![key],
    }
}

/// The colour of the node holding `key`, found by binary search;
/// `None` when the key is absent.
pub open spec fn color_in(t: Tree, key: i32) -> Option<Color>
    decreases t,
{
    match t {
        Tree::Nil => None,
        Tree::Node { key: k0, color, left, right } => if key == k0 {
            Some(color)
        } else if key < k0 {
            color_in(*left, key)
        } else {
            color_in(*right, key)
        },
    }
}

/// In a search tree, the colour lookup finds exactly the stored keys.
pub proof fn lemma_color_in_some(t: Tree, key: i32)
    requires
        bst(t),
    ensures
        color_in(t, key).is_some() <==> keys(t).contains(key),
    decreases t,
{
    match t {
        Tree::Nil => {
            assert(keys(t) =~= Set::<i32>::empty());
        },
        Tree::Node { key: k0, color, left, right } => {
            lemma_color_in_some(*left, key);
            lemma_color_in_some(*right, key);
            lemma_all_below_equiv(*left, k0);
            lemma_all_above_equiv(*right, k0);
            lemma_parts(t);
        },
    }
}

/// `all_below` says exactly that every key of the subtree is below the bound.
pub proof fn lemma_all_below_equiv(t: Tree, bound: i32)
    ensures
        all_below(t, bound) <==> (forall|k: i32| keys(t).contains(k) ==> k < bound),
    decreases t,
{
    match t {
        Tree::Nil => {
            assert(keys(t) =~= Set::empty());
        },
        Tree::Node { key, left, right, .. } => {
            lemma_all_below_equiv(*left, bound);
            lemma_all_below_equiv(*right, bound);
            if all_below(t, bound) {
                assert forall|k: i32| keys(t).contains(k) implies k < bound by {
                    if k != key && !keys(*left).contains(k) {
                        assert(keys(*right).contains(k));
                    }
                }
            }
            if forall|k: i32| keys(t).contains(k) ==> k < bound {
                assert(keys(t).contains(key));
                assert forall|k: i32| keys(*left).contains(k) implies k < bound by {
                    assert(keys(t).contains(k));
                }
                assert forall|k: i32| keys(*right).contains(k) implies k < bound by {
                    assert(keys(t).contains(k));
                }
                assert(all_below(t, bound));
            }
        },
    }
}

/// `all_above` says exactly that every key of the subtree is above the bound.
pub proof fn lemma_all_above_equiv(t: Tree, bound: i32)
    ensures
        all_above(t, bound) <==> (forall|k: i32| keys(t).contains(k) ==> k > bound),
    decreases t,
{
    match t {
        Tree::Nil => {
            assert(keys(t) =~= Set::empty());
        },
        Tree::Node { key, left, right, .. } => {
            lemma_all_above_equiv(*left, bound);
            lemma_all_above_equiv(*right, bound);
            if all_above(t, bound) {
                assert forall|k: i32| keys(t).contains(k) implies k > bound by {
                    if k != key && !keys(*left).contains(k) {
                        assert(keys(*right).contains(k));
                    }
                }
            }
            if forall|k: i32| keys(t).contains(k) ==> k > bound {
                assert(keys(t).contains(key));
                assert forall|k: i32| keys(*left).contains(k) implies k > bound by {
                    assert(keys(t).contains(k));
                }
                assert forall|k: i32| keys(*right).contains(k) implies k > bound by {
                    assert(keys(t).contains(k));
                }
                assert(all_above(t, bound));
            }
        },
    }
}

/// One step of every specification function, phrased over the root
/// accessors, so that proofs about a handful of nodes can expose the
/// definitions they need by naming each node once.
pub proof fn lemma_parts(t: Tree)
    ensures
        !is_node(t) ==> t == Tree::Nil,
        !is_node(t) ==> keys(t) == Set::<i32>::empty() && black_height_of(t) == 0 && bst(t)
            && balanced(t) && no_red_red(t) && root_color(t) == Color::Black && node_count(t) == 0
            && inorder(t) == Seq::<i32>::empty() && preorder(t) == Seq::<i32>::empty()
            && postorder(t) == Seq::<i32>::empty(),
        is_node(t) ==> keys(t) == keys(left_of(t)).union(keys(right_of(t))).insert(key_of(t)),
        is_node(t) ==> black_height_of(t) == (if root_color(t) == Color::Black {
            1nat
        } else {
            0nat
        }) + black_height_of(left_of(t)),
        is_node(t) ==> (bst(t) <==> (bst(left_of(t)) && bst(right_of(t)) && all_below(
            left_of(t),
            key_of(t),
        ) && all_above(right_of(t), key_of(t)))),
        is_node(t) ==> (balanced(t) <==> (balanced(left_of(t)) && balanced(right_of(t))
            && black_height_of(left_of(t)) == black_height_of(right_of(t)))),
        is_node(t) ==> (no_red_red(t) <==> ((root_color(t) == Color::Red ==> root_color(
            left_of(t),
        ) == Color::Black && root_color(right_of(t)) == Color::Black) && no_red_red(left_of(t))
            && no_red_red(right_of(t)))),
        is_node(t) ==> node_count(t) == 1 + node_count(left_of(t)) + node_count(right_of(t)),
        is_node(t) ==> inorder(t) == inorder(left_of(t)) + seq![key_of(t)] + inorder(right_of(t)),
        is_node(t) ==> preorder(t) == seq![key_of(t)] + preorder(left_of(t)) + preorder(
            right_of(t),
        ),
        is_node(t) ==> postorder(t) == postorder(left_of(t)) + postorder(right_of(t)) + seq![
            key_of(t),
        ],
        is_node(t) ==> (forall|b: i32|
            #[trigger] all_below(t, b) <==> (key_of(t) < b && all_below(left_of(t), b)
                && all_below(right_of(t), b))),
        is_node(t) ==> (forall|b: i32|
            #[trigger] all_above(t, b) <==> (key_of(t) > b && all_above(left_of(t), b)
                && all_above(right_of(t), b))),
        !is_node(t) ==> (forall|b: i32| #[trigger] all_below(t, b) && #[trigger] all_above(t, b)),
        keys(with_color(t, Color::Red)) == keys(t) && keys(with_color(t, Color::Black)) == keys(t),
{
    match t {
        Tree::Nil => {
            assert(keys(t) =~= Set::<i32>::empty());
            assert(inorder(t) == Seq::<i32>::empty());
            assert(forall|b: i32| #[trigger] all_below(t, b) && #[trigger] all_above(t, b));
        },
        Tree::Node { key, color, left, right } => {
            assert(keys(t) =~= keys(*left).union(keys(*right)).insert(key));
            assert(left_of(t) == *left && right_of(t) == *right && key_of(t) == key);
            assert(forall|b: i32|
                #[trigger] all_below(t, b) <==> (key < b && all_below(*left, b) && all_below(
                    *right,
                    b,
                )));
            assert(forall|b: i32|
                #[trigger] all_above(t, b) <==> (key > b && all_above(*left, b) && all_above(
                    *right,
                    b,
                )));
            assert(keys(with_color(t, Color::Red)) =~= keys(t));
            assert(keys(with_color(t, Color::Black)) =~= keys(t));
        },
    }
}

/// An upper bound on a subtree's keys can be raised.
pub proof fn lemma_all_below_widen(t: Tree, b1: i32, b2: i32)
    requires
        all_below(t, b1),
        b1 <= b2,
    ensures
        all_below(t, b2),
    decreases t,
{
    match t {
        Tree::Nil => {},
        Tree::Node { left, right, .. } => {
            lemma_all_below_widen(*left, b1, b2);
            lemma_all_below_widen(*right, b1, b2);
        },
    }
}

/// A lower bound on a subtree's keys can be lowered.
pub proof fn lemma_all_above_widen(t: Tree, b1: i32, b2: i32)
    requires
        all_above(t, b1),
        b2 <= b1,
    ensures
        all_above(t, b2),
    decreases t,
{
    match t {
        Tree::Nil => {},
        Tree::Node { left, right, .. } => {
            lemma_all_above_widen(*left, b1, b2);
            lemma_all_above_widen(*right, b1, b2);
        },
    }
}

/// The key set of a subtree is finite.
pub proof fn lemma_keys_finite(t: Tree)
    ensures
        keys(t).finite(),
    decreases t,
{
    match t {
        Tree::Nil => {},
        Tree::Node { left, right, .. } => {
            lemma_keys_finite(*left);
            lemma_keys_finite(*right);
        },
    }
}

/// In a search tree the key set has exactly one element per node.
pub proof fn lemma_keys_len(t: Tree)
    requires
        bst(t),
    ensures
        keys(t).finite(),
        keys(t).len() == node_count(t),
    decreases t,
{
    lemma_keys_finite(t);
    match t {
        Tree::Nil => {
            assert(keys(t) =~= Set::empty());
        },
        Tree::Node { key, left, right, .. } => {
            lemma_keys_len(*left);
            lemma_keys_len(*right);
            lemma_all_below_equiv(*left, key);
            lemma_all_above_equiv(*right, key);
            let u = keys(*left).union(keys(*right));
            assert(keys(*left).disjoint(keys(*right)));
            vstd::set_lib::lemma_set_disjoint_lens(keys(*left), keys(*right));
            assert(keys(*left) + keys(*right) == u);
            assert(!u.contains(key));
            assert(u.insert(key).len() == u.len() + 1);
            assert(keys(t) == u.insert(key));
        },
    }
}

} // verus!
