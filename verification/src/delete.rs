//! Deletion and its two-stage rebalancing.
//!
//! All removal shapes reduce to taking out a node with at most one red
//! child.  When a black node leaves, the path that lost it is one black
//! node short; `delete_balance` repairs the spot where the removed leaf
//! stood, and `delete_balance_recursion` handles the escalation where
//! the shortage climbs, one level per step, toward the root.

use vstd::prelude::*;

use crate::model::Color;
use crate::model::Side;
use crate::model::Tree;
use crate::model::all_above;
use crate::model::all_below;
use crate::model::almost_rb;
use crate::model::balanced;
use crate::model::black_height_of;
use crate::model::bst;
use crate::model::child_of;
use crate::model::is_node;
use crate::model::is_red;
use crate::model::key_of;
use crate::model::keys;
use crate::model::left_of;
use crate::model::lemma_all_above_equiv;
use crate::model::lemma_all_above_widen;
use crate::model::lemma_all_below_equiv;
use crate::model::lemma_all_below_widen;
use crate::model::lemma_parts;
use crate::model::no_red_red;
use crate::model::node_count;
use crate::model::opposite;
use crate::model::right_of;
use crate::model::root_color;
use crate::model::with_color;
use crate::red_black_tree::RedBlackTree;

verus! {

/// The classification right after a black leaf left one child slot of
/// the parent.  The first letter is the parent's colour, the second the
/// side the removed node stood on, and the rest describe the sibling:
/// for a red parent which of its children exist (`R` a node, `E` an
/// empty link), for a black parent its colour and then its children.
#[derive(Clone, Copy, PartialEq, Eq, Structural, Debug)]
pub enum DeleteSituation {
    RLRR,
    RLRE,
    RLER,
    RLEE,
    RRRR,
    RRER,
    RRRE,
    RREE,
    BLR,
    BLBRW,
    BLBER,
    BLBEE,
    BRR,
    BRBWR,
    BRBRE,
    BRBEE,
    Stable,
}

/// Reads the situation off the parent: the emptied slot is the side
/// whose child is gone, the sibling is the other child, and the sibling
/// children's shapes stand in for their colours, which the invariants
/// force.
pub open spec fn spec_delete_situation(t: Tree) -> DeleteSituation {
    if root_color(t) == Color::Red {
        if is_node(right_of(t)) {
            let s = right_of(t);
            if is_node(left_of(s)) && is_node(right_of(s)) {
                DeleteSituation::RLRR
            } else if is_node(left_of(s)) {
                DeleteSituation::RLRE
            } else if is_node(right_of(s)) {
                DeleteSituation::RLER
            } else {
                DeleteSituation::RLEE
            }
        } else if is_node(left_of(t)) {
            let s = left_of(t);
            if is_node(left_of(s)) && is_node(right_of(s)) {
                DeleteSituation::RRRR
            } else if is_node(right_of(s)) {
                DeleteSituation::RRER
            } else if is_node(left_of(s)) {
                DeleteSituation::RRRE
            } else {
                DeleteSituation::RREE
            }
        } else {
            DeleteSituation::Stable
        }
    } else {
        if is_node(right_of(t)) {
            let s = right_of(t);
            if root_color(s) == Color::Red {
                if is_node(left_of(s)) && is_node(right_of(s)) {
                    DeleteSituation::BLR
                } else {
                    DeleteSituation::Stable
                }
            } else {
                if is_node(left_of(s)) {
                    DeleteSituation::BLBRW
                } else if is_node(right_of(s)) {
                    DeleteSituation::BLBER
                } else {
                    DeleteSituation::BLBEE
                }
            }
        } else if is_node(left_of(t)) {
            let s = left_of(t);
            if root_color(s) == Color::Red {
                if is_node(left_of(s)) && is_node(right_of(s)) {
                    DeleteSituation::BRR
                } else {
                    DeleteSituation::Stable
                }
            } else {
                if is_node(right_of(s)) {
                    DeleteSituation::BRBWR
                } else if is_node(left_of(s)) {
                    DeleteSituation::BRBRE
                } else {
                    DeleteSituation::BRBEE
                }
            }
        } else {
            DeleteSituation::Stable
        }
    }
}

impl RedBlackTree {
    /// Classifies the parent of a slot that just lost a black leaf.
    pub fn judge_delete_situation(t: &Tree) -> (r: DeleteSituation)
        ensures
            r == spec_delete_situation(*t),
    {
        if Self::node_is_red(t) {
            if Self::node_exists(Self::child(t, Side::Right)) {
                let s = Self::child(t, Side::Right);
                let sl = Self::node_exists(Self::child(s, Side::Left));
                let sr = Self::node_exists(Self::child(s, Side::Right));
                if sl && sr {
                    DeleteSituation::RLRR
                } else if sl {
                    DeleteSituation::RLRE
                } else if sr {
                    DeleteSituation::RLER
                } else {
                    DeleteSituation::RLEE
                }
            } else if Self::node_exists(Self::child(t, Side::Left)) {
                let s = Self::child(t, Side::Left);
                let sl = Self::node_exists(Self::child(s, Side::Left));
                let sr = Self::node_exists(Self::child(s, Side::Right));
                if sl && sr {
                    DeleteSituation::RRRR
                } else if sr {
                    DeleteSituation::RRER
                } else if sl {
                    DeleteSituation::RRRE
                } else {
                    DeleteSituation::RREE
                }
            } else {
                DeleteSituation::Stable
            }
        } else {
            if Self::node_exists(Self::child(t, Side::Right)) {
                let s = Self::child(t, Side::Right);
                if Self::node_is_red(s) {
                    if Self::node_exists(Self::child(s, Side::Left)) && Self::node_exists(
                        Self::child(s, Side::Right),
                    ) {
                        DeleteSituation::BLR
                    } else {
                        DeleteSituation::Stable
                    }
                } else {
                    if Self::node_exists(Self::child(s, Side::Left)) {
                        DeleteSituation::BLBRW
                    } else if Self::node_exists(Self::child(s, Side::Right)) {
                        DeleteSituation::BLBER
                    } else {
                        DeleteSituation::BLBEE
                    }
                }
            } else if Self::node_exists(Self::child(t, Side::Left)) {
                let s = Self::child(t, Side::Left);
                if Self::node_is_red(s) {
                    if Self::node_exists(Self::child(s, Side::Left)) && Self::node_exists(
                        Self::child(s, Side::Right),
                    ) {
                        DeleteSituation::BRR
                    } else {
                        DeleteSituation::Stable
                    }
                } else {
                    if Self::node_exists(Self::child(s, Side::Right)) {
                        DeleteSituation::BRBWR
                    } else if Self::node_exists(Self::child(s, Side::Left)) {
                        DeleteSituation::BRBRE
                    } else {
                        DeleteSituation::BRBEE
                    }
                }
            } else {
                DeleteSituation::Stable
            }
        }
    }
    /// Repairs the parent `t` of a slot that just lost a black leaf:
    /// one child is an empty link, the sibling subtree holds exactly one
    /// black level.  The result holds the same keys; it either restores
    /// the full black height of the subtree as it was before the leaf
    /// left (`res.1` false) or is itself uniformly one black node short
    /// with a black root (`res.1` true), and only a black parent can
    /// pass the shortage on.
    #[verifier::rlimit(100)]
    pub fn delete_balance(t: Tree) -> (res: (Tree, bool))
        requires
            is_node(t),
            bst(t),
            no_red_red(t),
            (left_of(t) == Tree::Nil && is_node(right_of(t)) && black_height_of(right_of(t)) == 1
                && balanced(right_of(t))) || (right_of(t) == Tree::Nil && is_node(left_of(t))
                && black_height_of(left_of(t)) == 1 && balanced(left_of(t))),
        ensures
            is_node(res.0),
            bst(res.0),
            keys(res.0) == keys(t),
            no_red_red(res.0),
            balanced(res.0),
            black_height_of(res.0) + (if res.1 {
                1nat
            } else {
                0nat
            }) == (if root_color(t) == Color::Black {
                1nat
            } else {
                0nat
            }) + 1,
            res.1 ==> root_color(res.0) == Color::Black,
            root_color(t) == Color::Black ==> root_color(res.0) == Color::Black,
            root_color(t) == Color::Red ==> !res.1,
    {
        let ghost t0 = t;
        let situation = Self::judge_delete_situation(&t);
        match situation {
            DeleteSituation::RLRR => {
                proof {
                    let s = right_of(t0);
                    lemma_parts(t0);
                    lemma_parts(s);
                    lemma_parts(left_of(s));
                    lemma_parts(right_of(s));
                    lemma_parts(Tree::Nil);
                    let sl = left_of(s);
                    let sr = right_of(s);
                    assert(is_node(s) && is_node(sl) && is_node(sr));
                    assert(left_of(t0) == Tree::Nil && black_height_of(s) == 1 && balanced(s));
                    assert(no_red_red(s) && root_color(s) == Color::Black);
                    assert(black_height_of(sl) == 0 && black_height_of(sr) == 0);
                    assert(root_color(sl) == Color::Red && root_color(sr) == Color::Red);
                    assert(no_red_red(sl) && no_red_red(sr) && balanced(sl) && balanced(sr));
                    assert(black_height_of(left_of(sl)) == 0 && black_height_of(right_of(sl))
                        == 0);
                    assert(left_of(sl) == Tree::Nil && right_of(sl) == Tree::Nil);
                    assert(left_of(sr) == Tree::Nil && right_of(sr) == Tree::Nil);
                }
                let rotated = Self::rotate_left(t);
                match rotated {
                    Tree::Node { key: sk, color: _, left: pn, right: sr_box } => {
                        let pn2 = Self::set_color(*pn, Color::Black);
                        let sr2 = Self::set_color(*sr_box, Color::Black);
                        let result = Tree::Node {
                            key: sk,
                            color: Color::Red,
                            left: Box::new(pn2),
                            right: Box::new(sr2),
                        };
                        proof {
                            let s = right_of(t0);
                            lemma_parts(t0);
                            lemma_parts(s);
                            lemma_parts(left_of(s));
                            lemma_parts(right_of(s));
                            lemma_parts(Tree::Nil);
                    lemma_parts(t0);
                    lemma_parts(s);
                    lemma_parts(left_of(s));
                    lemma_parts(right_of(s));
                    lemma_parts(Tree::Nil);
                            let sl = left_of(s);
                            let sr = right_of(s);
                            let pk = key_of(t0);
                            assert(sk == key_of(s));
                            assert(pn2 == Tree::Node {
                                key: pk,
                                color: Color::Black,
                                left: Box::new(Tree::Nil),
                                right: Box::new(sl),
                            });
                            assert(sr2 == with_color(sr, Color::Black));
                            assert(keys(sr2) =~= keys(sr));
                            assert(keys(s) =~= keys(sl).union(keys(sr)).insert(sk));
                            assert(keys(t0) =~= keys(s).insert(pk));
                            lemma_parts(pn2);
                            lemma_parts(sr2);
                            lemma_parts(result);
                            assert(keys(result) =~= keys(t0));
                            assert(all_above(s, pk) && bst(s));
                            assert(sk > pk && all_above(sl, pk) && all_above(sr, pk));
                            assert(all_below(sl, sk) && all_above(sr, sk));
                            assert(bst(sl) && bst(sr));
                            assert(all_below(pn2, sk));
                            assert(all_above(sr2, sk) && bst(sr2));
                            assert(bst(pn2));
                            assert(bst(result));
                            assert(black_height_of(pn2) == 1 && balanced(pn2));
                            assert(black_height_of(sr2) == 1 && balanced(sr2));
                            assert(balanced(result) && black_height_of(result) == 1);
                            assert(no_red_red(pn2) && no_red_red(sr2));
                            assert(no_red_red(result));
                        }
                        (result, false)
                    },
                    Tree::Nil => (Tree::Nil, false),
                }
            },
            DeleteSituation::RLRE => {
                proof {
                    let s = right_of(t0);
                    lemma_parts(t0);
                    lemma_parts(s);
                    lemma_parts(left_of(s));
                    lemma_parts(right_of(s));
                    lemma_parts(Tree::Nil);
                    let sl = left_of(s);
                    assert(is_node(s) && is_node(sl) && !is_node(right_of(s)));
                    assert(left_of(t0) == Tree::Nil && black_height_of(s) == 1 && balanced(s));
                    assert(no_red_red(s) && root_color(s) == Color::Black);
                    assert(black_height_of(sl) == 0 && root_color(sl) == Color::Red);
                    assert(no_red_red(sl) && balanced(sl));
                    assert(left_of(sl) == Tree::Nil && right_of(sl) == Tree::Nil);
                    assert(right_of(s) == Tree::Nil);
                }
                match t {
                    Tree::Node { key: pk, color: pc, left: nil_box, right: s_box } => {
                        let s2 = Self::rotate_right(*s_box);
                        let t2 = Tree::Node {
                            key: pk,
                            color: pc,
                            left: nil_box,
                            right: Box::new(s2),
                        };
                        proof {
                            assert(is_node(right_of(t2)));
                        }
                        let rotated = Self::rotate_left(t2);
                        match rotated {
                            Tree::Node { key: slk, color: slc, left: pn, right: sn } => {
                                let pn2 = Self::set_color(*pn, Color::Black);
                                let result = Tree::Node {
                                    key: slk,
                                    color: slc,
                                    left: Box::new(pn2),
                                    right: sn,
                                };
                                proof {
                                    let s = right_of(t0);
                                    lemma_parts(t0);
                                    lemma_parts(s);
                                    lemma_parts(left_of(s));
                                    lemma_parts(right_of(s));
                                    lemma_parts(Tree::Nil);
                            lemma_parts(t0);
                            lemma_parts(s);
                            lemma_parts(left_of(s));
                            lemma_parts(right_of(s));
                            lemma_parts(Tree::Nil);
                    lemma_parts(t0);
                    lemma_parts(s);
                    lemma_parts(left_of(s));
                    lemma_parts(right_of(s));
                    lemma_parts(Tree::Nil);
                                    let sl = left_of(s);
                                    let sk = key_of(s);
                                    assert(slk == key_of(sl) && slc == Color::Red);
                                    assert(pn2 == Tree::Node {
                                        key: pk,
                                        color: Color::Black,
                                        left: Box::new(Tree::Nil),
                                        right: Box::new(Tree::Nil),
                                    });
                                    assert(*sn == Tree::Node {
                                        key: sk,
                                        color: Color::Black,
                                        left: Box::new(Tree::Nil),
                                        right: Box::new(Tree::Nil),
                                    });
                                    assert(keys(s) =~= keys(sl).insert(sk));
                                    assert(keys(sl) =~= Set::<i32>::empty().insert(slk));
                                    assert(keys(t0) =~= keys(s).insert(pk));
                                    lemma_parts(pn2);
                                    lemma_parts(*sn);
                                    lemma_parts(result);
                                    assert(keys(result) =~= keys(t0));
                                    assert(all_above(s, pk));
                                    assert(sk > pk && all_above(sl, pk) && slk > pk);
                                    assert(all_below(sl, sk) && slk < sk);
                                    assert(bst(result));
                                    assert(balanced(result) && black_height_of(result) == 1);
                                    assert(no_red_red(result));
                                }
                                (result, false)
                            },
                            Tree::Nil => (Tree::Nil, false),
                        }
                    },
                    Tree::Nil => (Tree::Nil, false),
                }
            },
            DeleteSituation::RLER => {
                proof {
                    let s = right_of(t0);
                    lemma_parts(t0);
                    lemma_parts(s);
                    lemma_parts(left_of(s));
                    lemma_parts(right_of(s));
                    lemma_parts(Tree::Nil);
                    let sr = right_of(s);
                    assert(is_node(s) && is_node(sr) && !is_node(left_of(s)));
                    assert(left_of(t0) == Tree::Nil && black_height_of(s) == 1 && balanced(s));
                    assert(no_red_red(s) && root_color(s) == Color::Black);
                    assert(black_height_of(sr) == 0 && root_color(sr) == Color::Red);
                    assert(no_red_red(sr) && balanced(sr));
                    assert(left_of(sr) == Tree::Nil && right_of(sr) == Tree::Nil);
                    assert(left_of(s) == Tree::Nil);
                }
                let rotated = Self::rotate_left(t);
                proof {
                    let s = right_of(t0);
                    lemma_parts(t0);
                    lemma_parts(s);
                    lemma_parts(left_of(s));
                    lemma_parts(right_of(s));
                    lemma_parts(Tree::Nil);
                    let sr = right_of(s);
                    let pk = key_of(t0);
                    let sk = key_of(s);
                    assert(rotated == Tree::Node {
                        key: sk,
                        color: Color::Black,
                        left: Box::new(Tree::Node {
                            key: pk,
                            color: Color::Red,
                            left: Box::new(Tree::Nil),
                            right: Box::new(Tree::Nil),
                        }),
                        right: Box::new(sr),
                    });
                    assert(keys(s) =~= keys(sr).insert(sk));
                    assert(keys(t0) =~= keys(s).insert(pk));
                    lemma_parts(rotated);
                    lemma_parts(left_of(rotated));
                    lemma_parts(right_of(rotated));
                    assert(keys(rotated) =~= keys(t0));
                    assert(all_above(s, pk));
                    assert(sk > pk && all_above(sr, sk) && bst(sr));
                    assert(bst(rotated));
                    assert(balanced(rotated) && black_height_of(rotated) == 1);
                    assert(no_red_red(rotated));
                }
                (rotated, false)
            },
            DeleteSituation::RLEE => {
                proof {
                    let s = right_of(t0);
                    lemma_parts(t0);
                    lemma_parts(s);
                    lemma_parts(left_of(s));
                    lemma_parts(right_of(s));
                    lemma_parts(Tree::Nil);
                    assert(is_node(s) && !is_node(left_of(s)) && !is_node(right_of(s)));
                    assert(left_of(t0) == Tree::Nil && black_height_of(s) == 1 && balanced(s));
                    assert(no_red_red(s) && root_color(s) == Color::Black);
                    assert(left_of(s) == Tree::Nil && right_of(s) == Tree::Nil);
                }
                match t {
                    Tree::Node { key: pk, color: _, left: nil_box, right: s_box } => {
                        let s2 = Self::set_color(*s_box, Color::Red);
                        let result = Tree::Node {
                            key: pk,
                            color: Color::Black,
                            left: nil_box,
                            right: Box::new(s2),
                        };
                        proof {
                            let s = right_of(t0);
                            lemma_parts(t0);
                            lemma_parts(s);
                            lemma_parts(left_of(s));
                            lemma_parts(right_of(s));
                            lemma_parts(Tree::Nil);
                    lemma_parts(t0);
                    lemma_parts(s);
                    lemma_parts(left_of(s));
                    lemma_parts(right_of(s));
                    lemma_parts(Tree::Nil);
                            assert(s2 == with_color(s, Color::Red));
                            assert(keys(s2) =~= keys(s));
                            lemma_parts(s2);
                            lemma_parts(result);
                            assert(keys(result) =~= keys(t0));
                            assert(all_above(s2, pk) && bst(s2));
                            assert(bst(result));
                            assert(balanced(result) && black_height_of(result) == 1);
                            assert(no_red_red(result));
                        }
                        (result, false)
                    },
                    Tree::Nil => (Tree::Nil, false),
                }
            },
            DeleteSituation::RRRR => {
                proof {
                    let s = left_of(t0);
                    lemma_parts(t0);
                    lemma_parts(s);
                    lemma_parts(left_of(s));
                    lemma_parts(right_of(s));
                    lemma_parts(Tree::Nil);
                    let sl = left_of(s);
                    let sr = right_of(s);
                    assert(is_node(s) && is_node(sl) && is_node(sr) && !is_node(right_of(t0)));
                    assert(right_of(t0) == Tree::Nil && black_height_of(s) == 1 && balanced(s));
                    assert(no_red_red(s) && root_color(s) == Color::Black);
                    assert(black_height_of(sl) == 0 && black_height_of(sr) == 0);
                    assert(root_color(sl) == Color::Red && root_color(sr) == Color::Red);
                    assert(no_red_red(sl) && no_red_red(sr) && balanced(sl) && balanced(sr));
                    assert(left_of(sl) == Tree::Nil && right_of(sl) == Tree::Nil);
                    assert(left_of(sr) == Tree::Nil && right_of(sr) == Tree::Nil);
                }
                let rotated = Self::rotate_right(t);
                match rotated {
                    Tree::Node { key: sk, color: _, left: sl_box, right: pn } => {
                        let pn2 = Self::set_color(*pn, Color::Black);
                        let sl2 = Self::set_color(*sl_box, Color::Black);
                        let result = Tree::Node {
                            key: sk,
                            color: Color::Red,
                            left: Box::new(sl2),
                            right: Box::new(pn2),
                        };
                        proof {
                            let s = left_of(t0);
                            lemma_parts(t0);
                            lemma_parts(s);
                            lemma_parts(left_of(s));
                            lemma_parts(right_of(s));
                            lemma_parts(Tree::Nil);
                    lemma_parts(t0);
                    lemma_parts(s);
                    lemma_parts(left_of(s));
                    lemma_parts(right_of(s));
                    lemma_parts(Tree::Nil);
                            let sl = left_of(s);
                            let sr = right_of(s);
                            let pk = key_of(t0);
                            assert(sk == key_of(s));
                            assert(pn2 == Tree::Node {
                                key: pk,
                                color: Color::Black,
                                left: Box::new(sr),
                                right: Box::new(Tree::Nil),
                            });
                            assert(sl2 == with_color(sl, Color::Black));
                            assert(keys(sl2) =~= keys(sl));
                            assert(keys(s) =~= keys(sl).union(keys(sr)).insert(sk));
                            assert(keys(t0) =~= keys(s).insert(pk));
                            lemma_parts(pn2);
                            lemma_parts(sl2);
                            lemma_parts(result);
                            assert(keys(result) =~= keys(t0));
                            assert(all_below(s, pk) && bst(s));
                            assert(sk < pk && all_below(sl, pk) && all_below(sr, pk));
                            assert(all_below(sl, sk) && all_above(sr, sk));
                            assert(bst(sl) && bst(sr));
                            assert(all_above(pn2, sk));
                            assert(all_below(sl2, sk) && bst(sl2));
                            assert(bst(pn2));
                            assert(bst(result));
                            assert(black_height_of(pn2) == 1 && balanced(pn2));
                            assert(black_height_of(sl2) == 1 && balanced(sl2));
                            assert(balanced(result) && black_height_of(result) == 1);
                            assert(no_red_red(pn2) && no_red_red(sl2));
                            assert(no_red_red(result));
                        }
                        (result, false)
                    },
                    Tree::Nil => (Tree::Nil, false),
                }
            },
            DeleteSituation::RRER => {
                proof {
                    let s = left_of(t0);
                    lemma_parts(t0);
                    lemma_parts(s);
                    lemma_parts(left_of(s));
                    lemma_parts(right_of(s));
                    lemma_parts(Tree::Nil);
                    let sr = right_of(s);
                    assert(is_node(s) && is_node(sr) && !is_node(left_of(s)));
                    assert(right_of(t0) == Tree::Nil && black_height_of(s) == 1 && balanced(s));
                    assert(no_red_red(s) && root_color(s) == Color::Black);
                    assert(black_height_of(sr) == 0 && root_color(sr) == Color::Red);
                    assert(no_red_red(sr) && balanced(sr));
                    assert(left_of(sr) == Tree::Nil && right_of(sr) == Tree::Nil);
                    assert(left_of(s) == Tree::Nil);
                }
                match t {
                    Tree::Node { key: pk, color: pc, left: s_box, right: nil_box } => {
                        let s2 = Self::rotate_left(*s_box);
                        let t2 = Tree::Node {
                            key: pk,
                            color: pc,
                            left: Box::new(s2),
                            right: nil_box,
                        };
                        proof {
                            assert(is_node(left_of(t2)));
                        }
                        let rotated = Self::rotate_right(t2);
                        match rotated {
                            Tree::Node { key: srk, color: src, left: sn, right: pn } => {
                                let pn2 = Self::set_color(*pn, Color::Black);
                                let result = Tree::Node {
                                    key: srk,
                                    color: src,
                                    left: sn,
                                    right: Box::new(pn2),
                                };
                                proof {
                                    let s = left_of(t0);
                                    lemma_parts(t0);
                                    lemma_parts(s);
                                    lemma_parts(left_of(s));
                                    lemma_parts(right_of(s));
                                    lemma_parts(Tree::Nil);
                            lemma_parts(t0);
                            lemma_parts(s);
                            lemma_parts(left_of(s));
                            lemma_parts(right_of(s));
                            lemma_parts(Tree::Nil);
                    lemma_parts(t0);
                    lemma_parts(s);
                    lemma_parts(left_of(s));
                    lemma_parts(right_of(s));
                    lemma_parts(Tree::Nil);
                                    let sr = right_of(s);
                                    let sk = key_of(s);
                                    assert(srk == key_of(sr) && src == Color::Red);
                                    assert(pn2 == Tree::Node {
                                        key: pk,
                                        color: Color::Black,
                                        left: Box::new(Tree::Nil),
                                        right: Box::new(Tree::Nil),
                                    });
                                    assert(*sn == Tree::Node {
                                        key: sk,
                                        color: Color::Black,
                                        left: Box::new(Tree::Nil),
                                        right: Box::new(Tree::Nil),
                                    });
                                    assert(keys(s) =~= keys(sr).insert(sk));
                                    assert(keys(sr) =~= Set::<i32>::empty().insert(srk));
                                    assert(keys(t0) =~= keys(s).insert(pk));
                                    lemma_parts(pn2);
                                    lemma_parts(*sn);
                                    lemma_parts(result);
                                    assert(keys(result) =~= keys(t0));
                                    assert(all_below(s, pk));
                                    assert(sk < pk && all_below(sr, pk) && srk < pk);
                                    assert(all_above(sr, sk) && srk > sk);
                                    assert(bst(result));
                                    assert(balanced(result) && black_height_of(result) == 1);
                                    assert(no_red_red(result));
                                }
                                (result, false)
                            },
                            Tree::Nil => (Tree::Nil, false),
                        }
                    },
                    Tree::Nil => (Tree::Nil, false),
                }
            },
            DeleteSituation::RRRE => {
                proof {
                    let s = left_of(t0);
                    lemma_parts(t0);
                    lemma_parts(s);
                    lemma_parts(left_of(s));
                    lemma_parts(right_of(s));
                    lemma_parts(Tree::Nil);
                    let sl = left_of(s);
                    assert(is_node(s) && is_node(sl) && !is_node(right_of(s)));
                    assert(right_of(t0) == Tree::Nil && black_height_of(s) == 1 && balanced(s));
                    assert(no_red_red(s) && root_color(s) == Color::Black);
                    assert(black_height_of(sl) == 0 && root_color(sl) == Color::Red);
                    assert(no_red_red(sl) && balanced(sl));
                    assert(left_of(sl) == Tree::Nil && right_of(sl) == Tree::Nil);
                    assert(right_of(s) == Tree::Nil);
                }
                let rotated = Self::rotate_right(t);
                proof {
                    let s = left_of(t0);
                    lemma_parts(t0);
                    lemma_parts(s);
                    lemma_parts(left_of(s));
                    lemma_parts(right_of(s));
                    lemma_parts(Tree::Nil);
                    let sl = left_of(s);
                    let pk = key_of(t0);
                    let sk = key_of(s);
                    assert(rotated == Tree::Node {
                        key: sk,
                        color: Color::Black,
                        left: Box::new(sl),
                        right: Box::new(Tree::Node {
                            key: pk,
                            color: Color::Red,
                            left: Box::new(Tree::Nil),
                            right: Box::new(Tree::Nil),
                        }),
                    });
                    assert(keys(s) =~= keys(sl).insert(sk));
                    assert(keys(t0) =~= keys(s).insert(pk));
                    lemma_parts(rotated);
                    lemma_parts(left_of(rotated));
                    lemma_parts(right_of(rotated));
                    assert(keys(rotated) =~= keys(t0));
                    assert(all_below(s, pk));
                    assert(sk < pk && all_below(sl, sk) && bst(sl));
                    assert(bst(rotated));
                    assert(balanced(rotated) && black_height_of(rotated) == 1);
                    assert(no_red_red(rotated));
                }
                (rotated, false)
            },
            DeleteSituation::RREE => {
                proof {
                    let s = left_of(t0);
                    lemma_parts(t0);
                    lemma_parts(s);
                    lemma_parts(left_of(s));
                    lemma_parts(right_of(s));
                    lemma_parts(Tree::Nil);
                    assert(is_node(s) && !is_node(left_of(s)) && !is_node(right_of(s)));
                    assert(right_of(t0) == Tree::Nil && black_height_of(s) == 1 && balanced(s));
                    assert(no_red_red(s) && root_color(s) == Color::Black);
                    assert(left_of(s) == Tree::Nil && right_of(s) == Tree::Nil);
                }
                match t {
                    Tree::Node { key: pk, color: _, left: s_box, right: nil_box } => {
                        let s2 = Self::set_color(*s_box, Color::Red);
                        let result = Tree::Node {
                            key: pk,
                            color: Color::Black,
                            left: Box::new(s2),
                            right: nil_box,
                        };
                        proof {
                            let s = left_of(t0);
                            lemma_parts(t0);
                            lemma_parts(s);
                            lemma_parts(left_of(s));
                            lemma_parts(right_of(s));
                            lemma_parts(Tree::Nil);
                    lemma_parts(t0);
                    lemma_parts(s);
                    lemma_parts(left_of(s));
                    lemma_parts(right_of(s));
                    lemma_parts(Tree::Nil);
                            assert(s2 == with_color(s, Color::Red));
                            assert(keys(s2) =~= keys(s));
                            lemma_parts(s2);
                            lemma_parts(result);
                            assert(keys(result) =~= keys(t0));
                            assert(all_below(s2, pk) && bst(s2));
                            assert(bst(result));
                            assert(balanced(result) && black_height_of(result) == 1);
                            assert(no_red_red(result));
                        }
                        (result, false)
                    },
                    Tree::Nil => (Tree::Nil, false),
                }
            },
            DeleteSituation::BLR => {
                proof {
                    let s = right_of(t0);
                    lemma_parts(t0);
                    lemma_parts(s);
                    lemma_parts(left_of(s));
                    lemma_parts(right_of(s));
                    lemma_parts(Tree::Nil);
                    let sl = left_of(s);
                    let sr = right_of(s);
                    assert(is_node(s) && is_node(sl) && is_node(sr));
                    assert(left_of(t0) == Tree::Nil && black_height_of(s) == 1 && balanced(s));
                    assert(root_color(s) == Color::Red && no_red_red(s));
                    assert(root_color(sl) == Color::Black && root_color(sr) == Color::Black);
                    assert(black_height_of(sl) == 1 && black_height_of(sr) == 1);
                    assert(balanced(sl) && balanced(sr) && no_red_red(sl) && no_red_red(sr));
                    assert(black_height_of(left_of(sl)) == 0 && black_height_of(right_of(sl))
                        == 0);
                }
                let rotated = Self::rotate_left(t);
                match rotated {
                    Tree::Node { key: sk, color: _, left: p_sub, right: sr_box } => {
                        proof {
                            assert(is_node(right_of(*p_sub)));
                        }
                        let p_rot = Self::rotate_left(*p_sub);
                        match p_rot {
                            Tree::Node { key: slk, color: slc, left: pn, right: b_box } => {
                                let pn2 = Self::set_color(*pn, Color::Red);
                                let need_fix = Self::node_exists(Self::child(&pn2, Side::Right));
                                let sl_sub = Tree::Node {
                                    key: slk,
                                    color: slc,
                                    left: Box::new(pn2),
                                    right: b_box,
                                };
                                proof {
                                    let s = right_of(t0);
                                    lemma_parts(t0);
                                    lemma_parts(s);
                                    lemma_parts(left_of(s));
                                    lemma_parts(right_of(s));
                                    lemma_parts(Tree::Nil);
                            lemma_parts(t0);
                            lemma_parts(s);
                            lemma_parts(left_of(s));
                            lemma_parts(right_of(s));
                            lemma_parts(Tree::Nil);
                    lemma_parts(t0);
                    lemma_parts(s);
                    lemma_parts(left_of(s));
                    lemma_parts(right_of(s));
                    lemma_parts(Tree::Nil);
                                    let sl = left_of(s);
                                    let sr = right_of(s);
                                    let a = left_of(sl);
                                    let b = right_of(sl);
                                    let pk = key_of(t0);
                                    assert(slk == key_of(sl) && slc == Color::Black);
                                    assert(pn2 == Tree::Node {
                                        key: pk,
                                        color: Color::Red,
                                        left: Box::new(Tree::Nil),
                                        right: Box::new(a),
                                    });
                                    assert(*b_box == b);
                                    // a and b are empty or red leaves
                                    assert(no_red_red(sl) && balanced(sl));
                                    assert(black_height_of(a) == 0 && black_height_of(b) == 0);
                                    assert(is_node(a) ==> root_color(a) == Color::Red && left_of(
                                        a,
                                    ) == Tree::Nil && right_of(a) == Tree::Nil);
                                    assert(no_red_red(a) && no_red_red(b));
                                    // search order around pk and slk
                                    assert(all_above(s, pk) && bst(s));
                                    assert(key_of(s) > pk && all_above(sl, pk));
                                    assert(slk > pk && all_above(a, pk) && all_above(b, pk));
                                    assert(all_below(sl, key_of(s)) && bst(sl));
                                    assert(all_below(a, slk) && all_above(b, slk));
                                    assert(bst(a) && bst(b));
                                    assert(bst(pn2));
                                    assert(all_below(pn2, slk));
                                    assert(bst(sl_sub));
                                    assert(balanced(pn2) && black_height_of(pn2) == 0);
                                    assert(balanced(sl_sub) && black_height_of(sl_sub) == 1);
                                    assert(almost_rb(pn2));
                                    assert(need_fix == is_node(a));
                                    assert((is_red(pn2) && (is_red(left_of(pn2)) || is_red(
                                        right_of(pn2),
                                    ))) ==> root_color(sl_sub) == Color::Black);
                                    if !need_fix {
                                        assert(a == Tree::Nil);
                                        assert(no_red_red(pn2));
                                        assert(no_red_red(sl_sub));
                                    }
                                    assert(keys(pn2) =~= keys(a).insert(pk));
                                    assert(keys(sl_sub) =~= keys(sl).insert(pk));
                                }
                                let sl_fixed = if need_fix {
                                    Self::insert_balance(sl_sub, Side::Left)
                                } else {
                                    sl_sub
                                };
                                let result = Tree::Node {
                                    key: sk,
                                    color: Color::Black,
                                    left: Box::new(sl_fixed),
                                    right: sr_box,
                                };
                                proof {
                                    let s = right_of(t0);
                                    lemma_parts(t0);
                                    lemma_parts(s);
                                    lemma_parts(left_of(s));
                                    lemma_parts(right_of(s));
                                    lemma_parts(Tree::Nil);
                            lemma_parts(t0);
                            lemma_parts(s);
                            lemma_parts(left_of(s));
                            lemma_parts(right_of(s));
                            lemma_parts(Tree::Nil);
                    lemma_parts(t0);
                    lemma_parts(s);
                    lemma_parts(left_of(s));
                    lemma_parts(right_of(s));
                    lemma_parts(Tree::Nil);
                                    let sl = left_of(s);
                                    let sr = right_of(s);
                                    let pk = key_of(t0);
                                    assert(sk == key_of(s));
                                    assert(*sr_box == sr);
                                    assert(no_red_red(sl_fixed));
                                    assert(black_height_of(sl_fixed) == 1 && balanced(sl_fixed));
                                    assert(keys(sl_fixed) =~= keys(sl).insert(pk));
                                    // every key on the left stays below sk
                                    lemma_all_below_equiv(sl, sk);
                                    lemma_all_below_equiv(sl_fixed, sk);
                                    assert(pk < sk);
                                    assert(all_below(sl_fixed, sk));
                                    assert(bst(result));
                                    assert(keys(s) =~= keys(sl).union(keys(sr)).insert(sk));
                                    assert(keys(t0) =~= keys(s).insert(pk));
                                    lemma_parts(pn2);
                                    lemma_parts(sl_sub);
                                    assert(keys(result) =~= keys(t0));
                                    assert(balanced(result) && black_height_of(result) == 2);
                                    assert(no_red_red(result));
                                }
                                (result, false)
                            },
                            Tree::Nil => (Tree::Nil, false),
                        }
                    },
                    Tree::Nil => (Tree::Nil, false),
                }
            },
            DeleteSituation::BRR => {
                proof {
                    let s = left_of(t0);
                    lemma_parts(t0);
                    lemma_parts(s);
                    lemma_parts(left_of(s));
                    lemma_parts(right_of(s));
                    lemma_parts(Tree::Nil);
                    let sl = left_of(s);
                    let sr = right_of(s);
                    assert(is_node(s) && is_node(sl) && is_node(sr) && !is_node(right_of(t0)));
                    assert(right_of(t0) == Tree::Nil && black_height_of(s) == 1 && balanced(s));
                    assert(root_color(s) == Color::Red && no_red_red(s));
                    assert(root_color(sl) == Color::Black && root_color(sr) == Color::Black);
                    assert(black_height_of(sl) == 1 && black_height_of(sr) == 1);
                    assert(balanced(sl) && balanced(sr) && no_red_red(sl) && no_red_red(sr));
                    assert(black_height_of(left_of(sr)) == 0 && black_height_of(right_of(sr))
                        == 0);
                }
                let rotated = Self::rotate_right(t);
                match rotated {
                    Tree::Node { key: sk, color: _, left: sl_box, right: p_sub } => {
                        proof {
                            assert(is_node(left_of(*p_sub)));
                        }
                        let p_rot = Self::rotate_right(*p_sub);
                        match p_rot {
                            Tree::Node { key: srk, color: src, left: b_box, right: pn } => {
                                let pn2 = Self::set_color(*pn, Color::Red);
                                let need_fix = Self::node_exists(Self::child(&pn2, Side::Left));
                                let sr_sub = Tree::Node {
                                    key: srk,
                                    color: src,
                                    left: b_box,
                                    right: Box::new(pn2),
                                };
                                proof {
                                    let s = left_of(t0);
                                    lemma_parts(t0);
                                    lemma_parts(s);
                                    lemma_parts(left_of(s));
                                    lemma_parts(right_of(s));
                                    lemma_parts(Tree::Nil);
                            lemma_parts(t0);
                            lemma_parts(s);
                            lemma_parts(left_of(s));
                            lemma_parts(right_of(s));
                            lemma_parts(Tree::Nil);
                    lemma_parts(t0);
                    lemma_parts(s);
                    lemma_parts(left_of(s));
                    lemma_parts(right_of(s));
                    lemma_parts(Tree::Nil);
                                    let sr = right_of(s);
                                    let a = right_of(sr);
                                    let b = left_of(sr);
                                    let pk = key_of(t0);
                                    assert(srk == key_of(sr) && src == Color::Black);
                                    assert(pn2 == Tree::Node {
                                        key: pk,
                                        color: Color::Red,
                                        left: Box::new(a),
                                        right: Box::new(Tree::Nil),
                                    });
                                    assert(*b_box == b);
                                    assert(no_red_red(sr) && balanced(sr));
                                    assert(black_height_of(a) == 0 && black_height_of(b) == 0);
                                    assert(is_node(a) ==> root_color(a) == Color::Red && left_of(
                                        a,
                                    ) == Tree::Nil && right_of(a) == Tree::Nil);
                                    assert(no_red_red(a) && no_red_red(b));
                                    assert(all_below(s, pk) && bst(s));
                                    assert(key_of(s) < pk && all_below(sr, pk));
                                    assert(srk < pk && all_below(a, pk) && all_below(b, pk));
                                    assert(all_above(sr, key_of(s)) && bst(sr));
                                    assert(all_above(a, srk) && all_below(b, srk));
                                    assert(bst(a) && bst(b));
                                    assert(bst(pn2));
                                    assert(all_above(pn2, srk));
                                    assert(bst(sr_sub));
                                    assert(balanced(pn2) && black_height_of(pn2) == 0);
                                    assert(balanced(sr_sub) && black_height_of(sr_sub) == 1);
                                    assert(almost_rb(pn2));
                                    assert(need_fix == is_node(a));
                                    assert((is_red(pn2) && (is_red(left_of(pn2)) || is_red(
                                        right_of(pn2),
                                    ))) ==> root_color(sr_sub) == Color::Black);
                                    if !need_fix {
                                        assert(a == Tree::Nil);
                                        assert(no_red_red(pn2));
                                        assert(no_red_red(sr_sub));
                                    }
                                    assert(keys(pn2) =~= keys(a).insert(pk));
                                    assert(keys(sr_sub) =~= keys(sr).insert(pk));
                                }
                                let sr_fixed = if need_fix {
                                    Self::insert_balance(sr_sub, Side::Right)
                                } else {
                                    sr_sub
                                };
                                let result = Tree::Node {
                                    key: sk,
                                    color: Color::Black,
                                    left: sl_box,
                                    right: Box::new(sr_fixed),
                                };
                                proof {
                                    let s = left_of(t0);
                                    lemma_parts(t0);
                                    lemma_parts(s);
                                    lemma_parts(left_of(s));
                                    lemma_parts(right_of(s));
                                    lemma_parts(Tree::Nil);
                            lemma_parts(t0);
                            lemma_parts(s);
                            lemma_parts(left_of(s));
                            lemma_parts(right_of(s));
                            lemma_parts(Tree::Nil);
                    lemma_parts(t0);
                    lemma_parts(s);
                    lemma_parts(left_of(s));
                    lemma_parts(right_of(s));
                    lemma_parts(Tree::Nil);
                                    let sl = left_of(s);
                                    let sr = right_of(s);
                                    let pk = key_of(t0);
                                    assert(sk == key_of(s));
                                    assert(*sl_box == sl);
                                    assert(no_red_red(sr_fixed));
                                    assert(black_height_of(sr_fixed) == 1 && balanced(sr_fixed));
                                    assert(keys(sr_fixed) =~= keys(sr).insert(pk));
                                    lemma_all_above_equiv(sr, sk);
                                    lemma_all_above_equiv(sr_fixed, sk);
                                    assert(pk > sk);
                                    assert(all_above(sr_fixed, sk));
                                    assert(bst(result));
                                    assert(keys(s) =~= keys(sl).union(keys(sr)).insert(sk));
                                    assert(keys(t0) =~= keys(s).insert(pk));
                                    lemma_parts(pn2);
                                    lemma_parts(sr_sub);
                                    assert(keys(result) =~= keys(t0));
                                    assert(balanced(result) && black_height_of(result) == 2);
                                    assert(no_red_red(result));
                                }
                                (result, false)
                            },
                            Tree::Nil => (Tree::Nil, false),
                        }
                    },
                    Tree::Nil => (Tree::Nil, false),
                }
            },
            DeleteSituation::BLBRW => {
                proof {
                    let s = right_of(t0);
                    lemma_parts(t0);
                    lemma_parts(s);
                    lemma_parts(left_of(s));
                    lemma_parts(right_of(s));
                    lemma_parts(Tree::Nil);
                    let sl = left_of(s);
                    let sr = right_of(s);
                    assert(is_node(s) && is_node(sl));
                    assert(left_of(t0) == Tree::Nil && black_height_of(s) == 1 && balanced(s));
                    assert(root_color(s) == Color::Black && no_red_red(s));
                    assert(black_height_of(sl) == 0 && black_height_of(sr) == 0);
                    assert(root_color(sl) == Color::Red && no_red_red(sl) && balanced(sl));
                    assert(left_of(sl) == Tree::Nil && right_of(sl) == Tree::Nil);
                    assert(is_node(sr) ==> root_color(sr) == Color::Red && left_of(sr)
                        == Tree::Nil && right_of(sr) == Tree::Nil);
                    assert(no_red_red(sr) && balanced(sr));
                }
                match t {
                    Tree::Node { key: pk, color: pc, left: nil_box, right: s_box } => {
                        let s2 = Self::rotate_right(*s_box);
                        let t2 = Tree::Node {
                            key: pk,
                            color: pc,
                            left: nil_box,
                            right: Box::new(s2),
                        };
                        proof {
                            assert(is_node(right_of(t2)));
                        }
                        let rotated = Self::rotate_left(t2);
                        let result = Self::set_color(rotated, Color::Black);
                        proof {
                            let s = right_of(t0);
                            lemma_parts(t0);
                            lemma_parts(s);
                            lemma_parts(left_of(s));
                            lemma_parts(right_of(s));
                            lemma_parts(Tree::Nil);
                    lemma_parts(t0);
                    lemma_parts(s);
                    lemma_parts(left_of(s));
                    lemma_parts(right_of(s));
                    lemma_parts(Tree::Nil);
                            let sl = left_of(s);
                            let sr = right_of(s);
                            let sk = key_of(s);
                            let slk = key_of(sl);
                            assert(result == Tree::Node {
                                key: slk,
                                color: Color::Black,
                                left: Box::new(Tree::Node {
                                    key: pk,
                                    color: Color::Black,
                                    left: Box::new(Tree::Nil),
                                    right: Box::new(Tree::Nil),
                                }),
                                right: Box::new(Tree::Node {
                                    key: sk,
                                    color: Color::Black,
                                    left: Box::new(Tree::Nil),
                                    right: Box::new(sr),
                                }),
                            });
                            assert(keys(sl) =~= Set::<i32>::empty().insert(slk));
                            assert(keys(s) =~= keys(sl).union(keys(sr)).insert(sk));
                            assert(keys(t0) =~= keys(s).insert(pk));
                            lemma_parts(result);
                            lemma_parts(left_of(result));
                            lemma_parts(right_of(result));
                            assert(keys(result) =~= keys(t0));
                            assert(all_above(s, pk) && bst(s));
                            assert(sk > pk && slk > pk && all_above(sr, sk) && slk < sk);
                            assert(bst(sr));
                            assert(bst(result));
                            assert(balanced(result) && black_height_of(result) == 2);
                            assert(no_red_red(sr));
                            assert(no_red_red(result));
                        }
                        (result, false)
                    },
                    Tree::Nil => (Tree::Nil, false),
                }
            },
            DeleteSituation::BRBWR => {
                proof {
                    let s = left_of(t0);
                    lemma_parts(t0);
                    lemma_parts(s);
                    lemma_parts(left_of(s));
                    lemma_parts(right_of(s));
                    lemma_parts(Tree::Nil);
                    let sl = left_of(s);
                    let sr = right_of(s);
                    assert(is_node(s) && is_node(sr) && !is_node(right_of(t0)));
                    assert(right_of(t0) == Tree::Nil && black_height_of(s) == 1 && balanced(s));
                    assert(root_color(s) == Color::Black && no_red_red(s));
                    assert(black_height_of(sl) == 0 && black_height_of(sr) == 0);
                    assert(root_color(sr) == Color::Red && no_red_red(sr) && balanced(sr));
                    assert(left_of(sr) == Tree::Nil && right_of(sr) == Tree::Nil);
                    assert(is_node(sl) ==> root_color(sl) == Color::Red && left_of(sl)
                        == Tree::Nil && right_of(sl) == Tree::Nil);
                    assert(no_red_red(sl) && balanced(sl));
                }
                match t {
                    Tree::Node { key: pk, color: pc, left: s_box, right: nil_box } => {
                        let s2 = Self::rotate_left(*s_box);
                        let t2 = Tree::Node {
                            key: pk,
                            color: pc,
                            left: Box::new(s2),
                            right: nil_box,
                        };
                        proof {
                            assert(is_node(left_of(t2)));
                        }
                        let rotated = Self::rotate_right(t2);
                        let result = Self::set_color(rotated, Color::Black);
                        proof {
                            let s = left_of(t0);
                            lemma_parts(t0);
                            lemma_parts(s);
                            lemma_parts(left_of(s));
                            lemma_parts(right_of(s));
                            lemma_parts(Tree::Nil);
                    lemma_parts(t0);
                    lemma_parts(s);
                    lemma_parts(left_of(s));
                    lemma_parts(right_of(s));
                    lemma_parts(Tree::Nil);
                            let sl = left_of(s);
                            let sr = right_of(s);
                            let sk = key_of(s);
                            let srk = key_of(sr);
                            assert(result == Tree::Node {
                                key: srk,
                                color: Color::Black,
                                left: Box::new(Tree::Node {
                                    key: sk,
                                    color: Color::Black,
                                    left: Box::new(sl),
                                    right: Box::new(Tree::Nil),
                                }),
                                right: Box::new(Tree::Node {
                                    key: pk,
                                    color: Color::Black,
                                    left: Box::new(Tree::Nil),
                                    right: Box::new(Tree::Nil),
                                }),
                            });
                            assert(keys(sr) =~= Set::<i32>::empty().insert(srk));
                            assert(keys(s) =~= keys(sl).union(keys(sr)).insert(sk));
                            assert(keys(t0) =~= keys(s).insert(pk));
                            lemma_parts(result);
                            lemma_parts(left_of(result));
                            lemma_parts(right_of(result));
                            assert(keys(result) =~= keys(t0));
                            assert(all_below(s, pk) && bst(s));
                            assert(sk < pk && srk < pk && all_below(sl, sk) && srk > sk);
                            assert(bst(sl));
                            assert(bst(result));
                            assert(balanced(result) && black_height_of(result) == 2);
                            assert(no_red_red(sl));
                            assert(no_red_red(result));
                        }
                        (result, false)
                    },
                    Tree::Nil => (Tree::Nil, false),
                }
            },
            DeleteSituation::BLBER => {
                proof {
                    let s = right_of(t0);
                    lemma_parts(t0);
                    lemma_parts(s);
                    lemma_parts(left_of(s));
                    lemma_parts(right_of(s));
                    lemma_parts(Tree::Nil);
                    let sr = right_of(s);
                    assert(is_node(s) && is_node(sr) && !is_node(left_of(s)));
                    assert(left_of(t0) == Tree::Nil && black_height_of(s) == 1 && balanced(s));
                    assert(root_color(s) == Color::Black && no_red_red(s));
                    assert(black_height_of(sr) == 0 && root_color(sr) == Color::Red);
                    assert(no_red_red(sr) && balanced(sr));
                    assert(left_of(sr) == Tree::Nil && right_of(sr) == Tree::Nil);
                    assert(left_of(s) == Tree::Nil);
                }
                let rotated = Self::rotate_left(t);
                match rotated {
                    Tree::Node { key: sk2, color: sc2, left: pn, right: sr_box } => {
                        let sr2 = Self::set_color(*sr_box, Color::Black);
                        let result = Tree::Node {
                            key: sk2,
                            color: sc2,
                            left: pn,
                            right: Box::new(sr2),
                        };
                        proof {
                            let s = right_of(t0);
                            lemma_parts(t0);
                            lemma_parts(s);
                            lemma_parts(left_of(s));
                            lemma_parts(right_of(s));
                            lemma_parts(Tree::Nil);
                    lemma_parts(t0);
                    lemma_parts(s);
                    lemma_parts(left_of(s));
                    lemma_parts(right_of(s));
                    lemma_parts(Tree::Nil);
                            let sr = right_of(s);
                            let pk = key_of(t0);
                            let sk = key_of(s);
                            assert(sk2 == sk && sc2 == Color::Black);
                            assert(*pn == Tree::Node {
                                key: pk,
                                color: Color::Black,
                                left: Box::new(Tree::Nil),
                                right: Box::new(Tree::Nil),
                            });
                            assert(sr2 == with_color(sr, Color::Black));
                            assert(keys(sr2) =~= keys(sr));
                            assert(keys(s) =~= keys(sr).insert(sk));
                            assert(keys(t0) =~= keys(s).insert(pk));
                            lemma_parts(*pn);
                            lemma_parts(sr2);
                            lemma_parts(result);
                            assert(keys(result) =~= keys(t0));
                            assert(all_above(s, pk) && bst(s));
                            assert(sk > pk && all_above(sr2, sk) && bst(sr2));
                            assert(bst(result));
                            assert(black_height_of(sr2) == 1 && balanced(sr2));
                            assert(balanced(result) && black_height_of(result) == 2);
                            assert(no_red_red(sr2));
                            assert(no_red_red(result));
                        }
                        (result, false)
                    },
                    Tree::Nil => (Tree::Nil, false),
                }
            },
            DeleteSituation::BRBRE => {
                proof {
                    let s = left_of(t0);
                    lemma_parts(t0);
                    lemma_parts(s);
                    lemma_parts(left_of(s));
                    lemma_parts(right_of(s));
                    lemma_parts(Tree::Nil);
                    let sl = left_of(s);
                    assert(is_node(s) && is_node(sl) && !is_node(right_of(s)) && !is_node(
                        right_of(t0),
                    ));
                    assert(right_of(t0) == Tree::Nil && black_height_of(s) == 1 && balanced(s));
                    assert(root_color(s) == Color::Black && no_red_red(s));
                    assert(black_height_of(sl) == 0 && root_color(sl) == Color::Red);
                    assert(no_red_red(sl) && balanced(sl));
                    assert(left_of(sl) == Tree::Nil && right_of(sl) == Tree::Nil);
                    assert(right_of(s) == Tree::Nil);
                }
                let rotated = Self::rotate_right(t);
                match rotated {
                    Tree::Node { key: sk2, color: sc2, left: sl_box, right: pn } => {
                        let sl2 = Self::set_color(*sl_box, Color::Black);
                        let result = Tree::Node {
                            key: sk2,
                            color: sc2,
                            left: Box::new(sl2),
                            right: pn,
                        };
                        proof {
                            let s = left_of(t0);
                            lemma_parts(t0);
                            lemma_parts(s);
                            lemma_parts(left_of(s));
                            lemma_parts(right_of(s));
                            lemma_parts(Tree::Nil);
                    lemma_parts(t0);
                    lemma_parts(s);
                    lemma_parts(left_of(s));
                    lemma_parts(right_of(s));
                    lemma_parts(Tree::Nil);
                            let sl = left_of(s);
                            let pk = key_of(t0);
                            let sk = key_of(s);
                            assert(sk2 == sk && sc2 == Color::Black);
                            assert(*pn == Tree::Node {
                                key: pk,
                                color: Color::Black,
                                left: Box::new(Tree::Nil),
                                right: Box::new(Tree::Nil),
                            });
                            assert(sl2 == with_color(sl, Color::Black));
                            assert(keys(sl2) =~= keys(sl));
                            assert(keys(s) =~= keys(sl).insert(sk));
                            assert(keys(t0) =~= keys(s).insert(pk));
                            lemma_parts(*pn);
                            lemma_parts(sl2);
                            lemma_parts(result);
                            assert(keys(result) =~= keys(t0));
                            assert(all_below(s, pk) && bst(s));
                            assert(sk < pk && all_below(sl2, sk) && bst(sl2));
                            assert(bst(result));
                            assert(black_height_of(sl2) == 1 && balanced(sl2));
                            assert(balanced(result) && black_height_of(result) == 2);
                            assert(no_red_red(sl2));
                            assert(no_red_red(result));
                        }
                        (result, false)
                    },
                    Tree::Nil => (Tree::Nil, false),
                }
            },
            DeleteSituation::BLBEE => {
                proof {
                    let s = right_of(t0);
                    lemma_parts(t0);
                    lemma_parts(s);
                    lemma_parts(left_of(s));
                    lemma_parts(right_of(s));
                    lemma_parts(Tree::Nil);
                    assert(is_node(s) && !is_node(left_of(s)) && !is_node(right_of(s)));
                    assert(left_of(t0) == Tree::Nil && black_height_of(s) == 1 && balanced(s));
                    assert(root_color(s) == Color::Black && no_red_red(s));
                    assert(left_of(s) == Tree::Nil && right_of(s) == Tree::Nil);
                }
                match t {
                    Tree::Node { key: pk, color: pc, left: nil_box, right: s_box } => {
                        let s2 = Self::set_color(*s_box, Color::Red);
                        let result = Tree::Node {
                            key: pk,
                            color: pc,
                            left: nil_box,
                            right: Box::new(s2),
                        };
                        proof {
                            let s = right_of(t0);
                            lemma_parts(t0);
                            lemma_parts(s);
                            lemma_parts(left_of(s));
                            lemma_parts(right_of(s));
                            lemma_parts(Tree::Nil);
                    lemma_parts(t0);
                    lemma_parts(s);
                    lemma_parts(left_of(s));
                    lemma_parts(right_of(s));
                    lemma_parts(Tree::Nil);
                            assert(s2 == with_color(s, Color::Red));
                            assert(keys(s2) =~= keys(s));
                            lemma_parts(s2);
                            lemma_parts(result);
                            assert(keys(result) =~= keys(t0));
                            assert(all_above(s2, pk) && bst(s2));
                            assert(bst(result));
                            assert(balanced(result) && black_height_of(result) == 1);
                            assert(no_red_red(result));
                        }
                        (result, true)
                    },
                    Tree::Nil => (Tree::Nil, false),
                }
            },
            DeleteSituation::BRBEE => {
                proof {
                    let s = left_of(t0);
                    lemma_parts(t0);
                    lemma_parts(s);
                    lemma_parts(left_of(s));
                    lemma_parts(right_of(s));
                    lemma_parts(Tree::Nil);
                    assert(is_node(s) && !is_node(left_of(s)) && !is_node(right_of(s))
                        && !is_node(right_of(t0)));
                    assert(right_of(t0) == Tree::Nil && black_height_of(s) == 1 && balanced(s));
                    assert(root_color(s) == Color::Black && no_red_red(s));
                    assert(left_of(s) == Tree::Nil && right_of(s) == Tree::Nil);
                }
                match t {
                    Tree::Node { key: pk, color: pc, left: s_box, right: nil_box } => {
                        let s2 = Self::set_color(*s_box, Color::Red);
                        let result = Tree::Node {
                            key: pk,
                            color: pc,
                            left: Box::new(s2),
                            right: nil_box,
                        };
                        proof {
                            let s = left_of(t0);
                            lemma_parts(t0);
                            lemma_parts(s);
                            lemma_parts(left_of(s));
                            lemma_parts(right_of(s));
                            lemma_parts(Tree::Nil);
                    lemma_parts(t0);
                    lemma_parts(s);
                    lemma_parts(left_of(s));
                    lemma_parts(right_of(s));
                    lemma_parts(Tree::Nil);
                            assert(s2 == with_color(s, Color::Red));
                            assert(keys(s2) =~= keys(s));
                            lemma_parts(s2);
                            lemma_parts(result);
                            assert(keys(result) =~= keys(t0));
                            assert(all_below(s2, pk) && bst(s2));
                            assert(bst(result));
                            assert(balanced(result) && black_height_of(result) == 1);
                            assert(no_red_red(result));
                        }
                        (result, true)
                    },
                    Tree::Nil => (Tree::Nil, false),
                }
            },
            DeleteSituation::Stable => {
                proof {
                    if left_of(t0) == Tree::Nil {
                        let s = right_of(t0);
                    lemma_parts(t0);
                    lemma_parts(s);
                    lemma_parts(left_of(s));
                    lemma_parts(right_of(s));
                    lemma_parts(Tree::Nil);
                        assert(is_node(s) && black_height_of(s) == 1 && balanced(s));
                        if root_color(t0) == Color::Red {
                            assert(false);
                        } else {
                            assert(root_color(s) == Color::Red ==> black_height_of(left_of(s))
                                == 1 && black_height_of(right_of(s)) == 1);
                            assert(root_color(s) == Color::Red ==> is_node(left_of(s)) && is_node(
                                right_of(s),
                            ));
                            assert(false);
                        }
                    } else {
                        let s = left_of(t0);
                    lemma_parts(t0);
                    lemma_parts(s);
                    lemma_parts(left_of(s));
                    lemma_parts(right_of(s));
                    lemma_parts(Tree::Nil);
                        assert(is_node(s) && black_height_of(s) == 1 && balanced(s));
                        if root_color(t0) == Color::Red {
                            assert(false);
                        } else {
                            assert(root_color(s) == Color::Red ==> black_height_of(left_of(s))
                                == 1 && black_height_of(right_of(s)) == 1);
                            assert(root_color(s) == Color::Red ==> is_node(left_of(s)) && is_node(
                                right_of(s),
                            ));
                            assert(false);
                        }
                    }
                }
                (t, false)
            },
        }
    }

    /// Classifies the neighbourhood of a node `t` whose child on `side`
    /// is a whole subtree uniformly one black node short.
    pub fn judge_delete_recursion_situation(t: &Tree, side: Side) -> (r: DeleteRecursionSituation)
        ensures
            r == spec_delete_recursion_situation(*t, side),
    {
        if !Self::node_exists(t) || !Self::node_exists(Self::child(t, side)) {
            return DeleteRecursionSituation::Stable;
        }
        let s = Self::child(t, Self::opposite_side(side));
        if !(Self::node_exists(Self::child(s, Side::Left)) && Self::node_exists(
            Self::child(s, Side::Right),
        )) {
            return DeleteRecursionSituation::Stable;
        }
        let nl_red = Self::node_is_red(Self::child(s, Side::Left));
        let nr_red = Self::node_is_red(Self::child(s, Side::Right));
        if side == Side::Left {
            if Self::node_is_red(t) {
                if !nl_red {
                    DeleteRecursionSituation::LRBW
                } else if !nr_red {
                    DeleteRecursionSituation::LRRB
                } else {
                    DeleteRecursionSituation::LRRR
                }
            } else {
                if !Self::node_is_red(s) {
                    if !nl_red && !nr_red {
                        DeleteRecursionSituation::LBBBB
                    } else if nr_red {
                        DeleteRecursionSituation::LBBWR
                    } else {
                        DeleteRecursionSituation::LBBRB
                    }
                } else {
                    DeleteRecursionSituation::LBR
                }
            }
        } else {
            if Self::node_is_red(t) {
                if !nr_red {
                    DeleteRecursionSituation::RRWB
                } else if !nl_red {
                    DeleteRecursionSituation::RRBR
                } else {
                    DeleteRecursionSituation::RRRR
                }
            } else {
                if !Self::node_is_red(s) {
                    if !nl_red && !nr_red {
                        DeleteRecursionSituation::RBBBB
                    } else if nl_red {
                        DeleteRecursionSituation::RBBRW
                    } else {
                        DeleteRecursionSituation::RBBBR
                    }
                } else {
                    DeleteRecursionSituation::RBR
                }
            }
        }
    }
}

/// The classification used while the black-height shortage climbs: the
/// deficient child of `t` on one side is now a whole subtree, and the
/// sibling with its two children (which the invariants force to exist)
/// decides the repair.  The letters name the deficient side, the
/// parent's colour, and the colours of the sibling and its children.
#[derive(Clone, Copy, PartialEq, Eq, Structural, Debug)]
pub enum DeleteRecursionSituation {
    LRBW,
    LRRB,
    LRRR,
    LBBBB,
    LBBWR,
    LBBRB,
    LBR,
    RRWB,
    RRBR,
    RRRR,
    RBBBB,
    RBBRW,
    RBBBR,
    RBR,
    Stable,
}

/// Reads the escalation situation off the parent `t` of the deficient
/// subtree on `side`.
pub open spec fn spec_delete_recursion_situation(t: Tree, side: Side) -> DeleteRecursionSituation {
    if !is_node(t) || !is_node(child_of(t, side)) {
        DeleteRecursionSituation::Stable
    } else {
        let s = child_of(t, opposite(side));
        if !(is_node(left_of(s)) && is_node(right_of(s))) {
            DeleteRecursionSituation::Stable
        } else {
            let nl = root_color(left_of(s));
            let nr = root_color(right_of(s));
            if side == Side::Left {
                if root_color(t) == Color::Red {
                    if nl == Color::Black {
                        DeleteRecursionSituation::LRBW
                    } else if nr == Color::Black {
                        DeleteRecursionSituation::LRRB
                    } else {
                        DeleteRecursionSituation::LRRR
                    }
                } else {
                    if root_color(s) == Color::Black {
                        if nl == Color::Black && nr == Color::Black {
                            DeleteRecursionSituation::LBBBB
                        } else if nr == Color::Red {
                            DeleteRecursionSituation::LBBWR
                        } else {
                            DeleteRecursionSituation::LBBRB
                        }
                    } else {
                        DeleteRecursionSituation::LBR
                    }
                }
            } else {
                if root_color(t) == Color::Red {
                    if nr == Color::Black {
                        DeleteRecursionSituation::RRWB
                    } else if nl == Color::Black {
                        DeleteRecursionSituation::RRBR
                    } else {
                        DeleteRecursionSituation::RRRR
                    }
                } else {
                    if root_color(s) == Color::Black {
                        if nl == Color::Black && nr == Color::Black {
                            DeleteRecursionSituation::RBBBB
                        } else if nl == Color::Red {
                            DeleteRecursionSituation::RBBRW
                        } else {
                            DeleteRecursionSituation::RBBBR
                        }
                    } else {
                        DeleteRecursionSituation::RBR
                    }
                }
            }
        }
    }
}

impl RedBlackTree {
    /// Repairs a node `t` whose child on `side` is a subtree uniformly
    /// one black node short of its sibling.  The result holds the same
    /// keys and either restores the subtree's full black height
    /// (`res.1` false) or is itself uniformly one black node short with
    /// a black root (`res.1` true); only a black parent can pass the
    /// shortage on, so the climb ends at the latest at a red ancestor.
    #[verifier::rlimit(100)]
    pub fn delete_balance_recursion(t: Tree, side: Side) -> (res: (Tree, bool))
        requires
            is_node(t),
            bst(t),
            no_red_red(t),
            is_node(child_of(t, side)),
            root_color(child_of(t, side)) == Color::Black,
            balanced(child_of(t, side)),
            balanced(child_of(t, opposite(side))),
            black_height_of(child_of(t, side)) + 1 == black_height_of(child_of(t, opposite(side))),
        ensures
            is_node(res.0),
            bst(res.0),
            keys(res.0) == keys(t),
            no_red_red(res.0),
            balanced(res.0),
            black_height_of(res.0) + (if res.1 {
                1nat
            } else {
                0nat
            }) == (if root_color(t) == Color::Black {
                1nat
            } else {
                0nat
            }) + black_height_of(child_of(t, opposite(side))),
            res.1 ==> root_color(res.0) == Color::Black,
            root_color(t) == Color::Black ==> root_color(res.0) == Color::Black,
            root_color(t) == Color::Red ==> !res.1,
        decreases node_count(t),
    {
        let ghost t0 = t;
        proof {
            lemma_parts(t0);
            lemma_parts(left_of(t0));
            lemma_parts(right_of(t0));
            lemma_parts(left_of(child_of(t0, opposite(side))));
            lemma_parts(right_of(child_of(t0, opposite(side))));
            lemma_parts(Tree::Nil);
            let c = child_of(t0, side);
            let s = child_of(t0, opposite(side));
            assert(black_height_of(c) >= 1);
            assert(is_node(s));
            if root_color(s) == Color::Black {
                assert(black_height_of(left_of(s)) == black_height_of(c));
                assert(black_height_of(right_of(s)) == black_height_of(c));
            } else {
                assert(black_height_of(left_of(s)) == black_height_of(s));
                assert(black_height_of(right_of(s)) == black_height_of(s));
            }
            assert(is_node(left_of(s)) && is_node(right_of(s)));
        }
        let situation = Self::judge_delete_recursion_situation(&t, side);
        match situation {
            DeleteRecursionSituation::LRBW => {
                let rotated = Self::rotate_left(t);
                proof {
                    let c = left_of(t0);
                    let s = right_of(t0);
                    let sl = left_of(s);
                    let sr = right_of(s);
                    let pk = key_of(t0);
                    let sk = key_of(s);
                    assert(root_color(s) == Color::Black);
                    assert(rotated == Tree::Node {
                        key: sk,
                        color: Color::Black,
                        left: Box::new(Tree::Node {
                            key: pk,
                            color: Color::Red,
                            left: Box::new(c),
                            right: Box::new(sl),
                        }),
                        right: Box::new(sr),
                    });
                    lemma_parts(rotated);
                    lemma_parts(left_of(rotated));
                    assert(keys(rotated) =~= keys(t0));
                    assert(sk > pk && all_above(sl, pk) && all_above(sr, pk));
                    lemma_all_below_widen(c, pk, sk);
                    assert(all_below(sl, sk) && all_above(sr, sk) && bst(sl) && bst(sr));
                    assert(bst(left_of(rotated)));
                    assert(all_below(left_of(rotated), sk));
                    assert(bst(rotated));
                    assert(balanced(left_of(rotated)));
                    assert(black_height_of(left_of(rotated)) == black_height_of(c));
                    assert(balanced(rotated));
                    assert(black_height_of(rotated) == 1 + black_height_of(c));
                    assert(no_red_red(rotated));
                }
                (rotated, false)
            },
            DeleteRecursionSituation::LRRB => {
                match t {
                    Tree::Node { key: pk, color: _, left: c_box, right: s_box } => {
                        let s2 = Self::set_color(*s_box, Color::Red);
                        let t2 = Tree::Node {
                            key: pk,
                            color: Color::Black,
                            left: c_box,
                            right: Box::new(s2),
                        };
                        proof {
                            let c = left_of(t0);
                            let s = right_of(t0);
                            lemma_parts(s2);
                            lemma_parts(t2);
                            assert(root_color(s) == Color::Black);
                            assert(keys(s2) =~= keys(s));
                            assert(keys(t2) =~= keys(t0));
                            assert(bst(s2) && bst(t2));
                            assert(balanced(s2) && black_height_of(s2) == black_height_of(c));
                            assert(balanced(t2));
                            assert(child_of(t2, Side::Right) == s2);
                            assert(child_of(t2, opposite(Side::Right)) == c);
                            assert(almost_rb(s2));
                            assert(no_red_red(c));
                        }
                        let fixed = Self::insert_balance(t2, Side::Right);
                        proof {
                            assert(keys(fixed) =~= keys(t0));
                            assert(no_red_red(fixed));
                            assert(black_height_of(fixed) == 1 + black_height_of(left_of(t0)));
                        }
                        (fixed, false)
                    },
                    Tree::Nil => (Tree::Nil, false),
                }
            },
            DeleteRecursionSituation::LRRR => {
                match t {
                    Tree::Node { key: pk, color: _, left: c_box, right: s_box } => {
                        match *s_box {
                            Tree::Node { key: sk, color: _, left: sl_box, right: sr_box } => {
                                let ghost sr0 = *sr_box;
                                let sr2 = Self::set_color(*sr_box, Color::Black);
                                let s2 = Tree::Node {
                                    key: sk,
                                    color: Color::Red,
                                    left: sl_box,
                                    right: Box::new(sr2),
                                };
                                let t2 = Tree::Node {
                                    key: pk,
                                    color: Color::Black,
                                    left: c_box,
                                    right: Box::new(s2),
                                };
                                proof {
                                    assert(is_node(right_of(t2)));
                                }
                                let rotated = Self::rotate_left(t2);
                                proof {
                                    let c = left_of(t0);
                                    let s = right_of(t0);
                                    let sl = left_of(s);
                                    assert(root_color(s) == Color::Black);
                                    assert(root_color(sl) == Color::Red && root_color(sr0)
                                        == Color::Red);
                                    lemma_parts(sr2);
                                    lemma_parts(s2);
                                    lemma_parts(t2);
                                    assert(rotated == Tree::Node {
                                        key: sk,
                                        color: Color::Red,
                                        left: Box::new(Tree::Node {
                                            key: pk,
                                            color: Color::Black,
                                            left: Box::new(c),
                                            right: Box::new(sl),
                                        }),
                                        right: Box::new(sr2),
                                    });
                                    lemma_parts(rotated);
                                    lemma_parts(left_of(rotated));
                                    assert(keys(sr2) =~= keys(sr0));
                                    assert(keys(rotated) =~= keys(t0));
                                    assert(sk > pk && all_above(sl, pk) && all_above(sr0, pk));
                                    lemma_all_below_widen(c, pk, sk);
                                    assert(all_below(sl, sk) && all_above(sr2, sk));
                                    assert(bst(sr2) && bst(sl) && bst(c));
                                    assert(bst(left_of(rotated)));
                                    assert(bst(rotated));
                                    assert(balanced(sr2) && black_height_of(sr2) == 1
                                        + black_height_of(left_of(t0)));
                                    assert(balanced(left_of(rotated)));
                                    assert(black_height_of(left_of(rotated)) == 1
                                        + black_height_of(c));
                                    assert(balanced(rotated));
                                    assert(black_height_of(rotated) == 1 + black_height_of(c));
                                    assert(no_red_red(sr2) && no_red_red(sl) && no_red_red(c));
                                    assert(no_red_red(left_of(rotated)));
                                    assert(no_red_red(rotated));
                                }
                                (rotated, false)
                            },
                            Tree::Nil => (Tree::Nil, false),
                        }
                    },
                    Tree::Nil => (Tree::Nil, false),
                }
            },
            DeleteRecursionSituation::LBBBB => {
                match t {
                    Tree::Node { key: pk, color: pc, left: c_box, right: s_box } => {
                        let s2 = Self::set_color(*s_box, Color::Red);
                        let result = Tree::Node {
                            key: pk,
                            color: pc,
                            left: c_box,
                            right: Box::new(s2),
                        };
                        proof {
                            let c = left_of(t0);
                            let s = right_of(t0);
                            assert(root_color(t0) == Color::Black);
                            assert(root_color(s) == Color::Black);
                            lemma_parts(s2);
                            lemma_parts(result);
                            assert(keys(s2) =~= keys(s));
                            assert(keys(result) =~= keys(t0));
                            assert(bst(s2) && bst(result));
                            assert(balanced(s2) && black_height_of(s2) == black_height_of(c));
                            assert(balanced(result));
                            assert(black_height_of(result) == 1 + black_height_of(c));
                            assert(no_red_red(s2));
                            assert(no_red_red(result));
                        }
                        (result, true)
                    },
                    Tree::Nil => (Tree::Nil, false),
                }
            },
            DeleteRecursionSituation::LBBWR => {
                let rotated = Self::rotate_left(t);
                match rotated {
                    Tree::Node { key: sk2, color: sc2, left: pn, right: sr_box } => {
                        let sr2 = Self::set_color(*sr_box, Color::Black);
                        let result = Tree::Node {
                            key: sk2,
                            color: sc2,
                            left: pn,
                            right: Box::new(sr2),
                        };
                        proof {
                            let c = left_of(t0);
                            let s = right_of(t0);
                            let sl = left_of(s);
                            let sr = right_of(s);
                            let pk = key_of(t0);
                            let sk = key_of(s);
                            assert(root_color(t0) == Color::Black);
                            assert(root_color(s) == Color::Black);
                            assert(root_color(sr) == Color::Red);
                            assert(sk2 == sk && sc2 == Color::Black);
                            assert(*pn == Tree::Node {
                                key: pk,
                                color: Color::Black,
                                left: Box::new(c),
                                right: Box::new(sl),
                            });
                            assert(sr2 == with_color(sr, Color::Black));
                            lemma_parts(*pn);
                            lemma_parts(sr2);
                            lemma_parts(result);
                            assert(keys(sr2) =~= keys(sr));
                            assert(keys(result) =~= keys(t0));
                            assert(sk > pk && all_above(sl, pk) && all_above(sr, pk));
                            lemma_all_below_widen(c, pk, sk);
                            assert(all_below(sl, sk) && all_above(sr2, sk));
                            assert(bst(sr2) && bst(sl) && bst(c));
                            assert(bst(*pn));
                            assert(all_below(*pn, sk));
                            assert(bst(result));
                            assert(balanced(*pn) && black_height_of(*pn) == 1 + black_height_of(
                                c,
                            ));
                            assert(balanced(sr2) && black_height_of(sr2) == 1 + black_height_of(
                                c,
                            ));
                            assert(balanced(result));
                            assert(black_height_of(result) == 2 + black_height_of(c));
                            assert(no_red_red(sr2) && no_red_red(sl) && no_red_red(c));
                            assert(no_red_red(*pn));
                            assert(no_red_red(result));
                        }
                        (result, false)
                    },
                    Tree::Nil => (Tree::Nil, false),
                }
            },
            DeleteRecursionSituation::LBBRB => {
                match t {
                    Tree::Node { key: pk, color: pc, left: c_box, right: s_box } => {
                        match *s_box {
                            Tree::Node { key: sk, color: sc, left: sl_box, right: sr_box } => {
                                let sl2 = Self::set_color(*sl_box, Color::Black);
                                let s2 = Tree::Node {
                                    key: sk,
                                    color: sc,
                                    left: Box::new(sl2),
                                    right: sr_box,
                                };
                                proof {
                                    assert(is_node(left_of(s2)));
                                }
                                let s3 = Self::rotate_right(s2);
                                let t2 = Tree::Node {
                                    key: pk,
                                    color: pc,
                                    left: c_box,
                                    right: Box::new(s3),
                                };
                                proof {
                                    assert(is_node(right_of(t2)));
                                }
                                let rotated = Self::rotate_left(t2);
                                proof {
                                    let c = left_of(t0);
                                    let s = right_of(t0);
                                    let sl = left_of(s);
                                    let sr = right_of(s);
                                    let u = left_of(sl);
                                    let v = right_of(sl);
                                    let slk = key_of(sl);
                                    assert(root_color(t0) == Color::Black);
                                    assert(root_color(s) == Color::Black);
                                    assert(root_color(sl) == Color::Red && root_color(sr)
                                        == Color::Black);
                                    lemma_parts(sl);
                                    lemma_parts(u);
                                    lemma_parts(v);
                                    lemma_parts(sl2);
                                    lemma_parts(s2);
                                    assert(rotated == Tree::Node {
                                        key: slk,
                                        color: Color::Black,
                                        left: Box::new(Tree::Node {
                                            key: pk,
                                            color: Color::Black,
                                            left: Box::new(c),
                                            right: Box::new(u),
                                        }),
                                        right: Box::new(Tree::Node {
                                            key: sk,
                                            color: Color::Black,
                                            left: Box::new(v),
                                            right: Box::new(sr),
                                        }),
                                    });
                                    lemma_parts(rotated);
                                    lemma_parts(left_of(rotated));
                                    lemma_parts(right_of(rotated));
                                    assert(keys(sl) =~= keys(u).union(keys(v)).insert(slk));
                                    assert(keys(rotated) =~= keys(t0));
                                    assert(sk > pk && all_above(sl, pk) && all_above(sr, pk));
                                    assert(slk > pk && all_above(u, pk) && all_above(v, pk));
                                    assert(all_below(sl, sk) && slk < sk && all_below(u, sk)
                                        && all_below(v, sk));
                                    assert(all_below(u, slk) && all_above(v, slk));
                                    lemma_all_below_widen(c, pk, slk);
                                    lemma_all_above_widen(sr, sk, slk);
                                    assert(bst(u) && bst(v) && bst(c) && bst(sr));
                                    assert(bst(left_of(rotated)) && bst(right_of(rotated)));
                                    assert(all_below(left_of(rotated), slk) && all_above(
                                        right_of(rotated),
                                        slk,
                                    ));
                                    assert(bst(rotated));
                                    assert(balanced(sl) && black_height_of(u) == black_height_of(
                                        c,
                                    ) && black_height_of(v) == black_height_of(c));
                                    assert(balanced(u) && balanced(v));
                                    assert(balanced(left_of(rotated)) && balanced(
                                        right_of(rotated),
                                    ));
                                    assert(black_height_of(left_of(rotated)) == 1
                                        + black_height_of(c) && black_height_of(
                                        right_of(rotated),
                                    ) == 1 + black_height_of(c));
                                    assert(balanced(rotated));
                                    assert(black_height_of(rotated) == 2 + black_height_of(c));
                                    assert(no_red_red(u) && no_red_red(v) && no_red_red(c)
                                        && no_red_red(sr));
                                    assert(no_red_red(left_of(rotated)) && no_red_red(
                                        right_of(rotated),
                                    ));
                                    assert(no_red_red(rotated));
                                }
                                (rotated, false)
                            },
                            Tree::Nil => (Tree::Nil, false),
                        }
                    },
                    Tree::Nil => (Tree::Nil, false),
                }
            },
            DeleteRecursionSituation::LBR => {
                match t {
                    Tree::Node { key: pk, color: _, left: c_box, right: s_box } => {
                        match *s_box {
                            Tree::Node { key: sk, color: _, left: sl_box, right: sr_box } => {
                                let p2 = Tree::Node {
                                    key: pk,
                                    color: Color::Red,
                                    left: c_box,
                                    right: sl_box,
                                };
                                proof {
                                    let c = left_of(t0);
                                    let s = right_of(t0);
                                    let sl = left_of(s);
                                    assert(root_color(t0) == Color::Black);
                                    assert(root_color(s) == Color::Red);
                                    assert(root_color(sl) == Color::Black && root_color(
                                        right_of(s),
                                    ) == Color::Black);
                                    assert(black_height_of(sl) == black_height_of(s));
                                    lemma_parts(p2);
                                    assert(keys(p2) =~= keys(c).union(keys(sl)).insert(pk));
                                    assert(sk > pk && all_above(sl, pk));
                                    assert(bst(p2));
                                    assert(no_red_red(p2));
                                    assert(child_of(p2, Side::Left) == c);
                                    assert(child_of(p2, opposite(Side::Left)) == sl);
                                    assert(node_count(p2) < node_count(t0));
                                }
                                let inner = Self::delete_balance_recursion(p2, Side::Left);
                                let p3 = inner.0;
                                let result = Tree::Node {
                                    key: sk,
                                    color: Color::Black,
                                    left: Box::new(p3),
                                    right: sr_box,
                                };
                                proof {
                                    let c = left_of(t0);
                                    let s = right_of(t0);
                                    let sl = left_of(s);
                                    let sr = right_of(s);
                                    let p2g = Tree::Node {
                                        key: pk,
                                        color: Color::Red,
                                        left: Box::new(c),
                                        right: Box::new(sl),
                                    };
                                    assert(!inner.1);
                                    assert(black_height_of(p3) == black_height_of(sl));
                                    lemma_parts(result);
                                    assert(keys(p3) =~= keys(p2g));
                                    assert(keys(result) =~= keys(t0));
                                    assert(all_below(sl, sk) && all_above(sr, sk));
                                    lemma_all_below_widen(c, pk, sk);
                                    assert(all_below(p2g, sk));
                                    lemma_all_below_equiv(p2g, sk);
                                    lemma_all_below_equiv(p3, sk);
                                    assert(all_below(p3, sk));
                                    assert(bst(result));
                                    assert(balanced(result));
                                    assert(black_height_of(result) == 1 + black_height_of(sl));
                                    assert(no_red_red(result));
                                }
                                (result, false)
                            },
                            Tree::Nil => (Tree::Nil, false),
                        }
                    },
                    Tree::Nil => (Tree::Nil, false),
                }
            },
            DeleteRecursionSituation::RRWB => {
                let rotated = Self::rotate_right(t);
                proof {
                    let c = right_of(t0);
                    let s = left_of(t0);
                    let sl = left_of(s);
                    let sr = right_of(s);
                    let pk = key_of(t0);
                    let sk = key_of(s);
                    assert(root_color(s) == Color::Black);
                    assert(rotated == Tree::Node {
                        key: sk,
                        color: Color::Black,
                        left: Box::new(sl),
                        right: Box::new(Tree::Node {
                            key: pk,
                            color: Color::Red,
                            left: Box::new(sr),
                            right: Box::new(c),
                        }),
                    });
                    lemma_parts(rotated);
                    lemma_parts(right_of(rotated));
                    assert(keys(rotated) =~= keys(t0));
                    assert(sk < pk && all_below(sl, pk) && all_below(sr, pk));
                    lemma_all_above_widen(c, pk, sk);
                    assert(all_above(sr, sk) && all_below(sl, sk) && bst(sl) && bst(sr));
                    assert(bst(right_of(rotated)));
                    assert(all_above(right_of(rotated), sk));
                    assert(bst(rotated));
                    assert(balanced(right_of(rotated)));
                    assert(black_height_of(right_of(rotated)) == black_height_of(c));
                    assert(balanced(rotated));
                    assert(black_height_of(rotated) == 1 + black_height_of(c));
                    assert(no_red_red(rotated));
                }
                (rotated, false)
            },
            DeleteRecursionSituation::RRBR => {
                match t {
                    Tree::Node { key: pk, color: _, left: s_box, right: c_box } => {
                        let s2 = Self::set_color(*s_box, Color::Red);
                        let t2 = Tree::Node {
                            key: pk,
                            color: Color::Black,
                            left: Box::new(s2),
                            right: c_box,
                        };
                        proof {
                            let c = right_of(t0);
                            let s = left_of(t0);
                            lemma_parts(s2);
                            lemma_parts(t2);
                            assert(root_color(s) == Color::Black);
                            assert(keys(s2) =~= keys(s));
                            assert(keys(t2) =~= keys(t0));
                            assert(bst(s2) && bst(t2));
                            assert(balanced(s2) && black_height_of(s2) == black_height_of(c));
                            assert(balanced(t2));
                            assert(child_of(t2, Side::Left) == s2);
                            assert(child_of(t2, opposite(Side::Left)) == c);
                            assert(almost_rb(s2));
                            assert(no_red_red(c));
                        }
                        let fixed = Self::insert_balance(t2, Side::Left);
                        proof {
                            assert(keys(fixed) =~= keys(t0));
                            assert(no_red_red(fixed));
                            assert(black_height_of(fixed) == 1 + black_height_of(right_of(t0)));
                        }
                        (fixed, false)
                    },
                    Tree::Nil => (Tree::Nil, false),
                }
            },
            DeleteRecursionSituation::RRRR => {
                match t {
                    Tree::Node { key: pk, color: _, left: s_box, right: c_box } => {
                        match *s_box {
                            Tree::Node { key: sk, color: _, left: sl_box, right: sr_box } => {
                                let ghost sl0 = *sl_box;
                                let sl2 = Self::set_color(*sl_box, Color::Black);
                                let s2 = Tree::Node {
                                    key: sk,
                                    color: Color::Red,
                                    left: Box::new(sl2),
                                    right: sr_box,
                                };
                                let t2 = Tree::Node {
                                    key: pk,
                                    color: Color::Black,
                                    left: Box::new(s2),
                                    right: c_box,
                                };
                                proof {
                                    assert(is_node(left_of(t2)));
                                }
                                let rotated = Self::rotate_right(t2);
                                proof {
                                    let c = right_of(t0);
                                    let s = left_of(t0);
                                    let sr = right_of(s);
                                    assert(root_color(s) == Color::Black);
                                    assert(root_color(sr) == Color::Red && root_color(sl0)
                                        == Color::Red);
                                    lemma_parts(sl2);
                                    lemma_parts(s2);
                                    lemma_parts(t2);
                                    assert(rotated == Tree::Node {
                                        key: sk,
                                        color: Color::Red,
                                        left: Box::new(sl2),
                                        right: Box::new(Tree::Node {
                                            key: pk,
                                            color: Color::Black,
                                            left: Box::new(sr),
                                            right: Box::new(c),
                                        }),
                                    });
                                    lemma_parts(rotated);
                                    lemma_parts(right_of(rotated));
                                    assert(keys(sl2) =~= keys(sl0));
                                    assert(keys(rotated) =~= keys(t0));
                                    assert(sk < pk && all_below(sr, pk) && all_below(sl0, pk));
                                    lemma_all_above_widen(c, pk, sk);
                                    assert(all_above(sr, sk) && all_below(sl2, sk));
                                    assert(bst(sl2) && bst(sr) && bst(c));
                                    assert(bst(right_of(rotated)));
                                    assert(bst(rotated));
                                    assert(balanced(sl2) && black_height_of(sl2) == 1
                                        + black_height_of(right_of(t0)));
                                    assert(balanced(right_of(rotated)));
                                    assert(black_height_of(right_of(rotated)) == 1
                                        + black_height_of(c));
                                    assert(balanced(rotated));
                                    assert(black_height_of(rotated) == 1 + black_height_of(c));
                                    assert(no_red_red(sl2) && no_red_red(sr) && no_red_red(c));
                                    assert(no_red_red(right_of(rotated)));
                                    assert(no_red_red(rotated));
                                }
                                (rotated, false)
                            },
                            Tree::Nil => (Tree::Nil, false),
                        }
                    },
                    Tree::Nil => (Tree::Nil, false),
                }
            },
            DeleteRecursionSituation::RBBBB => {
                match t {
                    Tree::Node { key: pk, color: pc, left: s_box, right: c_box } => {
                        let s2 = Self::set_color(*s_box, Color::Red);
                        let result = Tree::Node {
                            key: pk,
                            color: pc,
                            left: Box::new(s2),
                            right: c_box,
                        };
                        proof {
                            let c = right_of(t0);
                            let s = left_of(t0);
                            assert(root_color(t0) == Color::Black);
                            assert(root_color(s) == Color::Black);
                            lemma_parts(s2);
                            lemma_parts(result);
                            assert(keys(s2) =~= keys(s));
                            assert(keys(result) =~= keys(t0));
                            assert(bst(s2) && bst(result));
                            assert(balanced(s2) && black_height_of(s2) == black_height_of(c));
                            assert(balanced(result));
                            assert(black_height_of(result) == 1 + black_height_of(c));
                            assert(no_red_red(s2));
                            assert(no_red_red(result));
                        }
                        (result, true)
                    },
                    Tree::Nil => (Tree::Nil, false),
                }
            },
            DeleteRecursionSituation::RBBRW => {
                let rotated = Self::rotate_right(t);
                match rotated {
                    Tree::Node { key: sk2, color: sc2, left: sl_box, right: pn } => {
                        let sl2 = Self::set_color(*sl_box, Color::Black);
                        let result = Tree::Node {
                            key: sk2,
                            color: sc2,
                            left: Box::new(sl2),
                            right: pn,
                        };
                        proof {
                            let c = right_of(t0);
                            let s = left_of(t0);
                            let sl = left_of(s);
                            let sr = right_of(s);
                            let pk = key_of(t0);
                            let sk = key_of(s);
                            assert(root_color(t0) == Color::Black);
                            assert(root_color(s) == Color::Black);
                            assert(root_color(sl) == Color::Red);
                            assert(sk2 == sk && sc2 == Color::Black);
                            assert(*pn == Tree::Node {
                                key: pk,
                                color: Color::Black,
                                left: Box::new(sr),
                                right: Box::new(c),
                            });
                            assert(sl2 == with_color(sl, Color::Black));
                            lemma_parts(*pn);
                            lemma_parts(sl2);
                            lemma_parts(result);
                            assert(keys(sl2) =~= keys(sl));
                            assert(keys(result) =~= keys(t0));
                            assert(sk < pk && all_below(sl, pk) && all_below(sr, pk));
                            lemma_all_above_widen(c, pk, sk);
                            assert(all_above(sr, sk) && all_below(sl2, sk));
                            assert(bst(sl2) && bst(sr) && bst(c));
                            assert(bst(*pn));
                            assert(all_above(*pn, sk));
                            assert(bst(result));
                            assert(balanced(*pn) && black_height_of(*pn) == 1 + black_height_of(
                                c,
                            ));
                            assert(balanced(sl2) && black_height_of(sl2) == 1 + black_height_of(
                                c,
                            ));
                            assert(balanced(result));
                            assert(black_height_of(result) == 2 + black_height_of(c));
                            assert(no_red_red(sl2) && no_red_red(sr) && no_red_red(c));
                            assert(no_red_red(*pn));
                            assert(no_red_red(result));
                        }
                        (result, false)
                    },
                    Tree::Nil => (Tree::Nil, false),
                }
            },
            DeleteRecursionSituation::RBBBR => {
                match t {
                    Tree::Node { key: pk, color: pc, left: s_box, right: c_box } => {
                        match *s_box {
                            Tree::Node { key: sk, color: sc, left: sl_box, right: sr_box } => {
                                let sr2 = Self::set_color(*sr_box, Color::Black);
                                let s2 = Tree::Node {
                                    key: sk,
                                    color: sc,
                                    left: sl_box,
                                    right: Box::new(sr2),
                                };
                                proof {
                                    assert(is_node(right_of(s2)));
                                }
                                let s3 = Self::rotate_left(s2);
                                let t2 = Tree::Node {
                                    key: pk,
                                    color: pc,
                                    left: Box::new(s3),
                                    right: c_box,
                                };
                                proof {
                                    assert(is_node(left_of(t2)));
                                }
                                let rotated = Self::rotate_right(t2);
                                proof {
                                    let c = right_of(t0);
                                    let s = left_of(t0);
                                    let sl = left_of(s);
                                    let sr = right_of(s);
                                    let u = left_of(sr);
                                    let v = right_of(sr);
                                    let srk = key_of(sr);
                                    assert(root_color(t0) == Color::Black);
                                    assert(root_color(s) == Color::Black);
                                    assert(root_color(sr) == Color::Red && root_color(sl)
                                        == Color::Black);
                                    lemma_parts(sr);
                                    lemma_parts(u);
                                    lemma_parts(v);
                                    lemma_parts(sr2);
                                    lemma_parts(s2);
                                    assert(rotated == Tree::Node {
                                        key: srk,
                                        color: Color::Black,
                                        left: Box::new(Tree::Node {
                                            key: sk,
                                            color: Color::Black,
                                            left: Box::new(sl),
                                            right: Box::new(u),
                                        }),
                                        right: Box::new(Tree::Node {
                                            key: pk,
                                            color: Color::Black,
                                            left: Box::new(v),
                                            right: Box::new(c),
                                        }),
                                    });
                                    lemma_parts(rotated);
                                    lemma_parts(left_of(rotated));
                                    lemma_parts(right_of(rotated));
                                    assert(keys(sr) =~= keys(u).union(keys(v)).insert(srk));
                                    assert(keys(rotated) =~= keys(t0));
                                    assert(sk < pk && all_below(sl, pk) && all_below(sr, pk));
                                    assert(srk < pk && all_below(u, pk) && all_below(v, pk));
                                    assert(all_above(sr, sk) && srk > sk && all_above(u, sk)
                                        && all_above(v, sk));
                                    assert(all_below(u, srk) && all_above(v, srk));
                                    lemma_all_above_widen(c, pk, srk);
                                    lemma_all_below_widen(sl, sk, srk);
                                    assert(bst(u) && bst(v) && bst(c) && bst(sl));
                                    assert(bst(left_of(rotated)) && bst(right_of(rotated)));
                                    assert(all_below(left_of(rotated), srk) && all_above(
                                        right_of(rotated),
                                        srk,
                                    ));
                                    assert(bst(rotated));
                                    assert(balanced(sr) && black_height_of(u) == black_height_of(
                                        c,
                                    ) && black_height_of(v) == black_height_of(c));
                                    assert(balanced(u) && balanced(v));
                                    assert(balanced(left_of(rotated)) && balanced(
                                        right_of(rotated),
                                    ));
                                    assert(black_height_of(left_of(rotated)) == 1
                                        + black_height_of(c) && black_height_of(
                                        right_of(rotated),
                                    ) == 1 + black_height_of(c));
                                    assert(balanced(rotated));
                                    assert(black_height_of(rotated) == 2 + black_height_of(c));
                                    assert(no_red_red(u) && no_red_red(v) && no_red_red(c)
                                        && no_red_red(sl));
                                    assert(no_red_red(left_of(rotated)) && no_red_red(
                                        right_of(rotated),
                                    ));
                                    assert(no_red_red(rotated));
                                }
                                (rotated, false)
                            },
                            Tree::Nil => (Tree::Nil, false),
                        }
                    },
                    Tree::Nil => (Tree::Nil, false),
                }
            },
            DeleteRecursionSituation::RBR => {
                match t {
                    Tree::Node { key: pk, color: _, left: s_box, right: c_box } => {
                        match *s_box {
                            Tree::Node { key: sk, color: _, left: sl_box, right: sr_box } => {
                                let p2 = Tree::Node {
                                    key: pk,
                                    color: Color::Red,
                                    left: sr_box,
                                    right: c_box,
                                };
                                proof {
                                    let c = right_of(t0);
                                    let s = left_of(t0);
                                    let sr = right_of(s);
                                    assert(root_color(t0) == Color::Black);
                                    assert(root_color(s) == Color::Red);
                                    assert(root_color(sr) == Color::Black && root_color(
                                        left_of(s),
                                    ) == Color::Black);
                                    assert(black_height_of(sr) == black_height_of(s));
                                    lemma_parts(p2);
                                    assert(keys(p2) =~= keys(sr).union(keys(c)).insert(pk));
                                    assert(sk < pk && all_below(sr, pk));
                                    assert(bst(p2));
                                    assert(no_red_red(p2));
                                    assert(child_of(p2, Side::Right) == c);
                                    assert(child_of(p2, opposite(Side::Right)) == sr);
                                    assert(node_count(p2) < node_count(t0));
                                }
                                let inner = Self::delete_balance_recursion(p2, Side::Right);
                                let p3 = inner.0;
                                let result = Tree::Node {
                                    key: sk,
                                    color: Color::Black,
                                    left: sl_box,
                                    right: Box::new(p3),
                                };
                                proof {
                                    let c = right_of(t0);
                                    let s = left_of(t0);
                                    let sl = left_of(s);
                                    let sr = right_of(s);
                                    let p2g = Tree::Node {
                                        key: pk,
                                        color: Color::Red,
                                        left: Box::new(sr),
                                        right: Box::new(c),
                                    };
                                    assert(!inner.1);
                                    assert(black_height_of(p3) == black_height_of(sr));
                                    lemma_parts(result);
                                    assert(keys(p3) =~= keys(p2g));
                                    assert(keys(result) =~= keys(t0));
                                    assert(all_above(sr, sk) && all_below(sl, sk));
                                    lemma_all_above_widen(c, pk, sk);
                                    assert(all_above(p2g, sk));
                                    lemma_all_above_equiv(p2g, sk);
                                    lemma_all_above_equiv(p3, sk);
                                    assert(all_above(p3, sk));
                                    assert(bst(result));
                                    assert(balanced(result));
                                    assert(black_height_of(result) == 1 + black_height_of(sr));
                                    assert(no_red_red(result));
                                }
                                (result, false)
                            },
                            Tree::Nil => (Tree::Nil, false),
                        }
                    },
                    Tree::Nil => (Tree::Nil, false),
                }
            },
            DeleteRecursionSituation::Stable => {
                proof {
                    assert(is_node(left_of(child_of(t0, opposite(side)))));
                    assert(is_node(right_of(child_of(t0, opposite(side)))));
                    assert(false);
                }
                (t, false)
            },
        }
    }
}

impl RedBlackTree {
    /// The smallest key of a non-empty search subtree: the leftmost node.
    pub fn find_minimum(t: &Tree) -> (m: i32)
        requires
            is_node(*t),
            bst(*t),
        ensures
            keys(*t).contains(m),
            forall|k: i32| keys(*t).contains(k) ==> m <= k,
        decreases *t,
    {
        proof {
            lemma_parts(*t);
        }
        match t {
            Tree::Node { key, left, right, .. } => {
                proof {
                    lemma_all_below_equiv(**left, *key);
                    lemma_all_above_equiv(**right, *key);
                }
                match &**left {
                    Tree::Nil => {
                        proof {
                            lemma_parts(Tree::Nil);
                        }
                        *key
                    },
                    Tree::Node { .. } => {
                        let m = Self::find_minimum(left);
                        m
                    },
                }
            },
            Tree::Nil => 0,
        }
    }

    /// Removes `key` from the subtree `t` if it is present, repairing
    /// colours and heights on the way back up.  `res.1` reports whether
    /// the subtree is now uniformly one black node short; in that case
    /// its root is black and the caller repairs or escalates in turn.
    /// A key that is absent leaves the subtree untouched.
    pub fn delete_at(t: Tree, key: i32) -> (res: (Tree, bool))
        requires
            bst(t),
            no_red_red(t),
            balanced(t),
        ensures
            bst(res.0),
            keys(res.0) == keys(t).remove(key),
            no_red_red(res.0),
            balanced(res.0),
            black_height_of(res.0) + (if res.1 {
                1nat
            } else {
                0nat
            }) == black_height_of(t),
            res.1 ==> root_color(res.0) == Color::Black,
            root_color(t) == Color::Black ==> root_color(res.0) == Color::Black,
            !keys(t).contains(key) ==> res.0 == t && !res.1,
        decreases t,
    {
        let ghost t0 = t;
        proof {
            lemma_parts(t0);
            lemma_parts(left_of(t0));
            lemma_parts(right_of(t0));
            lemma_parts(Tree::Nil);
        }
        match t {
            Tree::Nil => {
                proof {
                    assert(keys(Tree::Nil).remove(key) =~= keys(Tree::Nil));
                }
                (Tree::Nil, false)
            },
            Tree::Node { key: k0, color, left, right } => {
                let ghost lt = *left;
                let ghost rt = *right;
                proof {
                    lemma_all_below_equiv(lt, k0);
                    lemma_all_above_equiv(rt, k0);
                }
                if key < k0 {
                    let inner = Self::delete_at(*left, key);
                    let l2 = inner.0;
                    let l2_nil = !Self::node_exists(&l2);
                    let t2 = Tree::Node { key: k0, color, left: Box::new(l2), right };
                    proof {
                        lemma_parts(t2);
                        lemma_all_below_equiv(inner.0, k0);
                        assert(all_below(inner.0, k0));
                        assert(bst(t2));
                        assert(keys(t2) =~= keys(t0).remove(key));
                        assert(no_red_red(t2));
                        if !keys(t0).contains(key) {
                            assert(!keys(lt).contains(key));
                            assert(inner.0 == lt && !inner.1);
                            assert(t2 == t0);
                        }
                    }
                    if inner.1 {
                        proof {
                            assert(black_height_of(rt) == black_height_of(lt));
                            if l2_nil {
                                assert(black_height_of(inner.0) == 0);
                                assert(black_height_of(rt) == 1);
                                assert(is_node(rt));
                            } else {
                                assert(root_color(inner.0) == Color::Black);
                                assert(black_height_of(inner.0) + 1 == black_height_of(rt));
                            }
                        }
                        let fixed = if l2_nil {
                            Self::delete_balance(t2)
                        } else {
                            Self::delete_balance_recursion(t2, Side::Left)
                        };
                        proof {
                            assert(keys(fixed.0) =~= keys(t0).remove(key));
                            assert(black_height_of(t0) == (if color == Color::Black {
                                1nat
                            } else {
                                0nat
                            }) + black_height_of(lt));
                        }
                        fixed
                    } else {
                        proof {
                            assert(balanced(t2));
                            assert(black_height_of(t2) == black_height_of(t0));
                        }
                        (t2, false)
                    }
                } else if key > k0 {
                    let inner = Self::delete_at(*right, key);
                    let r2 = inner.0;
                    let r2_nil = !Self::node_exists(&r2);
                    let t2 = Tree::Node { key: k0, color, left, right: Box::new(r2) };
                    proof {
                        lemma_parts(t2);
                        lemma_all_above_equiv(inner.0, k0);
                        assert(all_above(inner.0, k0));
                        assert(bst(t2));
                        assert(keys(t2) =~= keys(t0).remove(key));
                        assert(no_red_red(t2));
                        if !keys(t0).contains(key) {
                            assert(!keys(rt).contains(key));
                            assert(inner.0 == rt && !inner.1);
                            assert(t2 == t0);
                        }
                    }
                    if inner.1 {
                        proof {
                            assert(black_height_of(rt) == black_height_of(lt));
                            if r2_nil {
                                assert(black_height_of(inner.0) == 0);
                                assert(black_height_of(lt) == 1);
                                assert(is_node(lt));
                            } else {
                                assert(root_color(inner.0) == Color::Black);
                                assert(black_height_of(inner.0) + 1 == black_height_of(lt));
                            }
                        }
                        let fixed = if r2_nil {
                            Self::delete_balance(t2)
                        } else {
                            Self::delete_balance_recursion(t2, Side::Right)
                        };
                        proof {
                            assert(keys(fixed.0) =~= keys(t0).remove(key));
                            assert(black_height_of(t0) == (if color == Color::Black {
                                1nat
                            } else {
                                0nat
                            }) + black_height_of(lt));
                        }
                        fixed
                    } else {
                        proof {
                            assert(balanced(t2));
                            assert(black_height_of(t2) == black_height_of(t0));
                        }
                        (t2, false)
                    }
                } else {
                    let left_exists = Self::node_exists(&*left);
                    let right_exists = Self::node_exists(&*right);
                    if !left_exists && !right_exists {
                        let result = (Tree::Nil, color == Color::Black);
                        proof {
                            assert(keys(t0) =~= Set::<i32>::empty().insert(k0));
                            assert(keys(t0).remove(key) =~= Set::<i32>::empty());
                            assert(keys(Tree::Nil) =~= Set::<i32>::empty());
                        }
                        result
                    } else if !right_exists {
                        // one child: the node is black and the child a red leaf
                        let ghost lt0 = lt;
                        let l_black = Self::set_color(*left, Color::Black);
                        proof {
                            assert(black_height_of(lt0) == 0);
                            assert(root_color(lt0) == Color::Red);
                            assert(color == Color::Black);
                            assert(left_of(lt0) == Tree::Nil && right_of(lt0) == Tree::Nil);
                            lemma_parts(l_black);
                            assert(keys(l_black) =~= keys(lt0));
                            assert(!keys(lt0).contains(k0));
                            assert(keys(t0).remove(key) =~= keys(lt0));
                            assert(bst(l_black) && no_red_red(l_black) && balanced(l_black));
                            assert(black_height_of(l_black) == 1 && black_height_of(t0) == 1);
                        }
                        (l_black, false)
                    } else if !left_exists {
                        let ghost rt0 = rt;
                        let r_black = Self::set_color(*right, Color::Black);
                        proof {
                            assert(black_height_of(rt0) == 0);
                            assert(root_color(rt0) == Color::Red);
                            assert(color == Color::Black);
                            assert(left_of(rt0) == Tree::Nil && right_of(rt0) == Tree::Nil);
                            lemma_parts(r_black);
                            assert(keys(r_black) =~= keys(rt0));
                            assert(!keys(rt0).contains(k0));
                            assert(keys(t0).remove(key) =~= keys(rt0));
                            assert(bst(r_black) && no_red_red(r_black) && balanced(r_black));
                            assert(black_height_of(r_black) == 1 && black_height_of(t0) == 1);
                        }
                        (r_black, false)
                    } else {
                        // two children: splice in the successor, the
                        // smallest key of the right subtree
                        let m = Self::find_minimum(&*right);
                        proof {
                            assert(keys(rt).contains(m));
                            assert(m > k0);
                        }
                        let inner = Self::delete_at(*right, m);
                        let r2 = inner.0;
                        let r2_nil = !Self::node_exists(&r2);
                        let t2 = Tree::Node { key: m, color, left, right: Box::new(r2) };
                        proof {
                            lemma_parts(t2);
                            // left keys sit below m, remaining right keys above
                            lemma_all_below_widen(lt, k0, m);
                            assert(forall|k: i32| keys(inner.0).contains(k) ==> keys(rt).contains(
                                k,
                            ) && k != m);
                            assert(forall|k: i32| keys(inner.0).contains(k) ==> k > m);
                            lemma_all_above_equiv(inner.0, m);
                            assert(all_above(inner.0, m));
                            assert(bst(t2));
                            assert(!keys(lt).contains(k0) && !keys(rt).contains(k0));
                            assert(keys(t2) =~= keys(t0).remove(k0));
                            assert(no_red_red(t2));
                        }
                        if inner.1 {
                            proof {
                                assert(black_height_of(rt) == black_height_of(lt));
                                if r2_nil {
                                    assert(black_height_of(inner.0) == 0);
                                    assert(black_height_of(lt) == 1);
                                    assert(is_node(lt));
                                } else {
                                    assert(root_color(inner.0) == Color::Black);
                                    assert(black_height_of(inner.0) + 1 == black_height_of(lt));
                                }
                            }
                            let fixed = if r2_nil {
                                Self::delete_balance(t2)
                            } else {
                                Self::delete_balance_recursion(t2, Side::Right)
                            };
                            proof {
                                assert(keys(fixed.0) =~= keys(t0).remove(key));
                                assert(black_height_of(t0) == (if color == Color::Black {
                                    1nat
                                } else {
                                    0nat
                                }) + black_height_of(lt));
                            }
                            fixed
                        } else {
                            proof {
                                assert(balanced(t2));
                                assert(black_height_of(t2) == black_height_of(t0));
                            }
                            (t2, false)
                        }
                    }
                }
            },
        }
    }

    /// Removes `key` if it is present; a key that is absent leaves the
    /// tree untouched.
    pub fn delete(&mut self, key: i32)
        requires
            old(self).wf(),
        ensures
            final(self).wf(),
            final(self)@ == old(self)@.remove(key),
            !old(self)@.contains(key) ==> *final(self) == *old(self),
    {
        let mut t = Tree::Nil;
        core::mem::swap(&mut self.root, &mut t);
        let ghost t0 = t;
        let res = Self::delete_at(t, key);
        proof {
            assert(root_color(res.0) == Color::Black);
        }
        self.root = res.0;
    }
}

} // verus!
