//! Insertion and its rebalancing.
//!
//! A new key is placed as a red leaf by a recursive descent.  On the way
//! back toward the root every level classifies the local neighbourhood
//! (`judge_insert_situation`) and repairs it (`insert_balance`): a red
//! uncle means recolour and hand the conflict one level up, a black or
//! absent uncle means one or two rotations settle it on the spot.

use vstd::prelude::*;

use crate::model::Color;
use crate::model::Side;
use crate::model::Tree;
use crate::model::all_above;
use crate::model::all_below;
use crate::model::almost_rb;
use crate::model::balanced;
use crate::model::black_height_of;
use crate::model::bst;
use crate::model::child_of;
use crate::model::is_node;
use crate::model::is_red;
use crate::model::key_of;
use crate::model::keys;
use crate::model::left_of;
use crate::model::lemma_all_above_equiv;
use crate::model::lemma_all_above_widen;
use crate::model::lemma_all_below_equiv;
use crate::model::lemma_all_below_widen;
use crate::model::no_red_red;
use crate::model::opposite;
use crate::model::right_of;
use crate::model::root_color;
use crate::red_black_tree::RedBlackTree;

verus! {

/// The five ways a red-red conflict after an insertion can look, named
/// after the side of the parent under the grandparent and the side of
/// the new node under the parent, plus the red-uncle case that recolours
/// and climbs (`Recursion`) and the no-conflict case (`Stable`).
#[derive(Clone, Copy, PartialEq, Eq, Structural, Debug)]
pub enum InsertSituation {
    LL,
    LR,
    RL,
    RR,
    Recursion,
    Stable,
}

/// The classification at grandparent `g` after the child on `side` (the
/// parent) may have been given a red root with at most one red child.
/// If the parent is black, or carries no red child, nothing is wrong
/// here.  Otherwise a red uncle asks for the recolouring that climbs,
/// and a black or absent uncle selects the rotation case from the sides
/// of the parent and of its red child.
pub open spec fn spec_insert_situation(g: Tree, side: Side) -> InsertSituation {
    let p = child_of(g, side);
    let u = child_of(g, opposite(side));
    if !is_red(p) {
        InsertSituation::Stable
    } else if !is_red(left_of(p)) && !is_red(right_of(p)) {
        InsertSituation::Stable
    } else if is_red(u) {
        InsertSituation::Recursion
    } else if side == Side::Left {
        if is_red(left_of(p)) {
            InsertSituation::LL
        } else {
            InsertSituation::LR
        }
    } else {
        if is_red(right_of(p)) {
            InsertSituation::RR
        } else {
            InsertSituation::RL
        }
    }
}

impl RedBlackTree {
    /// Reads off the insertion situation at `g`, looking only at the
    /// colours of the child on `side`, of that child's children, and of
    /// the uncle.
    pub fn judge_insert_situation(g: &Tree, side: Side) -> (r: InsertSituation)
        ensures
            r == spec_insert_situation(*g, side),
    {
        let p = Self::child(g, side);
        if !Self::node_is_red(p) {
            return InsertSituation::Stable;
        }
        let pl_red = Self::node_is_red(Self::child(p, Side::Left));
        let pr_red = Self::node_is_red(Self::child(p, Side::Right));
        if !pl_red && !pr_red {
            return InsertSituation::Stable;
        }
        if Self::node_is_red(Self::child(g, Self::opposite_side(side))) {
            return InsertSituation::Recursion;
        }
        if side == Side::Left {
            if pl_red {
                InsertSituation::LL
            } else {
                InsertSituation::LR
            }
        } else {
            if pr_red {
                InsertSituation::RR
            } else {
                InsertSituation::RL
            }
        }
    }

    /// One repair step at grandparent `g` whose child on `side` may
    /// carry a red root with one red child.  Keys, black height and
    /// balance are preserved; the result is clean when `g` was black,
    /// and carries at worst a red root with one red child otherwise.
    pub fn insert_balance(g: Tree, side: Side) -> (r: Tree)
        requires
            is_node(g),
            bst(g),
            balanced(g),
            almost_rb(child_of(g, side)),
            no_red_red(child_of(g, opposite(side))),
            is_red(child_of(g, side)) && (is_red(left_of(child_of(g, side))) || is_red(
                right_of(child_of(g, side)),
            )) ==> root_color(g) == Color::Black,
            root_color(g) == Color::Red ==> !is_red(child_of(g, opposite(side))),
        ensures
            is_node(r),
            bst(r),
            keys(r) == keys(g),
            balanced(r),
            black_height_of(r) == black_height_of(g),
            almost_rb(r),
            root_color(g) == Color::Black ==> no_red_red(r),
            spec_insert_situation(g, side) == InsertSituation::Stable ==> r == g,
    {
        let ghost g0 = g;
        let situation = Self::judge_insert_situation(&g, side);
        match situation {
            InsertSituation::Stable => {
                proof {
                    assert(no_red_red(child_of(g0, side)));
                    assert(almost_rb(g0));
                    if root_color(g0) == Color::Black {
                        assert(no_red_red(g0));
                    }
                }
                g
            },
            InsertSituation::Recursion => {
                match g {
                    Tree::Node { key, color, left, right } => {
                        let ghost lt = *left;
                        let ghost rt = *right;
                        let l2 = Self::set_color(*left, Color::Black);
                        let r2 = Self::set_color(*right, Color::Black);
                        let result = Tree::Node {
                            key,
                            color: Color::Red,
                            left: Box::new(l2),
                            right: Box::new(r2),
                        };
                        proof {
                            assert(is_red(child_of(g0, side)) && is_red(
                                child_of(g0, opposite(side)),
                            ));
                            assert(is_red(lt) && is_red(rt));
                            assert(root_color(g0) == Color::Black);
                            assert(bst(lt) && bst(rt) && all_below(lt, key) && all_above(rt, key));
                            assert(balanced(lt) && balanced(rt) && black_height_of(lt)
                                == black_height_of(rt));
                            assert(keys(l2) =~= keys(lt));
                            assert(keys(r2) =~= keys(rt));
                            assert(keys(result) =~= keys(g0));
                            assert(all_below(l2, key));
                            assert(all_above(r2, key));
                            assert(bst(l2) && bst(r2));
                            assert(bst(result));
                            assert(black_height_of(l2) == black_height_of(lt) + 1);
                            assert(black_height_of(r2) == black_height_of(rt) + 1);
                            assert(balanced(l2) && balanced(r2));
                            assert(balanced(result));
                            assert(black_height_of(result) == black_height_of(g0));
                            if side == Side::Left {
                                assert(child_of(g0, side) == lt);
                                assert(child_of(g0, opposite(side)) == rt);
                            } else {
                                assert(child_of(g0, side) == rt);
                                assert(child_of(g0, opposite(side)) == lt);
                            }
                            assert(no_red_red(l2));
                            assert(no_red_red(r2));
                            assert(no_red_red(result));
                            assert(almost_rb(result));
                        }
                        result
                    },
                    Tree::Nil => Tree::Nil,
                }
            },
            InsertSituation::LL => {
                proof {
                    assert(side == Side::Left);
                    assert(root_color(g0) == Color::Black);
                }
                let rotated = Self::rotate_right(g);
                match rotated {
                    Tree::Node { key: pk, color: pc, left: pl, right: gn } => {
                        let ghost gn0 = *gn;
                        let gn2 = Self::set_color(*gn, Color::Red);
                        let result = Tree::Node {
                            key: pk,
                            color: Color::Black,
                            left: pl,
                            right: Box::new(gn2),
                        };
                        proof {
                            let p = left_of(g0);
                            let a = left_of(p);
                            let b = right_of(p);
                            let u = right_of(g0);
                            let gk = key_of(g0);
                            assert(is_red(p) && is_red(a) && !is_red(b) && !is_red(u));
                            assert(is_node(p) && is_node(a));
                            assert(bst(p) && bst(u) && all_below(p, gk) && all_above(u, gk));
                            assert(balanced(p) && balanced(u) && black_height_of(p)
                                == black_height_of(u));
                            assert(bst(a) && bst(b) && all_below(a, key_of(p)) && all_above(
                                b,
                                key_of(p),
                            ));
                            assert(balanced(a) && balanced(b) && black_height_of(a)
                                == black_height_of(b));
                            assert(key_of(p) < gk && all_below(a, gk) && all_below(b, gk));
                            assert(no_red_red(a) && no_red_red(b));
                            assert(pk == key_of(p) && *pl == a);
                            assert(keys(p) =~= keys(a).union(keys(b)).insert(pk));
                            assert(keys(g0) =~= keys(p).union(keys(u)).insert(gk));
                            assert(gn0 == Tree::Node {
                                key: gk,
                                color: Color::Black,
                                left: Box::new(b),
                                right: Box::new(u),
                            });
                            assert(gn2 == Tree::Node {
                                key: gk,
                                color: Color::Red,
                                left: Box::new(b),
                                right: Box::new(u),
                            });
                            // keys are a rearrangement of the same union
                            assert(keys(gn2) =~= keys(b).union(keys(u)).insert(gk));
                            assert(keys(result) =~= keys(g0));
                            // search order: a < pk < b < gk < u
                            assert(all_below(b, gk) && all_above(u, gk));
                            assert(all_below(a, pk) && all_above(b, pk));
                            assert(pk < gk);
                            lemma_all_above_widen(u, gk, pk);
                            assert(bst(gn2));
                            assert(all_above(gn2, pk));
                            assert(bst(result));
                            // black heights: p and gn2 are red roots over equal heights
                            assert(black_height_of(p) == black_height_of(a));
                            assert(black_height_of(a) == black_height_of(b));
                            assert(black_height_of(u) == black_height_of(p));
                            assert(black_height_of(gn2) == black_height_of(b));
                            assert(balanced(gn2));
                            assert(balanced(result));
                            assert(black_height_of(result) == 1 + black_height_of(a));
                            assert(black_height_of(g0) == 1 + black_height_of(p));
                            // colours: black root, red children have black children
                            assert(no_red_red(a) && no_red_red(b) && no_red_red(u));
                            assert(no_red_red(gn2));
                            assert(no_red_red(result));
                            assert(almost_rb(result));
                        }
                        result
                    },
                    Tree::Nil => Tree::Nil,
                }
            },
            InsertSituation::RR => {
                proof {
                    assert(side == Side::Right);
                    assert(root_color(g0) == Color::Black);
                }
                let rotated = Self::rotate_left(g);
                match rotated {
                    Tree::Node { key: pk, color: pc, left: gn, right: pr } => {
                        let gn2 = Self::set_color(*gn, Color::Red);
                        let result = Tree::Node {
                            key: pk,
                            color: Color::Black,
                            left: Box::new(gn2),
                            right: pr,
                        };
                        proof {
                            let p = right_of(g0);
                            let a = right_of(p);
                            let b = left_of(p);
                            let u = left_of(g0);
                            let gk = key_of(g0);
                            assert(is_red(p) && is_red(a) && !is_red(b) && !is_red(u));
                            assert(is_node(p) && is_node(a));
                            assert(bst(p) && bst(u) && all_above(p, gk) && all_below(u, gk));
                            assert(balanced(p) && balanced(u) && black_height_of(p)
                                == black_height_of(u));
                            assert(bst(a) && bst(b) && all_above(a, key_of(p)) && all_below(
                                b,
                                key_of(p),
                            ));
                            assert(balanced(a) && balanced(b) && black_height_of(a)
                                == black_height_of(b));
                            assert(key_of(p) > gk && all_above(a, gk) && all_above(b, gk));
                            assert(no_red_red(a) && no_red_red(b));
                            assert(pk == key_of(p) && *pr == a);
                            assert(keys(p) =~= keys(b).union(keys(a)).insert(pk));
                            assert(keys(g0) =~= keys(u).union(keys(p)).insert(gk));
                            assert(gn2 == Tree::Node {
                                key: gk,
                                color: Color::Red,
                                left: Box::new(u),
                                right: Box::new(b),
                            });
                            assert(keys(gn2) =~= keys(u).union(keys(b)).insert(gk));
                            assert(keys(result) =~= keys(g0));
                            // search order: u < gk < b < pk < a
                            assert(all_above(b, gk) && all_below(u, gk));
                            assert(all_above(a, pk) && all_below(b, pk));
                            assert(gk < pk);
                            lemma_all_below_widen(u, gk, pk);
                            assert(bst(gn2));
                            assert(all_below(gn2, pk));
                            assert(bst(result));
                            assert(black_height_of(p) == black_height_of(b));
                            assert(black_height_of(a) == black_height_of(b));
                            assert(black_height_of(u) == black_height_of(p));
                            assert(black_height_of(gn2) == black_height_of(u));
                            assert(balanced(gn2));
                            assert(balanced(result));
                            assert(black_height_of(result) == 1 + black_height_of(b));
                            assert(black_height_of(g0) == 1 + black_height_of(u));
                            assert(no_red_red(a) && no_red_red(b) && no_red_red(u));
                            assert(no_red_red(gn2));
                            assert(no_red_red(result));
                            assert(almost_rb(result));
                        }
                        result
                    },
                    Tree::Nil => Tree::Nil,
                }
            },
            InsertSituation::LR => {
                proof {
                    assert(side == Side::Left);
                    assert(root_color(g0) == Color::Black);
                }
                match g {
                    Tree::Node { key: gk, color: gc, left: p, right: u } => {
                        let ghost p0 = *p;
                        let p2 = Self::rotate_left(*p);
                        let g2 = Tree::Node { key: gk, color: gc, left: Box::new(p2), right: u };
                        proof {
                            assert(is_node(left_of(g2)));
                        }
                        let rotated = Self::rotate_right(g2);
                        match rotated {
                            Tree::Node { key: sk, color: _, left: pn, right: gn } => {
                                let ghost pn0 = *pn;
                                let gn2 = Self::set_color(*gn, Color::Red);
                                let result = Tree::Node {
                                    key: sk,
                                    color: Color::Black,
                                    left: pn,
                                    right: Box::new(gn2),
                                };
                                proof {
                                    let pk = key_of(p0);
                                    let a = left_of(p0);
                                    let s = right_of(p0);
                                    let x = left_of(s);
                                    let y = right_of(s);
                                    let ut = right_of(g0);
                                    assert(is_red(p0) && is_red(s) && !is_red(a) && !is_red(ut));
                                    assert(is_node(p0) && is_node(s));
                                    assert(no_red_red(s));
                                    assert(!is_red(x) && !is_red(y));
                                    assert(no_red_red(a) && no_red_red(x) && no_red_red(y)
                                        && no_red_red(ut));
                                    assert(bst(p0) && bst(ut) && all_below(p0, gk) && all_above(
                                        ut,
                                        gk,
                                    ));
                                    assert(balanced(p0) && balanced(ut) && black_height_of(p0)
                                        == black_height_of(ut));
                                    assert(bst(a) && bst(s) && all_below(a, pk) && all_above(
                                        s,
                                        pk,
                                    ));
                                    assert(balanced(a) && balanced(s) && black_height_of(a)
                                        == black_height_of(s));
                                    assert(bst(x) && bst(y) && all_below(x, key_of(s))
                                        && all_above(y, key_of(s)));
                                    assert(balanced(x) && balanced(y) && black_height_of(x)
                                        == black_height_of(y));
                                    assert(pk < gk && all_below(a, gk) && all_below(s, gk));
                                    assert(key_of(s) < gk && all_below(x, gk) && all_below(y, gk));
                                    assert(key_of(s) > pk && all_above(x, pk) && all_above(y, pk));
                                    assert(keys(s) =~= keys(x).union(keys(y)).insert(key_of(s)));
                                    assert(keys(p0) =~= keys(a).union(keys(s)).insert(pk));
                                    assert(keys(g0) =~= keys(p0).union(keys(ut)).insert(gk));
                                    assert(sk == key_of(s));
                                    assert(pn0 == Tree::Node {
                                        key: pk,
                                        color: Color::Red,
                                        left: Box::new(a),
                                        right: Box::new(x),
                                    });
                                    assert(gn2 == Tree::Node {
                                        key: gk,
                                        color: Color::Red,
                                        left: Box::new(y),
                                        right: Box::new(ut),
                                    });
                                    assert(keys(pn0) =~= keys(a).union(keys(x)).insert(pk));
                                    assert(keys(gn2) =~= keys(y).union(keys(ut)).insert(gk));
                                    assert(keys(result) =~= keys(g0));
                                    // search order: a < pk < x < sk < y < gk < ut
                                    assert(all_below(a, pk) && all_above(s, pk));
                                    assert(all_above(x, pk) && sk > pk);
                                    assert(all_below(s, gk) && all_above(ut, gk));
                                    assert(all_below(x, sk) && all_above(y, sk));
                                    assert(all_below(y, gk) && sk < gk);
                                    lemma_all_below_widen(a, pk, sk);
                                    lemma_all_above_widen(ut, gk, sk);
                                    assert(bst(pn0));
                                    assert(bst(gn2));
                                    assert(all_below(pn0, sk));
                                    assert(all_above(gn2, sk));
                                    assert(bst(result));
                                    // black heights all meet at a's height
                                    assert(black_height_of(a) == black_height_of(s));
                                    assert(black_height_of(x) == black_height_of(y));
                                    assert(black_height_of(s) == black_height_of(x));
                                    assert(black_height_of(ut) == black_height_of(p0));
                                    assert(balanced(pn0) && balanced(gn2));
                                    assert(balanced(result));
                                    assert(black_height_of(result) == 1 + black_height_of(a));
                                    assert(black_height_of(g0) == 1 + black_height_of(p0));
                                    assert(no_red_red(a) && no_red_red(x) && no_red_red(y)
                                        && no_red_red(ut));
                                    assert(no_red_red(pn0) && no_red_red(gn2));
                                    assert(no_red_red(result));
                                    assert(almost_rb(result));
                                }
                                result
                            },
                            Tree::Nil => Tree::Nil,
                        }
                    },
                    Tree::Nil => Tree::Nil,
                }
            },
            InsertSituation::RL => {
                proof {
                    assert(side == Side::Right);
                    assert(root_color(g0) == Color::Black);
                }
                match g {
                    Tree::Node { key: gk, color: gc, left: u, right: p } => {
                        let ghost p0 = *p;
                        let p2 = Self::rotate_right(*p);
                        let g2 = Tree::Node { key: gk, color: gc, left: u, right: Box::new(p2) };
                        proof {
                            assert(is_node(right_of(g2)));
                        }
                        let rotated = Self::rotate_left(g2);
                        match rotated {
                            Tree::Node { key: sk, color: _, left: gn, right: pn } => {
                                let ghost pn0 = *pn;
                                let gn2 = Self::set_color(*gn, Color::Red);
                                let result = Tree::Node {
                                    key: sk,
                                    color: Color::Black,
                                    left: Box::new(gn2),
                                    right: pn,
                                };
                                proof {
                                    let pk = key_of(p0);
                                    let a = right_of(p0);
                                    let s = left_of(p0);
                                    let x = right_of(s);
                                    let y = left_of(s);
                                    let ut = left_of(g0);
                                    assert(is_red(p0) && is_red(s) && !is_red(a) && !is_red(ut));
                                    assert(is_node(p0) && is_node(s));
                                    assert(no_red_red(s));
                                    assert(!is_red(x) && !is_red(y));
                                    assert(no_red_red(a) && no_red_red(x) && no_red_red(y)
                                        && no_red_red(ut));
                                    assert(bst(p0) && bst(ut) && all_above(p0, gk) && all_below(
                                        ut,
                                        gk,
                                    ));
                                    assert(balanced(p0) && balanced(ut) && black_height_of(p0)
                                        == black_height_of(ut));
                                    assert(bst(a) && bst(s) && all_above(a, pk) && all_below(
                                        s,
                                        pk,
                                    ));
                                    assert(balanced(a) && balanced(s) && black_height_of(a)
                                        == black_height_of(s));
                                    assert(bst(x) && bst(y) && all_above(x, key_of(s))
                                        && all_below(y, key_of(s)));
                                    assert(balanced(x) && balanced(y) && black_height_of(x)
                                        == black_height_of(y));
                                    assert(pk > gk && all_above(a, gk) && all_above(s, gk));
                                    assert(key_of(s) > gk && all_above(x, gk) && all_above(y, gk));
                                    assert(key_of(s) < pk && all_below(x, pk) && all_below(y, pk));
                                    assert(keys(s) =~= keys(y).union(keys(x)).insert(key_of(s)));
                                    assert(keys(p0) =~= keys(s).union(keys(a)).insert(pk));
                                    assert(keys(g0) =~= keys(ut).union(keys(p0)).insert(gk));
                                    assert(sk == key_of(s));
                                    assert(pn0 == Tree::Node {
                                        key: pk,
                                        color: Color::Red,
                                        left: Box::new(x),
                                        right: Box::new(a),
                                    });
                                    assert(gn2 == Tree::Node {
                                        key: gk,
                                        color: Color::Red,
                                        left: Box::new(ut),
                                        right: Box::new(y),
                                    });
                                    assert(keys(pn0) =~= keys(x).union(keys(a)).insert(pk));
                                    assert(keys(gn2) =~= keys(ut).union(keys(y)).insert(gk));
                                    assert(keys(result) =~= keys(g0));
                                    // search order: ut < gk < y < sk < x < pk < a
                                    assert(all_above(a, pk) && all_below(s, pk));
                                    assert(all_below(x, pk) && sk < pk);
                                    assert(all_above(s, gk) && all_below(ut, gk));
                                    assert(all_above(x, sk) && all_below(y, sk));
                                    assert(all_above(y, gk) && sk > gk);
                                    lemma_all_above_widen(a, pk, sk);
                                    lemma_all_below_widen(ut, gk, sk);
                                    assert(bst(pn0));
                                    assert(bst(gn2));
                                    assert(all_above(pn0, sk));
                                    assert(all_below(gn2, sk));
                                    assert(bst(result));
                                    assert(black_height_of(a) == black_height_of(s));
                                    assert(black_height_of(x) == black_height_of(y));
                                    assert(black_height_of(s) == black_height_of(x));
                                    assert(black_height_of(ut) == black_height_of(p0));
                                    assert(balanced(pn0) && balanced(gn2));
                                    assert(balanced(result));
                                    assert(black_height_of(result) == 1 + black_height_of(a));
                                    assert(black_height_of(g0) == 1 + black_height_of(p0));
                                    assert(no_red_red(a) && no_red_red(x) && no_red_red(y)
                                        && no_red_red(ut));
                                    assert(no_red_red(pn0) && no_red_red(gn2));
                                    assert(no_red_red(result));
                                    assert(almost_rb(result));
                                }
                                result
                            },
                            Tree::Nil => Tree::Nil,
                        }
                    },
                    Tree::Nil => Tree::Nil,
                }
            },
        }
    }

    /// Places `key` in the subtree `t` and repairs the colours on the
    /// way back up.  The result holds exactly the old keys plus `key`,
    /// keeps the black height, and is clean except possibly for a red
    /// root with one red child, which the level above repairs.  A key
    /// that is already present leaves the subtree untouched.
    pub fn insert_at(t: Tree, key: i32) -> (r: Tree)
        requires
            bst(t),
            no_red_red(t),
            balanced(t),
        ensures
            is_node(r),
            bst(r),
            keys(r) == keys(t).insert(key),
            balanced(r),
            black_height_of(r) == black_height_of(t),
            almost_rb(r),
            root_color(t) == Color::Black ==> no_red_red(r),
            keys(t).contains(key) ==> r == t,
        decreases t,
    {
        let ghost t0 = t;
        match t {
            Tree::Nil => {
                let result = Tree::Node {
                    key,
                    color: Color::Red,
                    left: Box::new(Tree::Nil),
                    right: Box::new(Tree::Nil),
                };
                proof {
                    assert(keys(result) =~= keys(t0).insert(key));
                    assert(no_red_red(result));
                }
                result
            },
            Tree::Node { key: k0, color, left, right } => {
                let ghost lt = *left;
                let ghost rt = *right;
                if key < k0 {
                    let l2 = Self::insert_at(*left, key);
                    let g = Tree::Node { key: k0, color, left: Box::new(l2), right };
                    proof {
                        assert(bst(lt) && bst(rt) && all_below(lt, k0) && all_above(rt, k0));
                        assert(balanced(lt) && balanced(rt) && no_red_red(lt) && no_red_red(rt));
                        lemma_all_below_equiv(lt, k0);
                        lemma_all_below_equiv(l2, k0);
                        assert(all_below(l2, k0));
                        assert(bst(g));
                        assert(balanced(g));
                        assert(child_of(g, Side::Left) == l2);
                        assert(child_of(g, opposite(Side::Left)) == rt);
                        if is_red(l2) && (is_red(left_of(l2)) || is_red(right_of(l2))) {
                            if color == Color::Red {
                                assert(root_color(lt) == Color::Black);
                                assert(no_red_red(l2));
                                assert(false);
                            }
                        }
                    }
                    let result = Self::insert_balance(g, Side::Left);
                    proof {
                        assert(keys(result) =~= keys(t0).insert(key));
                        if keys(t0).contains(key) {
                            lemma_all_above_equiv(rt, k0);
                            assert(!keys(rt).contains(key));
                            assert(keys(lt).contains(key));
                            assert(l2 == lt);
                            assert(g == t0);
                            assert(spec_insert_situation(g, Side::Left)
                                == InsertSituation::Stable);
                            assert(result == g);
                        }
                    }
                    result
                } else if key > k0 {
                    let r2 = Self::insert_at(*right, key);
                    let g = Tree::Node { key: k0, color, left, right: Box::new(r2) };
                    proof {
                        assert(bst(lt) && bst(rt) && all_below(lt, k0) && all_above(rt, k0));
                        assert(balanced(lt) && balanced(rt) && no_red_red(lt) && no_red_red(rt));
                        lemma_all_above_equiv(rt, k0);
                        lemma_all_above_equiv(r2, k0);
                        assert(all_above(r2, k0));
                        assert(bst(g));
                        assert(balanced(g));
                        assert(child_of(g, Side::Right) == r2);
                        assert(child_of(g, opposite(Side::Right)) == lt);
                        if is_red(r2) && (is_red(left_of(r2)) || is_red(right_of(r2))) {
                            if color == Color::Red {
                                assert(root_color(rt) == Color::Black);
                                assert(no_red_red(r2));
                                assert(false);
                            }
                        }
                    }
                    let result = Self::insert_balance(g, Side::Right);
                    proof {
                        assert(keys(result) =~= keys(t0).insert(key));
                        if keys(t0).contains(key) {
                            lemma_all_below_equiv(lt, k0);
                            assert(!keys(lt).contains(key));
                            assert(keys(rt).contains(key));
                            assert(r2 == rt);
                            assert(g == t0);
                            assert(spec_insert_situation(g, Side::Right)
                                == InsertSituation::Stable);
                            assert(result == g);
                        }
                    }
                    result
                } else {
                    let result = Tree::Node { key: k0, color, left, right };
                    proof {
                        assert(result == t0);
                        assert(keys(t0).contains(key));
                        assert(keys(t0).insert(key) =~= keys(t0));
                        assert(almost_rb(t0));
                    }
                    result
                }
            },
        }
    }

    /// Inserts `key` if it is absent; a key already present leaves the
    /// tree untouched.
    pub fn insert(&mut self, key: i32)
        requires
            old(self).wf(),
        ensures
            final(self).wf(),
            final(self)@ == old(self)@.insert(key),
            old(self)@.contains(key) ==> *final(self) == *old(self),
    {
        let mut t = Tree::Nil;
        core::mem::swap(&mut self.root, &mut t);
        let ghost t0 = t;
        let r = Self::insert_at(t, key);
        let ghost r0 = r;
        let r2 = Self::set_color(r, Color::Black);
        proof {
            assert(is_node(r0));
            assert(keys(r2) =~= keys(r0));
            assert(bst(r2));
            assert(balanced(r2));
            assert(no_red_red(r2));
            assert(root_color(r2) == Color::Black);
            if keys(t0).contains(key) {
                assert(r0 == t0);
                assert(root_color(t0) == Color::Black);
                assert(r2 == t0);
            }
        }
        self.root = r2;
    }
}

} // verus!
