use vstd::prelude::*;

use crate::node::{
    black_height, has_red_pair, is_red, keys, link_is_red, make_node, node_count, node_link,
    ordered, recolored, red_black, RbColor, RbNode,
};

verus! {

/// A red node whose subtrees obey the red-black rules and have one black
/// height, with at most one red child: the one place the rules may fail
/// while an insertion climbs back up.
pub open spec fn red_with_red_child_allowed(t: Option<Box<RbNode>>) -> bool {
    match t {
        None => false,
        Some(n) => {
            &&& n.color == RbColor::Red
            &&& red_black(n.left)
            &&& red_black(n.right)
            &&& black_height(n.left) == black_height(n.right)
            &&& !(is_red(n.left) && is_red(n.right))
        },
    }
}

/// Rebuilds a black node whose left subtree has just taken a key. Where that
/// subtree is red with a red child, the uncle decides: a red uncle is
/// recolored together with the parent (the red moves up one level), a black
/// uncle leads to one rotation (line shape) or two (triangle shape).
fn balance_left(key: i32, left: Option<Box<RbNode>>, right: Option<Box<RbNode>>) -> (r: Option<
    Box<RbNode>>)
    requires
        red_black(right),
        is_red(left) ==> red_with_red_child_allowed(left),
        !is_red(left) ==> red_black(left),
        black_height(left) == black_height(right),
        ordered(left),
        ordered(right),
        forall|x: i32| #[trigger] keys(left).contains(x) ==> x < key,
        forall|x: i32| #[trigger] keys(right).contains(x) ==> key < x,
    ensures
        red_black(r),
        ordered(r),
        black_height(r) == black_height(left) + 1,
        keys(r) == keys(left).union(keys(right)).insert(key),
        node_count(r) == node_count(left) + node_count(right) + 1,
        !has_red_pair(left) ==> r == node_link(key, RbColor::Black, left, right),
        has_red_pair(left) && is_red(right) ==> r == node_link(
            key,
            RbColor::Red,
            recolored(left, RbColor::Black),
            recolored(right, RbColor::Black),
        ),
        has_red_pair(left) && !is_red(right) && is_red(left->Some_0.left) ==> r == node_link(
            left->Some_0.key,
            RbColor::Black,
            left->Some_0.left,
            node_link(key, RbColor::Red, left->Some_0.right, right),
        ),
        has_red_pair(left) && !is_red(right) && !is_red(left->Some_0.left) ==> r == node_link(
            left->Some_0.right->Some_0.key,
            RbColor::Black,
            node_link(
                left->Some_0.key,
                RbColor::Red,
                left->Some_0.left,
                left->Some_0.right->Some_0.left,
            ),
            node_link(key, RbColor::Red, left->Some_0.right->Some_0.right, right),
        ),
{
    proof {
        reveal_with_fuel(keys, 3);
        reveal_with_fuel(red_black, 3);
        reveal_with_fuel(black_height, 3);
        reveal_with_fuel(ordered, 3);
        reveal_with_fuel(node_count, 3);
    }
    if link_is_red(&left) {
        let ln = left.unwrap();
        if link_is_red(&ln.left) || link_is_red(&ln.right) {
            if link_is_red(&right) {
                let mut ln = ln;
                ln.color = RbColor::Black;
                let mut rn = right.unwrap();
                rn.color = RbColor::Black;
                let r = make_node(key, RbColor::Red, Some(ln), Some(rn));
                assert(keys(r) =~= keys(left).union(keys(right)).insert(key));
                return r;
            }
            let RbNode { key: lkey, color: _, left: ll, right: lr } = *ln;
            if link_is_red(&ll) {
                let g = make_node(key, RbColor::Red, lr, right);
                let r = make_node(lkey, RbColor::Black, ll, g);
                assert(keys(g) =~= keys(lr).union(keys(right)).insert(key));
                assert(keys(r) =~= keys(left).union(keys(right)).insert(key));
                assert(keys(left).contains(lkey));
                assert forall|x: i32| #[trigger] keys(lr).contains(x) implies x < key by {
                    assert(keys(left).contains(x));
                }
                assert forall|x: i32| #[trigger] keys(g).contains(x) implies lkey < x by {
                    if keys(right).contains(x) {
                        assert(key < x);
                    }
                }
                return r;
            } else {
                let cn = lr.unwrap();
                let RbNode { key: ckey, color: _, left: cl, right: cr } = *cn;
                let p = make_node(lkey, RbColor::Red, ll, cl);
                let g = make_node(key, RbColor::Red, cr, right);
                let r = make_node(ckey, RbColor::Black, p, g);
                assert(keys(p) =~= keys(ll).union(keys(cl)).insert(lkey));
                assert(keys(g) =~= keys(cr).union(keys(right)).insert(key));
                assert(keys(r) =~= keys(left).union(keys(right)).insert(key));
                assert(keys(lr).contains(ckey));
                assert(keys(left).contains(ckey));
                assert forall|x: i32| #[trigger] keys(cl).contains(x) implies lkey < x by {
                    assert(keys(lr).contains(x));
                }
                assert forall|x: i32| #[trigger] keys(cr).contains(x) implies x < key by {
                    assert(keys(lr).contains(x));
                    assert(keys(left).contains(x));
                }
                assert forall|x: i32| #[trigger] keys(p).contains(x) implies x < ckey by {
                    if keys(ll).contains(x) {
                        assert(x < lkey);
                    }
                }
                assert forall|x: i32| #[trigger] keys(g).contains(x) implies ckey < x by {
                    if keys(right).contains(x) {
                        assert(key < x);
                    }
                }
                return r;
            }
        }
        make_node(key, RbColor::Black, Some(ln), right)
    } else {
        make_node(key, RbColor::Black, left, right)
    }
}

/// The mirror image of `balance_left`, for a key taken on the right.
fn balance_right(key: i32, left: Option<Box<RbNode>>, right: Option<Box<RbNode>>) -> (r: Option<
    Box<RbNode>>)
    requires
        red_black(left),
        is_red(right) ==> red_with_red_child_allowed(right),
        !is_red(right) ==> red_black(right),
        black_height(left) == black_height(right),
        ordered(left),
        ordered(right),
        forall|x: i32| #[trigger] keys(left).contains(x) ==> x < key,
        forall|x: i32| #[trigger] keys(right).contains(x) ==> key < x,
    ensures
        red_black(r),
        ordered(r),
        black_height(r) == black_height(right) + 1,
        keys(r) == keys(left).union(keys(right)).insert(key),
        node_count(r) == node_count(left) + node_count(right) + 1,
        !has_red_pair(right) ==> r == node_link(key, RbColor::Black, left, right),
        has_red_pair(right) && is_red(left) ==> r == node_link(
            key,
            RbColor::Red,
            recolored(left, RbColor::Black),
            recolored(right, RbColor::Black),
        ),
        has_red_pair(right) && !is_red(left) && is_red(right->Some_0.right) ==> r == node_link(
            right->Some_0.key,
            RbColor::Black,
            node_link(key, RbColor::Red, left, right->Some_0.left),
            right->Some_0.right,
        ),
        has_red_pair(right) && !is_red(left) && !is_red(right->Some_0.right) ==> r == node_link(
            right->Some_0.left->Some_0.key,
            RbColor::Black,
            node_link(key, RbColor::Red, left, right->Some_0.left->Some_0.left),
            node_link(
                right->Some_0.key,
                RbColor::Red,
                right->Some_0.left->Some_0.right,
                right->Some_0.right,
            ),
        ),
{
    proof {
        reveal_with_fuel(keys, 3);
        reveal_with_fuel(red_black, 3);
        reveal_with_fuel(black_height, 3);
        reveal_with_fuel(ordered, 3);
        reveal_with_fuel(node_count, 3);
    }
    if link_is_red(&right) {
        let rn = right.unwrap();
        if link_is_red(&rn.left) || link_is_red(&rn.right) {
            if link_is_red(&left) {
                let mut rn = rn;
                rn.color = RbColor::Black;
                let mut ln = left.unwrap();
                ln.color = RbColor::Black;
                let r = make_node(key, RbColor::Red, Some(ln), Some(rn));
                assert(keys(r) =~= keys(left).union(keys(right)).insert(key));
                return r;
            }
            let RbNode { key: rkey, color: _, left: rl, right: rr } = *rn;
            if link_is_red(&rr) {
                let g = make_node(key, RbColor::Red, left, rl);
                let r = make_node(rkey, RbColor::Black, g, rr);
                assert(keys(g) =~= keys(left).union(keys(rl)).insert(key));
                assert(keys(r) =~= keys(left).union(keys(right)).insert(key));
                assert(keys(right).contains(rkey));
                assert forall|x: i32| #[trigger] keys(rl).contains(x) implies key < x by {
                    assert(keys(right).contains(x));
                }
                assert forall|x: i32| #[trigger] keys(g).contains(x) implies x < rkey by {
                    if keys(left).contains(x) {
                        assert(x < key);
                    }
                }
                return r;
            } else {
                let cn = rl.unwrap();
                let RbNode { key: ckey, color: _, left: cl, right: cr } = *cn;
                let g = make_node(key, RbColor::Red, left, cl);
                let p = make_node(rkey, RbColor::Red, cr, rr);
                let r = make_node(ckey, RbColor::Black, g, p);
                assert(keys(g) =~= keys(left).union(keys(cl)).insert(key));
                assert(keys(p) =~= keys(cr).union(keys(rr)).insert(rkey));
                assert(keys(r) =~= keys(left).union(keys(right)).insert(key));
                assert(keys(rl).contains(ckey));
                assert(keys(right).contains(ckey));
                assert forall|x: i32| #[trigger] keys(cr).contains(x) implies x < rkey by {
                    assert(keys(rl).contains(x));
                }
                assert forall|x: i32| #[trigger] keys(cl).contains(x) implies key < x by {
                    assert(keys(rl).contains(x));
                    assert(keys(right).contains(x));
                }
                assert forall|x: i32| #[trigger] keys(p).contains(x) implies ckey < x by {
                    if keys(rr).contains(x) {
                        assert(rkey < x);
                    }
                }
                assert forall|x: i32| #[trigger] keys(g).contains(x) implies x < ckey by {
                    if keys(left).contains(x) {
                        assert(x < key);
                    }
                }
                return r;
            }
        }
        make_node(key, RbColor::Black, left, Some(rn))
    } else {
        make_node(key, RbColor::Black, left, right)
    }
}

/// Inserts `k` below `t`; the flag tells whether `k` was new, and a key
/// already present leaves `t` as it is. The new node is red. Below a black node the result obeys the red-black rules; below a red
/// one it may be red with a red child, for the grandparent to mend.
pub(crate) fn insert_rec(t: Option<Box<RbNode>>, k: i32) -> (r: (Option<Box<RbNode>>, bool))
    requires
        red_black(t),
        ordered(t),
    ensures
        ordered(r.0),
        keys(r.0) == keys(t).insert(k),
        r.1 == !keys(t).contains(k),
        node_count(r.0) == node_count(t) + (if r.1 {
            1nat
        } else {
            0nat
        }),
        black_height(r.0) == black_height(t),
        r.0 is Some,
        !is_red(t) ==> red_black(r.0),
        is_red(t) ==> red_with_red_child_allowed(r.0),
        !r.1 ==> r.0 == t,
    decreases t,
{
    match t {
        None => {
            assert(keys(t) =~= Set::empty());
            let r = Some(Box::new(RbNode::new(k)));
            assert(node_count(r) == 1) by {
                reveal_with_fuel(node_count, 2);
            }
            assert(keys(r) =~= keys(t).insert(k));
            (r, true)
        },
        Some(n) => {
            if k == n.key {
                let r = Some(n);
                assert(keys(r) =~= keys(t).insert(k));
                return (r, false);
            }
            let mut n = n;
            if k < n.key {
                assert(!keys(n.right).contains(k));
                let left = n.left.take();
                let (nl, added) = insert_rec(left, k);
                let r = if n.color == RbColor::Red {
                    n.left = nl;
                    Some(n)
                } else {
                    let RbNode { key, color: _, left: _, right } = *n;
                    balance_left(key, nl, right)
                };
                assert(keys(r) =~= keys(t).insert(k));
                (r, added)
            } else {
                assert(!keys(n.left).contains(k));
                let right = n.right.take();
                let (nr, added) = insert_rec(right, k);
                let r = if n.color == RbColor::Red {
                    n.right = nr;
                    Some(n)
                } else {
                    let RbNode { key, color: _, left, right: _ } = *n;
                    balance_right(key, left, nr)
                };
                assert(keys(r) =~= keys(t).insert(k));
                (r, added)
            }
        },
    }
}

} // verus!
