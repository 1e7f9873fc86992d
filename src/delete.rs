use vstd::prelude::*;

use crate::node::{
    black_height, is_red, keys, link_is_red, make_node, node_count, node_link, ordered, recolored,
    red_black, RbColor, RbNode,
};

verus! {

/// Rebuilds a node of color `color` whose left subtree `left` is one black
/// level short of its black sibling `sib`. A red far child of the sibling
/// allows one rotation at the parent, a red near child two; both end the
/// repair. With two black children the sibling turns red: a red parent turns
/// black and ends the repair, a black parent passes the shortage up, which the
/// flag reports.
#[verifier::rlimit(40)]
fn fix_left_black(color: RbColor, key: i32, left: Option<Box<RbNode>>, sib: Option<Box<RbNode>>) -> (r: (
    Option<Box<RbNode>>,
    bool,
))
    requires
        red_black(left),
        red_black(sib),
        !is_red(left),
        sib is Some,
        !is_red(sib),
        black_height(left) + 1 == black_height(sib),
        ordered(left),
        ordered(sib),
        forall|x: i32| #[trigger] keys(left).contains(x) ==> x < key,
        forall|x: i32| #[trigger] keys(sib).contains(x) ==> key < x,
    ensures
        red_black(r.0),
        ordered(r.0),
        keys(r.0) == keys(left).union(keys(sib)).insert(key),
        node_count(r.0) == node_count(left) + node_count(sib) + 1,
        black_height(r.0) + (if r.1 { 1nat } else { 0nat }) == black_height(sib) + (if color
            == RbColor::Black { 1nat } else { 0nat }),
        r.1 ==> color == RbColor::Black,
        is_red(r.0) ==> color == RbColor::Red,
{
    proof {
        reveal_with_fuel(keys, 3);
        reveal_with_fuel(red_black, 3);
        reveal_with_fuel(black_height, 3);
        reveal_with_fuel(ordered, 3);
        reveal_with_fuel(node_count, 3);
    }
    let sn = sib.unwrap();
    let RbNode { key: skey, color: _, left: sl, right: sr } = *sn;
    assert(keys(sib).contains(skey));
    assert forall|x: i32| #[trigger] keys(sl).contains(x) implies key < x && x < skey by {
        assert(keys(sib).contains(x));
    }
    if link_is_red(&sr) {
        let mut srn = sr.unwrap();
        srn.color = RbColor::Black;
        let far = Some(srn);
        assert(keys(far) =~= keys(sr));
        let p = make_node(key, RbColor::Black, left, sl);
        let r = make_node(skey, color, p, far);
        assert(keys(p) =~= keys(left).union(keys(sl)).insert(key));
        assert(keys(r) =~= keys(left).union(keys(sib)).insert(key));
        (r, false)
    } else if link_is_red(&sl) {
        let cn = sl.unwrap();
        let RbNode { key: ckey, color: _, left: cl, right: cr } = *cn;
        assert(keys(sl).contains(ckey));
        assert forall|x: i32| #[trigger] keys(cl).contains(x) implies key < x && x < ckey by {
            assert(keys(sl).contains(x));
        }
        assert forall|x: i32| #[trigger] keys(cr).contains(x) implies ckey < x && x < skey by {
            assert(keys(sl).contains(x));
        }
        let p = make_node(key, RbColor::Black, left, cl);
        let q = make_node(skey, RbColor::Black, cr, sr);
        let r = make_node(ckey, color, p, q);
        assert(keys(p) =~= keys(left).union(keys(cl)).insert(key));
        assert(keys(q) =~= keys(cr).union(keys(sr)).insert(skey));
        assert forall|x: i32| #[trigger] keys(p).contains(x) implies x < ckey by {
            if keys(left).contains(x) {
                assert(x < key);
            }
        }
        assert forall|x: i32| #[trigger] keys(q).contains(x) implies ckey < x by {
            if keys(sr).contains(x) {
                assert(skey < x);
            }
        }
        assert(keys(r) =~= keys(left).union(keys(sib)).insert(key));
        (r, false)
    } else {
        let q = make_node(skey, RbColor::Red, sl, sr);
        let r = make_node(key, RbColor::Black, left, q);
        assert(keys(q) =~= keys(sib));
        assert(keys(r) =~= keys(left).union(keys(sib)).insert(key));
        (r, color == RbColor::Black)
    }
}

/// The mirror image of `fix_left_black`: the right subtree is short.
#[verifier::rlimit(40)]
fn fix_right_black(color: RbColor, key: i32, sib: Option<Box<RbNode>>, right: Option<Box<RbNode>>) -> (r: (
    Option<Box<RbNode>>,
    bool,
))
    requires
        red_black(right),
        red_black(sib),
        !is_red(right),
        sib is Some,
        !is_red(sib),
        black_height(right) + 1 == black_height(sib),
        ordered(right),
        ordered(sib),
        forall|x: i32| #[trigger] keys(sib).contains(x) ==> x < key,
        forall|x: i32| #[trigger] keys(right).contains(x) ==> key < x,
    ensures
        red_black(r.0),
        ordered(r.0),
        keys(r.0) == keys(sib).union(keys(right)).insert(key),
        node_count(r.0) == node_count(sib) + node_count(right) + 1,
        black_height(r.0) + (if r.1 { 1nat } else { 0nat }) == black_height(sib) + (if color
            == RbColor::Black { 1nat } else { 0nat }),
        r.1 ==> color == RbColor::Black,
        is_red(r.0) ==> color == RbColor::Red,
{
    proof {
        reveal_with_fuel(keys, 3);
        reveal_with_fuel(red_black, 3);
        reveal_with_fuel(black_height, 3);
        reveal_with_fuel(ordered, 3);
        reveal_with_fuel(node_count, 3);
    }
    let sn = sib.unwrap();
    let RbNode { key: skey, color: _, left: sl, right: sr } = *sn;
    assert(keys(sib).contains(skey));
    assert forall|x: i32| #[trigger] keys(sr).contains(x) implies skey < x && x < key by {
        assert(keys(sib).contains(x));
    }
    if link_is_red(&sl) {
        let mut sln = sl.unwrap();
        sln.color = RbColor::Black;
        let far = Some(sln);
        assert(keys(far) =~= keys(sl));
        let p = make_node(key, RbColor::Black, sr, right);
        let r = make_node(skey, color, far, p);
        assert(keys(p) =~= keys(sr).union(keys(right)).insert(key));
        assert(keys(r) =~= keys(sib).union(keys(right)).insert(key));
        (r, false)
    } else if link_is_red(&sr) {
        let cn = sr.unwrap();
        let RbNode { key: ckey, color: _, left: cl, right: cr } = *cn;
        assert(keys(sr).contains(ckey));
        assert forall|x: i32| #[trigger] keys(cr).contains(x) implies ckey < x && x < key by {
            assert(keys(sr).contains(x));
        }
        assert forall|x: i32| #[trigger] keys(cl).contains(x) implies skey < x && x < ckey by {
            assert(keys(sr).contains(x));
        }
        let p = make_node(key, RbColor::Black, cr, right);
        let q = make_node(skey, RbColor::Black, sl, cl);
        let r = make_node(ckey, color, q, p);
        assert(keys(p) =~= keys(cr).union(keys(right)).insert(key));
        assert(keys(q) =~= keys(sl).union(keys(cl)).insert(skey));
        assert forall|x: i32| #[trigger] keys(p).contains(x) implies ckey < x by {
            if keys(right).contains(x) {
                assert(key < x);
            }
        }
        assert forall|x: i32| #[trigger] keys(q).contains(x) implies x < ckey by {
            if keys(sl).contains(x) {
                assert(x < skey);
            }
        }
        assert(keys(r) =~= keys(sib).union(keys(right)).insert(key));
        (r, false)
    } else {
        let q = make_node(skey, RbColor::Red, sl, sr);
        let r = make_node(key, RbColor::Black, q, right);
        assert(keys(q) =~= keys(sib));
        assert(keys(r) =~= keys(sib).union(keys(right)).insert(key));
        (r, color == RbColor::Black)
    }
}

/// Rebuilds a node whose left subtree is one black level short. A red
/// sibling is first rotated up into the parent's place, recolored black, and
/// the old parent, now red, is repaired against its new black sibling.
#[verifier::rlimit(40)]
fn fix_left(color: RbColor, key: i32, left: Option<Box<RbNode>>, sib: Option<Box<RbNode>>) -> (r: (
    Option<Box<RbNode>>,
    bool,
))
    requires
        red_black(left),
        red_black(sib),
        !is_red(left),
        black_height(left) + 1 == black_height(sib),
        color == RbColor::Red ==> !is_red(sib),
        ordered(left),
        ordered(sib),
        forall|x: i32| #[trigger] keys(left).contains(x) ==> x < key,
        forall|x: i32| #[trigger] keys(sib).contains(x) ==> key < x,
    ensures
        red_black(r.0),
        ordered(r.0),
        keys(r.0) == keys(left).union(keys(sib)).insert(key),
        node_count(r.0) == node_count(left) + node_count(sib) + 1,
        black_height(r.0) + (if r.1 { 1nat } else { 0nat }) == black_height(sib) + (if color
            == RbColor::Black { 1nat } else { 0nat }),
        r.1 ==> color == RbColor::Black,
        is_red(r.0) ==> color == RbColor::Red,
{
    proof {
        reveal_with_fuel(keys, 3);
        reveal_with_fuel(red_black, 3);
        reveal_with_fuel(black_height, 3);
        reveal_with_fuel(ordered, 3);
        reveal_with_fuel(node_count, 3);
    }
    if link_is_red(&sib) {
        let sn = sib.unwrap();
        let RbNode { key: skey, color: _, left: sl, right: sr } = *sn;
        assert(keys(sib).contains(skey));
        assert forall|x: i32| #[trigger] keys(sl).contains(x) implies key < x && x < skey by {
            assert(keys(sib).contains(x));
        }
        let (p, _) = fix_left_black(RbColor::Red, key, left, sl);
        assert forall|x: i32| #[trigger] keys(p).contains(x) implies x < skey by {
            if keys(left).contains(x) {
                assert(x < key);
            }
        }
        let r = make_node(skey, RbColor::Black, p, sr);
        assert(keys(r) =~= keys(left).union(keys(sib)).insert(key));
        (r, false)
    } else {
        fix_left_black(color, key, left, sib)
    }
}

/// The mirror image of `fix_left`: the right subtree is short.
#[verifier::rlimit(40)]
fn fix_right(color: RbColor, key: i32, sib: Option<Box<RbNode>>, right: Option<Box<RbNode>>) -> (r: (
    Option<Box<RbNode>>,
    bool,
))
    requires
        red_black(right),
        red_black(sib),
        !is_red(right),
        black_height(right) + 1 == black_height(sib),
        color == RbColor::Red ==> !is_red(sib),
        ordered(right),
        ordered(sib),
        forall|x: i32| #[trigger] keys(sib).contains(x) ==> x < key,
        forall|x: i32| #[trigger] keys(right).contains(x) ==> key < x,
    ensures
        red_black(r.0),
        ordered(r.0),
        keys(r.0) == keys(sib).union(keys(right)).insert(key),
        node_count(r.0) == node_count(sib) + node_count(right) + 1,
        black_height(r.0) + (if r.1 { 1nat } else { 0nat }) == black_height(sib) + (if color
            == RbColor::Black { 1nat } else { 0nat }),
        r.1 ==> color == RbColor::Black,
        is_red(r.0) ==> color == RbColor::Red,
{
    proof {
        reveal_with_fuel(keys, 3);
        reveal_with_fuel(red_black, 3);
        reveal_with_fuel(black_height, 3);
        reveal_with_fuel(ordered, 3);
        reveal_with_fuel(node_count, 3);
    }
    if link_is_red(&sib) {
        let sn = sib.unwrap();
        let RbNode { key: skey, color: _, left: sl, right: sr } = *sn;
        assert(keys(sib).contains(skey));
        assert forall|x: i32| #[trigger] keys(sr).contains(x) implies skey < x && x < key by {
            assert(keys(sib).contains(x));
        }
        let (p, _) = fix_right_black(RbColor::Red, key, sr, right);
        assert forall|x: i32| #[trigger] keys(p).contains(x) implies skey < x by {
            if keys(right).contains(x) {
                assert(key < x);
            }
        }
        let r = make_node(skey, RbColor::Black, sl, p);
        assert(keys(r) =~= keys(sib).union(keys(right)).insert(key));
        (r, false)
    } else {
        fix_right_black(color, key, sib, right)
    }
}

/// Takes out a node of color `color` whose only subtree, if any, is `child`.
/// A remaining child is a red leaf and turns black; a black node without
/// children leaves its place one black level short.
fn remove_top(color: RbColor, child: Option<Box<RbNode>>) -> (r: (Option<Box<RbNode>>, bool))
    requires
        red_black(child),
        black_height(child) == 0,
        color == RbColor::Red ==> !is_red(child),
    ensures
        red_black(r.0),
        !is_red(r.0),
        r.0 == recolored(child, RbColor::Black),
        keys(r.0) == keys(child),
        node_count(r.0) == node_count(child),
        ordered(child) ==> ordered(r.0),
        black_height(r.0) + (if r.1 { 1nat } else { 0nat }) == (if color == RbColor::Black {
            1nat
        } else {
            0nat
        }),
        r.1 ==> color == RbColor::Black,
{
    proof {
        reveal_with_fuel(keys, 3);
        reveal_with_fuel(red_black, 3);
        reveal_with_fuel(black_height, 3);
        reveal_with_fuel(ordered, 3);
        reveal_with_fuel(node_count, 3);
    }
    match child {
        None => (None, color == RbColor::Black),
        Some(c) => {
            let mut c = c;
            c.color = RbColor::Black;
            let r = Some(c);
            assert(keys(r) =~= keys(child));
            (r, false)
        },
    }
}

/// Detaches the node with the least key of a non-empty subtree and returns
/// it without children; the flag tells whether the subtree lost a black
/// level.
fn delete_min(t: Option<Box<RbNode>>) -> (r: (Option<Box<RbNode>>, bool, Box<RbNode>))
    requires
        t is Some,
        red_black(t),
        ordered(t),
    ensures
        keys(t).contains(r.2.key),
        forall|x: i32| #[trigger] keys(t).contains(x) ==> r.2.key <= x,
        r.2.left is None,
        r.2.right is None,
        keys(r.0) == keys(t).remove(r.2.key),
        node_count(r.0) + 1 == node_count(t),
        ordered(r.0),
        red_black(r.0),
        black_height(r.0) + (if r.1 { 1nat } else { 0nat }) == black_height(t),
        is_red(r.0) ==> is_red(t),
        r.1 ==> !is_red(t),
    decreases t,
{
    let mut n = t.unwrap();
    if n.left.is_none() {
        let right = n.right.take();
        let key = n.key;
        let (r, short) = remove_top(n.color, right);
        assert(keys(t->Some_0.left) =~= Set::empty());
        assert(node_count(t->Some_0.left) == 0);
        assert(!keys(right).contains(key));
        assert forall|x: i32| #[trigger] keys(t).contains(x) implies key <= x by {
            if keys(right).contains(x) {
                assert(key < x);
            }
        }
        assert(keys(r) =~= keys(t).remove(key));
        (r, short, n)
    } else {
        let left = n.left.take();
        let (nl, short, m) = delete_min(left);
        let ghost mk = m.key;
        assert(mk < n.key);
        assert(!keys(n.right).contains(mk));
        assert forall|x: i32| #[trigger] keys(t).contains(x) implies mk <= x by {
            if keys(n.right).contains(x) {
                assert(n.key < x);
            }
        }
        if short {
            let RbNode { key, color, left: _, right } = *n;
            let (r, s2) = fix_left(color, key, nl, right);
            assert(keys(r) =~= keys(t).remove(mk));
            (r, s2, m)
        } else {
            n.left = nl;
            let r = Some(n);
            assert(keys(r) =~= keys(t).remove(mk));
            (r, false, m)
        }
    }
}

/// Removes `k`, which the subtree holds; the flag tells whether the subtree
/// lost a black level. A node with two children is replaced by the node of
/// the least key of its right subtree, and a node with one child by that
/// child, turned black. The ghost part is what removal from the subtree that
/// held `k` gave back: where that subtree lost no black level, the node is
/// kept with its key, color and other subtree.
pub(crate) fn delete_rec(t: Option<Box<RbNode>>, k: i32) -> (r: (
    Option<Box<RbNode>>,
    bool,
    Ghost<(Option<Box<RbNode>>, bool)>,
))
    requires
        red_black(t),
        ordered(t),
        keys(t).contains(k),
    ensures
        keys(r.0) == keys(t).remove(k),
        node_count(r.0) + 1 == node_count(t),
        ordered(r.0),
        red_black(r.0),
        black_height(r.0) + (if r.1 { 1nat } else { 0nat }) == black_height(t),
        is_red(r.0) ==> is_red(t),
        r.1 ==> !is_red(t),
        k < t->Some_0.key ==> keys(r.2@.0) == keys(t->Some_0.left).remove(k) && black_height(
            r.2@.0,
        ) + (if r.2@.1 { 1nat } else { 0nat }) == black_height(t->Some_0.left),
        k < t->Some_0.key && !r.2@.1 ==> !r.1 && r.0 == node_link(
            t->Some_0.key,
            t->Some_0.color,
            r.2@.0,
            t->Some_0.right,
        ),
        t->Some_0.key < k ==> keys(r.2@.0) == keys(t->Some_0.right).remove(k) && black_height(
            r.2@.0,
        ) + (if r.2@.1 { 1nat } else { 0nat }) == black_height(t->Some_0.right),
        t->Some_0.key < k && !r.2@.1 ==> !r.1 && r.0 == node_link(
            t->Some_0.key,
            t->Some_0.color,
            t->Some_0.left,
            r.2@.0,
        ),
        k == t->Some_0.key && t->Some_0.left is None ==> r.0 == recolored(
            t->Some_0.right,
            RbColor::Black,
        ),
        k == t->Some_0.key && t->Some_0.left is Some && t->Some_0.right is None ==> r.0
            == recolored(t->Some_0.left, RbColor::Black),
    decreases t,
{
    let mut n = t.unwrap();
    if k < n.key {
        assert(!keys(n.right).contains(k));
        let left = n.left.take();
        let (nl, short, _) = delete_rec(left, k);
        let ghost below = (nl, short);
        if short {
            let RbNode { key, color, left: _, right } = *n;
            let (r, s2) = fix_left(color, key, nl, right);
            assert(keys(r) =~= keys(t).remove(k));
            (r, s2, Ghost(below))
        } else {
            n.left = nl;
            let r = Some(n);
            assert(keys(r) =~= keys(t).remove(k));
            (r, false, Ghost(below))
        }
    } else if n.key < k {
        assert(!keys(n.left).contains(k));
        let right = n.right.take();
        let (nr, short, _) = delete_rec(right, k);
        let ghost below = (nr, short);
        if short {
            let RbNode { key, color, left, right: _ } = *n;
            let (r, s2) = fix_right(color, key, left, nr);
            assert(keys(r) =~= keys(t).remove(k));
            (r, s2, Ghost(below))
        } else {
            n.right = nr;
            let r = Some(n);
            assert(keys(r) =~= keys(t).remove(k));
            (r, false, Ghost(below))
        }
    } else {
        let RbNode { key, color, left, right } = *n;
        if left.is_none() {
            assert(keys(left) =~= Set::empty());
            let (r, short) = remove_top(color, right);
            assert(keys(r) =~= keys(t).remove(k));
            (r, short, Ghost((None, false)))
        } else if right.is_none() {
            assert(keys(right) =~= Set::empty());
            let (r, short) = remove_top(color, left);
            assert(keys(r) =~= keys(t).remove(k));
            (r, short, Ghost((None, false)))
        } else {
            let (r, short) = replace_with_successor(color, key, left, right);
            assert(keys(r) =~= keys(t).remove(k));
            (r, short, Ghost((None, false)))
        }
    }
}

/// Removes the key of a node with two children: the node that holds the
/// least key of the right subtree is detached and takes the removed node's
/// place, color and children.
fn replace_with_successor(
    color: RbColor,
    key: i32,
    left: Option<Box<RbNode>>,
    right: Option<Box<RbNode>>,
) -> (r: (Option<Box<RbNode>>, bool))
    requires
        red_black(Some(Box::new(RbNode { key, color, left, right }))),
        ordered(Some(Box::new(RbNode { key, color, left, right }))),
        right is Some,
    ensures
        keys(r.0) == keys(left).union(keys(right)),
        node_count(r.0) == node_count(left) + node_count(right),
        ordered(r.0),
        red_black(r.0),
        black_height(r.0) + (if r.1 { 1nat } else { 0nat }) == black_height(right) + (if color
            == RbColor::Black { 1nat } else { 0nat }),
        is_red(r.0) ==> color == RbColor::Red,
        r.1 ==> color == RbColor::Black,
{
    let (nr, short, succ) = delete_min(right);
    let m = succ.key;
    assert(key < m);
    assert(keys(right) =~= keys(nr).insert(m));
    assert forall|x: i32| #[trigger] keys(nr).contains(x) implies m < x by {
        assert(keys(right).contains(x));
    }
    assert forall|x: i32| #[trigger] keys(left).contains(x) implies x < m by {
        assert(x < key);
    }
    if short {
        let (r, s2) = fix_right(color, m, left, nr);
        assert(keys(r) =~= keys(left).union(keys(right)));
        (r, s2)
    } else {
        let mut succ = succ;
        succ.color = color;
        succ.left = left;
        succ.right = nr;
        let r = Some(succ);
        assert(keys(r) =~= keys(left).union(keys(right)));
        (r, false)
    }
}

} // verus!
