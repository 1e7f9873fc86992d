use vstd::prelude::*;


verus! {

/// The color of a node.
#[derive(Clone, Copy, PartialEq, Eq, Structural, Debug)]
pub enum RbColor {
    Red,
    Black,
}

/// One node: a key, its color and the two owned subtrees.
pub struct RbNode {
    pub key: i32,
    pub color: RbColor,
    pub left: Option<Box<RbNode>>,
    pub right: Option<Box<RbNode>>,
}

impl RbNode {
    /// A red node without children: how every node enters a tree.
    pub fn new(key: i32) -> (r: Self)
        ensures
            r.key == key,
            r.color == RbColor::Red,
            r.left is None,
            r.right is None,
    {
        RbNode { key, color: RbColor::Red, left: None, right: None }
    }
}

/// The keys held in a subtree.
pub open spec fn keys(t: Option<Box<RbNode>>) -> Set<i32>
    decreases t,
{
    match t {
        None => Set::empty(),
        Some(n) => keys(n.left).union(keys(n.right)).insert(n.key),
    }
}

/// The keys of a subtree, left to right.
pub open spec fn inorder(t: Option<Box<RbNode>>) -> Seq<i32>
    decreases t,
{
    match t {
        None => Seq::empty(),
        Some(n) => inorder(n.left) + seq![n.key] + inorder(n.right),
    }
}

/// The number of nodes of a subtree.
pub open spec fn node_count(t: Option<Box<RbNode>>) -> nat
    decreases t,
{
    match t {
        None => 0,
        Some(n) => node_count(n.left) + node_count(n.right) + 1,
    }
}

/// Search order: every key of a left subtree is below its node's key, every
/// key of a right subtree above it.
pub open spec fn ordered(t: Option<Box<RbNode>>) -> bool
    decreases t,
{
    match t {
        None => true,
        Some(n) => {
            &&& ordered(n.left)
            &&& ordered(n.right)
            &&& forall|x: i32| #[trigger] keys(n.left).contains(x) ==> x < n.key
            &&& forall|x: i32| #[trigger] keys(n.right).contains(x) ==> n.key < x
        },
    }
}

/// An absent subtree counts as black.
pub open spec fn is_red(t: Option<Box<RbNode>>) -> bool {
    match t {
        None => false,
        Some(n) => n.color == RbColor::Red,
    }
}

/// The number of black nodes on the leftmost path, the node itself included.
pub open spec fn black_height(t: Option<Box<RbNode>>) -> nat
    decreases t,
{
    match t {
        None => 0,
        Some(n) => black_height(n.left) + if n.color == RbColor::Black {
            1nat
        } else {
            0nat
        },
    }
}

/// At every node both subtrees have the same black height, and a red node
/// has no red child.
pub open spec fn red_black(t: Option<Box<RbNode>>) -> bool
    decreases t,
{
    match t {
        None => true,
        Some(n) => {
            &&& red_black(n.left)
            &&& red_black(n.right)
            &&& black_height(n.left) == black_height(n.right)
            &&& (n.color == RbColor::Red ==> !is_red(n.left) && !is_red(n.right))
        },
    }
}

/// Strictly increasing.
pub open spec fn strictly_sorted(s: Seq<i32>) -> bool {
    forall|i: int, j: int| 0 <= i < j < s.len() ==> s[i] < s[j]
}

/// An ordered subtree lists its keys in increasing order, each once.
pub proof fn lemma_inorder(t: Option<Box<RbNode>>)
    requires
        ordered(t),
    ensures
        strictly_sorted(inorder(t)),
        inorder(t).to_set() == keys(t),
        inorder(t).len() == node_count(t),
        keys(t).finite(),
        keys(t).len() == node_count(t),
    decreases t,
{
    match t {
        None => {
            assert(inorder(t).to_set() =~= keys(t));
        },
        Some(n) => {
            lemma_inorder(n.left);
            lemma_inorder(n.right);
            let a = inorder(n.left);
            let b = inorder(n.right);
            let s = inorder(t);
            assert(s == a + seq![n.key] + b);
            assert forall|i: int, j: int| 0 <= i < j < s.len() implies s[i] < s[j] by {
                if i < a.len() {
                    assert(a.contains(s[i]));
                    assert(keys(n.left).contains(s[i]));
                }
                if j > a.len() {
                    assert(b.contains(b[j - a.len() - 1]));
                    assert(s[j] == b[j - a.len() - 1]);
                    assert(keys(n.right).contains(s[j]));
                }
            }
            assert forall|x: i32| s.contains(x) <==> keys(t).contains(x) by {
                if s.contains(x) {
                    let i = choose|i: int| 0 <= i < s.len() && s[i] == x;
                    if i < a.len() {
                        assert(a.contains(x));
                    } else if i > a.len() {
                        assert(b[i - a.len() - 1] == x);
                        assert(b.contains(x));
                    }
                }
                if keys(n.left).contains(x) {
                    assert(a.contains(x));
                    let i = choose|i: int| 0 <= i < a.len() && a[i] == x;
                    assert(s[i] == x);
                }
                if keys(n.right).contains(x) {
                    assert(b.contains(x));
                    let i = choose|i: int| 0 <= i < b.len() && b[i] == x;
                    assert(s[i + a.len() + 1] == x);
                }
                if x == n.key {
                    assert(s[a.len() as int] == x);
                }
            }
            assert(s.to_set() =~= keys(t));
            assert(s.no_duplicates()) by {
                assert forall|i: int, j: int| 0 <= i < s.len() && 0 <= j < s.len() && i != j
                    implies s[i] != s[j] by {
                    if i < j {
                        assert(s[i] < s[j]);
                    } else {
                        assert(s[j] < s[i]);
                    }
                }
            }
            s.unique_seq_to_set();
        },
    }
}

pub(crate) fn link_is_red(t: &Option<Box<RbNode>>) -> (r: bool)
    ensures
        r == is_red(*t),
{
    match t {
        None => false,
        Some(n) => n.color == RbColor::Red,
    }
}

/// The link to a node built from its four parts.
pub open spec fn node_link(
    key: i32,
    color: RbColor,
    left: Option<Box<RbNode>>,
    right: Option<Box<RbNode>>,
) -> Option<Box<RbNode>> {
    Some(Box::new(RbNode { key, color, left, right }))
}

/// The same subtree with its top node given color `color`.
pub open spec fn recolored(t: Option<Box<RbNode>>, color: RbColor) -> Option<Box<RbNode>> {
    match t {
        None => None,
        Some(n) => node_link(n.key, color, n.left, n.right),
    }
}

/// A red node with a red child: two reds in a row.
pub open spec fn has_red_pair(t: Option<Box<RbNode>>) -> bool {
    match t {
        None => false,
        Some(n) => n.color == RbColor::Red && (is_red(n.left) || is_red(n.right)),
    }
}

pub(crate) fn make_node(key: i32, color: RbColor, left: Option<Box<RbNode>>, right: Option<Box<RbNode>>) -> (r:
    Option<Box<RbNode>>)
    ensures
        r == node_link(key, color, left, right),
{
    Some(Box::new(RbNode { key, color, left, right }))
}

} // verus!
