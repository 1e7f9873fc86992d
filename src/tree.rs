use vstd::prelude::*;

use crate::delete::delete_rec;
use crate::insert::insert_rec;
use crate::node::{
    inorder, is_red, keys, lemma_inorder, node_count, ordered, red_black, strictly_sorted, RbColor,
    RbNode,
};

verus! {

/// Appends the keys of `t`, left to right.
fn collect_inorder(t: &Option<Box<RbNode>>, out: &mut Vec<i32>)
    ensures
        final(out)@ == old(out)@ + inorder(*t),
    decreases *t,
{
    match t {
        None => {
            assert(old(out)@ + inorder(*t) =~= old(out)@);
        },
        Some(n) => {
            collect_inorder(&n.left, out);
            out.push(n.key);
            collect_inorder(&n.right, out);
            assert(final(out)@ =~= old(out)@ + inorder(*t));
        },
    }
}

/// A red-black tree holding a set of `i32` keys. Keys are unique: inserting
/// a key that is already present leaves the tree unchanged, so `get` and
/// `delete` never have to choose among equal keys.
pub struct RbTree {
    root: Option<Box<RbNode>>,
    size: usize,
}

impl View for RbTree {
    type V = Set<i32>;

    closed spec fn view(&self) -> Set<i32> {
        keys(self.root)
    }
}

impl RbTree {
    /// Search order, the red-black rules, a black root, and a size that
    /// counts the nodes.
    pub closed spec fn well_formed(&self) -> bool {
        &&& ordered(self.root)
        &&& red_black(self.root)
        &&& !is_red(self.root)
        &&& self.size == node_count(self.root)
    }

    /// The root link.
    pub closed spec fn root_link(&self) -> Option<Box<RbNode>> {
        self.root
    }

    /// A well-formed tree in the terms of the red-black rules: its keys obey
    /// the search order, no red node has a red child, both subtrees of every
    /// node have the same black height, and the root is black.
    pub proof fn lemma_well_formed(&self)
        requires
            self.well_formed(),
        ensures
            self@ == keys(self.root_link()),
            self@.finite(),
            ordered(self.root_link()),
            red_black(self.root_link()),
            !is_red(self.root_link()),
            self@ == Set::<i32>::empty() <==> self.root_link() is None,
    {
        lemma_inorder(self.root);
    }

    /// An empty tree.
    pub fn new() -> (r: Self)
        ensures
            r.well_formed(),
            r@ == Set::<i32>::empty(),
    {
        RbTree { root: None, size: 0 }
    }

    /// The number of keys.
    pub fn size(&self) -> (r: usize)
        requires
            self.well_formed(),
        ensures
            r == self@.len(),
    {
        proof {
            lemma_inorder(self.root);
        }
        self.size
    }

    /// The stored key equal to `key`, if there is one.
    pub fn get(&self, key: &i32) -> (r: Option<&i32>)
        requires
            self.well_formed(),
        ensures
            r is Some <==> self@.contains(*key),
            r matches Some(v) ==> *v == *key,
    {
        let mut cur: &Option<Box<RbNode>> = &self.root;
        while cur.is_some()
            invariant
                ordered(*cur),
                keys(*cur).contains(*key) <==> self@.contains(*key),
            decreases node_count(*cur),
        {
            let n = cur.as_ref().unwrap();
            if *key == n.key {
                return Some(&n.key);
            } else if *key < n.key {
                assert(!keys(n.right).contains(*key));
                cur = &n.left;
            } else {
                assert(!keys(n.left).contains(*key));
                cur = &n.right;
            }
        }
        None
    }

    /// All keys in increasing order.
    pub fn enumerate(&self) -> (r: Vec<i32>)
        requires
            self.well_formed(),
        ensures
            strictly_sorted(r@),
            r@.to_set() == self@,
            r@.len() == self@.len(),
    {
        proof {
            lemma_inorder(self.root);
        }
        let mut out: Vec<i32> = Vec::new();
        collect_inorder(&self.root, &mut out);
        assert(out@ =~= inorder(self.root));
        out
    }

    /// Removes `key`; an absent key leaves the tree as it is.
    pub fn delete(&mut self, key: &i32)
        requires
            old(self).well_formed(),
        ensures
            final(self).well_formed(),
            final(self)@ == old(self)@.remove(*key),
            !old(self)@.contains(*key) ==> *final(self) == *old(self),
    {
        if self.get(key).is_none() {
            assert(self@.remove(*key) =~= self@);
            return;
        }
        let root = self.root.take();
        let (r, _, _) = delete_rec(root, *key);
        self.root = r;
        self.size = self.size - 1;
    }

    /// Adds `key`; a key already present leaves the tree as it is.
    pub fn insert(&mut self, key: i32)
        requires
            old(self).well_formed(),
            old(self)@.len() < usize::MAX,
        ensures
            final(self).well_formed(),
            final(self)@ == old(self)@.insert(key),
            old(self)@.contains(key) ==> *final(self) == *old(self),
    {
        proof {
            lemma_inorder(self.root);
        }
        let root = self.root.take();
        let (r, added) = insert_rec(root, key);
        let mut rn = r.unwrap();
        rn.color = RbColor::Black;
        self.root = Some(rn);
        if added {
            self.size = self.size + 1;
        }
    }
}

} // verus!
