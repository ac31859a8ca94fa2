//! A binary tree whose nodes borrow their children.

use vstd::prelude::*;

verus! {

/// A node with a value and up to two borrowed children.
pub struct Leaf<'a> {
    pub val: i64,
    pub left: Option<&'a Leaf<'a>>,
    pub right: Option<&'a Leaf<'a>>,
}

/// The values of the tree in depth-first order: a node, then its left subtree,
/// then its right subtree.
pub open spec fn preorder<'a>(leaf: Option<&'a Leaf<'a>>) -> Seq<i64>
    decreases leaf,
{
    match leaf {
        Some(x) => seq![x.val] + preorder(x.left) + preorder(x.right),
        None => Seq::empty(),
    }
}

/// The values that printing the tree shows, in the order it shows them.
pub fn print_leaf_optional<'a>(leaf: Option<&'a Leaf<'a>>, out: &mut Vec<i64>)
    ensures
        final(out)@ == old(out)@ + preorder(leaf),
    decreases leaf,
{
    match leaf {
        Some(x) => {
            out.push(x.val);
            print_leaf_optional(x.left, out);
            print_leaf_optional(x.right, out);
            assert(out@ =~= old(out)@ + preorder(leaf));
        },
        None => {
            assert(out@ =~= old(out)@ + preorder(leaf));
        },
    }
}

/// The values that printing the tree rooted at `leaf` shows, in order.
pub fn print_leaf<'a>(leaf: &'a Leaf<'a>) -> (vals: Vec<i64>)
    ensures
        vals@ == preorder(Some(leaf)),
        vals@.len() == node_count(Some(leaf)),
{
    let mut vals: Vec<i64> = Vec::new();
    print_leaf_optional(Some(leaf), &mut vals);
    assert(vals@ =~= preorder(Some(leaf)));
    proof {
        law_listing_covers_tree(Some(leaf));
    }
    vals
}

/// The number of nodes in the tree.
pub open spec fn node_count<'a>(leaf: Option<&'a Leaf<'a>>) -> nat
    decreases leaf,
{
    match leaf {
        Some(x) => 1 + node_count(x.left) + node_count(x.right),
        None => 0,
    }
}

/// The listing holds one value per node of the tree: a node's value first,
/// then, in the next as many places as its left subtree has nodes, that
/// subtree's listing, then its right subtree's listing, whichever children the
/// node has.
pub proof fn law_listing_covers_tree<'a>(leaf: Option<&'a Leaf<'a>>)
    ensures
        preorder(leaf).len() == node_count(leaf),
        leaf matches Some(x) ==> {
            &&& preorder(leaf)[0] == x.val
            &&& preorder(leaf).subrange(1, 1 + node_count(x.left) as int) == preorder(x.left)
            &&& preorder(leaf).subrange(1 + node_count(x.left) as int, node_count(leaf) as int) == preorder(x.right)
        },
    decreases leaf,
{
    match leaf {
        Some(x) => {
            law_listing_covers_tree(x.left);
            law_listing_covers_tree(x.right);
            let l = preorder(x.left);
            let r = preorder(x.right);
            let all = preorder(leaf);
            assert(all =~= seq![x.val] + l + r);
            assert(all.subrange(1, 1 + l.len() as int) =~= l);
            assert(all.subrange(1 + l.len() as int, all.len() as int) =~= r);
        },
        None => {},
    }
}

} // verus!
