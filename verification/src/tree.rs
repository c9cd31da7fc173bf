//! A binary search tree of integers: smaller values to the left, others to the
//! right.
use vstd::multiset::Multiset;
use vstd::prelude::*;

verus! {

broadcast use {vstd::multiset::group_multiset_axioms, vstd::multiset::group_multiset_properties};

/// A node of the tree.
pub struct Node {
    pub left: Option<Box<Node>>,
    pub right: Option<Box<Node>>,
    pub value: i64,
}

/// A binary search tree.
pub struct Tree {
    pub head: Option<Box<Node>>,
}

/// The values held in a (sub)tree.
pub open spec fn contents(node: Option<Box<Node>>) -> Multiset<i64>
    decreases node,
{
    match node {
        None => Multiset::empty(),
        Some(n) => contents(n.left).add(contents(n.right)).insert(n.value),
    }
}

/// Every node's left subtree holds smaller values and its right subtree values
/// no smaller.
pub open spec fn ordered(node: Option<Box<Node>>) -> bool
    decreases node,
{
    match node {
        None => true,
        Some(n) => {
            &&& forall|v: i64| #[trigger] contents(n.left).contains(v) ==> v < n.value
            &&& forall|v: i64| #[trigger] contents(n.right).contains(v) ==> v >= n.value
            &&& ordered(n.left)
            &&& ordered(n.right)
        },
    }
}

/// The (sub)tree with `value` added: walking down from the root, left where the
/// node's value is larger, right otherwise, to an empty place.
pub open spec fn inserted(node: Option<Box<Node>>, value: i64) -> Option<Box<Node>>
    decreases node,
{
    match node {
        None => Some(Box::new(Node { left: None, right: None, value })),
        Some(n) => if n.value > value {
            Some(Box::new(Node { left: inserted(n.left, value), right: n.right, value: n.value }))
        } else {
            Some(Box::new(Node { left: n.left, right: inserted(n.right, value), value: n.value }))
        },
    }
}

/// Adding a value adds it to the contents.
pub proof fn lemma_inserted_contents(node: Option<Box<Node>>, value: i64)
    ensures
        contents(inserted(node, value)) =~= contents(node).insert(value),
    decreases node,
{
    if let Some(n) = node {
        lemma_inserted_contents(n.left, value);
        lemma_inserted_contents(n.right, value);
    }
}

/// Adding a value keeps the tree ordered.
pub proof fn lemma_inserted_ordered(node: Option<Box<Node>>, value: i64)
    requires
        ordered(node),
    ensures
        ordered(inserted(node, value)),
    decreases node,
{
    if let Some(n) = node {
        lemma_inserted_ordered(n.left, value);
        lemma_inserted_ordered(n.right, value);
        lemma_inserted_contents(n.left, value);
        lemma_inserted_contents(n.right, value);
        let r = inserted(node, value).unwrap();
        if n.value > value {
            assert forall|v: i64| #[trigger] contents(r.left).contains(v) implies v < n.value by {
                if v != value {
                    assert(contents(n.left).contains(v));
                }
            }
            assert(r.right == n.right);
        } else {
            assert forall|v: i64| #[trigger] contents(r.right).contains(v) implies v >= n.value by {
                if v != value {
                    assert(contents(n.right).contains(v));
                }
            }
            assert(r.left == n.left);
        }
    }
}

/// Adds `value` below `node` (see `inserted`).
fn insert_into(node: &mut Option<Box<Node>>, value: i64)
    ensures
        *final(node) == inserted(*old(node), value),
    decreases *old(node),
{
    match node.take() {
        None => {
            *node = Some(Box::new(Node { left: None, right: None, value }));
        },
        Some(mut n) => {
            if n.value > value {
                insert_into(&mut n.left, value);
            } else {
                insert_into(&mut n.right, value);
            }
            *node = Some(n);
        },
    }
}

impl Tree {
    /// The values held.
    pub open spec fn values(&self) -> Multiset<i64> {
        contents(self.head)
    }

    /// An empty tree.
    pub fn new() -> (t: Self)
        ensures
            t.head is None,
            t.values() =~= Multiset::empty(),
            ordered(t.head),
    {
        Tree { head: None }
    }

    /// Adds `value` where the walk from the root ends: left past larger
    /// values, right past others.
    pub fn add(&mut self, value: i64)
        ensures
            final(self).head == inserted(old(self).head, value),
            final(self).values() =~= old(self).values().insert(value),
            ordered(old(self).head) ==> ordered(final(self).head),
    {
        insert_into(&mut self.head, value);
        proof {
            lemma_inserted_contents(old(self).head, value);
            if ordered(old(self).head) {
                lemma_inserted_ordered(old(self).head, value);
            }
        }
    }
}

} // verus!
