use vstd::arithmetic::power2::pow2;
use vstd::prelude::*;

use crate::error::BSTError;
use crate::node::{
    contents_of, delete_from, height_of, in_order_of, insert_of, lemma_count_below_pow2_of,
    lemma_delete_height, lemma_in_order_sorted_of, lemma_insert_height, max_of, min_of,
    post_order_of, pre_order_of, wf_of, Node,
};
use crate::sorted::{lemma_listing_len, lemma_listing_remove, sorted_listing};

verus! {

/// An ordered set of `i32` values held in a binary search tree. The empty
/// tree has no root.
pub struct BinarySearchTree {
    root: Option<Box<Node>>,
}

impl View for BinarySearchTree {
    type V = Set<i32>;

    /// The values that the tree holds.
    open spec fn view(&self) -> Set<i32> {
        contents_of(self.root_spec())
    }
}

impl BinarySearchTree {
    /// The root node; absent for the empty tree.
    pub closed spec fn root_spec(self) -> Option<Box<Node>> {
        self.root
    }

    /// The ordering invariant holds at every node.
    pub open spec fn wf(self) -> bool {
        wf_of(self.root_spec())
    }

    /// The values in order: left subtree, node, right subtree.
    pub open spec fn in_order_spec(self) -> Seq<i32> {
        in_order_of(self.root_spec())
    }

    /// The values in order: node, left subtree, right subtree.
    pub open spec fn pre_order_spec(self) -> Seq<i32> {
        pre_order_of(self.root_spec())
    }

    /// The values in order: left subtree, right subtree, node.
    pub open spec fn post_order_spec(self) -> Seq<i32> {
        post_order_of(self.root_spec())
    }

    /// The number of nodes on the longest path down from the root; 0 for the
    /// empty tree.
    pub open spec fn height_spec(self) -> nat {
        height_of(self.root_spec())
    }

    /// True for the empty tree; otherwise the heights of the root's two
    /// subtrees differ by at most one.
    pub open spec fn balanced_spec(self) -> bool {
        match self.root_spec() {
            None => true,
            Some(n) => height_of(n.left) <= height_of(n.right) + 1 && height_of(n.right)
                <= height_of(n.left) + 1,
        }
    }

    /// An empty tree.
    pub fn new() -> (r: BinarySearchTree)
        ensures
            r.root_spec() is None,
            r.wf(),
            r@ == Set::<i32>::empty(),
            r.in_order_spec() == Seq::<i32>::empty(),
            r.pre_order_spec() == Seq::<i32>::empty(),
            r.post_order_spec() == Seq::<i32>::empty(),
            r.height_spec() == 0,
            r.balanced_spec(),
    {
        BinarySearchTree { root: None }
    }

    /// Adds `value`. Fails with `DuplicateValue`, and changes nothing, when the
    /// tree already holds it.
    pub fn insert(&mut self, value: i32) -> (r: Result<(), BSTError>)
        requires
            old(self).wf(),
        ensures
            final(self).wf(),
            r is Ok <==> !old(self)@.contains(value),
            r is Ok ==> final(self)@ == old(self)@.insert(value),
            r is Ok ==> exists|i: int|
                0 <= i < final(self).in_order_spec().len() && final(self).in_order_spec()[i]
                    == value && old(self).in_order_spec() == final(self).in_order_spec().remove(i),
            r is Err ==> r == Err::<(), BSTError>(BSTError::DuplicateValue) && *final(self)
                == *old(self),
            final(self).root_spec() == insert_of(old(self).root_spec(), value),
    {
        match self.root.take() {
            Some(mut root) => {
                let r = root.insert(value);
                self.root = Some(root);
                if r.is_err() {
                    return r;
                }
            },
            None => {
                self.root = Some(Box::new(Node::new(value)));
                proof {
                    assert(old(self)@ =~= Set::<i32>::empty());
                }
            },
        }
        proof {
            lemma_in_order_sorted_of(old(self).root);
            lemma_in_order_sorted_of(self.root);
            assert(self@.remove(value) =~= old(self)@);
            lemma_listing_remove(self.in_order_spec(), self@, old(self).in_order_spec(), value);
        }
        Ok(())
    }

    /// Whether the tree holds `value`.
    pub fn search(&self, value: i32) -> (r: bool)
        requires
            self.wf(),
        ensures
            r == self@.contains(value),
    {
        match &self.root {
            Some(root) => root.search(value),
            None => false,
        }
    }

    /// Removes `value`. Fails with `ValueNotFound`, and changes nothing, when
    /// the tree does not hold it. On success the in-order listing loses
    /// exactly the position that held `value`.
    pub fn delete(&mut self, value: i32) -> (r: Result<(), BSTError>)
        requires
            old(self).wf(),
        ensures
            final(self).wf(),
            r is Ok <==> old(self)@.contains(value),
            r is Ok ==> final(self)@ == old(self)@.remove(value),
            r is Ok ==> exists|i: int|
                0 <= i < old(self).in_order_spec().len() && old(self).in_order_spec()[i] == value
                    && final(self).in_order_spec() == old(self).in_order_spec().remove(i),
            r is Err ==> r == Err::<(), BSTError>(BSTError::ValueNotFound) && *final(self)
                == *old(self),
            r is Ok ==> final(self).root_spec() == delete_from(old(self).root_spec(), value),
    {
        match self.root.take() {
            Some(mut root) => {
                match root.delete(value) {
                    Ok(t) => {
                        self.root = t;
                        proof {
                            lemma_in_order_sorted_of(old(self).root);
                            lemma_in_order_sorted_of(self.root);
                            lemma_listing_remove(
                                old(self).in_order_spec(),
                                old(self)@,
                                self.in_order_spec(),
                                value,
                            );
                        }
                        Ok(())
                    },
                    Err(e) => {
                        self.root = Some(root);
                        Err(e)
                    },
                }
            },
            None => Err(BSTError::ValueNotFound),
        }
    }

    /// The least value of the tree, reached by following left children from
    /// the root; `None` for the empty tree.
    pub fn find_min(&self) -> (r: Option<&i32>)
        requires
            self.wf(),
        ensures
            r is None <==> self.root_spec() is None,
            r is None <==> self@ == Set::<i32>::empty(),
            r matches Some(m) ==> *m == min_of(*self.root_spec().unwrap()),
            r matches Some(m) ==> self@.contains(*m) && forall|x: i32| self@.contains(x) ==> *m
                <= x,
    {
        match &self.root {
            Some(root) => Some(root.find_min()),
            None => None,
        }
    }

    /// The greatest value of the tree, reached by following right children
    /// from the root; `None` for the empty tree.
    pub fn find_max(&self) -> (r: Option<&i32>)
        requires
            self.wf(),
        ensures
            r is None <==> self.root_spec() is None,
            r is None <==> self@ == Set::<i32>::empty(),
            r matches Some(m) ==> *m == max_of(*self.root_spec().unwrap()),
            r matches Some(m) ==> self@.contains(*m) && forall|x: i32| self@.contains(x) ==> x
                <= *m,
    {
        match &self.root {
            Some(root) => Some(root.find_max()),
            None => None,
        }
    }

    /// The values in ascending order.
    pub fn in_order_traversal(&self) -> (r: Vec<i32>)
        requires
            self.wf(),
        ensures
            r@ == self.in_order_spec(),
            sorted_listing(r@, self@),
    {
        let mut result: Vec<i32> = Vec::new();
        if let Some(root) = &self.root {
            root.in_order_traversal(&mut result);
        }
        proof {
            lemma_in_order_sorted_of(self.root);
            assert(result@ =~= self.in_order_spec());
        }
        result
    }

    /// The values with each node before its left and then its right subtree.
    pub fn pre_order_traversal(&self) -> (r: Vec<i32>)
        ensures
            r@ == self.pre_order_spec(),
    {
        let mut result: Vec<i32> = Vec::new();
        if let Some(root) = &self.root {
            root.pre_order_traversal(&mut result);
        }
        proof {
            assert(result@ =~= self.pre_order_spec());
        }
        result
    }

    /// The values with each node after its left and then its right subtree.
    pub fn post_order_traversal(&self) -> (r: Vec<i32>)
        ensures
            r@ == self.post_order_spec(),
    {
        let mut result: Vec<i32> = Vec::new();
        if let Some(root) = &self.root {
            root.post_order_traversal(&mut result);
        }
        proof {
            assert(result@ =~= self.post_order_spec());
        }
        result
    }

    /// The number of values in the tree.
    pub fn count_nodes(&self) -> (r: usize)
        requires
            self.wf(),
            self@.len() <= usize::MAX,
        ensures
            r == self@.len(),
            r == self.in_order_spec().len(),
    {
        proof {
            lemma_in_order_sorted_of(self.root);
            lemma_listing_len(self.in_order_spec(), self@);
        }
        match &self.root {
            Some(root) => root.count_nodes(),
            None => 0,
        }
    }

    /// Whether the heights of the root's two subtrees differ by at most one;
    /// true for the empty tree.
    pub fn is_balanced(&self) -> (r: bool)
        requires
            self.wf(),
            self@.len() <= usize::MAX,
        ensures
            r == self.balanced_spec(),
    {
        proof {
            lemma_in_order_sorted_of(self.root);
            lemma_listing_len(self.in_order_spec(), self@);
        }
        match &self.root {
            Some(root) => root.is_balanced(),
            None => true,
        }
    }

    /// The number of nodes on the longest path down from the root; 0 for the
    /// empty tree.
    pub fn height(&self) -> (r: usize)
        requires
            self.wf(),
            self@.len() <= usize::MAX,
        ensures
            r == self.height_spec(),
    {
        proof {
            lemma_in_order_sorted_of(self.root);
            lemma_listing_len(self.in_order_spec(), self@);
        }
        match &self.root {
            Some(root) => root.height(),
            None => 0,
        }
    }
}

/// In-order traversal lists exactly the values that the tree holds, in
/// strictly ascending order. With the contracts of `insert` and `delete`,
/// after any run of successful operations it lists the values inserted and
/// not since deleted, sorted.
pub proof fn lemma_in_order_is_sorted_contents(t: BinarySearchTree)
    requires
        t.wf(),
    ensures
        sorted_listing(t.in_order_spec(), t@),
{
    lemma_in_order_sorted_of(t.root);
}

/// The node count is the length of the in-order listing, and a tree of
/// height `h` has fewer than `2^h` nodes: its height is at least
/// `log2(count + 1)`, rounded up.
pub proof fn lemma_height_bounds_count(t: BinarySearchTree)
    requires
        t.wf(),
    ensures
        t.in_order_spec().len() == t@.len(),
        t@.len() + 1 <= pow2(t.height_spec()),
{
    lemma_in_order_sorted_of(t.root);
    lemma_listing_len(t.in_order_spec(), t@);
    lemma_count_below_pow2_of(t.root);
}

/// A successful insert adds one leaf, so the height grows by at most one;
/// a successful delete never makes the tree higher.
pub proof fn lemma_update_heights(t: BinarySearchTree, v: i32)
    ensures
        height_of(insert_of(t.root_spec(), v)) <= t.height_spec() + 1,
        height_of(insert_of(t.root_spec(), v)) >= t.height_spec(),
        height_of(delete_from(t.root_spec(), v)) <= t.height_spec(),
{
    lemma_insert_height(t.root_spec(), v);
    if let Some(n) = t.root_spec() {
        lemma_delete_height(*n, v);
    }
}

} // verus!
