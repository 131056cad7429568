use vstd::arithmetic::power2::{lemma2_to64, lemma_pow2_strictly_increases, lemma_pow2_unfold, pow2};
use vstd::prelude::*;

use crate::error::BSTError;
use crate::sorted::sorted_listing;

verus! {

/// A node of the tree: a value and the two subtrees that it owns.
pub struct Node {
    pub value: i32,
    pub left: Option<Box<Node>>,
    pub right: Option<Box<Node>>,
}

/// The values held in a subtree that may be absent.
pub open spec fn contents_of(t: Option<Box<Node>>) -> Set<i32>
    decreases t,
{
    match t {
        None => Set::empty(),
        Some(n) => n.contents(),
    }
}

/// The values of a subtree that may be absent, left subtree first, then the
/// node, then the right subtree.
pub open spec fn in_order_of(t: Option<Box<Node>>) -> Seq<i32>
    decreases t,
{
    match t {
        None => Seq::empty(),
        Some(n) => n.in_order(),
    }
}

/// The values of a subtree that may be absent, node first, then the left
/// subtree, then the right one.
pub open spec fn pre_order_of(t: Option<Box<Node>>) -> Seq<i32>
    decreases t,
{
    match t {
        None => Seq::empty(),
        Some(n) => n.pre_order(),
    }
}

/// The values of a subtree that may be absent, left subtree first, then the
/// right one, then the node.
pub open spec fn post_order_of(t: Option<Box<Node>>) -> Seq<i32>
    decreases t,
{
    match t {
        None => Seq::empty(),
        Some(n) => n.post_order(),
    }
}

/// The height of a subtree that may be absent: 0 when it is absent.
pub open spec fn height_of(t: Option<Box<Node>>) -> nat
    decreases t,
{
    match t {
        None => 0,
        Some(n) => n.height_spec(),
    }
}

/// The ordering invariant of a subtree that may be absent.
pub open spec fn wf_of(t: Option<Box<Node>>) -> bool
    decreases t,
{
    match t {
        None => true,
        Some(n) => n.wf(),
    }
}

/// The value reached from `n` by following left children until there is
/// none: the least value of an ordered subtree.
pub open spec fn min_of(n: Node) -> i32
    decreases n,
{
    match n.left {
        None => n.value,
        Some(l) => min_of(*l),
    }
}

/// The value reached from `n` by following right children until there is
/// none: the greatest value of an ordered subtree.
pub open spec fn max_of(n: Node) -> i32
    decreases n,
{
    match n.right {
        None => n.value,
        Some(r) => max_of(*r),
    }
}

/// The subtree `t` after inserting `v`: the search for `v` descends left
/// when `v` is less than a node's value and right when it is greater, and a
/// new leaf holding `v` fills the absent slot where it ends. A subtree that
/// already holds `v` on that path is returned as it is.
pub open spec fn insert_of(t: Option<Box<Node>>, v: i32) -> Option<Box<Node>>
    decreases t,
{
    match t {
        None => Some(Box::new(Node { value: v, left: None, right: None })),
        Some(n) => if v < n.value {
            Some(Box::new(Node { value: n.value, left: insert_of(n.left, v), right: n.right }))
        } else if v > n.value {
            Some(Box::new(Node { value: n.value, left: n.left, right: insert_of(n.right, v) }))
        } else {
            Some(n)
        },
    }
}

/// The subtree that takes the place of `n` after deleting `v`. The search
/// descends as for insertion and rebuilds each node it passes with the new
/// child. The node that holds `v` gives way to its right child when it has
/// no left one, else to its left child when it has no right one; with two
/// children it takes the least value of its right subtree, which is then
/// deleted from there. Where the search runs off the tree, `n` is returned
/// as it is.
pub open spec fn delete_of(n: Node, v: i32) -> Option<Box<Node>>
    decreases n,
{
    if v < n.value {
        match n.left {
            None => Some(Box::new(n)),
            Some(l) => Some(Box::new(Node { value: n.value, left: delete_of(*l, v), right: n.right })),
        }
    } else if v > n.value {
        match n.right {
            None => Some(Box::new(n)),
            Some(r) => Some(Box::new(Node { value: n.value, left: n.left, right: delete_of(*r, v) })),
        }
    } else {
        match n.left {
            None => n.right,
            Some(_) => match n.right {
                None => n.left,
                Some(r) => Some(
                    Box::new(Node { value: min_of(*r), left: n.left, right: delete_of(*r, min_of(*r)) }),
                ),
            },
        }
    }
}

/// `delete_of` for a subtree that may be absent.
pub open spec fn delete_from(t: Option<Box<Node>>, v: i32) -> Option<Box<Node>> {
    match t {
        None => None,
        Some(n) => delete_of(*n, v),
    }
}

impl Node {
    /// The values held in the subtree rooted here.
    pub open spec fn contents(self) -> Set<i32>
        decreases self,
    {
        contents_of(self.left).union(contents_of(self.right)).insert(self.value)
    }

    /// Left subtree, this node, right subtree.
    pub open spec fn in_order(self) -> Seq<i32>
        decreases self,
    {
        in_order_of(self.left) + seq![self.value] + in_order_of(self.right)
    }

    /// This node, left subtree, right subtree.
    pub open spec fn pre_order(self) -> Seq<i32>
        decreases self,
    {
        seq![self.value] + pre_order_of(self.left) + pre_order_of(self.right)
    }

    /// Left subtree, right subtree, this node.
    pub open spec fn post_order(self) -> Seq<i32>
        decreases self,
    {
        post_order_of(self.left) + post_order_of(self.right) + seq![self.value]
    }

    /// One more than the height of the higher subtree.
    pub open spec fn height_spec(self) -> nat
        decreases self,
    {
        let l = height_of(self.left);
        let r = height_of(self.right);
        1 + if l >= r { l } else { r }
    }

    /// Every value of the left subtree is less than the node's value, every
    /// value of the right subtree greater, and both subtrees are ordered in
    /// the same way.
    pub open spec fn wf(self) -> bool
        decreases self,
    {
        &&& forall|x: i32| contents_of(self.left).contains(x) ==> x < self.value
        &&& forall|x: i32| contents_of(self.right).contains(x) ==> x > self.value
        &&& wf_of(self.left)
        &&& wf_of(self.right)
    }

    /// A subtree is no higher than the number of its nodes.
    pub proof fn lemma_height_at_most_count(self)
        ensures
            self.height_spec() <= self.in_order().len(),
            height_of(self.left) < self.in_order().len(),
            height_of(self.right) < self.in_order().len(),
        decreases self,
    {
        if let Some(l) = self.left {
            l.lemma_height_at_most_count();
        }
        if let Some(r) = self.right {
            r.lemma_height_at_most_count();
        }
    }

    /// A subtree of height `h` has fewer than `2^h` nodes.
    pub proof fn lemma_count_below_pow2(self)
        ensures
            self.in_order().len() + 1 <= pow2(self.height_spec()),
        decreases self,
    {
        lemma_count_below_pow2_of(self.left);
        lemma_count_below_pow2_of(self.right);
        let h = self.height_spec();
        let hl = height_of(self.left);
        let hr = height_of(self.right);
        lemma_pow2_unfold(h);
        if hl < (h - 1) as nat {
            lemma_pow2_strictly_increases(hl, (h - 1) as nat);
        }
        if hr < (h - 1) as nat {
            lemma_pow2_strictly_increases(hr, (h - 1) as nat);
        }
    }

    /// The in-order listing holds the same values as the subtree.
    pub proof fn lemma_in_order_contents(self)
        ensures
            forall|x: i32| self.in_order().contains(x) <==> self.contents().contains(x),
        decreases self,
    {
        lemma_in_order_contents_of(self.left);
        lemma_in_order_contents_of(self.right);
        let l = in_order_of(self.left);
        let r = in_order_of(self.right);
        let s = self.in_order();
        assert forall|x: i32| s.contains(x) <==> self.contents().contains(x) by {
            if s.contains(x) {
                let i = choose|i: int| 0 <= i < s.len() && s[i] == x;
                if i < l.len() {
                    assert(l.contains(x));
                } else if i > l.len() {
                    assert(r[i - l.len() - 1] == x);
                    assert(r.contains(x));
                }
            }
            if self.contents().contains(x) {
                if l.contains(x) {
                    let i = choose|i: int| 0 <= i < l.len() && l[i] == x;
                    assert(s[i] == x);
                } else if r.contains(x) {
                    let i = choose|i: int| 0 <= i < r.len() && r[i] == x;
                    assert(s[l.len() + 1 + i] == x);
                } else {
                    assert(s[l.len() as int] == x);
                }
            }
        }
    }

    /// An ordered subtree lists its values in strictly ascending order.
    pub proof fn lemma_in_order_sorted(self)
        requires
            self.wf(),
        ensures
            sorted_listing(self.in_order(), self.contents()),
        decreases self,
    {
        lemma_in_order_sorted_of(self.left);
        lemma_in_order_sorted_of(self.right);
        self.lemma_in_order_contents();
        let l = in_order_of(self.left);
        let r = in_order_of(self.right);
        let s = self.in_order();
        assert forall|i: int, j: int| 0 <= i < j < s.len() implies s[i] < s[j] by {
            if i < l.len() {
                assert(l.contains(l[i]));
            }
            if j > l.len() {
                assert(r.contains(r[j - l.len() - 1]));
            }
        }
    }
}

/// `lemma_count_below_pow2` for a subtree that may be absent.
pub proof fn lemma_count_below_pow2_of(t: Option<Box<Node>>)
    ensures
        in_order_of(t).len() + 1 <= pow2(height_of(t)),
    decreases t,
{
    match t {
        Some(n) => n.lemma_count_below_pow2(),
        None => lemma2_to64(),
    }
}

/// Inserting into a subtree raises its height by at most one and never
/// lowers it.
pub proof fn lemma_insert_height(t: Option<Box<Node>>, v: i32)
    ensures
        height_of(t) <= height_of(insert_of(t, v)) <= height_of(t) + 1,
    decreases t,
{
    if let Some(n) = t {
        lemma_insert_height(n.left, v);
        lemma_insert_height(n.right, v);
    }
}

/// Deleting from a subtree never raises its height.
pub proof fn lemma_delete_height(n: Node, v: i32)
    ensures
        height_of(delete_of(n, v)) <= n.height_spec(),
    decreases n,
{
    if let Some(l) = n.left {
        lemma_delete_height(*l, v);
    }
    if let Some(r) = n.right {
        lemma_delete_height(*r, v);
        lemma_delete_height(*r, min_of(*r));
    }
}

/// `lemma_in_order_contents` for a subtree that may be absent.
pub proof fn lemma_in_order_contents_of(t: Option<Box<Node>>)
    ensures
        forall|x: i32| in_order_of(t).contains(x) <==> contents_of(t).contains(x),
    decreases t,
{
    match t {
        Some(n) => {
            n.lemma_in_order_contents();
            assert(in_order_of(t) == n.in_order());
            assert(contents_of(t) == n.contents());
        },
        None => assert(in_order_of(t) =~= Seq::<i32>::empty()),
    }
}

/// `lemma_in_order_sorted` for a subtree that may be absent.
pub proof fn lemma_in_order_sorted_of(t: Option<Box<Node>>)
    requires
        wf_of(t),
    ensures
        sorted_listing(in_order_of(t), contents_of(t)),
    decreases t,
{
    if let Some(n) = t {
        n.lemma_in_order_sorted();
    }
}

impl Node {
    /// A leaf that holds `value`.
    pub fn new(value: i32) -> (r: Node)
        ensures
            r.value == value,
            r.left is None,
            r.right is None,
            r.wf(),
            r.contents() == set![value],
    {
        let r = Node { value, left: None, right: None };
        proof {
            assert(r.contents() =~= set![value]);
        }
        r
    }

    /// Adds `value` as a new leaf where the search for it ends. Fails with
    /// `DuplicateValue`, and changes nothing, when the subtree holds it.
    pub fn insert(&mut self, value: i32) -> (r: Result<(), BSTError>)
        requires
            old(self).wf(),
        ensures
            final(self).wf(),
            r is Ok <==> !old(self).contents().contains(value),
            r is Ok ==> final(self).contents() == old(self).contents().insert(value),
            r is Err ==> r == Err::<(), BSTError>(BSTError::DuplicateValue) && *final(self)
                == *old(self),
            Some(Box::new(*final(self))) == insert_of(Some(Box::new(*old(self))), value),
        decreases *old(self),
    {
        if value < self.value {
            match self.left.take() {
                Some(mut left) => {
                    let r = left.insert(value);
                    self.left = Some(left);
                    proof {
                        assert(self.left == insert_of(old(self).left, value));
                        assert(contents_of(self.left) == left.contents());
                        assert(wf_of(self.left) == left.wf());
                        assert forall|x: i32| contents_of(self.left).contains(x) implies x < self.value by {
                            if x != value {
                                assert(contents_of(old(self).left).contains(x));
                            }
                        }
                        assert(!contents_of(self.right).contains(value));
                        assert(self.contents() =~= old(self).contents().insert(value)) by {
                            if r is Ok {
                                assert(contents_of(self.left) == contents_of(
                                    old(self).left,
                                ).insert(value));
                            }
                        }
                    }
                    r
                },
                None => {
                    self.left = Some(Box::new(Node::new(value)));
                    proof {
                        assert(!contents_of(self.right).contains(value));
                        assert(self.contents() =~= old(self).contents().insert(value));
                    }
                    Ok(())
                },
            }
        } else if value > self.value {
            match self.right.take() {
                Some(mut right) => {
                    let r = right.insert(value);
                    self.right = Some(right);
                    proof {
                        assert(self.right == insert_of(old(self).right, value));
                        assert(contents_of(self.right) == right.contents());
                        assert(wf_of(self.right) == right.wf());
                        assert forall|x: i32| contents_of(self.right).contains(x) implies x > self.value by {
                            if x != value {
                                assert(contents_of(old(self).right).contains(x));
                            }
                        }
                        assert(!contents_of(self.left).contains(value));
                        assert(self.contents() =~= old(self).contents().insert(value)) by {
                            if r is Ok {
                                assert(contents_of(self.right) == contents_of(
                                    old(self).right,
                                ).insert(value));
                            }
                        }
                    }
                    r
                },
                None => {
                    self.right = Some(Box::new(Node::new(value)));
                    proof {
                        assert(!contents_of(self.left).contains(value));
                        assert(self.contents() =~= old(self).contents().insert(value));
                    }
                    Ok(())
                },
            }
        } else {
            Err(BSTError::DuplicateValue)
        }
    }

    /// Whether the subtree holds `value`, found by descending from this node.
    pub fn search(&self, value: i32) -> (r: bool)
        requires
            self.wf(),
        ensures
            r == self.contents().contains(value),
        decreases self,
    {
        if value < self.value {
            proof {
                assert(!contents_of(self.right).contains(value));
            }
            match &self.left {
                Some(left) => left.search(value),
                None => false,
            }
        } else if value > self.value {
            proof {
                assert(!contents_of(self.left).contains(value));
            }
            match &self.right {
                Some(right) => right.search(value),
                None => false,
            }
        } else {
            true
        }
    }

    /// The value reached by following left children as far as they go: the
    /// least value of the subtree.
    pub fn find_min(&self) -> (r: &i32)
        requires
            self.wf(),
        ensures
            *r == min_of(*self),
            self.contents().contains(*r),
            forall|x: i32| self.contents().contains(x) ==> *r <= x,
        decreases self,
    {
        match &self.left {
            Some(left) => {
                let r = left.find_min();
                proof {
                    assert(contents_of(self.left) == left.contents());
                    assert forall|x: i32| self.contents().contains(x) implies *r <= x by {
                        if contents_of(self.right).contains(x) {
                        }
                    }
                }
                r
            },
            None => {
                proof {
                    assert forall|x: i32| self.contents().contains(x) implies self.value <= x by {
                        if contents_of(self.right).contains(x) {
                        }
                    }
                }
                &self.value
            },
        }
    }

    /// The value reached by following right children as far as they go: the
    /// greatest value of the subtree.
    pub fn find_max(&self) -> (r: &i32)
        requires
            self.wf(),
        ensures
            *r == max_of(*self),
            self.contents().contains(*r),
            forall|x: i32| self.contents().contains(x) ==> x <= *r,
        decreases self,
    {
        match &self.right {
            Some(right) => {
                let r = right.find_max();
                proof {
                    assert(contents_of(self.right) == right.contents());
                    assert forall|x: i32| self.contents().contains(x) implies x <= *r by {
                        if contents_of(self.left).contains(x) {
                        }
                    }
                }
                r
            },
            None => {
                proof {
                    assert forall|x: i32| self.contents().contains(x) implies x <= self.value by {
                        if contents_of(self.left).contains(x) {
                        }
                    }
                }
                &self.value
            },
        }
    }
    /// Removes `value` from the subtree rooted here and hands back the
    /// subtree that takes this node's place; this node is left without
    /// children. A node with one child or none gives way to that child; a node
    /// with two children takes the least value of its right subtree, which is
    /// then removed from there. Fails with `ValueNotFound`, and changes
    /// nothing, when the subtree does not hold `value`.
    pub fn delete(&mut self, value: i32) -> (r: Result<Option<Box<Node>>, BSTError>)
        requires
            old(self).wf(),
        ensures
            r is Ok <==> old(self).contents().contains(value),
            r matches Ok(t) ==> {
                &&& t == delete_of(*old(self), value)
                &&& wf_of(t)
                &&& contents_of(t) == old(self).contents().remove(value)
                &&& final(self).left is None
                &&& final(self).right is None
            },
            r is Err ==> r == Err::<Option<Box<Node>>, BSTError>(BSTError::ValueNotFound)
                && *final(self) == *old(self),
        decreases *old(self),
    {
        proof {
            assert(contents_of(None::<Box<Node>>) =~= Set::<i32>::empty());
        }
        if value < self.value {
            proof {
                assert(!contents_of(self.right).contains(value));
            }
            match self.left.take() {
                Some(mut left) => {
                    match left.delete(value) {
                        Ok(t) => {
                            self.left = t;
                            proof {
                                assert(contents_of(old(self).left).contains(value));
                                assert(contents_of(self.left) == contents_of(
                                    old(self).left,
                                ).remove(value));
                            }
                        },
                        Err(e) => {
                            self.left = Some(left);
                            return Err(e);
                        },
                    }
                },
                None => {
                    return Err(BSTError::ValueNotFound);
                },
            }
        } else if value > self.value {
            proof {
                assert(!contents_of(self.left).contains(value));
            }
            match self.right.take() {
                Some(mut right) => {
                    match right.delete(value) {
                        Ok(t) => {
                            self.right = t;
                            proof {
                                assert(contents_of(old(self).right).contains(value));
                                assert(contents_of(self.right) == contents_of(
                                    old(self).right,
                                ).remove(value));
                            }
                        },
                        Err(e) => {
                            self.right = Some(right);
                            return Err(e);
                        },
                    }
                },
                None => {
                    return Err(BSTError::ValueNotFound);
                },
            }
        } else {
            if self.left.is_none() {
                let t = self.right.take();
                return Ok(t);
            } else if self.right.is_none() {
                let t = self.left.take();
                return Ok(t);
            } else {
                let mut right = self.right.take().unwrap();
                let min_value = *right.find_min();
                self.value = min_value;
                proof {
                    assert(contents_of(old(self).right) == right.contents());
                    assert(!contents_of(self.left).contains(value));
                    assert(!right.contents().contains(value));
                }
                match right.delete(min_value) {
                    Ok(t) => {
                        self.right = t;
                        proof {
                            assert(contents_of(self.right) == contents_of(
                                old(self).right,
                            ).remove(min_value));
                            assert forall|x: i32| contents_of(self.left).contains(x) implies x
                                < min_value by {
                                assert(x < value);
                                assert(value < min_value);
                            }
                        }
                    },
                    Err(e) => {
                        self.right = Some(right);
                        return Err(e);
                    },
                }
            }
        }
        let left = self.left.take();
        let right = self.right.take();
        let n = Node { value: self.value, left, right };
        proof {
            assert(n.contents() =~= old(self).contents().remove(value));
        }
        Ok(Some(Box::new(n)))
    }
    /// Appends the subtree's values to `result`: left subtree, this node,
    /// right subtree.
    pub fn in_order_traversal(&self, result: &mut Vec<i32>)
        ensures
            final(result)@ == old(result)@ + self.in_order(),
        decreases self,
    {
        if let Some(left) = &self.left {
            left.in_order_traversal(result);
        }
        result.push(self.value);
        if let Some(right) = &self.right {
            right.in_order_traversal(result);
        }
        proof {
            assert(in_order_of(None::<Box<Node>>) =~= Seq::<i32>::empty());
            assert(final(result)@ =~= old(result)@ + self.in_order());
        }
    }

    /// Appends the subtree's values to `result`: this node, left subtree,
    /// right subtree.
    pub fn pre_order_traversal(&self, result: &mut Vec<i32>)
        ensures
            final(result)@ == old(result)@ + self.pre_order(),
        decreases self,
    {
        result.push(self.value);
        if let Some(left) = &self.left {
            left.pre_order_traversal(result);
        }
        if let Some(right) = &self.right {
            right.pre_order_traversal(result);
        }
        proof {
            assert(pre_order_of(None::<Box<Node>>) =~= Seq::<i32>::empty());
            assert(final(result)@ =~= old(result)@ + self.pre_order());
        }
    }

    /// Appends the subtree's values to `result`: left subtree, right subtree,
    /// this node.
    pub fn post_order_traversal(&self, result: &mut Vec<i32>)
        ensures
            final(result)@ == old(result)@ + self.post_order(),
        decreases self,
    {
        if let Some(left) = &self.left {
            left.post_order_traversal(result);
        }
        if let Some(right) = &self.right {
            right.post_order_traversal(result);
        }
        result.push(self.value);
        proof {
            assert(post_order_of(None::<Box<Node>>) =~= Seq::<i32>::empty());
            assert(final(result)@ =~= old(result)@ + self.post_order());
        }
    }

    /// The number of nodes of the subtree.
    pub fn count_nodes(&self) -> (r: usize)
        requires
            self.in_order().len() <= usize::MAX,
        ensures
            r == self.in_order().len(),
        decreases self,
    {
        let mut count: usize = 1;
        if let Some(left) = &self.left {
            count += left.count_nodes();
        }
        if let Some(right) = &self.right {
            count += right.count_nodes();
        }
        proof {
            assert(in_order_of(None::<Box<Node>>) =~= Seq::<i32>::empty());
        }
        count
    }

    /// Whether the heights of the two subtrees of this node differ by at most
    /// one. Only this node is looked at: the subtrees themselves may be
    /// lopsided.
    pub fn is_balanced(&self) -> (r: bool)
        requires
            self.in_order().len() <= usize::MAX,
        ensures
            r == (height_of(self.left) <= height_of(self.right) + 1 && height_of(self.right)
                <= height_of(self.left) + 1),
    {
        let left_height: usize = match &self.left {
            Some(left) => left.height(),
            None => 0,
        };
        let right_height: usize = match &self.right {
            Some(right) => right.height(),
            None => 0,
        };
        if left_height >= right_height {
            left_height - right_height <= 1
        } else {
            right_height - left_height <= 1
        }
    }

    /// The number of nodes on the longest path down from this node.
    pub fn height(&self) -> (r: usize)
        requires
            self.in_order().len() <= usize::MAX,
        ensures
            r == self.height_spec(),
        decreases self,
    {
        proof {
            self.lemma_height_at_most_count();
        }
        let left_height: usize = match &self.left {
            Some(left) => left.height(),
            None => 0,
        };
        let right_height: usize = match &self.right {
            Some(right) => right.height(),
            None => 0,
        };
        if left_height >= right_height {
            1 + left_height
        } else {
            1 + right_height
        }
    }
}

} // verus!
