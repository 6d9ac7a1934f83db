//! A red-black tree whose nodes live in an arena and name each other by their
//! place in it. Insertions keep the tree balanced; removals keep it a search tree.

use vstd::prelude::*;

verus! {

/// How one value stands to another.
#[derive(Clone, Copy, Debug, PartialEq, Eq, Structural)]
pub enum Comparison {
    /// The first comes before the second.
    Less,
    /// The two are the same.
    Equal,
    /// The first comes after the second.
    Greater,
}

/// Values in a strict total order.
pub trait Ordered: Sized {
    /// Tells whether `self` comes before `other`.
    spec fn lt(&self, other: &Self) -> bool;

    /// The order is strict, transitive and total.
    proof fn lemma_order(a: &Self, b: &Self, c: &Self)
        ensures
            !a.lt(a),
            a.lt(b) && b.lt(c) ==> a.lt(c),
            a.lt(b) || a == b || b.lt(a),
    ;

    /// Compares `self` to `other`.
    fn compare(&self, other: &Self) -> (c: Comparison)
        ensures
            c == Comparison::Less <==> self.lt(other),
            c == Comparison::Equal <==> self == other,
            c == Comparison::Greater <==> other.lt(self),
    ;
}

impl Ordered for i32 {
    open spec fn lt(&self, other: &Self) -> bool {
        *self < *other
    }

    proof fn lemma_order(a: &Self, b: &Self, c: &Self) {
    }

    fn compare(&self, other: &Self) -> (c: Comparison) {
        if *self < *other {
            Comparison::Less
        } else if *self == *other {
            Comparison::Equal
        } else {
            Comparison::Greater
        }
    }
}

impl Ordered for i64 {
    open spec fn lt(&self, other: &Self) -> bool {
        *self < *other
    }

    proof fn lemma_order(a: &Self, b: &Self, c: &Self) {
    }

    fn compare(&self, other: &Self) -> (c: Comparison) {
        if *self < *other {
            Comparison::Less
        } else if *self == *other {
            Comparison::Equal
        } else {
            Comparison::Greater
        }
    }
}

impl Ordered for u32 {
    open spec fn lt(&self, other: &Self) -> bool {
        *self < *other
    }

    proof fn lemma_order(a: &Self, b: &Self, c: &Self) {
    }

    fn compare(&self, other: &Self) -> (c: Comparison) {
        if *self < *other {
            Comparison::Less
        } else if *self == *other {
            Comparison::Equal
        } else {
            Comparison::Greater
        }
    }
}

impl Ordered for u64 {
    open spec fn lt(&self, other: &Self) -> bool {
        *self < *other
    }

    proof fn lemma_order(a: &Self, b: &Self, c: &Self) {
    }

    fn compare(&self, other: &Self) -> (c: Comparison) {
        if *self < *other {
            Comparison::Less
        } else if *self == *other {
            Comparison::Equal
        } else {
            Comparison::Greater
        }
    }
}

impl Ordered for usize {
    open spec fn lt(&self, other: &Self) -> bool {
        *self < *other
    }

    proof fn lemma_order(a: &Self, b: &Self, c: &Self) {
    }

    fn compare(&self, other: &Self) -> (c: Comparison) {
        if *self < *other {
            Comparison::Less
        } else if *self == *other {
            Comparison::Equal
        } else {
            Comparison::Greater
        }
    }
}

/// Tells whether `a` does not come after `b`.
pub open spec fn le<T: Ordered>(a: &T, b: &T) -> bool {
    a == b || a.lt(b)
}

/// Tells whether the values of `s` are in order.
pub open spec fn sorted<T: Ordered>(s: Seq<T>) -> bool {
    forall|a: int, b: int| 0 <= a <= b < s.len() ==> le(#[trigger] &s[a], #[trigger] &s[b])
}

/// The color of a node.
#[derive(Clone, Copy, Debug, PartialEq, Eq, Structural)]
pub enum NodeColor {
    /// Red.
    Red,
    /// Black.
    Black,
}

/// The order in which a tree is traversed.
#[derive(Clone, Copy, Debug, PartialEq, Eq, Structural)]
pub enum TraversalType {
    /// The value, then the left child, then the right child.
    PreOrder,
    /// The left child, then the value, then the right child.
    InOrder,
    /// The right child, then the value, then the left child.
    ReverseInOrder,
    /// The left child, then the right child, then the value.
    PostOrder,
}

/// A node of a tree. Its relatives are named by their place in the arena.
pub struct BinaryTreeNode<T> {
    /// The parent node.
    pub parent: Option<usize>,
    /// The left child.
    pub left: Option<usize>,
    /// The right child.
    pub right: Option<usize>,
    /// The color of the node.
    pub color: NodeColor,
    /// The value that the node holds.
    pub value: T,
}

/// Where a node stands in the order of the tree.
pub struct Place {
    /// The rank of the node: how many nodes come before it.
    pub pos: int,
    /// The rank of the first node of the subtree of the node.
    pub lo: int,
    /// The rank of the last node of the subtree of the node.
    pub hi: int,
}

/// A binary search tree. Equal values may be held several times. A node
/// keeps its place in the arena, and its value, until it is removed.
pub struct BinaryTree<T> {
    /// The arena of nodes; a free place is empty.
    pub nodes: Vec<Option<BinaryTreeNode<T>>>,
    /// The root node.
    pub root: Option<usize>,
    /// The free places of the arena.
    pub free: Vec<usize>,
    /// The nodes in the order of their values.
    pub order: Ghost<Seq<usize>>,
    /// The place of each node in that order.
    pub places: Ghost<spec_fn(usize) -> Place>,
    /// The black height of each node, as far as the tree is balanced.
    pub heights: Ghost<spec_fn(usize) -> nat>,
    /// The places of the nodes that were unlinked: they stay in the arena,
    /// outside the tree under the root.
    pub detached: Ghost<Set<usize>>,
}

impl<T> BinaryTreeNode<T> {
    /// Tells whether the node is red.
    pub fn is_red(&self) -> (b: bool)
        ensures
            b == (self.color == NodeColor::Red),
    {
        self.color == NodeColor::Red
    }

    /// Tells whether the node is black.
    pub fn is_black(&self) -> (b: bool)
        ensures
            b == (self.color == NodeColor::Black),
    {
        self.color == NodeColor::Black
    }

    /// Returns the parent node.
    pub fn get_parent(&self) -> (p: Option<usize>)
        ensures
            p == self.parent,
    {
        self.parent
    }

    /// Returns the left child.
    pub fn get_left(&self) -> (c: Option<usize>)
        ensures
            c == self.left,
    {
        self.left
    }

    /// Returns the right child.
    pub fn get_right(&self) -> (c: Option<usize>)
        ensures
            c == self.right,
    {
        self.right
    }
}

impl<T: Ordered> BinaryTree<T> {
    /// Tells whether the place `i` of the arena holds a node.
    pub open spec fn occupied(&self, i: int) -> bool {
        0 <= i < self.nodes@.len() && self.nodes@[i] is Some
    }

    /// Tells whether the node at the place `i` was unlinked from the tree.
    pub open spec fn apart(&self, i: int) -> bool {
        0 <= i <= usize::MAX && self.detached@.contains(i as usize)
    }

    /// The node at `i`, which is apart from the tree, has relatives that are
    /// apart too, that name it as it names them, and that are other nodes
    /// than itself and than each other.
    pub open spec fn loose(&self, i: int) -> bool {
        let n = self.node(i);
        &&& n.left matches Some(l) ==> self.apart(l as int) && self.node(l as int).parent == Some(
            i as usize,
        ) && l != i && n.right != Some(l) && n.parent != Some(l)
        &&& n.right matches Some(r) ==> self.apart(r as int) && self.node(r as int).parent == Some(
            i as usize,
        ) && r != i && n.parent != Some(r)
        &&& n.parent matches Some(q) ==> self.apart(q as int) && (self.node(q as int).left == Some(
            i as usize,
        ) || self.node(q as int).right == Some(i as usize)) && q != i
    }

    /// Tells whether the place `i` of the arena holds a node of the tree
    /// under the root.
    pub open spec fn live(&self, i: int) -> bool {
        self.occupied(i) && !self.apart(i)
    }

    /// The node at the place `i`.
    pub open spec fn node(&self, i: int) -> BinaryTreeNode<T>
        recommends
            self.occupied(i),
    {
        self.nodes@[i]->Some_0
    }

    /// The place in the order of the node at `i`.
    pub open spec fn place(&self, i: int) -> Place {
        (self.places@)(i as usize)
    }

    /// The value of the node of rank `p`.
    pub open spec fn value_at(&self, p: int) -> T {
        self.node(self.order@[p] as int).value
    }

    /// The number of nodes in the subtree of the node at `i`.
    pub open spec fn span(&self, i: int) -> int {
        self.place(i).hi - self.place(i).lo + 1
    }

    /// The node at `i` stands in the order where its relatives say:
    /// its left subtree holds the ranks just before its own, its right
    /// subtree the ranks just after, and its parent has it as a child.
    pub open spec fn linked(&self, i: int) -> bool {
        let n = self.node(i);
        let p = self.place(i);
        &&& 0 <= p.lo <= p.pos <= p.hi < self.order@.len()
        &&& self.order@[p.pos] == i
        &&& match n.left {
            Some(l) => self.live(l as int) && self.node(l as int).parent == Some(i as usize)
                && self.place(l as int).lo == p.lo && self.place(l as int).hi == p.pos - 1,
            None => p.lo == p.pos,
        }
        &&& match n.right {
            Some(r) => self.live(r as int) && self.node(r as int).parent == Some(i as usize)
                && self.place(r as int).lo == p.pos + 1 && self.place(r as int).hi == p.hi,
            None => p.hi == p.pos,
        }
        &&& match n.parent {
            Some(q) => self.live(q as int) && (self.node(q as int).left == Some(i as usize)
                || self.node(q as int).right == Some(i as usize)),
            None => self.root == Some(i as usize),
        }
    }

    /// The tree is consistent: the nodes that were not unlinked form one tree
    /// under the root, the order lists each of them once, where its relatives
    /// say, and the values are in order. The nodes that were unlinked are
    /// apart: they stay in the arena, linked among themselves at most.
    pub open spec fn wf(&self) -> bool {
        &&& self.nodes@.len() <= usize::MAX
        &&& self.detached@.finite()
        &&& self.order@.len() + self.free@.len() + self.detached@.len() <= self.nodes@.len()
        &&& forall|i: int| #[trigger] self.apart(i) ==> self.occupied(i)
        &&& forall|i: int| self.apart(i) ==> #[trigger] self.loose(i)
        &&& forall|i: int| self.live(i) ==> #[trigger] self.linked(i)
        &&& forall|j: int|
            0 <= j < self.free@.len() ==> (#[trigger] self.free@[j]) < self.nodes@.len()
                && self.nodes@[self.free@[j] as int] is None
        &&& forall|j: int, k: int|
            0 <= j < k < self.free@.len() ==> (#[trigger] self.free@[j]) != (#[trigger] self.free@[k])
        &&& forall|p: int|
            0 <= p < self.order@.len() ==> self.live(#[trigger] self.order@[p] as int) && self.place(
                self.order@[p] as int,
            ).pos == p
        &&& match self.root {
            Some(r) => self.live(r as int) && self.node(r as int).parent is None && self.place(
                r as int,
            ).lo == 0 && self.place(r as int).hi == self.order@.len() - 1,
            None => self.order@.len() == 0,
        }
        &&& forall|a: int, b: int|
            0 <= a <= b < self.order@.len() ==> le(
                &#[trigger] self.value_at(a),
                &#[trigger] self.value_at(b),
            )
    }

    /// The nodes that are apart from a tree stay as their relatives say
    /// while they are left as they are, also when one of them that has no
    /// relative joins the tree.
    proof fn lemma_parts_loose(pre: &Self, post: &Self, gone: Option<int>)
        requires
            pre.wf(),
            post.nodes@.len() >= pre.nodes@.len(),
            forall|i: int| #[trigger] post.apart(i) == (pre.apart(i) && Some(i) != gone),
            forall|i: int|
                pre.apart(i) && Some(i) != gone ==> #[trigger] post.nodes@[i] == pre.nodes@[i],
            gone matches Some(g) ==> pre.node(g).parent is None && pre.node(g).left is None
                && pre.node(g).right is None,
        ensures
            forall|i: int| #[trigger] post.apart(i) ==> post.occupied(i),
            forall|i: int| post.apart(i) ==> #[trigger] post.loose(i),
    {
        assert forall|i: int| #[trigger] post.apart(i) implies post.occupied(i) by {
            assert(pre.apart(i));
            assert(pre.occupied(i));
            assert(post.nodes@[i] == pre.nodes@[i]);
        }
        assert forall|i: int| post.apart(i) implies #[trigger] post.loose(i) by {
            assert(pre.apart(i));
            assert(pre.loose(i));
            assert(post.nodes@[i] == pre.nodes@[i]);
            let n = pre.node(i);
            if n.left is Some {
                let l = n.left->Some_0 as int;
                assert(pre.apart(l));
                assert(post.apart(l));
                assert(post.nodes@[l] == pre.nodes@[l]);
            }
            if n.right is Some {
                let r = n.right->Some_0 as int;
                assert(pre.apart(r));
                assert(post.apart(r));
                assert(post.nodes@[r] == pre.nodes@[r]);
            }
            if n.parent is Some {
                let q = n.parent->Some_0 as int;
                assert(pre.apart(q));
                assert(post.apart(q));
                assert(post.nodes@[q] == pre.nodes@[q]);
            }
        }
    }

    /// The values of a consistent tree are in order.
    pub proof fn lemma_view_sorted(&self)
        requires
            self.wf(),
        ensures
            sorted(self@),
    {
        assert forall|a: int, b: int| 0 <= a <= b < self@.len() implies le(
            #[trigger] &self@[a],
            #[trigger] &self@[b],
        ) by {
            assert(le(&self.value_at(a), &self.value_at(b)));
        }
    }

    /// Creates an empty tree.
    pub fn new() -> (t: Self)
        ensures
            t.wf(),
            t.balanced(),
            t@.len() == 0,
    {
        BinaryTree {
            nodes: Vec::new(),
            root: None,
            free: Vec::new(),
            order: Ghost(Seq::empty()),
            places: Ghost(|i: usize| Place { pos: 0, lo: 0, hi: 0 }),
            heights: Ghost(|i: usize| 0nat),
            detached: Ghost(Set::empty()),
        }
    }

    /// Tells whether the tree is empty.
    pub fn is_empty(&self) -> (b: bool)
        requires
            self.wf(),
        ensures
            b == (self@.len() == 0),
    {
        proof {
            if self.root is Some {
                assert(self.linked(self.root->Some_0 as int));
            }
        }
        self.root.is_none()
    }
}

/// Tells whether `gone` names the place `i`.
pub open spec fn is_at(gone: Option<int>, i: int) -> bool {
    gone == Some(i)
}

/// The place of a node after a node was added at the rank `k`, as a child of
/// the node of rank `at`: the ranks from `k` on move up by one, and the
/// subtrees that hold the rank `at` grow by one.
pub open spec fn place_after_insert(place: Place, at: int, k: int) -> Place {
    Place {
        pos: if place.pos >= k {
            place.pos + 1
        } else {
            place.pos
        },
        lo: if place.lo > at {
            place.lo + 1
        } else {
            place.lo
        },
        hi: if place.hi >= at {
            place.hi + 1
        } else {
            place.hi
        },
    }
}

impl<T: Ordered> BinaryTree<T> {
    /// Returns the node at the place `i`, in the tree or apart from it.
    fn slot(&self, i: usize) -> (n: &BinaryTreeNode<T>)
        requires
            self.occupied(i as int),
        ensures
            *n == self.node(i as int),
    {
        self.nodes[i].as_ref().unwrap()
    }

    /// Returns the node at the place `i`.
    fn at(&self, i: usize) -> (n: &BinaryTreeNode<T>)
        requires
            self.live(i as int),
        ensures
            *n == self.node(i as int),
    {
        self.nodes[i].as_ref().unwrap()
    }

    /// Searches for a node with the value `val`.
    #[verifier::spinoff_prover]
    #[verifier::rlimit(50)]
    fn get_node(&self, val: &T) -> (r: Option<usize>)
        requires
            self.wf(),
        ensures
            match r {
                Some(i) => self.live(i as int) && self.node(i as int).value == *val
                    && self@.contains(*val),
                None => !self@.contains(*val),
            },
    {
        let mut cur: Option<usize> = self.root;
        while cur.is_some()
            invariant
                self.wf(),
                cur matches Some(c) ==> self.live(c as int),
                forall|p: int|
                    0 <= p < self.order@.len() && #[trigger] self.value_at(p) == *val ==> (
                    cur matches Some(c) && self.place(c as int).lo <= p <= self.place(c as int).hi),
            decreases
                    (match cur {
                        Some(c) => self.span(c as int),
                        None => 0,
                    }),
        {
            let c: usize = cur.unwrap();
            let n: &BinaryTreeNode<T> = self.at(c);
            let ghost pos = self.place(c as int).pos;
            assert(self.linked(c as int));
            assert(self.value_at(pos) == n.value);
            match val.compare(&n.value) {
                Comparison::Equal => {
                    assert(self@[pos] == *val);
                    return Some(c);
                },
                Comparison::Less => {
                    proof {
                        assert forall|p: int|
                            0 <= p < self.order@.len() && #[trigger] self.value_at(p)
                                == *val implies p < pos by {
                            if p >= pos {
                                assert(le(&self.value_at(pos), &self.value_at(p)));
                                T::lemma_order(val, &n.value, val);
                            }
                        }
                        if n.left is Some {
                            assert(self.linked(n.left->Some_0 as int));
                        }
                    }
                    cur = n.left;
                },
                Comparison::Greater => {
                    proof {
                        assert forall|p: int|
                            0 <= p < self.order@.len() && #[trigger] self.value_at(p)
                                == *val implies p > pos by {
                            if p <= pos {
                                assert(le(&self.value_at(p), &self.value_at(pos)));
                                T::lemma_order(&n.value, val, &n.value);
                            }
                        }
                        if n.right is Some {
                            assert(self.linked(n.right->Some_0 as int));
                        }
                    }
                    cur = n.right;
                },
            }
        }
        proof {
            assert forall|p: int| 0 <= p < self@.len() implies self@[p] != *val by {
                assert(self@[p] == self.value_at(p));
            }
        }
        None
    }

    /// Searches for the value `val` in the tree.
    pub fn get(&self, val: T) -> (r: Option<&T>)
        requires
            self.wf(),
        ensures
            match r {
                Some(v) => *v == val && self@.contains(val),
                None => !self@.contains(val),
            },
    {
        match self.get_node(&val) {
            Some(i) => Some(&self.at(i).value),
            None => None,
        }
    }

    /// Tells whether the value `val` can stand at the rank `k`: no value
    /// before that rank comes after it, and none from that rank on comes
    /// before it.
    pub open spec fn fits(&self, val: T, k: int) -> bool {
        &&& forall|p: int| 0 <= p < k && p < self.order@.len() ==> le(&#[trigger] self.value_at(p), &val)
        &&& forall|p: int| k <= p < self.order@.len() ==> le(&val, &#[trigger] self.value_at(p))
    }

    /// For the insertion of the value `val` into a tree that is not empty,
    /// returns the node that gets the value as a child, and whether as its
    /// left child.
    #[verifier::spinoff_prover]
    #[verifier::rlimit(50)]
    fn get_insert_node(&self, val: &T) -> (r: (usize, bool))
        requires
            self.wf(),
            self.root is Some,
        ensures
            self.live(r.0 as int),
            r.1 ==> self.node(r.0 as int).left is None && self.fits(
                *val,
                self.place(r.0 as int).pos,
            ),
            !r.1 ==> self.node(r.0 as int).right is None && self.fits(
                *val,
                self.place(r.0 as int).pos + 1,
            ),
    {
        let mut cur: usize = self.root.unwrap();
        loop
            invariant
                self.wf(),
                self.live(cur as int),
                forall|p: int|
                    0 <= p < self.place(cur as int).lo ==> le(&#[trigger] self.value_at(p), val),
                forall|p: int|
                    self.place(cur as int).hi < p < self.order@.len() ==> le(
                        val,
                        &#[trigger] self.value_at(p),
                    ),
            decreases self.span(cur as int),
        {
            let n: &BinaryTreeNode<T> = self.at(cur);
            let ghost pos = self.place(cur as int).pos;
            assert(self.linked(cur as int));
            assert(self.value_at(pos) == n.value);
            match val.compare(&n.value) {
                Comparison::Less => {
                    proof {
                        assert forall|p: int| pos <= p < self.order@.len() implies le(
                            val,
                            &#[trigger] self.value_at(p),
                        ) by {
                            assert(le(&self.value_at(pos), &self.value_at(p)));
                            T::lemma_order(val, &n.value, &self.value_at(p));
                        }
                    }
                    match n.left {
                        Some(l) => {
                            assert(self.linked(l as int));
                            cur = l;
                        },
                        None => {
                            return (cur, true);
                        },
                    }
                },
                _ => {
                    proof {
                        assert forall|p: int| 0 <= p <= pos implies le(
                            &#[trigger] self.value_at(p),
                            val,
                        ) by {
                            assert(le(&self.value_at(p), &self.value_at(pos)));
                            T::lemma_order(&self.value_at(p), &n.value, val);
                        }
                    }
                    match n.right {
                        Some(r) => {
                            assert(self.linked(r as int));
                            cur = r;
                        },
                        None => {
                            return (cur, false);
                        },
                    }
                },
            }
        }
    }

    /// Puts `node` in a free place of the arena, and returns the place.
    #[verifier::spinoff_prover]
    #[verifier::rlimit(50)]
    fn take_place(&mut self, node: BinaryTreeNode<T>) -> (idx: usize)
        requires
            old(self).wf(),
        ensures
            !old(self).occupied(idx as int),
            idx <= old(self).nodes@.len(),
            final(self).nodes@ == if idx < old(self).nodes@.len() {
                old(self).nodes@.update(idx as int, Some(node))
            } else {
                old(self).nodes@.push(Some(node))
            },
            final(self).nodes@.len() <= usize::MAX,
            final(self).nodes@.len() - final(self).free@.len() == old(self).nodes@.len() - old(
                self,
            ).free@.len() + 1,
            final(self).root == old(self).root,
            final(self).order == old(self).order,
            final(self).places == old(self).places,
            final(self).detached == old(self).detached,
            forall|j: int|
                0 <= j < final(self).free@.len() ==> (#[trigger] final(self).free@[j])
                    < final(self).nodes@.len() && final(self).nodes@[final(self).free@[j] as int] is None,
            forall|j: int, k: int|
                0 <= j < k < final(self).free@.len() ==> (#[trigger] final(self).free@[j]) != (
                #[trigger] final(self).free@[k]),
    {
        match self.free.pop() {
            Some(idx) => {
                assert(old(self).free@[old(self).free@.len() - 1] == idx);
                self.nodes.set(idx, Some(node));
                assert forall|j: int| 0 <= j < self.free@.len() implies (#[trigger] self.free@[j])
                    < self.nodes@.len() && self.nodes@[self.free@[j] as int] is None by {
                    assert(old(self).free@[j] == self.free@[j]);
                    assert(old(self).free@[j] != old(self).free@[old(self).free@.len() - 1]);
                }
                assert forall|j: int, k: int| 0 <= j < k < self.free@.len() implies (
                #[trigger] self.free@[j]) != (#[trigger] self.free@[k]) by {
                    assert(old(self).free@[j] != old(self).free@[k]);
                }
                idx
            },
            None => {
                let idx: usize = self.nodes.len();
                self.nodes.push(Some(node));
                assert(self.nodes@.len() == self.nodes.len());
                idx
            },
        }
    }

    /// Tells whether `post` is the tree `pre` with the value `val` in a new
    /// node at the place `idx`, hung as a leaf under the node at `c`, on its
    /// left where `as_left` is set and on its right otherwise.
    pub open spec fn leaf_added(
        pre: &Self,
        post: &Self,
        c: int,
        idx: int,
        as_left: bool,
        val: T,
    ) -> bool {
        let at = pre.place(c).pos;
        let k = if as_left {
            at
        } else {
            at + 1
        };
        &&& pre.live(c)
        &&& !pre.occupied(idx)
        &&& 0 <= idx <= pre.nodes@.len()
        &&& post.nodes@.len() == if idx < pre.nodes@.len() {
            pre.nodes@.len()
        } else {
            pre.nodes@.len() + 1
        }
        &&& forall|i: int|
            0 <= i < pre.nodes@.len() && i != c && i != idx ==> #[trigger] post.nodes@[i]
                == pre.nodes@[i]
        &&& post.live(c)
        &&& post.node(c).parent == pre.node(c).parent
        &&& post.node(c).color == pre.node(c).color
        &&& post.node(c).value == pre.node(c).value
        &&& if as_left {
            pre.node(c).left is None && post.node(c).left == Some(idx as usize) && post.node(
                c,
            ).right == pre.node(c).right
        } else {
            pre.node(c).right is None && post.node(c).right == Some(idx as usize) && post.node(
                c,
            ).left == pre.node(c).left
        }
        &&& post.live(idx)
        &&& post.node(idx).parent == Some(c as usize)
        &&& post.node(idx).left is None
        &&& post.node(idx).right is None
        &&& post.node(idx).value == val
        &&& post.root == pre.root
        &&& post.detached@ == pre.detached@
        &&& post.order@ == pre.order@.insert(k, idx as usize)
        &&& forall|i: int|
            0 <= i <= usize::MAX ==> #[trigger] post.place(i) == if i == idx {
                Place { pos: k, lo: k, hi: k }
            } else {
                place_after_insert(pre.place(i), at, k)
            }
        &&& idx <= usize::MAX
    }

    /// In a tree with one more leaf, every node of the tree before stands
    /// where its relatives say.
    #[verifier::spinoff_prover]
    #[verifier::rlimit(50)]
    proof fn lemma_leaf_added_old(pre: &Self, post: &Self, c: int, idx: int, as_left: bool, val: T, i: int)
        requires
            pre.wf(),
            Self::leaf_added(pre, post, c, idx, as_left, val),
            pre.live(i),
        ensures
            post.live(i),
            post.linked(i),
    {
        let at = pre.place(c).pos;
        assert(pre.linked(c));
        assert(pre.linked(i));
        let n = pre.node(i);
        if n.left is Some {
            assert(pre.linked(n.left->Some_0 as int));
        }
        if n.right is Some {
            assert(pre.linked(n.right->Some_0 as int));
        }
        if n.parent is Some {
            assert(pre.linked(n.parent->Some_0 as int));
        }
        if pre.place(i).pos == at {
            assert(i == c);
        }
        let k = if as_left {
            at
        } else {
            at + 1
        };
        assert(post.place(i) == place_after_insert(pre.place(i), at, k));
        if n.left is Some {
            let l = n.left->Some_0 as int;
            assert(post.place(l) == place_after_insert(pre.place(l), at, k));
        }
        if n.right is Some {
            let r = n.right->Some_0 as int;
            assert(post.place(r) == place_after_insert(pre.place(r), at, k));
        }
        assert(post.place(idx) == Place { pos: k, lo: k, hi: k });
    }

    /// In a tree with one more leaf, the order lists the nodes of the tree
    /// before with the new node at its rank.
    #[verifier::spinoff_prover]
    #[verifier::rlimit(50)]
    proof fn lemma_leaf_added_order(pre: &Self, post: &Self, c: int, idx: int, as_left: bool, val: T, p: int)
        requires
            pre.wf(),
            Self::leaf_added(pre, post, c, idx, as_left, val),
            0 <= p < post.order@.len(),
        ensures
            post.live(post.order@[p] as int),
            post.place(post.order@[p] as int).pos == p,
            post.value_at(p) == (if p < (if as_left {
                pre.place(c).pos
            } else {
                pre.place(c).pos + 1
            }) {
                pre.value_at(p)
            } else if p == (if as_left {
                pre.place(c).pos
            } else {
                pre.place(c).pos + 1
            }) {
                val
            } else {
                pre.value_at(p - 1)
            }),
    {
        let at = pre.place(c).pos;
        let k = if as_left {
            at
        } else {
            at + 1
        };
        assert(pre.linked(c));
        if p == k {
            assert(post.order@[p] == idx);
            assert(post.place(idx) == Place { pos: k, lo: k, hi: k });
        } else {
            let q = if p < k {
                p
            } else {
                p - 1
            };
            let i = pre.order@[q];
            assert(post.order@[p] == i);
            assert(pre.live(i as int));
            assert(pre.linked(i as int));
            assert(pre.place(i as int).pos == q);
            assert(i != idx);
            assert(post.place(i as int) == place_after_insert(pre.place(i as int), at, k));
            if i == c {
                assert(post.node(c).value == pre.node(c).value);
            } else {
                assert(post.nodes@[i as int] == pre.nodes@[i as int]);
            }
        }
    }

    /// A tree with one more leaf where its value fits is consistent, and
    /// holds that value at its rank besides the values that it held.
    #[verifier::spinoff_prover]
    #[verifier::rlimit(50)]
    pub proof fn lemma_leaf_added(pre: &Self, post: &Self, c: int, idx: int, as_left: bool, val: T)
        requires
            pre.wf(),
            Self::leaf_added(pre, post, c, idx, as_left, val),
            pre.fits(
                val,
                if as_left {
                    pre.place(c).pos
                } else {
                    pre.place(c).pos + 1
                },
            ),
        ensures
            forall|i: int| #[trigger] post.apart(i) ==> post.occupied(i),
            forall|i: int| post.apart(i) ==> #[trigger] post.loose(i),
            forall|i: int| post.live(i) ==> #[trigger] post.linked(i),
            forall|p: int|
                0 <= p < post.order@.len() ==> post.live(#[trigger] post.order@[p] as int)
                    && post.place(post.order@[p] as int).pos == p,
            match post.root {
                Some(r) => post.live(r as int) && post.node(r as int).parent is None && post.place(
                    r as int,
                ).lo == 0 && post.place(r as int).hi == post.order@.len() - 1,
                None => post.order@.len() == 0,
            },
            forall|a: int, b: int|
                0 <= a <= b < post.order@.len() ==> le(
                    &#[trigger] post.value_at(a),
                    &#[trigger] post.value_at(b),
                ),
            post@ == pre@.insert(
                if as_left {
                    pre.place(c).pos
                } else {
                    pre.place(c).pos + 1
                },
                val,
            ),
    {
        assert(pre.linked(c));
        assert forall|i: int| pre.apart(i) implies #[trigger] post.nodes@[i] == pre.nodes@[i] by {
            assert(pre.occupied(i));
        }
        Self::lemma_parts_loose(pre, post, None);
        let at = pre.place(c).pos;
        let k = if as_left {
            at
        } else {
            at + 1
        };
        assert(pre.linked(c));
        assert forall|p: int| 0 <= p < post.order@.len() implies post.live(
            #[trigger] post.order@[p] as int,
        ) && post.place(post.order@[p] as int).pos == p by {
            Self::lemma_leaf_added_order(pre, post, c, idx, as_left, val, p);
        }
        assert forall|i: int| post.live(i) implies #[trigger] post.linked(i) by {
            if i != idx {
                assert(pre.live(i)) by {
                    if i != c {
                        assert(post.nodes@[i] == pre.nodes@[i]);
                    }
                }
                Self::lemma_leaf_added_old(pre, post, c, idx, as_left, val, i);
            } else {
                Self::lemma_leaf_added_old(pre, post, c, idx, as_left, val, c);
                assert(post.place(idx) == Place { pos: k, lo: k, hi: k });
            }
        }
        match post.root {
            Some(r) => {
                assert(pre.linked(r as int));
                Self::lemma_leaf_added_old(pre, post, c, idx, as_left, val, r as int);
                assert(post.place(r as int) == place_after_insert(pre.place(r as int), at, k));
            },
            None => {},
        }
        assert forall|a: int, b: int| 0 <= a <= b < post.order@.len() implies le(
            &#[trigger] post.value_at(a),
            &#[trigger] post.value_at(b),
        ) by {
            Self::lemma_leaf_added_order(pre, post, c, idx, as_left, val, a);
            Self::lemma_leaf_added_order(pre, post, c, idx, as_left, val, b);
            let pa = if a < k {
                a
            } else {
                a - 1
            };
            let pb = if b < k {
                b
            } else {
                b - 1
            };
            if a != k && b != k {
                assert(le(&pre.value_at(pa), &pre.value_at(pb)));
            } else if a == k && b != k {
                assert(le(&val, &pre.value_at(pb)));
            } else if a != k && b == k {
                assert(le(&pre.value_at(pa), &val));
            }
        }
        assert forall|p: int| 0 <= p < post@.len() implies post@[p] == pre@.insert(k, val)[p] by {
            Self::lemma_leaf_added_order(pre, post, c, idx, as_left, val, p);
        }
        assert(post@ =~= pre@.insert(k, val));
    }

    /// A red-black tree with one more leaf, which is red and of no black
    /// height, is a red-black tree but for that leaf.
    #[verifier::spinoff_prover]
    #[verifier::rlimit(100)]
    proof fn lemma_leaf_balanced(pre: &Self, post: &Self, c: int, idx: int, as_left: bool, val: T)
        requires
            pre.balanced(),
            post.wf(),
            Self::leaf_added(pre, post, c, idx, as_left, val),
            post.node(idx).color == NodeColor::Red,
            forall|i: int|
                0 <= i <= usize::MAX ==> #[trigger] post.height(i) == if i == idx {
                    0nat
                } else {
                    pre.height(i)
                },
        ensures
            post.balanced_but(idx),
    {
        assert(pre.linked(c));
        assert forall|i: int| post.live(i) implies #[trigger] post.leveled(i) by {
            Self::lemma_leaf_balanced_node(pre, post, c, idx, as_left, val, i);
        }
        assert forall|i: int| post.live(i) implies #[trigger] post.no_red_child_but(i, idx) by {
            Self::lemma_leaf_balanced_node(pre, post, c, idx, as_left, val, i);
        }
        assert(post.no_red_child(idx));
        match post.root {
            Some(r) => {
                assert(pre.linked(r as int));
                if r != c {
                    assert(post.nodes@[r as int] == pre.nodes@[r as int]);
                }
            },
            None => {},
        }
    }

    /// In a red-black tree with one more leaf, which is red and of no black
    /// height, each node is level and no red node has a red child but, at
    /// most, the leaf.
    #[verifier::spinoff_prover]
    #[verifier::rlimit(100)]
    proof fn lemma_leaf_balanced_node(
        pre: &Self,
        post: &Self,
        c: int,
        idx: int,
        as_left: bool,
        val: T,
        i: int,
    )
        requires
            pre.balanced(),
            post.wf(),
            Self::leaf_added(pre, post, c, idx, as_left, val),
            post.node(idx).color == NodeColor::Red,
            forall|j: int|
                0 <= j <= usize::MAX ==> #[trigger] post.height(j) == if j == idx {
                    0nat
                } else {
                    pre.height(j)
                },
            post.live(i),
        ensures
            post.leveled(i),
            post.no_red_child_but(i, idx),
    {
        assert(pre.linked(c));
        if i != idx {
            if i != c {
                assert(post.nodes@[i] == pre.nodes@[i]);
            }
            assert(pre.live(i));
            assert(pre.linked(i));
            assert(pre.leveled(i));
            assert(pre.no_red_child(i));
            let n = pre.node(i);
            if n.left is Some {
                let l = n.left->Some_0 as int;
                assert(pre.linked(l));
                if l != c {
                    assert(post.nodes@[l] == pre.nodes@[l]);
                }
            }
            if n.right is Some {
                let r = n.right->Some_0 as int;
                assert(pre.linked(r));
                if r != c {
                    assert(post.nodes@[r] == pre.nodes@[r]);
                }
            }
        }
    }

    /// Inserts the value `val` in the tree.
    #[verifier::spinoff_prover]
    #[verifier::rlimit(50)]
    pub fn insert(&mut self, val: T) -> (r: Result<(), ()>)
        requires
            old(self).wf(),
        ensures
            r is Ok,
            final(self).wf(),
            exists|k: int|
                0 <= k <= old(self)@.len() && #[trigger] old(self)@.insert(k, val) == final(self)@,
            old(self).balanced() ==> final(self).balanced(),
            Self::nodes_kept(old(self), final(self), None),
    {
        if self.root.is_none() {
            let node = BinaryTreeNode {
                parent: None,
                left: None,
                right: None,
                color: NodeColor::Black,
                value: val,
            };
            let idx: usize = self.take_place(node);
            self.root = Some(idx);
            proof {
                self.order = Ghost(seq![idx]);
                self.places = Ghost(|i: usize| Place { pos: 0, lo: 0, hi: 0 });
                self.heights = Ghost(|i: usize| 1nat);
                assert(!old(self).apart(idx as int));
                assert forall|i: int| old(self).apart(i) implies #[trigger] self.nodes@[i] == old(
                    self,
                ).nodes@[i] by {
                    assert(old(self).occupied(i));
                }
                Self::lemma_parts_loose(old(self), self, None);
                assert forall|i: int| self.live(i) implies #[trigger] self.linked(i) by {
                    if i != idx {
                        assert(old(self).live(i));
                        assert(old(self).linked(i));
                    }
                }
                assert(self@ =~= old(self)@.insert(0, val));
                assert forall|i: int| #![trigger self.live(i)] old(self).live(i) implies self.live(i)
                    && self.node(i).value == old(self).node(i).value by {
                    assert(old(self).linked(i));
                }
                assert forall|i: int| #![trigger self.apart(i)] old(self).apart(i) implies self.apart(
                    i,
                ) && self.nodes@[i] == old(self).nodes@[i] by {
                    assert(old(self).occupied(i));
                }
                assert forall|i: int| self.live(i) implies #[trigger] self.leveled(i) by {
                    if i != idx {
                        assert(old(self).live(i));
                        assert(old(self).linked(i));
                    }
                }
                assert forall|i: int| self.live(i) implies #[trigger] self.no_red_child(i) by {
                    if i != idx {
                        assert(old(self).live(i));
                        assert(old(self).linked(i));
                    }
                }
            }
            return Ok(());
        }
        let (c, as_left): (usize, bool) = self.get_insert_node(&val);
        let node = BinaryTreeNode {
            parent: Some(c),
            left: None,
            right: None,
            color: NodeColor::Red,
            value: val,
        };
        let idx: usize = self.take_place(node);
        match &mut self.nodes[c] {
            Some(parent) => {
                if as_left {
                    parent.left = Some(idx);
                } else {
                    parent.right = Some(idx);
                }
            },
            None => {},
        }
        proof {
            let at = old(self).place(c as int).pos;
            let k = if as_left {
                at
            } else {
                at + 1
            };
            let before = old(self).places@;
            self.order = Ghost(old(self).order@.insert(k, idx));
            self.places = Ghost(
                |i: usize|
                    if i == idx {
                        Place { pos: k, lo: k, hi: k }
                    } else {
                        place_after_insert(before(i), at, k)
                    },
            );
            let levels = old(self).heights@;
            self.heights = Ghost(
                |i: usize|
                    if i == idx {
                        0nat
                    } else {
                        levels(i)
                    },
            );
            assert(old(self).linked(c as int));
            assert(!old(self).apart(idx as int));
            Self::lemma_leaf_added(old(self), self, c as int, idx as int, as_left, val);
            assert(0 <= k <= old(self)@.len());
            assert(old(self)@.insert(k, val) == self@);
            if old(self).balanced() {
                Self::lemma_leaf_balanced(old(self), self, c as int, idx as int, as_left, val);
            }
        }
        let ghost grown = *self;
        self.insert_equilibrate(idx);
        proof {
            assert forall|i: int| #![trigger self.live(i)] old(self).live(i) implies self.live(i)
                && self.node(i).value == old(self).node(i).value by {
                assert(Self::leaf_added(old(self), &grown, c as int, idx as int, as_left, val));
                assert(i != idx);
                if i != c {
                    assert(grown.nodes@[i] == old(self).nodes@[i]);
                }
                assert(grown.occupied(i));
                assert(grown.apart(i) == old(self).apart(i));
                assert(grown.live(i));
                assert(grown.node(i).value == old(self).node(i).value);
                assert(self.live(i) == grown.live(i));
            }
            assert forall|i: int| #![trigger self.apart(i)] old(self).apart(i) implies self.apart(i)
                && self.nodes@[i] == old(self).nodes@[i] by {
                assert(Self::leaf_added(old(self), &grown, c as int, idx as int, as_left, val));
                assert(old(self).occupied(i));
                assert(grown.nodes@[i] == old(self).nodes@[i]);
                assert(grown.apart(i));
                assert(Self::same_nodes(&grown, self));
                assert(Self::parts_kept(&grown, self, None));
                assert(self.apart(i));
                assert(self.nodes@[i] == grown.nodes@[i]);
            }
        }
        Ok(())
    }

    /// Tells whether `post` is the tree `pre` with nothing changed but the
    /// colors of its nodes. The clauses speak of a node of `post`: a proof
    /// that needs one of them names that node.
    pub open spec fn recolored(pre: &Self, post: &Self) -> bool {
        &&& post.nodes@.len() == pre.nodes@.len()
        &&& forall|i: int|
            0 <= i < pre.nodes@.len() ==> (#[trigger] post.nodes@[i] is Some) == (pre.nodes@[i] is Some)
        &&& forall|i: int|
            pre.live(i) ==> (#[trigger] post.node(i)).parent == pre.node(i).parent && post.node(
                i,
            ).left == pre.node(i).left && post.node(i).right == pre.node(i).right && post.node(
                i,
            ).value == pre.node(i).value
        &&& post.root == pre.root
        &&& post.free@ == pre.free@
        &&& post.order@ == pre.order@
        &&& post.places@ == pre.places@
        &&& post.detached@ == pre.detached@
        &&& forall|i: int| pre.apart(i) ==> #[trigger] post.nodes@[i] == pre.nodes@[i]
    }

    /// Colors do not matter to the consistency of a tree, nor to what it holds.
    #[verifier::spinoff_prover]
    #[verifier::rlimit(50)]
    pub proof fn lemma_recolored(pre: &Self, post: &Self)
        requires
            pre.wf(),
            Self::recolored(pre, post),
        ensures
            post.wf(),
            post@ == pre@,
            Self::same_nodes(pre, post),
    {
        Self::lemma_parts_loose(pre, post, None);
        assert forall|i: int| #[trigger] post.live(i) == pre.live(i) by {
            if 0 <= i < pre.nodes@.len() {
                assert((post.nodes@[i] is Some) == (pre.nodes@[i] is Some));
            }
        }
        assert forall|i: int| post.live(i) implies #[trigger] post.linked(i) by {
            assert(pre.live(i));
            assert(pre.linked(i));
            let n = post.node(i);
            if n.left is Some {
                let l = post.node(n.left->Some_0 as int);
            }
            if n.right is Some {
                let r = post.node(n.right->Some_0 as int);
            }
            if n.parent is Some {
                let q = post.node(n.parent->Some_0 as int);
            }
        }
        assert forall|p: int| 0 <= p < post.order@.len() implies post.live(
            #[trigger] post.order@[p] as int,
        ) && post.place(post.order@[p] as int).pos == p && post.value_at(p) == pre.value_at(p) by {
            assert(pre.live(pre.order@[p] as int));
            let n = post.node(post.order@[p] as int);
        }
        assert forall|a: int, b: int| 0 <= a <= b < post.order@.len() implies le(
            &#[trigger] post.value_at(a),
            &#[trigger] post.value_at(b),
        ) by {
            assert(le(&pre.value_at(a), &pre.value_at(b)));
            assert(post.live(post.order@[a] as int));
            assert(post.live(post.order@[b] as int));
        }
        match post.root {
            Some(r) => {
                let n = post.node(r as int);
            },
            None => {},
        }
        assert(post@ =~= pre@);
    }

    /// Gives the node at the place `i` the color `color`.
    fn set_color(&mut self, i: usize, color: NodeColor)
        requires
            old(self).wf(),
            old(self).live(i as int),
        ensures
            final(self).wf(),
            final(self)@ == old(self)@,
            Self::recolored(old(self), final(self)),
            Self::same_nodes(old(self), final(self)),
            final(self).places@ == old(self).places@,
            final(self).heights@ == old(self).heights@,
            final(self).node(i as int).color == color,
            forall|j: int|
                old(self).live(j) && j != i ==> (#[trigger] final(self).node(j)).color == old(
                    self,
                ).node(j).color,
    {
        match &mut self.nodes[i] {
            Some(n) => {
                n.color = color;
            },
            None => {},
        }
        proof {
            Self::lemma_recolored(old(self), self);
        }
    }

    /// Tells whether `post` is the tree `pre` after the node at `x` was
    /// turned up over its parent: the node takes the place of its parent,
    /// the parent becomes its child on the other side, and the subtree that
    /// the node had on that side goes to the parent.
    pub open spec fn pivoted(pre: &Self, post: &Self, x: int) -> bool {
        let y = pre.node(x).parent->Some_0 as int;
        let g = pre.node(y).parent;
        let on_left = pre.node(y).left == Some(x as usize);
        let b = if on_left {
            pre.node(x).right
        } else {
            pre.node(x).left
        };
        &&& pre.live(x)
        &&& pre.node(x).parent is Some
        &&& post.nodes@.len() == pre.nodes@.len()
        &&& forall|i: int|
            0 <= i < pre.nodes@.len() && i != x && i != y && Some(i as usize) != b && Some(i as usize)
                != g ==> #[trigger] post.nodes@[i] == pre.nodes@[i]
        &&& post.live(x)
        &&& post.live(y)
        &&& post.node(x).value == pre.node(x).value
        &&& post.node(x).color == pre.node(x).color
        &&& post.node(y).value == pre.node(y).value
        &&& post.node(y).color == pre.node(y).color
        &&& post.node(x).parent == g
        &&& post.node(y).parent == Some(x as usize)
        &&& if on_left {
            &&& post.node(x).left == pre.node(x).left
            &&& post.node(x).right == Some(y as usize)
            &&& post.node(y).left == b
            &&& post.node(y).right == pre.node(y).right
        } else {
            &&& post.node(x).right == pre.node(x).right
            &&& post.node(x).left == Some(y as usize)
            &&& post.node(y).right == b
            &&& post.node(y).left == pre.node(y).left
        }
        &&& b matches Some(bi) ==> {
            &&& post.live(bi as int)
            &&& post.node(bi as int).parent == Some(y as usize)
            &&& post.node(bi as int).left == pre.node(bi as int).left
            &&& post.node(bi as int).right == pre.node(bi as int).right
            &&& post.node(bi as int).value == pre.node(bi as int).value
            &&& post.node(bi as int).color == pre.node(bi as int).color
        }
        &&& match g {
            Some(gi) => {
                &&& post.live(gi as int)
                &&& post.node(gi as int).parent == pre.node(gi as int).parent
                &&& post.node(gi as int).value == pre.node(gi as int).value
                &&& post.node(gi as int).color == pre.node(gi as int).color
                &&& if pre.node(gi as int).left == Some(y as usize) {
                    post.node(gi as int).left == Some(x as usize) && post.node(gi as int).right
                        == pre.node(gi as int).right
                } else {
                    post.node(gi as int).right == Some(x as usize) && post.node(gi as int).left
                        == pre.node(gi as int).left
                }
                &&& post.root == pre.root
            },
            None => post.root == Some(x as usize),
        }
        &&& post.free@ == pre.free@
        &&& post.order@ == pre.order@
        &&& post.detached@ == pre.detached@
        &&& forall|i: int|
            0 <= i <= usize::MAX ==> #[trigger] post.place(i) == if i == x {
                Place { pos: pre.place(x).pos, lo: pre.place(y).lo, hi: pre.place(y).hi }
            } else if i == y {
                if on_left {
                    Place { pos: pre.place(y).pos, lo: pre.place(x).pos + 1, hi: pre.place(y).hi }
                } else {
                    Place { pos: pre.place(y).pos, lo: pre.place(y).lo, hi: pre.place(x).pos - 1 }
                }
            } else {
                pre.place(i)
            }
    }

    /// After a node was turned up over its parent, every node stands where
    /// its relatives say.
    #[verifier::rlimit(100)]
    #[verifier::spinoff_prover]
    proof fn lemma_pivoted_node(pre: &Self, post: &Self, x: int, i: int)
        requires
            pre.wf(),
            Self::pivoted(pre, post, x),
            post.live(i),
        ensures
            pre.live(i),
            post.linked(i),
            post.node(i).value == pre.node(i).value,
    {
        let y = pre.node(x).parent->Some_0 as int;
        let g = pre.node(y).parent;
        let on_left = pre.node(y).left == Some(x as usize);
        let b = if on_left {
            pre.node(x).right
        } else {
            pre.node(x).left
        };
        assert(pre.linked(x));
        assert(pre.linked(y));
        if b is Some {
            assert(pre.linked(b->Some_0 as int));
        }
        if g is Some {
            assert(pre.linked(g->Some_0 as int));
        }
        assert(post.place(x) == Place {
            pos: pre.place(x).pos,
            lo: pre.place(y).lo,
            hi: pre.place(y).hi,
        });
        assert(post.place(y).pos == pre.place(y).pos);
        if i != x && i != y && Some(i as usize) != b && Some(i as usize) != g {
            assert(post.nodes@[i] == pre.nodes@[i]);
        }
        assert(pre.live(i));
        assert(pre.linked(i));
        assert(post.place(i).pos == pre.place(i).pos);
        let n = pre.node(i);
        if n.left is Some {
            let l = n.left->Some_0 as int;
            assert(pre.linked(l));
            assert(post.place(l).pos == pre.place(l).pos);
        }
        if n.right is Some {
            let r = n.right->Some_0 as int;
            assert(pre.linked(r));
            assert(post.place(r).pos == pre.place(r).pos);
        }
        if n.parent is Some {
            let q = n.parent->Some_0 as int;
            assert(pre.linked(q));
            assert(post.place(q).pos == pre.place(q).pos);
        }
        let m = post.node(i);
        if m.left is Some {
            let l = m.left->Some_0 as int;
            assert(pre.live(l));
            assert(pre.linked(l));
            assert(post.place(l).pos == pre.place(l).pos);
        }
        if m.right is Some {
            let r = m.right->Some_0 as int;
            assert(pre.live(r));
            assert(pre.linked(r));
            assert(post.place(r).pos == pre.place(r).pos);
        }
        if m.parent is Some {
            let q = m.parent->Some_0 as int;
            assert(pre.live(q));
            assert(pre.linked(q));
        }
    }

    /// Turning a node up over its parent keeps the tree consistent and
    /// leaves what it holds as it was.
    #[verifier::spinoff_prover]
    #[verifier::rlimit(50)]
    pub proof fn lemma_pivoted(pre: &Self, post: &Self, x: int)
        requires
            pre.wf(),
            Self::pivoted(pre, post, x),
        ensures
            post.wf(),
            post@ == pre@,
            Self::same_nodes(pre, post),
    {
        assert(pre.linked(x));
        assert(pre.linked(pre.node(x).parent->Some_0 as int));
        assert forall|i: int| pre.apart(i) implies #[trigger] post.nodes@[i] == pre.nodes@[i] by {
            assert(pre.occupied(i));
        }
        Self::lemma_parts_loose(pre, post, None);
        let y = pre.node(x).parent->Some_0 as int;
        assert(pre.linked(x));
        assert(pre.linked(y));
        assert forall|i: int| post.live(i) implies #[trigger] post.linked(i) by {
            Self::lemma_pivoted_node(pre, post, x, i);
        }
        assert forall|i: int| #[trigger] post.live(i) == pre.live(i) by {
            if post.live(i) {
                Self::lemma_pivoted_node(pre, post, x, i);
            }
            if pre.live(i) {
                let g = pre.node(y).parent;
                let on_left = pre.node(y).left == Some(x as usize);
                let b = if on_left {
                    pre.node(x).right
                } else {
                    pre.node(x).left
                };
                if i != x && i != y && Some(i as usize) != b && Some(i as usize) != g {
                    assert(post.nodes@[i] == pre.nodes@[i]);
                }
            }
        }
        assert forall|p: int| 0 <= p < post.order@.len() implies post.live(
            #[trigger] post.order@[p] as int,
        ) && post.place(post.order@[p] as int).pos == p && post.value_at(p) == pre.value_at(p) by {
            let i = pre.order@[p] as int;
            assert(pre.live(i));
            assert(pre.linked(i));
            assert(post.live(i)) by {
                let g = pre.node(y).parent;
                let on_left = pre.node(y).left == Some(x as usize);
                let b = if on_left {
                    pre.node(x).right
                } else {
                    pre.node(x).left
                };
                if i != x && i != y && Some(i as usize) != b && Some(i as usize) != g {
                    assert(post.nodes@[i] == pre.nodes@[i]);
                }
            }
            Self::lemma_pivoted_node(pre, post, x, i);
            assert(post.place(i).pos == pre.place(i).pos);
        }
        assert forall|a: int, b: int| 0 <= a <= b < post.order@.len() implies le(
            &#[trigger] post.value_at(a),
            &#[trigger] post.value_at(b),
        ) by {
            assert(le(&pre.value_at(a), &pre.value_at(b)));
            assert(post.live(post.order@[a] as int));
            assert(post.live(post.order@[b] as int));
        }
        match post.root {
            Some(r) => {
                Self::lemma_pivoted_node(pre, post, x, r as int);
                if pre.root is Some {
                    assert(pre.linked(pre.root->Some_0 as int));
                }
            },
            None => {
                if pre.node(y).parent is Some {
                } else {
                }
            },
        }
        assert forall|j: int| 0 <= j < post.free@.len() implies (#[trigger] post.free@[j])
            < post.nodes@.len() && post.nodes@[post.free@[j] as int] is None by {
            let f = pre.free@[j] as int;
            assert(pre.nodes@[f] is None);
            let g = pre.node(y).parent;
            let on_left = pre.node(y).left == Some(x as usize);
            let b = if on_left {
                pre.node(x).right
            } else {
                pre.node(x).left
            };
            if b is Some {
                assert(pre.live(b->Some_0 as int));
            }
            if g is Some {
                assert(pre.live(g->Some_0 as int));
            }
            assert(post.nodes@[f] == pre.nodes@[f]);
        }
        assert(post@ =~= pre@);
    }

    /// Turns the node at `x` up over its parent.
    #[verifier::spinoff_prover]
    #[verifier::rlimit(50)]
    fn pivot_up(&mut self, x: usize)
        requires
            old(self).wf(),
            old(self).live(x as int),
            old(self).node(x as int).parent is Some,
        ensures
            final(self).wf(),
            final(self)@ == old(self)@,
            Self::pivoted(old(self), final(self), x as int),
            Self::same_nodes(old(self), final(self)),
            final(self).heights@ == old(self).heights@,
    {
        let y: usize = self.at(x).parent.unwrap();
        assert(self.linked(x as int));
        let g: Option<usize> = self.at(y).parent;
        assert(self.linked(y as int));
        let on_left: bool = match self.at(y).left {
            Some(l) => l == x,
            None => false,
        };
        let b: Option<usize> = if on_left {
            self.at(x).right
        } else {
            self.at(x).left
        };
        proof {
            if b is Some {
                assert(self.linked(b->Some_0 as int));
            }
            if g is Some {
                assert(self.linked(g->Some_0 as int));
            }
        }
        match &mut self.nodes[x] {
            Some(n) => {
                n.parent = g;
                if on_left {
                    n.right = Some(y);
                } else {
                    n.left = Some(y);
                }
            },
            None => {},
        }
        match &mut self.nodes[y] {
            Some(n) => {
                n.parent = Some(x);
                if on_left {
                    n.left = b;
                } else {
                    n.right = b;
                }
            },
            None => {},
        }
        match b {
            Some(bi) => match &mut self.nodes[bi] {
                Some(n) => {
                    n.parent = Some(y);
                },
                None => {},
            },
            None => {},
        }
        match g {
            Some(gi) => match &mut self.nodes[gi] {
                Some(n) => {
                    let left_is_y: bool = match n.left {
                        Some(l) => l == y,
                        None => false,
                    };
                    if left_is_y {
                        n.left = Some(x);
                    } else {
                        n.right = Some(x);
                    }
                },
                None => {},
            },
            None => {
                self.root = Some(x);
            },
        }
        proof {
            let before = old(self).places@;
            let px = old(self).place(x as int);
            let py = old(self).place(y as int);
            self.places = Ghost(
                |i: usize|
                    if i == x {
                        Place { pos: px.pos, lo: py.lo, hi: py.hi }
                    } else if i == y {
                        if on_left {
                            Place { pos: py.pos, lo: px.pos + 1, hi: py.hi }
                        } else {
                            Place { pos: py.pos, lo: py.lo, hi: px.pos - 1 }
                        }
                    } else {
                        before(i)
                    },
            );
            assert(Self::pivoted(old(self), self, x as int));
            Self::lemma_pivoted(old(self), self, x as int);
        }
    }
}

impl<T: Ordered> BinaryTree<T> {
    /// Tells whether the node at `i` is the left child of its parent.
    pub open spec fn spec_is_left_child(&self, i: int) -> bool {
        self.node(i).parent matches Some(q) && self.node(q as int).left == Some(i as usize)
    }

    /// Tells whether the node at `i` is the right child of its parent.
    pub open spec fn spec_is_right_child(&self, i: int) -> bool {
        self.node(i).parent matches Some(q) && self.node(q as int).right == Some(i as usize)
    }

    /// The parent of the parent of the node at `i`.
    pub open spec fn spec_grandparent(&self, i: int) -> Option<usize> {
        match self.node(i).parent {
            Some(q) => self.node(q as int).parent,
            None => None,
        }
    }

    /// The other child of the parent of the node at `i`.
    pub open spec fn spec_sibling(&self, i: int) -> Option<usize> {
        match self.node(i).parent {
            Some(q) => if self.node(q as int).left == Some(i as usize) {
                self.node(q as int).right
            } else {
                self.node(q as int).left
            },
            None => None,
        }
    }

    /// The sibling of the parent of the node at `i`.
    pub open spec fn spec_uncle(&self, i: int) -> Option<usize> {
        match self.node(i).parent {
            Some(q) => self.spec_sibling(q as int),
            None => None,
        }
    }

    /// The number of nodes on the way from the node at `i` up to the root,
    /// the node itself not counted.
    pub open spec fn spec_node_depth(&self, i: int) -> nat
        decreases self.order@.len() - self.span(i),
        when self.wf() && self.live(i)
        via Self::node_depth_decreases
    {
        match self.node(i).parent {
            Some(q) => self.spec_node_depth(q as int) + 1,
            None => 0,
        }
    }

    #[via_fn]
    proof fn node_depth_decreases(&self, i: int) {
        assert(self.linked(i));
        match self.node(i).parent {
            Some(q) => {
                assert(self.linked(q as int));
            },
            None => {},
        }
    }

    /// The number of black nodes on the way from the node at `i` up to the
    /// root, the node itself counted.
    pub open spec fn spec_node_black_depth(&self, i: int) -> nat
        decreases self.order@.len() - self.span(i),
        when self.wf() && self.live(i)
        via Self::node_black_depth_decreases
    {
        let above: nat = match self.node(i).parent {
            Some(q) => self.spec_node_black_depth(q as int),
            None => 0,
        };
        if self.node(i).color == NodeColor::Black {
            above + 1
        } else {
            above
        }
    }

    #[via_fn]
    proof fn node_black_depth_decreases(&self, i: int) {
        assert(self.linked(i));
        match self.node(i).parent {
            Some(q) => {
                assert(self.linked(q as int));
            },
            None => {},
        }
    }

    /// The depth of the subtree of the node at `i`: the greatest number of
    /// nodes on a way down from it, the node itself counted.
    pub open spec fn spec_depth(&self, i: int) -> nat
        decreases self.span(i),
        when self.wf() && self.live(i)
        via Self::depth_decreases
    {
        let l: nat = match self.node(i).left {
            Some(l) => self.spec_depth(l as int),
            None => 0,
        };
        let r: nat = match self.node(i).right {
            Some(r) => self.spec_depth(r as int),
            None => 0,
        };
        if l >= r {
            l + 1
        } else {
            r + 1
        }
    }

    #[via_fn]
    proof fn depth_decreases(&self, i: int) {
        assert(self.linked(i));
        match self.node(i).left {
            Some(l) => {
                assert(self.linked(l as int));
            },
            None => {},
        }
        match self.node(i).right {
            Some(r) => {
                assert(self.linked(r as int));
            },
            None => {},
        }
    }

    /// A subtree is no deeper than it has nodes, and a node has no more
    /// nodes above it than the tree has outside its subtree.
    pub proof fn lemma_depth_bounds(&self, i: int)
        requires
            self.wf(),
            self.live(i),
        ensures
            1 <= self.spec_depth(i) <= self.span(i),
            1 <= self.span(i) <= self.order@.len(),
        decreases self.span(i),
    {
        assert(self.linked(i));
        match self.node(i).left {
            Some(l) => {
                assert(self.linked(l as int));
                self.lemma_depth_bounds(l as int);
            },
            None => {},
        }
        match self.node(i).right {
            Some(r) => {
                assert(self.linked(r as int));
                self.lemma_depth_bounds(r as int);
            },
            None => {},
        }
    }

    /// A node has no more nodes above it than the tree has outside its subtree.
    pub proof fn lemma_node_depth_bounds(&self, i: int)
        requires
            self.wf(),
            self.live(i),
        ensures
            self.spec_node_depth(i) <= self.order@.len() - self.span(i),
            self.spec_node_black_depth(i) <= self.order@.len() - self.span(i) + 1,
        decreases self.order@.len() - self.span(i),
    {
        assert(self.linked(i));
        match self.node(i).parent {
            Some(q) => {
                assert(self.linked(q as int));
                self.lemma_node_depth_bounds(q as int);
            },
            None => {},
        }
    }

    /// Returns the number of nodes in the tree.
    pub fn nodes_count(&self) -> (n: usize)
        requires
            self.wf(),
        ensures
            n == self@.len(),
    {
        match self.root {
            Some(r) => {
                proof {
                    assert(self.linked(r as int));
                }
                BinaryTreeNode::nodes_count(self, r)
            },
            None => 0,
        }
    }

    /// Returns the depth of the tree.
    pub fn get_depth(&self) -> (n: usize)
        requires
            self.wf(),
        ensures
            n == match self.root {
                Some(r) => self.spec_depth(r as int),
                None => 0,
            },
    {
        match self.root {
            Some(r) => BinaryTreeNode::get_depth(self, r),
            None => 0,
        }
    }
}

impl<T: Ordered> BinaryTreeNode<T> {
    /// Tells whether the node at `node` is a left child.
    pub fn is_left_child(tree: &BinaryTree<T>, node: usize) -> (b: bool)
        requires
            tree.wf(),
            tree.live(node as int),
        ensures
            b == tree.spec_is_left_child(node as int),
    {
        proof {
            assert(tree.linked(node as int));
        }
        match tree.at(node).parent {
            Some(q) => match tree.at(q).left {
                Some(l) => l == node,
                None => false,
            },
            None => false,
        }
    }

    /// Tells whether the node at `node` is a right child.
    pub fn is_right_child(tree: &BinaryTree<T>, node: usize) -> (b: bool)
        requires
            tree.wf(),
            tree.live(node as int),
        ensures
            b == tree.spec_is_right_child(node as int),
    {
        proof {
            assert(tree.linked(node as int));
        }
        match tree.at(node).parent {
            Some(q) => match tree.at(q).right {
                Some(r) => r == node,
                None => false,
            },
            None => false,
        }
    }

    /// Returns the parent of the parent of the node at `node`.
    pub fn get_grandparent(tree: &BinaryTree<T>, node: usize) -> (g: Option<usize>)
        requires
            tree.wf(),
            tree.live(node as int),
        ensures
            g == tree.spec_grandparent(node as int),
            g matches Some(gi) ==> tree.live(gi as int),
    {
        proof {
            assert(tree.linked(node as int));
        }
        match tree.at(node).parent {
            Some(q) => {
                proof {
                    assert(tree.linked(q as int));
                }
                tree.at(q).parent
            },
            None => None,
        }
    }

    /// Returns the sibling of the node at `node`: the other child of its parent.
    pub fn get_sibling(tree: &BinaryTree<T>, node: usize) -> (r: Option<usize>)
        requires
            tree.wf(),
            tree.live(node as int),
        ensures
            r == tree.spec_sibling(node as int),
            r matches Some(si) ==> tree.live(si as int) && si != node,
    {
        proof {
            assert(tree.linked(node as int));
        }
        match tree.at(node).parent {
            Some(q) => {
                proof {
                    assert(tree.linked(q as int));
                    if tree.node(q as int).left is Some {
                        assert(tree.linked(tree.node(q as int).left->Some_0 as int));
                    }
                    if tree.node(q as int).right is Some {
                        assert(tree.linked(tree.node(q as int).right->Some_0 as int));
                    }
                }
                if Self::is_left_child(tree, node) {
                    tree.at(q).right
                } else {
                    tree.at(q).left
                }
            },
            None => None,
        }
    }

    /// Returns the uncle of the node at `node`: the sibling of its parent.
    pub fn get_uncle(tree: &BinaryTree<T>, node: usize) -> (r: Option<usize>)
        requires
            tree.wf(),
            tree.live(node as int),
        ensures
            r == tree.spec_uncle(node as int),
            r matches Some(ui) ==> tree.live(ui as int),
    {
        proof {
            assert(tree.linked(node as int));
        }
        match tree.at(node).parent {
            Some(q) => Self::get_sibling(tree, q),
            None => None,
        }
    }

    /// Tells whether the node at `node`, its parent and its grandparent form
    /// a triangle: the node and its parent are children on different sides.
    pub fn is_triangle(tree: &BinaryTree<T>, node: usize) -> (b: bool)
        requires
            tree.wf(),
            tree.live(node as int),
        ensures
            b == (tree.spec_grandparent(node as int) is Some && tree.spec_is_left_child(
                node as int,
            ) != tree.spec_is_left_child(tree.node(node as int).parent->Some_0 as int)),
    {
        proof {
            assert(tree.linked(node as int));
        }
        match tree.at(node).parent {
            Some(q) => {
                if tree.at(q).parent.is_some() {
                    Self::is_left_child(tree, node) != Self::is_left_child(tree, q)
                } else {
                    false
                }
            },
            None => false,
        }
    }

    /// Tells whether the node at `node`, its parent and its grandparent form
    /// a line: the node and its parent are children on the same side.
    pub fn is_line(tree: &BinaryTree<T>, node: usize) -> (b: bool)
        requires
            tree.wf(),
            tree.live(node as int),
        ensures
            b == (tree.spec_grandparent(node as int) is Some && tree.spec_is_left_child(
                node as int,
            ) == tree.spec_is_left_child(tree.node(node as int).parent->Some_0 as int)),
    {
        proof {
            assert(tree.linked(node as int));
        }
        match tree.at(node).parent {
            Some(q) => {
                if tree.at(q).parent.is_some() {
                    Self::is_left_child(tree, node) == Self::is_left_child(tree, q)
                } else {
                    false
                }
            },
            None => false,
        }
    }

    /// Returns the number of nodes in the subtree of the node at `node`.
    pub fn nodes_count(tree: &BinaryTree<T>, node: usize) -> (n: usize)
        requires
            tree.wf(),
            tree.live(node as int),
        ensures
            n == tree.span(node as int),
        decreases tree.span(node as int),
    {
        proof {
            assert(tree.linked(node as int));
            tree.lemma_depth_bounds(node as int);
        }
        let left_count: usize = match tree.at(node).left {
            Some(l) => {
                proof {
                    assert(tree.linked(l as int));
                }
                Self::nodes_count(tree, l)
            },
            None => 0,
        };
        let right_count: usize = match tree.at(node).right {
            Some(r) => {
                proof {
                    assert(tree.linked(r as int));
                }
                Self::nodes_count(tree, r)
            },
            None => 0,
        };
        1 + left_count + right_count
    }

    /// Returns the depth of the node at `node` in the tree: the number of
    /// nodes above it.
    pub fn get_node_depth(tree: &BinaryTree<T>, node: usize) -> (n: usize)
        requires
            tree.wf(),
            tree.live(node as int),
        ensures
            n == tree.spec_node_depth(node as int),
        decreases tree.order@.len() - tree.span(node as int),
    {
        proof {
            assert(tree.linked(node as int));
            tree.lemma_node_depth_bounds(node as int);
            tree.lemma_depth_bounds(node as int);
        }
        match tree.at(node).parent {
            Some(q) => {
                proof {
                    assert(tree.linked(q as int));
                    tree.lemma_node_depth_bounds(q as int);
                }
                Self::get_node_depth(tree, q) + 1
            },
            None => 0,
        }
    }

    /// Returns the black depth of the node at `node` in the tree: the number
    /// of black nodes from it up to the root.
    pub fn get_node_black_depth(tree: &BinaryTree<T>, node: usize) -> (n: usize)
        requires
            tree.wf(),
            tree.live(node as int),
        ensures
            n == tree.spec_node_black_depth(node as int),
        decreases tree.order@.len() - tree.span(node as int),
    {
        proof {
            assert(tree.linked(node as int));
            tree.lemma_node_depth_bounds(node as int);
            tree.lemma_depth_bounds(node as int);
        }
        let above: usize = match tree.at(node).parent {
            Some(q) => {
                proof {
                    assert(tree.linked(q as int));
                    tree.lemma_node_depth_bounds(q as int);
                }
                Self::get_node_black_depth(tree, q)
            },
            None => 0,
        };
        if tree.at(node).is_black() {
            above + 1
        } else {
            above
        }
    }

    /// Returns the depth of the subtree of the node at `node`.
    pub fn get_depth(tree: &BinaryTree<T>, node: usize) -> (n: usize)
        requires
            tree.wf(),
            tree.live(node as int),
        ensures
            n == tree.spec_depth(node as int),
        decreases tree.span(node as int),
    {
        proof {
            assert(tree.linked(node as int));
            tree.lemma_depth_bounds(node as int);
        }
        let left_depth: usize = match tree.at(node).left {
            Some(l) => {
                proof {
                    assert(tree.linked(l as int));
                    tree.lemma_depth_bounds(l as int);
                }
                Self::get_depth(tree, l)
            },
            None => 0,
        };
        let right_depth: usize = match tree.at(node).right {
            Some(r) => {
                proof {
                    assert(tree.linked(r as int));
                    tree.lemma_depth_bounds(r as int);
                }
                Self::get_depth(tree, r)
            },
            None => 0,
        };
        if left_depth >= right_depth {
            left_depth + 1
        } else {
            right_depth + 1
        }
    }
}

impl<T: Ordered> BinaryTree<T> {
    /// Tells whether the same places of the arena hold the nodes of both
    /// trees, each with the same value.
    pub open spec fn same_nodes(pre: &Self, post: &Self) -> bool {
        &&& post.nodes@.len() == pre.nodes@.len()
        &&& forall|i: int|
            #![trigger post.live(i)]
            post.live(i) == pre.live(i) && (pre.live(i) ==> post.node(i).value == pre.node(i).value)
        &&& Self::parts_kept(pre, post, None)
    }

    /// Tells whether every node that is apart from the tree `pre`, but the
    /// one at `gone`, is apart from the tree `post` and as it was.
    pub open spec fn parts_kept(pre: &Self, post: &Self, gone: Option<int>) -> bool {
        forall|i: int|
            #![trigger post.apart(i)]
            pre.apart(i) && !is_at(gone, i) ==> post.apart(i) && post.nodes@[i] == pre.nodes@[i]
    }

    /// What holds of the nodes of two trees, and of those of the second and
    /// a third, holds of those of the first and the third.
    pub proof fn lemma_same_nodes_twice(a: &Self, b: &Self, c: &Self)
        requires
            Self::same_nodes(a, b),
            Self::same_nodes(b, c),
        ensures
            Self::same_nodes(a, c),
    {
        assert forall|i: int| #![trigger c.live(i)] c.live(i) == a.live(i) && (a.live(i) ==> c.node(
            i,
        ).value == a.node(i).value) by {
            assert(c.live(i) == b.live(i));
            assert(b.live(i) == a.live(i));
        }
        assert forall|i: int| #![trigger c.apart(i)] a.apart(i) && !is_at(None, i) implies c.apart(
            i,
        ) && c.nodes@[i] == a.nodes@[i] by {
            assert(Self::parts_kept(a, b, None));
            assert(b.apart(i));
            assert(b.nodes@[i] == a.nodes@[i]);
            assert(Self::parts_kept(b, c, None));
            assert(c.apart(i));
        }
        assert(Self::parts_kept(a, c, None));
    }

    /// Tells whether every node of `pre` but the one at `gone` is a node of
    /// `post`, at the same place of the arena and with the same value, and
    /// every node that is apart from `pre`, but that one, is apart from `post`
    /// and as it was.
    pub open spec fn nodes_kept(pre: &Self, post: &Self, gone: Option<int>) -> bool {
        &&& forall|i: int|
            #![trigger post.live(i)]
            pre.live(i) && !is_at(gone, i) ==> post.live(i) && post.node(i).value == pre.node(i).value
        &&& Self::parts_kept(pre, post, gone)
    }

    /// A tree that is a red-black tree but for a red node whose parent is
    /// black is a red-black tree.
    proof fn lemma_black_parent(&self, x: int)
        requires
            self.balanced_but(x),
            self.node(x).parent matches Some(q) && self.node(q as int).color == NodeColor::Black,
        ensures
            self.balanced(),
    {
        assert(self.linked(x));
        let q = self.node(x).parent->Some_0 as int;
        assert forall|i: int| self.live(i) implies #[trigger] self.no_red_child(i) by {
            assert(self.no_red_child_but(i, x));
            assert(self.linked(i));
            if self.node(i).left == Some(x as usize) || self.node(i).right == Some(x as usize) {
                assert(self.linked(x));
            }
        }
        match self.root {
            Some(r) => {
                assert(self.linked(r as int));
            },
            None => {},
        }
    }

    /// Restores the balance of the tree after the red node at `n` was added:
    /// while the node and its parent are both red, either the parent and the
    /// uncle are made black and the grandparent red, and the grandparent is
    /// looked at in turn, or the three are turned so that the middle one of
    /// them, made black, stands over the other two, made red. The root ends black.
    #[verifier::spinoff_prover]
    #[verifier::rlimit(100)]
    fn insert_equilibrate(&mut self, n: usize)
        requires
            old(self).wf(),
            old(self).live(n as int),
        ensures
            final(self).wf(),
            final(self)@ == old(self)@,
            Self::same_nodes(old(self), final(self)),
            final(self).root matches Some(r) ==> final(self).node(r as int).color
                == NodeColor::Black,
            old(self).balanced_but(n as int) ==> final(self).balanced(),
    {
        let ghost start_ok = self.balanced_but(n as int);
        let mut node: usize = n;
        let mut going: bool = true;
        let ghost mut fixed: bool = false;
        while going
            invariant
                self.wf(),
                self.live(node as int),
                self@ == old(self)@,
                Self::same_nodes(old(self), self),
                start_ok && !fixed ==> self.balanced_but(node as int),
                start_ok && fixed ==> self.balanced(),
                start_ok && !going && !fixed ==> self.root == Some(node),
                fixed ==> !going,
            decreases
                    (if going {
                        self.order@.len() - self.span(node as int) + 1
                    } else {
                        0
                    }),
        {
            proof {
                assert(self.linked(node as int));
            }
            match self.at(node).parent {
                None => {
                    going = false;
                },
                Some(parent) => {
                    proof {
                        assert(self.linked(parent as int));
                    }
                    if self.at(parent).is_black() {
                        proof {
                            if start_ok {
                                self.lemma_black_parent(node as int);
                            }
                            fixed = true;
                        }
                        going = false;
                    } else {
                        match self.at(parent).parent {
                            None => {
                                proof {
                                    if start_ok {
                                        assert(self.root == Some(parent));
                                        assert(false);
                                    }
                                }
                                going = false;
                            },
                            Some(g) => {
                                proof {
                                    assert(self.linked(g as int));
                                }
                                let uncle: Option<usize> = BinaryTreeNode::get_sibling(self, parent);
                                let red_uncle: Option<usize> = match uncle {
                                    Some(u) => if self.at(u).is_red() {
                                        Some(u)
                                    } else {
                                        None
                                    },
                                    None => None,
                                };
                                let ghost here = *self;
                                match red_uncle {
                                    Some(u) => {
                                        proof {
                                            assert(self.linked(u as int));
                                            assert(self.span(node as int) < self.span(parent as int));
                                            assert(self.span(parent as int) < self.span(g as int));
                                            assert(self.span(g as int) <= self.order@.len());
                                        }
                                        self.recolor_up(Ghost(node as int), parent, u, g);
                                        proof {
                                            assert(self.span(g as int) == here.span(g as int));
                                            assert(self.order@.len() == here.order@.len()) by {
                                                assert(self@.len() == here@.len());
                                            }
                                        }
                                        node = g;
                                    },
                                    None => {
                                        let parent_on_left: bool = BinaryTreeNode::is_left_child(
                                            self,
                                            parent,
                                        );
                                        let node_on_left: bool = BinaryTreeNode::is_left_child(
                                            self,
                                            node,
                                        );
                                        if parent_on_left != node_on_left {
                                            self.pivot_up(node);
                                            let ghost turned = *self;
                                            proof {
                                                if start_ok {
                                                    Self::lemma_straightened(
                                                        &here,
                                                        self,
                                                        node as int,
                                                        parent as int,
                                                        uncle,
                                                        g as int,
                                                    );
                                                }
                                                Self::lemma_pivoted_children(
                                                    &here,
                                                    self,
                                                    node as int,
                                                    node as int,
                                                );
                                            }
                                            self.rotate_fix(
                                                Ghost(parent as int),
                                                node,
                                                Ghost(uncle),
                                                g,
                                            );
                                            proof {
                                                Self::lemma_same_nodes_twice(&here, &turned, self);
                                            }
                                        } else {
                                            self.rotate_fix(
                                                Ghost(node as int),
                                                parent,
                                                Ghost(uncle),
                                                g,
                                            );
                                        }
                                        proof {
                                            fixed = true;
                                        }
                                        going = false;
                                    },
                                }
                                proof {
                                    Self::lemma_same_nodes_twice(old(self), &here, self);
                                }
                            },
                        }
                    }
                },
            }
        }
        proof {
            assert(self.linked(node as int));
        }
        let ghost leveled = *self;
        self.blacken_root();
        proof {
            Self::lemma_same_nodes_twice(old(self), &leveled, self);
        }
    }
}

/// The place of a node after the node of rank `at` was taken out of the tree:
/// the ranks past `at` move down by one, and the subtrees that held the rank
/// `at` shrink by one.
pub open spec fn place_after_remove(place: Place, at: int) -> Place {
    Place {
        pos: if place.pos > at {
            place.pos - 1
        } else {
            place.pos
        },
        lo: if place.lo > at {
            place.lo - 1
        } else {
            place.lo
        },
        hi: if place.hi >= at {
            place.hi - 1
        } else {
            place.hi
        },
    }
}

impl<T: Ordered> BinaryTree<T> {
    /// Tells whether `post` is the tree `pre` without the node at `z`, which
    /// has no left child: its right child, if it has one, has taken its place
    /// under its parent, and its place in the arena is free.
    pub open spec fn spliced(pre: &Self, post: &Self, z: int) -> bool {
        let q = pre.node(z).parent;
        let c = pre.node(z).right;
        let at = pre.place(z).pos;
        &&& pre.live(z)
        &&& pre.node(z).left is None
        &&& post.nodes@.len() == pre.nodes@.len()
        &&& post.nodes@[z] is None
        &&& forall|i: int|
            0 <= i < pre.nodes@.len() && i != z && Some(i as usize) != q && Some(i as usize) != c
                ==> #[trigger] post.nodes@[i] == pre.nodes@[i]
        &&& c matches Some(ci) ==> {
            &&& post.live(ci as int)
            &&& post.node(ci as int).parent == q
            &&& post.node(ci as int).left == pre.node(ci as int).left
            &&& post.node(ci as int).right == pre.node(ci as int).right
            &&& post.node(ci as int).value == pre.node(ci as int).value
            &&& post.node(ci as int).color == pre.node(ci as int).color
        }
        &&& match q {
            Some(qi) => {
                &&& post.live(qi as int)
                &&& post.node(qi as int).parent == pre.node(qi as int).parent
                &&& post.node(qi as int).value == pre.node(qi as int).value
                &&& post.node(qi as int).color == pre.node(qi as int).color
                &&& if pre.node(qi as int).left == Some(z as usize) {
                    post.node(qi as int).left == c && post.node(qi as int).right == pre.node(
                        qi as int,
                    ).right
                } else {
                    post.node(qi as int).right == c && post.node(qi as int).left == pre.node(
                        qi as int,
                    ).left
                }
                &&& post.root == pre.root
            },
            None => post.root == c,
        }
        &&& post.free@ == pre.free@.push(z as usize)
        &&& post.order@ == pre.order@.remove(at)
        &&& post.detached@ == pre.detached@
        &&& forall|i: int|
            0 <= i <= usize::MAX ==> #[trigger] post.place(i) == place_after_remove(pre.place(i), at)
    }

    /// After a node without a left child was taken out, every node that is
    /// left stands where its relatives say.
    #[verifier::rlimit(100)]
    #[verifier::spinoff_prover]
    proof fn lemma_spliced_node(pre: &Self, post: &Self, z: int, i: int)
        requires
            pre.wf(),
            Self::spliced(pre, post, z),
            post.live(i),
        ensures
            pre.live(i),
            i != z,
            post.linked(i),
            post.node(i).value == pre.node(i).value,
            post.place(i) == place_after_remove(pre.place(i), pre.place(z).pos),
    {
        let q = pre.node(z).parent;
        let c = pre.node(z).right;
        let at = pre.place(z).pos;
        assert(pre.linked(z));
        if c is Some {
            assert(pre.linked(c->Some_0 as int));
        }
        if q is Some {
            assert(pre.linked(q->Some_0 as int));
        }
        if i != z && Some(i as usize) != q && Some(i as usize) != c {
            assert(post.nodes@[i] == pre.nodes@[i]);
        }
        assert(pre.live(i));
        assert(pre.linked(i));
        assert(post.place(i) == place_after_remove(pre.place(i), at));
        let n = pre.node(i);
        if n.left is Some {
            let l = n.left->Some_0 as int;
            assert(pre.linked(l));
            assert(post.place(l) == place_after_remove(pre.place(l), at));
        }
        if n.right is Some {
            let r = n.right->Some_0 as int;
            assert(pre.linked(r));
            assert(post.place(r) == place_after_remove(pre.place(r), at));
        }
        if n.parent is Some {
            let u = n.parent->Some_0 as int;
            assert(pre.linked(u));
            assert(post.place(u) == place_after_remove(pre.place(u), at));
        }
        let m = post.node(i);
        if m.left is Some {
            let l = m.left->Some_0 as int;
            assert(pre.live(l));
            assert(pre.linked(l));
            assert(post.place(l) == place_after_remove(pre.place(l), at));
        }
        if m.right is Some {
            let r = m.right->Some_0 as int;
            assert(pre.live(r));
            assert(pre.linked(r));
            assert(post.place(r) == place_after_remove(pre.place(r), at));
        }
        if m.parent is Some {
            let u = m.parent->Some_0 as int;
            assert(pre.live(u));
            assert(pre.linked(u));
        }
        if pre.place(i).pos == at {
            assert(i == z);
        }
    }

    /// Taking a node without a left child out keeps the tree consistent,
    /// and leaves what it held but for the value at the rank of the node.
    #[verifier::spinoff_prover]
    #[verifier::rlimit(50)]
    pub proof fn lemma_spliced(pre: &Self, post: &Self, z: int)
        requires
            pre.wf(),
            Self::spliced(pre, post, z),
        ensures
            post.wf(),
            post@ == pre@.remove(pre.place(z).pos),
            0 <= pre.place(z).pos < pre@.len(),
            pre@[pre.place(z).pos] == pre.node(z).value,
            Self::nodes_kept(pre, post, Some(z)),
    {
        assert(pre.linked(z));
        assert forall|i: int| pre.apart(i) implies #[trigger] post.nodes@[i] == pre.nodes@[i] by {
            assert(pre.occupied(i));
        }
        Self::lemma_parts_loose(pre, post, None);
        let q = pre.node(z).parent;
        let c = pre.node(z).right;
        let at = pre.place(z).pos;
        assert(pre.linked(z));
        if c is Some {
            assert(pre.linked(c->Some_0 as int));
        }
        if q is Some {
            assert(pre.linked(q->Some_0 as int));
        }
        assert forall|i: int| post.live(i) implies #[trigger] post.linked(i) by {
            Self::lemma_spliced_node(pre, post, z, i);
        }
        assert forall|p: int| 0 <= p < post.order@.len() implies post.live(
            #[trigger] post.order@[p] as int,
        ) && post.place(post.order@[p] as int).pos == p && post.value_at(p) == pre.value_at(
            if p < at {
                p
            } else {
                p + 1
            },
        ) by {
            let old_p = if p < at {
                p
            } else {
                p + 1
            };
            let i = pre.order@[old_p] as int;
            assert(post.order@[p] == i);
            assert(pre.live(i));
            assert(pre.linked(i));
            assert(i != z);
            assert(post.live(i)) by {
                if Some(i as usize) != q && Some(i as usize) != c {
                    assert(post.nodes@[i] == pre.nodes@[i]);
                }
            }
            Self::lemma_spliced_node(pre, post, z, i);
        }
        assert forall|a: int, b: int| 0 <= a <= b < post.order@.len() implies le(
            &#[trigger] post.value_at(a),
            &#[trigger] post.value_at(b),
        ) by {
            let pa = if a < at {
                a
            } else {
                a + 1
            };
            let pb = if b < at {
                b
            } else {
                b + 1
            };
            assert(post.live(post.order@[a] as int));
            assert(post.live(post.order@[b] as int));
            assert(le(&pre.value_at(pa), &pre.value_at(pb)));
        }
        match post.root {
            Some(r) => {
                if pre.root is Some {
                    assert(pre.linked(pre.root->Some_0 as int));
                }
                Self::lemma_spliced_node(pre, post, z, r as int);
            },
            None => {
                if pre.root is Some {
                    assert(pre.linked(pre.root->Some_0 as int));
                }
            },
        }
        assert forall|j: int| 0 <= j < post.free@.len() implies (#[trigger] post.free@[j])
            < post.nodes@.len() && post.nodes@[post.free@[j] as int] is None by {
            if j < pre.free@.len() {
                let f = pre.free@[j] as int;
                assert(pre.nodes@[f] is None);
                if c is Some {
                    assert(pre.live(c->Some_0 as int));
                }
                if q is Some {
                    assert(pre.live(q->Some_0 as int));
                }
                assert(post.nodes@[f] == pre.nodes@[f]);
            }
        }
        assert forall|j: int, k: int| 0 <= j < k < post.free@.len() implies (
        #[trigger] post.free@[j]) != (#[trigger] post.free@[k]) by {
            if k < pre.free@.len() {
                assert(pre.free@[j] != pre.free@[k]);
            } else {
                assert(pre.nodes@[pre.free@[j] as int] is None);
            }
        }
        assert forall|p: int| 0 <= p < post@.len() implies post@[p] == pre@.remove(at)[p] by {
            assert(post.live(post.order@[p] as int));
        }
        assert(post@ =~= pre@.remove(at));
    }

    /// Takes the node at `z`, which has no left child, out of the tree.
    #[verifier::spinoff_prover]
    #[verifier::rlimit(50)]
    fn splice_out(&mut self, z: usize)
        requires
            old(self).wf(),
            old(self).live(z as int),
            old(self).node(z as int).left is None,
        ensures
            final(self).wf(),
            final(self)@ == old(self)@.remove(old(self).place(z as int).pos),
            0 <= old(self).place(z as int).pos < old(self)@.len(),
            old(self)@[old(self).place(z as int).pos] == old(self).node(z as int).value,
            !final(self).occupied(z as int),
            Self::nodes_kept(old(self), final(self), Some(z as int)),
    {
        proof {
            assert(self.linked(z as int));
        }
        let q: Option<usize> = self.at(z).parent;
        let c: Option<usize> = self.at(z).right;
        proof {
            if c is Some {
                assert(self.linked(c->Some_0 as int));
            }
            if q is Some {
                assert(self.linked(q->Some_0 as int));
            }
        }
        match c {
            Some(ci) => match &mut self.nodes[ci] {
                Some(n) => {
                    n.parent = q;
                },
                None => {},
            },
            None => {},
        }
        match q {
            Some(qi) => match &mut self.nodes[qi] {
                Some(n) => {
                    let left_is_z: bool = match n.left {
                        Some(l) => l == z,
                        None => false,
                    };
                    if left_is_z {
                        n.left = c;
                    } else {
                        n.right = c;
                    }
                },
                None => {},
            },
            None => {
                self.root = c;
            },
        }
        self.nodes.set(z, None);
        self.free.push(z);
        proof {
            let at = old(self).place(z as int).pos;
            let before = old(self).places@;
            self.order = Ghost(old(self).order@.remove(at));
            self.places = Ghost(|i: usize| place_after_remove(before(i), at));
            assert(Self::spliced(old(self), self, z as int));
            Self::lemma_spliced(old(self), self, z as int);
        }
    }

    /// Removes a value from the tree. If the value is held several times,
    /// one of them is removed. The node that holds it is first turned down
    /// until it has no left child.
    pub fn remove(&mut self, val: T)
        requires
            old(self).wf(),
        ensures
            final(self).wf(),
            old(self)@.contains(val) ==> exists|k: int|
                0 <= k < old(self)@.len() && old(self)@[k] == val && #[trigger] old(self)@.remove(k)
                    == final(self)@,
            !old(self)@.contains(val) ==> final(self)@ == old(self)@ && Self::nodes_kept(old(self), final(self), None),
            old(self)@.contains(val) ==> exists|z: int|
                #![trigger old(self).live(z)]
                old(self).live(z) && old(self).node(z).value == val && !final(self).occupied(z)
                    && Self::nodes_kept(old(self), final(self), Some(z)),
    {
        let z: usize = match self.get_node(&val) {
            Some(z) => z,
            None => {
                return ;
            },
        };
        let ghost k = self.place(z as int).pos;
        self.remove_node(z);
        proof {
            assert(old(self)@[k] == val);
            assert(old(self)@.remove(k) == self@);
        }
    }

    /// Takes the node at `z` out of the tree and frees its place in the
    /// arena: the node is turned down until it has no left child, and its
    /// right child, if it has one, takes its place. Every other node stays
    /// where it is in the arena, with its value.
    #[verifier::spinoff_prover]
    #[verifier::rlimit(50)]
    pub fn remove_node(&mut self, z: usize)
        requires
            old(self).wf(),
            old(self).live(z as int),
        ensures
            final(self).wf(),
            final(self)@ == old(self)@.remove(old(self).rank(z as int)),
            0 <= old(self).rank(z as int) < old(self)@.len(),
            old(self)@[old(self).rank(z as int)] == old(self).node(z as int).value,
            !final(self).occupied(z as int),
            Self::nodes_kept(old(self), final(self), Some(z as int)),
    {
        let mut left: Option<usize> = self.at(z).left;
        proof {
            assert(self.linked(z as int));
        }
        while left.is_some()
            invariant
                self.wf(),
                self.live(z as int),
                self@ == old(self)@,
                Self::same_nodes(old(self), self),
                self.node(z as int).value == old(self).node(z as int).value,
                self.place(z as int).pos == old(self).place(z as int).pos,
                left == self.node(z as int).left,
            decreases self.place(z as int).pos - self.place(z as int).lo,
        {
            let l: usize = left.unwrap();
            proof {
                assert(self.linked(z as int));
                assert(self.linked(l as int));
            }
            let ghost here = *self;
            self.pivot_up(l);
            proof {
                Self::lemma_same_nodes_twice(old(self), &here, self);
            }
            left = self.at(z).left;
        }
        let ghost turned = *self;
        self.splice_out(z);
        proof {
            assert forall|i: int|
                #![trigger self.live(i)]
                old(self).live(i) && !is_at(Some(z as int), i) implies self.live(i) && self.node(
                i,
            ).value == old(self).node(i).value by {
                assert(turned.live(i) == old(self).live(i));
                assert(turned.node(i).value == old(self).node(i).value);
                assert(self.live(i) && self.node(i).value == turned.node(i).value);
            }
            assert forall|i: int|
                #![trigger self.apart(i)]
                old(self).apart(i) && !is_at(Some(z as int), i) implies self.apart(i)
                && self.nodes@[i] == old(self).nodes@[i] by {
                assert(Self::parts_kept(old(self), &turned, None));
                assert(turned.apart(i) && turned.nodes@[i] == old(self).nodes@[i]);
                assert(Self::parts_kept(&turned, self, Some(z as int)));
            }
            assert(Self::nodes_kept(old(self), self, Some(z as int)));
        }
    }
}

impl<T: Ordered> BinaryTree<T> {
    /// The rank of the node at `i`: the number of values that come before
    /// its own in the order of the tree.
    pub open spec fn rank(&self, i: int) -> int {
        self.place(i).pos
    }

    /// The nodes of the subtree of the node at `i` in the order in which the
    /// traversal `traversal_type` visits them.
    pub open spec fn spec_traverse(&self, i: int, traversal_type: TraversalType) -> Seq<usize>
        decreases self.span(i),
        when self.wf() && self.live(i)
        via Self::traverse_decreases
    {
        let l: Seq<usize> = match self.node(i).left {
            Some(l) => self.spec_traverse(l as int, traversal_type),
            None => Seq::empty(),
        };
        let r: Seq<usize> = match self.node(i).right {
            Some(r) => self.spec_traverse(r as int, traversal_type),
            None => Seq::empty(),
        };
        match traversal_type {
            TraversalType::PreOrder => seq![i as usize] + l + r,
            TraversalType::InOrder => l + seq![i as usize] + r,
            TraversalType::ReverseInOrder => r + seq![i as usize] + l,
            TraversalType::PostOrder => l + r + seq![i as usize],
        }
    }

    #[via_fn]
    proof fn traverse_decreases(&self, i: int, traversal_type: TraversalType) {
        assert(self.linked(i));
        match self.node(i).left {
            Some(l) => {
                assert(self.linked(l as int));
            },
            None => {},
        }
        match self.node(i).right {
            Some(r) => {
                assert(self.linked(r as int));
            },
            None => {},
        }
    }

    /// A traversal visits each node of the subtree once; the traversal in
    /// order visits them by rank.
    pub proof fn lemma_traverse(&self, i: int, traversal_type: TraversalType)
        requires
            self.wf(),
            self.live(i),
        ensures
            self.spec_traverse(i, traversal_type).len() == self.span(i),
            traversal_type == TraversalType::InOrder ==> self.spec_traverse(i, traversal_type)
                == self.order@.subrange(self.place(i).lo, self.place(i).hi + 1),
        decreases self.span(i),
    {
        assert(self.linked(i));
        match self.node(i).left {
            Some(l) => {
                assert(self.linked(l as int));
                self.lemma_traverse(l as int, traversal_type);
            },
            None => {},
        }
        match self.node(i).right {
            Some(r) => {
                assert(self.linked(r as int));
                self.lemma_traverse(r as int, traversal_type);
            },
            None => {},
        }
        if traversal_type == TraversalType::InOrder {
            let p = self.place(i);
            assert(self.spec_traverse(i, traversal_type) =~= self.order@.subrange(p.lo, p.hi + 1));
        }
    }

    /// The nodes that a traversal visits under a child: none where there is
    /// no child.
    pub open spec fn spec_traverse_child(
        &self,
        child: Option<usize>,
        traversal_type: TraversalType,
    ) -> Seq<usize> {
        match child {
            Some(c) => self.spec_traverse(c as int, traversal_type),
            None => Seq::empty(),
        }
    }

    /// A traversal visits a node and the subtrees of its children in the
    /// order that its kind says.
    proof fn lemma_traverse_unfold(&self, i: int, traversal_type: TraversalType)
        requires
            self.wf(),
            self.live(i),
        ensures
            self.spec_traverse(i, traversal_type) == ({
                let l = self.spec_traverse_child(self.node(i).left, traversal_type);
                let r = self.spec_traverse_child(self.node(i).right, traversal_type);
                match traversal_type {
                    TraversalType::PreOrder => seq![i as usize] + l + r,
                    TraversalType::InOrder => l + seq![i as usize] + r,
                    TraversalType::ReverseInOrder => r + seq![i as usize] + l,
                    TraversalType::PostOrder => l + r + seq![i as usize],
                }
            }),
            self.span(i) >= 1,
            self.node(i).left matches Some(l) ==> self.live(l as int) && 1 <= self.span(l as int)
                < self.span(i),
            self.node(i).right matches Some(r) ==> self.live(r as int) && 1 <= self.span(r as int)
                < self.span(i),
    {
        assert(self.linked(i));
        match self.node(i).left {
            Some(l) => {
                assert(self.linked(l as int));
            },
            None => {},
        }
        match self.node(i).right {
            Some(r) => {
                assert(self.linked(r as int));
            },
            None => {},
        }
    }

    /// Adds to `visited` the nodes of the subtree of the node at `i` in the
    /// order of the traversal.
    #[verifier::spinoff_prover]
    #[verifier::rlimit(50)]
    fn traverse_from(&self, i: usize, traversal_type: TraversalType, visited: &mut Vec<usize>)
        requires
            self.wf(),
            self.live(i as int),
        ensures
            final(visited)@ == old(visited)@ + self.spec_traverse(i as int, traversal_type),
        decreases self.span(i as int), 0nat,
    {
        proof {
            self.lemma_traverse_unfold(i as int, traversal_type);
        }
        let left: Option<usize> = self.at(i).left;
        let right: Option<usize> = self.at(i).right;
        let ghost start = visited@;
        let ghost l: Seq<usize> = self.spec_traverse_child(left, traversal_type);
        let ghost r: Seq<usize> = self.spec_traverse_child(right, traversal_type);
        match traversal_type {
            TraversalType::PreOrder => {
                visited.push(i);
                self.traverse_child(left, traversal_type, visited);
                self.traverse_child(right, traversal_type, visited);
                assert(visited@ == start.push(i) + l + r);
                assert(start.push(i) + l + r =~= start + (seq![i] + l + r));
            },
            TraversalType::InOrder => {
                self.traverse_child(left, traversal_type, visited);
                visited.push(i);
                self.traverse_child(right, traversal_type, visited);
                assert(visited@ == (start + l).push(i) + r);
                assert((start + l).push(i) + r =~= start + (l + seq![i] + r));
            },
            TraversalType::ReverseInOrder => {
                self.traverse_child(right, traversal_type, visited);
                visited.push(i);
                self.traverse_child(left, traversal_type, visited);
                assert(visited@ == (start + r).push(i) + l);
                assert((start + r).push(i) + l =~= start + (r + seq![i] + l));
            },
            TraversalType::PostOrder => {
                self.traverse_child(left, traversal_type, visited);
                self.traverse_child(right, traversal_type, visited);
                visited.push(i);
                assert(visited@ == (start + l + r).push(i));
                assert((start + l + r).push(i) =~= start + (l + r + seq![i]));
            },
        }
    }

    /// Adds to `visited` the nodes of the subtree of the node `child`, if
    /// there is one, in the order of the traversal.
    fn traverse_child(
        &self,
        child: Option<usize>,
        traversal_type: TraversalType,
        visited: &mut Vec<usize>,
    )
        requires
            self.wf(),
            child matches Some(c) ==> self.live(c as int),
        ensures
            final(visited)@ == old(visited)@ + self.spec_traverse_child(child, traversal_type),
        decreases
                (match child {
                    Some(c) => self.span(c as int),
                    None => 0,
                }),
                1nat,
    {
        match child {
            Some(c) => {
                self.traverse_from(c, traversal_type, visited);
            },
            None => {
                assert(visited@ =~= old(visited)@ + Seq::<usize>::empty());
            },
        }
    }

    /// Returns the nodes of the tree in the order in which the traversal
    /// `traversal_type` visits them. In order, that is by rank.
    pub fn traverse(&self, traversal_type: TraversalType) -> (visited: Vec<usize>)
        requires
            self.wf(),
        ensures
            visited@ == match self.root {
                Some(r) => self.spec_traverse(r as int, traversal_type),
                None => Seq::empty(),
            },
            visited@.len() == self@.len(),
            traversal_type == TraversalType::InOrder ==> visited@ == self.order@,
    {
        let mut visited: Vec<usize> = Vec::new();
        match self.root {
            Some(r) => {
                proof {
                    assert(self.linked(r as int));
                    self.lemma_traverse(r as int, traversal_type);
                    assert(self.order@.subrange(0, self.order@.len() as int) =~= self.order@);
                    assert(self.place(r as int).lo == 0);
                    assert(self.place(r as int).hi + 1 == self.order@.len());
                    assert(self.span(r as int) == self@.len());
                }
                self.traverse_from(r, traversal_type, &mut visited);
                assert(visited@ =~= self.spec_traverse(r as int, traversal_type));
                proof {
                    if traversal_type == TraversalType::InOrder {
                        assert(self.spec_traverse(r as int, traversal_type)
                            == self.order@.subrange(0, self.order@.len() as int));
                        assert(visited@ =~= self.order@);
                    }
                }
            },
            None => {
                assert(visited@ =~= self.order@);
            },
        }
        visited
    }

    /// Tells whether the child `child` of the node at `i` is a node whose
    /// parent is that node.
    fn check_child(&self, i: usize, child: Option<usize>) -> (ok: bool)
        ensures
            ok == (child matches Some(c) ==> self.occupied(c as int) && self.node(c as int).parent
                == Some(i)),
    {
        match child {
            Some(c) => {
                if c >= self.nodes.len() {
                    return false;
                }
                match &self.nodes[c] {
                    Some(n) => match n.parent {
                        Some(q) => q == i,
                        None => false,
                    },
                    None => false,
                }
            },
            None => true,
        }
    }

    /// Checks the integrity of the arena: every child names as its parent the
    /// node that names it as its child. A consistent tree passes, with the
    /// nodes that are apart from it.
    pub fn check(&self) -> (ok: bool)
        ensures
            self.wf() ==> ok,
            ok ==> forall|i: int|
                #![trigger self.occupied(i)]
                self.occupied(i) ==> (self.node(i).left matches Some(c) ==> self.occupied(c as int)
                    && self.node(c as int).parent == Some(i as usize)) && (self.node(
                    i,
                ).right matches Some(c) ==> self.occupied(c as int) && self.node(c as int).parent
                    == Some(i as usize)),
    {
        let mut i: usize = 0;
        while i < self.nodes.len()
            invariant
                i <= self.nodes@.len(),
                forall|j: int|
                    #![trigger self.occupied(j)]
                    0 <= j < i && self.occupied(j) ==> (self.node(j).left matches Some(c)
                        ==> self.occupied(c as int) && self.node(c as int).parent == Some(j as usize))
                        && (self.node(j).right matches Some(c) ==> self.occupied(c as int) && self.node(
                        c as int,
                    ).parent == Some(j as usize)),
            decreases self.nodes.len() - i,
        {
            match &self.nodes[i] {
                Some(n) => {
                    proof {
                        if self.wf() {
                            if self.live(i as int) {
                                assert(self.linked(i as int));
                            } else {
                                assert(self.apart(i as int));
                                assert(self.loose(i as int));
                                if n.left is Some {
                                    assert(self.occupied(n.left->Some_0 as int));
                                }
                                if n.right is Some {
                                    assert(self.occupied(n.right->Some_0 as int));
                                }
                            }
                        }
                    }
                    if !self.check_child(i, n.left) || !self.check_child(i, n.right) {
                        return false;
                    }
                },
                None => {},
            }
            i += 1;
        }
        true
    }

    /// Returns the value of the node at the place `node`, if the place
    /// holds a node.
    pub fn get_value(&self, node: usize) -> (r: Option<&T>)
        ensures
            match r {
                Some(v) => self.occupied(node as int) && *v == self.node(node as int).value,
                None => !self.occupied(node as int),
            },
    {
        if node >= self.nodes.len() {
            return None;
        }
        match &self.nodes[node] {
            Some(n) => Some(&n.value),
            None => None,
        }
    }
}

impl<T: Ordered> BinaryTreeNode<T> {
    /// Applies a left rotation with the node at `node` as pivot: the node,
    /// a right child, takes the place of its parent, which becomes its left
    /// child. The order of the values stays.
    pub fn left_rotate(tree: &mut BinaryTree<T>, node: usize)
        requires
            old(tree).wf(),
            old(tree).live(node as int),
            old(tree).spec_is_right_child(node as int),
        ensures
            final(tree).wf(),
            final(tree)@ == old(tree)@,
            BinaryTree::pivoted(old(tree), final(tree), node as int),
            final(tree).node(node as int).left == old(tree).node(node as int).parent,
    {
        proof {
            assert(tree.linked(node as int));
            assert(tree.linked(tree.node(node as int).parent->Some_0 as int));
        }
        tree.pivot_up(node);
    }

    /// Applies a right rotation with the node at `node` as pivot: the node,
    /// a left child, takes the place of its parent, which becomes its right
    /// child. The order of the values stays.
    pub fn right_rotate(tree: &mut BinaryTree<T>, node: usize)
        requires
            old(tree).wf(),
            old(tree).live(node as int),
            old(tree).spec_is_left_child(node as int),
        ensures
            final(tree).wf(),
            final(tree)@ == old(tree)@,
            BinaryTree::pivoted(old(tree), final(tree), node as int),
            final(tree).node(node as int).right == old(tree).node(node as int).parent,
    {
        proof {
            assert(tree.linked(node as int));
        }
        tree.pivot_up(node);
    }

    /// Unlinks the node at `node` from its relatives: its parent forgets it,
    /// its children lose their parent, and the node itself is left with no
    /// relative. Every node stays in the arena, with its value and its
    /// color. Where the node was in the tree under the root, that tree loses
    /// the subtree of the node, or, where the node is the root, keeps the
    /// node alone. Where the node was apart from the tree, the tree is as it
    /// was.
    #[verifier::spinoff_prover]
    #[verifier::rlimit(50)]
    pub fn unlink(tree: &mut BinaryTree<T>, node: usize)
        requires
            old(tree).wf(),
            old(tree).occupied(node as int),
        ensures
            final(tree).wf(),
            BinaryTree::unlinked(old(tree), final(tree), node as int),
            forall|i: int| #[trigger] final(tree).occupied(i) == old(tree).occupied(i),
            forall|i: int| #[trigger]
                final(tree).live(i) == (old(tree).live(i) && !(old(tree).live(node as int)
                    && old(tree).cut_by(node as int, i))),
            final(tree)@ == if old(tree).live(node as int) {
                old(tree).view_without(node as int)
            } else {
                old(tree)@
            },
    {
        proof {
            if tree.live(node as int) {
                assert(tree.linked(node as int));
            } else {
                assert(tree.apart(node as int));
                assert(tree.loose(node as int));
            }
        }
        let q: Option<usize> = tree.slot(node).parent;
        let l: Option<usize> = tree.slot(node).left;
        let r: Option<usize> = tree.slot(node).right;
        proof {
            if tree.live(node as int) {
                if q is Some {
                    assert(tree.linked(q->Some_0 as int));
                }
                if l is Some {
                    assert(tree.linked(l->Some_0 as int));
                }
                if r is Some {
                    assert(tree.linked(r->Some_0 as int));
                }
            } else {
                if q is Some {
                    assert(tree.apart(q->Some_0 as int));
                    assert(tree.loose(q->Some_0 as int));
                }
                if l is Some {
                    assert(tree.apart(l->Some_0 as int));
                    assert(tree.loose(l->Some_0 as int));
                }
                if r is Some {
                    assert(tree.apart(r->Some_0 as int));
                    assert(tree.loose(r->Some_0 as int));
                }
            }
        }
        let on_left: bool = match q {
            Some(qi) => match tree.slot(qi).left {
                Some(c) => c == node,
                None => false,
            },
            None => false,
        };
        match q {
            Some(qi) => match &mut tree.nodes[qi] {
                Some(n) => {
                    if on_left {
                        n.left = None;
                    } else {
                        n.right = None;
                    }
                },
                None => {},
            },
            None => {},
        }
        match l {
            Some(li) => match &mut tree.nodes[li] {
                Some(n) => {
                    n.parent = None;
                },
                None => {},
            },
            None => {},
        }
        match r {
            Some(ri) => match &mut tree.nodes[ri] {
                Some(n) => {
                    n.parent = None;
                },
                None => {},
            },
            None => {},
        }
        match &mut tree.nodes[node] {
            Some(n) => {
                n.parent = None;
                n.left = None;
                n.right = None;
            },
            None => {},
        }
        proof {
            let before = *old(tree);
            assert(BinaryTree::unlinked(old(tree), tree, node as int));
            if before.live(node as int) {
                let lo = before.place(node as int).lo;
                let hi = before.place(node as int).hi;
                let places = before.places@;
                if q is Some {
                    tree.order = Ghost(before.order@.take(lo) + before.order@.skip(hi + 1));
                    tree.places = Ghost(|i: usize| place_after_prune(places(i), lo, hi));
                } else {
                    tree.order = Ghost(seq![node]);
                    tree.places = Ghost(|i: usize| Place { pos: 0, lo: 0, hi: 0 });
                }
                tree.detached = Ghost(
                    Set::new(
                        |i: usize|
                            before.apart(i as int) || (before.live(i as int) && before.cut_by(
                                node as int,
                                i as int,
                            )),
                    ),
                );
                assert(BinaryTree::unlinked(old(tree), tree, node as int));
                BinaryTree::lemma_unlinked(old(tree), tree, node as int);
            } else {
                BinaryTree::lemma_unlinked_apart(old(tree), tree, node as int);
            }
        }
    }
}

/// The place of a node that stays in the tree after the subtree that held
/// the ranks from `lo` to `hi` was cut off: the ranks past `hi` move down by
/// the size of that subtree, and the subtrees that held it shrink by as much.
pub open spec fn place_after_prune(place: Place, lo: int, hi: int) -> Place {
    Place {
        pos: if place.pos > hi {
            place.pos - (hi - lo + 1)
        } else {
            place.pos
        },
        lo: if place.lo > hi {
            place.lo - (hi - lo + 1)
        } else {
            place.lo
        },
        hi: if place.hi >= hi {
            place.hi - (hi - lo + 1)
        } else {
            place.hi
        },
    }
}

impl<T: Ordered> BinaryTree<T> {
    /// Tells whether the node at `i` leaves the tree under the root when the
    /// node at `n` is unlinked: it stands in the subtree of that node, or,
    /// where that node is the root, it is another node.
    pub open spec fn cut_by(&self, n: int, i: int) -> bool {
        if self.node(n).parent is Some {
            self.place(n).lo <= self.place(i).pos <= self.place(n).hi
        } else {
            i != n
        }
    }

    /// The values of the tree under the root once the node at `n` is
    /// unlinked: those outside the subtree of the node, or, where the node
    /// is the root, its own value alone.
    pub open spec fn view_without(&self, n: int) -> Seq<T> {
        if self.node(n).parent is Some {
            self@.take(self.place(n).lo) + self@.skip(self.place(n).hi + 1)
        } else {
            seq![self.node(n).value]
        }
    }

    /// Tells whether the arena of `post` is that of `pre` with the node at
    /// `n` unlinked: the node has no parent and no child, and keeps its value
    /// and color; its parent has no child where the node was, and is
    /// otherwise as before; each of its children has no parent, and is
    /// otherwise as before; no other place has changed.
    pub open spec fn unlinked(pre: &Self, post: &Self, n: int) -> bool {
        let q = pre.node(n).parent;
        let l = pre.node(n).left;
        let r = pre.node(n).right;
        &&& post.nodes@.len() == pre.nodes@.len()
        &&& forall|i: int|
            0 <= i < pre.nodes@.len() && i != n && Some(i as usize) != q && Some(i as usize) != l
                && Some(i as usize) != r ==> #[trigger] post.nodes@[i] == pre.nodes@[i]
        &&& post.occupied(n)
        &&& post.node(n).parent is None
        &&& post.node(n).left is None
        &&& post.node(n).right is None
        &&& post.node(n).value == pre.node(n).value
        &&& post.node(n).color == pre.node(n).color
        &&& q matches Some(qi) ==> {
            &&& post.occupied(qi as int)
            &&& post.node(qi as int).parent == pre.node(qi as int).parent
            &&& post.node(qi as int).value == pre.node(qi as int).value
            &&& post.node(qi as int).color == pre.node(qi as int).color
            &&& if pre.node(qi as int).left == Some(n as usize) {
                post.node(qi as int).left is None && post.node(qi as int).right == pre.node(
                    qi as int,
                ).right
            } else {
                post.node(qi as int).right is None && post.node(qi as int).left == pre.node(
                    qi as int,
                ).left
            }
        }
        &&& l matches Some(li) ==> {
            &&& post.occupied(li as int)
            &&& post.node(li as int).parent is None
            &&& post.node(li as int).left == pre.node(li as int).left
            &&& post.node(li as int).right == pre.node(li as int).right
            &&& post.node(li as int).value == pre.node(li as int).value
            &&& post.node(li as int).color == pre.node(li as int).color
        }
        &&& r matches Some(ri) ==> {
            &&& post.occupied(ri as int)
            &&& post.node(ri as int).parent is None
            &&& post.node(ri as int).left == pre.node(ri as int).left
            &&& post.node(ri as int).right == pre.node(ri as int).right
            &&& post.node(ri as int).value == pre.node(ri as int).value
            &&& post.node(ri as int).color == pre.node(ri as int).color
        }
        &&& post.root == pre.root
        &&& post.free@ == pre.free@
    }

    /// Tells whether the order of `post` is that of `pre` once the node at
    /// `n` is unlinked.
    pub open spec fn order_cut(pre: &Self, post: &Self, n: int) -> bool {
        let lo = pre.place(n).lo;
        let hi = pre.place(n).hi;
        &&& pre.live(n)
        &&& forall|i: int|
            #![trigger post.apart(i)]
            0 <= i <= usize::MAX ==> post.apart(i) == (pre.apart(i) || (pre.live(i) && pre.cut_by(n, i)))
        &&& if pre.node(n).parent is Some {
            &&& post.order@ == pre.order@.take(lo) + pre.order@.skip(hi + 1)
            &&& forall|i: int|
                0 <= i <= usize::MAX ==> #[trigger] post.place(i) == place_after_prune(
                    pre.place(i),
                    lo,
                    hi,
                )
        } else {
            &&& post.order@ == seq![n as usize]
            &&& forall|i: int|
                0 <= i <= usize::MAX ==> #[trigger] post.place(i) == (Place { pos: 0, lo: 0, hi: 0 })
        }
    }

    /// A node whose rank lies among those of the subtree of the node at `c`
    /// has all its subtree there, and, unless it is that node, its parent too.
    pub proof fn lemma_within(&self, c: int, j: int)
        requires
            self.wf(),
            self.live(c),
            self.live(j),
            self.place(c).lo <= self.place(j).pos <= self.place(c).hi,
        ensures
            self.place(c).lo <= self.place(j).lo,
            self.place(j).hi <= self.place(c).hi,
            j != c ==> (self.node(j).parent matches Some(u) && self.live(u as int) && self.place(
                c,
            ).lo <= self.place(u as int).pos <= self.place(c).hi),
        decreases self.span(c),
    {
        assert(self.linked(c));
        assert(self.linked(j));
        if self.place(j).pos == self.place(c).pos {
            assert(j == c);
        } else if self.place(j).pos < self.place(c).pos {
            let l = self.node(c).left->Some_0 as int;
            assert(self.linked(l));
            if j != l {
                self.lemma_within(l, j);
            }
        } else {
            let r = self.node(c).right->Some_0 as int;
            assert(self.linked(r));
            if j != r {
                self.lemma_within(r, j);
            }
        }
    }

    /// The subtree of a node whose rank lies outside the subtree of the node
    /// at `c` holds all of that subtree or none of it.
    pub proof fn lemma_cover(&self, i: int, c: int)
        requires
            self.wf(),
            self.live(i),
            self.live(c),
            !(self.place(c).lo <= self.place(i).pos <= self.place(c).hi),
        ensures
            (self.place(i).lo <= self.place(c).lo && self.place(c).hi <= self.place(i).hi)
                || self.place(c).hi < self.place(i).lo || self.place(i).hi < self.place(c).lo,
        decreases self.span(i),
    {
        assert(self.linked(i));
        assert(self.linked(c));
        if self.place(c).hi < self.place(i).lo || self.place(i).hi < self.place(c).lo {
        } else if self.place(i).pos > self.place(c).hi {
            let l = self.node(i).left->Some_0 as int;
            assert(self.linked(l));
            if self.place(c).lo <= self.place(l).pos <= self.place(c).hi {
                self.lemma_within(c, l);
            } else {
                self.lemma_cover(l, c);
            }
        } else {
            let r = self.node(i).right->Some_0 as int;
            assert(self.linked(r));
            if self.place(c).lo <= self.place(r).pos <= self.place(c).hi {
                self.lemma_within(c, r);
            } else {
                self.lemma_cover(r, c);
            }
        }
    }

    /// The nodes that leave the tree when the node at `n` is unlinked.
    pub open spec fn cut_off(&self, n: int) -> Set<usize> {
        Set::new(|i: usize| self.live(i as int) && self.cut_by(n, i as int))
    }

    /// The nodes that leave the tree when a node is unlinked are as many as
    /// the order loses, at most.
    proof fn lemma_cut_count(&self, n: int)
        requires
            self.wf(),
            self.live(n),
        ensures
            self.cut_off(n).finite(),
            self.cut_off(n).len() <= (if self.node(n).parent is Some {
                self.span(n)
            } else {
                self.order@.len() - 1
            }),
    {
        broadcast use vstd::seq_lib::seq_to_set_is_finite;

        assert(self.linked(n));
        let cut = self.cut_off(n);
        if self.node(n).parent is Some {
            let lo = self.place(n).lo;
            let hi = self.place(n).hi;
            let part = self.order@.subrange(lo, hi + 1);
            assert forall|i: usize| cut.contains(i) implies part.to_set().contains(i) by {
                assert(self.linked(i as int));
                assert(part[self.place(i as int).pos - lo] == i);
            }
            assert(cut.subset_of(part.to_set()));
            part.lemma_cardinality_of_set();
            vstd::set_lib::lemma_len_subset(cut, part.to_set());
        } else {
            let all = self.order@.to_set();
            assert(all.contains(n as usize)) by {
                assert(self.order@[self.place(n).pos] == n);
            }
            assert forall|i: usize| cut.contains(i) implies all.remove(n as usize).contains(i) by {
                assert(self.linked(i as int));
                assert(self.order@[self.place(i as int).pos] == i);
            }
            assert(cut.subset_of(all.remove(n as usize)));
            self.order@.lemma_cardinality_of_set();
            vstd::set_lib::lemma_len_subset(cut, all.remove(n as usize));
        }
    }

    /// After a node that has a parent was unlinked, every node that is left
    /// in the tree stands where its relatives say.
    #[verifier::spinoff_prover]
    #[verifier::rlimit(100)]
    proof fn lemma_unlinked_node(pre: &Self, post: &Self, n: int, i: int)
        requires
            pre.wf(),
            Self::unlinked(pre, post, n),
            Self::order_cut(pre, post, n),
            pre.node(n).parent is Some,
            pre.live(i),
            !pre.cut_by(n, i),
        ensures
            post.live(i),
            post.linked(i),
            post.node(i).value == pre.node(i).value,
    {
        let lo = pre.place(n).lo;
        let hi = pre.place(n).hi;
        assert(pre.linked(n));
        assert(pre.linked(i));
        let q = pre.node(n).parent->Some_0 as int;
        assert(pre.linked(q));
        pre.lemma_cover(i, n);
        if pre.node(n).left is Some {
            let l = pre.node(n).left->Some_0;
            assert(pre.linked(l as int));
        }
        if pre.node(n).right is Some {
            let r = pre.node(n).right->Some_0;
            assert(pre.linked(r as int));
        }
        assert(post.nodes@[i] is Some);
        assert(post.place(i) == place_after_prune(pre.place(i), lo, hi));
        assert(post.place(q) == place_after_prune(pre.place(q), lo, hi));
        if pre.node(i).left is Some {
            let c = pre.node(i).left->Some_0;
            if c != n {
                assert(pre.linked(c as int));
                if lo <= pre.place(c as int).pos <= hi {
                    pre.lemma_within(n, c as int);
                }
                assert(post.nodes@[c as int] is Some);
                assert(post.place(c as int) == place_after_prune(pre.place(c as int), lo, hi));
                assert(!post.apart(c as int));
            }
        }
        if pre.node(i).right is Some {
            let c = pre.node(i).right->Some_0;
            if c != n {
                assert(pre.linked(c as int));
                if lo <= pre.place(c as int).pos <= hi {
                    pre.lemma_within(n, c as int);
                }
                assert(post.nodes@[c as int] is Some);
                assert(post.place(c as int) == place_after_prune(pre.place(c as int), lo, hi));
                assert(!post.apart(c as int));
            }
        }
        if pre.node(i).parent is Some {
            let u = pre.node(i).parent->Some_0;
            assert(pre.linked(u as int));
            if lo <= pre.place(u as int).pos <= hi {
                pre.lemma_within(n, u as int);
            }
            assert(post.nodes@[u as int] is Some);
            assert(!post.apart(u as int));
        }
        assert(!post.apart(i));
    }

    /// After a node of the tree was unlinked, a node that has left the tree
    /// with it has relatives that have left it too.
    #[verifier::spinoff_prover]
    #[verifier::rlimit(100)]
    proof fn lemma_unlinked_cut(pre: &Self, post: &Self, n: int, i: int)
        requires
            pre.wf(),
            Self::unlinked(pre, post, n),
            Self::order_cut(pre, post, n),
            pre.live(i),
            pre.cut_by(n, i),
        ensures
            post.apart(i),
            post.loose(i),
    {
        let lo = pre.place(n).lo;
        let hi = pre.place(n).hi;
        assert(pre.linked(n));
        assert(pre.linked(i));
        if pre.node(n).parent is Some {
            assert(pre.linked(pre.node(n).parent->Some_0 as int));
            pre.lemma_within(n, i);
        }
        if pre.node(n).left is Some {
            assert(pre.linked(pre.node(n).left->Some_0 as int));
        }
        if pre.node(n).right is Some {
            assert(pre.linked(pre.node(n).right->Some_0 as int));
        }
        assert(post.nodes@[i] is Some);
        if i != n {
            let x = pre.node(i);
            if x.left is Some {
                let c = x.left->Some_0 as int;
                assert(pre.linked(c));
                assert(post.nodes@[c] is Some);
                assert(post.apart(c));
            }
            if x.right is Some {
                let c = x.right->Some_0 as int;
                assert(pre.linked(c));
                assert(post.nodes@[c] is Some);
                assert(post.apart(c));
            }
            if x.parent is Some {
                let u = x.parent->Some_0 as int;
                assert(pre.linked(u));
                assert(post.nodes@[u] is Some);
                if u != n {
                    assert(post.apart(u));
                }
            }
        }
    }

    /// A tree is as it was after a node that was apart from it was unlinked
    /// from its relatives.
    #[verifier::spinoff_prover]
    #[verifier::rlimit(100)]
    pub proof fn lemma_unlinked_apart(pre: &Self, post: &Self, n: int)
        requires
            pre.wf(),
            pre.apart(n),
            Self::unlinked(pre, post, n),
            post.order@ == pre.order@,
            post.places@ == pre.places@,
            post.detached@ == pre.detached@,
        ensures
            post.wf(),
            post@ == pre@,
            forall|i: int| #[trigger] post.occupied(i) == pre.occupied(i),
            forall|i: int| #[trigger] post.live(i) == pre.live(i),
    {
        assert(pre.occupied(n));
        assert(pre.loose(n));
        let q = pre.node(n).parent;
        let l = pre.node(n).left;
        let r = pre.node(n).right;
        if q is Some {
            assert(pre.loose(q->Some_0 as int));
            assert(pre.occupied(q->Some_0 as int));
        }
        if l is Some {
            assert(pre.loose(l->Some_0 as int));
            assert(pre.occupied(l->Some_0 as int));
        }
        if r is Some {
            assert(pre.loose(r->Some_0 as int));
            assert(pre.occupied(r->Some_0 as int));
        }
        assert forall|i: int| #[trigger] post.occupied(i) == pre.occupied(i) by {
            if 0 <= i < pre.nodes@.len() {
                assert(post.nodes@[i] is Some == pre.nodes@[i] is Some);
            }
        }
        assert forall|i: int| #[trigger] post.live(i) == pre.live(i) by {
            assert(post.occupied(i) == pre.occupied(i));
        }
        assert forall|i: int| #[trigger] post.apart(i) implies post.occupied(i) by {
            assert(pre.apart(i));
            assert(pre.occupied(i));
            assert(post.occupied(i) == pre.occupied(i));
        }
        assert forall|i: int| post.live(i) implies #[trigger] post.linked(i) by {
            assert(pre.live(i));
            assert(pre.linked(i));
            assert(post.nodes@[i] == pre.nodes@[i]);
            let x = pre.node(i);
            if x.left is Some {
                assert(pre.live(x.left->Some_0 as int));
                assert(post.nodes@[x.left->Some_0 as int] == pre.nodes@[x.left->Some_0 as int]);
            }
            if x.right is Some {
                assert(pre.live(x.right->Some_0 as int));
                assert(post.nodes@[x.right->Some_0 as int] == pre.nodes@[x.right->Some_0 as int]);
            }
            if x.parent is Some {
                assert(pre.live(x.parent->Some_0 as int));
                assert(post.nodes@[x.parent->Some_0 as int] == pre.nodes@[x.parent->Some_0 as int]);
            }
        }
        assert forall|i: int| post.apart(i) implies #[trigger] post.loose(i) by {
            assert(pre.apart(i));
            assert(pre.loose(i));
            assert(pre.occupied(i));
            assert(post.nodes@[i] is Some);
            let x = pre.node(i);
            if x.left is Some {
                let c = x.left->Some_0 as int;
                assert(pre.apart(c));
                assert(pre.occupied(c));
                assert(pre.loose(c));
                assert(post.nodes@[c] is Some);
            }
            if x.right is Some {
                let c = x.right->Some_0 as int;
                assert(pre.apart(c));
                assert(pre.occupied(c));
                assert(pre.loose(c));
                assert(post.nodes@[c] is Some);
            }
            if x.parent is Some {
                let u = x.parent->Some_0 as int;
                assert(pre.apart(u));
                assert(pre.occupied(u));
                assert(pre.loose(u));
                assert(post.nodes@[u] is Some);
            }
        }
        assert forall|p: int| 0 <= p < post.order@.len() implies post.live(
            #[trigger] post.order@[p] as int,
        ) && post.place(post.order@[p] as int).pos == p && post.value_at(p) == pre.value_at(p) by {
            assert(pre.live(pre.order@[p] as int));
            assert(post.nodes@[pre.order@[p] as int] == pre.nodes@[pre.order@[p] as int]);
        }
        assert forall|a: int, b: int| 0 <= a <= b < post.order@.len() implies le(
            &#[trigger] post.value_at(a),
            &#[trigger] post.value_at(b),
        ) by {
            assert(le(&pre.value_at(a), &pre.value_at(b)));
            assert(post.live(post.order@[a] as int));
            assert(post.live(post.order@[b] as int));
        }
        if pre.root is Some {
            let t = pre.root->Some_0 as int;
            assert(pre.live(t));
            assert(post.nodes@[t] == pre.nodes@[t]);
        }
        assert(post@ =~= pre@);
    }

    /// A tree from which a node was unlinked is consistent, and holds what
    /// it held outside the subtree of the node.
    #[verifier::spinoff_prover]
    #[verifier::rlimit(100)]
    pub proof fn lemma_unlinked(pre: &Self, post: &Self, n: int)
        requires
            pre.wf(),
            Self::unlinked(pre, post, n),
            Self::order_cut(pre, post, n),
        ensures
            post.wf(),
            post@ == pre.view_without(n),
            forall|i: int| #[trigger] post.occupied(i) == pre.occupied(i),
            forall|i: int| #[trigger] post.live(i) == (pre.live(i) && !pre.cut_by(n, i)),
    {
        let lo = pre.place(n).lo;
        let hi = pre.place(n).hi;
        assert(pre.linked(n));
        if pre.node(n).parent is Some {
            let q = pre.node(n).parent->Some_0;
            assert(pre.linked(q as int));
        }
        if pre.node(n).left is Some {
            let l = pre.node(n).left->Some_0;
            assert(pre.linked(l as int));
        }
        if pre.node(n).right is Some {
            let r = pre.node(n).right->Some_0;
            assert(pre.linked(r as int));
        }
        assert forall|i: int| #[trigger] post.occupied(i) == pre.occupied(i) by {
            if 0 <= i < pre.nodes@.len() {
                assert(post.nodes@[i] is Some == pre.nodes@[i] is Some);
            }
        }
        assert forall|i: int| #[trigger] post.live(i) == (pre.live(i) && !pre.cut_by(n, i)) by {
            assert(post.occupied(i) == pre.occupied(i));
            if pre.occupied(i) {
                assert(post.apart(i) == (pre.apart(i) || (pre.live(i) && pre.cut_by(n, i))));
            }
        }
        assert forall|i: int| #[trigger] post.apart(i) implies post.occupied(i) by {
            assert(post.occupied(i) == pre.occupied(i));
            if pre.apart(i) {
                assert(pre.occupied(i));
            }
        }
        assert forall|i: int| post.apart(i) implies #[trigger] post.loose(i) by {
            if pre.apart(i) {
                assert(pre.occupied(i));
                assert(pre.loose(i));
                assert(post.nodes@[i] == pre.nodes@[i]);
                let x = pre.node(i);
                if x.left is Some {
                    assert(pre.apart(x.left->Some_0 as int));
                    assert(pre.occupied(x.left->Some_0 as int));
                    assert(post.nodes@[x.left->Some_0 as int] == pre.nodes@[x.left->Some_0 as int]);
                }
                if x.right is Some {
                    assert(pre.apart(x.right->Some_0 as int));
                    assert(pre.occupied(x.right->Some_0 as int));
                    assert(post.nodes@[x.right->Some_0 as int] == pre.nodes@[x.right->Some_0 as int]);
                }
                if x.parent is Some {
                    assert(pre.apart(x.parent->Some_0 as int));
                    assert(pre.occupied(x.parent->Some_0 as int));
                    assert(post.nodes@[x.parent->Some_0 as int] == pre.nodes@[x.parent->Some_0 as int]);
                }
            } else {
                Self::lemma_unlinked_cut(pre, post, n, i);
            }
        }
        pre.lemma_cut_count(n);
        assert(post.detached@ =~= pre.detached@.union(pre.cut_off(n))) by {
            assert forall|i: usize| post.detached@.contains(i) == pre.detached@.union(
                pre.cut_off(n),
            ).contains(i) by {
                assert(post.apart(i as int) == (pre.apart(i as int) || (pre.live(i as int)
                    && pre.cut_by(n, i as int))));
            }
        }
        vstd::set_lib::lemma_len_union(pre.detached@, pre.cut_off(n));
        if pre.node(n).parent is Some {
            let s = hi - lo + 1;
            assert forall|i: int| post.live(i) implies #[trigger] post.linked(i) by {
                Self::lemma_unlinked_node(pre, post, n, i);
            }
            assert forall|p: int| 0 <= p < post.order@.len() implies post.live(
                #[trigger] post.order@[p] as int,
            ) && post.place(post.order@[p] as int).pos == p && post.value_at(p) == pre.value_at(
                if p < lo {
                    p
                } else {
                    p + s
                },
            ) by {
                let o = if p < lo {
                    p
                } else {
                    p + s
                };
                assert(post.order@[p] == pre.order@[o]);
                assert(pre.live(pre.order@[o] as int));
                Self::lemma_unlinked_node(pre, post, n, pre.order@[o] as int);
            }
            assert forall|a: int, b: int| 0 <= a <= b < post.order@.len() implies le(
                &#[trigger] post.value_at(a),
                &#[trigger] post.value_at(b),
            ) by {
                let oa = if a < lo {
                    a
                } else {
                    a + s
                };
                let ob = if b < lo {
                    b
                } else {
                    b + s
                };
                assert(post.live(post.order@[a] as int));
                assert(post.live(post.order@[b] as int));
                assert(le(&pre.value_at(oa), &pre.value_at(ob)));
            }
            let r = pre.root->Some_0 as int;
            assert(pre.linked(r));
            if lo <= pre.place(r).pos <= hi {
                pre.lemma_within(n, r);
            }
            Self::lemma_unlinked_node(pre, post, n, r);
            assert(post@ =~= pre.view_without(n)) by {
                assert forall|p: int| 0 <= p < post.order@.len() implies post@[p]
                    == pre.view_without(n)[p] by {
                    assert(post.live(post.order@[p] as int));
                }
            }
        } else {
            assert(pre.root == Some(n as usize));
            assert(post.live(n));
            assert(post.linked(n));
            assert forall|i: int| post.live(i) implies #[trigger] post.linked(i) by {
                assert(i == n);
            }
            assert(post@ =~= pre.view_without(n));
        }
    }
}

impl<T: Ordered> BinaryTree<T> {
    /// Tells whether the arena of `post` is that of `pre` with the node at
    /// `idx`, which was apart and had no relative, hung under the node at `c`,
    /// on its left where `as_left` is set and on its right otherwise: the
    /// child that the node at `c` had on that side is now the child of the
    /// new node on the same side, and no other place has changed.
    pub open spec fn hung(pre: &Self, post: &Self, c: int, idx: int, as_left: bool) -> bool {
        let adopted = if as_left {
            pre.node(c).left
        } else {
            pre.node(c).right
        };
        &&& pre.live(c)
        &&& pre.occupied(idx)
        &&& pre.apart(idx)
        &&& pre.node(idx).parent is None
        &&& pre.node(idx).left is None
        &&& pre.node(idx).right is None
        &&& post.nodes@.len() == pre.nodes@.len()
        &&& forall|i: int|
            0 <= i < pre.nodes@.len() && i != c && i != idx && Some(i as usize) != adopted
                ==> #[trigger] post.nodes@[i] == pre.nodes@[i]
        &&& post.occupied(c)
        &&& post.node(c).parent == pre.node(c).parent
        &&& post.node(c).color == pre.node(c).color
        &&& post.node(c).value == pre.node(c).value
        &&& if as_left {
            post.node(c).left == Some(idx as usize) && post.node(c).right == pre.node(c).right
        } else {
            post.node(c).right == Some(idx as usize) && post.node(c).left == pre.node(c).left
        }
        &&& post.occupied(idx)
        &&& post.node(idx).parent == Some(c as usize)
        &&& post.node(idx).left == (if as_left {
            adopted
        } else {
            None
        })
        &&& post.node(idx).right == (if as_left {
            None
        } else {
            adopted
        })
        &&& post.node(idx).value == pre.node(idx).value
        &&& post.node(idx).color == pre.node(idx).color
        &&& adopted matches Some(a) ==> {
            &&& post.occupied(a as int)
            &&& post.node(a as int).parent == Some(idx as usize)
            &&& post.node(a as int).left == pre.node(a as int).left
            &&& post.node(a as int).right == pre.node(a as int).right
            &&& post.node(a as int).value == pre.node(a as int).value
            &&& post.node(a as int).color == pre.node(a as int).color
        }
        &&& post.root == pre.root
        &&& post.free@ == pre.free@
    }

    /// The rank that a node hung under the node at `c` gets: that of the
    /// node at `c` on its left, and the next one on its right.
    pub open spec fn rank_under(&self, c: int, as_left: bool) -> int {
        if as_left {
            self.place(c).pos
        } else {
            self.place(c).pos + 1
        }
    }

    /// Tells whether the order of `post` is that of `pre` once the node at
    /// `idx` is hung under the node at `c`.
    pub open spec fn order_hung(pre: &Self, post: &Self, c: int, idx: int, as_left: bool) -> bool {
        let at = pre.place(c).pos;
        let k = pre.rank_under(c, as_left);
        &&& post.detached@ == pre.detached@.remove(idx as usize)
        &&& post.order@ == pre.order@.insert(k, idx as usize)
        &&& 0 <= idx <= usize::MAX
        &&& forall|i: int|
            0 <= i <= usize::MAX ==> #[trigger] post.place(i) == if i == idx {
                if as_left {
                    Place { pos: k, lo: pre.place(c).lo, hi: k }
                } else {
                    Place { pos: k, lo: k, hi: pre.place(c).hi + 1 }
                }
            } else {
                place_after_insert(pre.place(i), at, k)
            }
    }

    /// After a node was hung under another, every node of the tree stands
    /// where its relatives say.
    #[verifier::spinoff_prover]
    #[verifier::rlimit(100)]
    proof fn lemma_hung_node(pre: &Self, post: &Self, c: int, idx: int, as_left: bool, i: int)
        requires
            pre.wf(),
            Self::hung(pre, post, c, idx, as_left),
            Self::order_hung(pre, post, c, idx, as_left),
            pre.live(i) || i == idx,
        ensures
            post.live(i),
            post.linked(i),
            i != idx ==> post.node(i).value == pre.node(i).value,
    {
        let at = pre.place(c).pos;
        let k = pre.rank_under(c, as_left);
        let adopted = if as_left {
            pre.node(c).left
        } else {
            pre.node(c).right
        };
        assert(pre.linked(c));
        assert(post.place(c) == place_after_insert(pre.place(c), at, k));
        assert(post.place(idx) == if as_left {
            Place { pos: k, lo: pre.place(c).lo, hi: k }
        } else {
            Place { pos: k, lo: k, hi: pre.place(c).hi + 1 }
        });
        assert(!post.apart(idx));
        assert(!post.apart(c));
        if adopted is Some {
            let a = adopted->Some_0 as int;
            assert(pre.linked(a));
            assert(post.place(a) == place_after_insert(pre.place(a), at, k));
            assert(!post.apart(a));
        }
        if i != idx {
            assert(pre.linked(i));
            assert(!post.apart(i));
            assert(post.nodes@[i] is Some);
            let n = pre.node(i);
            if n.left is Some {
                let l = n.left->Some_0 as int;
                assert(pre.linked(l));
                assert(post.place(l) == place_after_insert(pre.place(l), at, k));
                assert(post.nodes@[l] is Some);
                assert(!post.apart(l));
            }
            if n.right is Some {
                let r = n.right->Some_0 as int;
                assert(pre.linked(r));
                assert(post.place(r) == place_after_insert(pre.place(r), at, k));
                assert(post.nodes@[r] is Some);
                assert(!post.apart(r));
            }
            if n.parent is Some {
                let q = n.parent->Some_0 as int;
                assert(pre.linked(q));
                assert(post.nodes@[q] is Some);
                assert(!post.apart(q));
            }
            if pre.place(i).pos == at {
                assert(i == c);
            }
            assert(post.place(i) == place_after_insert(pre.place(i), at, k));
        }
    }

    /// A tree with a node hung under another where its value fits is
    /// consistent, and holds that value at its rank besides the values that
    /// it held.
    #[verifier::spinoff_prover]
    #[verifier::rlimit(100)]
    pub proof fn lemma_hung(pre: &Self, post: &Self, c: int, idx: int, as_left: bool)
        requires
            pre.wf(),
            Self::hung(pre, post, c, idx, as_left),
            Self::order_hung(pre, post, c, idx, as_left),
            pre.fits(pre.node(idx).value, pre.rank_under(c, as_left)),
        ensures
            post.wf(),
            post@ == pre@.insert(pre.rank_under(c, as_left), pre.node(idx).value),
            0 <= pre.rank_under(c, as_left) <= pre@.len(),
            forall|i: int| #[trigger] post.live(i) == (pre.live(i) || i == idx),
            Self::nodes_kept(pre, post, Some(idx)),
    {
        let at = pre.place(c).pos;
        let k = pre.rank_under(c, as_left);
        let val = pre.node(idx).value;
        assert(pre.linked(c));
        assert forall|i: int| #[trigger] post.occupied(i) == pre.occupied(i) by {
            if 0 <= i < pre.nodes@.len() {
                assert(post.nodes@[i] is Some == pre.nodes@[i] is Some);
            }
        }
        assert forall|i: int| #[trigger] post.live(i) == (pre.live(i) || i == idx) by {
            assert(post.occupied(i) == pre.occupied(i));
            if pre.apart(i) {
                assert(pre.occupied(i));
            }
        }
        assert forall|i: int| pre.apart(i) && Some(i) != Some(idx) implies #[trigger] post.nodes@[i]
            == pre.nodes@[i] by {
            assert(pre.occupied(i));
            if pre.node(c).left is Some {
                assert(pre.live(pre.node(c).left->Some_0 as int));
            }
            if pre.node(c).right is Some {
                assert(pre.live(pre.node(c).right->Some_0 as int));
            }
        }
        Self::lemma_parts_loose(pre, post, Some(idx));
        assert forall|i: int| post.live(i) implies #[trigger] post.linked(i) by {
            Self::lemma_hung_node(pre, post, c, idx, as_left, i);
        }
        assert forall|p: int| 0 <= p < post.order@.len() implies post.live(
            #[trigger] post.order@[p] as int,
        ) && post.place(post.order@[p] as int).pos == p && post.value_at(p) == (if p < k {
            pre.value_at(p)
        } else if p == k {
            val
        } else {
            pre.value_at(p - 1)
        }) by {
            if p == k {
                assert(post.order@[p] == idx);
                Self::lemma_hung_node(pre, post, c, idx, as_left, idx);
            } else {
                let q = if p < k {
                    p
                } else {
                    p - 1
                };
                let i = pre.order@[q];
                assert(post.order@[p] == i);
                assert(pre.live(i as int));
                assert(pre.place(i as int).pos == q);
                assert(i != idx);
                assert(post.place(i as int) == place_after_insert(pre.place(i as int), at, k));
                Self::lemma_hung_node(pre, post, c, idx, as_left, i as int);
            }
        }
        assert forall|a: int, b: int| 0 <= a <= b < post.order@.len() implies le(
            &#[trigger] post.value_at(a),
            &#[trigger] post.value_at(b),
        ) by {
            assert(post.live(post.order@[a] as int));
            assert(post.live(post.order@[b] as int));
            T::lemma_order(&val, &val, &val);
            if a == k {
                if b > k {
                    assert(le(&val, &pre.value_at(b - 1)));
                }
            } else if b == k {
                assert(le(&pre.value_at(a), &val));
            } else {
                let qa = if a < k {
                    a
                } else {
                    a - 1
                };
                let qb = if b < k {
                    b
                } else {
                    b - 1
                };
                assert(le(&pre.value_at(qa), &pre.value_at(qb)));
            }
        }
        match pre.root {
            Some(r) => {
                assert(pre.linked(r as int));
                Self::lemma_hung_node(pre, post, c, idx, as_left, r as int);
                assert(post.place(r as int) == place_after_insert(pre.place(r as int), at, k));
                if r as int != c {
                    assert(post.nodes@[r as int] is Some);
                }
            },
            None => {},
        }
        assert(post@ =~= pre@.insert(k, val)) by {
            assert forall|p: int| 0 <= p < post.order@.len() implies post@[p] == pre@.insert(
                k,
                val,
            )[p] by {
                assert(post.live(post.order@[p] as int));
            }
        }
        assert forall|i: int| #![trigger post.live(i)] pre.live(i) && !is_at(Some(idx), i) implies post.live(i)
            && post.node(i).value == pre.node(i).value by {
            Self::lemma_hung_node(pre, post, c, idx, as_left, i);
        }
        assert forall|i: int| #![trigger post.apart(i)] pre.apart(i) && !is_at(Some(idx), i) implies post.apart(i)
            && post.nodes@[i] == pre.nodes@[i] by {
            assert(pre.occupied(i));
            if pre.node(c).left is Some {
                assert(pre.live(pre.node(c).left->Some_0 as int));
            }
            if pre.node(c).right is Some {
                assert(pre.live(pre.node(c).right->Some_0 as int));
            }
        }
    }
}

impl<T: Ordered> BinaryTreeNode<T> {
    /// Hangs the node at `node`, which is apart from the tree and has no
    /// relative, on the left of the node at `at`: the left child that the
    /// node at `at` had, if any, becomes the left child of the new node.
    #[verifier::spinoff_prover]
    #[verifier::rlimit(50)]
    pub fn insert_left(tree: &mut BinaryTree<T>, at: usize, node: usize)
        requires
            old(tree).wf(),
            old(tree).live(at as int),
            old(tree).occupied(node as int),
            old(tree).apart(node as int),
            old(tree).node(node as int).parent is None,
            old(tree).node(node as int).left is None,
            old(tree).node(node as int).right is None,
            old(tree).fits(old(tree).node(node as int).value, old(tree).rank(at as int)),
        ensures
            final(tree).wf(),
            BinaryTree::hung(old(tree), final(tree), at as int, node as int, true),
            final(tree)@ == old(tree)@.insert(
                old(tree).rank(at as int),
                old(tree).node(node as int).value,
            ),
            0 <= old(tree).rank(at as int) <= old(tree)@.len(),
            forall|i: int| #[trigger] final(tree).live(i) == (old(tree).live(i) || i == node),
            BinaryTree::nodes_kept(old(tree), final(tree), Some(node as int)),
    {
        Self::hang(tree, at, node, true)
    }

    /// Hangs the node at `node`, which is apart from the tree and has no
    /// relative, on the right of the node at `at`: the right child that the
    /// node at `at` had, if any, becomes the right child of the new node.
    #[verifier::spinoff_prover]
    #[verifier::rlimit(50)]
    pub fn insert_right(tree: &mut BinaryTree<T>, at: usize, node: usize)
        requires
            old(tree).wf(),
            old(tree).live(at as int),
            old(tree).occupied(node as int),
            old(tree).apart(node as int),
            old(tree).node(node as int).parent is None,
            old(tree).node(node as int).left is None,
            old(tree).node(node as int).right is None,
            old(tree).fits(old(tree).node(node as int).value, old(tree).rank(at as int) + 1),
        ensures
            final(tree).wf(),
            BinaryTree::hung(old(tree), final(tree), at as int, node as int, false),
            final(tree)@ == old(tree)@.insert(
                old(tree).rank(at as int) + 1,
                old(tree).node(node as int).value,
            ),
            0 <= old(tree).rank(at as int) + 1 <= old(tree)@.len(),
            forall|i: int| #[trigger] final(tree).live(i) == (old(tree).live(i) || i == node),
            BinaryTree::nodes_kept(old(tree), final(tree), Some(node as int)),
    {
        Self::hang(tree, at, node, false)
    }

    /// Hangs the node at `node` under the node at `at`, on the side that
    /// `as_left` tells.
    #[verifier::spinoff_prover]
    #[verifier::rlimit(50)]
    fn hang(tree: &mut BinaryTree<T>, at: usize, node: usize, as_left: bool)
        requires
            old(tree).wf(),
            old(tree).live(at as int),
            old(tree).occupied(node as int),
            old(tree).apart(node as int),
            old(tree).node(node as int).parent is None,
            old(tree).node(node as int).left is None,
            old(tree).node(node as int).right is None,
            old(tree).fits(
                old(tree).node(node as int).value,
                old(tree).rank_under(at as int, as_left),
            ),
        ensures
            final(tree).wf(),
            BinaryTree::hung(old(tree), final(tree), at as int, node as int, as_left),
            final(tree)@ == old(tree)@.insert(
                old(tree).rank_under(at as int, as_left),
                old(tree).node(node as int).value,
            ),
            0 <= old(tree).rank_under(at as int, as_left) <= old(tree)@.len(),
            forall|i: int| #[trigger] final(tree).live(i) == (old(tree).live(i) || i == node),
            BinaryTree::nodes_kept(old(tree), final(tree), Some(node as int)),
    {
        proof {
            assert(tree.linked(at as int));
        }
        let adopted: Option<usize> = if as_left {
            tree.at(at).left
        } else {
            tree.at(at).right
        };
        proof {
            if adopted is Some {
                assert(tree.linked(adopted->Some_0 as int));
            }
        }
        match adopted {
            Some(a) => match &mut tree.nodes[a] {
                Some(n) => {
                    n.parent = Some(node);
                },
                None => {},
            },
            None => {},
        }
        match &mut tree.nodes[at] {
            Some(n) => {
                if as_left {
                    n.left = Some(node);
                } else {
                    n.right = Some(node);
                }
            },
            None => {},
        }
        match &mut tree.nodes[node] {
            Some(n) => {
                n.parent = Some(at);
                if as_left {
                    n.left = adopted;
                    n.right = None;
                } else {
                    n.left = None;
                    n.right = adopted;
                }
            },
            None => {},
        }
        proof {
            let before = *old(tree);
            let k = before.rank_under(at as int, as_left);
            let spot = before.place(at as int);
            let places = before.places@;
            tree.order = Ghost(before.order@.insert(k, node));
            tree.places = Ghost(
                |i: usize|
                    if i == node {
                        if as_left {
                            Place { pos: k, lo: spot.lo, hi: k }
                        } else {
                            Place { pos: k, lo: k, hi: spot.hi + 1 }
                        }
                    } else {
                        place_after_insert(places(i), spot.pos, k)
                    },
            );
            tree.detached = Ghost(before.detached@.remove(node));
            assert(BinaryTree::hung(old(tree), tree, at as int, node as int, as_left));
            assert(BinaryTree::order_hung(old(tree), tree, at as int, node as int, as_left));
            BinaryTree::lemma_hung(old(tree), tree, at as int, node as int, as_left);
        }
    }
}

impl<T: Ordered> BinaryTree<T> {
    /// The black height recorded for the node at `i`.
    pub open spec fn height(&self, i: int) -> nat {
        (self.heights@)(i as usize)
    }

    /// The black height recorded under a child: zero where there is no child.
    pub open spec fn child_height(&self, c: Option<usize>) -> nat {
        match c {
            Some(c) => self.height(c as int),
            None => 0,
        }
    }

    /// Tells whether a child is a red node. No child counts as black.
    pub open spec fn is_red_child(&self, c: Option<usize>) -> bool {
        c matches Some(ci) && self.node(ci as int).color == NodeColor::Red
    }

    /// The black heights agree at the node at `i`: both its subtrees have the
    /// same, and its own is that, and one more if it is black.
    pub open spec fn leveled(&self, i: int) -> bool {
        let n = self.node(i);
        &&& self.child_height(n.left) == self.child_height(n.right)
        &&& self.height(i) == self.child_height(n.left) + if n.color == NodeColor::Black {
            1nat
        } else {
            0nat
        }
    }

    /// The node at `i`, if it is red, has no red child but, at most, the
    /// node at `x`.
    pub open spec fn no_red_child_but(&self, i: int, x: int) -> bool {
        let n = self.node(i);
        n.color == NodeColor::Red ==> (n.left != Some(x as usize) ==> !self.is_red_child(n.left))
            && (n.right != Some(x as usize) ==> !self.is_red_child(n.right))
    }

    /// The node at `i`, if it is red, has no red child.
    pub open spec fn no_red_child(&self, i: int) -> bool {
        let n = self.node(i);
        n.color == NodeColor::Red ==> !self.is_red_child(n.left) && !self.is_red_child(n.right)
    }

    /// The tree is a red-black tree: it is consistent, its root is black, no
    /// red node has a red child, and every way down from a node meets the same
    /// number of black nodes, which is the black height recorded for the node.
    pub open spec fn balanced(&self) -> bool {
        &&& self.wf()
        &&& forall|i: int| self.live(i) ==> #[trigger] self.leveled(i)
        &&& forall|i: int| self.live(i) ==> #[trigger] self.no_red_child(i)
        &&& self.root matches Some(r) ==> self.node(r as int).color == NodeColor::Black
    }

    /// The tree is a red-black tree but for the red node at `x`, which may
    /// have a red parent, and which may be the root.
    pub open spec fn balanced_but(&self, x: int) -> bool {
        &&& self.wf()
        &&& self.live(x)
        &&& self.node(x).color == NodeColor::Red
        &&& forall|i: int| self.live(i) ==> #[trigger] self.leveled(i)
        &&& forall|i: int| self.live(i) ==> #[trigger] self.no_red_child_but(i, x)
        &&& self.no_red_child(x)
        &&& self.root matches Some(r) ==> r == x || self.node(r as int).color == NodeColor::Black
    }

    /// A red-black tree is no deeper than twice the black height of its root.
    pub proof fn lemma_balanced_depth(&self, i: int)
        requires
            self.balanced(),
            self.live(i),
        ensures
            self.spec_depth(i) <= 2 * self.height(i) + if self.node(i).color == NodeColor::Red {
                1int
            } else {
                0int
            },
        decreases self.span(i),
    {
        assert(self.linked(i));
        assert(self.leveled(i));
        assert(self.no_red_child(i));
        match self.node(i).left {
            Some(l) => {
                assert(self.linked(l as int));
                self.lemma_balanced_depth(l as int);
            },
            None => {},
        }
        match self.node(i).right {
            Some(r) => {
                assert(self.linked(r as int));
                self.lemma_balanced_depth(r as int);
            },
            None => {},
        }
    }

    /// A subtree of a red-black tree has at least as many nodes as its black
    /// height asks for: one less than two to the power of that height.
    pub proof fn lemma_balanced_size(&self, i: int)
        requires
            self.balanced(),
            self.live(i),
        ensures
            vstd::arithmetic::power2::pow2(self.height(i)) <= self.span(i) + 1,
        decreases self.span(i),
    {
        assert(self.linked(i));
        assert(self.leveled(i));
        let n = self.node(i);
        let hc = self.child_height(n.left);
        vstd::arithmetic::power2::lemma2_to64();
        let sl: int = match n.left {
            Some(l) => {
                assert(self.linked(l as int));
                self.lemma_balanced_size(l as int);
                self.span(l as int)
            },
            None => 0,
        };
        let sr: int = match n.right {
            Some(r) => {
                assert(self.linked(r as int));
                self.lemma_balanced_size(r as int);
                self.span(r as int)
            },
            None => 0,
        };
        assert(self.span(i) == sl + sr + 1);
        assert(vstd::arithmetic::power2::pow2(hc) <= sl + 1);
        assert(vstd::arithmetic::power2::pow2(hc) <= sr + 1);
        vstd::arithmetic::power2::lemma_pow2_unfold((hc + 1) as nat);
        if n.color == NodeColor::Red {
            assert(self.height(i) == hc);
        } else {
            assert(self.height(i) == hc + 1);
        }
    }

    /// A red-black tree is shallow: its depth is at most twice the black
    /// height of its root, and two to the power of that height is at most one
    /// more than the number of its values.
    pub proof fn lemma_balanced_tree(&self)
        requires
            self.balanced(),
            self.root is Some,
        ensures
            self.spec_depth(self.root->Some_0 as int) <= 2 * self.height(self.root->Some_0 as int),
            vstd::arithmetic::power2::pow2(self.height(self.root->Some_0 as int)) <= self@.len()
                + 1,
    {
        let r = self.root->Some_0 as int;
        assert(self.linked(r));
        self.lemma_balanced_depth(r);
        self.lemma_balanced_size(r);
    }

    /// Tells whether `post` is the tree `pre` with new colors and black
    /// heights: the node at `i` has the color `colors(i)` and the black
    /// height `heights(i)`, and nothing else has changed.
    pub open spec fn repainted(
        pre: &Self,
        post: &Self,
        colors: spec_fn(int) -> NodeColor,
        heights: spec_fn(int) -> nat,
    ) -> bool {
        &&& Self::recolored(pre, post)
        &&& forall|i: int| pre.live(i) ==> (#[trigger] post.node(i)).color == colors(i)
        &&& forall|i: int| 0 <= i <= usize::MAX ==> #[trigger] post.height(i) == heights(i)
    }

    /// In a repainted tree, the node at `i` has the relatives that it had,
    /// and they are where they were.
    proof fn lemma_repainted_node(
        pre: &Self,
        post: &Self,
        colors: spec_fn(int) -> NodeColor,
        heights: spec_fn(int) -> nat,
        i: int,
    )
        requires
            pre.wf(),
            Self::repainted(pre, post, colors, heights),
            post.live(i),
        ensures
            pre.live(i),
            pre.linked(i),
            post.node(i).left == pre.node(i).left,
            post.node(i).right == pre.node(i).right,
            post.node(i).parent == pre.node(i).parent,
            post.node(i).color == colors(i),
            post.height(i) == heights(i),
            pre.node(i).left matches Some(l) ==> pre.live(l as int) && pre.linked(l as int)
                && post.node(l as int).color == colors(l as int) && post.height(l as int)
                == heights(l as int) && l != i,
            pre.node(i).right matches Some(r) ==> pre.live(r as int) && pre.linked(r as int)
                && post.node(r as int).color == colors(r as int) && post.height(r as int)
                == heights(r as int) && r != i,
            pre.node(i).left is Some ==> pre.node(i).left != pre.node(i).right,
    {
        assert((post.nodes@[i] is Some) == (pre.nodes@[i] is Some));
        assert(pre.live(i));
        assert(pre.linked(i));
        let n = post.node(i);
        match pre.node(i).left {
            Some(l) => {
                assert(pre.linked(l as int));
                let m = post.node(l as int);
            },
            None => {},
        }
        match pre.node(i).right {
            Some(r) => {
                assert(pre.linked(r as int));
                let m = post.node(r as int);
            },
            None => {},
        }
    }

    /// A tree that is a red-black tree but for its red root is a red-black
    /// tree once the root is black and one higher.
    #[verifier::spinoff_prover]
    #[verifier::rlimit(50)]
    proof fn lemma_root_blackened(
        pre: &Self,
        post: &Self,
        colors: spec_fn(int) -> NodeColor,
        heights: spec_fn(int) -> nat,
        r: int,
    )
        requires
            pre.root == Some(r as usize),
            pre.balanced_but(r),
            Self::repainted(pre, post, colors, heights),
            forall|i: int|
                #[trigger] colors(i) == if i == r {
                    NodeColor::Black
                } else {
                    pre.node(i).color
                },
            forall|i: int|
                #[trigger] heights(i) == if i == r {
                    pre.height(i) + 1
                } else {
                    pre.height(i)
                },
        ensures
            post.balanced(),
    {
        Self::lemma_recolored(pre, post);
        assert(pre.linked(r));
        assert forall|i: int| post.live(i) implies #[trigger] post.leveled(i) by {
            Self::lemma_repainted_node(pre, post, colors, heights, i);
            assert(pre.leveled(i));
        }
        assert forall|i: int| post.live(i) implies #[trigger] post.no_red_child(i) by {
            Self::lemma_repainted_node(pre, post, colors, heights, i);
            assert(pre.no_red_child_but(i, r));
        }
        let n = post.node(r);
    }

    /// Tells whether, in the tree `pre`, the red node at `x` has the red
    /// parent `parent` under the grandparent `g`, whose other child is `uncle`.
    pub open spec fn red_family(pre: &Self, x: int, parent: int, uncle: Option<usize>, g: int) -> bool {
        &&& pre.balanced_but(x)
        &&& 0 <= parent <= usize::MAX
        &&& 0 <= g <= usize::MAX
        &&& pre.node(x).parent == Some(parent as usize)
        &&& pre.node(parent).color == NodeColor::Red
        &&& pre.node(parent).parent == Some(g as usize)
        &&& pre.spec_sibling(parent) == uncle
    }

    /// What is known of a red family: its members are nodes of the tree,
    /// each other than the others, and the grandparent is black.
    proof fn lemma_red_family(pre: &Self, x: int, parent: int, uncle: Option<usize>, g: int)
        requires
            Self::red_family(pre, x, parent, uncle, g),
        ensures
            pre.live(x) && pre.live(parent) && pre.live(g),
            pre.linked(x) && pre.linked(parent) && pre.linked(g),
            x != parent && x != g && parent != g,
            pre.node(g).color == NodeColor::Black,
            pre.node(parent).left == Some(x as usize) || pre.node(parent).right == Some(x as usize),
            pre.node(g).left == Some(parent as usize) && pre.node(g).right == uncle || pre.node(
                g,
            ).right == Some(parent as usize) && pre.node(g).left == uncle,
            uncle matches Some(u) ==> pre.live(u as int) && pre.linked(u as int) && u != x && u
                != parent && u != g && pre.node(u as int).parent == Some(g as usize),
            pre.root != Some(x as usize) && pre.root != Some(parent as usize),
    {
        assert(pre.linked(x));
        assert(pre.linked(parent));
        assert(pre.linked(g));
        assert(pre.no_red_child_but(g, x));
        match uncle {
            Some(u) => {
                assert(pre.linked(u as int));
            },
            None => {},
        }
        if pre.root is Some {
            assert(pre.linked(pre.root->Some_0 as int));
        }
    }

    /// After the red parent and the red uncle of the node at `x` were made
    /// black and one higher, and the grandparent red, each node is level and no
    /// red node has a red child but, at most, the grandparent.
    #[verifier::spinoff_prover]
    #[verifier::rlimit(100)]
    proof fn lemma_recolored_up_node(
        pre: &Self,
        post: &Self,
        colors: spec_fn(int) -> NodeColor,
        heights: spec_fn(int) -> nat,
        x: int,
        parent: int,
        uncle: int,
        g: int,
        i: int,
    )
        requires
            Self::red_family(pre, x, parent, Some(uncle as usize), g),
            pre.node(uncle).color == NodeColor::Red,
            0 <= uncle <= usize::MAX,
            Self::repainted(pre, post, colors, heights),
            forall|j: int|
                #[trigger] colors(j) == if j == parent || j == uncle {
                    NodeColor::Black
                } else if j == g {
                    NodeColor::Red
                } else {
                    pre.node(j).color
                },
            forall|j: int|
                #[trigger] heights(j) == if j == parent || j == uncle {
                    pre.height(j) + 1
                } else {
                    pre.height(j)
                },
            post.live(i),
        ensures
            post.leveled(i),
            post.no_red_child_but(i, g),
            i == g ==> post.no_red_child(i),
    {
        Self::lemma_red_family(pre, x, parent, Some(uncle as usize), g);
        Self::lemma_repainted_node(pre, post, colors, heights, i);
        assert(pre.leveled(i));
        assert(pre.no_red_child_but(i, x));
        assert(pre.leveled(parent));
        assert(pre.leveled(uncle));
        assert(pre.leveled(g));
        assert(pre.linked(uncle));
        if i != parent && i != uncle && i != g {
            if pre.node(i).left is Some {
                let l = pre.node(i).left->Some_0 as int;
                assert(pre.node(l).parent == Some(i as usize));
            }
            if pre.node(i).right is Some {
                let r = pre.node(i).right->Some_0 as int;
                assert(pre.node(r).parent == Some(i as usize));
            }
        } else if i == g {
        } else {
            if pre.node(i).left is Some {
                let l = pre.node(i).left->Some_0 as int;
                assert(pre.node(l).parent == Some(i as usize));
                assert(pre.linked(l));
            }
            if pre.node(i).right is Some {
                let r = pre.node(i).right->Some_0 as int;
                assert(pre.node(r).parent == Some(i as usize));
                assert(pre.linked(r));
            }
        }
    }

    /// After the red parent and the red uncle of the node at `x` were made
    /// black and one higher, and the grandparent red, the tree is a red-black
    /// tree but for the grandparent.
    #[verifier::spinoff_prover]
    #[verifier::rlimit(50)]
    proof fn lemma_recolored_up(
        pre: &Self,
        post: &Self,
        colors: spec_fn(int) -> NodeColor,
        heights: spec_fn(int) -> nat,
        x: int,
        parent: int,
        uncle: int,
        g: int,
    )
        requires
            Self::red_family(pre, x, parent, Some(uncle as usize), g),
            pre.node(uncle).color == NodeColor::Red,
            0 <= uncle <= usize::MAX,
            Self::repainted(pre, post, colors, heights),
            forall|j: int|
                #[trigger] colors(j) == if j == parent || j == uncle {
                    NodeColor::Black
                } else if j == g {
                    NodeColor::Red
                } else {
                    pre.node(j).color
                },
            forall|j: int|
                #[trigger] heights(j) == if j == parent || j == uncle {
                    pre.height(j) + 1
                } else {
                    pre.height(j)
                },
        ensures
            post.balanced_but(g),
    {
        Self::lemma_recolored(pre, post);
        Self::lemma_red_family(pre, x, parent, Some(uncle as usize), g);
        assert(post.live(g));
        let n = post.node(g);
        assert forall|i: int| post.live(i) implies #[trigger] post.leveled(i) by {
            Self::lemma_recolored_up_node(pre, post, colors, heights, x, parent, uncle, g, i);
        }
        assert forall|i: int| post.live(i) implies #[trigger] post.no_red_child_but(i, g) by {
            Self::lemma_recolored_up_node(pre, post, colors, heights, x, parent, uncle, g, i);
        }
        Self::lemma_recolored_up_node(pre, post, colors, heights, x, parent, uncle, g, g);
        match post.root {
            Some(r) => {
                assert(pre.linked(r as int));
                let m = post.node(r as int);
            },
            None => {},
        }
    }

    /// Repainting a tree twice is repainting it once.
    proof fn lemma_recolored_twice(a: &Self, b: &Self, c: &Self)
        requires
            a.wf(),
            Self::recolored(a, b),
            Self::recolored(b, c),
        ensures
            Self::recolored(a, c),
            forall|i: int| a.live(i) ==> (#[trigger] c.node(i)).color == b.node(i).color || c.node(
                i,
            ).color != b.node(i).color,
    {
        assert forall|i: int| 0 <= i < a.nodes@.len() implies (#[trigger] c.nodes@[i] is Some) == (
        a.nodes@[i] is Some) by {
            assert((b.nodes@[i] is Some) == (a.nodes@[i] is Some));
        }
        assert forall|i: int| a.live(i) implies (#[trigger] c.node(i)).parent == a.node(i).parent
            && c.node(i).left == a.node(i).left && c.node(i).right == a.node(i).right && c.node(
            i,
        ).value == a.node(i).value by {
            let m = b.node(i);
            assert(b.live(i)) by {
                assert((b.nodes@[i] is Some) == (a.nodes@[i] is Some));
            }
        }
    }

    /// Makes the red parent and the red uncle of the node at `x` black, and
    /// their parent red.
    #[verifier::spinoff_prover]
    #[verifier::rlimit(100)]
    fn recolor_up(&mut self, Ghost(x): Ghost<int>, parent: usize, uncle: usize, g: usize)
        requires
            old(self).wf(),
            old(self).live(parent as int),
            old(self).live(uncle as int),
            old(self).live(g as int),
            parent != uncle && parent != g && uncle != g,
        ensures
            final(self).wf(),
            final(self)@ == old(self)@,
            Self::same_nodes(old(self), final(self)),
            final(self).places@ == old(self).places@,
            (Self::red_family(old(self), x, parent as int, Some(uncle), g as int) && old(self).node(
                uncle as int,
            ).color == NodeColor::Red) ==> final(self).balanced_but(g as int),
    {
        self.set_color(parent, NodeColor::Black);
        let ghost s1 = *self;
        self.set_color(uncle, NodeColor::Black);
        let ghost s2 = *self;
        self.set_color(g, NodeColor::Red);
        let ghost s3 = *self;
        proof {
            let pre = old(self);
            let before = old(self).heights@;
            self.heights = Ghost(
                |i: usize|
                    if i == parent || i == uncle {
                        before(i) + 1
                    } else {
                        before(i)
                    },
            );
            let colors = |j: int|
                if j == parent || j == uncle {
                    NodeColor::Black
                } else if j == g {
                    NodeColor::Red
                } else {
                    pre.node(j).color
                };
            let heights = |j: int|
                if j == parent || j == uncle {
                    pre.height(j) + 1
                } else {
                    pre.height(j)
                };
            Self::lemma_recolored_twice(pre, &s1, &s2);
            Self::lemma_recolored_twice(pre, &s2, &s3);
            assert(Self::recolored(pre, self)) by {
                assert forall|i: int| 0 <= i < pre.nodes@.len() implies (
                #[trigger] self.nodes@[i] is Some) == (pre.nodes@[i] is Some) by {
                    assert((s3.nodes@[i] is Some) == (pre.nodes@[i] is Some));
                }
                assert forall|i: int| pre.live(i) implies (#[trigger] self.node(i)).parent
                    == pre.node(i).parent && self.node(i).left == pre.node(i).left && self.node(
                    i,
                ).right == pre.node(i).right && self.node(i).value == pre.node(i).value by {
                    let m = s3.node(i);
                }
            }
            assert forall|i: int| pre.live(i) implies (#[trigger] self.node(i)).color == colors(
                i,
            ) by {
                assert(s1.live(i) == pre.live(i));
                assert(s2.live(i) == s1.live(i));
                assert(s3.live(i) == s2.live(i));
                let m1 = s1.node(i);
                let m2 = s2.node(i);
                let m3 = s3.node(i);
            }
            assert(Self::repainted(pre, self, colors, heights));
            Self::lemma_recolored(pre, self);
            if Self::red_family(pre, x, parent as int, Some(uncle), g as int) && pre.node(
                uncle as int,
            ).color == NodeColor::Red {
                Self::lemma_recolored_up(
                    pre,
                    self,
                    colors,
                    heights,
                    x,
                    parent as int,
                    uncle as int,
                    g as int,
                );
            }
        }
    }

    /// Turning a node up over its parent changes no color, and what a node
    /// has as children afterwards is known from what it had.
    #[verifier::spinoff_prover]
    #[verifier::rlimit(100)]
    proof fn lemma_pivoted_children(pre: &Self, post: &Self, x: int, i: int)
        requires
            pre.wf(),
            Self::pivoted(pre, post, x),
            pre.live(i),
        ensures
            post.live(i),
            post.node(i).color == pre.node(i).color,
            ({
                let y = pre.node(x).parent->Some_0 as int;
                let on_left = pre.node(y).left == Some(x as usize);
                let b = if on_left {
                    pre.node(x).right
                } else {
                    pre.node(x).left
                };
                &&& pre.live(y) && pre.linked(x) && pre.linked(y) && x != y
                &&& !on_left ==> pre.node(y).right == Some(x as usize)
                &&& i == x ==> (if on_left {
                    post.node(i).left == pre.node(x).left && post.node(i).right == Some(y as usize)
                } else {
                    post.node(i).right == pre.node(x).right && post.node(i).left == Some(y as usize)
                })
                &&& i == y ==> (if on_left {
                    post.node(i).left == b && post.node(i).right == pre.node(y).right
                } else {
                    post.node(i).right == b && post.node(i).left == pre.node(y).left
                })
                &&& (i != x && i != y && Some(i as usize) != pre.node(y).parent) ==> post.node(
                    i,
                ).left == pre.node(i).left && post.node(i).right == pre.node(i).right
                &&& (i != x && i != y && Some(i as usize) == pre.node(y).parent) ==> (if pre.node(
                    i,
                ).left == Some(y as usize) {
                    post.node(i).left == Some(x as usize) && post.node(i).right == pre.node(i).right
                        && pre.node(i).right != Some(y as usize)
                } else {
                    post.node(i).right == Some(x as usize) && post.node(i).left == pre.node(i).left
                        && pre.node(i).right == Some(y as usize)
                })
            }),
    {
        let y = pre.node(x).parent->Some_0 as int;
        let g = pre.node(y).parent;
        let on_left = pre.node(y).left == Some(x as usize);
        let b = if on_left {
            pre.node(x).right
        } else {
            pre.node(x).left
        };
        assert(pre.linked(x));
        assert(pre.linked(y));
        assert(pre.linked(i));
        if b is Some {
            assert(pre.linked(b->Some_0 as int));
        }
        if g is Some {
            assert(pre.linked(g->Some_0 as int));
        }
        if i != x && i != y && Some(i as usize) != b && Some(i as usize) != g {
            assert(post.nodes@[i] == pre.nodes@[i]);
        }
    }

    /// Tells whether the node at `x` is on the same side of its parent as
    /// the parent is of the grandparent.
    pub open spec fn in_line(&self, x: int) -> bool {
        self.spec_is_left_child(x) == self.spec_is_left_child(self.node(x).parent->Some_0 as int)
    }

    /// After a red node was turned up over its red parent, each node is
    /// level and no red node has a red child but, at most, the former parent.
    #[verifier::spinoff_prover]
    #[verifier::rlimit(100)]
    proof fn lemma_straightened_node(
        pre: &Self,
        post: &Self,
        x: int,
        parent: int,
        uncle: Option<usize>,
        g: int,
        i: int,
    )
        requires
            Self::red_family(pre, x, parent, uncle, g),
            Self::pivoted(pre, post, x),
            post.heights@ == pre.heights@,
            post.live(i),
        ensures
            post.leveled(i),
            post.no_red_child_but(i, parent),
            i == parent ==> post.no_red_child(i),
    {
        Self::lemma_red_family(pre, x, parent, uncle, g);
        Self::lemma_pivoted_node(pre, post, x, i);
        Self::lemma_pivoted_children(pre, post, x, i);
        Self::lemma_pivoted_children(pre, post, x, x);
        Self::lemma_pivoted_children(pre, post, x, parent);
        assert(pre.leveled(i));
        assert(pre.leveled(x));
        assert(pre.leveled(parent));
        assert(pre.leveled(g));
        assert(pre.no_red_child_but(i, x));
        assert(pre.no_red_child_but(parent, x));
        assert(pre.no_red_child(x));
        assert(pre.linked(i));
        if pre.node(i).left is Some {
            let l = pre.node(i).left->Some_0 as int;
            assert(pre.linked(l));
            Self::lemma_pivoted_children(pre, post, x, l);
        }
        if pre.node(i).right is Some {
            let r = pre.node(i).right->Some_0 as int;
            assert(pre.linked(r));
            Self::lemma_pivoted_children(pre, post, x, r);
        }
        if post.node(i).left is Some {
            let l = post.node(i).left->Some_0 as int;
            assert(post.linked(i));
            assert(post.live(l));
            Self::lemma_pivoted_node(pre, post, x, l);
            Self::lemma_pivoted_children(pre, post, x, l);
        }
        if post.node(i).right is Some {
            let r = post.node(i).right->Some_0 as int;
            assert(post.linked(i));
            assert(post.live(r));
            Self::lemma_pivoted_node(pre, post, x, r);
            Self::lemma_pivoted_children(pre, post, x, r);
        }
    }

    /// After a red node was turned up over its red parent, the tree is a
    /// red-black tree but for the former parent, which is now the child of the
    /// node, on the other side.
    #[verifier::spinoff_prover]
    #[verifier::rlimit(100)]
    proof fn lemma_straightened(
        pre: &Self,
        post: &Self,
        x: int,
        parent: int,
        uncle: Option<usize>,
        g: int,
    )
        requires
            Self::red_family(pre, x, parent, uncle, g),
            !pre.in_line(x),
            Self::pivoted(pre, post, x),
            post.heights@ == pre.heights@,
        ensures
            Self::red_family(post, parent, x, uncle, g),
            post.in_line(parent),
            uncle matches Some(u) ==> post.node(u as int).color == pre.node(u as int).color,
    {
        Self::lemma_pivoted(pre, post, x);
        Self::lemma_red_family(pre, x, parent, uncle, g);
        Self::lemma_pivoted_children(pre, post, x, x);
        Self::lemma_pivoted_children(pre, post, x, parent);
        Self::lemma_pivoted_children(pre, post, x, g);
        match uncle {
            Some(u) => {
                Self::lemma_pivoted_children(pre, post, x, u as int);
            },
            None => {},
        }
        assert forall|i: int| post.live(i) implies #[trigger] post.leveled(i) by {
            Self::lemma_straightened_node(pre, post, x, parent, uncle, g, i);
        }
        assert forall|i: int| post.live(i) implies #[trigger] post.no_red_child_but(i, parent) by {
            Self::lemma_straightened_node(pre, post, x, parent, uncle, g, i);
        }
        Self::lemma_straightened_node(pre, post, x, parent, uncle, g, parent);
        match post.root {
            Some(r) => {
                assert(pre.linked(pre.root->Some_0 as int));
                Self::lemma_pivoted_children(pre, post, x, r as int);
            },
            None => {},
        }
    }

    /// After the red parent of a red node in line with it was turned up
    /// over the black grandparent, made black and one higher, and the
    /// grandparent made red and one lower, each node is level and no red node
    /// has a red child.
    #[verifier::spinoff_prover]
    #[verifier::rlimit(100)]
    proof fn lemma_line_fixed_node(
        pre: &Self,
        mid: &Self,
        post: &Self,
        colors: spec_fn(int) -> NodeColor,
        heights: spec_fn(int) -> nat,
        x: int,
        parent: int,
        uncle: Option<usize>,
        g: int,
        i: int,
    )
        requires
            Self::red_family(pre, x, parent, uncle, g),
            pre.in_line(x),
            !pre.is_red_child(uncle),
            Self::pivoted(pre, mid, parent),
            mid.heights@ == pre.heights@,
            mid.wf(),
            Self::repainted(mid, post, colors, heights),
            forall|j: int|
                #[trigger] colors(j) == if j == parent {
                    NodeColor::Black
                } else if j == g {
                    NodeColor::Red
                } else {
                    pre.node(j).color
                },
            forall|j: int|
                #[trigger] heights(j) == if j == parent {
                    pre.height(j) + 1
                } else if j == g {
                    (pre.height(j) - 1) as nat
                } else {
                    pre.height(j)
                },
            post.live(i),
        ensures
            post.leveled(i),
            post.no_red_child(i),
    {
        Self::lemma_red_family(pre, x, parent, uncle, g);
        Self::lemma_repainted_node(mid, post, colors, heights, i);
        Self::lemma_pivoted_node(pre, mid, parent, i);
        Self::lemma_pivoted_children(pre, mid, parent, i);
        Self::lemma_pivoted_children(pre, mid, parent, parent);
        Self::lemma_pivoted_children(pre, mid, parent, g);
        assert(pre.leveled(i));
        assert(pre.leveled(x));
        assert(pre.leveled(parent));
        assert(pre.leveled(g));
        assert(pre.no_red_child_but(i, x));
        assert(pre.no_red_child_but(parent, x));
        assert(pre.no_red_child(x));
        assert(pre.linked(i));
        if pre.node(i).left is Some {
            let l = pre.node(i).left->Some_0 as int;
            assert(pre.linked(l));
            Self::lemma_pivoted_children(pre, mid, parent, l);
        }
        if pre.node(i).right is Some {
            let r = pre.node(i).right->Some_0 as int;
            assert(pre.linked(r));
            Self::lemma_pivoted_children(pre, mid, parent, r);
        }
        if mid.node(i).left is Some {
            let l = mid.node(i).left->Some_0 as int;
            assert(mid.linked(i));
            assert(mid.live(l));
            Self::lemma_pivoted_node(pre, mid, parent, l);
            Self::lemma_pivoted_children(pre, mid, parent, l);
            assert(pre.linked(l));
        }
        if mid.node(i).right is Some {
            let r = mid.node(i).right->Some_0 as int;
            assert(mid.linked(i));
            assert(mid.live(r));
            Self::lemma_pivoted_node(pre, mid, parent, r);
            Self::lemma_pivoted_children(pre, mid, parent, r);
            assert(pre.linked(r));
        }
        match uncle {
            Some(u) => {
                assert(pre.leveled(u as int));
            },
            None => {},
        }
    }

    /// After the red parent of a red node in line with it was turned up
    /// over the black grandparent, made black and one higher, and the
    /// grandparent made red and one lower, the tree is a red-black tree.
    #[verifier::spinoff_prover]
    #[verifier::rlimit(100)]
    proof fn lemma_line_fixed(
        pre: &Self,
        mid: &Self,
        post: &Self,
        colors: spec_fn(int) -> NodeColor,
        heights: spec_fn(int) -> nat,
        x: int,
        parent: int,
        uncle: Option<usize>,
        g: int,
    )
        requires
            Self::red_family(pre, x, parent, uncle, g),
            pre.in_line(x),
            !pre.is_red_child(uncle),
            Self::pivoted(pre, mid, parent),
            mid.heights@ == pre.heights@,
            Self::repainted(mid, post, colors, heights),
            forall|j: int|
                #[trigger] colors(j) == if j == parent {
                    NodeColor::Black
                } else if j == g {
                    NodeColor::Red
                } else {
                    pre.node(j).color
                },
            forall|j: int|
                #[trigger] heights(j) == if j == parent {
                    pre.height(j) + 1
                } else if j == g {
                    (pre.height(j) - 1) as nat
                } else {
                    pre.height(j)
                },
        ensures
            post.balanced(),
    {
        Self::lemma_red_family(pre, x, parent, uncle, g);
        Self::lemma_pivoted(pre, mid, parent);
        Self::lemma_recolored(mid, post);
        assert forall|i: int| post.live(i) implies #[trigger] post.leveled(i) by {
            Self::lemma_line_fixed_node(
                pre,
                mid,
                post,
                colors,
                heights,
                x,
                parent,
                uncle,
                g,
                i,
            );
        }
        assert forall|i: int| post.live(i) implies #[trigger] post.no_red_child(i) by {
            Self::lemma_line_fixed_node(
                pre,
                mid,
                post,
                colors,
                heights,
                x,
                parent,
                uncle,
                g,
                i,
            );
        }
        match post.root {
            Some(r) => {
                Self::lemma_repainted_node(mid, post, colors, heights, r as int);
                Self::lemma_pivoted_children(pre, mid, parent, r as int);
                Self::lemma_pivoted_children(pre, mid, parent, parent);
                if pre.root is Some {
                    assert(pre.linked(pre.root->Some_0 as int));
                }
                assert(mid.linked(r as int));
            },
            None => {},
        }
    }

    /// Turns the red parent of the red node at `x`, which is in line with
    /// it, up over the grandparent, and makes the parent black and the
    /// grandparent red.
    #[verifier::spinoff_prover]
    #[verifier::rlimit(100)]
    fn rotate_fix(&mut self, Ghost(x): Ghost<int>, parent: usize, Ghost(uncle): Ghost<Option<usize>>, g: usize)
        requires
            old(self).wf(),
            old(self).live(parent as int),
            old(self).node(parent as int).parent == Some(g),
        ensures
            final(self).wf(),
            final(self)@ == old(self)@,
            Self::same_nodes(old(self), final(self)),
            (Self::red_family(old(self), x, parent as int, uncle, g as int) && old(self).in_line(x)
                && !old(self).is_red_child(uncle)) ==> final(self).balanced(),
    {
        proof {
            assert(self.linked(parent as int));
        }
        self.pivot_up(parent);
        let ghost mid = *self;
        self.set_color(parent, NodeColor::Black);
        let ghost s2 = *self;
        self.set_color(g, NodeColor::Red);
        let ghost s3 = *self;
        proof {
            let pre = old(self);
            let before = old(self).heights@;
            self.heights = Ghost(
                |i: usize|
                    if i == parent {
                        before(i) + 1
                    } else if i == g {
                        (before(i) - 1) as nat
                    } else {
                        before(i)
                    },
            );
            let colors = |j: int|
                if j == parent {
                    NodeColor::Black
                } else if j == g {
                    NodeColor::Red
                } else {
                    pre.node(j).color
                };
            let heights = |j: int|
                if j == parent {
                    pre.height(j) + 1
                } else if j == g {
                    (pre.height(j) - 1) as nat
                } else {
                    pre.height(j)
                };
            Self::lemma_recolored_twice(&mid, &s2, &s3);
            assert(Self::recolored(&mid, self)) by {
                assert forall|i: int| 0 <= i < mid.nodes@.len() implies (
                #[trigger] self.nodes@[i] is Some) == (mid.nodes@[i] is Some) by {
                    assert((s3.nodes@[i] is Some) == (mid.nodes@[i] is Some));
                }
                assert forall|i: int| mid.live(i) implies (#[trigger] self.node(i)).parent
                    == mid.node(i).parent && self.node(i).left == mid.node(i).left && self.node(
                    i,
                ).right == mid.node(i).right && self.node(i).value == mid.node(i).value by {
                    let m = s3.node(i);
                }
            }
            assert forall|i: int| mid.live(i) implies (#[trigger] self.node(i)).color == colors(
                i,
            ) by {
                assert(s2.live(i) == mid.live(i));
                assert(s3.live(i) == s2.live(i));
                let m2 = s2.node(i);
                let m3 = s3.node(i);
                assert(pre.live(i) == mid.live(i));
                Self::lemma_pivoted_children(pre, &mid, parent as int, i);
            }
            assert(Self::repainted(&mid, self, colors, heights));
            Self::lemma_recolored(&mid, self);
            assert forall|i: int| #[trigger] self.live(i) == pre.live(i) by {
                assert(mid.live(i) == pre.live(i));
                assert(s2.live(i) == mid.live(i));
                assert(s3.live(i) == s2.live(i));
            }
            if Self::red_family(pre, x, parent as int, uncle, g as int) && pre.in_line(x)
                && !pre.is_red_child(uncle) {
                Self::lemma_line_fixed(
                    pre,
                    &mid,
                    self,
                    colors,
                    heights,
                    x,
                    parent as int,
                    uncle,
                    g as int,
                );
            }
        }
    }

    /// Makes the root black. A tree that is a red-black tree but for its red
    /// root is a red-black tree afterwards.
    #[verifier::spinoff_prover]
    #[verifier::rlimit(50)]
    fn blacken_root(&mut self)
        requires
            old(self).wf(),
        ensures
            final(self).wf(),
            final(self)@ == old(self)@,
            Self::same_nodes(old(self), final(self)),
            final(self).root == old(self).root,
            final(self).root matches Some(r) ==> final(self).node(r as int).color
                == NodeColor::Black,
            old(self).balanced() ==> final(self).balanced(),
            (old(self).root matches Some(r) && old(self).balanced_but(r as int)) ==> final(self).balanced(),
    {
        match self.root {
            Some(r) => {
                if self.at(r).is_red() {
                    self.set_color(r, NodeColor::Black);
                    let ghost mid = *self;
                    proof {
                        let before = old(self).heights@;
                        self.heights = Ghost(
                            |i: usize|
                                if i == r {
                                    before(i) + 1
                                } else {
                                    before(i)
                                },
                        );
                        let pre = old(self);
                        let colors = |i: int|
                            if i == r {
                                NodeColor::Black
                            } else {
                                pre.node(i).color
                            };
                        let heights = |i: int|
                            if i == r {
                                pre.height(i) + 1
                            } else {
                                pre.height(i)
                            };
                        assert(Self::recolored(old(self), &mid));
                        assert(Self::recolored(old(self), self)) by {
                            assert forall|i: int| 0 <= i < pre.nodes@.len() implies (
                            #[trigger] self.nodes@[i] is Some) == (pre.nodes@[i] is Some) by {
                                assert((mid.nodes@[i] is Some) == (pre.nodes@[i] is Some));
                            }
                            assert forall|i: int| pre.live(i) implies (#[trigger] self.node(
                                i,
                            )).parent == pre.node(i).parent && self.node(i).left == pre.node(i).left
                                && self.node(i).right == pre.node(i).right && self.node(i).value
                                == pre.node(i).value by {
                                let m = mid.node(i);
                            }
                        }
                        assert forall|i: int| pre.live(i) implies (#[trigger] self.node(i)).color
                            == colors(i) by {
                            let m = mid.node(i);
                        }
                        assert(Self::repainted(old(self), self, colors, heights));
                        Self::lemma_recolored(old(self), self);
                        if old(self).balanced_but(r as int) {
                            Self::lemma_root_blackened(old(self), self, colors, heights, r as int);
                        }
                        assert forall|i: int| #[trigger] self.live(i) == pre.live(i) by {
                            assert(mid.live(i) == pre.live(i));
                        }
                    }
                }
            },
            None => {},
        }
    }
}

impl<T: Ordered> View for BinaryTree<T> {
    type V = Seq<T>;

    /// The values that the tree holds, in order.
    open spec fn view(&self) -> Seq<T> {
        Seq::new(self.order@.len(), |p: int| self.value_at(p))
    }
}

} // verus!
