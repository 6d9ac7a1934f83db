//! A doubly-linked list whose nodes live in an arena and name each other by
//! their place in it.

use vstd::prelude::*;

verus! {

/// A node of a list. Its neighbours are named by their place in the arena.
pub struct ListNode<T> {
    /// The previous node in the list.
    pub prev: Option<usize>,
    /// The next node in the list.
    pub next: Option<usize>,
    /// The value that the node holds.
    pub value: T,
}

/// A doubly-linked list. A node keeps its place in the arena for as long as
/// it is in the list.
pub struct LinkedList<T> {
    /// The arena of nodes; a free place is empty.
    pub nodes: Vec<Option<ListNode<T>>>,
    /// The first node of the list.
    pub front: Option<usize>,
    /// The free places of the arena.
    pub free: Vec<usize>,
    /// The nodes in the order of the list.
    pub order: Ghost<Seq<usize>>,
    /// The rank of each node: how many nodes come before it.
    pub ranks: Ghost<spec_fn(usize) -> int>,
}

impl<T> View for LinkedList<T> {
    type V = Seq<T>;

    /// The values of the list, the first one first.
    open spec fn view(&self) -> Seq<T> {
        Seq::new(self.order@.len(), |p: int| self.node(self.order@[p] as int).value)
    }
}

impl<T> LinkedList<T> {
    /// Tells whether the place `i` of the arena holds a node.
    pub open spec fn live(&self, i: int) -> bool {
        0 <= i < self.nodes@.len() && self.nodes@[i] is Some
    }

    /// The node at the place `i`.
    pub open spec fn node(&self, i: int) -> ListNode<T>
        recommends
            self.live(i),
    {
        self.nodes@[i]->Some_0
    }

    /// The rank of the node at the place `i`.
    pub open spec fn rank(&self, i: int) -> int {
        (self.ranks@)(i as usize)
    }

    /// The node of rank `p`, if the list is that long.
    pub open spec fn at_rank(&self, p: int) -> Option<usize> {
        if 0 <= p < self.order@.len() {
            Some(self.order@[p])
        } else {
            None
        }
    }

    /// The node at `i` is listed at its rank, and its neighbours are the
    /// nodes of the ranks next to its own.
    pub open spec fn linked(&self, i: int) -> bool {
        let p = self.rank(i);
        &&& 0 <= p < self.order@.len()
        &&& self.order@[p] == i
        &&& self.node(i).prev == self.at_rank(p - 1)
        &&& self.node(i).next == self.at_rank(p + 1)
    }

    /// The list is consistent: the order lists each node once, every node is
    /// linked to the nodes next to it, and the front is the first node.
    pub open spec fn wf(&self) -> bool {
        &&& self.nodes@.len() <= usize::MAX
        &&& self.order@.len() + self.free@.len() == self.nodes@.len()
        &&& forall|i: int| self.live(i) ==> #[trigger] self.linked(i)
        &&& forall|p: int|
            0 <= p < self.order@.len() ==> self.live(#[trigger] self.order@[p] as int) && self.rank(
                self.order@[p] as int,
            ) == p
        &&& self.front == self.at_rank(0)
        &&& forall|j: int|
            0 <= j < self.free@.len() ==> (#[trigger] self.free@[j]) < self.nodes@.len()
                && self.nodes@[self.free@[j] as int] is None
        &&& forall|j: int, k: int|
            0 <= j < k < self.free@.len() ==> (#[trigger] self.free@[j]) != (#[trigger] self.free@[k])
    }

    /// Creates an empty list.
    pub fn new() -> (l: Self)
        ensures
            l.wf(),
            l@.len() == 0,
    {
        LinkedList {
            nodes: Vec::new(),
            front: None,
            free: Vec::new(),
            order: Ghost(Seq::empty()),
            ranks: Ghost(|i: usize| 0int),
        }
    }

    /// Returns the first node of the list.
    pub fn get_front(&self) -> (f: Option<usize>)
        requires
            self.wf(),
        ensures
            f == self.at_rank(0),
            f matches Some(i) ==> self.live(i as int) && self.rank(i as int) == 0,
    {
        proof {
            if self.order@.len() > 0 {
                assert(self.live(self.order@[0] as int));
            }
        }
        self.front
    }

    /// Returns the value of the node at the place `node`, if the place
    /// holds a node.
    pub fn get(&self, node: usize) -> (r: Option<&T>)
        ensures
            match r {
                Some(v) => self.live(node as int) && *v == self.node(node as int).value,
                None => !self.live(node as int),
            },
    {
        if node >= self.nodes.len() {
            return None;
        }
        match &self.nodes[node] {
            Some(n) => Some(&n.value),
            None => None,
        }
    }

    /// Returns the node after the node at `node`.
    pub fn get_next(&self, node: usize) -> (r: Option<usize>)
        requires
            self.wf(),
            self.live(node as int),
        ensures
            r == self.at_rank(self.rank(node as int) + 1),
            r matches Some(i) ==> self.live(i as int) && self.rank(i as int) == self.rank(
                node as int,
            ) + 1,
    {
        proof {
            assert(self.linked(node as int));
            let p = self.rank(node as int) + 1;
            if p < self.order@.len() {
                assert(self.live(self.order@[p] as int));
            }
        }
        match &self.nodes[node] {
            Some(n) => n.next,
            None => None,
        }
    }

    /// Returns the node before the node at `node`.
    pub fn get_prev(&self, node: usize) -> (r: Option<usize>)
        requires
            self.wf(),
            self.live(node as int),
        ensures
            r == self.at_rank(self.rank(node as int) - 1),
            r matches Some(i) ==> self.live(i as int) && self.rank(i as int) == self.rank(
                node as int,
            ) - 1,
    {
        proof {
            assert(self.linked(node as int));
            let p = self.rank(node as int) - 1;
            if 0 <= p {
                assert(self.live(self.order@[p] as int));
            }
        }
        match &self.nodes[node] {
            Some(n) => n.prev,
            None => None,
        }
    }

    /// Returns the size of the list up to the node at `node`, the node
    /// itself counted.
    pub fn left_size(&self, node: usize) -> (n: usize)
        requires
            self.wf(),
            self.live(node as int),
        ensures
            n == self.rank(node as int) + 1,
    {
        let mut i: usize = 0;
        let mut cur: Option<usize> = Some(node);
        proof {
            assert(self.linked(node as int));
        }
        while cur.is_some()
            invariant
                self.wf(),
                0 <= self.rank(node as int) < self.order@.len(),
                cur matches Some(c) ==> self.live(c as int) && 0 <= self.rank(c as int) && i
                    + self.rank(c as int) == self.rank(node as int),
                cur is None ==> i == self.rank(node as int) + 1,
                i <= self.order@.len(),
            decreases
                    (match cur {
                        Some(c) => self.rank(c as int) + 1,
                        None => 0,
                    }),
        {
            let c: usize = cur.unwrap();
            proof {
                assert(self.linked(c as int));
            }
            i += 1;
            cur = self.get_prev(c);
        }
        i
    }

    /// Returns the size of the list from the node at `node` on, the node
    /// itself counted.
    pub fn right_size(&self, node: usize) -> (n: usize)
        requires
            self.wf(),
            self.live(node as int),
        ensures
            n == self@.len() - self.rank(node as int),
    {
        let mut i: usize = 0;
        let mut cur: Option<usize> = Some(node);
        proof {
            assert(self.linked(node as int));
        }
        while cur.is_some()
            invariant
                self.wf(),
                0 <= self.rank(node as int) < self.order@.len(),
                cur matches Some(c) ==> self.live(c as int) && self.rank(c as int)
                    < self.order@.len() && self.rank(c as int) - i == self.rank(node as int),
                cur is None ==> i == self.order@.len() - self.rank(node as int),
                i <= self.order@.len(),
            decreases
                    (match cur {
                        Some(c) => self.order@.len() - self.rank(c as int),
                        None => 0,
                    }),
        {
            let c: usize = cur.unwrap();
            proof {
                assert(self.linked(c as int));
            }
            i += 1;
            cur = self.get_next(c);
        }
        i
    }

    /// Returns the nodes of the list from the node at `node` on, in their order.
    pub fn foreach(&self, node: usize) -> (visited: Vec<usize>)
        requires
            self.wf(),
            self.live(node as int),
        ensures
            visited@ == self.order@.skip(self.rank(node as int)),
    {
        let mut visited: Vec<usize> = Vec::new();
        let mut cur: Option<usize> = Some(node);
        let ghost start = self.rank(node as int);
        proof {
            assert(self.linked(node as int));
        }
        while cur.is_some()
            invariant
                self.wf(),
                0 <= start <= self.order@.len(),
                cur matches Some(c) ==> self.live(c as int) && self.rank(c as int) == start
                    + visited@.len(),
                cur is None ==> start + visited@.len() == self.order@.len(),
                visited@ == self.order@.subrange(start, start + visited@.len()),
            decreases
                    (match cur {
                        Some(c) => self.order@.len() - self.rank(c as int),
                        None => 0,
                    }),
        {
            let c: usize = cur.unwrap();
            proof {
                assert(self.linked(c as int));
            }
            let ghost before = visited@;
            visited.push(c);
            assert(visited@ =~= self.order@.subrange(start, start + before.len() + 1));
            cur = self.get_next(c);
        }
        assert(visited@ =~= self.order@.skip(start));
        visited
    }

    /// Tells whether the node at `i` of the list `pre` is in the list `post`
    /// with its value, and with its links as they were but for the link to the
    /// node at `idx`, which is new at the rank `k`.
    pub open spec fn kept_on_insert(pre: &Self, post: &Self, idx: usize, k: int, i: int) -> bool {
        &&& post.live(i)
        &&& post.node(i).value == pre.node(i).value
        &&& post.node(i).prev == (if pre.rank(i) == k {
            Some(idx)
        } else {
            pre.node(i).prev
        })
        &&& post.node(i).next == (if pre.rank(i) == k - 1 {
            Some(idx)
        } else {
            pre.node(i).next
        })
    }

    /// Tells whether the node at `i` of the list `pre` is in the list `post`
    /// with its value, and with its links as they were but for the links to
    /// the node at `z`, which now lead past it.
    pub open spec fn kept_on_remove(pre: &Self, post: &Self, z: usize, i: int) -> bool {
        let k = pre.rank(z as int);
        &&& post.live(i)
        &&& post.node(i).value == pre.node(i).value
        &&& post.node(i).prev == (if pre.rank(i) == k + 1 {
            pre.node(z as int).prev
        } else {
            pre.node(i).prev
        })
        &&& post.node(i).next == (if pre.rank(i) == k - 1 {
            pre.node(z as int).next
        } else {
            pre.node(i).next
        })
    }

    /// Tells whether `post` is the list `pre` with the value `value` in a new
    /// node at the place `idx`, at the rank `k`.
    pub open spec fn node_added(pre: &Self, post: &Self, idx: usize, k: int, value: T) -> bool {
        &&& 0 <= k <= pre.order@.len()
        &&& !pre.live(idx as int)
        &&& 0 <= idx <= pre.nodes@.len()
        &&& post.nodes@.len() == if idx < pre.nodes@.len() {
            pre.nodes@.len()
        } else {
            pre.nodes@.len() + 1
        }
        &&& post.live(idx as int)
        &&& post.node(idx as int).value == value
        &&& post.node(idx as int).prev == pre.at_rank(k - 1)
        &&& post.node(idx as int).next == pre.at_rank(k)
        &&& forall|i: int| pre.live(i) ==> #[trigger] Self::kept_on_insert(pre, post, idx, k, i)
        &&& forall|i: int| #[trigger] post.live(i) ==> pre.live(i) || i == idx
        &&& post.front == if k == 0 {
            Some(idx)
        } else {
            pre.front
        }
        &&& post.order@ == pre.order@.insert(k, idx)
        &&& forall|i: int|
            0 <= i <= usize::MAX ==> #[trigger] post.rank(i) == if i == idx {
                k
            } else if pre.rank(i) >= k {
                pre.rank(i) + 1
            } else {
                pre.rank(i)
            }
    }

    /// A list with one more node is consistent, and holds the value of the
    /// node at its rank besides the values that it held.
    #[verifier::spinoff_prover]
    #[verifier::rlimit(50)]
    pub proof fn lemma_node_added(pre: &Self, post: &Self, idx: usize, k: int, value: T)
        requires
            pre.wf(),
            Self::node_added(pre, post, idx, k, value),
        ensures
            forall|i: int| post.live(i) ==> #[trigger] post.linked(i),
            forall|p: int|
                0 <= p < post.order@.len() ==> post.live(#[trigger] post.order@[p] as int)
                    && post.rank(post.order@[p] as int) == p,
            post.front == post.at_rank(0),
            post@ == pre@.insert(k, value),
    {
        assert forall|p: int| 0 <= p < post.order@.len() implies post.live(
            #[trigger] post.order@[p] as int,
        ) && post.rank(post.order@[p] as int) == p && post@[p] == pre@.insert(k, value)[p] by {
            if p != k {
                let q = if p < k {
                    p
                } else {
                    p - 1
                };
                let i = pre.order@[q] as int;
                assert(pre.live(i));
                assert(pre.linked(i));
                assert(Self::kept_on_insert(pre, post, idx, k, i));
            }
        }
        assert forall|i: int| post.live(i) implies #[trigger] post.linked(i) by {
            if i != idx {
                assert(pre.live(i));
                assert(pre.linked(i));
                assert(Self::kept_on_insert(pre, post, idx, k, i));
                let p = pre.rank(i);
                if p - 1 >= 0 {
                    assert(pre.live(pre.order@[p - 1] as int));
                }
                if p + 1 < pre.order@.len() {
                    assert(pre.live(pre.order@[p + 1] as int));
                }
            }
        }
        if pre.order@.len() > 0 {
            assert(pre.live(pre.order@[0] as int));
        }
        assert(post@ =~= pre@.insert(k, value));
    }

    /// Puts a new node with the value `value` at the rank `k`, between the
    /// nodes `before` and `after` of the ranks next to it.
    #[verifier::spinoff_prover]
    #[verifier::rlimit(50)]
    fn link_between(
        &mut self,
        before: Option<usize>,
        after: Option<usize>,
        value: T,
        Ghost(k): Ghost<int>,
    ) -> (idx: usize)
        requires
            old(self).wf(),
            0 <= k <= old(self).order@.len(),
            before == old(self).at_rank(k - 1),
            after == old(self).at_rank(k),
        ensures
            final(self).wf(),
            final(self)@ == old(self)@.insert(k, value),
            final(self).live(idx as int),
            final(self).rank(idx as int) == k,
            !old(self).live(idx as int),
            forall|i: int|
                old(self).live(i) ==> #[trigger] final(self).live(i) && final(self).rank(i) == (
                if old(self).rank(i) >= k {
                    old(self).rank(i) + 1
                } else {
                    old(self).rank(i)
                }),
    {
        proof {
            if before is Some {
                assert(self.live(self.order@[k - 1] as int));
                assert(self.linked(before->Some_0 as int));
            }
            if after is Some {
                assert(self.live(self.order@[k] as int));
                assert(self.linked(after->Some_0 as int));
            }
        }
        let node = ListNode { prev: before, next: after, value };
        let idx: usize = match self.free.pop() {
            Some(idx) => {
                assert(old(self).free@[old(self).free@.len() - 1] == idx);
                self.nodes.set(idx, Some(node));
                idx
            },
            None => {
                let idx: usize = self.nodes.len();
                self.nodes.push(Some(node));
                assert(self.nodes@.len() == self.nodes.len());
                idx
            },
        };
        match before {
            Some(b) => match &mut self.nodes[b] {
                Some(n) => {
                    n.next = Some(idx);
                },
                None => {},
            },
            None => {
                self.front = Some(idx);
            },
        }
        match after {
            Some(a) => match &mut self.nodes[a] {
                Some(n) => {
                    n.prev = Some(idx);
                },
                None => {},
            },
            None => {},
        }
        proof {
            let ranks = old(self).ranks@;
            self.order = Ghost(old(self).order@.insert(k, idx));
            self.ranks = Ghost(
                |i: usize|
                    if i == idx {
                        k
                    } else if ranks(i) >= k {
                        ranks(i) + 1
                    } else {
                        ranks(i)
                    },
            );
            assert forall|i: int| old(self).live(i) implies #[trigger] Self::kept_on_insert(
                old(self),
                self,
                idx,
                k,
                i,
            ) by {
                assert(old(self).linked(i));
            }
            assert(Self::node_added(old(self), self, idx, k, value));
            Self::lemma_node_added(old(self), self, idx, k, value);
            assert forall|j: int| 0 <= j < self.free@.len() implies (#[trigger] self.free@[j])
                < self.nodes@.len() && self.nodes@[self.free@[j] as int] is None by {
                assert(old(self).free@[j] == self.free@[j]);
                if old(self).free@.len() > self.free@.len() {
                    assert(old(self).free@[j] != old(self).free@[old(self).free@.len() - 1]);
                }
                assert(old(self).nodes@[self.free@[j] as int] is None);
                if before is Some {
                    assert(old(self).live(before->Some_0 as int));
                }
                if after is Some {
                    assert(old(self).live(after->Some_0 as int));
                }
            }
            assert forall|j: int, m: int| 0 <= j < m < self.free@.len() implies (
            #[trigger] self.free@[j]) != (#[trigger] self.free@[m]) by {
                assert(old(self).free@[j] != old(self).free@[m]);
            }
        }
        idx
    }

    /// Inserts the value `value` at the beginning of the list, and returns its node.
    pub fn insert_front(&mut self, value: T) -> (idx: usize)
        requires
            old(self).wf(),
        ensures
            final(self).wf(),
            final(self)@ == old(self)@.insert(0, value),
            final(self).live(idx as int),
            final(self).rank(idx as int) == 0,
            forall|i: int|
                old(self).live(i) ==> #[trigger] final(self).live(i) && final(self).rank(i) == old(
                    self,
                ).rank(i) + 1,
    {
        let after: Option<usize> = self.front;
        let idx: usize = self.link_between(None, after, value, Ghost(0));
        proof {
            assert forall|i: int| old(self).live(i) implies #[trigger] self.live(i) && self.rank(i)
                == old(self).rank(i) + 1 by {
                assert(old(self).linked(i));
            }
        }
        idx
    }

    /// Inserts the value `value` before the node at `node`, and returns its node.
    pub fn insert_before(&mut self, node: usize, value: T) -> (idx: usize)
        requires
            old(self).wf(),
            old(self).live(node as int),
        ensures
            final(self).wf(),
            final(self)@ == old(self)@.insert(old(self).rank(node as int), value),
            final(self).live(idx as int),
            final(self).rank(idx as int) == old(self).rank(node as int),
            final(self).live(node as int),
            final(self).rank(node as int) == old(self).rank(node as int) + 1,
    {
        proof {
            assert(self.linked(node as int));
        }
        let before: Option<usize> = self.get_prev(node);
        let ghost k = self.rank(node as int);
        self.link_between(before, Some(node), value, Ghost(k))
    }

    /// Inserts the value `value` after the node at `node`, and returns its node.
    pub fn insert_after(&mut self, node: usize, value: T) -> (idx: usize)
        requires
            old(self).wf(),
            old(self).live(node as int),
        ensures
            final(self).wf(),
            final(self)@ == old(self)@.insert(old(self).rank(node as int) + 1, value),
            final(self).live(idx as int),
            final(self).rank(idx as int) == old(self).rank(node as int) + 1,
            final(self).live(node as int),
            final(self).rank(node as int) == old(self).rank(node as int),
    {
        proof {
            assert(self.linked(node as int));
        }
        let after: Option<usize> = self.get_next(node);
        let ghost k = self.rank(node as int) + 1;
        self.link_between(Some(node), after, value, Ghost(k))
    }

    /// Tells whether `post` is the list `pre` without the node at `z`.
    pub open spec fn node_removed(pre: &Self, post: &Self, z: usize) -> bool {
        let k = pre.rank(z as int);
        &&& pre.live(z as int)
        &&& post.nodes@.len() == pre.nodes@.len()
        &&& !post.live(z as int)
        &&& forall|i: int|
            pre.live(i) && i != z ==> #[trigger] Self::kept_on_remove(pre, post, z, i)
        &&& forall|i: int| #[trigger] post.live(i) ==> pre.live(i)
        &&& post.front == if k == 0 {
            pre.node(z as int).next
        } else {
            pre.front
        }
        &&& post.order@ == pre.order@.remove(k)
        &&& forall|i: int|
            0 <= i <= usize::MAX ==> #[trigger] post.rank(i) == if pre.rank(i) > k {
                pre.rank(i) - 1
            } else {
                pre.rank(i)
            }
    }

    /// A list with one node less is consistent, and holds what it held but
    /// for the value of the node.
    #[verifier::spinoff_prover]
    #[verifier::rlimit(50)]
    pub proof fn lemma_node_removed(pre: &Self, post: &Self, z: usize)
        requires
            pre.wf(),
            Self::node_removed(pre, post, z),
        ensures
            forall|i: int| post.live(i) ==> #[trigger] post.linked(i),
            forall|p: int|
                0 <= p < post.order@.len() ==> post.live(#[trigger] post.order@[p] as int)
                    && post.rank(post.order@[p] as int) == p,
            post.front == post.at_rank(0),
            0 <= pre.rank(z as int) < pre@.len(),
            pre@[pre.rank(z as int)] == pre.node(z as int).value,
            post@ == pre@.remove(pre.rank(z as int)),
    {
        let k = pre.rank(z as int);
        assert(pre.linked(z as int));
        assert forall|p: int| 0 <= p < post.order@.len() implies post.live(
            #[trigger] post.order@[p] as int,
        ) && post.rank(post.order@[p] as int) == p && post@[p] == pre@.remove(k)[p] by {
            let q = if p < k {
                p
            } else {
                p + 1
            };
            let i = pre.order@[q] as int;
            assert(pre.live(i));
            assert(pre.linked(i));
            assert(i != z);
            assert(Self::kept_on_remove(pre, post, z, i));
        }
        assert forall|i: int| post.live(i) implies #[trigger] post.linked(i) by {
            assert(pre.live(i));
            assert(pre.linked(i));
            assert(i != z);
            assert(Self::kept_on_remove(pre, post, z, i));
            let p = pre.rank(i);
            if p - 1 >= 0 {
                assert(pre.live(pre.order@[p - 1] as int));
            }
            if p + 1 < pre.order@.len() {
                assert(pre.live(pre.order@[p + 1] as int));
            }
            if p == k {
                assert(pre.order@[k] == z);
            }
        }
        if pre.order@.len() > 0 {
            assert(pre.live(pre.order@[0] as int));
        }
        assert(post@ =~= pre@.remove(k));
    }

    /// Unlinks the node at `node` from the list, and returns its value. The
    /// nodes next to it are linked to each other.
    #[verifier::spinoff_prover]
    #[verifier::rlimit(50)]
    pub fn unlink(&mut self, node: usize) -> (value: T)
        requires
            old(self).wf(),
            old(self).live(node as int),
        ensures
            final(self).wf(),
            !final(self).live(node as int),
            0 <= old(self).rank(node as int) < old(self)@.len(),
            value == old(self)@[old(self).rank(node as int)],
            final(self)@ == old(self)@.remove(old(self).rank(node as int)),
            forall|i: int|
                old(self).live(i) && i != node ==> #[trigger] final(self).live(i) && final(self).rank(i) == (if old(self).rank(i) > old(self).rank(node as int) {
                    old(self).rank(i) - 1
                } else {
                    old(self).rank(i)
                }),
    {
        proof {
            assert(self.linked(node as int));
        }
        let prev: Option<usize> = self.get_prev(node);
        let next: Option<usize> = self.get_next(node);
        match prev {
            Some(b) => match &mut self.nodes[b] {
                Some(n) => {
                    n.next = next;
                },
                None => {},
            },
            None => {
                self.front = next;
            },
        }
        match next {
            Some(a) => match &mut self.nodes[a] {
                Some(n) => {
                    n.prev = prev;
                },
                None => {},
            },
            None => {},
        }
        let mut taken: Option<ListNode<T>> = None;
        core::mem::swap(&mut self.nodes[node], &mut taken);
        self.free.push(node);
        proof {
            let k = old(self).rank(node as int);
            let ranks = old(self).ranks@;
            self.order = Ghost(old(self).order@.remove(k));
            self.ranks = Ghost(
                |i: usize|
                    if ranks(i) > k {
                        ranks(i) - 1
                    } else {
                        ranks(i)
                    },
            );
            assert forall|i: int| old(self).live(i) && i != node implies #[trigger] Self::kept_on_remove(
                old(self),
                self,
                node,
                i,
            ) by {
                assert(old(self).linked(i));
            }
            assert(Self::node_removed(old(self), self, node));
            Self::lemma_node_removed(old(self), self, node);
            assert forall|j: int| 0 <= j < self.free@.len() implies (#[trigger] self.free@[j])
                < self.nodes@.len() && self.nodes@[self.free@[j] as int] is None by {
                if j < old(self).free@.len() {
                    assert(old(self).nodes@[old(self).free@[j] as int] is None);
                    if prev is Some {
                        assert(old(self).live(prev->Some_0 as int));
                    }
                    if next is Some {
                        assert(old(self).live(next->Some_0 as int));
                    }
                }
            }
            assert forall|j: int, m: int| 0 <= j < m < self.free@.len() implies (
            #[trigger] self.free@[j]) != (#[trigger] self.free@[m]) by {
                if m < old(self).free@.len() {
                    assert(old(self).free@[j] != old(self).free@[m]);
                } else {
                    assert(old(self).nodes@[old(self).free@[j] as int] is None);
                }
            }
        }
        taken.unwrap().value
    }
}

} // verus!
