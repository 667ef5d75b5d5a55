//! The arena of nodes, and what it means for its links to form trees in heap order.

use vstd::prelude::*;
use core::marker::PhantomData;
use crate::node::{Node, Slot};
use crate::order::{le, lt, total_order};
use crate::token::Token;

verus! {

/// What the links mean, kept beside them for the proofs.
pub(crate) struct Shape {
    /// The parent of every node that has one.
    pub parent: Map<usize, usize>,
    /// The children of every node, rightmost first: the last entry is the node's `first_child`.
    pub kids: Map<usize, Seq<usize>>,
    /// Where a node stands in its parent's `kids`, or in `orphans`.
    pub place: Map<usize, int>,
    /// A number that is smaller in a child than in its parent.
    pub rank: Map<usize, nat>,
    /// No rank is above this.
    pub top: nat,
    /// The children that a removed root left behind and that are still chained by `next`,
    /// rightmost first.
    pub orphans: Seq<usize>,
}

impl Shape {
    /// The maps that are read at any index have an entry for every index.
    pub(crate) open spec fn total(self) -> bool {
        &&& forall|i: usize| #[trigger] self.kids.contains_key(i)
        &&& forall|i: usize| #[trigger] self.place.contains_key(i)
        &&& forall|i: usize| #[trigger] self.rank.contains_key(i)
    }
}

/// The nodes of a heap, held in an arena and addressed by index. They form trees: every node
/// is the child of one other node or heads a tree of its own.
pub(crate) struct Forest<T> {
    pub(crate) slots: Vec<Slot<T>>,
    /// The vacant slots that can be used again.
    pub(crate) free: Vec<usize>,
    pub(crate) shape: Ghost<Shape>,
}

impl<T: Ord> Forest<T> {
    /// Slot `i` holds a node.
    pub(crate) open spec fn live(&self, i: usize) -> bool {
        i < self.slots.len() && self.slots[i as int].node is Some
    }

    /// The node in slot `i`.
    pub(crate) open spec fn node(&self, i: usize) -> Node<T> {
        self.slots[i as int].node.unwrap()
    }

    pub(crate) open spec fn has_parent(&self, c: usize) -> bool {
        self.shape@.parent.contains_key(c)
    }

    /// The node in slot `i` heads a tree.
    pub(crate) open spec fn is_root(&self, i: usize) -> bool {
        self.live(i) && !self.has_parent(i)
    }

    /// How many children the node in slot `i` has.
    pub(crate) open spec fn degree(&self, i: usize) -> nat {
        self.shape@.kids[i].len()
    }

    /// The token for what slot `i` holds now.
    pub(crate) open spec fn token_at(&self, i: usize) -> Token<T> {
        Token { index: i, generation: self.slots[i as int].generation, marker: PhantomData }
    }

    /// `token` names a node that is in the forest.
    pub(crate) open spec fn holds(&self, token: Token<T>) -> bool {
        self.live(token.index) && self.slots[token.index as int].generation == token.generation
    }

    /// `token` names a node that is in the forest or was in it earlier.
    pub(crate) open spec fn issued(&self, token: Token<T>) -> bool {
        token.index < self.slots.len() && (token.generation
            < self.slots[token.index as int].generation || self.holds(token))
    }

    /// The values in the forest, each under the token of its node.
    pub(crate) open spec fn items(&self) -> Map<Token<T>, T> {
        Map::new(
            |token: Token<T>| self.holds(token),
            |token: Token<T>| self.node(token.index).value,
        )
    }

    /// The tokens of the children of the node in slot `p`, leftmost first.
    pub(crate) open spec fn family(&self, p: usize) -> Seq<Token<T>> {
        let ks = self.shape@.kids[p];
        Seq::new(ks.len(), |j: int| self.token_at(ks[ks.len() - 1 - j]))
    }

    /// The tokens of the orphans, leftmost first.
    pub(crate) open spec fn siblings(&self) -> Seq<Token<T>> {
        let os = self.shape@.orphans;
        Seq::new(os.len(), |j: int| self.token_at(os[os.len() - 1 - j]))
    }

    /// The children of every node in the forest, leftmost first, token by token.
    pub(crate) open spec fn tree(&self) -> Map<Token<T>, Seq<Token<T>>> {
        Map::new(|token: Token<T>| self.holds(token), |token: Token<T>| self.family(token.index))
    }

    /// `r` still stands in the chain that a removed root left behind.
    pub(crate) open spec fn is_orphan(&self, r: usize) -> bool {
        let j = self.shape@.place[r];
        0 <= j < self.shape@.orphans.len() && self.shape@.orphans[j] == r
    }

    /// The `j`-th child of `p` is linked as the shape says.
    pub(crate) open spec fn child_ok(&self, p: usize, j: int) -> bool {
        let ks = self.shape@.kids[p];
        let c = ks[j];
        &&& self.live(c)
        &&& self.shape@.parent.contains_key(c)
        &&& self.shape@.parent[c] == p
        &&& self.shape@.place[c] == j
        &&& self.node(c).next == (if j > 0 { Some(ks[j - 1]) } else { None })
        &&& self.node(c).prev == Some(if j + 1 < ks.len() { ks[j + 1] } else { p })
        &&& self.shape@.rank[c] < self.shape@.rank[p]
    }

    /// `first_child` of `p` is its leftmost child.
    pub(crate) open spec fn head_ok(&self, p: usize) -> bool {
        let ks = self.shape@.kids[p];
        &&& self.node(p).first_child == (if ks.len() > 0 { Some(ks.last()) } else { None })
        &&& self.shape@.rank[p] <= self.shape@.top
    }

    /// A node with a parent stands among that parent's children.
    pub(crate) open spec fn member_ok(&self, c: usize) -> bool {
        let p = self.shape@.parent[c];
        let j = self.shape@.place[c];
        &&& self.live(c)
        &&& self.live(p)
        &&& 0 <= j < self.shape@.kids[p].len()
        &&& self.shape@.kids[p][j] == c
    }

    /// A node that heads a tree has no neighbours, unless it is an orphan still in its chain.
    pub(crate) open spec fn root_ok(&self, r: usize) -> bool {
        self.is_orphan(r) || (self.node(r).prev is None && self.node(r).next is None)
    }

    /// The `j`-th orphan heads a tree and is chained to the orphan on its right.
    pub(crate) open spec fn orphan_ok(&self, j: int) -> bool {
        let os = self.shape@.orphans;
        let c = os[j];
        &&& self.is_root(c)
        &&& self.shape@.place[c] == j
        &&& self.node(c).next == (if j > 0 { Some(os[j - 1]) } else { None })
    }

    /// The free list names vacant slots, each once, and no generation in use is the last one.
    pub(crate) open spec fn free_ok(&self) -> bool {
        &&& forall|k: int|
            0 <= k < self.free@.len() ==> {
                let i = #[trigger] self.free@[k];
                &&& i < self.slots.len()
                &&& self.slots[i as int].node is None
                &&& self.slots[i as int].generation < u64::MAX
            }
        &&& forall|k: int, l: int|
            0 <= k < l < self.free@.len() ==> #[trigger] self.free@[k] != #[trigger] self.free@[l]
        &&& forall|i: usize| #[trigger] self.live(i) ==> self.slots[i as int].generation < u64::MAX
    }

    /// The links form trees, as the shape describes them.
    pub(crate) open spec fn structure(&self) -> bool {
        &&& forall|p: usize, j: int|
            self.live(p) && 0 <= j < self.shape@.kids[p].len() ==> #[trigger] self.child_ok(p, j)
        &&& forall|p: usize| #[trigger] self.live(p) ==> self.head_ok(p)
        &&& forall|c: usize| #[trigger] self.has_parent(c) ==> self.member_ok(c)
        &&& forall|r: usize| #[trigger] self.is_root(r) ==> self.root_ok(r)
        &&& forall|j: int| 0 <= j < self.shape@.orphans.len() ==> #[trigger] self.orphan_ok(j)
        &&& self.free_ok()
        &&& self.shape@.total()
    }

    /// Min-heap order on every edge but the one above `x`: no child is before its parent.
    pub(crate) open spec fn ordered_except(&self, x: Option<usize>) -> bool {
        total_order::<T>() ==> forall|c: usize| #[trigger]
            self.has_parent(c) && Some(c) != x ==> le(
                self.node(self.shape@.parent[c]).value,
                self.node(c).value,
            )
    }

    /// Min-heap order on every edge.
    pub(crate) open spec fn ordered(&self) -> bool {
        self.ordered_except(None)
    }

    /// Trees in min-heap order, and no orphan waiting.
    pub(crate) open spec fn wf(&self) -> bool {
        &&& self.structure()
        &&& self.ordered()
        &&& self.shape@.orphans.len() == 0
    }

    /// The same slots are in use in both forests, under the same generations.
    pub(crate) open spec fn same_places(&self, other: &Self) -> bool {
        &&& self.slots.len() == other.slots.len()
        &&& self.free@ == other.free@
        &&& forall|i: int|
            0 <= i < self.slots.len() ==> {
                &&& (#[trigger] self.slots[i]).generation == other.slots[i].generation
                &&& self.slots[i].node is Some <==> other.slots[i].node is Some
            }
    }

    /// Both forests hold the same values in the same slots, under the same generations.
    pub(crate) open spec fn same_items(&self, other: &Self) -> bool {
        &&& self.same_places(other)
        &&& forall|i: int|
            0 <= i < self.slots.len() && (#[trigger] self.slots[i]).node is Some
                ==> self.slots[i].node.unwrap().value == other.slots[i].node.unwrap().value
    }

    /// With the same slots in use, the same nodes are there, the same tokens have been issued,
    /// and the free list is still in order.
    pub(crate) proof fn lemma_same_places(&self, before: &Self)
        requires
            self.same_places(before),
            before.free_ok(),
        ensures
            self.free_ok(),
            forall|i: usize| #[trigger] self.live(i) ==> before.live(i),
            forall|i: usize| #[trigger] before.live(i) ==> self.live(i),
            forall|token: Token<T>|
                #![trigger self.issued(token)]
                #![trigger before.issued(token)]
                self.issued(token) <==> before.issued(token),
    {
        assert forall|i: usize| #[trigger] self.live(i) implies before.live(i) by {
            assert(self.slots[i as int].generation == before.slots[i as int].generation);
        }
        assert forall|i: usize| #[trigger] self.live(i) implies self.slots[i as int].generation
            < u64::MAX by {
            assert(before.live(i));
        }
        assert forall|i: usize| #[trigger] before.live(i) implies self.live(i) by {
            assert(self.slots[i as int].generation == before.slots[i as int].generation);
        }
        assert forall|k: int| 0 <= k < self.free@.len() implies {
            let i = #[trigger] self.free@[k];
            &&& i < self.slots.len()
            &&& self.slots[i as int].node is None
            &&& self.slots[i as int].generation < u64::MAX
        } by {
            let i = before.free@[k];
            assert(self.slots[i as int].generation == before.slots[i as int].generation);
        }
        assert forall|token: Token<T>| self.issued(token) <==> before.issued(token) by {
            if token.index < self.slots.len() {
                assert(self.slots[token.index as int].generation
                    == before.slots[token.index as int].generation);
            }
        }
    }

    /// Forests that hold the same values in the same slots hold the same items.
    pub(crate) proof fn lemma_same_items(&self, before: &Self)
        requires
            self.same_items(before),
        ensures
            self.items() == before.items(),
    {
        assert forall|token: Token<T>| self.holds(token) <==> before.holds(token) by {
            if token.index < self.slots.len() {
                assert(self.slots[token.index as int].generation
                    == before.slots[token.index as int].generation);
            }
        }
        assert forall|token: Token<T>| self.holds(token) implies self.node(token.index).value
            == before.node(token.index).value by {
            assert(self.slots[token.index as int].node is Some);
        }
        assert(self.items() =~= before.items());
    }

    /// A node that has the children it had before, each with the token it had before, has the
    /// family it had before. The tokens of all nodes but the root `gone` are taken to be kept.
    pub(crate) proof fn lemma_family_kept(&self, before: &Self, p: usize, gone: Option<usize>)
        requires
            before.structure(),
            before.live(p),
            self.shape@.kids[p] == before.shape@.kids[p],
            gone matches Some(r) ==> before.is_root(r),
            forall|i: usize| #[trigger]
                before.live(i) && Some(i) != gone ==> self.token_at(i) == before.token_at(i),
        ensures
            self.family(p) == before.family(p),
    {
        let ks = before.shape@.kids[p];
        assert forall|j: int| 0 <= j < ks.len() implies self.family(p)[j] == before.family(
            p,
        )[j] by {
            assert(before.child_ok(p, ks.len() - 1 - j));
        }
        assert(self.family(p) =~= before.family(p));
    }

    /// With the same slots in use, every slot has the token it had.
    pub(crate) proof fn lemma_same_tokens(&self, before: &Self)
        requires
            self.same_places(before),
        ensures
            forall|i: usize| #[trigger] before.live(i) ==> self.token_at(i) == before.token_at(i),
            forall|token: Token<T>|
                #![trigger self.holds(token)]
                #![trigger before.holds(token)]
                self.holds(token) <==> before.holds(token),
    {
        assert forall|i: usize| #[trigger] before.live(i) implies self.token_at(i)
            == before.token_at(i) by {
            assert(self.slots[i as int].generation == before.slots[i as int].generation);
        }
        assert forall|token: Token<T>| self.holds(token) <==> before.holds(token) by {
            if token.index < self.slots.len() {
                assert(self.slots[token.index as int].generation
                    == before.slots[token.index as int].generation);
            }
        }
    }

    /// With the same slots in use and the same children, the tree is the same.
    pub(crate) proof fn lemma_same_tree(&self, before: &Self)
        requires
            before.structure(),
            self.same_places(before),
            self.shape@.kids == before.shape@.kids,
        ensures
            self.tree() == before.tree(),
    {
        self.lemma_same_tokens(before);
        assert forall|token: Token<T>| before.holds(token) implies self.family(token.index)
            == before.family(token.index) by {
            self.lemma_family_kept(before, token.index, None);
        }
        assert(self.tree() =~= before.tree());
    }

    /// Heap order carries over to a forest with the same values, in which every edge was there
    /// before, but for the edge above `fresh`, which is in order, and in which the edge above
    /// `skipped` is gone.
    pub(crate) proof fn lemma_order_kept(
        &self,
        before: &Self,
        skipped: Option<usize>,
        fresh: Option<usize>,
    )
        requires
            before.structure(),
            before.ordered_except(skipped),
            forall|i: usize| #[trigger]
                before.live(i) && self.live(i) ==> self.node(i).value == before.node(i).value,
            forall|c: usize| #[trigger]
                self.has_parent(c) ==> self.live(c) && self.live(self.shape@.parent[c]),
            forall|c: usize| #[trigger]
                self.has_parent(c) && Some(c) != fresh ==> before.has_parent(c) && Some(c)
                    != skipped && self.shape@.parent[c] == before.shape@.parent[c],
            fresh matches Some(c) ==> self.has_parent(c) && (total_order::<T>() ==> le(
                self.node(self.shape@.parent[c]).value,
                self.node(c).value,
            )),
        ensures
            self.ordered(),
    {
        if total_order::<T>() {
            assert forall|c: usize| #[trigger] self.has_parent(c) implies le(
                self.node(self.shape@.parent[c]).value,
                self.node(c).value,
            ) by {
                if Some(c) != fresh {
                    assert(before.has_parent(c));
                    assert(before.member_ok(c));
                }
            }
        }
    }

    /// Following parents up from the node `n` ends at a root `r`, and the value of `r` is not
    /// after that of `n`.
    pub(crate) proof fn lemma_climb(&self, n: usize) -> (r: usize)
        requires
            self.structure(),
            self.ordered(),
            self.live(n),
        ensures
            self.is_root(r),
            total_order::<T>() ==> le(self.node(r).value, self.node(n).value),
        decreases self.shape@.top - self.shape@.rank[n],
    {
        if self.has_parent(n) {
            let p = self.shape@.parent[n];
            assert(self.member_ok(n));
            assert(self.child_ok(p, self.shape@.place[n]));
            assert(self.head_ok(p));
            assert(self.head_ok(n));
            let r = self.lemma_climb(p);
            if total_order::<T>() {
                assert(le(self.node(p).value, self.node(n).value));
                assert(le(self.node(r).value, self.node(p).value));
            }
            r
        } else {
            if total_order::<T>() {
                assert(le(self.node(n).value, self.node(n).value)) by {
                    if lt(self.node(n).value, self.node(n).value) {
                    }
                }
            }
            n
        }
    }

    /// An empty forest.
    pub(crate) fn new() -> (forest: Self)
        ensures
            forest.wf(),
            forest.slots.len() == 0,
    {
        Forest {
            slots: Vec::new(),
            free: Vec::new(),
            shape: Ghost(
                Shape {
                    parent: Map::empty(),
                    kids: Map::total(|i: usize| Seq::empty()),
                    place: Map::total(|i: usize| 0int),
                    rank: Map::total(|i: usize| 0nat),
                    top: 0,
                    orphans: Seq::empty(),
                },
            ),
        }
    }

    /// Whether `token` names a node that is in the forest.
    pub(crate) fn has(&self, token: Token<T>) -> (r: bool)
        ensures
            r == self.holds(token),
    {
        token.index < self.slots.len() && self.slots[token.index].generation == token.generation
            && self.slots[token.index].node.is_some()
    }

    pub(crate) fn token_of(&self, i: usize) -> (token: Token<T>)
        requires
            i < self.slots.len(),
        ensures
            token == self.token_at(i),
    {
        Token { index: i, generation: self.slots[i].generation, marker: PhantomData }
    }

    pub(crate) fn first_child_of(&self, i: usize) -> (r: Option<usize>)
        requires
            self.live(i),
        ensures
            r == self.node(i).first_child,
    {
        self.slots[i].node.as_ref().unwrap().first_child
    }

    pub(crate) fn prev_of(&self, i: usize) -> (r: Option<usize>)
        requires
            self.live(i),
        ensures
            r == self.node(i).prev,
    {
        self.slots[i].node.as_ref().unwrap().prev
    }

    pub(crate) fn next_of(&self, i: usize) -> (r: Option<usize>)
        requires
            self.live(i),
        ensures
            r == self.node(i).next,
    {
        self.slots[i].node.as_ref().unwrap().next
    }

    pub(crate) fn value_of(&self, i: usize) -> (r: &T)
        requires
            self.live(i),
        ensures
            *r == self.node(i).value,
    {
        &self.slots[i].node.as_ref().unwrap().value
    }

    pub(crate) fn set_first_child(&mut self, i: usize, link: Option<usize>)
        requires
            old(self).live(i),
        ensures
            final(self).slots@ == old(self).slots@.update(
                i as int,
                (Slot {
                    generation: old(self).slots[i as int].generation,
                    node: Some(Node { first_child: link, ..old(self).node(i) }),
                }),
            ),
            final(self).free == old(self).free,
            final(self).shape == old(self).shape,
    {
        match &mut self.slots[i].node {
            Some(node) => {
                node.first_child = link;
            },
            None => {},
        }
    }

    pub(crate) fn set_prev(&mut self, i: usize, link: Option<usize>)
        requires
            old(self).live(i),
        ensures
            final(self).slots@ == old(self).slots@.update(
                i as int,
                (Slot {
                    generation: old(self).slots[i as int].generation,
                    node: Some(Node { prev: link, ..old(self).node(i) }),
                }),
            ),
            final(self).free == old(self).free,
            final(self).shape == old(self).shape,
    {
        match &mut self.slots[i].node {
            Some(node) => {
                node.prev = link;
            },
            None => {},
        }
    }

    pub(crate) fn set_next(&mut self, i: usize, link: Option<usize>)
        requires
            old(self).live(i),
        ensures
            final(self).slots@ == old(self).slots@.update(
                i as int,
                (Slot {
                    generation: old(self).slots[i as int].generation,
                    node: Some(Node { next: link, ..old(self).node(i) }),
                }),
            ),
            final(self).free == old(self).free,
            final(self).shape == old(self).shape,
    {
        match &mut self.slots[i].node {
            Some(node) => {
                node.next = link;
            },
            None => {},
        }
    }
}

} // verus!
