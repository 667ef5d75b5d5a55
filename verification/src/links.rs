//! The operations that change the trees of a forest.

use vstd::prelude::*;
use crate::forest::{Forest, Shape};
use crate::node::{Node, Slot};
use crate::order::{le, less, lt, total_order};
use crate::shape::linked;
use crate::token::Token;

verus! {

impl<T: Ord> Forest<T> {
    /// Puts `value` into a vacant slot, or into a new one, as a tree of its own, and returns the
    /// token of the new node.
    pub(crate) fn plant(&mut self, value: T) -> (token: Token<T>)
        requires
            old(self).wf(),
        ensures
            final(self).wf(),
            !old(self).live(token.index),
            !old(self).issued(token),
            forall|other: Token<T>|
                #![trigger final(self).issued(other)]
                #![trigger old(self).issued(other)]
                final(self).issued(other) <==> old(self).issued(other) || other == token,
            final(self).items() == old(self).items().insert(token, value),
            final(self).tree() == old(self).tree().insert(token, Seq::empty()),
            final(self).token_at(token.index) == token,
            forall|x: usize| #[trigger]
                old(self).live(x) ==> final(self).token_at(x) == old(self).token_at(x),
            forall|x: usize|
                #![trigger final(self).is_root(x)]
                #![trigger old(self).is_root(x)]
                final(self).is_root(x) <==> old(self).is_root(x) || x == token.index,
    {
        let ghost before = *self;
        let ghost shape = self.shape@;
        let i: usize = match self.free.pop() {
            Some(i) => {
                assert(before.free@[before.free@.len() - 1] == i);
                self.slots[i].node = Some(Node::new(value));
                i
            },
            None => {
                let i: usize = self.slots.len();
                self.slots.push(Slot { generation: 0, node: Some(Node::new(value)) });
                i
            },
        };
        let token = self.token_of(i);
        proof {
            self.shape = Ghost(
                Shape {
                    kids: shape.kids.insert(i, Seq::empty()),
                    rank: shape.rank.insert(i, 0),
                    ..shape
                },
            );
            if before.has_parent(i) {
                assert(before.member_ok(i));
            }
            assert forall|x: usize| #[trigger] before.live(x) implies self.live(x)
                && self.slots[x as int] == before.slots[x as int] by {}
            assert forall|x: usize| #[trigger] self.live(x) && x != i implies before.live(x) by {}
            assert forall|p: usize, j: int|
                self.live(p) && 0 <= j < self.shape@.kids[p].len() implies #[trigger] self.child_ok(
                p,
                j,
            ) by {
                assert(before.child_ok(p, j));
            }
            assert forall|p: usize| #[trigger] self.live(p) implies self.head_ok(p) by {
                if p != i {
                    assert(before.head_ok(p));
                }
            }
            assert forall|c: usize| #[trigger] self.has_parent(c) implies self.member_ok(c) by {
                assert(before.has_parent(c));
                assert(before.member_ok(c));
            }
            assert forall|r: usize| #[trigger] self.is_root(r) implies self.root_ok(r) by {
                if r != i {
                    assert(before.is_root(r));
                    assert(before.root_ok(r));
                }
            }
            assert(self.free_ok()) by {
                assert forall|k: int| 0 <= k < self.free@.len() implies {
                    let x = #[trigger] self.free@[k];
                    &&& x < self.slots.len()
                    &&& self.slots[x as int].node is None
                    &&& self.slots[x as int].generation < u64::MAX
                } by {
                    assert(self.free@[k] == before.free@[k]);
                }
                assert forall|x: usize| #[trigger]
                    self.live(x) implies self.slots[x as int].generation < u64::MAX by {
                    if x != i {
                        assert(before.live(x));
                    }
                }
            }
            self.lemma_order_kept(&before, None, None);
            assert forall|other: Token<T>|
                self.issued(other) <==> before.issued(other) || other == token by {
                if other.index < before.slots.len() && other.index != i {
                    assert(before.live(other.index) <==> self.live(other.index));
                }
            }
            assert(self.items() =~= before.items().insert(token, value)) by {
                assert forall|other: Token<T>| other != token implies (self.holds(other)
                    <==> before.holds(other)) by {
                    if other.index != i && before.live(other.index) {
                    }
                }
                assert forall|other: Token<T>| before.holds(other) implies self.node(other.index)
                    == before.node(other.index) by {}
            }
            assert(self.tree() =~= before.tree().insert(token, Seq::empty())) by {
                assert forall|other: Token<T>| other != token implies (self.holds(other)
                    <==> before.holds(other)) by {
                    if other.index != i && before.live(other.index) {
                    }
                }
                assert forall|other: Token<T>| before.holds(other) implies self.family(
                    other.index,
                ) == before.family(other.index) by {
                    self.lemma_family_kept(&before, other.index, None);
                }
                assert(self.family(i) =~= Seq::empty());
            }
        }
        token
    }

    /// Takes the root `r` out of the forest and hands back its node. The slot is given up: its
    /// generation moves on, and it is reused unless its generations have run out. The children
    /// of `r` lose their parent and stay chained to each other as orphans.
    pub(crate) fn uproot(&mut self, r: usize) -> (node: Node<T>)
        requires
            old(self).wf(),
            old(self).is_root(r),
        ensures
            final(self).structure(),
            final(self).ordered(),
            node == old(self).node(r),
            final(self).shape@.orphans == old(self).shape@.kids[r],
            node.first_child == (if final(self).shape@.orphans.len() > 0 {
                Some(final(self).shape@.orphans.last())
            } else {
                None
            }),
            final(self).items() == old(self).items().remove(old(self).token_at(r)),
            final(self).tree() == old(self).tree().remove(old(self).token_at(r)),
            forall|i: usize| #[trigger]
                old(self).live(i) && i != r ==> final(self).token_at(i) == old(self).token_at(i),
            forall|token: Token<T>|
                #![trigger final(self).issued(token)]
                #![trigger old(self).issued(token)]
                final(self).issued(token) <==> old(self).issued(token),
            forall|x: usize|
                #![trigger final(self).is_root(x)]
                #![trigger final(self).is_orphan(x)]
                #![trigger old(self).is_root(x)]
                final(self).is_root(x) <==> final(self).is_orphan(x) || (old(self).is_root(x) && x
                    != r),
    {
        let ghost before = *self;
        let ghost shape = self.shape@;
        let ghost ks = shape.kids[r];
        proof {
            assert(self.head_ok(r));
        }
        let node: Node<T> = self.slots[r].node.take().unwrap();
        let generation: u64 = self.slots[r].generation + 1;
        self.slots[r].generation = generation;
        if generation < u64::MAX {
            self.free.push(r);
        }
        proof {
            self.shape = Ghost(
                Shape {
                    parent: Map::new(
                        |c: usize| shape.parent.contains_key(c) && shape.parent[c] != r,
                        |c: usize| shape.parent[c],
                    ),
                    orphans: ks,
                    ..shape
                },
            );
            assert forall|x: usize| #[trigger] before.live(x) && x != r implies self.live(x)
                && self.slots[x as int] == before.slots[x as int] by {}
            assert forall|x: usize| #[trigger] self.live(x) implies before.live(x) && x != r by {}
            assert forall|p: usize, j: int|
                self.live(p) && 0 <= j < self.shape@.kids[p].len() implies #[trigger] self.child_ok(
                p,
                j,
            ) by {
                assert(before.child_ok(p, j));
            }
            assert forall|p: usize| #[trigger] self.live(p) implies self.head_ok(p) by {
                assert(before.head_ok(p));
            }
            assert forall|c: usize| #[trigger] self.has_parent(c) implies self.member_ok(c) by {
                assert(before.has_parent(c));
                assert(before.member_ok(c));
            }
            assert forall|j: int| 0 <= j < ks.len() implies #[trigger] self.orphan_ok(j) by {
                assert(before.child_ok(r, j));
            }
            assert forall|x: usize| #[trigger] self.is_root(x) implies self.root_ok(x) by {
                if before.has_parent(x) {
                    assert(before.member_ok(x));
                } else {
                    assert(before.is_root(x));
                    assert(before.root_ok(x));
                }
            }
            assert forall|x: usize| self.is_orphan(x) implies #[trigger] self.is_root(x) by {
                assert(self.orphan_ok(shape.place[x]));
            }
            assert(self.free_ok()) by {
                assert forall|k: int| 0 <= k < self.free@.len() implies {
                    let x = #[trigger] self.free@[k];
                    &&& x < self.slots.len()
                    &&& self.slots[x as int].node is None
                    &&& self.slots[x as int].generation < u64::MAX
                } by {
                    if k < before.free@.len() {
                        assert(self.free@[k] == before.free@[k]);
                    }
                }
                assert forall|k: int, l: int| 0 <= k < l < self.free@.len() implies #[trigger]
                    self.free@[k] != #[trigger] self.free@[l] by {
                    assert(self.free@[k] == before.free@[k]);
                    if l < before.free@.len() {
                        assert(self.free@[l] == before.free@[l]);
                    }
                }
                assert forall|x: usize| #[trigger]
                    self.live(x) implies self.slots[x as int].generation < u64::MAX by {
                    assert(before.live(x));
                }
            }
            self.lemma_order_kept(&before, None, None);
            assert forall|token: Token<T>| self.issued(token) <==> before.issued(token) by {
                if token.index < before.slots.len() && token.index != r {
                    assert(before.live(token.index) <==> self.live(token.index));
                }
            }
            assert(self.items() =~= before.items().remove(before.token_at(r))) by {
                assert forall|other: Token<T>| other != before.token_at(r) implies (self.holds(
                    other,
                ) <==> before.holds(other)) by {
                    if other.index != r && before.live(other.index) {
                    }
                }
            }
            assert(self.tree() =~= before.tree().remove(before.token_at(r))) by {
                assert forall|other: Token<T>| other != before.token_at(r) implies (self.holds(
                    other,
                ) <==> before.holds(other)) by {
                    if other.index != r && before.live(other.index) {
                    }
                }
                assert forall|other: Token<T>| self.holds(other) implies self.family(other.index)
                    == before.family(other.index) by {
                    self.lemma_family_kept(&before, other.index, Some(r));
                }
            }
        }
        node
    }

    /// Frees the leftmost orphan `c` from the chain, so that it heads a tree with no neighbours,
    /// and returns the orphan to its right.
    pub(crate) fn sever(&mut self, c: usize) -> (right: Option<usize>)
        requires
            old(self).structure(),
            old(self).ordered(),
            old(self).shape@.orphans.len() > 0,
            c == old(self).shape@.orphans.last(),
        ensures
            final(self).structure(),
            final(self).ordered(),
            final(self).same_items(old(self)),
            final(self).shape@.orphans == old(self).shape@.orphans.drop_last(),
            final(self).shape@.kids == old(self).shape@.kids,
            final(self).tree() == old(self).tree(),
            right == (if final(self).shape@.orphans.len() > 0 {
                Some(final(self).shape@.orphans.last())
            } else {
                None
            }),
            forall|i: usize|
                #![trigger final(self).is_root(i)]
                #![trigger old(self).is_root(i)]
                final(self).is_root(i) <==> old(self).is_root(i),
            forall|i: usize|
                #![trigger final(self).is_orphan(i)]
                #![trigger old(self).is_orphan(i)]
                final(self).is_orphan(i) <==> old(self).is_orphan(i) && i != c,
    {
        let ghost before = *self;
        let ghost shape = self.shape@;
        let ghost os = shape.orphans;
        proof {
            assert(self.orphan_ok(os.len() - 1));
        }
        let right: Option<usize> = self.next_of(c);
        self.set_prev(c, None);
        self.set_next(c, None);
        proof {
            self.shape = Ghost(Shape { orphans: os.drop_last(), ..shape });
            self.lemma_same_places(&before);
            assert forall|p: usize, j: int|
                self.live(p) && 0 <= j < self.shape@.kids[p].len() implies #[trigger] self.child_ok(
                p,
                j,
            ) by {
                assert(before.child_ok(p, j));
            }
            assert forall|p: usize| #[trigger] self.live(p) implies self.head_ok(p) by {
                assert(before.head_ok(p));
            }
            assert forall|x: usize| #[trigger] self.has_parent(x) implies self.member_ok(x) by {
                assert(before.has_parent(x));
                assert(before.member_ok(x));
            }
            assert forall|j: int| 0 <= j < self.shape@.orphans.len() implies #[trigger]
                self.orphan_ok(j) by {
                assert(before.orphan_ok(j));
            }
            assert forall|r: usize| #[trigger] self.is_root(r) implies self.root_ok(r) by {
                assert(before.is_root(r));
                assert(before.root_ok(r));
            }
            self.lemma_order_kept(&before, None, None);
            self.lemma_same_tree(&before);
        }
        right
    }

    /// Makes the root `child` the leftmost child of the root `parent`: `child` is pushed in
    /// front of the children that `parent` has.
    pub(crate) fn attach(&mut self, parent: usize, child: usize)
        requires
            old(self).wf(),
            old(self).is_root(parent),
            old(self).is_root(child),
            parent != child,
            total_order::<T>() ==> le(old(self).node(parent).value, old(self).node(child).value),
        ensures
            final(self).wf(),
            final(self).same_items(old(self)),
            final(self).shape@.kids == old(self).shape@.kids.insert(
                parent,
                old(self).shape@.kids[parent].push(child),
            ),
            final(self).tree() == old(self).tree().insert(
                old(self).token_at(parent),
                seq![old(self).token_at(child)] + old(self).tree()[old(self).token_at(parent)],
            ),
            forall|i: usize|
                #![trigger final(self).is_root(i)]
                #![trigger old(self).is_root(i)]
                final(self).is_root(i) <==> old(self).is_root(i) && i != child,
    {
        let old_first: Option<usize> = self.first_child_of(parent);
        let ghost before = *self;
        let ghost shape = self.shape@;
        let ghost ks = shape.kids[parent];
        proof {
            assert(self.head_ok(parent));
            assert(self.root_ok(parent));
            assert(self.root_ok(child));
            if ks.len() > 0 {
                assert(self.child_ok(parent, ks.len() - 1));
            }
            assert(self.head_ok(child));
        }
        self.set_prev(child, Some(parent));
        self.set_next(child, old_first);
        if let Some(second) = old_first {
            self.set_prev(second, Some(child));
        }
        self.set_first_child(parent, Some(child));
        proof {
            self.shape = Ghost(
                Shape {
                    parent: shape.parent.insert(child, parent),
                    kids: shape.kids.insert(parent, ks.push(child)),
                    place: shape.place.insert(child, ks.len() as int),
                    rank: shape.rank.insert(parent, shape.top + 1),
                    top: shape.top + 1,
                    orphans: shape.orphans,
                },
            );
            self.lemma_same_places(&before);
            assert forall|p: usize, j: int|
                self.live(p) && 0 <= j < self.shape@.kids[p].len() implies #[trigger] self.child_ok(
                p,
                j,
            ) by {
                if p == parent && j == ks.len() {
                } else {
                    assert(before.child_ok(p, j));
                    assert(before.has_parent(shape.kids[p][j]));
                }
            }
            assert forall|p: usize| #[trigger] self.live(p) implies self.head_ok(p) by {
                assert(before.head_ok(p));
            }
            assert forall|c: usize| #[trigger] self.has_parent(c) implies self.member_ok(c) by {
                if c != child {
                    assert(before.has_parent(c));
                    assert(before.member_ok(c));
                }
            }
            assert forall|r: usize| #[trigger] self.is_root(r) implies self.root_ok(r) by {
                assert(before.is_root(r));
                assert(before.root_ok(r));
            }
            self.lemma_order_kept(&before, None, Some(child));
            self.lemma_same_tokens(&before);
            assert(self.tree() =~= before.tree().insert(
                before.token_at(parent),
                seq![before.token_at(child)] + before.tree()[before.token_at(parent)],
            )) by {
                assert forall|other: Token<T>| before.holds(other) && other.index
                    != parent implies self.family(other.index) == before.family(other.index) by {
                    self.lemma_family_kept(&before, other.index, None);
                }
                assert(self.family(parent) =~= seq![before.token_at(child)] + before.family(
                    parent,
                )) by {
                    assert forall|j: int| 0 <= j < ks.len() implies self.token_at(#[trigger] ks[j])
                        == before.token_at(ks[j]) by {
                        assert(before.child_ok(parent, j));
                    }
                }
            }
        }
    }

    /// Joins the trees under the roots `first` and `second` into one and returns its root: the
    /// root whose value is strictly before the other's, and `first` when neither is. The other
    /// root becomes the leftmost child of the one returned. Without a `second` nothing changes.
    pub(crate) fn link(&mut self, first: usize, second: Option<usize>) -> (winner: usize)
        requires
            old(self).wf(),
            old(self).is_root(first),
            second matches Some(s) ==> old(self).is_root(s) && s != first,
        ensures
            final(self).wf(),
            final(self).same_items(old(self)),
            second is None ==> winner == first && *final(self) == *old(self),
            second matches Some(s) ==> ({
                let loser = if winner == first { s } else { first };
                &&& winner == first || winner == s
                &&& total_order::<T>() ==> (winner == s <==> lt(
                    old(self).node(s).value,
                    old(self).node(first).value,
                ))
                &&& final(self).shape@.kids == old(self).shape@.kids.insert(
                    winner,
                    old(self).shape@.kids[winner].push(loser),
                )
                &&& final(self).tree() == old(self).tree().insert(
                    old(self).token_at(winner),
                    seq![old(self).token_at(loser)] + old(self).tree()[old(self).token_at(winner)],
                )
                &&& total_order::<T>() ==> (old(self).token_at(winner), final(self).tree())
                    == linked(
                    old(self).tree(),
                    old(self).items(),
                    old(self).token_at(first),
                    old(self).token_at(s),
                )
                &&& forall|i: usize|
                    #![trigger final(self).is_root(i)]
                    #![trigger old(self).is_root(i)]
                    final(self).is_root(i) <==> old(self).is_root(i) && i != loser
            }),
    {
        match second {
            None => first,
            Some(s) => {
                if less(self.value_of(s), self.value_of(first)) {
                    self.attach(s, first);
                    s
                } else {
                    self.attach(first, s);
                    first
                }
            },
        }
    }

    /// Takes the node `n` with its subtree out from under its parent, so that it heads a tree of
    /// its own. The edge above `n` need not be in heap order.
    pub(crate) fn cut(&mut self, n: usize)
        requires
            old(self).structure(),
            old(self).ordered_except(Some(n)),
            old(self).shape@.orphans.len() == 0,
            old(self).has_parent(n),
        ensures
            final(self).wf(),
            final(self).same_items(old(self)),
            forall|i: usize|
                #![trigger final(self).is_root(i)]
                #![trigger old(self).is_root(i)]
                final(self).is_root(i) <==> old(self).is_root(i) || i == n,
            ({
                let parent = old(self).shape@.parent[n];
                let at = old(self).degree(parent) - 1 - old(self).shape@.place[n];
                &&& old(self).live(parent)
                &&& 0 <= at < old(self).family(parent).len()
                &&& old(self).family(parent)[at] == old(self).token_at(n)
                &&& final(self).tree() == old(self).tree().insert(
                    old(self).token_at(parent),
                    old(self).family(parent).remove(at),
                )
            }),
    {
        let ghost before = *self;
        let ghost shape = self.shape@;
        let ghost p = shape.parent[n];
        let ghost j = shape.place[n];
        let ghost ks = shape.kids[p];
        proof {
            assert(self.member_ok(n));
            assert(self.child_ok(p, j));
            if j > 0 {
                assert(self.child_ok(p, j - 1));
            }
            if j + 1 < ks.len() {
                assert(self.child_ok(p, j + 1));
                let left = ks[j + 1];
                assert(self.head_ok(left));
                if shape.kids[left].len() > 0 {
                    assert(self.child_ok(left, shape.kids[left].len() - 1));
                }
            }
            assert(self.head_ok(p));
        }
        let right: Option<usize> = self.next_of(n);
        let left: usize = self.prev_of(n).unwrap();
        if let Some(s) = right {
            self.set_prev(s, Some(left));
        }
        // `left` is the parent where `n` is its leftmost child, and else the sibling to the left.
        let leftmost: bool = match self.first_child_of(left) {
            Some(c) => c == n,
            None => false,
        };
        if leftmost {
            self.set_first_child(left, right);
        } else {
            self.set_next(left, right);
        }
        self.set_next(n, None);
        self.set_prev(n, None);
        proof {
            self.shape = Ghost(
                Shape {
                    parent: shape.parent.remove(n),
                    kids: shape.kids.insert(p, ks.remove(j)),
                    place: Map::new(
                        |m: usize| true,
                        |m: usize|
                            if shape.parent.contains_key(m) && shape.parent[m] == p
                                && shape.place[m] > j {
                                shape.place[m] - 1
                            } else {
                                shape.place[m]
                            },
                    ),
                    rank: shape.rank,
                    top: shape.top,
                    orphans: shape.orphans,
                },
            );
            self.lemma_same_places(&before);
            assert forall|q: usize, k: int|
                self.live(q) && 0 <= k < self.shape@.kids[q].len() implies #[trigger] self.child_ok(
                q,
                k,
            ) by {
                if q == p {
                    if k < j {
                        assert(before.child_ok(p, k));
                        assert(before.child_ok(p, k + 1));
                    } else {
                        assert(before.child_ok(p, k + 1));
                        if k + 2 < ks.len() {
                            assert(before.child_ok(p, k + 2));
                        }
                        if k > 0 {
                            assert(before.child_ok(p, k - 1));
                        }
                    }
                } else {
                    assert(before.child_ok(q, k));
                }
            }
            assert forall|q: usize| #[trigger] self.live(q) implies self.head_ok(q) by {
                assert(before.head_ok(q));
                if shape.kids[q].len() > 0 {
                    assert(before.child_ok(q, shape.kids[q].len() - 1));
                }
            }
            assert forall|c: usize| #[trigger] self.has_parent(c) implies self.member_ok(c) by {
                assert(before.has_parent(c));
                assert(before.member_ok(c));
                assert(before.child_ok(shape.parent[c], shape.place[c]));
            }
            assert forall|r: usize| #[trigger] self.is_root(r) implies self.root_ok(r) by {
                if r != n {
                    assert(before.is_root(r));
                    assert(before.root_ok(r));
                }
            }
            self.lemma_order_kept(&before, Some(n), None);
            self.lemma_same_tokens(&before);
            assert(self.tree() =~= before.tree().insert(
                before.token_at(p),
                before.family(p).remove(ks.len() - 1 - j),
            )) by {
                assert forall|other: Token<T>| before.holds(other) && other.index
                    != p implies self.family(other.index) == before.family(other.index) by {
                    self.lemma_family_kept(&before, other.index, None);
                }
                assert(self.family(p) =~= before.family(p).remove(ks.len() - 1 - j)) by {
                    assert forall|k: int| 0 <= k < ks.len() implies self.token_at(#[trigger] ks[k])
                        == before.token_at(ks[k]) by {
                        assert(before.child_ok(p, k));
                    }
                }
            }
        }
    }

    /// Lets `f` lower the value of the node `n` in place. No link changes, so the edge above
    /// `n` may be left out of heap order.
    pub(crate) fn update<F: FnOnce(&mut T)>(&mut self, n: usize, f: F)
        requires
            old(self).wf(),
            old(self).live(n),
            forall|r: &mut T|
                mut_ref_current(r) == old(self).node(n).value ==> #[trigger] call_requires(f, (r,)),
            forall|r: &mut T|
                mut_ref_current(r) == old(self).node(n).value && #[trigger] call_ensures(
                    f,
                    (r,),
                    (),
                ) ==> le(mut_ref_future(r), old(self).node(n).value),
        ensures
            final(self).structure(),
            final(self).ordered_except(Some(n)),
            final(self).same_places(old(self)),
            final(self).shape == old(self).shape,
            final(self).tree() == old(self).tree(),
            (exists|r: &mut T|
                {
                    &&& mut_ref_current(r) == old(self).node(n).value
                    &&& #[trigger] call_ensures(f, (r,), ())
                    &&& final(self).items() == old(self).items().insert(
                        old(self).token_at(n),
                        mut_ref_future(r),
                    )
                }),
    {
        let ghost before = *self;
        match &mut self.slots[n].node {
            Some(node) => {
                f(&mut node.value);
            },
            None => {},
        }
        proof {
            assert(self.slots@ == before.slots@.update(
                n as int,
                (Slot {
                    generation: before.slots[n as int].generation,
                    node: Some(Node { value: self.node(n).value, ..before.node(n) }),
                }),
            ));
            self.lemma_same_places(&before);
            assert forall|p: usize, j: int|
                self.live(p) && 0 <= j < self.shape@.kids[p].len() implies #[trigger] self.child_ok(
                p,
                j,
            ) by {
                assert(before.child_ok(p, j));
            }
            assert forall|p: usize| #[trigger] self.live(p) implies self.head_ok(p) by {
                assert(before.head_ok(p));
            }
            assert forall|c: usize| #[trigger] self.has_parent(c) implies self.member_ok(c) by {
                assert(before.has_parent(c));
                assert(before.member_ok(c));
            }
            assert forall|r: usize| #[trigger] self.is_root(r) implies self.root_ok(r) by {
                assert(before.is_root(r));
                assert(before.root_ok(r));
            }
            assert(self.ordered_except(Some(n))) by {
                if total_order::<T>() {
                    assert forall|c: usize| #[trigger] self.has_parent(c) && c != n implies le(
                        self.node(self.shape@.parent[c]).value,
                        self.node(c).value,
                    ) by {
                        assert(before.has_parent(c));
                        assert(before.member_ok(c));
                        if self.shape@.parent[c] == n {
                            assert(le(before.node(n).value, before.node(c).value));
                            assert(le(self.node(n).value, before.node(n).value));
                        }
                    }
                }
            }
            self.lemma_same_tree(&before);
            assert(self.items() =~= before.items().insert(
                before.token_at(n),
                self.node(n).value,
            )) by {
                assert forall|other: Token<T>| self.holds(other) <==> before.holds(other) by {
                    if other.index < before.slots.len() {
                        assert(self.slots[other.index as int].generation
                            == before.slots[other.index as int].generation);
                    }
                }
                assert forall|other: Token<T>| before.holds(other) && other.index
                    != n implies self.node(other.index) == before.node(other.index) by {
                    assert(self.slots[other.index as int] == before.slots[other.index as int]);
                }
            }
        }
    }
}

} // verus!
