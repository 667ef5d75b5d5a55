//! The heap itself: `new`, `push`, `pop` and `decrease_key`.

use vstd::prelude::*;
use vstd::multiset::Multiset;
use crate::bag::{
    keeps, lemma_values_empty, lemma_values_insert, lemma_values_key, lemma_values_remove,
    lemma_values_replace, values_of,
};
use crate::combine::CombineSiblings;
use crate::forest::Forest;
use crate::node::Node;
use crate::order::{is_least, le, total_order};
use crate::shape::{attached, combined, linked};
use crate::token::{InvalidToken, Token};

verus! {

/// What one `pop` does to the values of a heap. From no values it takes nothing and leaves
/// nothing. Otherwise it takes one occurrence of a value of the heap and leaves the others, and
/// under a total order the value it takes is a least one.
pub open spec fn pops<T: Ord>(before: Multiset<T>, popped: Option<T>, after: Multiset<T>) -> bool {
    match popped {
        None => before.len() == 0 && after == before,
        Some(value) => {
            &&& before.contains(value)
            &&& after == before.remove(value)
            &&& total_order::<T>() ==> is_least(value, before)
        },
    }
}

/// What a call of `push`, `pop` or `decrease_key` does to the tokens of a heap: the tokens
/// that were issued stay issued, and every element that is there afterwards was there before or
/// has a token that had not been issued before.
pub open spec fn follows<T: Ord>(before: Heap<T>, after: Heap<T>) -> bool {
    &&& forall|token: Token<T>| #[trigger] before.was_issued(token) ==> after.was_issued(token)
    &&& forall|token: Token<T>| #[trigger]
        after@.contains_key(token) ==> before@.contains_key(token) || !before.was_issued(token)
}

/// A pairing heap: a priority queue that hands out its least element first, and in which the
/// value of an element can be lowered through the token that `push` returned for it.
///
/// Its view is the map from the tokens of its elements to their values. How the elements hang
/// together is told by `root` and `children`.
pub struct Heap<T> {
    forest: Forest<T>,
    root: Option<usize>,
    combine_siblings: CombineSiblings,
}

impl<T: Ord> View for Heap<T> {
    type V = Map<Token<T>, T>;

    closed spec fn view(&self) -> Map<Token<T>, T> {
        self.forest.items()
    }
}

impl<T: Ord> Heap<T> {
    /// The heap is empty, or it is one tree in min-heap order that holds every element.
    pub closed spec fn wf(&self) -> bool {
        &&& self.forest.wf()
        &&& forall|i: usize| #[trigger] self.forest.is_root(i) <==> self.root == Some(i)
        &&& self@.dom().finite()
    }

    /// The token of the root: of the element that the next `pop` takes.
    pub closed spec fn root(&self) -> Option<Token<T>> {
        match self.root {
            Some(root) => Some(self.forest.token_at(root)),
            None => None,
        }
    }

    /// The children of every element, leftmost first. The leftmost child is the one that was
    /// linked under the element last.
    pub closed spec fn children(&self) -> Map<Token<T>, Seq<Token<T>>> {
        self.forest.tree()
    }

    /// `token` has been returned by a `push` on this heap, whether or not its element is still
    /// there.
    pub closed spec fn was_issued(&self, token: Token<T>) -> bool {
        self.forest.issued(token)
    }

    /// The values in the heap, each as often as it is there.
    pub open spec fn values(&self) -> Multiset<T> {
        values_of(self@)
    }

    /// The elements of a heap are finitely many, and each has a token that was issued. Each
    /// has its children, and the root is one of them, unless the heap is empty.
    pub proof fn lemma_elements(&self)
        requires
            self.wf(),
        ensures
            self@.dom().finite(),
            forall|token: Token<T>| #[trigger] self@.contains_key(token) ==> self.was_issued(token),
            self@.dom() == self.children().dom(),
            self.root() matches Some(root) ==> self@.contains_key(root),
            self.root() is None ==> self@ == Map::<Token<T>, T>::empty(),
    {
        assert(self@.dom() =~= self.children().dom());
        if self.root is Some {
            assert(self.forest.is_root(self.root.unwrap()));
        } else {
            assert forall|token: Token<T>| !self@.contains_key(token) by {
                if self@.contains_key(token) {
                    let r = self.forest.lemma_climb(token.index);
                }
            }
            assert(self@ =~= Map::<Token<T>, T>::empty());
        }
    }

    /// An empty heap.
    pub fn new() -> (heap: Heap<T>)
        ensures
            heap.wf(),
            heap@ == Map::<Token<T>, T>::empty(),
            heap.values() == Multiset::<T>::empty(),
            heap.root() is None,
            heap.children() == Map::<Token<T>, Seq<Token<T>>>::empty(),
            forall|token: Token<T>| !#[trigger] heap.was_issued(token),
    {
        let heap = Heap {
            forest: Forest::new(),
            root: None,
            combine_siblings: CombineSiblings::new(),
        };
        proof {
            assert(heap@ =~= Map::<Token<T>, T>::empty());
            assert(heap.children() =~= Map::<Token<T>, Seq<Token<T>>>::empty());
            lemma_values_empty::<Token<T>, T>();
        }
        heap
    }

    /// Adds `value` to the heap and returns the token of the new element, a token that this
    /// heap has not issued before.
    pub fn push(&mut self, value: T) -> (token: Token<T>)
        requires
            old(self).wf(),
        ensures
            final(self).wf(),
            follows(*old(self), *final(self)),
            !old(self).was_issued(token),
            forall|other: Token<T>|
                #![trigger final(self).was_issued(other)]
                #![trigger old(self).was_issued(other)]
                final(self).was_issued(other) <==> old(self).was_issued(other) || other == token,
            !old(self)@.contains_key(token),
            final(self)@ == old(self)@.insert(token, value),
            // The same once more, key by key, in the form that a caller's proof picks up.
            final(self)@.contains_key(token),
            final(self)@[token] == value,
            keeps(old(self)@, final(self)@, token),
            final(self).values() == old(self).values().insert(value),
            // Where the new element stands: alone, or linked with the old root as the second.
            (match old(self).root() {
                None => {
                    &&& final(self).root() == Some(token)
                    &&& final(self).children() == old(self).children().insert(token, Seq::empty())
                },
                Some(root) => {
                    let planted = old(self).children().insert(token, Seq::empty());
                    let winner = final(self).root().unwrap();
                    let loser = if winner == root { token } else { root };
                    &&& final(self).root() == Some(root) || final(self).root() == Some(token)
                    &&& final(self).children() == attached(planted, winner, loser)
                    &&& total_order::<T>() ==> (winner, final(self).children()) == linked(
                        planted,
                        final(self)@,
                        root,
                        token,
                    )
                },
            }),
    {
        let token = self.forest.plant(value);
        proof {
            if self.root is Some {
                assert(old(self).forest.is_root(self.root.unwrap()));
            }
            assert(self.forest.is_root(token.index));
        }
        let ghost planted = self.forest;
        self.root = match self.root {
            None => Some(token.index),
            Some(root) => Some(self.forest.link(root, Some(token.index))),
        };
        proof {
            self.forest.lemma_same_places(&planted);
            self.forest.lemma_same_items(&planted);
            self.forest.lemma_same_tokens(&planted);
            lemma_values_insert(old(self)@, token, value);
            if old(self).root is Some {
                assert(self.forest.live(self.root.unwrap()));
            }
        }
        token
    }

    /// Takes a least element out of the heap and returns its value, or returns `None` and
    /// leaves the heap as it is when the heap is empty.
    pub fn pop(&mut self) -> (result: Option<T>)
        requires
            old(self).wf(),
        ensures
            final(self).wf(),
            follows(*old(self), *final(self)),
            forall|token: Token<T>|
                #![trigger final(self).was_issued(token)]
                #![trigger old(self).was_issued(token)]
                final(self).was_issued(token) <==> old(self).was_issued(token),
            (match result {
                None => {
                    &&& old(self)@ == Map::<Token<T>, T>::empty()
                    &&& final(self)@ == old(self)@
                    &&& old(self).root() is None
                    &&& final(self).root() is None
                    &&& final(self).children() == old(self).children()
                },
                Some(value) => exists|token: Token<T>|
                    {
                        &&& #[trigger] old(self)@.contains_key(token)
                        &&& old(self).root() == Some(token)
                        &&& old(self)@[token] == value
                        &&& final(self)@ == old(self)@.remove(token)
                        &&& keeps(old(self)@, final(self)@, token)
                        &&& total_order::<T>() ==> forall|other: Token<T>| #[trigger]
                            old(self)@.contains_key(other) ==> le(value, old(self)@[other])
                    },
            }),
            // What is left of the shape: the children of the old root, rebuilt into one tree.
            old(self).root() matches Some(token) ==> ({
                let siblings = old(self).children()[token];
                let rest = old(self).children().remove(token);
                if siblings.len() == 0 {
                    final(self).root() is None && final(self).children() == rest
                } else {
                    &&& final(self).root() is Some
                    &&& siblings.contains(final(self).root().unwrap())
                    &&& siblings.len() == 1 ==> final(self).root() == Some(siblings[0])
                        && final(self).children() == rest
                    &&& total_order::<T>() ==> (final(self).root().unwrap(), final(self).children())
                        == combined(rest, final(self)@, siblings)
                }
            }),
            pops(old(self).values(), result, final(self).values()),
    {
        let root: usize = match self.root {
            None => {
                proof {
                    assert forall|token: Token<T>| !self@.contains_key(token) by {
                        if self@.contains_key(token) {
                            let r = self.forest.lemma_climb(token.index);
                        }
                    }
                    assert(self@ =~= Map::<Token<T>, T>::empty());
                    lemma_values_empty::<Token<T>, T>();
                }
                return None;
            },
            Some(root) => root,
        };
        let ghost token = self.forest.token_at(root);
        proof {
            assert(self.forest.is_root(root));
            assert(self@.contains_key(token));
            assert forall|other: Token<T>| total_order::<T>() && #[trigger] self@.contains_key(
                other,
            ) implies le(self@[token], self@[other]) by {
                let r = self.forest.lemma_climb(other.index);
            }
        }
        let node: Node<T> = self.forest.uproot(root);
        let ghost uprooted = self.forest;
        proof {
            let orphans = uprooted.shape@.orphans;
            assert(uprooted.siblings() =~= old(self).forest.family(root)) by {
                assert forall|j: int| 0 <= j < orphans.len() implies old(self).forest.live(
                    #[trigger] orphans[j],
                ) && orphans[j] != root by {
                    assert(old(self).forest.child_ok(root, j));
                }
            }
        }
        self.root = match node.first_child {
            None => None,
            Some(first) => Some(self.combine_siblings.combine_siblings(&mut self.forest, first)),
        };
        proof {
            if node.first_child is Some {
                self.forest.lemma_same_places(&uprooted);
                self.forest.lemma_same_items(&uprooted);
                self.forest.lemma_same_tokens(&uprooted);
                let new_root = self.root.unwrap();
                let orphans = uprooted.shape@.orphans;
                let j = choose|j: int| 0 <= j < orphans.len() && orphans[j] == new_root;
                assert(uprooted.siblings()[orphans.len() - 1 - j] == uprooted.token_at(new_root));
                assert(self.forest.is_root(new_root));
            }
            lemma_values_remove(old(self)@, token);
            assert(self.values() =~= old(self).values().remove(node.value));
            if total_order::<T>() {
                assert forall|other: T| #[trigger]
                    old(self).values().count(other) > 0 implies le(node.value, other) by {
                    let key = lemma_values_key(old(self)@, other);
                }
            }
        }
        Some(node.value)
    }

    /// Lets `f` lower the value of the element that `token` names, and moves the element to
    /// where its new value belongs: the root stays where it is, and any other element is cut out
    /// from under its parent, with its subtree, and linked with the root as the second. The
    /// token of an element that has been popped is refused: `f` is not called and the heap stays
    /// as it is.
    ///
    /// The token must be one that this heap has issued. `f` must not raise the value. Nothing
    /// tests either when the program runs: a token of another heap may be refused or be taken
    /// for a token of this heap, and a heap whose value was raised hands out its elements in
    /// the wrong order from then on.
    pub fn decrease_key<F: FnOnce(&mut T)>(&mut self, token: Token<T>, f: F) -> (result: Result<
        (),
        InvalidToken,
    >)
        requires
            old(self).wf(),
            old(self).was_issued(token),
            old(self)@.contains_key(token) ==> forall|r: &mut T|
                mut_ref_current(r) == old(self)@[token] ==> #[trigger] call_requires(f, (r,)),
            old(self)@.contains_key(token) ==> forall|r: &mut T|
                mut_ref_current(r) == old(self)@[token] && #[trigger] call_ensures(f, (r,), ())
                    ==> le(mut_ref_future(r), old(self)@[token]),
        ensures
            final(self).wf(),
            follows(*old(self), *final(self)),
            forall|other: Token<T>|
                #![trigger final(self).was_issued(other)]
                #![trigger old(self).was_issued(other)]
                final(self).was_issued(other) <==> old(self).was_issued(other),
            (match result {
                Ok(_) => exists|r: &mut T|
                    {
                        &&& old(self)@.contains_key(token)
                        &&& mut_ref_current(r) == old(self)@[token]
                        &&& #[trigger] call_ensures(f, (r,), ())
                        &&& final(self)@ == old(self)@.insert(token, mut_ref_future(r))
                        &&& final(self)@.contains_key(token)
                        &&& final(self)@[token] == mut_ref_future(r)
                        &&& keeps(old(self)@, final(self)@, token)
                        &&& final(self).values() == old(self).values().remove(
                            old(self)@[token],
                        ).insert(mut_ref_future(r))
                    },
                Err(error) => {
                    &&& error == InvalidToken
                    &&& !old(self)@.contains_key(token)
                    &&& final(self)@ == old(self)@
                    &&& final(self).root() == old(self).root()
                    &&& final(self).children() == old(self).children()
                },
            }),
            // Where the element stands afterwards.
            result is Ok && old(self).root() == Some(token) ==> final(self).root() == Some(token)
                && final(self).children() == old(self).children(),
            result is Ok && old(self).root() != Some(token) ==> (exists|parent: Token<T>, at: int|
                {
                    let family = old(self).children()[parent];
                    let cut = old(self).children().insert(parent, family.remove(at));
                    let root = old(self).root().unwrap();
                    let winner = final(self).root().unwrap();
                    let loser = if winner == root { token } else { root };
                    &&& old(self)@.contains_key(parent)
                    &&& 0 <= at < family.len()
                    &&& #[trigger] old(self).children()[parent][at] == token
                    &&& old(self).root() is Some
                    &&& final(self).root() == Some(root) || final(self).root() == Some(token)
                    &&& final(self).children() == attached(cut, winner, loser)
                    &&& total_order::<T>() ==> (winner, final(self).children()) == linked(
                        cut,
                        final(self)@,
                        root,
                        token,
                    )
                }),
    {
        if !self.forest.has(token) {
            return Err(InvalidToken);
        }
        let node: usize = token.index;
        proof {
            let r = self.forest.lemma_climb(node);
            assert(self.root == Some(r));
        }

        // Apply the change that lowers the value.
        self.forest.update(node, f);
        let ghost updated = self.forest;
        let ghost lowered = updated.node(node).value;
        proof {
            assert(token == old(self).forest.token_at(node));
            assert(updated.items()[token] == lowered);
            updated.lemma_same_places(&old(self).forest);
            updated.lemma_same_tokens(&old(self).forest);
            assert forall|i: usize| updated.is_root(i) <==> old(self).forest.is_root(i) by {}
            assert(updated.is_root(self.root.unwrap()));
            assert(updated.is_root(node) <==> self.root == Some(node));
        }

        let root: usize = self.root.unwrap();
        if node != root {
            self.forest.cut(node);
            let ghost severed = self.forest;
            self.root = Some(self.forest.link(root, Some(node)));
            proof {
                severed.lemma_same_places(&updated);
                severed.lemma_same_items(&updated);
                severed.lemma_same_tokens(&updated);
                self.forest.lemma_same_places(&severed);
                self.forest.lemma_same_items(&severed);
                self.forest.lemma_same_tokens(&severed);
                let p = updated.shape@.parent[node];
                let at = updated.degree(p) - 1 - updated.shape@.place[node];
                let parent = old(self).forest.token_at(p);
                assert(old(self)@.contains_key(parent));
                assert(old(self).children()[parent][at] == token);
                assert(self.forest.is_root(self.root.unwrap()));
            }
        }
        proof {
            lemma_values_replace(old(self)@, token, lowered);
        }
        Ok(())
    }
}

} // verus!
