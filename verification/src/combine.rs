//! Rebuilding one tree from the children of a removed root.

use vstd::prelude::*;
use crate::forest::Forest;
use crate::order::total_order;
use crate::shape::{combined, gathered, paired};
use crate::token::Token;

verus! {

/// The list that the children of a removed root are gathered in while they are combined. It is
/// kept between calls, so that a usual number of children needs no new memory.
pub(crate) struct CombineSiblings {
    pub(crate) tree_array: Vec<Option<usize>>,
}

/// During the forward pass at pair `i`: the entries that still stand for a tree.
pub(crate) open spec fn pending_forward(j: int, i: int) -> bool {
    j >= i || j % 2 == 0
}

/// During the backward pass with `e` the rightmost result left: the entries that still stand
/// for a tree.
pub(crate) open spec fn pending_backward(j: int, e: int) -> bool {
    j <= e && j % 2 == 0
}

impl CombineSiblings {
    pub(crate) fn new() -> (scratch: Self)
        ensures
            scratch.tree_array@.len() == 0,
    {
        CombineSiblings { tree_array: Vec::with_capacity(5) }
    }

    /// Combines the orphans that a removed root left behind into one tree and returns its root.
    ///
    /// `first_sibling` is the leftmost orphan. A single orphan is the result as it is. Otherwise
    /// the orphans are gathered from left to right and padded to an even number with an absent
    /// entry; a forward pass links them in pairs, left to right; a backward pass then links each
    /// pair's result into the one on its left, starting from the right.
    ///
    /// The root is one of the orphans, and under a total order root and children are those that
    /// `combined` gives for the orphans from left to right, whatever the list was left with by an
    /// earlier call. Linking in pairs first is what keeps the trees shallow: of `n` orphans the
    /// new root takes in at most half, rounded up, as children.
    pub(crate) fn combine_siblings<T: Ord>(
        &mut self,
        forest: &mut Forest<T>,
        first_sibling: usize,
    ) -> (root: usize)
        requires
            old(forest).structure(),
            old(forest).ordered(),
            old(forest).shape@.orphans.len() > 0,
            first_sibling == old(forest).shape@.orphans.last(),
            forall|i: usize| #[trigger] old(forest).is_root(i) ==> old(forest).is_orphan(i),
        ensures
            final(forest).wf(),
            final(forest).same_items(old(forest)),
            forall|i: usize| #[trigger] final(forest).is_root(i) <==> i == root,
            old(forest).shape@.orphans.contains(root),
            old(forest).shape@.orphans.len() == 1 ==> ({
                &&& root == first_sibling
                &&& final(forest).shape@.kids == old(forest).shape@.kids
                &&& final(forest).tree() == old(forest).tree()
            }),
            total_order::<T>() ==> (old(forest).token_at(root), final(forest).tree()) == combined(
                old(forest).tree(),
                old(forest).items(),
                old(forest).siblings(),
            ),
            ({
                let gained = final(forest).degree(root) - old(forest).degree(root);
                gained <= (old(forest).shape@.orphans.len() + 1) / 2
            }),
    {
        let ghost count: int = forest.shape@.orphans.len() as int;
        let ghost before = *forest;
        let ghost orphans = forest.shape@.orphans;
        let ghost siblings = forest.siblings();
        let ghost values = forest.items();
        proof {
            assert(forest.orphan_ok(count - 1));
            assert(orphans[count - 1] == first_sibling);
        }
        if forest.next_of(first_sibling).is_none() {
            forest.sever(first_sibling);
            proof {
                assert(paired(before.tree(), values, siblings, 0) == (
                    seq![siblings[0]],
                    before.tree(),
                ));
                assert(gathered(before.tree(), values, seq![siblings[0]], 0) == (
                    siblings[0],
                    before.tree(),
                ));
            }
            return first_sibling;
        }
        self.tree_array.clear();
        let ghost mut home: Map<usize, int> = Map::empty();
        let mut cursor: Option<usize> = Some(first_sibling);
        while cursor.is_some()
            invariant
                forest.structure(),
                forest.ordered(),
                forest.same_items(old(forest)),
                forest.shape@.kids == before.shape@.kids,
                forest.tree() == before.tree(),
                orphans == before.shape@.orphans,
                count == orphans.len(),
                forest.shape@.orphans == orphans.subrange(0, count - self.tree_array@.len()),
                cursor == (if forest.shape@.orphans.len() > 0 {
                    Some(forest.shape@.orphans.last())
                } else {
                    None
                }),
                self.tree_array@.len() + forest.shape@.orphans.len() == count,
                forall|x: usize| #[trigger]
                    forest.is_root(x) ==> forest.is_orphan(x) || (0 <= home[x]
                        < self.tree_array@.len() && self.tree_array@[home[x]] == Some(x)),
                forall|j: int|
                    0 <= j < self.tree_array@.len() ==> {
                        let entry = #[trigger] self.tree_array@[j];
                        let tree = entry.unwrap();
                        &&& entry is Some
                        &&& forest.is_root(tree)
                        &&& !forest.is_orphan(tree)
                        &&& home[tree] == j
                        &&& tree == orphans[count - 1 - j]
                    },
            decreases forest.shape@.orphans.len(),
        {
            let sibling: usize = cursor.unwrap();
            proof {
                assert(forest.orphan_ok(forest.shape@.orphans.len() - 1));
                home = home.insert(sibling, self.tree_array@.len() as int);
            }
            self.tree_array.push(Some(sibling));
            cursor = forest.sever(sibling);
            proof {
                assert(forest.shape@.orphans =~= orphans.subrange(
                    0,
                    count - self.tree_array@.len(),
                ));
            }
        }
        // One absent entry at the end gives the last sibling a partner where it has none.
        self.tree_array.push(None);
        let logical_length: usize = self.tree_array.len() / 2 * 2;

        // Forward pass: link the entries two by two. Each pair's tree takes the place of the
        // pair's first entry, so that the trees are at the even indices afterwards.
        let ghost mut trees: Seq<Token<T>> = Seq::empty();
        proof {
            assert(trees + paired(forest.tree(), values, siblings, 0).0 =~= paired(
                forest.tree(),
                values,
                siblings,
                0,
            ).0);
        }
        let mut i: usize = 0;
        while i < logical_length
            invariant
                forest.wf(),
                forest.same_items(old(forest)),
                before == *old(forest),
                before.structure(),
                orphans == before.shape@.orphans,
                siblings == before.siblings(),
                values == before.items(),
                count == orphans.len(),
                2 * trees.len() == i,
                forall|j: int|
                    0 <= j < i && j % 2 == 0 ==> (#[trigger] self.tree_array@[j]) is Some
                        && before.token_at(self.tree_array@[j].unwrap()) == trees[j / 2],
                forall|j: int|
                    i <= j < count ==> #[trigger] self.tree_array@[j] == Some(
                        orphans[count - 1 - j],
                    ),
                total_order::<T>() ==> paired(before.tree(), values, siblings, 0) == (
                    trees + paired(forest.tree(), values, siblings, i as int).0,
                    paired(forest.tree(), values, siblings, i as int).1,
                ),
                count >= 2,
                self.tree_array@.len() == count + 1,
                self.tree_array@[count] is None,
                logical_length == (count + 1) / 2 * 2,
                i % 2 == 0,
                i <= logical_length,
                forall|x: usize| #[trigger]
                    forest.is_root(x) ==> 0 <= home[x] < count && pending_forward(home[x], i as int)
                        && self.tree_array@[home[x]] == Some(x),
                forall|j: int|
                    0 <= j < count && pending_forward(j, i as int) ==> {
                        let entry = #[trigger] self.tree_array@[j];
                        let tree = entry.unwrap();
                        &&& entry is Some
                        &&& forest.is_root(tree)
                        &&& home[tree] == j
                        &&& orphans.contains(tree)
                        &&& forest.degree(tree) - before.degree(tree) <= (if j < i {
                            1int
                        } else {
                            0int
                        })
                    },
            decreases logical_length - i,
        {
            let left: usize = self.tree_array[i].unwrap();
            let right: Option<usize> = self.tree_array[i + 1];
            let ghost unlinked = *forest;
            proof {
                forest.lemma_same_items(&before);
                forest.lemma_same_tokens(&before);
                assert(before.token_at(left) == siblings[i as int]);
                if right is Some {
                    assert(before.token_at(right.unwrap()) == siblings[i + 1]);
                }
            }
            let merged: usize = forest.link(left, right);
            self.tree_array[i] = Some(merged);
            proof {
                home = home.insert(merged, i as int);
                if total_order::<T>() {
                    let here = paired(unlinked.tree(), values, siblings, i as int);
                    let rest = paired(forest.tree(), values, siblings, i + 2);
                    assert(here == (seq![before.token_at(merged)] + rest.0, rest.1));
                    assert(trees + here.0 =~= trees.push(before.token_at(merged)) + rest.0);
                }
                trees = trees.push(before.token_at(merged));
            }
            i += 2;
        }

        // Backward pass: from the right, link each tree into the one two places to its left.
        // The last tree left is at index 0.
        let ghost mut rightmost: int = logical_length - 2;
        let ghost paired_tree = forest.tree();
        proof {
            forest.lemma_same_tokens(&before);
            assert(paired(forest.tree(), values, siblings, i as int) == (
                Seq::<Token<T>>::empty(),
                forest.tree(),
            ));
            assert(trees + Seq::<Token<T>>::empty() =~= trees);
            assert(gathered(paired_tree, values, trees, trees.len() - 1) == (
                trees[trees.len() - 1],
                paired_tree,
            ));
            assert(self.tree_array@[rightmost] is Some);
            assert(rightmost / 2 == trees.len() - 1);
            assert(total_order::<T>() ==> (
                before.token_at(self.tree_array@[rightmost].unwrap()),
                forest.tree(),
            ) == gathered(paired_tree, values, trees, rightmost / 2));
        }
        if logical_length >= 4 {
            let mut end_idx: usize = logical_length - 2;
            while end_idx >= 2
                invariant
                    forest.wf(),
                    forest.same_items(old(forest)),
                    before == *old(forest),
                    before.structure(),
                    orphans == before.shape@.orphans,
                    values == before.items(),
                    count == orphans.len(),
                    2 * trees.len() == logical_length,
                    siblings == before.siblings(),
                    total_order::<T>() ==> paired(before.tree(), values, siblings, 0) == (
                        trees,
                        paired_tree,
                    ),
                    forall|j: int|
                        0 <= j < end_idx && j % 2 == 0 ==> (#[trigger] self.tree_array@[j]) is Some
                            && before.token_at(self.tree_array@[j].unwrap()) == trees[j / 2],
                    self.tree_array@[end_idx as int] is Some,
                    total_order::<T>() ==> (
                        before.token_at(self.tree_array@[end_idx as int].unwrap()),
                        forest.tree(),
                    ) == gathered(paired_tree, values, trees, end_idx as int / 2),
                    count >= 2,
                    self.tree_array@.len() == count + 1,
                    logical_length == (count + 1) / 2 * 2,
                    end_idx % 2 == 0,
                    end_idx <= logical_length - 2,
                    rightmost == end_idx,
                    forall|x: usize| #[trigger]
                        forest.is_root(x) ==> 0 <= home[x] < count && pending_backward(
                            home[x],
                            end_idx as int,
                        ) && self.tree_array@[home[x]] == Some(x),
                    forall|j: int|
                        0 <= j < count && pending_backward(j, end_idx as int) ==> {
                            let entry = #[trigger] self.tree_array@[j];
                            let tree = entry.unwrap();
                            &&& entry is Some
                            &&& forest.is_root(tree)
                            &&& home[tree] == j
                            &&& orphans.contains(tree)
                            &&& forest.degree(tree) - before.degree(tree) <= 1 + (if j == end_idx {
                                (logical_length - 2 - end_idx) / 2
                            } else {
                                0int
                            })
                        },
                decreases end_idx,
            {
                let start_idx: usize = end_idx - 2;
                let left: usize = self.tree_array[start_idx].unwrap();
                let right: Option<usize> = self.tree_array[end_idx];
                proof {
                    forest.lemma_same_items(&before);
                    forest.lemma_same_tokens(&before);
                    assert(before.token_at(left) == trees[start_idx as int / 2]);
                }
                let merged: usize = forest.link(left, right);
                self.tree_array[start_idx] = Some(merged);
                proof {
                    home = home.insert(merged, start_idx as int);
                    assert(start_idx as int / 2 + 1 == end_idx as int / 2);
                }
                end_idx -= 2;
                proof {
                    rightmost = end_idx as int;
                }
            }
        }
        proof {
            assert(rightmost == 0);
            assert(pending_backward(0, rightmost));
            forest.lemma_same_tokens(&before);
            assert(total_order::<T>() ==> (
                before.token_at(self.tree_array@[0].unwrap()),
                forest.tree(),
            ) == gathered(paired_tree, values, trees, 0));
        }
        self.tree_array[0].unwrap()
    }
}

} // verus!
