//! The shape of a heap as a map from each element to its children, leftmost first, and what
//! linking and rebuilding do to that map.

use vstd::prelude::*;
use crate::order::lt;

verus! {

/// The children of all elements after `loser` has become the leftmost child of `winner`.
pub open spec fn attached<K>(children: Map<K, Seq<K>>, winner: K, loser: K) -> Map<K, Seq<K>> {
    children.insert(winner, seq![loser] + children[winner])
}

/// Links the trees under `first` and `second`: the winner and the children of all elements
/// afterwards. `second` wins where its value is strictly before that of `first`, and `first`
/// wins otherwise. The loser becomes the leftmost child of the winner.
pub open spec fn linked<K, T: Ord>(
    children: Map<K, Seq<K>>,
    values: Map<K, T>,
    first: K,
    second: K,
) -> (K, Map<K, Seq<K>>) {
    if lt(values[second], values[first]) {
        (second, attached(children, second, first))
    } else {
        (first, attached(children, first, second))
    }
}

/// The forward pass over the siblings from position `from` on: they are linked two by two from
/// the left, and one that is left over at the end stays as it is. The result is the winners, in
/// the order of their pairs, and the children of all elements afterwards.
pub open spec fn paired<K, T: Ord>(
    children: Map<K, Seq<K>>,
    values: Map<K, T>,
    siblings: Seq<K>,
    from: int,
) -> (Seq<K>, Map<K, Seq<K>>)
    decreases siblings.len() - from,
{
    if from < 0 || from >= siblings.len() {
        (Seq::empty(), children)
    } else if from + 1 == siblings.len() {
        (seq![siblings[from]], children)
    } else {
        let pair = linked(children, values, siblings[from], siblings[from + 1]);
        let rest = paired(pair.1, values, siblings, from + 2);
        (seq![pair.0] + rest.0, rest.1)
    }
}

/// The backward pass over the trees from position `from` on: starting at the right end, each
/// tree is linked, as the first, with what the trees to its right have become. The result is
/// the root that is left and the children of all elements afterwards.
pub open spec fn gathered<K, T: Ord>(
    children: Map<K, Seq<K>>,
    values: Map<K, T>,
    trees: Seq<K>,
    from: int,
) -> (K, Map<K, Seq<K>>)
    decreases trees.len() - from,
{
    if from < 0 || from + 1 >= trees.len() {
        (trees[from], children)
    } else {
        let right = gathered(children, values, trees, from + 1);
        linked(right.1, values, trees[from], right.0)
    }
}

/// The siblings rebuilt into one tree by a forward and a backward pass: its root and the
/// children of all elements afterwards.
pub open spec fn combined<K, T: Ord>(
    children: Map<K, Seq<K>>,
    values: Map<K, T>,
    siblings: Seq<K>,
) -> (K, Map<K, Seq<K>>) {
    let pairs = paired(children, values, siblings, 0);
    gathered(pairs.1, values, pairs.0, 0)
}

} // verus!
