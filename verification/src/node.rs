//! The nodes of the heap and the slots that hold them.

use vstd::prelude::*;

verus! {

/// One element of the heap: a value and its three links into the tree. A link is the index of
/// another node in the arena.
///
/// `prev` has two meanings. In the leftmost child of a node it names that parent; in any other
/// child it names the sibling to the left. A node that heads a tree has no `prev`.
pub(crate) struct Node<T> {
    pub(crate) value: T,
    pub(crate) first_child: Option<usize>,
    pub(crate) prev: Option<usize>,
    pub(crate) next: Option<usize>,
}

impl<T> Node<T> {
    /// A node that stands alone: no child, no neighbour.
    pub(crate) fn new(value: T) -> (node: Self)
        ensures
            node.value == value,
            node.first_child is None,
            node.prev is None,
            node.next is None,
    {
        Node { value, first_child: None, prev: None, next: None }
    }
}

/// A place in the arena. `generation` counts how often the place has been given up, so that a
/// handle to an earlier occupant can be told from one to the present occupant.
pub(crate) struct Slot<T> {
    pub(crate) generation: u64,
    pub(crate) node: Option<Node<T>>,
}

} // verus!
