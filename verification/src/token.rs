//! Handles to the elements of a heap.

use vstd::prelude::*;
use core::marker::PhantomData;

verus! {

/// A handle to one element of a heap, returned by `push` and taken by `decrease_key`. It is
/// valid for the heap that gave it, until its element is popped.
///
/// A token names a slot of the heap's arena and the generation of the slot's occupant. It does
/// not name the heap. `decrease_key` requires a token that the heap itself has issued, and
/// code that is not verified has to see to that on its own: a heap cannot tell a token of
/// another heap from one of its own where slot and generation happen to agree.
#[derive(Debug)]
pub struct Token<T> {
    pub(crate) index: usize,
    pub(crate) generation: u64,
    pub(crate) marker: PhantomData<T>,
}

impl<T> Clone for Token<T> {
    fn clone(&self) -> (copy: Self)
        ensures
            copy == *self,
    {
        *self
    }
}

impl<T> Copy for Token<T> {

}

/// The token handed to `decrease_key` names no element of the heap any more: its element has
/// been popped.
#[derive(Debug, Clone, Copy, PartialEq, Eq)]
pub struct InvalidToken;

} // verus!
