//! A pairing heap: a min-first priority queue with `push`, `pop` and, through the token that
//! `push` returns, `decrease_key`.
//!
//! The heap keeps its nodes in an arena and links them by index. `heap` holds the heap and the
//! contracts of its operations, `token` the handles to its elements, `order`, `bag` and
//! `shape` the notions that the contracts are stated in, and `laws` what the contracts add up
//! to over several calls.

pub mod bag;
mod combine;
mod forest;
pub mod heap;
pub mod laws;
mod links;
mod node;
pub mod order;
pub mod shape;
pub mod token;

pub use heap::Heap;
pub use token::{InvalidToken, Token};
