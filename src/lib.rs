//! A radix trie over fixed-size byte keys that branches on 4-bit units
//! (nybbles), with branch nodes holding their children in a compressed
//! sparse array.
mod key;
pub mod laws;
mod sparse;
mod trie;

pub use sparse::{has_bit, rank, Sparse};
pub use key::{divergence, nyb};
pub use trie::{Internal, Leaf, Node, Trie};
