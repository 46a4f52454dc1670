//! A prefix tree over sequences of characters.
//!
//! Words are inserted once and then queried for membership, for the
//! existence of a path, and for the words that begin with a prefix. What
//! the tree answers is stated over the set of words it stands for.

pub mod insert;
pub mod laws;
pub mod listing;
pub mod node;
pub mod order;
pub mod paths;
pub mod text;
pub mod trie;
pub mod vocab;

pub use trie::Trie;
