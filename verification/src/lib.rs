//! A prefix tree over Unicode scalar values with prefix-based completion.
//!
//! [`Trie`] stores a set of words. [`Trie::add_word`] inserts a word and
//! [`Trie::get_suggestions`] lists every stored word that starts with a given
//! prefix. What the tree holds is modelled as a set of character sequences
//! (see [`words`]); every contract is stated over that set.

pub mod listing;
pub mod text;
pub mod trie;
pub mod words;

pub use trie::Node;
pub use trie::Trie;
