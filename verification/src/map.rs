//! The trie map and what it is made with, under one roof.

pub use crate::builder::TrieBuilder;
pub use crate::label::TrieLabel;
pub use crate::trie::Trie;
