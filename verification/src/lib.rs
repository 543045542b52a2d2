//! A trie map in succinct form.
//!
//! Keys are sequences of totally ordered labels. A [`map::TrieBuilder`]
//! collects keys with their values in a pointer-based trie
//! ([`naive_trie`]), walks it level by level ([`naive_trie_b_f_iter`]) and
//! lays it out as a LOUDS bit string with a table of cells ([`map::Trie`]).
//! The trie then answers exact, prefix, predictive, common-prefix, postfix
//! and longest-prefix searches, at once or label by label ([`inc_search`]).
//!
//! Every search is specified against the map from keys to values that the
//! trie stands for, and the layout against the trie that was walked:
//! [`lbs`] holds the mathematics of the bit string, [`emission`] and
//! [`layout`] relate it to the walk, [`enumeration`] and [`continuation`]
//! relate what the searches list to the map, and [`laws`] and [`canonical`]
//! state what holds across operations.

pub mod builder;
pub mod canonical;
pub mod continuation;
pub mod emission;
pub mod enumeration;
pub mod inc_search;
pub mod iter;
pub mod label;
pub mod laws;
pub mod layout;
pub mod lbs;
pub mod louds;
pub mod map;
pub mod naive_trie;
pub mod naive_trie_b_f_iter;
pub mod order;
pub mod trie;
