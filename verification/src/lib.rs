//! Character-level Markov word generation over a prefix-counting trie.

pub mod config;
pub mod error;
pub mod ordered_map;
pub mod text;
pub mod trie_model;
pub mod count_trie;
pub mod sampling;
pub mod generator;
pub mod laws;
