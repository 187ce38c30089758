//! The two matching engines: a single-pattern matcher with a border table,
//! and a multi-pattern trie matcher with failure links.

pub mod aca;
pub mod kmp;
