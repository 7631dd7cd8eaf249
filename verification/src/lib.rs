//! A binary trie over 64-bit fingerprints with bounded-Hamming-distance search.

pub mod bits;
pub mod file_map;
pub mod growth;
pub mod iter;
pub mod node;
pub mod paths;
pub mod similar;
pub mod snapshot;
pub mod storage;
pub mod trie;
pub mod walk;
