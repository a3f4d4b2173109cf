//! Nibble paths and their Hex-Prefix (HP) encoding, as used for the key/path
//! representation inside a Merkle-Patricia trie.
//!
//! A trie key is a byte string; branching on whole bytes would need 256-way
//! branch nodes, so each byte is split into two 4-bit nibbles, giving 16-way
//! branching. A nibble path that ends at a leaf carries a trailing sentinel
//! value 16. The HP encoding packs a nibble path back into roughly one byte
//! per two nibbles, keeping the odd/even length and the leaf/extension
//! distinction in a single prefix nibble.

pub mod nibbles;

pub use crate::nibbles::Nibbles;
pub use crate::nibbles::TrieError;
