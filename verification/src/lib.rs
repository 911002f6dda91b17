//! Storage adapter for a versioned Merkle/Patricia trie.
//!
//! The trie engine reads and writes trie nodes through a thread-safe
//! adapter that maps typed operations onto an arbitrary backing
//! key/value store.  The adapter keeps, besides the raw node bytes,
//! three auxiliary indices: the set of node identities that have become
//! stale, the per-key value history, and the preimages of key hashes.
//! All mutation goes through one atomic batch-application protocol.

pub mod adapter;
pub mod backend;
pub mod codec;
pub mod laws;
pub mod state;
pub mod types;
