pub mod builder;
pub mod completeness;
pub mod encode;
pub mod hashing;
pub mod keys;
pub mod laws;
pub mod records;
pub mod resolve;
pub mod shape;
pub mod store;
pub mod trie;
pub mod verify;
