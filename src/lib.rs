//! A separately chained hash table of string keys whose capacity doubles and
//! halves with its load factor.

pub mod hashing;
pub mod model;
pub mod laws;
pub mod lemmas;
pub mod table;
pub mod text;

pub use hashing::{bucket_index, hash_key};
pub use table::{EntryHandle, HashChainNode, Node};
