//! A persistent, ordered key-value store: a single-file paged tree backed by a
//! write-ahead log and an in-memory buffer of recent writes.
//!
//! The store keeps the contents of its two files (the tree file and the log
//! file) as byte vectors; the surrounding application reads and writes the
//! actual files and hands the bytes in and out.

use vstd::prelude::*;

pub mod buffer;
pub mod bytes;
pub mod codec;
pub mod entries;
pub mod errors;
pub mod order;
pub mod store;
pub mod tree;
pub mod wal;

pub use buffer::Buffer;
pub use store::BTree;

pub use codec::Codable;
pub use codec::KeyType;
pub use codec::ValueType;
pub use errors::StoreError;

verus! {

} // verus!
