//! A verified key store for a content-addressed, deduplicating snapshot
//! repository.
//!
//! The key store translates a hierarchical namespace of entries (files and
//! directories) into content-addressed storage.  It drives a hash-tree
//! builder with fan-out 8 over each entry's data chunks and coordinates
//! three collaborating indices — a key index, a hash index and a blob
//! store — so that identical content is recorded exactly once.

#![allow(unused_imports)]

pub mod blob_store;
pub mod codec;
pub mod entry;
pub mod hash_index;
pub mod hash_store_backend;
pub mod key_index;
pub mod model;
pub mod store;
pub mod tree;

pub use blob_store::BlobStore;
pub use codec::ChunkRef;
pub use entry::Entry;
pub use hash_index::HashIndex;
pub use hash_store_backend::HashStoreBackend;
pub use key_index::KeyIndex;
pub use store::{DirElem, Msg, Reply, SizeWarning, Store};
pub use tree::SimpleHashTreeWriter;
