//! A content-addressable, encrypted, deduplicating object store.
//!
//! Logical objects (byte streams) are split into variable-length,
//! content-defined chunks; each chunk is compressed, encrypted and stored
//! once under the digest of its plaintext.  A header maps logical keys to
//! chunk sequences and is itself stored through the same pipeline.
#![verifier::loop_isolation(false)]

pub mod bytes;
pub mod chunker;
pub mod codec;
pub mod errors;
pub mod header;
pub mod keys;
pub mod kv;
pub mod lock;
pub mod metadata;
pub mod object;
pub mod outside;
pub mod repository;
pub mod sqlite;
pub mod store;
