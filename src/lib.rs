//! A content-addressable object store in the style of a version-control object database:
//! blobs, trees and commits framed as `"<kind> <len>\0<body>"`, addressed by the digest of
//! that framing, compressed for storage, and read back by full or abbreviated id.
//!
//! The store's logic is pure: walking directories and reading and writing files are left to
//! the caller, which hands directory listings and file contents in as plain values.
//!
//! Beside the store, `http` and `parser` parse HTTP/1.1 requests and `pipeline` is a compiler
//! pipeline whose stages are types.

pub mod error;
pub mod text;
pub mod digest;
pub mod codec;
pub mod store;
pub mod tree;
pub mod commit;
pub mod listing;
pub mod tag;
pub mod http;
pub mod parser;
pub mod pipeline;
