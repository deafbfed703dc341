//! A content-addressable object store.
//!
//! Byte payloads are framed with a `"<kind> <size>\0"` header, compressed
//! with zlib, and addressed by the SHA-1 digest of the uncompressed,
//! header-prefixed stream.

pub mod codec;
pub mod kind;
pub mod store;
pub mod writer;
