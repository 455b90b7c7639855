//! A tar-style archive engine: fixed 512-byte `ustar` headers, block-aligned
//! member bodies, and the operations create, append, list, update and extract,
//! all stated over plain byte sequences; plus a small line-search component.
//!
//! The archive operations work on the archive's byte image and on plain
//! member values; reading and writing files is the caller's part.

pub mod archive;
pub mod header;
pub mod search;
