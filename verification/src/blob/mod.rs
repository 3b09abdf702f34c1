//! Blob file management for key-value separation.
//!
//! Large values are stored in append-only blob files; the B-tree stores
//! blob pointers (file id, offset, length) in place of the values.

pub mod file;
pub mod manager;

pub use file::{BlobFile, BlobRecord};
pub use manager::{BlobManager, DEFAULT_BLOB_THRESHOLD};
