//! The B-tree: nodes of sorted key-value entries and the tree over them.

pub mod node;
pub mod order;
pub mod tree;

pub use node::{
    BlobPointer, InsertError, Node, PageType, SplitError, ValueRef, ValueType, BLOB_POINTER_SIZE, PAGE_SIZE,
};
pub use tree::{BTree, BTreeError, LookupResult, PageId, RangeScan};
