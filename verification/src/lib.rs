//! Sorted-table storage layer of a log-structured-merge engine: the block
//! format, the block builder and iterator, and the table builder and reader.

pub mod block;
pub mod cache;
pub mod error;
pub mod key;
pub mod table;
pub mod wire;
