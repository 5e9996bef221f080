//! Read-path core of a log-structured-merge storage engine: the block and
//! table format, the block cursor, and the merging iterators that scan them.

pub mod block;
pub mod iterators;
pub mod key;
pub mod lsm_iterator;
pub mod table;
pub mod wire;
