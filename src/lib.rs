//! Write path of a log-structured key-value store: a sorted mem-table with a
//! checksummed write-ahead log, and the flush that turns it into a
//! block-structured sorted string table.

pub mod codec;
pub mod digest;
pub mod flush;
pub mod mem_table;
pub mod order;
