//! Immutable sorted tables: the block and table formats, their builders, readers and
//! iterators, with the byte-level codecs they rest on.
pub mod db;
pub mod error;
pub mod filter;
pub mod options;
pub mod sstable;
pub mod storage;
pub mod util;

pub use error::Error;
