//! Byte-level helpers shared by the table layer.
pub mod coding;
pub mod comparator;
pub mod crc32;
pub mod varint;
