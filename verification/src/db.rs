//! What the store around the tables needs of them.
pub mod filename;
