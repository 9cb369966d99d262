//! The indexer on an in-process chain database.
pub mod pipeline;
pub mod range;
pub mod stream;
pub mod tree;
