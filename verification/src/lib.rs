//! Compact-block index, codec and serving rules.
pub mod bytes;
pub mod chain;
pub mod codec;
pub mod encoding;
pub mod grpc;
pub mod index;
pub mod indexer;
pub mod ingest;
pub mod parser;
pub mod pipeline;
pub mod protocol;
pub mod source;
pub mod store;
pub mod text;
