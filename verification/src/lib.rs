//! Storage and traversal of compacted bitcoin blocks, for tracing satoshis
//! back to the coinbase that minted them.
pub mod block;
pub mod block_format;
pub mod block_source;
pub mod blocks_db;
pub mod cbor;
pub mod config;
pub mod hex_codec;
pub mod hord_db;
pub mod ingestion;
pub mod ingestion_laws;
pub mod inscription_queries;
pub mod inscriptions;
pub mod lazy_block;
pub mod lazy_format;
pub mod ord;
pub mod text;
pub mod traversal;
pub mod traversal_laws;
pub mod wire;
