//! Shield sync bridge for the PIVX network.
//!
//! The library holds everything the bridge decides or computes: the Sapling
//! transaction parser, the shield stream encoders, the block index, the caches,
//! the reorganisation and indexing rules, and the shape of requests and replies.
//! Sockets, files and processes are left to the program built on top of it.

pub mod bytes;
pub mod scanner;
pub mod transaction;
pub mod layout;
pub mod stream;
pub mod api;
pub mod cache;
pub mod index;
pub mod store;
pub mod text;
pub mod hex;
pub mod config;
pub mod json;
pub mod block_cache;
pub mod scan;
pub mod fork;
pub mod indexer;
pub mod rpc;
pub mod jq;
pub mod proxy;
pub mod network;
pub mod notify;
