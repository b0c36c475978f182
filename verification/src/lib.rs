//! Core of a virtual private file system: a cluster of daemons that jointly
//! expose one hierarchical namespace. This crate holds the verified logic:
//! the wire codec, directory blobs, the byte-bounded LRU cache, the local
//! store model, the per-node request handlers, and the cross-node resolver
//! and placement algorithms, all specified over a cluster model.

pub mod types;
pub mod errors;
pub mod codec;
pub mod wire;
pub mod directory;
pub mod store;
pub mod cache;
pub mod daemon;
pub mod cluster;
pub mod client;
pub mod cat;
pub mod laws;
