//! Keel: the decision logic of a node-local memory daemon for LLM serving,
//! with its contracts proved by Verus.

pub mod chunk_eviction;
pub mod cluster;
pub mod codec;
pub mod config;
pub mod entries;
pub mod error;
pub mod eviction;
pub mod index;
pub mod kvcache;
pub mod laws;
pub mod pb;
pub mod registry;
pub mod router;
pub mod service;
pub mod signal;
pub mod table;
pub mod text;
