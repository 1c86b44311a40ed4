//! The messages that the daemon stores and serves: memory chunks and
//! KV-cache slabs, as plain values.

use std::collections::HashMap;
use vstd::prelude::*;

verus! {

/// One unit of stored memory: a payload with its embedding (raw
/// little-endian `f32` bytes), its session, its creation time and its
/// time to live (0 means no expiry).
#[derive(Debug, Clone)]
pub struct MemoryChunk {
    pub id: String,
    pub embedding: Vec<u8>,
    pub payload: Vec<u8>,
    pub session_id: String,
    pub created_at_ms: u64,
    pub ttl_ms: u64,
    pub meta: HashMap<String, String>,
}

/// One KV-cache slab of a model for a prompt prefix.
#[derive(Debug, Clone)]
pub struct KvEntry {
    pub prefix_hash: String,
    pub model_id: String,
    pub seq_len: i32,
    pub data: Vec<u8>,
    pub created_at_ms: u64,
    pub ttl_ms: u64,
}

} // verus!
