# keel

A node-local memory daemon for LLM serving: chunk storage with a hot vector
tier and a cold on-disk tier, a KV-cache prefix store in memory-mapped files,
a namespaced entry registry, and session routing across a cluster of peers.

- `src/` is the library, verified with Verus: the KV-cache index (slab paths,
  recency order, capacity, time to live, eviction by model), the LRU eviction
  policies, the session router and the dead-peer window of the cluster
  manager, the decisions of the gRPC service (write routing, merging of search
  results, the health line), the chunk registry's decisions (ids, creation
  times, expiry, cold-tier candidates), the entry registry, the HNSW id
  bookkeeping, the embedding byte codec and the peer-list parser.
  `src/laws.rs` states and proves the properties that span operations.
- `app/` is the daemon around it: the gRPC plumbing, the Tantivy and usearch
  indexes, the floating-point scoring, file and memory-map I/O, JSON
  persistence, the signal log and `main`.
- `tests/` runs the library on concrete values.
