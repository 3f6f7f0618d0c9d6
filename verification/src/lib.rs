//! An embeddable in-process key-value cache engine: a dual-namespace LRU
//! store with per-key TTL expiration, an append-only log, numeric secondary
//! indexes over JSON documents, pub/sub, and keyspace notifications.
//!
//! Every operation takes the current wall clock as a `now_ms` argument, so
//! the engine itself is a deterministic state machine; the embedding
//! supplies the clock, the lock around the store, and the file the
//! append-only log is written to.
pub mod aof;
pub mod frames;
pub mod index;
pub mod json;
pub mod json_ops;
pub mod laws;
pub mod lru;
pub mod ops_admin;
pub mod ops_aof;
pub mod ops_bytes;
pub mod ops_coll;
pub mod ops_eval;
pub mod ops_index;
pub mod ops_json;
pub mod ops_pubsub;
pub mod store;
pub mod value;
