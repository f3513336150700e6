//! Durable persistence for a message broker's in-memory state.
//!
//! The crate turns a point-in-time snapshot of retained messages and
//! per-client session queues into a crash-safe on-disk representation and
//! reconstructs it on restart.  It provides two interchangeable binary
//! encodings (a direct one and one that deduplicates shared payloads into a
//! content-addressed table), and a versioned-file orchestrator that commits
//! each snapshot by atomically repointing a stable link, pruning old files
//! beyond a retention count.

pub mod consolidate;
pub mod error;
pub mod format;
pub mod memdir;
pub mod names;
pub mod persist;
pub mod state;
pub mod wire;
