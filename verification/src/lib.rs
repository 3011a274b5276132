//! Core logic of a peer-to-peer file system: hierarchical paths are mapped
//! onto keys of versioned, replicated key-value documents ("replicas"),
//! capability tickets grant and combine access to replicas, and peers
//! discover and synchronise replica contents over untrusted networks.
//!
//! The modules cover, in order: the path/key codec, the ticket algebra,
//! the replica store semantics, the content-discovery protocol logic, and
//! the relay-bridge protocol logic. Network transports, the conflict
//! resolution of the underlying document engine, and the blob transfer
//! substrate are external collaborators and are kept out of this crate.

pub mod codec;
pub mod discovery;
pub mod error;
pub mod fs;
pub mod relay;
pub mod ticket;
