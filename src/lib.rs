//! Content-addressed file chunking: fixed-size splitting, SHA-256 digests, a
//! Merkle root over the chunk digests, per-chunk AES-256-GCM sealing, and the
//! manifest that describes the result.

pub mod chunker;
pub mod metadata;
