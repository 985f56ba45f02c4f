//! Incremental fetch engine for a large remote media file.
//!
//! The library tracks which byte ranges of the file are already requested or
//! downloaded, encodes wire-level range requests, keeps the per-request
//! receiver bookkeeping, and decides which ranges to prefetch next.  All I/O
//! (the transport, the output file, the task plumbing) stays with the caller;
//! the library works on plain offsets, lengths and byte vectors.

pub mod codec;
pub mod engine;
pub mod params;
pub mod range_set;
pub mod receiver;
