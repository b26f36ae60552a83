//! A copy-on-write object pool for one writer and many readers.
//!
//! A `Scope` owns a population of cells, each holding a reader-visible
//! payload and a writer-visible payload that usually alias the same storage
//! slot. `fork` freezes the reader view; writes after a `fork` shadow the
//! payload and enqueue the cell on an intrusive dirty list; `join` publishes
//! the shadows, reclaims the stale reader payloads, and returns the pool to
//! its quiescent state.

pub mod counting;
pub mod cow;
pub mod laws;
