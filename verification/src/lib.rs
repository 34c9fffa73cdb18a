//! A verified model of a batching, deduplicating, caching key-value loader.
//!
//! The library coalesces many point lookups into bounded bulk requests:
//! keys gathered within one coalescing window are deduplicated in
//! first-seen order, split into chunks no larger than a configured batch
//! size, and paired positionally with the values a backend returns for
//! each chunk.  An optional bounded cache with least-recently-used
//! eviction short-circuits keys it already holds.  The backend itself is
//! an outside collaborator: callers fetch each planned chunk and hand the
//! responses back, so every decision the loader makes is verified here
//! while the I/O stays with the caller.
use vstd::prelude::*;

pub mod cache;
pub mod keyseq;
pub mod laws;
pub mod loader;
pub mod resolver;

verus! {

/// The uniform error applied to every key of a chunk whose bulk request
/// failed; no per-key detail exists for a failed bulk call.
#[derive(Debug, Clone, PartialEq, Eq)]
pub enum KeyValLoadErr {
    UnableToGetKeys,
}

impl KeyValLoadErr {
    /// A human-readable description of the error.
    pub fn message(&self) -> (s: &'static str)
        ensures
            s@ == "unable to get keys"@,
    {
        "unable to get keys"
    }
}

} // verus!
