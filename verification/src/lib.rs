//! Time-bucketed generate-or-reuse cache over pluggable storage backends.
//!
//! The library decides, per content category and per UTC hour, whether a
//! request should be served from a previously stored artifact or should
//! trigger generation of a new one. It is built on two narrow storage
//! abstractions: a blob-object interface ([`storage`]) and a column-oriented
//! key/value interface ([`keyvalue`]). Artifacts are persisted as UTF-8 JSON
//! text under keys of the form `{category-prefix}/{YYYY-MM-DD-HH}/{id}.json`.

use vstd::prelude::*;

pub mod json;
pub mod keyvalue;
pub mod prompts;
pub mod reading;
pub mod state;
pub mod storage;
pub mod strutil;
pub mod timefmt;

verus! {

/// Failure taxonomy for both storage abstractions and the caching policy.
///
/// Every failure is scoped to the single request that raised it; none is
/// fatal to the process.
#[derive(Debug)]
pub enum ServiceError {
    /// The storage backend failed (unreachable, permission denied, disk error).
    StorageFailure(String),
    /// A requested key is absent. Raised only by point reads, never by listing.
    NotFound(String),
    /// Stored bytes are malformed or do not match the artifact's shape.
    SerializationFailure(String),
    /// The external content generator failed or returned malformed output.
    GenerationFailure(String),
    /// A required category or prompt mapping is missing.
    ConfigurationFailure(String),
}

} // verus!
