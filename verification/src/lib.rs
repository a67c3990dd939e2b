//! Gooseberry: a local, queryable mirror of annotations from a remote
//! web-annotation service.
//!
//! The library keeps a primary record store and two derived tag indices
//! (annotation to tags, tag to annotations) mutually consistent under
//! insert, update and delete, synchronizes incrementally from pages of
//! remote records, and evaluates declarative filters over the mirror.

use vstd::prelude::*;

/// The mirrored annotation record and its view.
pub mod annotation;
/// Verified serialization of records.
pub mod codec;
/// Configuration of directories, templates and authorization.
pub mod configuration;
/// The index engine over the embedded store.
pub mod database;
/// Errors of normal operation.
pub mod errors;
/// The filter engine over the mirror.
pub mod filter;
/// The mathematical model of the index and its laws.
pub mod index_model;
/// Knowledge-base text helpers.
pub mod knowledge_base;
/// Markdown text helpers.
pub mod markdown;
/// Local tag editing over the mirror.
pub mod tag;
/// Trusted boundary to the embedded key-value store.
pub mod store;
/// String helpers and the semicolon-joined list encoding.
pub mod utils;

verus! {

/// Minimum sync timestamp: syncing starts by looking for all annotations
/// created or updated at or after this time.
pub const MIN_DATE: u64 = 0;

/// Tag under which untagged annotations are indexed.
/// This shows up only in the local mirror, never in the remote service.
pub const EMPTY_TAG: &'static str = "Untagged";

/// Reserved tag meaning "remove this record locally" when seen during sync.
/// It is never stored in the mirror.
pub const IGNORE_TAG: &'static str = "gooseberry_ignore";

} // verus!
