//! Per-user media index with similarity retrieval.
//!
//! A `store::Db` keeps, for each owner, media records keyed by a stable
//! content fingerprint, each carrying a fixed-dimension embedding vector.
//! Submitting the same fingerprint twice toggles the record (save / remove),
//! ranked retrieval is either semantic (distance to a query embedding) or by
//! popularity, and pages are fetched with one extra row so that a caller can
//! tell whether more results remain.
#![verifier::loop_isolation(false)]

use vstd::prelude::*;

pub mod bytes;
pub mod embedding;
pub mod gateway;
pub mod ingest;
pub mod kvmap;
pub mod query;
pub mod rank;
pub mod store;
pub mod translate;

verus! {

/// Everything that can go wrong in the library. A record found absent on a
/// scoped mutation (a selection report, a re-index of one record, a delete)
/// is a benign no-op, never an error.
#[derive(Clone, Copy, Debug, PartialEq, Eq, Structural)]
pub enum Error {
    /// An external provider call came back with a non-success status.
    Provider,
    /// A provider response was malformed (missing body, wrong arity,
    /// wrong vector dimension, or a component outside the fixed-point range).
    Protocol,
    /// A provider returned zero vectors for a non-empty request.
    EmptyResult,
    /// A record with the same (owner, fingerprint) already exists.
    Conflict,
}

} // verus!
