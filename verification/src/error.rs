//! Core error vocabulary shared across the node's components.

use vstd::prelude::*;
use crate::digest::Digest;

verus! {

/// A digest string did not contain a well-formed `<hex>:<decimal>` form.
#[derive(Debug)]
pub enum OryxError {
    InvalidDigest(String),
}

/// Failures of the content-addressable store.
#[derive(Debug)]
pub enum CasError {
    Unknown,
    /// No blob is stored under the digest.
    BlobNotFound(Digest),
    /// An input/output failure in a persistent backing store.
    IoError(String),
    /// The content hashed to the first digest but the caller claimed the
    /// second.
    InvalidDigest(Digest, Digest),
}

} // verus!
