//! A node for the Remote Build Execution (RBE) protocol: a content-addressable
//! blob store, an execution pipeline that materializes input trees and captures
//! outputs, and the service-level logic that maps lifecycle events onto
//! long-running operations.

pub mod backend;
pub mod cas;
pub mod client;
pub mod digest;
pub mod engine;
pub mod error;
pub mod exec_service;
pub mod execution;
pub mod hashing;
pub mod num;
pub mod operations;
pub mod resolver;
pub mod rpc;
pub mod services;
pub mod wire;

pub use digest::Digest;
pub use error::OryxError;
