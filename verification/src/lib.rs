//! Core of a structured, multi-modal logging/storage engine.
//!
//! A producer emits named, typed groups of data as [`batch::Batch`]es, each
//! tagged with a three-part [`identity::Identity`] computed by the descriptor
//! resolver (defaults, lazy fallbacks, or full overrides).  Tagged batches are
//! committed as one unit into an append-only [`store::Store`] of immutable
//! chunks, which can be persisted, reopened, and queried for the exact set of
//! identities it recorded.

pub mod batch;
pub mod codec;
pub mod identity;
pub mod store;
