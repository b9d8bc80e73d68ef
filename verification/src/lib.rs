//! Chunk commitments and blob openings for a rollup prover.
//!
//! The crate derives the chunk hash that binds a run of L2 blocks to its
//! state transition, encodes a chunk's transaction payload into the blob
//! byte format, and evaluates the blob polynomial at a challenge point
//! with the barycentric formula over the bls12-381 scalar field.

pub mod bytes;
pub mod limbs;
pub mod field;
pub mod keccak;
pub mod chunk;
pub mod blob;
pub mod domain;
pub mod eval;
pub mod circuit;

use vstd::prelude::*;

verus! {

/// Errors raised while preparing blob data.
#[derive(Clone, Copy, Debug, PartialEq, Eq, Structural)]
pub enum BlobError {
    /// The payload does not fit into one blob; carries the payload length.
    DataTooLarge(usize),
    /// A 32-byte string is not the canonical encoding of a scalar.
    InvalidFieldEncoding,
}

} // verus!
