//! Commitment data layer of a BEEFY-style finality gadget: canonical wire
//! encoding of signed commitments, a bit-packed compact codec for sparse
//! signature vectors, a total order over commitments, and signature
//! verification against an ordered validator set.
use vstd::prelude::*;

pub mod codec;
pub mod commitment;
pub mod payload;
pub mod signed;
pub mod verify;
pub mod versioned;

verus! {

/// Errors raised by the decode paths.
#[derive(Clone, Copy, Debug, PartialEq, Eq, Structural)]
pub enum Error {
    /// The bitfield, the signature count, or an inner field of a compact
    /// signed commitment does not form a canonical wire value.
    MalformedCompactCommitment,
    /// The leading version byte of a finality proof names no known variant.
    UnsupportedProofVersion,
}

} // verus!
