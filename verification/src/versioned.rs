//! The outermost wrapper attached to block justifications: a signed
//! commitment behind a single version byte, so future signature schemes
//! can coexist without ambiguity.
use vstd::prelude::*;
use crate::codec::append_bytes;
use crate::signed::{sd_signed, se_signed, SignedCommitment, SignedCommitmentV};
use crate::Error;

verus! {

/// A signed commitment with a version number. Today there is exactly one
/// variant, carried on the wire behind the discriminant byte 0x01.
#[derive(Debug, PartialEq)]
pub enum VersionedFinalityProof {
    /// Current active version.
    V1(SignedCommitment),
}

impl View for VersionedFinalityProof {
    type V = SignedCommitmentV;

    open spec fn view(&self) -> SignedCommitmentV {
        match self {
            VersionedFinalityProof::V1(sc) => sc@,
        }
    }
}

/// Wire form of a versioned proof: the version byte, then the signed
/// commitment.
pub open spec fn se_versioned(sc: SignedCommitmentV) -> Seq<u8> {
    seq![1u8] + se_signed(sc)
}

/// The version envelope adds exactly one leading byte: the first encoded
/// byte is 0x01 and the remainder is the inner signed commitment's own
/// encoding.
pub proof fn lemma_versioned_envelope(sc: SignedCommitmentV)
    ensures
        se_versioned(sc).len() == 1 + se_signed(sc).len(),
        se_versioned(sc)[0] == 1u8,
        se_versioned(sc).skip(1) == se_signed(sc),
{
    assert(se_versioned(sc).skip(1) =~= se_signed(sc));
}

impl VersionedFinalityProof {
    /// Encodes as the version byte followed by the inner commitment.
    pub fn encode(&self) -> (r: Vec<u8>)
        requires
            self@.signatures.len() <= u32::MAX,
        ensures
            r@ == se_versioned(self@),
    {
        match self {
            VersionedFinalityProof::V1(sc) => {
                let mut out: Vec<u8> = Vec::new();
                out.push(1);
                let inner = sc.encode();
                append_bytes(&mut out, &inner);
                assert(out@ =~= se_versioned(self@));
                out
            },
        }
    }

    /// Decodes a versioned proof. A leading byte other than 0x01 names no
    /// known version; a malformed inner commitment is reported as such.
    pub fn decode(bytes: &Vec<u8>) -> (r: Result<VersionedFinalityProof, Error>)
        ensures
            bytes@.len() == 0 ==> r == Err::<VersionedFinalityProof, Error>(
                Error::MalformedCompactCommitment,
            ),
            bytes@.len() > 0 && bytes@[0] != 1 ==> r == Err::<VersionedFinalityProof, Error>(
                Error::UnsupportedProofVersion,
            ),
            bytes@.len() > 0 && bytes@[0] == 1 ==> match sd_signed(bytes@.skip(1)) {
                Some((scv, _consumed)) => r matches Ok(v) && v@ == scv,
                None => r == Err::<VersionedFinalityProof, Error>(
                    Error::MalformedCompactCommitment,
                ),
            },
    {
        if bytes.len() == 0 {
            return Err(Error::MalformedCompactCommitment);
        }
        if bytes[0] != 1 {
            return Err(Error::UnsupportedProofVersion);
        }
        match SignedCommitment::decode_at(bytes, 1) {
            Some((sc, _)) => Ok(VersionedFinalityProof::V1(sc)),
            None => Err(Error::MalformedCompactCommitment),
        }
    }
}

impl From<SignedCommitment> for VersionedFinalityProof {
    /// Wraps a signed commitment in the current version.
    fn from(commitment: SignedCommitment) -> (r: Self) {
        VersionedFinalityProof::V1(commitment)
    }
}

impl vstd::std_specs::convert::FromSpecImpl<SignedCommitment> for VersionedFinalityProof {
    open spec fn obeys_from_spec() -> bool {
        true
    }

    open spec fn from_spec(commitment: SignedCommitment) -> Self {
        VersionedFinalityProof::V1(commitment)
    }
}

} // verus!
