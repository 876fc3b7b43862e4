//! Verification of a signed commitment against an ordered validator set.
//!
//! The cryptography itself is consumed as a contract: a signature of a
//! validator is valid for a message iff ECDSA public-key recovery over
//! the Keccak-256 digest of the message yields exactly that validator's
//! compressed public key. The walk over the slot vector, the precondition
//! checks and the shape of the result are verified.
use vstd::prelude::*;
use sha3::Digest;
use crate::commitment::se_commitment;
use crate::payload::bytes_eq;
use crate::signed::{sig_opts_view, Signature, SignedCommitment};

verus! {

/// Why verify_signatures refused to look at any signature.
#[derive(Clone, Copy, Debug, PartialEq, Eq, Structural)]
pub enum VerifyError {
    /// The slot vector length differs from the validator count.
    WrongLength,
    /// The commitment names a different validator set.
    WrongSetId,
    /// The commitment is for a different block.
    WrongBlockNumber,
}

/// The Keccak-256 digest of a byte string, named rather than restated:
/// it is a function of the input alone.
pub uninterp spec fn keccak256_of(data: Seq<u8>) -> Seq<u8>;

/// The compressed public key, if any, that ECDSA recovery over secp256k1
/// yields from a 65-byte recoverable signature and a 32-byte digest: a
/// function of the two arguments alone.
pub uninterp spec fn ecdsa_recover_of(sig: Seq<u8>, digest: Seq<u8>) -> Option<Seq<u8>>;

/// A signature is valid for an authority and a message iff recovery from
/// the message's Keccak-256 digest yields exactly that authority's key.
pub open spec fn sig_valid(authority: Seq<u8>, sig: Seq<u8>, msg: Seq<u8>) -> bool {
    ecdsa_recover_of(sig, keccak256_of(msg)) == Some(authority)
}

/// Relies on sha3's Keccak256: a 32-byte digest depending on the input
/// bytes alone.
#[verifier::external_body]
fn keccak_256(data: &Vec<u8>) -> (r: Vec<u8>)
    ensures
        r@ == keccak256_of(data@),
        r@.len() == 32,
{
    sha3::Keccak256::digest(data.as_slice()).to_vec()
}

/// Relies on k256's VerifyingKey::recover_from_prehash (ECDSA public-key
/// recovery over secp256k1), fed the last signature byte as recovery id;
/// the result depends on the signature and digest alone.
#[verifier::external_body]
fn ecdsa_recover(sig: &Vec<u8>, digest: &Vec<u8>) -> (r: Option<Vec<u8>>)
    requires
        sig@.len() == 65,
        digest@.len() == 32,
    ensures
        match r {
            Some(pk) => ecdsa_recover_of(sig@, digest@) == Some(pk@),
            None => ecdsa_recover_of(sig@, digest@) is None,
        },
{
    let rid = match k256::ecdsa::RecoveryId::from_byte(sig[64]) {
        Some(rid) => rid,
        None => return None,
    };
    let parsed = match k256::ecdsa::Signature::from_slice(&sig[..64]) {
        Ok(parsed) => parsed,
        Err(_) => return None,
    };
    match k256::ecdsa::VerifyingKey::recover_from_prehash(digest.as_slice(), &parsed, rid) {
        Ok(vk) => Some(vk.to_sec1_point(true).as_bytes().to_vec()),
        Err(_) => None,
    }
}

/// A validator's identity: its 33-byte compressed SEC1 public key.
#[derive(Debug, PartialEq, Eq)]
pub struct AuthorityId {
    key: Vec<u8>,
}

impl View for AuthorityId {
    type V = Seq<u8>;

    closed spec fn view(&self) -> Seq<u8> {
        self.key@
    }
}

impl AuthorityId {
    #[verifier::type_invariant]
    spec fn inv(self) -> bool {
        self.key@.len() == 33
    }

    /// Wraps a 33-byte compressed public key; rejects other lengths.
    pub fn from_bytes(key: Vec<u8>) -> (r: Option<AuthorityId>)
        ensures
            key@.len() == 33 ==> (r matches Some(a) && a@ == key@),
            key@.len() != 33 ==> r is None,
    {
        if key.len() == 33 {
            Some(AuthorityId { key })
        } else {
            None
        }
    }

    /// The raw key bytes: always exactly 33 of them.
    pub fn as_bytes(&self) -> (r: &Vec<u8>)
        ensures
            r@ == self@,
            r@.len() == 33,
    {
        proof {
            use_type_invariant(self);
        }
        &self.key
    }

    /// A fresh copy of this identity.
    pub fn duplicate(&self) -> (r: AuthorityId)
        ensures
            r@ == self@,
    {
        proof {
            use_type_invariant(self);
        }
        AuthorityId { key: crate::codec::copy_bytes(&self.key) }
    }

    /// Checks one signature over msg against this authority.
    pub fn verify(&self, sig: &Signature, msg: &Vec<u8>) -> (r: bool)
        ensures
            r == sig_valid(self@, sig@, msg@),
    {
        let digest = keccak_256(msg);
        match ecdsa_recover(sig.as_bytes(), &digest) {
            Some(pk) => bytes_eq(&pk, &self.key),
            None => false,
        }
    }
}

/// The abstract value of a validator set.
pub ghost struct ValidatorSetV {
    pub id: u64,
    pub validators: Seq<Seq<u8>>,
}

/// The abstract values of a list of authorities.
pub open spec fn auth_views(s: Seq<AuthorityId>) -> Seq<Seq<u8>> {
    s.map_values(|a: AuthorityId| a@)
}

/// An immutable snapshot of one validator set: its monotonically
/// increasing id and the public keys in validator-index order.
#[derive(Debug)]
pub struct ValidatorSet {
    id: u64,
    validators: Vec<AuthorityId>,
}

impl View for ValidatorSet {
    type V = ValidatorSetV;

    closed spec fn view(&self) -> ValidatorSetV {
        ValidatorSetV { id: self.id, validators: auth_views(self.validators@) }
    }
}

impl ValidatorSet {
    /// Builds a snapshot from an id and an ordered key list.
    pub fn new(id: u64, validators: Vec<AuthorityId>) -> (r: ValidatorSet)
        ensures
            r@.id == id,
            r@.validators == auth_views(validators@),
    {
        ValidatorSet { id, validators }
    }

    /// The set's id.
    pub fn id(&self) -> (r: u64)
        ensures
            r == self@.id,
    {
        self.id
    }

    /// How many validators the set holds.
    pub fn len(&self) -> (r: usize)
        ensures
            r == self@.validators.len(),
    {
        self.validators.len()
    }

    /// The public keys in validator-index order.
    pub fn validators(&self) -> (r: &Vec<AuthorityId>)
        ensures
            auth_views(r@) == self@.validators,
    {
        &self.validators
    }
}

/// A commitment signature, accompanied by the id of the validator that it
/// belongs to.
#[derive(Debug, PartialEq)]
pub struct KnownSignature {
    /// The signing validator.
    pub validator_id: AuthorityId,
    /// The signature.
    pub signature: Signature,
}

impl KnownSignature {
    /// A fresh copy of the pair.
    pub fn to_owned(&self) -> (r: KnownSignature)
        ensures
            r.validator_id@ == self.validator_id@,
            r.signature@ == self.signature@,
    {
        KnownSignature {
            validator_id: self.validator_id.duplicate(),
            signature: self.signature.duplicate(),
        }
    }
}

/// The abstract values of a list of verification results.
pub open spec fn known_views(s: Seq<KnownSignature>) -> Seq<(Seq<u8>, Seq<u8>)> {
    s.map_values(|k: KnownSignature| (k.validator_id@, k.signature@))
}

/// The pairs (validator key, signature) of exactly the occupied slots
/// whose signature verifies, in validator-index order.
pub open spec fn valid_entries(
    vals: Seq<Seq<u8>>,
    sigs: Seq<Option<Seq<u8>>>,
    msg: Seq<u8>,
) -> Seq<(Seq<u8>, Seq<u8>)>
    decreases vals.len(),
{
    if vals.len() == 0 || sigs.len() == 0 {
        Seq::empty()
    } else {
        let rest = valid_entries(vals.skip(1), sigs.skip(1), msg);
        match sigs[0] {
            Some(sg) => {
                if sig_valid(vals[0], sg, msg) {
                    seq![(vals[0], sg)] + rest
                } else {
                    rest
                }
            },
            None => rest,
        }
    }
}

impl SignedCommitment {
    /// Verify all the commitment signatures against the validator set
    /// that was active at the block where the commitment was generated.
    ///
    /// Returns exactly the valid validator-signature pairs, in
    /// validator-index order. An individual signature that fails to
    /// verify is silently left out; only a precondition failure is an
    /// error, and it says which precondition tripped.
    pub fn verify_signatures(&self, target_number: u128, validator_set: &ValidatorSet) -> (r:
        Result<Vec<KnownSignature>, VerifyError>)
        ensures
            match r {
                Ok(list) => {
                    &&& self@.signatures.len() == validator_set@.validators.len()
                    &&& self@.commitment.validator_set_id == validator_set@.id
                    &&& self@.commitment.block_number == target_number
                    &&& known_views(list@) == valid_entries(
                        validator_set@.validators,
                        self@.signatures,
                        se_commitment(self@.commitment),
                    )
                },
                Err(VerifyError::WrongLength) => self@.signatures.len()
                    != validator_set@.validators.len(),
                Err(VerifyError::WrongSetId) => {
                    &&& self@.signatures.len() == validator_set@.validators.len()
                    &&& self@.commitment.validator_set_id != validator_set@.id
                },
                Err(VerifyError::WrongBlockNumber) => {
                    &&& self@.signatures.len() == validator_set@.validators.len()
                    &&& self@.commitment.validator_set_id == validator_set@.id
                    &&& self@.commitment.block_number != target_number
                },
            },
    {
        let n = self.signatures.len();
        if n != validator_set.len() {
            return Err(VerifyError::WrongLength);
        }
        if self.commitment.validator_set_id != validator_set.id() {
            return Err(VerifyError::WrongSetId);
        }
        if self.commitment.block_number != target_number {
            return Err(VerifyError::WrongBlockNumber);
        }
        let msg = self.commitment.encode();
        let vals = validator_set.validators();
        let ghost av = auth_views(vals@);
        let ghost svs = self@.signatures;
        let mut out: Vec<KnownSignature> = Vec::new();
        let mut i: usize = 0;
        proof {
            assert(av.skip(0) =~= av);
            assert(svs.skip(0) =~= svs);
            assert(known_views(out@) =~= Seq::<(Seq<u8>, Seq<u8>)>::empty());
        }
        while i < n
            invariant
                i <= n,
                n == self.signatures@.len(),
                n == vals@.len(),
                av == auth_views(vals@),
                svs == sig_opts_view(self.signatures@),
                msg@ == se_commitment(self@.commitment),
                valid_entries(av, svs, msg@) == known_views(out@) + valid_entries(
                    av.skip(i as int),
                    svs.skip(i as int),
                    msg@,
                ),
            decreases n - i,
        {
            proof {
                assert(av.skip(i as int).skip(1) =~= av.skip(i + 1));
                assert(svs.skip(i as int).skip(1) =~= svs.skip(i + 1));
                assert(av.skip(i as int)[0] == av[i as int]);
                assert(svs.skip(i as int)[0] == svs[i as int]);
                assert(av[i as int] == vals@[i as int]@);
                assert(svs[i as int] == match self.signatures@[i as int] {
                    Some(sg) => Some(sg@),
                    None => None::<Seq<u8>>,
                });
            }
            match &self.signatures[i] {
                Some(sig) => {
                    let auth = &vals[i];
                    if auth.verify(sig, &msg) {
                        let ghost prev = out@;
                        out.push(
                            KnownSignature {
                                validator_id: auth.duplicate(),
                                signature: sig.duplicate(),
                            },
                        );
                        proof {
                            let newk = known_views(out@);
                            let target = known_views(prev).push((av[i as int], svs[i as int]->0));
                            assert forall|j: int| 0 <= j < newk.len() implies #[trigger] newk[j]
                                == target[j] by {
                                assert(newk[j] == (out@[j].validator_id@, out@[j].signature@));
                                if j < prev.len() {
                                    assert(out@[j] == prev[j]);
                                    assert(known_views(prev)[j] == (
                                        prev[j].validator_id@,
                                        prev[j].signature@,
                                    ));
                                }
                            };
                            assert(newk =~= target);
                            assert(known_views(prev) + valid_entries(av.skip(i as int), svs.skip(
                                i as int), msg@) =~= newk + valid_entries(av.skip(i + 1), svs.skip(
                                i + 1), msg@));
                        }
                    }
                },
                None => {},
            }
            i = i + 1;
        }
        proof {
            assert(valid_entries(av.skip(n as int), svs.skip(n as int), msg@) == Seq::<
                (Seq<u8>, Seq<u8>),
            >::empty());
            assert(known_views(out@) + Seq::<(Seq<u8>, Seq<u8>)>::empty() =~= known_views(out@));
        }
        Ok(out)
    }
}

/// The validator indices, counted from off, whose slots contribute an
/// entry to the verification result: occupied, valid, in increasing
/// order.
pub open spec fn valid_slots(
    vals: Seq<Seq<u8>>,
    sigs: Seq<Option<Seq<u8>>>,
    msg: Seq<u8>,
    off: int,
) -> Seq<int>
    decreases vals.len(),
{
    if vals.len() == 0 || sigs.len() == 0 {
        Seq::empty()
    } else {
        let rest = valid_slots(vals.skip(1), sigs.skip(1), msg, off + 1);
        match sigs[0] {
            Some(sg) => {
                if sig_valid(vals[0], sg, msg) {
                    seq![off] + rest
                } else {
                    rest
                }
            },
            None => rest,
        }
    }
}

#[verifier::rlimit(100)]
#[verifier::spinoff_prover]
proof fn lemma_valid_slots(vals: Seq<Seq<u8>>, sigs: Seq<Option<Seq<u8>>>, msg: Seq<u8>, off: int)
    ensures
        ({
            let idx = valid_slots(vals, sigs, msg, off);
            let res = valid_entries(vals, sigs, msg);
            &&& idx.len() == res.len()
            &&& forall|j: int|
                0 <= j < idx.len() ==> off <= #[trigger] idx[j] && idx[j] - off < vals.len()
                    && idx[j] - off < sigs.len()
            &&& forall|j: int| 0 < j < idx.len() ==> idx[j - 1] < #[trigger] idx[j]
            &&& forall|j: int|
                0 <= j < idx.len() ==> sigs[#[trigger] idx[j] - off] == Some(res[j].1) && vals[idx[
                    j] - off] == res[j].0 && sig_valid(res[j].0, res[j].1, msg)
        }),
    decreases vals.len(),
{
    if vals.len() == 0 || sigs.len() == 0 {
    } else {
        lemma_valid_slots(vals.skip(1), sigs.skip(1), msg, off + 1);
        let idx = valid_slots(vals, sigs, msg, off);
        let res = valid_entries(vals, sigs, msg);
        let idx_r = valid_slots(vals.skip(1), sigs.skip(1), msg, off + 1);
        let res_r = valid_entries(vals.skip(1), sigs.skip(1), msg);
        let keep = sigs[0] matches Some(sg) && sig_valid(vals[0], sg, msg);
        let d: int = if keep {
            1
        } else {
            0
        };
        assert(idx.len() == idx_r.len() + d);
        assert(res.len() == res_r.len() + d);
        assert forall|j: int| 0 <= j < idx.len() implies off <= #[trigger] idx[j] && idx[j] - off
            < vals.len() && idx[j] - off < sigs.len() && sigs[idx[j] - off] == Some(res[j].1)
            && vals[idx[j] - off] == res[j].0 && sig_valid(res[j].0, res[j].1, msg) by {
            if keep && j == 0 {
                assert(idx[0] == off);
                assert(res[0] == (vals[0], sigs[0]->0));
            } else {
                let k = j - d;
                assert(idx[j] == idx_r[k]);
                assert(res[j] == res_r[k]);
                assert(sigs.skip(1)[idx_r[k] - (off + 1)] == sigs[idx_r[k] - off]);
                assert(vals.skip(1)[idx_r[k] - (off + 1)] == vals[idx_r[k] - off]);
            }
        };
        assert forall|j: int| 0 < j < idx.len() implies idx[j - 1] < #[trigger] idx[j] by {
            if keep {
                if j == 1 {
                    assert(idx[0] == off);
                    assert(idx[1] == idx_r[0]);
                } else {
                    assert(idx[j - 1] == idx_r[j - 2]);
                    assert(idx[j] == idx_r[j - 1]);
                }
            } else {
                assert(idx[j - 1] == idx_r[j - 1]);
                assert(idx[j] == idx_r[j]);
            }
        };
    }
}

/// The verification result is a subset of the occupied slots, in
/// validator-index order: a strictly increasing sequence of slot indices
/// selects exactly the returned pairs, each an occupied slot whose
/// signature verifies for the validator at that index.
pub proof fn lemma_verification_subset(vals: Seq<Seq<u8>>, sigs: Seq<Option<Seq<u8>>>, msg: Seq<u8>)
    ensures
        ({
            let idx = valid_slots(vals, sigs, msg, 0);
            let res = valid_entries(vals, sigs, msg);
            &&& idx.len() == res.len()
            &&& forall|j: int|
                0 <= j < idx.len() ==> 0 <= #[trigger] idx[j] < vals.len() && idx[j] < sigs.len()
            &&& forall|j: int| 0 < j < idx.len() ==> idx[j - 1] < #[trigger] idx[j]
            &&& forall|j: int|
                0 <= j < idx.len() ==> sigs[#[trigger] idx[j]] == Some(res[j].1) && vals[idx[j]]
                    == res[j].0 && sig_valid(res[j].0, res[j].1, msg)
        }),
{
    lemma_valid_slots(vals, sigs, msg, 0);
}

} // verus!
