use beefy_commitment::commitment::Commitment;
use beefy_commitment::payload::{Payload, MMR_ROOT_ID};
use beefy_commitment::signed::{Signature, SignedCommitment};
use beefy_commitment::verify::{AuthorityId, ValidatorSet, VerifyError};
use beefy_commitment::versioned::VersionedFinalityProof;
use beefy_commitment::Error;
use sha3::Digest;

const COMMITMENT_HEX: &str =
    "046d68343048656c6c6f20576f726c6421050000000000000000000000000000000000000000000000";

const SIGNED_HEX: &str = "\
046d68343048656c6c6f20576f726c64210500000000000000000000000000000000000000000000000\
4300400000008558455ad81279df0795cc985580e4fb75d72d948d1107b2ac80a09abed4da8480c746c\
c321f2319a5e99a830e314d10dd3cd68ce3dc0c33c86e99bcb7816f9ba012d6e1f8105c337a86cdd9aa\
acdc496577f3db8c55ef9e6fd48f2c5c05a2274707491635d8ba3df64f324575b7b2a34487bca2324b6\
a0046395a71681be3d0c2a00";

fn hex_to_bytes(s: &str) -> Vec<u8> {
    let digits: Vec<u8> = s
        .bytes()
        .map(|c| match c {
            b'0'..=b'9' => c - b'0',
            b'a'..=b'f' => c - b'a' + 10,
            b'A'..=b'F' => c - b'A' + 10,
            _ => panic!("not a hex digit"),
        })
        .collect();
    assert!(digits.len() % 2 == 0);
    digits.chunks(2).map(|p| p[0] * 16 + p[1]).collect()
}

/// SCALE encoding of the string "Hello World!": compact length, then the
/// UTF-8 bytes.
fn hello_world_encoded() -> Vec<u8> {
    let text = "Hello World!".as_bytes();
    let mut out = vec![(text.len() as u8) * 4];
    out.extend_from_slice(text);
    out
}

fn test_commitment() -> Commitment {
    let payload = Payload::from_single_entry(MMR_ROOT_ID, hello_world_encoded());
    Commitment { payload, block_number: 5, validator_set_id: 0 }
}

/// The two 65-byte mock signatures embedded in the golden signed
/// commitment bytes (the signature values do not matter to the codec).
fn mock_signatures() -> (Signature, Signature) {
    let full = hex_to_bytes(SIGNED_HEX);
    let start = full.len() - 130;
    let sig1 = Signature::from_bytes(full[start..start + 65].to_vec()).unwrap();
    let sig2 = Signature::from_bytes(full[start + 65..].to_vec()).unwrap();
    (sig1, sig2)
}

fn test_signed() -> SignedCommitment {
    let (sig1, sig2) = mock_signatures();
    SignedCommitment {
        commitment: test_commitment(),
        signatures: vec![None, None, Some(sig1), Some(sig2)],
    }
}

#[test]
fn commitment_encode_decode() {
    let commitment = test_commitment();
    let encoded = commitment.encode();
    let decoded = Commitment::decode(&encoded);
    assert_eq!(decoded, Ok(test_commitment()));
    assert_eq!(encoded, hex_to_bytes(COMMITMENT_HEX));
}

#[test]
fn signed_commitment_encode_decode_ecdsa() {
    let ecdsa_signed = test_signed();
    let encoded = ecdsa_signed.encode();
    let decoded = SignedCommitment::decode(&encoded);
    assert_eq!(decoded, Ok(test_signed()));
    assert_eq!(encoded, hex_to_bytes(SIGNED_HEX));
}

#[test]
fn signed_commitment_count_signatures() {
    let mut signed = test_signed();
    assert_eq!(signed.signature_count(), 2);
    signed.signatures[2] = None;
    assert_eq!(signed.signature_count(), 1);
}

#[test]
fn commitment_ordering() {
    fn commitment(block_number: u128, validator_set_id: u64) -> Commitment {
        let payload = Payload::from_single_entry(MMR_ROOT_ID, hello_world_encoded());
        Commitment { payload, block_number, validator_set_id }
    }

    let a = commitment(1, 0);
    let b = commitment(2, 1);
    let c = commitment(10, 0);
    let d = commitment(10, 1);

    assert!(a < b);
    assert!(a < c);
    assert!(c < b);
    assert!(c < d);
    assert!(b < d);
}

#[test]
fn commitment_ordering_payload_tiebreak() {
    let short = Commitment {
        payload: Payload::from_single_entry(MMR_ROOT_ID, vec![4, 1]),
        block_number: 5,
        validator_set_id: 0,
    };
    let long = Commitment {
        payload: Payload::from_single_entry(MMR_ROOT_ID, vec![8, 1, 2]),
        block_number: 5,
        validator_set_id: 0,
    };
    // The tiebreak is byte-lexicographic over the encoded payload: the
    // entry count and tag agree, so the blob length prefix decides.
    assert!(short < long);
    assert!(!(long < short));
    assert!(short == Commitment {
        payload: Payload::from_single_entry(MMR_ROOT_ID, vec![4, 1]),
        block_number: 5,
        validator_set_id: 0,
    });
}

#[test]
fn versioned_commitment_encode_decode() {
    let signed = test_signed();
    let versioned = VersionedFinalityProof::V1(test_signed());

    let encoded = versioned.encode();

    assert_eq!(1, encoded[0]);
    assert_eq!(encoded[1..], signed.encode()[..]);

    let decoded = VersionedFinalityProof::decode(&encoded);
    assert_eq!(decoded, Ok(versioned));
}

#[test]
fn versioned_commitment_rejects_unknown_version() {
    let mut encoded = VersionedFinalityProof::V1(test_signed()).encode();
    encoded[0] = 2;
    assert_eq!(
        VersionedFinalityProof::decode(&encoded),
        Err(Error::UnsupportedProofVersion)
    );
    assert_eq!(
        VersionedFinalityProof::decode(&Vec::new()),
        Err(Error::MalformedCompactCommitment)
    );
}

#[test]
fn malformed_compact_commitment_is_rejected() {
    // A commitment followed by a bitfield claiming one occupied slot but
    // carrying no signature: the popcount disagrees with the signature
    // count.
    let mut bytes = test_commitment().encode();
    bytes.push(0x04); // bitfield blob length prefix: one byte
    bytes.push(0x80); // bit for slot 0 set
    bytes.extend_from_slice(&[1, 0, 0, 0]); // validator_set_len = 1
    bytes.push(0x00); // zero signatures follow
    assert_eq!(
        SignedCommitment::decode(&bytes),
        Err(Error::MalformedCompactCommitment)
    );

    // A truncated commitment fails the same way.
    let truncated = hex_to_bytes(COMMITMENT_HEX)[..10].to_vec();
    assert_eq!(
        Commitment::decode(&truncated),
        Err(Error::MalformedCompactCommitment)
    );
}

#[test]
fn large_signed_commitment_encode_decode() {
    let (sig1, _) = mock_signatures();
    let signatures: Vec<Option<Signature>> = (0..1024)
        .map(|x| {
            if x < 340 {
                None
            } else {
                Some(Signature::from_bytes(sig1.as_bytes().clone()).unwrap())
            }
        })
        .collect();
    let signed = SignedCommitment { commitment: test_commitment(), signatures };

    let encoded = signed.encode();
    let decoded = SignedCommitment::decode(&encoded);
    assert_eq!(decoded.as_ref().map(|sc| sc.signature_count()), Ok(684));
    assert_eq!(decoded, Ok(signed));

    // The expected wire bytes, rebuilt from the format: commitment, then
    // the length-prefixed bitfield of ceil(1024 / 8) bytes plus the extra
    // padding byte the packer emits when the slot count is a multiple of
    // eight, then the 4-byte slot count, then the signatures.
    let mut expected = test_commitment().encode();
    let mut bitfield = [0u8; 129];
    for slot in 340..1024 {
        bitfield[slot / 8] |= 1 << (7 - (slot % 8));
    }
    let len129: u16 = 129 * 4 + 1;
    expected.extend_from_slice(&len129.to_le_bytes());
    expected.extend_from_slice(&bitfield);
    expected.extend_from_slice(&1024u32.to_le_bytes());
    let count684: u16 = 684 * 4 + 1;
    expected.extend_from_slice(&count684.to_le_bytes());
    for _ in 0..684 {
        expected.extend_from_slice(sig1.as_bytes());
    }
    assert_eq!(encoded, expected);
}

fn keccak256(data: &[u8]) -> Vec<u8> {
    sha3::Keccak256::digest(data).to_vec()
}

/// A signing key, its compressed public key, and a recoverable signature
/// over the Keccak-256 digest of msg, in the 65-byte wire form.
fn sign_recoverable(seed: u8, msg: &[u8]) -> (Vec<u8>, Vec<u8>) {
    let sk = k256::ecdsa::SigningKey::from_slice(&[seed; 32]).unwrap();
    let digest = keccak256(msg);
    let (sig, rid) = sk.sign_prehash_recoverable(&digest);
    let mut sig_bytes = sig.to_bytes().to_vec();
    sig_bytes.push(rid.to_byte());
    let pk = sk.verifying_key().to_sec1_point(true).as_bytes().to_vec();
    (pk, sig_bytes)
}

#[test]
fn verify_signatures_returns_valid_entries() {
    let commitment = test_commitment();
    let msg = commitment.encode();
    let (pk1, sig1) = sign_recoverable(7, &msg);
    let (pk2, sig2) = sign_recoverable(9, &msg);

    let validator_set = ValidatorSet::new(
        0,
        vec![
            AuthorityId::from_bytes(pk1.clone()).unwrap(),
            AuthorityId::from_bytes(pk2.clone()).unwrap(),
        ],
    );

    // Slot 0 holds validator 0's valid signature; slot 1 holds a
    // signature that validator 1 did not produce (it is validator 0's),
    // so it is silently filtered out.
    let signed = SignedCommitment {
        commitment,
        signatures: vec![
            Some(Signature::from_bytes(sig1.clone()).unwrap()),
            Some(Signature::from_bytes(sig1.clone()).unwrap()),
        ],
    };
    let result = signed.verify_signatures(5, &validator_set).unwrap();
    assert_eq!(result.len(), 1);
    assert_eq!(result[0].validator_id.as_bytes(), &pk1);
    assert_eq!(result[0].signature.as_bytes(), &sig1);
    let owned = result[0].to_owned();
    assert_eq!(owned.validator_id.as_bytes(), &pk1);

    // With both slots holding the right signatures, both come back, in
    // validator-index order.
    let signed2 = SignedCommitment {
        commitment: test_commitment(),
        signatures: vec![
            Some(Signature::from_bytes(sig1.clone()).unwrap()),
            Some(Signature::from_bytes(sig2.clone()).unwrap()),
        ],
    };
    let result2 = signed2.verify_signatures(5, &validator_set).unwrap();
    assert_eq!(result2.len(), 2);
    assert_eq!(result2[0].validator_id.as_bytes(), &pk1);
    assert_eq!(result2[1].validator_id.as_bytes(), &pk2);
}

#[test]
fn verify_signatures_precondition_mismatches() {
    let (sig1, sig2) = mock_signatures();
    let signed = SignedCommitment {
        commitment: test_commitment(),
        signatures: vec![None, None, Some(sig1), Some(sig2)],
    };
    let three_keys = |id: u64| {
        ValidatorSet::new(
            id,
            (1u8..=3)
                .map(|b| AuthorityId::from_bytes(vec![b; 33]).unwrap())
                .collect(),
        )
    };

    // Four slots against three validators: rejected before any signature
    // is inspected.
    assert_eq!(
        signed.verify_signatures(5, &three_keys(0)),
        Err(VerifyError::WrongLength)
    );

    let four_keys = |id: u64| {
        ValidatorSet::new(
            id,
            (1u8..=4)
                .map(|b| AuthorityId::from_bytes(vec![b; 33]).unwrap())
                .collect(),
        )
    };
    assert_eq!(
        signed.verify_signatures(5, &four_keys(3)),
        Err(VerifyError::WrongSetId)
    );
    assert_eq!(
        signed.verify_signatures(6, &four_keys(0)),
        Err(VerifyError::WrongBlockNumber)
    );
}

#[test]
fn signature_and_authority_lengths_are_enforced() {
    assert!(Signature::from_bytes(vec![0; 64]).is_none());
    assert!(Signature::from_bytes(vec![0; 65]).is_some());
    assert!(AuthorityId::from_bytes(vec![0; 32]).is_none());
    assert!(AuthorityId::from_bytes(vec![0; 33]).is_some());
}

#[test]
fn multi_entry_payload_round_trip() {
    // A commitment whose payload holds two tagged blobs, assembled byte
    // by byte: entry count, then per entry the tag and the
    // length-prefixed blob, then block number and set id.
    let mut bytes = vec![0x08u8]; // two entries
    bytes.extend_from_slice(&[0x6d, 0x68, 0x04, 0x01]);
    bytes.extend_from_slice(&[0x7a, 0x7a, 0x08, 0x02, 0x03]);
    bytes.extend_from_slice(&7u128.to_le_bytes());
    bytes.extend_from_slice(&9u64.to_le_bytes());
    let decoded = Commitment::decode(&bytes).unwrap();
    assert_eq!(decoded.block_number, 7);
    assert_eq!(decoded.validator_set_id, 9);
    assert_eq!(decoded.encode(), bytes);
}

#[test]
fn decode_ignores_trailing_bytes() {
    let mut bytes = hex_to_bytes(COMMITMENT_HEX);
    bytes.extend_from_slice(&[0xde, 0xad, 0xbe, 0xef]);
    assert_eq!(Commitment::decode(&bytes), Ok(test_commitment()));
}

#[test]
fn non_canonical_length_prefix_is_rejected() {
    // A two-byte compact prefix carrying the value 0 is not minimal: the
    // codec must reject it rather than read an empty payload.
    let mut bytes = vec![0x01u8, 0x00];
    bytes.extend_from_slice(&5u128.to_le_bytes());
    bytes.extend_from_slice(&0u64.to_le_bytes());
    assert_eq!(Commitment::decode(&bytes), Err(Error::MalformedCompactCommitment));
}

#[test]
fn versioned_commitment_from_signed() {
    let versioned: VersionedFinalityProof = test_signed().into();
    assert_eq!(versioned, VersionedFinalityProof::V1(test_signed()));
}
