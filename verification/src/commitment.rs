//! The commitment signed by validators: a payload, the finalized block
//! number it speaks about, and the id of the validator set expected to
//! sign it. Commitments carry a canonical encoding (the byte string that
//! signatures bind to) and a total order so a follower can decide which of
//! two commitments supersedes the other.
use vstd::prelude::*;
use core::cmp::Ordering;
use crate::codec::{
    decode_le, encode_le, lemma_le_bytes_len, lemma_pow256_16, lemma_sd_le_roundtrip, le_bytes,
    pow256, sd_le,
};
use crate::payload::{
    decode_payload, encode_payload, lemma_sd_payload_roundtrip, payload_wf, sd_payload,
    se_payload, Payload,
};
use crate::Error;

verus! {

/// The abstract value of a commitment.
pub ghost struct CommitmentV {
    pub payload: Seq<(Seq<u8>, Seq<u8>)>,
    pub block_number: u128,
    pub validator_set_id: u64,
}

/// A commitment to a finalized block: the payload agreed upon, the block
/// height it was extracted from, and the id of the validator set that is
/// supposed to sign it.
#[derive(Debug)]
pub struct Commitment {
    /// The tagged blobs to be signed.
    pub payload: Payload,
    /// Finalized block number this commitment is for.
    pub block_number: u128,
    /// Monotonically increasing id of the validator set signing this.
    pub validator_set_id: u64,
}

impl View for Commitment {
    type V = CommitmentV;

    open spec fn view(&self) -> CommitmentV {
        CommitmentV {
            payload: self.payload@,
            block_number: self.block_number,
            validator_set_id: self.validator_set_id,
        }
    }
}

/// Wire form of a commitment: payload, then the block number as 16
/// little-endian bytes, then the set id as 8 little-endian bytes.
pub open spec fn se_commitment(c: CommitmentV) -> Seq<u8> {
    se_payload(c.payload) + le_bytes(c.block_number as nat, 16) + le_bytes(
        c.validator_set_id as nat,
        8,
    )
}

/// Reads one commitment from the front of s.
pub open spec fn sd_commitment(s: Seq<u8>) -> Option<(CommitmentV, int)> {
    match sd_payload(s) {
        None => None,
        Some((p, c1)) => match sd_le(s.skip(c1), 16) {
            None => None,
            Some((bn, _)) => match sd_le(s.skip(c1 + 16), 8) {
                None => None,
                Some((vs, _)) => Some(
                    (
                        CommitmentV {
                            payload: p,
                            block_number: bn as u128,
                            validator_set_id: vs as u64,
                        },
                        c1 + 24,
                    ),
                ),
            },
        },
    }
}

/// Decoding inverts encoding for commitments with a well-formed payload.
#[verifier::rlimit(50)]
pub proof fn lemma_sd_commitment_roundtrip(c: CommitmentV, rest: Seq<u8>)
    requires
        payload_wf(c.payload),
    ensures
        sd_commitment(se_commitment(c) + rest) == Some((c, se_commitment(c).len() as int)),
{
    let pb = se_payload(c.payload);
    let bb = le_bytes(c.block_number as nat, 16);
    let vb = le_bytes(c.validator_set_id as nat, 8);
    let s = se_commitment(c) + rest;
    lemma_le_bytes_len(c.block_number as nat, 16);
    lemma_le_bytes_len(c.validator_set_id as nat, 8);
    lemma_sd_payload_roundtrip(c.payload, bb + vb + rest);
    assert(s =~= pb + (bb + vb + rest));
    assert(s.skip(pb.len() as int) =~= bb + (vb + rest));
    lemma_pow256_16();
    assert(pow256(8) == 0x1_0000_0000_0000_0000) by {
        reveal_with_fuel(pow256, 9);
    };
    lemma_sd_le_roundtrip(c.block_number as nat, 16, vb + rest);
    assert(s.skip(pb.len() as int + 16) =~= vb + rest);
    lemma_sd_le_roundtrip(c.validator_set_id as nat, 8, rest);
}

impl Commitment {
    /// Appends the canonical encoding of this commitment.
    pub fn encode_into(&self, out: &mut Vec<u8>)
        ensures
            final(out)@ == old(out)@ + se_commitment(self@),
    {
        let ghost pre = out@;
        encode_payload(&self.payload, out);
        encode_le(self.block_number, 16, out);
        encode_le(self.validator_set_id as u128, 8, out);
        assert(out@ =~= pre + se_commitment(self@));
    }

    /// A fresh copy with the same abstract value.
    pub fn duplicate(&self) -> (r: Commitment)
        ensures
            r@ == self@,
    {
        Commitment {
            payload: crate::payload::payload_duplicate(&self.payload),
            block_number: self.block_number,
            validator_set_id: self.validator_set_id,
        }
    }

    /// The canonical encoding: the exact byte string signatures bind to.
    pub fn encode(&self) -> (r: Vec<u8>)
        ensures
            r@ == se_commitment(self@),
    {
        let mut out: Vec<u8> = Vec::new();
        self.encode_into(&mut out);
        assert(out@ =~= se_commitment(self@));
        out
    }

    /// Reads one commitment starting at pos.
    pub fn decode_at(s: &Vec<u8>, pos: usize) -> (r: Option<(Commitment, usize)>)
        requires
            pos <= s@.len(),
        ensures
            match r {
                Some((c, p)) => {
                    &&& sd_commitment(s@.skip(pos as int)) == Some((c@, (p - pos) as int))
                    &&& pos <= p <= s@.len()
                    &&& payload_wf(c@.payload)
                },
                None => sd_commitment(s@.skip(pos as int)) is None,
            },
    {
        let (pl, p1) = match decode_payload(s, pos) {
            None => {
                return None;
            },
            Some(x) => x,
        };
        proof {
            assert(s@.skip(pos as int).skip((p1 - pos) as int) =~= s@.skip(p1 as int));
        }
        let (bn, p2) = match decode_le(s, p1, 16) {
            None => {
                return None;
            },
            Some(x) => x,
        };
        proof {
            assert(s@.skip(pos as int).skip((p1 - pos) + 16) =~= s@.skip(p2 as int));
        }
        let (vs, p3) = match decode_le(s, p2, 8) {
            None => {
                return None;
            },
            Some(x) => x,
        };
        proof {
            assert(pow256(8) == 0x1_0000_0000_0000_0000) by {
                reveal_with_fuel(pow256, 9);
            };
        }
        let c = Commitment { payload: pl, block_number: bn, validator_set_id: vs as u64 };
        Some((c, p3))
    }

    /// Decodes a commitment from the front of bytes; trailing bytes are
    /// ignored, as the wire convention allows concatenated values.
    pub fn decode(bytes: &Vec<u8>) -> (r: Result<Commitment, Error>)
        ensures
            match sd_commitment(bytes@) {
                Some((cv, _consumed)) => r matches Ok(dc) && dc@ == cv && payload_wf(cv.payload),
                None => r == Err::<Commitment, Error>(Error::MalformedCompactCommitment),
            },
    {
        proof {
            assert(bytes@.skip(0) =~= bytes@);
        }
        match Self::decode_at(bytes, 0) {
            Some((c, _)) => Ok(c),
            None => Err(Error::MalformedCompactCommitment),
        }
    }
}

/// Byte-wise lexicographic comparison of two byte strings.
pub open spec fn lex_cmp(a: Seq<u8>, b: Seq<u8>) -> Ordering
    decreases a.len(),
{
    if a.len() == 0 && b.len() == 0 {
        Ordering::Equal
    } else if a.len() == 0 {
        Ordering::Less
    } else if b.len() == 0 {
        Ordering::Greater
    } else if a[0] < b[0] {
        Ordering::Less
    } else if a[0] > b[0] {
        Ordering::Greater
    } else {
        lex_cmp(a.skip(1), b.skip(1))
    }
}

/// Comparison of two mathematical integers as an Ordering.
pub open spec fn cmp_int(a: int, b: int) -> Ordering {
    if a < b {
        Ordering::Less
    } else if a > b {
        Ordering::Greater
    } else {
        Ordering::Equal
    }
}

/// The total order over commitments: first by validator-set id, then by
/// block number, then lexicographically by the encoded payload.
pub open spec fn spec_cmp(a: CommitmentV, b: CommitmentV) -> Ordering {
    if a.validator_set_id != b.validator_set_id {
        cmp_int(a.validator_set_id as int, b.validator_set_id as int)
    } else if a.block_number != b.block_number {
        cmp_int(a.block_number as int, b.block_number as int)
    } else {
        lex_cmp(se_payload(a.payload), se_payload(b.payload))
    }
}

proof fn lemma_lex_cmp_eq(a: Seq<u8>, b: Seq<u8>)
    ensures
        lex_cmp(a, b) == Ordering::Equal <==> a == b,
    decreases a.len(),
{
    if a.len() > 0 && b.len() > 0 {
        lemma_lex_cmp_eq(a.skip(1), b.skip(1));
        if lex_cmp(a, b) == Ordering::Equal {
            assert(a.skip(1) == b.skip(1));
            assert forall|i: int| 0 <= i < a.len() implies a[i] == b[i] by {
                if i > 0 {
                    assert(a.skip(1)[i - 1] == b.skip(1)[i - 1]);
                }
            };
            assert(a =~= b);
        }
        if a == b {
            assert(a.skip(1) == b.skip(1));
        }
    } else {
        if a.len() == 0 && b.len() == 0 {
            assert(a =~= b);
        }
    }
}

proof fn lemma_lex_cmp_dual(a: Seq<u8>, b: Seq<u8>)
    ensures
        lex_cmp(a, b) == Ordering::Less <==> lex_cmp(b, a) == Ordering::Greater,
    decreases a.len(),
{
    if a.len() > 0 && b.len() > 0 {
        lemma_lex_cmp_dual(a.skip(1), b.skip(1));
    }
}

proof fn lemma_lex_cmp_trans(a: Seq<u8>, b: Seq<u8>, c: Seq<u8>)
    requires
        lex_cmp(a, b) == Ordering::Less,
        lex_cmp(b, c) == Ordering::Less,
    ensures
        lex_cmp(a, c) == Ordering::Less,
    decreases a.len(),
{
    if a.len() > 0 && b.len() > 0 && c.len() > 0 {
        if a[0] == b[0] && b[0] == c[0] {
            lemma_lex_cmp_trans(a.skip(1), b.skip(1), c.skip(1));
        }
    }
}

/// The relation `spec_cmp` is a total order on commitments with
/// well-formed payloads: exactly one of Less / Equal / Greater holds with
/// Equal meaning equality, Less and Greater are mirror images, and Less is
/// transitive.
pub proof fn lemma_commitment_order_total(a: CommitmentV, b: CommitmentV, c: CommitmentV)
    requires
        payload_wf(a.payload),
        payload_wf(b.payload),
        payload_wf(c.payload),
    ensures
        spec_cmp(a, b) == Ordering::Equal <==> a == b,
        spec_cmp(a, b) == Ordering::Less <==> spec_cmp(b, a) == Ordering::Greater,
        spec_cmp(a, b) == Ordering::Less && spec_cmp(b, c) == Ordering::Less ==> spec_cmp(a, c)
            == Ordering::Less,
{
    let ea = se_payload(a.payload);
    let eb = se_payload(b.payload);
    let ec = se_payload(c.payload);
    lemma_lex_cmp_eq(ea, eb);
    lemma_lex_cmp_dual(ea, eb);
    if ea == eb {
        lemma_sd_payload_roundtrip(a.payload, Seq::empty());
        lemma_sd_payload_roundtrip(b.payload, Seq::empty());
        assert(ea + Seq::<u8>::empty() =~= ea);
        assert(eb + Seq::<u8>::empty() =~= eb);
    }
    if spec_cmp(a, b) == Ordering::Less && spec_cmp(b, c) == Ordering::Less {
        if a.validator_set_id == b.validator_set_id && b.validator_set_id == c.validator_set_id
            && a.block_number == b.block_number && b.block_number == c.block_number {
            lemma_lex_cmp_trans(ea, eb, ec);
        }
    }
}

/// Compares two byte vectors lexicographically.
pub fn lex_compare(x: &Vec<u8>, y: &Vec<u8>) -> (r: Ordering)
    ensures
        r == lex_cmp(x@, y@),
{
    let mut i: usize = 0;
    let xl = x.len();
    let yl = y.len();
    let min: usize = if xl < yl {
        xl
    } else {
        yl
    };
    proof {
        assert(x@.skip(0) =~= x@);
        assert(y@.skip(0) =~= y@);
    }
    while i < min
        invariant
            i <= min,
            min <= x@.len(),
            min <= y@.len(),
            min == if x@.len() < y@.len() {
                x@.len()
            } else {
                y@.len()
            },
            lex_cmp(x@, y@) == lex_cmp(x@.skip(i as int), y@.skip(i as int)),
        decreases min - i,
    {
        if x[i] < y[i] {
            return Ordering::Less;
        }
        if x[i] > y[i] {
            return Ordering::Greater;
        }
        proof {
            assert(x@.skip(i as int).skip(1) =~= x@.skip(i + 1));
            assert(y@.skip(i as int).skip(1) =~= y@.skip(i + 1));
        }
        i = i + 1;
    }
    if xl == yl {
        Ordering::Equal
    } else if xl < yl {
        Ordering::Less
    } else {
        Ordering::Greater
    }
}

impl PartialEq for Commitment {
    /// Field-wise equality, payload blobs compared byte for byte.
    fn eq(&self, other: &Self) -> (r: bool) {
        self.validator_set_id == other.validator_set_id && self.block_number
            == other.block_number && crate::payload::payload_eq(&self.payload, &other.payload)
    }
}

impl vstd::std_specs::cmp::PartialEqSpecImpl for Commitment {
    open spec fn obeys_eq_spec() -> bool {
        true
    }

    open spec fn eq_spec(&self, other: &Self) -> bool {
        self@ == other@
    }
}

impl PartialOrd for Commitment {
    /// The total order of the data layer: validator-set id, then block
    /// number, then the encoded payload bytes.
    fn partial_cmp(&self, other: &Self) -> (r: Option<Ordering>) {
        if self.validator_set_id < other.validator_set_id {
            Some(Ordering::Less)
        } else if self.validator_set_id > other.validator_set_id {
            Some(Ordering::Greater)
        } else if self.block_number < other.block_number {
            Some(Ordering::Less)
        } else if self.block_number > other.block_number {
            Some(Ordering::Greater)
        } else {
            let ea = crate::payload::encode_payload_vec(&self.payload);
            let eb = crate::payload::encode_payload_vec(&other.payload);
            Some(lex_compare(&ea, &eb))
        }
    }
}

impl vstd::std_specs::cmp::PartialOrdSpecImpl for Commitment {
    open spec fn obeys_partial_cmp_spec() -> bool {
        true
    }

    open spec fn partial_cmp_spec(&self, other: &Self) -> Option<Ordering> {
        Some(spec_cmp(self@, other@))
    }
}

} // verus!
