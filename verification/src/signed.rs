//! Signed commitments and their size-efficient wire codec.
//!
//! In memory a signed commitment keeps a dense slot vector with one
//! optional signature per validator. On the wire it travels as a hidden
//! compact intermediate: a big-endian-within-byte bitfield saying which
//! slots are occupied, the significant bit count, and the present
//! signatures back to back. Packing and unpacking are proved to be exact
//! inverses, and the byte codec is proved to invert the encoder.
use vstd::prelude::*;
use crate::codec::{
    append_bytes, compact_bytes, copy_bytes, decode_blob, decode_compact, decode_le, encode_blob,
    encode_compact, encode_le, le_bytes, lemma_sd_blob_roundtrip, lemma_sd_compact_roundtrip,
    lemma_sd_le_roundtrip, pow256, sd_blob, sd_compact, sd_le, se_blob,
};
use crate::commitment::{
    lemma_sd_commitment_roundtrip, sd_commitment, se_commitment, Commitment, CommitmentV,
};
use crate::payload::payload_wf;
use crate::Error;

verus! {

/// Byte length of one signature on the wire.
pub const SIGNATURE_LEN: usize = 65;

/// A raw validator signature, carried as its 65 wire bytes.
#[derive(Debug, PartialEq, Eq)]
pub struct Signature {
    bytes: Vec<u8>,
}

impl View for Signature {
    type V = Seq<u8>;

    closed spec fn view(&self) -> Seq<u8> {
        self.bytes@
    }
}

impl Signature {
    #[verifier::type_invariant]
    spec fn inv(self) -> bool {
        self.bytes@.len() == 65
    }

    /// Wraps 65 raw signature bytes; any other length is rejected.
    pub fn from_bytes(bytes: Vec<u8>) -> (r: Option<Signature>)
        ensures
            bytes@.len() == 65 ==> (r matches Some(s) && s@ == bytes@),
            bytes@.len() != 65 ==> r is None,
    {
        if bytes.len() == SIGNATURE_LEN {
            Some(Signature { bytes })
        } else {
            None
        }
    }

    /// The wire bytes: always exactly 65 of them.
    pub fn as_bytes(&self) -> (r: &Vec<u8>)
        ensures
            r@ == self@,
            r@.len() == 65,
    {
        proof {
            use_type_invariant(self);
        }
        &self.bytes
    }

    /// A fresh copy of this signature.
    pub fn duplicate(&self) -> (r: Signature)
        ensures
            r@ == self@,
    {
        proof {
            use_type_invariant(self);
        }
        Signature { bytes: copy_bytes(&self.bytes) }
    }

}

/// The abstract value of a signed commitment: the commitment and one
/// optional signature per validator slot.
pub ghost struct SignedCommitmentV {
    pub commitment: CommitmentV,
    pub signatures: Seq<Option<Seq<u8>>>,
}

/// The abstract values of a slot vector.
pub open spec fn sig_opts_view(s: Seq<Option<Signature>>) -> Seq<Option<Seq<u8>>> {
    s.map_values(
        |o: Option<Signature>|
            match o {
                Some(sg) => Some(sg@),
                None => None,
            },
    )
}

/// A commitment together with the validators' signatures, slot i holding
/// the signature of validator i or nothing.
#[derive(Debug, PartialEq)]
pub struct SignedCommitment {
    /// The commitment signatures were collected for.
    pub commitment: Commitment,
    /// One slot per validator of the set, in validator-index order.
    pub signatures: Vec<Option<Signature>>,
}

impl View for SignedCommitment {
    type V = SignedCommitmentV;

    open spec fn view(&self) -> SignedCommitmentV {
        SignedCommitmentV {
            commitment: self.commitment@,
            signatures: sig_opts_view(self.signatures@),
        }
    }
}

/// How many slots hold a signature.
pub open spec fn count_occupied(sigs: Seq<Option<Seq<u8>>>) -> nat
    decreases sigs.len(),
{
    if sigs.len() == 0 {
        0
    } else {
        (if sigs[0] is Some {
            1nat
        } else {
            0nat
        }) + count_occupied(sigs.skip(1))
    }
}

/// The present signatures in slot order.
pub open spec fn compact_sigs(sigs: Seq<Option<Seq<u8>>>) -> Seq<Seq<u8>>
    decreases sigs.len(),
{
    if sigs.len() == 0 {
        Seq::empty()
    } else {
        match sigs[0] {
            Some(sg) => seq![sg] + compact_sigs(sigs.skip(1)),
            None => compact_sigs(sigs.skip(1)),
        }
    }
}

/// Bit i set iff slot i holds a signature.
pub open spec fn occupancy_bits(sigs: Seq<Option<Seq<u8>>>) -> Seq<bool> {
    sigs.map_values(|o: Option<Seq<u8>>| o is Some)
}

/// 1 for a set bit, 0 for a clear one.
pub open spec fn bv01(b: bool) -> u8 {
    if b {
        1
    } else {
        0
    }
}

/// Packs the first eight bits of s into one byte, most significant bit
/// first: the lowest-index bit lands in the highest bit of the byte.
pub open spec fn byte_of_bits(s: Seq<bool>) -> u8 {
    (128 * bv01(s[0]) + 64 * bv01(s[1]) + 32 * bv01(s[2]) + 16 * bv01(s[3]) + 8 * bv01(s[4]) + 4
        * bv01(s[5]) + 2 * bv01(s[6]) + bv01(s[7])) as u8
}

/// The eight bits of a byte, most significant first.
pub open spec fn bits_of_byte(v: u8) -> Seq<bool> {
    seq![
        (v >> 7) & 1 == 1,
        (v >> 6) & 1 == 1,
        (v >> 5) & 1 == 1,
        (v >> 4) & 1 == 1,
        (v >> 3) & 1 == 1,
        (v >> 2) & 1 == 1,
        (v >> 1) & 1 == 1,
        v & 1 == 1,
    ]
}

/// Packs a whole number of bytes worth of bits, eight at a time.
pub open spec fn pack_bits(p: Seq<bool>) -> Seq<u8>
    decreases p.len(),
{
    if p.len() < 8 {
        Seq::empty()
    } else {
        seq![byte_of_bits(p)] + pack_bits(p.skip(8))
    }
}

/// Expands every byte into its eight bits, most significant first.
pub open spec fn unpack_bits(q: Seq<u8>) -> Seq<bool>
    decreases q.len(),
{
    if q.len() == 0 {
        Seq::empty()
    } else {
        bits_of_byte(q[0]) + unpack_bits(q.skip(1))
    }
}

/// The number of padding bits the packer appends: always between 1 and 8,
/// so a slot count that is a multiple of eight gains one full zero byte.
pub open spec fn pad_len(n: nat) -> nat {
    (8 - n % 8) as nat
}

/// The occupancy bits padded with zero bits to a whole number of bytes.
pub open spec fn padded_bits(bits: Seq<bool>) -> Seq<bool> {
    bits + Seq::new(pad_len(bits.len()), |i: int| false)
}

/// The wire bitfield of a slot vector.
pub open spec fn spec_bitfield(sigs: Seq<Option<Seq<u8>>>) -> Seq<u8> {
    pack_bits(padded_bits(occupancy_bits(sigs)))
}

/// How many bits are set.
pub open spec fn count_ones(bits: Seq<bool>) -> nat
    decreases bits.len(),
{
    if bits.len() == 0 {
        0
    } else {
        (if bits[0] {
            1nat
        } else {
            0nat
        }) + count_ones(bits.skip(1))
    }
}

/// Rebuilds a slot vector: each set bit consumes the next signature, each
/// clear bit yields an empty slot.
pub open spec fn walk_bits(bits: Seq<bool>, sigs: Seq<Seq<u8>>) -> Seq<Option<Seq<u8>>>
    decreases bits.len(),
{
    if bits.len() == 0 {
        Seq::empty()
    } else if bits[0] {
        seq![Some(sigs[0])] + walk_bits(bits.skip(1), sigs.skip(1))
    } else {
        seq![None] + walk_bits(bits.skip(1), sigs)
    }
}

/// The abstract value of the compact wire intermediate.
pub ghost struct CompactV {
    pub commitment: CommitmentV,
    pub signatures_from: Seq<u8>,
    pub validator_set_len: nat,
    pub signatures_compact: Seq<Seq<u8>>,
}

/// Packing at the level of abstract values.
pub open spec fn spec_pack(sc: SignedCommitmentV) -> CompactV {
    CompactV {
        commitment: sc.commitment,
        signatures_from: spec_bitfield(sc.signatures),
        validator_set_len: sc.signatures.len(),
        signatures_compact: compact_sigs(sc.signatures),
    }
}

/// Unpacking at the level of abstract values. Fails when the bitfield is
/// too short for the claimed slot count or its popcount disagrees with the
/// number of signatures present.
pub open spec fn spec_unpack(cc: CompactV) -> Option<SignedCommitmentV> {
    let all = unpack_bits(cc.signatures_from);
    if cc.validator_set_len > all.len() {
        None
    } else {
        let bits = all.take(cc.validator_set_len as int);
        if count_ones(bits) != cc.signatures_compact.len() {
            None
        } else {
            Some(
                SignedCommitmentV {
                    commitment: cc.commitment,
                    signatures: walk_bits(bits, cc.signatures_compact),
                },
            )
        }
    }
}

proof fn lemma_bits_byte_roundtrip(c: Seq<bool>)
    requires
        c.len() == 8,
    ensures
        bits_of_byte(byte_of_bits(c)) == c,
{
    let x0 = bv01(c[0]);
    let x1 = bv01(c[1]);
    let x2 = bv01(c[2]);
    let x3 = bv01(c[3]);
    let x4 = bv01(c[4]);
    let x5 = bv01(c[5]);
    let x6 = bv01(c[6]);
    let x7 = bv01(c[7]);
    let v = byte_of_bits(c);
    assert((v >> 7) & 1 == x0 && (v >> 6) & 1 == x1 && (v >> 5) & 1 == x2 && (v >> 4) & 1 == x3
        && (v >> 3) & 1 == x4 && (v >> 2) & 1 == x5 && (v >> 1) & 1 == x6 && v & 1 == x7)
        by (bit_vector)
        requires
            x0 <= 1,
            x1 <= 1,
            x2 <= 1,
            x3 <= 1,
            x4 <= 1,
            x5 <= 1,
            x6 <= 1,
            x7 <= 1,
            v == 128 * x0 + 64 * x1 + 32 * x2 + 16 * x3 + 8 * x4 + 4 * x5 + 2 * x6 + x7,
    ;
    assert(bits_of_byte(v) =~= c);
}

proof fn lemma_unpack_pack_bits(p: Seq<bool>)
    requires
        p.len() % 8 == 0,
    ensures
        unpack_bits(pack_bits(p)) == p,
    decreases p.len(),
{
    if p.len() == 0 {
        assert(unpack_bits(pack_bits(p)) =~= p);
    } else {
        assert(p.len() >= 8);
        let rest = pack_bits(p.skip(8));
        assert(pack_bits(p) == seq![byte_of_bits(p)] + rest);
        assert((seq![byte_of_bits(p)] + rest).skip(1) =~= rest);
        assert(p.skip(8).len() % 8 == 0);
        lemma_unpack_pack_bits(p.skip(8));
        lemma_bits_byte_roundtrip(p.take(8));
        assert(byte_of_bits(p.take(8)) == byte_of_bits(p));
        assert(unpack_bits(pack_bits(p)) =~= p);
    }
}

proof fn lemma_occ_count(sigs: Seq<Option<Seq<u8>>>)
    ensures
        count_ones(occupancy_bits(sigs)) == count_occupied(sigs),
        compact_sigs(sigs).len() == count_occupied(sigs),
        count_occupied(sigs) <= sigs.len(),
    decreases sigs.len(),
{
    if sigs.len() > 0 {
        lemma_occ_count(sigs.skip(1));
        assert(occupancy_bits(sigs).skip(1) =~= occupancy_bits(sigs.skip(1)));
    }
}

proof fn lemma_walk_occ(sigs: Seq<Option<Seq<u8>>>)
    ensures
        walk_bits(occupancy_bits(sigs), compact_sigs(sigs)) == sigs,
    decreases sigs.len(),
{
    if sigs.len() > 0 {
        lemma_walk_occ(sigs.skip(1));
        let ob = occupancy_bits(sigs);
        assert(ob.skip(1) =~= occupancy_bits(sigs.skip(1)));
        if sigs[0] is Some {
            assert(compact_sigs(sigs).skip(1) =~= compact_sigs(sigs.skip(1)));
            assert(walk_bits(ob, compact_sigs(sigs)) =~= sigs);
        } else {
            assert(walk_bits(ob, compact_sigs(sigs)) =~= sigs);
        }
    } else {
        assert(walk_bits(occupancy_bits(sigs), compact_sigs(sigs)) =~= sigs);
    }
}

/// Unpacking inverts packing exactly: for every slot vector, the compact
/// intermediate reproduces the original signed commitment.
pub proof fn lemma_unpack_pack(sc: SignedCommitmentV)
    ensures
        spec_unpack(spec_pack(sc)) == Some(sc),
{
    let bits = occupancy_bits(sc.signatures);
    let padded = padded_bits(bits);
    assert(padded.len() % 8 == 0) by {
        let n = bits.len() as int;
        assert(n % 8 + (8 - n % 8) == 8);
    };
    lemma_unpack_pack_bits(padded);
    assert(padded.take(sc.signatures.len() as int) =~= bits);
    lemma_occ_count(sc.signatures);
    lemma_walk_occ(sc.signatures);
}

proof fn lemma_pack_bits_snoc(p: Seq<bool>, c: Seq<bool>)
    requires
        p.len() % 8 == 0,
        c.len() == 8,
    ensures
        pack_bits(p + c) == pack_bits(p) + seq![byte_of_bits(c)],
    decreases p.len(),
{
    reveal_with_fuel(pack_bits, 3);
    if p.len() == 0 {
        assert(p + c =~= c);
        assert(c.skip(8) =~= Seq::<bool>::empty());
        assert(pack_bits(p + c) =~= pack_bits(p) + seq![byte_of_bits(c)]);
    } else {
        assert(p.len() >= 8);
        assert((p + c).skip(8) =~= p.skip(8) + c);
        assert(p.skip(8).len() % 8 == 0);
        lemma_pack_bits_snoc(p.skip(8), c);
        assert(byte_of_bits(p + c) == byte_of_bits(p));
        assert(pack_bits(p + c) =~= pack_bits(p) + seq![byte_of_bits(c)]);
    }
}

proof fn lemma_unpack_bits_snoc(q: Seq<u8>, b: u8)
    ensures
        unpack_bits(q.push(b)) == unpack_bits(q) + bits_of_byte(b),
    decreases q.len(),
{
    reveal_with_fuel(unpack_bits, 3);
    if q.len() == 0 {
        assert(q.push(b).skip(1) =~= Seq::<u8>::empty());
        assert(unpack_bits(q.push(b)) =~= unpack_bits(q) + bits_of_byte(b));
    } else {
        assert(q.push(b).skip(1) =~= q.skip(1).push(b));
        lemma_unpack_bits_snoc(q.skip(1), b);
        assert(q.push(b)[0] == q[0]);
        assert(unpack_bits(q.push(b)) =~= unpack_bits(q) + bits_of_byte(b));
    }
}

/// The compact wire intermediate of a signed commitment. Only the codec
/// builds and consumes values of this type: it never appears in the
/// in-memory interface, so no caller can feed a non-canonical compact
/// form back in.
pub struct CompactSignedCommitment {
    /// The commitment, unchanged from the uncompressed form.
    commitment: Commitment,
    /// The occupancy bitfield, most significant bit first within a byte.
    signatures_from: Vec<u8>,
    /// Number of validator slots, and so of significant bits.
    validator_set_len: u32,
    /// The present signatures in slot order.
    signatures_compact: Vec<Signature>,
}

impl View for CompactSignedCommitment {
    type V = CompactV;

    closed spec fn view(&self) -> CompactV {
        CompactV {
            commitment: self.commitment@,
            signatures_from: self.signatures_from@,
            validator_set_len: self.validator_set_len as nat,
            signatures_compact: self.signatures_compact@.map_values(|sg: Signature| sg@),
        }
    }
}

impl CompactSignedCommitment {
    /// Packs a signed commitment into the compact form: materialize the
    /// occupancy bits, pad them to whole bytes with 1..=8 zero bits, pack
    /// them most-significant-bit first, and gather the present signatures.
    pub(crate) fn pack(signed: &SignedCommitment) -> (r: CompactSignedCommitment)
        requires
            signed@.signatures.len() <= u32::MAX,
        ensures
            r@ == spec_pack(signed@),
    {
        let ghost svs = signed@.signatures;
        let n = signed.signatures.len();
        let mut bits: Vec<bool> = Vec::new();
        let mut i: usize = 0;
        while i < n
            invariant
                i <= n,
                n == signed.signatures@.len(),
                svs == sig_opts_view(signed.signatures@),
                bits@ == occupancy_bits(svs.take(i as int)),
            decreases n - i,
        {
            proof {
                assert(svs[i as int] == match signed.signatures@[i as int] {
                    Some(sg) => Some(sg@),
                    None => None::<Seq<u8>>,
                });
            }
            bits.push(signed.signatures[i].is_some());
            i = i + 1;
            assert(bits@ =~= occupancy_bits(svs.take(i as int)));
        }
        proof {
            assert(svs.take(n as int) =~= svs);
        }
        let excess: usize = 8 - (n % 8);
        let mut j: usize = 0;
        while j < excess
            invariant
                j <= excess,
                excess == pad_len(svs.len()),
                bits@ == occupancy_bits(svs) + Seq::new(j as nat, |k: int| false),
            decreases excess - j,
        {
            bits.push(false);
            j = j + 1;
            assert(bits@ =~= occupancy_bits(svs) + Seq::new(j as nat, |k: int| false));
        }
        proof {
            assert(bits@ =~= padded_bits(occupancy_bits(svs)));
            assert(bits@.len() % 8 == 0) by {
                let m = occupancy_bits(svs).len() as int;
                assert(m % 8 + (8 - m % 8) == 8);
            };
        }
        let mut signatures_from: Vec<u8> = Vec::new();
        let mut c: usize = 0;
        while c < bits.len()
            invariant
                c <= bits@.len(),
                c % 8 == 0,
                bits@.len() % 8 == 0,
                signatures_from@ == pack_bits(bits@.take(c as int)),
            decreases bits@.len() - c,
        {
            let v: u8 = (if bits[c] { 128 } else { 0 })
                + (if bits[c + 1] { 64 } else { 0 })
                + (if bits[c + 2] { 32 } else { 0 })
                + (if bits[c + 3] { 16 } else { 0 })
                + (if bits[c + 4] { 8 } else { 0 })
                + (if bits[c + 5] { 4 } else { 0 })
                + (if bits[c + 6] { 2 } else { 0 })
                + (if bits[c + 7] { 1 } else { 0 });
            proof {
                let chunk = bits@.subrange(c as int, c + 8);
                assert(v == byte_of_bits(chunk));
                lemma_pack_bits_snoc(bits@.take(c as int), chunk);
                assert(bits@.take(c as int) + chunk =~= bits@.take(c + 8));
            }
            signatures_from.push(v);
            c = c + 8;
        }
        proof {
            assert(bits@.take(c as int) =~= bits@);
        }
        let mut signatures_compact: Vec<Signature> = Vec::new();
        let mut k: usize = 0;
        while k < n
            invariant
                k <= n,
                n == signed.signatures@.len(),
                svs == sig_opts_view(signed.signatures@),
                signatures_compact@.map_values(|sg: Signature| sg@) == compact_sigs(
                    svs.take(k as int),
                ),
            decreases n - k,
        {
            proof {
                assert(svs[k as int] == match signed.signatures@[k as int] {
                    Some(sg) => Some(sg@),
                    None => None::<Seq<u8>>,
                });
                lemma_compact_sigs_snoc(svs.take(k as int), svs[k as int]);
                assert(svs.take(k as int).push(svs[k as int]) =~= svs.take(k + 1));
            }
            match &signed.signatures[k] {
                Some(sg) => {
                    signatures_compact.push(sg.duplicate());
                    proof {
                        assert(signatures_compact@.map_values(|sg: Signature| sg@) =~= compact_sigs(
                            svs.take(k + 1),
                        ));
                    }
                },
                None => {
                    proof {
                        assert(signatures_compact@.map_values(|sg: Signature| sg@) =~= compact_sigs(
                            svs.take(k + 1),
                        ));
                    }
                },
            }
            k = k + 1;
        }
        proof {
            assert(svs.take(n as int) =~= svs);
        }
        CompactSignedCommitment {
            commitment: signed.commitment.duplicate(),
            signatures_from,
            validator_set_len: n as u32,
            signatures_compact,
        }
    }

    /// Unpacks the compact form back into the dense slot vector. Fails
    /// when the bitfield cannot cover the claimed slot count or its
    /// popcount disagrees with the signatures present.
    #[verifier::rlimit(50)]
    pub(crate) fn unpack(self) -> (r: Result<SignedCommitment, Error>)
        ensures
            match spec_unpack(self@) {
                Some(scv) => r matches Ok(sc) && sc@ == scv,
                None => r == Err::<SignedCommitment, Error>(Error::MalformedCompactCommitment),
            },
    {
        let ghost cc = self@;
        let CompactSignedCommitment { commitment, signatures_from, validator_set_len, signatures_compact } =
            self;
        let mut bits: Vec<bool> = Vec::new();
        let mut i: usize = 0;
        proof {
            assert(signatures_from@.take(0) =~= Seq::<u8>::empty());
        }
        while i < signatures_from.len()
            invariant
                i <= signatures_from@.len(),
                bits@ == unpack_bits(signatures_from@.take(i as int)),
                bits@.len() == 8 * i,
            decreases signatures_from@.len() - i,
        {
            let b = signatures_from[i];
            push_byte_bits(&mut bits, b);
            proof {
                lemma_unpack_bits_snoc(signatures_from@.take(i as int), b);
                assert(signatures_from@.take(i as int).push(b) =~= signatures_from@.take(i + 1));
            }
            i = i + 1;
        }
        proof {
            assert(signatures_from@.take(signatures_from@.len() as int) =~= signatures_from@);
        }
        let ghost all = unpack_bits(signatures_from@);
        let n = validator_set_len as usize;
        if n > bits.len() {
            return Err(Error::MalformedCompactCommitment);
        }
        bits.truncate(n);
        proof {
            assert(bits@ =~= all.take(n as int));
        }
        let ghost sgview = signatures_compact@.map_values(|sg: Signature| sg@);
        let ones = count_ones_exec(&bits);
        if ones != signatures_compact.len() {
            proof {
                assert(sgview.len() == signatures_compact@.len());
            }
            return Err(Error::MalformedCompactCommitment);
        }
        proof {
            assert(sgview.len() == signatures_compact@.len());
            assert(bits@.skip(0) =~= bits@);
            assert(sgview.skip(0) =~= sgview);
        }
        let slots = walk_rec(&bits, 0, &signatures_compact, 0);
        let sc = SignedCommitment { commitment, signatures: slots };
        proof {
            assert(sc@ == spec_unpack(cc).unwrap());
        }
        Ok(sc)
    }
}

proof fn lemma_compact_sigs_snoc(s: Seq<Option<Seq<u8>>>, o: Option<Seq<u8>>)
    ensures
        compact_sigs(s.push(o)) == compact_sigs(s) + (match o {
            Some(sg) => seq![sg],
            None => Seq::empty(),
        }),
    decreases s.len(),
{
    reveal_with_fuel(compact_sigs, 3);
    if s.len() == 0 {
        assert(s.push(o).skip(1) =~= Seq::<Option<Seq<u8>>>::empty());
        assert(compact_sigs(s.push(o)) =~= compact_sigs(s) + (match o {
            Some(sg) => seq![sg],
            None => Seq::empty(),
        }));
    } else {
        assert(s.push(o).skip(1) =~= s.skip(1).push(o));
        lemma_compact_sigs_snoc(s.skip(1), o);
        assert(s.push(o)[0] == s[0]);
        assert(compact_sigs(s.push(o)) =~= compact_sigs(s) + (match o {
            Some(sg) => seq![sg],
            None => Seq::empty(),
        }));
    }
}

/// Appends the eight bits of one byte, most significant first.
fn push_byte_bits(bits: &mut Vec<bool>, b: u8)
    ensures
        final(bits)@ == old(bits)@ + bits_of_byte(b),
{
    let ghost pre = bits@;
    bits.push((b >> 7) & 1 == 1);
    bits.push((b >> 6) & 1 == 1);
    bits.push((b >> 5) & 1 == 1);
    bits.push((b >> 4) & 1 == 1);
    bits.push((b >> 3) & 1 == 1);
    bits.push((b >> 2) & 1 == 1);
    bits.push((b >> 1) & 1 == 1);
    bits.push(b & 1 == 1);
    assert(bits@ =~= pre + bits_of_byte(b));
}

/// Counts the set bits of a bit vector.
fn count_ones_exec(bits: &Vec<bool>) -> (r: usize)
    ensures
        r == count_ones(bits@),
        r <= bits@.len(),
{
    let mut r: usize = 0;
    let mut i: usize = 0;
    proof {
        assert(bits@.skip(0) =~= bits@);
    }
    while i < bits.len()
        invariant
            i <= bits@.len(),
            r <= i,
            count_ones(bits@) == r + count_ones(bits@.skip(i as int)),
        decreases bits@.len() - i,
    {
        proof {
            assert(bits@.skip(i as int).skip(1) =~= bits@.skip(i + 1));
            assert(bits@.skip(i as int)[0] == bits@[i as int]);
        }
        if bits[i] {
            r = r + 1;
        }
        i = i + 1;
    }
    proof {
        assert(bits@.skip(bits@.len() as int) =~= Seq::<bool>::empty());
    }
    r
}

/// Rebuilds the slot suffix from bit index i on, consuming signatures
/// from index k on.
fn walk_rec(bits: &Vec<bool>, i: usize, sigs: &Vec<Signature>, k: usize) -> (r: Vec<
    Option<Signature>,
>)
    requires
        i <= bits@.len(),
        k <= sigs@.len(),
        count_ones(bits@.skip(i as int)) == sigs@.len() - k,
    ensures
        sig_opts_view(r@) == walk_bits(
            bits@.skip(i as int),
            sigs@.map_values(|sg: Signature| sg@).skip(k as int),
        ),
    decreases bits@.len() - i,
{
    let ghost sv = sigs@.map_values(|sg: Signature| sg@);
    if i == bits.len() {
        let r: Vec<Option<Signature>> = Vec::new();
        proof {
            assert(sig_opts_view(r@) =~= walk_bits(bits@.skip(i as int), sv.skip(k as int)));
        }
        r
    } else {
        let sl = sigs.len();
        proof {
            assert(bits@.skip(i as int).skip(1) =~= bits@.skip(i + 1));
            assert(bits@.skip(i as int)[0] == bits@[i as int]);
        }
        if bits[i] {
            proof {
                assert(count_ones(bits@.skip(i as int)) == 1 + count_ones(bits@.skip(i + 1)));
                assert(count_ones(bits@.skip(i + 1)) == sigs@.len() - k - 1);
                assert(k < sl);
                assert(sv.skip(k as int)[0] == sv[k as int]);
                assert(sv[k as int] == sigs@[k as int]@);
                assert(sv.skip(k as int).skip(1) =~= sv.skip(k + 1));
            }
            let sg = sigs[k].duplicate();
            let mut rest = walk_rec(bits, i + 1, sigs, k + 1);
            rest.insert(0, Some(sg));
            proof {
                assert(sig_opts_view(rest@) =~= walk_bits(bits@.skip(i as int), sv.skip(k as int)));
            }
            rest
        } else {
            let mut rest = walk_rec(bits, i + 1, sigs, k);
            rest.insert(0, None);
            proof {
                assert(sig_opts_view(rest@) =~= walk_bits(bits@.skip(i as int), sv.skip(k as int)));
            }
            rest
        }
    }
}

/// Wire form of the present signatures: their bytes back to back.
pub open spec fn se_sigs(sigs: Seq<Seq<u8>>) -> Seq<u8>
    decreases sigs.len(),
{
    if sigs.len() == 0 {
        Seq::empty()
    } else {
        sigs[0] + se_sigs(sigs.skip(1))
    }
}

/// Reads n signatures of 65 bytes each from the front of s.
pub open spec fn sd_sigs(s: Seq<u8>, n: nat) -> Option<(Seq<Seq<u8>>, int)>
    decreases n,
{
    if n == 0 {
        Some((Seq::empty(), 0))
    } else if s.len() < 65 {
        None
    } else {
        match sd_sigs(s.skip(65), (n - 1) as nat) {
            None => None,
            Some((r, c)) => Some((seq![s.subrange(0, 65)] + r, c + 65)),
        }
    }
}

/// Wire form of the compact intermediate: commitment, length-prefixed
/// bitfield, 4-byte slot count, compact count of signatures, signatures.
pub open spec fn se_compact(cc: CompactV) -> Seq<u8> {
    se_commitment(cc.commitment) + se_blob(cc.signatures_from) + le_bytes(cc.validator_set_len, 4)
        + compact_bytes(cc.signatures_compact.len()) + se_sigs(cc.signatures_compact)
}

/// Reads one compact intermediate from the front of s.
pub open spec fn sd_compact_signed(s: Seq<u8>) -> Option<(CompactV, int)> {
    match sd_commitment(s) {
        None => None,
        Some((cv, c1)) => match sd_blob(s.skip(c1)) {
            None => None,
            Some((bf, c2)) => match sd_le(s.skip(c1 + c2), 4) {
                None => None,
                Some((n, _)) => match sd_compact(s.skip(c1 + c2 + 4)) {
                    None => None,
                    Some((cnt, c4)) => match sd_sigs(s.skip(c1 + c2 + 4 + c4), cnt) {
                        None => None,
                        Some((sgs, c5)) => Some(
                            (
                                CompactV {
                                    commitment: cv,
                                    signatures_from: bf,
                                    validator_set_len: n,
                                    signatures_compact: sgs,
                                },
                                c1 + c2 + 4 + c4 + c5,
                            ),
                        ),
                    },
                },
            },
        },
    }
}

/// Wire form of a signed commitment: the packed compact intermediate.
pub open spec fn se_signed(sc: SignedCommitmentV) -> Seq<u8> {
    se_compact(spec_pack(sc))
}

/// Reads one signed commitment from the front of s: the compact
/// intermediate, unpacked.
pub open spec fn sd_signed(s: Seq<u8>) -> Option<(SignedCommitmentV, int)> {
    match sd_compact_signed(s) {
        None => None,
        Some((cc, c)) => match spec_unpack(cc) {
            None => None,
            Some(scv) => Some((scv, c)),
        },
    }
}

/// A signed commitment fits the wire format: well-formed payload, a slot
/// count with room in 32 bits, and 65-byte signatures.
pub open spec fn signed_wf(sc: SignedCommitmentV) -> bool {
    &&& payload_wf(sc.commitment.payload)
    &&& sc.signatures.len() < 0x1_0000_0000
    &&& forall|i: int|
        0 <= i < sc.signatures.len() ==> ((#[trigger] sc.signatures[i]) matches Some(sg)
            ==> sg.len() == 65)
}

proof fn lemma_pack_bits_len(p: Seq<bool>)
    requires
        p.len() % 8 == 0,
    ensures
        pack_bits(p).len() * 8 == p.len(),
    decreases p.len(),
{
    if p.len() > 0 {
        assert(p.len() >= 8);
        assert(p.skip(8).len() % 8 == 0);
        lemma_pack_bits_len(p.skip(8));
    }
}

proof fn lemma_compact_sigs_wf(s: Seq<Option<Seq<u8>>>)
    requires
        forall|i: int|
            0 <= i < s.len() ==> ((#[trigger] s[i]) matches Some(sg) ==> sg.len() == 65),
    ensures
        forall|j: int| 0 <= j < compact_sigs(s).len() ==> (#[trigger] compact_sigs(s)[j]).len()
            == 65,
    decreases s.len(),
{
    if s.len() > 0 {
        assert forall|i: int| 0 <= i < s.skip(1).len() implies ((#[trigger] s.skip(1)[i]) matches
            Some(sg) ==> sg.len() == 65) by {
            assert(s.skip(1)[i] == s[i + 1]);
        };
        lemma_compact_sigs_wf(s.skip(1));
        match s[0] {
            Some(sg) => {
                assert(compact_sigs(s) == seq![sg] + compact_sigs(s.skip(1)));
                assert forall|j: int| 0 <= j < compact_sigs(s).len() implies (
                #[trigger] compact_sigs(s)[j]).len() == 65 by {
                    if j > 0 {
                        assert(compact_sigs(s)[j] == compact_sigs(s.skip(1))[j - 1]);
                    }
                };
            },
            None => {},
        }
    }
}

proof fn lemma_sd_sigs_roundtrip(sigs: Seq<Seq<u8>>, rest: Seq<u8>)
    requires
        forall|j: int| 0 <= j < sigs.len() ==> (#[trigger] sigs[j]).len() == 65,
    ensures
        sd_sigs(se_sigs(sigs) + rest, sigs.len()) == Some((sigs, se_sigs(sigs).len() as int)),
    decreases sigs.len(),
{
    if sigs.len() > 0 {
        let s = se_sigs(sigs) + rest;
        let tail = sigs.skip(1);
        assert forall|j: int| 0 <= j < tail.len() implies (#[trigger] tail[j]).len() == 65 by {
            assert(tail[j] == sigs[j + 1]);
        };
        assert(s =~= sigs[0] + (se_sigs(tail) + rest));
        assert(s.skip(65) =~= se_sigs(tail) + rest);
        lemma_sd_sigs_roundtrip(tail, rest);
        assert(s.subrange(0, 65) =~= sigs[0]);
        assert(seq![sigs[0]] + tail =~= sigs);
    }
}

/// Decoding inverts encoding: every well-formed signed commitment comes
/// back from its own wire bytes, empty slots included, whatever follows.
#[verifier::rlimit(100)]
#[verifier::spinoff_prover]
proof fn lemma_sd_compact_signed_roundtrip(cc: CompactV, rest: Seq<u8>)
    requires
        payload_wf(cc.commitment.payload),
        cc.signatures_from.len() < 0x1_0000_0000,
        cc.validator_set_len < 0x1_0000_0000,
        cc.signatures_compact.len() < 0x1_0000_0000,
        forall|j: int| 0 <= j < cc.signatures_compact.len() ==> (#[trigger] cc.signatures_compact[
            j]).len() == 65,
    ensures
        sd_compact_signed(se_compact(cc) + rest) == Some((cc, se_compact(cc).len() as int)),
{
    let cb = se_commitment(cc.commitment);
    let bb = se_blob(cc.signatures_from);
    let lb = le_bytes(cc.validator_set_len, 4);
    let nb = compact_bytes(cc.signatures_compact.len());
    let gb = se_sigs(cc.signatures_compact);
    let s = se_compact(cc) + rest;
    let t4 = gb + rest;
    let t3 = nb + t4;
    let t2 = lb + t3;
    let t1 = bb + t2;
    let c1 = cb.len() as int;
    let c2 = bb.len() as int;
    let c4 = nb.len() as int;
    assert(s =~= cb + t1);
    assert((cb + t1).skip(c1) =~= t1);
    lemma_sd_commitment_roundtrip(cc.commitment, t1);
    assert((bb + t2).skip(c2) =~= t2);
    assert(s.skip(c1).skip(c2) =~= s.skip(c1 + c2));
    lemma_sd_blob_roundtrip(cc.signatures_from, t2);
    assert(pow256(4) == 0x1_0000_0000) by {
        reveal_with_fuel(pow256, 5);
    };
    crate::codec::lemma_le_bytes_len(cc.validator_set_len, 4);
    lemma_sd_le_roundtrip(cc.validator_set_len, 4, t3);
    assert((lb + t3).skip(4) =~= t3);
    assert(s.skip(c1 + c2).skip(4) =~= s.skip(c1 + c2 + 4));
    lemma_sd_compact_roundtrip(cc.signatures_compact.len(), t4);
    assert((nb + t4).skip(c4) =~= t4);
    assert(s.skip(c1 + c2 + 4).skip(c4) =~= s.skip(c1 + c2 + 4 + c4));
    lemma_sd_sigs_roundtrip(cc.signatures_compact, rest);
}

/// Decoding inverts encoding: every well-formed signed commitment comes
/// back from its own wire bytes, empty slots included, whatever follows.
#[verifier::rlimit(100)]
#[verifier::spinoff_prover]
pub proof fn lemma_sd_signed_roundtrip(sc: SignedCommitmentV, rest: Seq<u8>)
    requires
        signed_wf(sc),
    ensures
        sd_signed(se_signed(sc) + rest) == Some((sc, se_signed(sc).len() as int)),
{
    let cc = spec_pack(sc);
    let bits = occupancy_bits(sc.signatures);
    let padded = padded_bits(bits);
    assert(padded.len() % 8 == 0) by {
        let m = bits.len() as int;
        assert(m % 8 + (8 - m % 8) == 8);
    };
    lemma_pack_bits_len(padded);
    lemma_occ_count(sc.signatures);
    lemma_compact_sigs_wf(sc.signatures);
    lemma_sd_compact_signed_roundtrip(cc, rest);
    lemma_unpack_pack(sc);
}

/// Appends the wire bytes of the signatures from index i on.
fn encode_sigs(sigs: &Vec<Signature>, i: usize, out: &mut Vec<u8>)
    requires
        i <= sigs@.len(),
    ensures
        final(out)@ == old(out)@ + se_sigs(sigs@.map_values(|sg: Signature| sg@).skip(i as int)),
    decreases sigs@.len() - i,
{
    let ghost sv = sigs@.map_values(|sg: Signature| sg@);
    if i == sigs.len() {
        assert(out@ =~= out@ + se_sigs(sv.skip(i as int)));
    } else {
        let ghost pre = out@;
        append_bytes(out, sigs[i].as_bytes());
        proof {
            assert(sv.skip(i as int)[0] == sv[i as int]);
            assert(sv[i as int] == sigs@[i as int]@);
        }
        encode_sigs(sigs, i + 1, out);
        proof {
            assert(sv.skip(i as int).skip(1) =~= sv.skip(i + 1));
            assert(out@ =~= pre + se_sigs(sv.skip(i as int)));
        }
    }
}

impl CompactSignedCommitment {
    /// Appends the wire form of the compact intermediate.
    fn encode_into(&self, out: &mut Vec<u8>)
        requires
            self@.signatures_from.len() < 0x1_0000_0000,
            self@.signatures_compact.len() < 0x1_0000_0000,
        ensures
            final(out)@ == old(out)@ + se_compact(self@),
    {
        let ghost pre = out@;
        self.commitment.encode_into(out);
        encode_blob(&self.signatures_from, out);
        encode_le(self.validator_set_len as u128, 4, out);
        proof {
            assert(self@.signatures_compact.len() == self.signatures_compact@.len());
        }
        encode_compact(self.signatures_compact.len() as u32, out);
        encode_sigs(&self.signatures_compact, 0, out);
        proof {
            let sv = self.signatures_compact@.map_values(|sg: Signature| sg@);
            assert(sv.skip(0) =~= sv);
            assert(out@ =~= pre + se_compact(self@));
        }
    }
}

impl CompactSignedCommitment {
    /// Reads one compact intermediate starting at pos.
    #[verifier::rlimit(100)]
    #[verifier::spinoff_prover]
    fn decode_at(s: &Vec<u8>, pos: usize) -> (r: Option<(CompactSignedCommitment, usize)>)
        requires
            pos <= s@.len(),
        ensures
            match r {
                Some((cc, p)) => {
                    &&& sd_compact_signed(s@.skip(pos as int)) == Some((cc@, (p - pos) as int))
                    &&& pos <= p <= s@.len()
                },
                None => sd_compact_signed(s@.skip(pos as int)) is None,
            },
    {
        let (c, p1) = match Commitment::decode_at(s, pos) {
            None => {
                return None;
            },
            Some(x) => x,
        };
        proof {
            assert(s@.skip(pos as int).skip((p1 - pos) as int) =~= s@.skip(p1 as int));
        }
        let (bf, p2) = match decode_blob(s, p1) {
            None => {
                return None;
            },
            Some(x) => x,
        };
        proof {
            assert(s@.skip(pos as int).skip((p1 - pos) + (p2 - p1)) =~= s@.skip(p2 as int));
        }
        let (nle, p3) = match decode_le(s, p2, 4) {
            None => {
                return None;
            },
            Some(x) => x,
        };
        proof {
            assert(pow256(4) == 0x1_0000_0000) by {
                reveal_with_fuel(pow256, 5);
            };
            assert(s@.skip(pos as int).skip((p2 - pos) + 4) =~= s@.skip(p3 as int));
        }
        let (cnt, p4) = match decode_compact(s, p3) {
            None => {
                return None;
            },
            Some(x) => x,
        };
        proof {
            assert(s@.skip(pos as int).skip((p3 - pos) + (p4 - p3)) =~= s@.skip(p4 as int));
        }
        let (sigs, p5) = match decode_sigs(s, p4, cnt) {
            None => {
                return None;
            },
            Some(x) => x,
        };
        let compact = CompactSignedCommitment {
            commitment: c,
            signatures_from: bf,
            validator_set_len: nle as u32,
            signatures_compact: sigs,
        };
        Some((compact, p5))
    }
}

/// Reads n signatures starting at pos.
fn decode_sigs(s: &Vec<u8>, pos: usize, n: u32) -> (r: Option<(Vec<Signature>, usize)>)
    requires
        pos <= s@.len(),
    ensures
        match r {
            Some((sigs, p)) => {
                &&& sd_sigs(s@.skip(pos as int), n as nat) == Some(
                    (sigs@.map_values(|sg: Signature| sg@), (p - pos) as int),
                )
                &&& pos <= p <= s@.len()
            },
            None => sd_sigs(s@.skip(pos as int), n as nat) is None,
        },
    decreases n,
{
    if n == 0 {
        let sigs: Vec<Signature> = Vec::new();
        proof {
            assert(sigs@.map_values(|sg: Signature| sg@) =~= Seq::<Seq<u8>>::empty());
        }
        Some((sigs, pos))
    } else if s.len() - pos < 65 {
        None
    } else {
        let mut bytes: Vec<u8> = Vec::new();
        let mut i: usize = 0;
        while i < 65
            invariant
                i <= 65,
                pos + 65 <= s@.len(),
                s@.len() <= usize::MAX,
                bytes@ == s@.subrange(pos as int, pos + i),
            decreases 65 - i,
        {
            bytes.push(s[pos + i]);
            i = i + 1;
            assert(bytes@ =~= s@.subrange(pos as int, pos + i));
        }
        let sg = Signature { bytes };
        proof {
            assert(s@.skip(pos as int).subrange(0, 65) =~= s@.subrange(pos as int, pos + 65));
            assert(s@.skip(pos as int).skip(65) =~= s@.skip(pos + 65));
        }
        match decode_sigs(s, pos + 65, n - 1) {
            None => None,
            Some((mut sigs, p)) => {
                let ghost prev = sigs@;
                sigs.insert(0, sg);
                proof {
                    let newv = sigs@.map_values(|sg2: Signature| sg2@);
                    let target = seq![s@.skip(pos as int).subrange(0, 65)] + prev.map_values(
                        |sg2: Signature| sg2@,
                    );
                    assert forall|j: int| 0 <= j < newv.len() implies #[trigger] newv[j]
                        == target[j] by {
                        assert(newv[j] == sigs@[j]@);
                        if j > 0 {
                            assert(sigs@[j] == prev[j - 1]);
                            assert(prev.map_values(|sg2: Signature| sg2@)[j - 1] == prev[j - 1]@);
                        }
                    };
                    assert(newv =~= target);
                }
                Some((sigs, p))
            },
        }
    }
}

impl SignedCommitment {
    /// Return the number of collected signatures.
    pub fn signature_count(&self) -> (r: usize)
        ensures
            r == count_occupied(self@.signatures),
    {
        let ghost svs = self@.signatures;
        let mut r: usize = 0;
        let mut i: usize = 0;
        proof {
            assert(svs.skip(0) =~= svs);
        }
        while i < self.signatures.len()
            invariant
                i <= self.signatures@.len(),
                r <= i,
                svs == sig_opts_view(self.signatures@),
                count_occupied(svs) == r + count_occupied(svs.skip(i as int)),
            decreases self.signatures@.len() - i,
        {
            proof {
                assert(svs.skip(i as int).skip(1) =~= svs.skip(i + 1));
                assert(svs.skip(i as int)[0] == svs[i as int]);
                assert(svs[i as int] == match self.signatures@[i as int] {
                    Some(sg) => Some(sg@),
                    None => None::<Seq<u8>>,
                });
            }
            if self.signatures[i].is_some() {
                r = r + 1;
            }
            i = i + 1;
        }
        proof {
            assert(svs.skip(svs.len() as int) =~= Seq::<Option<Seq<u8>>>::empty());
        }
        r
    }

    /// Encodes through the hidden compact intermediate: the uncompressed
    /// slot vector never appears on the wire.
    pub fn encode(&self) -> (r: Vec<u8>)
        requires
            self@.signatures.len() <= u32::MAX,
        ensures
            r@ == se_signed(self@),
    {
        let compact = CompactSignedCommitment::pack(self);
        proof {
            let bits = occupancy_bits(self@.signatures);
            let padded = padded_bits(bits);
            assert(padded.len() % 8 == 0) by {
                let m = bits.len() as int;
                assert(m % 8 + (8 - m % 8) == 8);
            };
            lemma_pack_bits_len(padded);
            lemma_occ_count(self@.signatures);
        }
        let mut out: Vec<u8> = Vec::new();
        compact.encode_into(&mut out);
        assert(out@ =~= se_signed(self@));
        out
    }

    /// Reads one signed commitment starting at pos.
    /// Reads one signed commitment starting at pos.
    pub fn decode_at(s: &Vec<u8>, pos: usize) -> (r: Option<(SignedCommitment, usize)>)
        requires
            pos <= s@.len(),
        ensures
            match r {
                Some((sc, p)) => {
                    &&& sd_signed(s@.skip(pos as int)) == Some((sc@, (p - pos) as int))
                    &&& pos <= p <= s@.len()
                },
                None => sd_signed(s@.skip(pos as int)) is None,
            },
    {
        match CompactSignedCommitment::decode_at(s, pos) {
            None => None,
            Some((compact, p5)) => match compact.unpack() {
                Ok(sc) => Some((sc, p5)),
                Err(_) => None,
            },
        }
    }

    /// Decodes a signed commitment from the front of bytes; trailing
    /// bytes are ignored, as the wire convention allows concatenated
    /// values.
    pub fn decode(bytes: &Vec<u8>) -> (r: Result<SignedCommitment, Error>)
        ensures
            match sd_signed(bytes@) {
                Some((scv, _consumed)) => r matches Ok(sc) && sc@ == scv,
                None => r == Err::<SignedCommitment, Error>(Error::MalformedCompactCommitment),
            },
    {
        proof {
            assert(bytes@.skip(0) =~= bytes@);
        }
        match Self::decode_at(bytes, 0) {
            Some((sc, _)) => Ok(sc),
            None => Err(Error::MalformedCompactCommitment),
        }
    }
}

} // verus!
