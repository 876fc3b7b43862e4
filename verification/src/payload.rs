//! The payload of a commitment: an ordered bundle of tagged opaque byte
//! blobs. Entries carry a 2-byte tag and a variable-length value; the wire
//! form is a compact-length-prefixed sequence of `tag || blob` entries.
use vstd::prelude::*;
use crate::codec::{
    compact_bytes, decode_blob, decode_compact, encode_blob, encode_compact,
    lemma_sd_blob_roundtrip, lemma_sd_compact_roundtrip, sd_blob, sd_compact, se_blob,
};

verus! {

/// An entry tag: two raw bytes identifying what a payload blob carries.
pub type PayloadId = (u8, u8);

/// Tag of the MMR-root entry conventionally present in commitments.
pub const MMR_ROOT_ID: PayloadId = (0x6d, 0x68);

/// The two tag bytes as a byte sequence, the shape they take on the wire.
pub open spec fn id_view(id: PayloadId) -> Seq<u8> {
    seq![id.0, id.1]
}

/// The abstract value of an entry list: per entry, the tag bytes and the
/// blob bytes.
pub open spec fn entries_view(es: Seq<(PayloadId, Vec<u8>)>) -> Seq<(Seq<u8>, Seq<u8>)> {
    es.map_values(|e: (PayloadId, Vec<u8>)| (id_view(e.0), e.1@))
}

/// Every entry fits the wire format: a 2-byte tag, a blob short enough for
/// a compact length prefix, and few enough entries for the same.
pub open spec fn payload_wf(p: Seq<(Seq<u8>, Seq<u8>)>) -> bool {
    &&& p.len() < 0x1_0000_0000
    &&& forall|i: int|
        0 <= i < p.len() ==> (#[trigger] p[i]).0.len() == 2 && p[i].1.len() < 0x1_0000_0000
}

/// An ordered, keyed bundle of opaque byte blobs; what the validators sign
/// about a block, e.g. an MMR root. The data layer does not interpret the
/// blobs.
#[derive(Debug)]
pub struct Payload {
    entries: Vec<(PayloadId, Vec<u8>)>,
}

impl View for Payload {
    type V = Seq<(Seq<u8>, Seq<u8>)>;

    closed spec fn view(&self) -> Seq<(Seq<u8>, Seq<u8>)> {
        entries_view(self.entries@)
    }
}

impl Payload {
    #[verifier::type_invariant]
    spec fn inv(self) -> bool {
        payload_wf(self@)
    }

    /// Builds a payload holding exactly one tagged blob.
    pub fn from_single_entry(id: PayloadId, value: Vec<u8>) -> (r: Payload)
        requires
            value@.len() < 0x1_0000_0000,
        ensures
            r@ == seq![(id_view(id), value@)],
    {
        let mut entries: Vec<(PayloadId, Vec<u8>)> = Vec::new();
        entries.push((id, value));
        let ghost ev = entries_view(entries@);
        proof {
            assert(ev =~= seq![(id_view(id), value@)]);
        }
        Payload { entries }
    }
}

/// Wire form of one entry: the two tag bytes, then the length-prefixed blob.
pub open spec fn se_entry(e: (Seq<u8>, Seq<u8>)) -> Seq<u8> {
    e.0 + se_blob(e.1)
}

/// Wire form of an entry list: the entries back to back.
pub open spec fn se_entries(p: Seq<(Seq<u8>, Seq<u8>)>) -> Seq<u8>
    decreases p.len(),
{
    if p.len() == 0 {
        Seq::empty()
    } else {
        se_entry(p[0]) + se_entries(p.skip(1))
    }
}

/// Wire form of a payload: entry count, then the entries.
pub open spec fn se_payload(p: Seq<(Seq<u8>, Seq<u8>)>) -> Seq<u8> {
    compact_bytes(p.len()) + se_entries(p)
}

/// Reads one entry from the front of s.
pub open spec fn sd_entry(s: Seq<u8>) -> Option<((Seq<u8>, Seq<u8>), int)> {
    if s.len() < 2 {
        None
    } else {
        match sd_blob(s.skip(2)) {
            None => None,
            Some((b, c)) => Some(((s.subrange(0, 2), b), c + 2)),
        }
    }
}

/// Reads n entries from the front of s.
pub open spec fn sd_entries(s: Seq<u8>, n: nat) -> Option<(Seq<(Seq<u8>, Seq<u8>)>, int)>
    decreases n,
{
    if n == 0 {
        Some((Seq::empty(), 0))
    } else {
        match sd_entry(s) {
            None => None,
            Some((e, c)) => match sd_entries(s.skip(c), (n - 1) as nat) {
                None => None,
                Some((es, c2)) => Some((seq![e] + es, c + c2)),
            },
        }
    }
}

/// Reads a payload (count plus entries) from the front of s.
pub open spec fn sd_payload(s: Seq<u8>) -> Option<(Seq<(Seq<u8>, Seq<u8>)>, int)> {
    match sd_compact(s) {
        None => None,
        Some((n, c)) => match sd_entries(s.skip(c), n) {
            None => None,
            Some((es, c2)) => Some((es, c + c2)),
        },
    }
}

/// Decoding inverts encoding for a single entry.
pub proof fn lemma_sd_entry_roundtrip(e: (Seq<u8>, Seq<u8>), rest: Seq<u8>)
    requires
        e.0.len() == 2,
        e.1.len() < 0x1_0000_0000,
    ensures
        sd_entry(se_entry(e) + rest) == Some((e, se_entry(e).len() as int)),
{
    let s = se_entry(e) + rest;
    assert(s.skip(2) =~= se_blob(e.1) + rest);
    lemma_sd_blob_roundtrip(e.1, rest);
    assert(s.subrange(0, 2) =~= e.0);
}

/// Decoding inverts encoding for an entry list.
pub proof fn lemma_sd_entries_roundtrip(p: Seq<(Seq<u8>, Seq<u8>)>, rest: Seq<u8>)
    requires
        forall|i: int|
            0 <= i < p.len() ==> (#[trigger] p[i]).0.len() == 2 && p[i].1.len() < 0x1_0000_0000,
    ensures
        sd_entries(se_entries(p) + rest, p.len()) == Some((p, se_entries(p).len() as int)),
    decreases p.len(),
{
    if p.len() > 0 {
        let e = p[0];
        let tail = p.skip(1);
        let s = se_entries(p) + rest;
        assert(s =~= se_entry(e) + (se_entries(tail) + rest));
        lemma_sd_entry_roundtrip(e, se_entries(tail) + rest);
        let c = se_entry(e).len() as int;
        assert(s.skip(c) =~= se_entries(tail) + rest);
        lemma_sd_entries_roundtrip(tail, rest);
        assert(seq![e] + tail =~= p);
    }
}

/// Decoding inverts encoding for a whole payload.
pub proof fn lemma_sd_payload_roundtrip(p: Seq<(Seq<u8>, Seq<u8>)>, rest: Seq<u8>)
    requires
        payload_wf(p),
    ensures
        sd_payload(se_payload(p) + rest) == Some((p, se_payload(p).len() as int)),
{
    let s = se_payload(p) + rest;
    lemma_sd_compact_roundtrip(p.len(), se_entries(p) + rest);
    assert(s =~= compact_bytes(p.len()) + (se_entries(p) + rest));
    let c = compact_bytes(p.len()).len() as int;
    assert(s.skip(c) =~= se_entries(p) + rest);
    lemma_sd_entries_roundtrip(p, rest);
}

/// Appends the wire form of the entries from index i on.
fn encode_entries(entries: &Vec<(PayloadId, Vec<u8>)>, i: usize, out: &mut Vec<u8>)
    requires
        i <= entries@.len(),
        forall|j: int|
            0 <= j < entries@.len() ==> (#[trigger] entries@[j]).1@.len() < 0x1_0000_0000,
    ensures
        final(out)@ == old(out)@ + se_entries(entries_view(entries@).skip(i as int)),
    decreases entries@.len() - i,
{
    let ghost v = entries_view(entries@);
    if i == entries.len() {
        assert(out@ =~= out@ + se_entries(v.skip(i as int)));
    } else {
        let ghost pre = out@;
        let id = entries[i].0;
        out.push(id.0);
        out.push(id.1);
        encode_blob(&entries[i].1, out);
        let ghost mid = out@;
        proof {
            assert(mid =~= pre + se_entry(v[i as int]));
        }
        encode_entries(entries, i + 1, out);
        proof {
            assert(v.skip(i as int).skip(1) =~= v.skip(i + 1));
            assert(se_entries(v.skip(i as int)) == se_entry(v[i as int]) + se_entries(v.skip(i + 1)));
            assert(out@ =~= pre + se_entries(v.skip(i as int)));
        }
    }
}

/// Appends the wire form of a payload.
pub fn encode_payload(p: &Payload, out: &mut Vec<u8>)
    ensures
        final(out)@ == old(out)@ + se_payload(p@),
{
    proof {
        use_type_invariant(p);
        assert forall|j: int| 0 <= j < p.entries@.len() implies (#[trigger] p.entries@[j]).1@.len()
            < 0x1_0000_0000 by {
            assert(p@[j] == (id_view(p.entries@[j].0), p.entries@[j].1@));
        };
    }
    let ghost pre = out@;
    encode_compact(p.entries.len() as u32, out);
    encode_entries(&p.entries, 0, out);
    proof {
        assert(entries_view(p.entries@).skip(0) =~= p@);
        assert(out@ =~= pre + se_payload(p@));
    }
}

/// Reads one entry starting at pos.
fn decode_entry(s: &Vec<u8>, pos: usize) -> (r: Option<((PayloadId, Vec<u8>), usize)>)
    requires
        pos <= s@.len(),
    ensures
        match r {
            Some((e, p)) => {
                &&& sd_entry(s@.skip(pos as int)) == Some(
                    ((id_view(e.0), e.1@), (p - pos) as int),
                )
                &&& pos <= p <= s@.len()
                &&& e.1@.len() < 0x1_0000_0000
            },
            None => sd_entry(s@.skip(pos as int)) is None,
        },
{
    let ghost t = s@.skip(pos as int);
    if s.len() - pos < 2 {
        return None;
    }
    let id: PayloadId = (s[pos], s[pos + 1]);
    proof {
        assert(t.skip(2) =~= s@.skip(pos + 2));
    }
    match decode_blob(s, pos + 2) {
        None => None,
        Some((b, p)) => {
            proof {
                assert(t.subrange(0, 2) =~= id_view(id));
            }
            Some(((id, b), p))
        },
    }
}

/// Reads n entries starting at pos.
fn decode_entries(s: &Vec<u8>, pos: usize, n: u32) -> (r: Option<(Vec<(PayloadId, Vec<u8>)>, usize)>)
    requires
        pos <= s@.len(),
    ensures
        match r {
            Some((es, p)) => {
                &&& sd_entries(s@.skip(pos as int), n as nat) == Some(
                    (entries_view(es@), (p - pos) as int),
                )
                &&& pos <= p <= s@.len()
                &&& es@.len() == n
                &&& forall|j: int|
                    0 <= j < es@.len() ==> (#[trigger] es@[j]).1@.len() < 0x1_0000_0000
            },
            None => sd_entries(s@.skip(pos as int), n as nat) is None,
        },
    decreases n,
{
    if n == 0 {
        let es: Vec<(PayloadId, Vec<u8>)> = Vec::new();
        proof {
            assert(entries_view(es@) =~= Seq::<(Seq<u8>, Seq<u8>)>::empty());
        }
        Some((es, pos))
    } else {
        match decode_entry(s, pos) {
            None => None,
            Some((e, p)) => {
                proof {
                    assert(s@.skip(pos as int).skip((p - pos) as int) =~= s@.skip(p as int));
                }
                match decode_entries(s, p, n - 1) {
                    None => None,
                    Some((mut es, p2)) => {
                        let ghost tailv = entries_view(es@);
                        es.insert(0, e);
                        proof {
                            assert(entries_view(es@) =~= seq![(id_view(e.0), e.1@)] + tailv);
                        }
                        Some((es, p2))
                    },
                }
            },
        }
    }
}

/// Reads a payload starting at pos.
pub fn decode_payload(s: &Vec<u8>, pos: usize) -> (r: Option<(Payload, usize)>)
    requires
        pos <= s@.len(),
    ensures
        match r {
            Some((pl, p)) => {
                &&& sd_payload(s@.skip(pos as int)) == Some((pl@, (p - pos) as int))
                &&& pos <= p <= s@.len()
                &&& payload_wf(pl@)
            },
            None => sd_payload(s@.skip(pos as int)) is None,
        },
{
    match decode_compact(s, pos) {
        None => None,
        Some((n, p)) => {
            proof {
                assert(s@.skip(pos as int).skip((p - pos) as int) =~= s@.skip(p as int));
            }
            match decode_entries(s, p, n) {
                None => None,
                Some((es, p2)) => {
                    proof {
                        let ev = entries_view(es@);
                        assert(forall|i: int|
                            0 <= i < ev.len() ==> (#[trigger] ev[i]).0.len() == 2
                                && ev[i].1.len() < 0x1_0000_0000);
                        assert(payload_wf(ev));
                    }
                    let pl = Payload { entries: es };
                    Some((pl, p2))
                },
            }
        },
    }
}

/// Compares two byte vectors for equality of contents.
pub fn bytes_eq(x: &Vec<u8>, y: &Vec<u8>) -> (r: bool)
    ensures
        r == (x@ == y@),
{
    if x.len() != y.len() {
        return false;
    }
    let mut i: usize = 0;
    while i < x.len()
        invariant
            i <= x@.len(),
            x@.len() == y@.len(),
            forall|j: int| 0 <= j < i ==> x@[j] == y@[j],
        decreases x@.len() - i,
    {
        if x[i] != y[i] {
            return false;
        }
        i = i + 1;
    }
    proof {
        assert(x@ =~= y@);
    }
    true
}

/// Compares two payloads for equality of their abstract values.
pub fn payload_eq(a: &Payload, b: &Payload) -> (r: bool)
    ensures
        r == (a@ == b@),
{
    if a.entries.len() != b.entries.len() {
        return false;
    }
    let mut i: usize = 0;
    while i < a.entries.len()
        invariant
            i <= a.entries@.len(),
            a.entries@.len() == b.entries@.len(),
            a@ == entries_view(a.entries@),
            b@ == entries_view(b.entries@),
            forall|j: int| 0 <= j < i ==> a@[j] == b@[j],
        decreases a.entries@.len() - i,
    {
        proof {
            assert(a@[i as int] == (id_view(a.entries@[i as int].0), a.entries@[i as int].1@));
            assert(b@[i as int] == (id_view(b.entries@[i as int].0), b.entries@[i as int].1@));
        }
        let ida = a.entries[i].0;
        let idb = b.entries[i].0;
        if ida.0 != idb.0 || ida.1 != idb.1 {
            proof {
                assert(a@[i as int].0[0] == ida.0 && a@[i as int].0[1] == ida.1);
                assert(b@[i as int].0[0] == idb.0 && b@[i as int].0[1] == idb.1);
            }
            return false;
        }
        if !bytes_eq(&a.entries[i].1, &b.entries[i].1) {
            return false;
        }
        i = i + 1;
    }
    proof {
        assert(a@ =~= b@);
    }
    true
}

/// A fresh copy of a payload with the same abstract value.
pub fn payload_duplicate(p: &Payload) -> (r: Payload)
    ensures
        r@ == p@,
{
    proof {
        use_type_invariant(p);
    }
    let mut entries: Vec<(PayloadId, Vec<u8>)> = Vec::new();
    let mut i: usize = 0;
    proof {
        assert(entries_view(entries@) =~= p@.take(0));
    }
    while i < p.entries.len()
        invariant
            i <= p.entries@.len(),
            entries_view(entries@) == p@.take(i as int),
            p@ == entries_view(p.entries@),
        decreases p.entries@.len() - i,
    {
        proof {
            assert(p@[i as int] == (id_view(p.entries@[i as int].0), p.entries@[i as int].1@));
        }
        let id = p.entries[i].0;
        let value = crate::codec::copy_bytes(&p.entries[i].1);
        let ghost prev = entries@;
        entries.push((id, value));
        proof {
            assert(entries_view(prev).len() == prev.len());
            assert(prev.len() == i as int);
            assert forall|j: int| 0 <= j < entries@.len() implies entries_view(entries@)[j]
                == p@.take(i + 1)[j] by {
                assert(entries_view(entries@)[j] == (id_view(entries@[j].0), entries@[j].1@));
                if j < prev.len() {
                    assert(entries@[j] == prev[j]);
                    assert(entries_view(prev)[j] == (id_view(prev[j].0), prev[j].1@));
                } else {
                    assert(entries@[j] == (id, value));
                    assert(p@[i as int] == (id_view(p.entries@[i as int].0), p.entries@[
                        i as int].1@));
                }
            };
            assert(entries_view(entries@) =~= p@.take(i + 1));
        }
        i = i + 1;
    }
    proof {
        assert(p@.take(p.entries@.len() as int) =~= p@);
    }
    let r = Payload { entries };
    r
}

/// The wire form of a payload as a fresh byte vector.
pub fn encode_payload_vec(p: &Payload) -> (r: Vec<u8>)
    ensures
        r@ == se_payload(p@),
{
    let mut out: Vec<u8> = Vec::new();
    encode_payload(p, &mut out);
    assert(out@ =~= se_payload(p@));
    out
}

} // verus!
