//! Wire-format primitives shared by all commitment types: little-endian
//! fixed-width integers, compact (variable-width) length prefixes, and
//! length-prefixed byte blobs.
//!
//! Every exec function is specified against a pure byte-level model
//! (`le_bytes`, `compact_bytes`, ...), and the decode functions are proved
//! to invert the encoders exactly.
use vstd::prelude::*;
use vstd::arithmetic::div_mod::{lemma_mod_mod, lemma_mod_multiples_vanish};

verus! {

/// 256^w, the number of values representable in w bytes.
pub open spec fn pow256(w: nat) -> nat
    decreases w,
{
    if w == 0 {
        1
    } else {
        256 * pow256((w - 1) as nat)
    }
}

pub proof fn lemma_pow256_mono(a: nat, b: nat)
    requires
        a <= b,
    ensures
        pow256(a) <= pow256(b),
    decreases b,
{
    if a < b {
        lemma_pow256_mono(a, (b - 1) as nat);
    }
}

pub proof fn lemma_pow256_16()
    ensures
        pow256(16) == 0x1_0000_0000_0000_0000_0000_0000_0000_0000,
{
    reveal_with_fuel(pow256, 17);
}

/// The w-byte little-endian encoding of v (low byte first); drops bits
/// beyond the w-th byte.
pub open spec fn le_bytes(v: nat, w: nat) -> Seq<u8>
    decreases w,
{
    if w == 0 {
        Seq::empty()
    } else {
        seq![(v % 256) as u8] + le_bytes(v / 256, (w - 1) as nat)
    }
}

pub proof fn lemma_le_bytes_len(v: nat, w: nat)
    ensures
        le_bytes(v, w).len() == w,
    decreases w,
{
    if w > 0 {
        lemma_le_bytes_len(v / 256, (w - 1) as nat);
    }
}

/// Reads w little-endian bytes from the front of s; yields the value and
/// the number of bytes consumed.
pub open spec fn sd_le(s: Seq<u8>, w: nat) -> Option<(nat, int)>
    decreases w,
{
    if w == 0 {
        Some((0, 0))
    } else if s.len() == 0 {
        None
    } else {
        match sd_le(s.skip(1), (w - 1) as nat) {
            None => None,
            Some((v, c)) => Some(((s[0] + 256 * v) as nat, c + 1)),
        }
    }
}

/// Decoding inverts encoding: the first w bytes of `le_bytes(v, w) + rest`
/// read back as v.
pub proof fn lemma_sd_le_roundtrip(v: nat, w: nat, rest: Seq<u8>)
    requires
        v < pow256(w),
    ensures
        sd_le(le_bytes(v, w) + rest, w) == Some((v, w as int)),
    decreases w,
{
    if w > 0 {
        let tail = le_bytes(v / 256, (w - 1) as nat);
        assert((seq![(v % 256) as u8] + tail + rest).skip(1) =~= tail + rest);
        assert(v / 256 < pow256((w - 1) as nat)) by {
            assert(pow256(w) == 256 * pow256((w - 1) as nat));
        };
        lemma_sd_le_roundtrip(v / 256, (w - 1) as nat, rest);
    }
}

/// Appends the w-byte little-endian encoding of v.
pub fn encode_le(v: u128, w: usize, out: &mut Vec<u8>)
    ensures
        final(out)@ == old(out)@ + le_bytes(v as nat, w as nat),
    decreases w,
{
    if w == 0 {
        assert(out@ =~= out@ + le_bytes(v as nat, 0));
    } else {
        let ghost pre = out@;
        out.push((v % 256) as u8);
        encode_le(v / 256, w - 1, out);
        assert(out@ =~= pre + le_bytes(v as nat, w as nat));
    }
}

/// Reads w little-endian bytes starting at pos.
pub fn decode_le(s: &Vec<u8>, pos: usize, w: usize) -> (r: Option<(u128, usize)>)
    requires
        pos <= s@.len(),
        w <= 16,
    ensures
        match r {
            Some((v, p)) => {
                &&& sd_le(s@.skip(pos as int), w as nat) == Some((v as nat, (p - pos) as int))
                &&& pos <= p <= s@.len()
                &&& p == pos + w
                &&& (v as nat) < pow256(w as nat)
            },
            None => sd_le(s@.skip(pos as int), w as nat) is None,
        },
    decreases w,
{
    if w == 0 {
        Some((0, pos))
    } else if pos == s.len() {
        None
    } else {
        let b = s[pos];
        match decode_le(s, pos + 1, w - 1) {
            None => {
                assert(s@.skip(pos as int).skip(1) =~= s@.skip(pos + 1));
                None
            },
            Some((v, p)) => {
                proof {
                    assert(s@.skip(pos as int).skip(1) =~= s@.skip(pos + 1));
                    lemma_pow256_mono((w - 1) as nat, 15);
                    lemma_pow256_16();
                    assert(pow256(15) * 256 == pow256(16)) by {
                        reveal_with_fuel(pow256, 17);
                    };
                }
                let r: u128 = (b as u128) + 256 * v;
                assert((r as nat) < pow256(w as nat)) by {
                    assert(pow256(w as nat) == 256 * pow256((w - 1) as nat));
                };
                Some((r, p))
            },
        }
    }
}

/// SCALE-style compact encoding of a length n < 2^32: two low mode bits in
/// the first byte select a 1-, 2-, 4- or (1+4)-byte form.
pub open spec fn compact_bytes(n: nat) -> Seq<u8> {
    if n < 64 {
        seq![(n * 4) as u8]
    } else if n < 16384 {
        le_bytes(n * 4 + 1, 2)
    } else if n < 0x4000_0000 {
        le_bytes(n * 4 + 2, 4)
    } else {
        seq![3u8] + le_bytes(n, 4)
    }
}

/// Reads one compact-encoded length from the front of s. Rejects
/// non-minimal encodings, as the wire format demands.
pub open spec fn sd_compact(s: Seq<u8>) -> Option<(nat, int)> {
    if s.len() == 0 {
        None
    } else {
        let b = s[0] as nat;
        let m = b % 4;
        if m == 0 {
            Some((b / 4, 1))
        } else if m == 1 {
            match sd_le(s, 2) {
                None => None,
                Some((lv, _)) => {
                    let v = lv / 4;
                    if v >= 64 {
                        Some((v, 2))
                    } else {
                        None
                    }
                },
            }
        } else if m == 2 {
            match sd_le(s, 4) {
                None => None,
                Some((lv, _)) => {
                    let v = lv / 4;
                    if v >= 16384 {
                        Some((v, 4))
                    } else {
                        None
                    }
                },
            }
        } else {
            if b != 3 {
                None
            } else {
                match sd_le(s.skip(1), 4) {
                    None => None,
                    Some((lv, _)) => {
                        if lv >= 0x4000_0000 {
                            Some((lv, 5))
                        } else {
                            None
                        }
                    },
                }
            }
        }
    }
}

/// Decoding inverts the compact encoding of any length below 2^32.
pub proof fn lemma_sd_compact_roundtrip(n: nat, rest: Seq<u8>)
    requires
        n < 0x1_0000_0000,
    ensures
        compact_bytes(n).len() <= 5,
        sd_compact(compact_bytes(n) + rest) == Some((n, compact_bytes(n).len() as int)),
{
    let s = compact_bytes(n) + rest;
    assert(pow256(2) == 0x1_0000 && pow256(4) == 0x1_0000_0000) by {
        reveal_with_fuel(pow256, 5);
    };
    if n < 64 {
        assert(s[0] == (n * 4) as u8);
        assert((n * 4) % 4 == 0) by {
            lemma_mod_multiples_vanish(n as int, 0, 4);
        };
        assert((n * 4) / 4 == n);
    } else if n < 16384 {
        let x = n * 4 + 1;
        lemma_le_bytes_len(x, 2);
        assert(s[0] == (x % 256) as u8);
        assert((x % 256) % 4 == x % 4) by {
            lemma_mod_mod(x as int, 64, 4);
        };
        assert(x % 4 == 1) by {
            lemma_mod_multiples_vanish(n as int, 1, 4);
        };
        lemma_sd_le_roundtrip(x, 2, rest);
        assert(le_bytes(x, 2) + rest =~= s);
        assert(x / 4 == n);
    } else if n < 0x4000_0000 {
        let x = n * 4 + 2;
        lemma_le_bytes_len(x, 4);
        assert(s[0] == (x % 256) as u8);
        assert((x % 256) % 4 == x % 4) by {
            lemma_mod_mod(x as int, 64, 4);
        };
        assert(x % 4 == 2) by {
            lemma_mod_multiples_vanish(n as int, 2, 4);
        };
        lemma_sd_le_roundtrip(x, 4, rest);
        assert(le_bytes(x, 4) + rest =~= s);
        assert(x / 4 == n);
    } else {
        lemma_le_bytes_len(n, 4);
        assert(s[0] == 3u8);
        lemma_sd_le_roundtrip(n, 4, rest);
        assert(s.skip(1) =~= le_bytes(n, 4) + rest);
    }
}

/// Appends the compact encoding of n.
pub fn encode_compact(n: u32, out: &mut Vec<u8>)
    ensures
        final(out)@ == old(out)@ + compact_bytes(n as nat),
{
    let ghost pre = out@;
    if n < 64 {
        out.push((n as u8) * 4);
        assert(out@ =~= pre + compact_bytes(n as nat));
    } else if n < 16384 {
        encode_le((n * 4 + 1) as u128, 2, out);
    } else if n < 0x4000_0000 {
        encode_le((n * 4 + 2) as u128, 4, out);
    } else {
        out.push(3);
        encode_le(n as u128, 4, out);
        assert(out@ =~= pre + compact_bytes(n as nat));
    }
}

/// Reads one compact-encoded length starting at pos.
pub fn decode_compact(s: &Vec<u8>, pos: usize) -> (r: Option<(u32, usize)>)
    requires
        pos <= s@.len(),
    ensures
        match r {
            Some((v, p)) => {
                &&& sd_compact(s@.skip(pos as int)) == Some((v as nat, (p - pos) as int))
                &&& pos < p <= s@.len()
            },
            None => sd_compact(s@.skip(pos as int)) is None,
        },
{
    if pos == s.len() {
        return None;
    }
    let b = s[pos];
    let m = b % 4;
    proof {
        assert(pow256(2) == 0x1_0000 && pow256(4) == 0x1_0000_0000) by {
            reveal_with_fuel(pow256, 5);
        };
    }
    if m == 0 {
        Some((b as u32 / 4, pos + 1))
    } else if m == 1 {
        match decode_le(s, pos, 2) {
            None => None,
            Some((lv, p)) => {
                let v = (lv / 4) as u32;
                if v >= 64 {
                    Some((v, p))
                } else {
                    None
                }
            },
        }
    } else if m == 2 {
        match decode_le(s, pos, 4) {
            None => None,
            Some((lv, p)) => {
                let v = (lv / 4) as u32;
                if v >= 16384 {
                    Some((v, p))
                } else {
                    None
                }
            },
        }
    } else {
        if b != 3 {
            return None;
        }
        match decode_le(s, pos + 1, 4) {
            None => {
                assert(s@.skip(pos as int).skip(1) =~= s@.skip(pos + 1));
                None
            },
            Some((lv, p)) => {
                proof {
                    assert(s@.skip(pos as int).skip(1) =~= s@.skip(pos + 1));
                }
                if lv >= 0x4000_0000 {
                    Some((lv as u32, p))
                } else {
                    None
                }
            },
        }
    }
}

/// A length-prefixed byte string: compact length, then the raw bytes.
pub open spec fn se_blob(b: Seq<u8>) -> Seq<u8> {
    compact_bytes(b.len()) + b
}

/// Reads one length-prefixed byte string from the front of s.
pub open spec fn sd_blob(s: Seq<u8>) -> Option<(Seq<u8>, int)> {
    match sd_compact(s) {
        None => None,
        Some((n, c)) => {
            if s.len() >= c + n {
                Some((s.subrange(c, c + n), c + n))
            } else {
                None
            }
        },
    }
}

/// Decoding inverts encoding for length-prefixed byte strings.
pub proof fn lemma_sd_blob_roundtrip(b: Seq<u8>, rest: Seq<u8>)
    requires
        b.len() < 0x1_0000_0000,
    ensures
        sd_blob(se_blob(b) + rest) == Some((b, se_blob(b).len() as int)),
{
    let s = se_blob(b) + rest;
    lemma_sd_compact_roundtrip(b.len(), b + rest);
    assert(compact_bytes(b.len()) + (b + rest) =~= s);
    let c = compact_bytes(b.len()).len() as int;
    assert(s.subrange(c, c + b.len()) =~= b);
}

/// Appends every byte of b to out.
pub fn append_bytes(out: &mut Vec<u8>, b: &Vec<u8>)
    ensures
        final(out)@ == old(out)@ + b@,
{
    let mut i: usize = 0;
    while i < b.len()
        invariant
            i <= b@.len(),
            out@ == old(out)@ + b@.take(i as int),
        decreases b@.len() - i,
    {
        out.push(b[i]);
        i = i + 1;
        assert(out@ =~= old(out)@ + b@.take(i as int));
    }
    assert(out@ =~= old(out)@ + b@);
}

/// Appends a length-prefixed byte string.
pub fn encode_blob(b: &Vec<u8>, out: &mut Vec<u8>)
    requires
        b@.len() < 0x1_0000_0000,
    ensures
        final(out)@ == old(out)@ + se_blob(b@),
{
    let ghost pre = out@;
    encode_compact(b.len() as u32, out);
    append_bytes(out, b);
    assert(out@ =~= pre + se_blob(b@));
}

/// Reads one length-prefixed byte string starting at pos.
pub fn decode_blob(s: &Vec<u8>, pos: usize) -> (r: Option<(Vec<u8>, usize)>)
    requires
        pos <= s@.len(),
    ensures
        match r {
            Some((b, p)) => {
                &&& sd_blob(s@.skip(pos as int)) == Some((b@, (p - pos) as int))
                &&& pos <= p <= s@.len()
                &&& b@.len() < 0x1_0000_0000
            },
            None => sd_blob(s@.skip(pos as int)) is None,
        },
{
    match decode_compact(s, pos) {
        None => None,
        Some((n, p)) => {
            let n_us = n as usize;
            if n_us > s.len() - p {
                assert(s@.skip(pos as int).len() < (p - pos) + n);
                None
            } else {
                let mut b: Vec<u8> = Vec::new();
                let mut i: usize = 0;
                while i < n_us
                    invariant
                        i <= n_us,
                        p + n_us <= s@.len(),
                        s@.len() <= usize::MAX,
                        b@ == s@.subrange(p as int, p + i),
                    decreases n_us - i,
                {
                    assert(p + i < s@.len());
                    b.push(s[p + i]);
                    i = i + 1;
                    assert(b@ =~= s@.subrange(p as int, p + i));
                }
                proof {
                    let sk = s@.skip(pos as int);
                    let c = (p - pos) as int;
                    assert(sk.subrange(c, c + n) =~= s@.subrange(p as int, p + n));
                }
                Some((b, p + n_us))
            }
        },
    }
}

/// A fresh copy of a byte vector.
pub fn copy_bytes(v: &Vec<u8>) -> (r: Vec<u8>)
    ensures
        r@ == v@,
{
    let mut out: Vec<u8> = Vec::new();
    append_bytes(&mut out, v);
    assert(out@ =~= v@);
    out
}

} // verus!
