//! Byte codecs for the container's fixed-schema records: the header, the
//! pack of redundancy blocks and the secret box.  The wire forms are
//! varint-framed; every decoder is proved to invert its encoder.

use vstd::prelude::*;

use crate::objects::{blocks_view, CryptoSecretbox, ECCData, Header, StoredData};
use crate::varint::{
    decode_varint, encode_varint, lemma_varint_round_trip, varint_bytes, varint_parse,
};

verus! {

/// Append a slice to a byte vector.
pub fn push_all(out: &mut Vec<u8>, src: &[u8])
    ensures
        final(out)@ == old(out)@ + src@,
{
    let mut i: usize = 0;
    while i < src.len()
        invariant
            i <= src@.len(),
            out@ == old(out)@ + src@.take(i as int),
        decreases src@.len() - i,
    {
        let ghost before = out@;
        out.push(src[i]);
        proof {
            assert(out@ =~= old(out)@ + src@.take(i + 1));
        }
        i = i + 1;
    }
    proof {
        assert(src@.take(src@.len() as int) =~= src@);
    }
}

/// Copy the byte range `from..to` out of a slice.
pub fn copy_range(s: &[u8], from: usize, to: usize) -> (r: Vec<u8>)
    requires
        from <= to <= s@.len(),
    ensures
        r@ == s@.subrange(from as int, to as int),
{
    let mut out: Vec<u8> = Vec::new();
    let mut i: usize = from;
    while i < to
        invariant
            from <= i <= to <= s@.len(),
            out@ == s@.subrange(from as int, i as int),
        decreases to - i,
    {
        out.push(s[i]);
        proof {
            assert(out@ =~= s@.subrange(from as int, i + 1));
        }
        i = i + 1;
    }
    out
}

// ------------------------------------------------------------------
// Header codec
// ------------------------------------------------------------------

/// The serialized header: four varints followed by the two raw checksum
/// bytes.
pub open spec fn header_bytes(h: Header) -> Seq<u8> {
    varint_bytes(h.version) + varint_bytes(h.encryption_algorithm) + varint_bytes(h.data_len)
        + varint_bytes(h.crc_algorithm) + seq![h.crc0, h.crc1]
}

/// Parsing a serialized header back; the whole slice must be consumed.
pub open spec fn header_parse(b: Seq<u8>) -> Option<Header> {
    match varint_parse(b) {
        None => None,
        Some((version, u1)) => if u1 <= b.len() {
            match varint_parse(b.subrange(u1, b.len() as int)) {
                None => None,
                Some((enc, u2)) => if u1 + u2 <= b.len() {
                    match varint_parse(b.subrange(u1 + u2, b.len() as int)) {
                        None => None,
                        Some((dlen, u3)) => if u1 + u2 + u3 <= b.len() {
                            match varint_parse(b.subrange(u1 + u2 + u3, b.len() as int)) {
                                None => None,
                                Some((crcalg, u4)) => {
                                    let off = u1 + u2 + u3 + u4;
                                    if off + 2 == b.len() {
                                        Some(
                                            Header {
                                                version,
                                                encryption_algorithm: enc,
                                                data_len: dlen,
                                                crc_algorithm: crcalg,
                                                crc0: b[off],
                                                crc1: b[off + 1],
                                            },
                                        )
                                    } else {
                                        None
                                    }
                                },
                            }
                        } else {
                            None
                        },
                    }
                } else {
                    None
                },
            }
        } else {
            None
        },
    }
}

/// Deserializing a serialized header gives the header back.
pub proof fn lemma_header_round_trip(h: Header)
    ensures
        header_parse(header_bytes(h)) == Some(h),
{
    let b = header_bytes(h);
    let v1 = varint_bytes(h.version);
    let v2 = varint_bytes(h.encryption_algorithm);
    let v3 = varint_bytes(h.data_len);
    let v4 = varint_bytes(h.crc_algorithm);
    let cc = seq![h.crc0, h.crc1];
    let r1 = v2 + v3 + v4 + cc;
    let r2 = v3 + v4 + cc;
    let r3 = v4 + cc;
    assert(b =~= v1 + r1);
    lemma_varint_round_trip(h.version, r1);
    let u1 = v1.len() as int;
    assert(b.subrange(u1, b.len() as int) =~= v2 + r2);
    lemma_varint_round_trip(h.encryption_algorithm, r2);
    let u2 = v2.len() as int;
    assert(b.subrange(u1 + u2, b.len() as int) =~= v3 + r3);
    lemma_varint_round_trip(h.data_len, r3);
    let u3 = v3.len() as int;
    assert(b.subrange(u1 + u2 + u3, b.len() as int) =~= v4 + cc);
    lemma_varint_round_trip(h.crc_algorithm, cc);
    let u4 = v4.len() as int;
    let off = u1 + u2 + u3 + u4;
    assert(b.len() == off + 2);
    assert(b[off] == h.crc0);
    assert(b[off + 1] == h.crc1);
}

/// Serialize a header to its wire form.
pub fn serialize_header(h: &Header) -> (r: Vec<u8>)
    ensures
        r@ == header_bytes(*h),
{
    let mut out: Vec<u8> = Vec::new();
    encode_varint(&mut out, h.version);
    encode_varint(&mut out, h.encryption_algorithm);
    encode_varint(&mut out, h.data_len);
    encode_varint(&mut out, h.crc_algorithm);
    out.push(h.crc0);
    out.push(h.crc1);
    proof {
        assert(out@ =~= header_bytes(*h));
    }
    out
}

/// Parse a slice as a header; `None` when it is not one.
pub fn deserialize_header(b: &[u8]) -> (r: Option<Header>)
    ensures
        r == header_parse(b@),
{
    let n = b.len();
    let (version, u1) = match decode_varint(b, 0) {
        None => {
            proof {
                assert(b@.subrange(0, b@.len() as int) =~= b@);
            }
            return None;
        },
        Some(p) => p,
    };
    proof {
        assert(b@.subrange(0, b@.len() as int) =~= b@);
    }
    let (enc, u2) = match decode_varint(b, u1) {
        None => {
            return None;
        },
        Some(p) => p,
    };
    let (dlen, u3) = match decode_varint(b, u1 + u2) {
        None => {
            return None;
        },
        Some(p) => p,
    };
    let (crcalg, u4) = match decode_varint(b, u1 + u2 + u3) {
        None => {
            return None;
        },
        Some(p) => p,
    };
    let off = u1 + u2 + u3 + u4;
    if off + 2 == n {
        Some(
            Header {
                version,
                encryption_algorithm: enc,
                data_len: dlen,
                crc_algorithm: crcalg,
                crc0: b[off],
                crc1: b[off + 1],
            },
        )
    } else {
        None
    }
}

// ------------------------------------------------------------------
// Block pack codec
// ------------------------------------------------------------------

/// One serialized redundancy block: its algorithm tag, its length, its
/// bytes.
pub open spec fn block_bytes(alg: u64, bytes: Seq<u8>) -> Seq<u8> {
    varint_bytes(alg) + varint_bytes(bytes.len() as u64) + bytes
}

/// The serialized blocks, one after the other.
pub open spec fn blocks_bytes(blocks: Seq<(u64, Seq<u8>)>) -> Seq<u8>
    decreases blocks.len(),
{
    if blocks.len() == 0 {
        Seq::empty()
    } else {
        block_bytes(blocks[0].0, blocks[0].1) + blocks_bytes(blocks.skip(1))
    }
}

/// The serialized pack: the block count, then the blocks.
pub open spec fn pack_bytes(blocks: Seq<(u64, Seq<u8>)>) -> Seq<u8> {
    varint_bytes(blocks.len() as u64) + blocks_bytes(blocks)
}

/// Serialization distributes over concatenation of block lists.
pub proof fn lemma_blocks_bytes_concat(x: Seq<(u64, Seq<u8>)>, y: Seq<(u64, Seq<u8>)>)
    ensures
        blocks_bytes(x + y) == blocks_bytes(x) + blocks_bytes(y),
    decreases x.len(),
{
    if x.len() == 0 {
        assert(x + y =~= y);
        assert(blocks_bytes(x) + blocks_bytes(y) =~= blocks_bytes(y));
    } else {
        lemma_blocks_bytes_concat(x.skip(1), y);
        assert((x + y).skip(1) =~= x.skip(1) + y);
        assert(blocks_bytes(x + y) =~= blocks_bytes(x) + blocks_bytes(y));
    }
}

/// The serialized blocks are at least as long as any one block's bytes.
pub proof fn lemma_blocks_bytes_ge(blocks: Seq<(u64, Seq<u8>)>, i: int)
    requires
        0 <= i < blocks.len(),
    ensures
        blocks_bytes(blocks).len() >= blocks[i].1.len(),
    decreases blocks.len(),
{
    if i > 0 {
        lemma_blocks_bytes_ge(blocks.skip(1), i - 1);
        assert(blocks.skip(1)[i - 1] == blocks[i]);
    }
}

/// Parse `count` serialized blocks starting at `from`; the parsed blocks
/// and the position after them.
pub open spec fn blocks_parse(s: Seq<u8>, from: int, count: int) -> Option<
    (Seq<(u64, Seq<u8>)>, int),
>
    decreases count,
{
    if !(0 <= from <= s.len()) {
        None
    } else if count <= 0 {
        Some((Seq::empty(), from))
    } else {
        match varint_parse(s.subrange(from, s.len() as int)) {
            None => None,
            Some((alg, u1)) => if from + u1 <= s.len() {
                match varint_parse(s.subrange(from + u1, s.len() as int)) {
                    None => None,
                    Some((blen, u2)) => {
                        let start = from + u1 + u2;
                        if start + blen <= s.len() {
                            match blocks_parse(s, start + blen, count - 1) {
                                None => None,
                                Some((rest, end)) => Some(
                                    (
                                        seq![(alg, s.subrange(start, start + blen as int))] + rest,
                                        end,
                                    ),
                                ),
                            }
                        } else {
                            None
                        }
                    },
                }
            } else {
                None
            },
        }
    }
}

/// Parse a serialized pack; bytes after the declared blocks are ignored.
pub open spec fn pack_parse(s: Seq<u8>) -> Option<Seq<(u64, Seq<u8>)>> {
    match varint_parse(s) {
        None => None,
        Some((count, u)) => match blocks_parse(s, u, count as int) {
            None => None,
            Some((blocks, _end)) => Some(blocks),
        },
    }
}

/// The suffix taken `d` further in is the suffix of the suffix.
proof fn lemma_suffix_of_suffix(s: Seq<u8>, from: int, d: int)
    requires
        0 <= from,
        0 <= d,
        from + d <= s.len(),
    ensures
        s.subrange(from + d, s.len() as int) == s.subrange(from, s.len() as int).skip(d),
{
    assert(s.subrange(from + d, s.len() as int) =~= s.subrange(from, s.len() as int).skip(d));
}

/// A block list whose serialization sits in `s` at `from` parses back to
/// itself, wherever it sits and whatever follows it.
pub proof fn lemma_blocks_round_trip(
    s: Seq<u8>,
    from: int,
    blocks: Seq<(u64, Seq<u8>)>,
    tail: Seq<u8>,
)
    requires
        0 <= from <= s.len(),
        s.subrange(from, s.len() as int) == blocks_bytes(blocks) + tail,
        forall|i: int| 0 <= i < blocks.len() ==> (#[trigger] blocks[i].1).len()
            < 0x10000000000000000,
    ensures
        blocks_parse(s, from, blocks.len() as int) == Some((blocks, s.len() - tail.len())),
    decreases blocks.len(),
{
    let sub = s.subrange(from, s.len() as int);
    if blocks.len() == 0 {
        assert(sub =~= tail);
    } else {
        let b0 = blocks[0];
        let rest = blocks.skip(1);
        let v1 = varint_bytes(b0.0);
        let lenv = varint_bytes(b0.1.len() as u64);
        let r2 = b0.1 + (blocks_bytes(rest) + tail);
        let r1 = lenv + r2;
        assert(blocks_bytes(blocks) == block_bytes(b0.0, b0.1) + blocks_bytes(rest));
        assert(sub =~= v1 + r1);
        lemma_varint_round_trip(b0.0, r1);
        let u1 = v1.len() as int;
        assert(varint_parse(sub) == Some((b0.0, u1)));
        lemma_suffix_of_suffix(s, from, u1);
        assert(sub.skip(u1) =~= r1);
        lemma_varint_round_trip(b0.1.len() as u64, r2);
        let u2 = lenv.len() as int;
        assert(varint_parse(s.subrange(from + u1, s.len() as int)) == Some(
            (b0.1.len() as u64, u2),
        ));
        let start = from + u1 + u2;
        let blen = b0.1.len() as int;
        assert((b0.1.len() as u64) as int == blen);
        lemma_suffix_of_suffix(s, from + u1, u2);
        assert(r1.skip(u2) =~= r2);
        assert(s.subrange(start, s.len() as int) == r2);
        assert(s.subrange(start, start + blen) =~= b0.1) by {
            assert(forall|j: int|
                0 <= j < blen ==> s.subrange(start, start + blen)[j] == s.subrange(
                    start,
                    s.len() as int,
                )[j]);
        };
        lemma_suffix_of_suffix(s, start, blen);
        assert(s.subrange(start + blen, s.len() as int) =~= blocks_bytes(rest) + tail);
        lemma_blocks_round_trip(s, start + blen, rest, tail);
        assert(blocks =~= seq![(b0.0, s.subrange(start, start + blen))] + rest);
    }
}

/// Deserializing a serialized pack gives the block list back, whatever
/// bytes follow it.
pub proof fn lemma_pack_round_trip(blocks: Seq<(u64, Seq<u8>)>, tail: Seq<u8>)
    requires
        blocks.len() < 0x10000000000000000,
        forall|i: int| 0 <= i < blocks.len() ==> (#[trigger] blocks[i].1).len()
            < 0x10000000000000000,
    ensures
        pack_parse(pack_bytes(blocks) + tail) == Some(blocks),
{
    let s = pack_bytes(blocks) + tail;
    let countv = varint_bytes(blocks.len() as u64);
    let r1 = blocks_bytes(blocks) + tail;
    assert(s =~= countv + r1);
    lemma_varint_round_trip(blocks.len() as u64, r1);
    let u = countv.len() as int;
    assert(s.subrange(u, s.len() as int) =~= blocks_bytes(blocks) + tail);
    lemma_blocks_round_trip(s, u, blocks, tail);
}

/// Serialize a pack of redundancy blocks to its wire form.
pub fn serialize_stored_data(sd: &StoredData) -> (r: Vec<u8>)
    ensures
        r@ == pack_bytes(blocks_view(sd.data@)),
{
    let ghost bv = blocks_view(sd.data@);
    let mut out: Vec<u8> = Vec::new();
    encode_varint(&mut out, sd.data.len() as u64);
    let mut i: usize = 0;
    while i < sd.data.len()
        invariant
            i <= sd.data@.len(),
            bv == blocks_view(sd.data@),
            bv.len() == sd.data@.len(),
            out@ == varint_bytes(sd.data@.len() as u64) + blocks_bytes(bv.take(i as int)),
        decreases sd.data@.len() - i,
    {
        let ghost before = out@;
        let blk = &sd.data[i];
        encode_varint(&mut out, blk.ecc_algorithm);
        encode_varint(&mut out, blk.ecc.len() as u64);
        push_all(&mut out, blk.ecc.as_slice());
        proof {
            assert(bv[i as int] == (blk.ecc_algorithm, blk.ecc@));
            assert(out@ =~= before + block_bytes(blk.ecc_algorithm, blk.ecc@));
            assert(bv.take(i + 1) =~= bv.take(i as int) + seq![bv[i as int]]);
            lemma_blocks_bytes_concat(bv.take(i as int), seq![bv[i as int]]);
            assert(seq![bv[i as int]].skip(1) =~= Seq::<(u64, Seq<u8>)>::empty());
            assert(blocks_bytes(Seq::<(u64, Seq<u8>)>::empty()) =~= Seq::<u8>::empty());
            assert(blocks_bytes(seq![bv[i as int]]) =~= block_bytes(blk.ecc_algorithm, blk.ecc@));
            assert(out@ =~= varint_bytes(sd.data@.len() as u64) + blocks_bytes(bv.take(i + 1)));
        }
        i = i + 1;
    }
    proof {
        assert(bv.take(bv.len() as int) =~= bv);
    }
    out
}

/// Parse a slice as a pack of redundancy blocks; `None` when its framing
/// is broken.
pub fn deserialize_stored_data(b: &[u8]) -> (r: Option<StoredData>)
    ensures
        match r {
            None => pack_parse(b@) is None,
            Some(sd) => pack_parse(b@) == Some(blocks_view(sd.data@)),
        },
{
    proof {
        assert(b@.subrange(0, b@.len() as int) =~= b@);
    }
    let n = b.len();
    let (count, u) = match decode_varint(b, 0) {
        None => {
            return None;
        },
        Some(p) => p,
    };
    let mut acc: Vec<ECCData> = Vec::new();
    let mut cur: usize = u;
    let mut k: u64 = 0;
    proof {
        match blocks_parse(b@, cur as int, count as int) {
            None => {},
            Some((rest, end)) => {
                assert(blocks_view(acc@) + rest =~= rest);
            },
        }
    }
    while k < count
        invariant
            n == b@.len(),
            cur <= b@.len(),
            k <= count,
            varint_parse(b@) == Some((count, u as int)),
            match blocks_parse(b@, cur as int, count - k) {
                None => blocks_parse(b@, u as int, count as int) is None,
                Some((rest, end)) => blocks_parse(b@, u as int, count as int) == Some(
                    (blocks_view(acc@) + rest, end),
                ),
            },
        decreases count - k,
    {
        let ghost rem = count - k;
        let (alg, u1) = match decode_varint(b, cur) {
            None => {
                return None;
            },
            Some(p) => p,
        };
        let (blen, u2) = match decode_varint(b, cur + u1) {
            None => {
                return None;
            },
            Some(p) => p,
        };
        let start = cur + u1 + u2;
        if blen > (b.len() - start) as u64 {
            proof {
                assert(blocks_parse(b@, cur as int, rem) is None);
            }
            return None;
        }
        let blen_us = blen as usize;
        let bytes = copy_range(b, start, start + blen_us);
        let ghost accv = blocks_view(acc@);
        acc.push(ECCData { ecc_algorithm: alg, ecc: bytes });
        proof {
            assert(blocks_view(acc@) =~= accv + seq![
                (alg, b@.subrange(start as int, start as int + blen as int)),
            ]);
            match blocks_parse(b@, (start + blen_us) as int, rem - 1) {
                None => {},
                Some((rest2, end2)) => {
                    assert(blocks_parse(b@, cur as int, rem) == Some(
                        (
                            seq![(alg, b@.subrange(start as int, start as int + blen as int))]
                                + rest2,
                            end2,
                        ),
                    ));
                    assert(blocks_view(acc@) + rest2 =~= accv + (seq![
                        (alg, b@.subrange(start as int, start as int + blen as int)),
                    ] + rest2));
                },
            }
        }
        cur = start + blen_us;
        k = k + 1;
    }
    proof {
        assert(blocks_parse(b@, cur as int, 0) == Some((Seq::<(u64, Seq<u8>)>::empty(), cur as int)));
        assert(blocks_view(acc@) + Seq::<(u64, Seq<u8>)>::empty() =~= blocks_view(acc@));
    }
    Some(StoredData { data: acc })
}

// ------------------------------------------------------------------
// Secret box codec
// ------------------------------------------------------------------

/// The serialized secret box: the length-prefixed ciphertext, then the
/// length-prefixed tag.
pub open spec fn secretbox_bytes(ct: Seq<u8>, tag: Seq<u8>) -> Seq<u8> {
    varint_bytes(ct.len() as u64) + ct + varint_bytes(tag.len() as u64) + tag
}

/// Parsing a serialized secret box; the whole slice must be consumed.
pub open spec fn secretbox_parse(b: Seq<u8>) -> Option<(Seq<u8>, Seq<u8>)> {
    match varint_parse(b) {
        None => None,
        Some((ctlen, u1)) => if u1 + ctlen <= b.len() {
            let ct = b.subrange(u1, u1 + ctlen as int);
            let mid = u1 + ctlen as int;
            match varint_parse(b.subrange(mid, b.len() as int)) {
                None => None,
                Some((taglen, u2)) => if mid + u2 + taglen == b.len() {
                    Some((ct, b.subrange(mid + u2, b.len() as int)))
                } else {
                    None
                },
            }
        } else {
            None
        },
    }
}

/// Deserializing a serialized secret box gives its two parts back.
pub proof fn lemma_secretbox_round_trip(ct: Seq<u8>, tag: Seq<u8>)
    requires
        ct.len() < 0x10000000000000000,
        tag.len() < 0x10000000000000000,
    ensures
        secretbox_parse(secretbox_bytes(ct, tag)) == Some((ct, tag)),
{
    let b = secretbox_bytes(ct, tag);
    let v1 = varint_bytes(ct.len() as u64);
    let v2 = varint_bytes(tag.len() as u64);
    let r1 = ct + v2 + tag;
    assert(b =~= v1 + r1);
    lemma_varint_round_trip(ct.len() as u64, r1);
    let u1 = v1.len() as int;
    assert(b.subrange(u1, u1 + ct.len() as int) =~= ct);
    let mid = u1 + ct.len() as int;
    assert(b.subrange(mid, b.len() as int) =~= v2 + tag);
    lemma_varint_round_trip(tag.len() as u64, tag);
    let u2 = v2.len() as int;
    assert(b.subrange(mid + u2, b.len() as int) =~= tag);
}

/// Serialize a secret box for transport.
pub fn serialize_secretbox(sb: &CryptoSecretbox) -> (r: Vec<u8>)
    ensures
        r@ == secretbox_bytes(sb.ciphertext@, sb.tag@),
{
    let mut out: Vec<u8> = Vec::new();
    encode_varint(&mut out, sb.ciphertext.len() as u64);
    push_all(&mut out, sb.ciphertext.as_slice());
    encode_varint(&mut out, sb.tag.len() as u64);
    push_all(&mut out, sb.tag.as_slice());
    proof {
        assert(out@ =~= secretbox_bytes(sb.ciphertext@, sb.tag@));
    }
    out
}

/// Parse a slice as a secret box; `None` when it is not one.
pub fn deserialize_secretbox(b: &[u8]) -> (r: Option<CryptoSecretbox>)
    ensures
        match r {
            None => secretbox_parse(b@) is None,
            Some(sb) => secretbox_parse(b@) == Some((sb.ciphertext@, sb.tag@)),
        },
{
    proof {
        assert(b@.subrange(0, b@.len() as int) =~= b@);
    }
    let (ctlen, u1) = match decode_varint(b, 0) {
        None => {
            return None;
        },
        Some(p) => p,
    };
    if ctlen > (b.len() - u1) as u64 {
        return None;
    }
    let mid = u1 + ctlen as usize;
    let ct = copy_range(b, u1, mid);
    let (taglen, u2) = match decode_varint(b, mid) {
        None => {
            return None;
        },
        Some(p) => p,
    };
    if taglen != (b.len() - (mid + u2)) as u64 {
        return None;
    }
    let tag = copy_range(b, mid + u2, b.len());
    Some(CryptoSecretbox { ciphertext: ct, tag })
}

} // verus!
