//! The damage-tolerant container: a stream of length-prefixed records that
//! interleaves replicated header copies with the chunks of the serialized
//! redundancy pack, and the recovery walk that reads a possibly corrupted
//! stream back.

use vstd::prelude::*;

use crate::checksum::{checksum_hi, checksum_lo, paranoid_checksum_bytes};
use crate::codec::{
    deserialize_header, deserialize_stored_data, header_bytes, header_parse,
    lemma_header_round_trip, pack_bytes, pack_parse, push_all, serialize_header,
    serialize_stored_data,
};
use crate::damage::{
    copy_times, damage_bits, spec_copy_times, spec_damage_bits, spec_rs_ecc_len, DamageLevel,
};
use crate::ecc::{create_ecc, spec_create_ecc};
use crate::error::ErrorKind;
use crate::objects::{blocks_view, Header, StoredData};
use crate::varint::{
    decode_varint, encode_varint, lemma_varint_bytes_len, lemma_varint_parse_shape,
    lemma_varint_round_trip, varint_bytes, varint_parse,
};

verus! {

// ------------------------------------------------------------------
// The record walk
// ------------------------------------------------------------------

/// One length-prefixed record.
pub open spec fn record_bytes(b: Seq<u8>) -> Seq<u8> {
    varint_bytes(b.len() as u64) + b
}

/// A run of length-prefixed records.
pub open spec fn records_bytes(rs: Seq<Seq<u8>>) -> Seq<u8>
    decreases rs.len(),
{
    if rs.len() == 0 {
        Seq::empty()
    } else {
        record_bytes(rs[0]) + records_bytes(rs.skip(1))
    }
}

/// Record framing distributes over concatenation of record lists.
pub proof fn lemma_records_bytes_concat(x: Seq<Seq<u8>>, y: Seq<Seq<u8>>)
    ensures
        records_bytes(x + y) == records_bytes(x) + records_bytes(y),
    decreases x.len(),
{
    if x.len() == 0 {
        assert(x + y =~= y);
        assert(records_bytes(x) + records_bytes(y) =~= records_bytes(y));
    } else {
        lemma_records_bytes_concat(x.skip(1), y);
        assert((x + y).skip(1) =~= x.skip(1) + y);
        assert(records_bytes(x + y) =~= records_bytes(x) + records_bytes(y));
    }
}

/// The resynchronizing walk: read a length, take that many bytes as one
/// record, continue after them; stop where no length parses or the length
/// overruns the stream.
pub open spec fn stream_records(s: Seq<u8>, from: int) -> Seq<(u64, Seq<u8>)>
    decreases s.len() - from,
{
    if !(0 <= from < s.len()) {
        Seq::empty()
    } else {
        match varint_parse(s.subrange(from, s.len() as int)) {
            None => Seq::empty(),
            Some((l, u)) => {
                if u < 1 || from + u + l > s.len() {
                    Seq::empty()
                } else {
                    seq![(l, s.subrange(from + u, from + u + l))] + stream_records(
                        s,
                        from + u + l,
                    )
                }
            },
        }
    }
}

/// A run of well-formed records walks back to exactly those records.
pub proof fn lemma_walk_round_trip(s: Seq<u8>, from: int, rs: Seq<Seq<u8>>)
    requires
        0 <= from <= s.len(),
        s.subrange(from, s.len() as int) == records_bytes(rs),
        forall|i: int| 0 <= i < rs.len() ==> (#[trigger] rs[i]).len() < 0x10000000000000000,
    ensures
        stream_records(s, from) == rs.map_values(|b: Seq<u8>| (b.len() as u64, b)),
    decreases rs.len(),
{
    let sub = s.subrange(from, s.len() as int);
    if rs.len() == 0 {
        assert(sub =~= Seq::<u8>::empty());
        assert(from == s.len());
        assert(rs.map_values(|b: Seq<u8>| (b.len() as u64, b)) =~= Seq::<(u64, Seq<u8>)>::empty());
    } else {
        let r0 = rs[0];
        let rest = rs.skip(1);
        let lv = varint_bytes(r0.len() as u64);
        let tail = r0 + records_bytes(rest);
        assert(records_bytes(rs) == record_bytes(r0) + records_bytes(rest));
        assert(sub =~= lv + tail);
        lemma_varint_round_trip(r0.len() as u64, tail);
        lemma_varint_bytes_len(r0.len() as u64);
        let u = lv.len() as int;
        assert(varint_parse(sub) == Some((r0.len() as u64, u)));
        let l = r0.len() as int;
        assert(from + u + l <= s.len());
        assert(from < s.len());
        assert(s.subrange(from + u, from + u + l) =~= r0) by {
            assert(forall|j: int|
                0 <= j < l ==> #[trigger] s.subrange(from + u, from + u + l)[j] == sub[u + j]);
        };
        assert(s.subrange(from + u + l, s.len() as int) =~= records_bytes(rest)) by {
            assert(forall|j: int|
                0 <= j < s.len() - (from + u + l) ==> #[trigger] s.subrange(
                    from + u + l,
                    s.len() as int,
                )[j] == sub[u + l + j]);
        };
        lemma_walk_round_trip(s, from + u + l, rest);
        assert(stream_records(s, from) =~= rs.map_values(|b: Seq<u8>| (b.len() as u64, b)));
    }
}

// ------------------------------------------------------------------
// Header candidates, election, payload reassembly
// ------------------------------------------------------------------

/// A header is accepted when its fixed fields carry the supported values
/// and its payload length is nonzero.
pub open spec fn spec_filter_valid_header(h: Header) -> bool {
    h.version == 0 && h.encryption_algorithm == 0 && h.data_len > 0 && h.crc_algorithm == 0
}

/// Whether a header passes field validation.
pub fn filter_valid_header(h: &Header) -> (r: bool)
    ensures
        r == spec_filter_valid_header(*h),
{
    h.version == 0 && h.encryption_algorithm == 0 && h.data_len > 0 && h.crc_algorithm == 0
}

/// Whether a record's bytes are a header copy: they parse, whole, as a
/// field-valid header.
pub open spec fn is_header_candidate(b: Seq<u8>) -> bool {
    match header_parse(b) {
        Some(h) => spec_filter_valid_header(h),
        None => false,
    }
}

/// The field-valid headers parsed out of the header-copy records, in
/// stream order.
pub open spec fn stream_candidates(recs: Seq<(u64, Seq<u8>)>) -> Seq<Header>
    decreases recs.len(),
{
    if recs.len() == 0 {
        Seq::empty()
    } else {
        let rest = stream_candidates(recs.skip(1));
        match header_parse(recs[0].1) {
            Some(h) => if spec_filter_valid_header(h) {
                seq![h] + rest
            } else {
                rest
            },
            None => rest,
        }
    }
}

/// The bytes of all records that are not header copies, concatenated in
/// stream order: the reassembled serialized pack.
pub open spec fn stream_payload(recs: Seq<(u64, Seq<u8>)>) -> Seq<u8>
    decreases recs.len(),
{
    if recs.len() == 0 {
        Seq::empty()
    } else {
        let rest = stream_payload(recs.skip(1));
        if is_header_candidate(recs[0].1) {
            rest
        } else {
            recs[0].1 + rest
        }
    }
}

/// The bytes of each non-header record on its own, in stream order: the
/// pieces the pack is reassembled from.
pub open spec fn stream_payload_segments(recs: Seq<(u64, Seq<u8>)>) -> Seq<Seq<u8>>
    decreases recs.len(),
{
    if recs.len() == 0 {
        Seq::empty()
    } else {
        let rest = stream_payload_segments(recs.skip(1));
        if is_header_candidate(recs[0].1) {
            rest
        } else {
            seq![recs[0].1] + rest
        }
    }
}

/// How many of the first `n` entries equal `h`.
pub open spec fn count_eq_upto(s: Seq<Header>, h: Header, n: int) -> int
    decreases n,
{
    if n <= 0 {
        0
    } else {
        count_eq_upto(s, h, n - 1) + if s[n - 1] == h {
            1int
        } else {
            0int
        }
    }
}

/// How many entries equal `h`.
pub open spec fn count_eq(s: Seq<Header>, h: Header) -> int {
    count_eq_upto(s, h, s.len() as int)
}

/// The index of the elected entry among the first `n`: the most frequent,
/// first appearance breaking ties.
pub open spec fn best_idx(s: Seq<Header>, n: int) -> int
    decreases n,
{
    if n <= 1 {
        0
    } else {
        let prev = best_idx(s, n - 1);
        if count_eq(s, s[n - 1]) > count_eq(s, s[prev]) {
            n - 1
        } else {
            prev
        }
    }
}

/// The elected index stays in range.
pub proof fn lemma_best_idx_bounds(s: Seq<Header>, n: int)
    requires
        1 <= n,
    ensures
        0 <= best_idx(s, n) < n,
    decreases n,
{
    if n > 1 {
        lemma_best_idx_bounds(s, n - 1);
    }
}

/// The elected header: the most frequent valid candidate, first seen
/// breaking ties; `None` when there is no candidate.
pub open spec fn elect_header(s: Seq<Header>) -> Option<Header> {
    if s.len() == 0 {
        None
    } else {
        Some(s[best_idx(s, s.len() as int)])
    }
}

/// What header extraction yields on a stream: the elected header and the
/// reassembled pack bytes.
pub open spec fn extract_spec(s: Seq<u8>) -> Option<(Header, Seq<u8>)> {
    let recs = stream_records(s, 0);
    match elect_header(stream_candidates(recs)) {
        None => None,
        Some(h) => Some((h, stream_payload(recs))),
    }
}

/// The count of each entry of `items`, entry by entry.
pub fn frequencies(items: &Vec<Header>) -> (r: Vec<(Header, usize)>)
    ensures
        r@.len() == items@.len(),
        forall|i: int|
            0 <= i < items@.len() ==> (#[trigger] r@[i]).0 == items@[i] && r@[i].1 as int
                == count_eq(items@, items@[i]),
{
    let n = items.len();
    let mut r: Vec<(Header, usize)> = Vec::new();
    let mut i: usize = 0;
    while i < n
        invariant
            n == items@.len(),
            i <= n,
            r@.len() == i,
            forall|k: int|
                0 <= k < i ==> (#[trigger] r@[k]).0 == items@[k] && r@[k].1 as int == count_eq(
                    items@,
                    items@[k],
                ),
        decreases n - i,
    {
        let h = items[i];
        let mut cnt: usize = 0;
        let mut j: usize = 0;
        while j < n
            invariant
                n == items@.len(),
                j <= n,
                cnt <= j,
                cnt as int == count_eq_upto(items@, h, j as int),
            decreases n - j,
        {
            if items[j] == h {
                cnt = cnt + 1;
            }
            j = j + 1;
        }
        r.push((h, cnt));
        i = i + 1;
    }
    r
}

/// Walk the stream into records, collect the valid header candidates and
/// the bytes of every other record, and elect the header: the elected
/// header and the payload segments, or an error when no record holds a
/// valid header.
fn extract_segments(data: &[u8]) -> (r: Result<(Header, Vec<Vec<u8>>), ErrorKind>)
    ensures
        match r {
            Ok(p) => elect_header(stream_candidates(stream_records(data@, 0))) == Some(p.0)
                && p.1.deep_view() == stream_payload_segments(stream_records(data@, 0)),
            Err(e) => elect_header(stream_candidates(stream_records(data@, 0))) is None && e
                == ErrorKind::StoredDataDeserializationError,
        },
{
    let n = data.len();
    let mut cands: Vec<Header> = Vec::new();
    let mut segments: Vec<Vec<u8>> = Vec::new();
    let mut from: usize = 0;
    let ghost all = stream_records(data@, 0);
    proof {
        assert(stream_candidates(Seq::<(u64, Seq<u8>)>::empty()) =~= Seq::<Header>::empty());
        assert(cands@ + stream_candidates(stream_records(data@, 0)) =~= stream_candidates(all));
        assert(segments.deep_view() + stream_payload_segments(stream_records(data@, 0))
            =~~= stream_payload_segments(all));
    }
    let mut stop: bool = false;
    while from < n && !stop
        invariant
            n == data@.len(),
            from <= n,
            all == stream_records(data@, 0),
            stop ==> stream_records(data@, from as int) =~= Seq::<(u64, Seq<u8>)>::empty(),
            cands@ + stream_candidates(stream_records(data@, from as int)) == stream_candidates(
                all,
            ),
            segments.deep_view() + stream_payload_segments(stream_records(data@, from as int))
                == stream_payload_segments(all),
        decreases n - from, (if stop {
            0int
        } else {
            1int
        }),
    {
        let ghost rem = stream_records(data@, from as int);
        match decode_varint(data, from) {
            None => {
                stop = true;
            },
            Some((l, u)) => {
                if l > (n - (from + u)) as u64 {
                    proof {
                        assert(rem =~= Seq::<(u64, Seq<u8>)>::empty());
                    }
                    stop = true;
                } else {
                    let l_us = l as usize;
                    let start = from + u;
                    let ghost rec = (l, data@.subrange(start as int, start as int + l as int));
                    proof {
                        assert(rem =~= seq![rec] + stream_records(
                            data@,
                            start as int + l as int,
                        ));
                        assert(rem[0] == rec);
                        assert(rem.skip(1) =~= stream_records(data@, start as int + l as int));
                    }
                    let slice = crate::codec::copy_range(data, start, start + l_us);
                    let mut taken: bool = false;
                    match deserialize_header(slice.as_slice()) {
                        Some(h) => {
                            if filter_valid_header(&h) {
                                taken = true;
                                let ghost before = cands@;
                                cands.push(h);
                                proof {
                                    assert(is_header_candidate(rec.1));
                                    assert(stream_candidates(rem) =~= seq![h]
                                        + stream_candidates(
                                        stream_records(data@, start as int + l as int),
                                    ));
                                    assert(cands@ =~= before + seq![h]);
                                    assert(cands@ + stream_candidates(
                                        stream_records(data@, start as int + l as int),
                                    ) =~= before + stream_candidates(rem));
                                    assert(stream_payload_segments(rem)
                                        =~= stream_payload_segments(
                                        stream_records(data@, start as int + l as int),
                                    ));
                                }
                            }
                        },
                        None => {},
                    }
                    if !taken {
                        let ghost before = segments.deep_view();
                        segments.push(slice);
                        proof {
                            assert(!is_header_candidate(rec.1));
                            assert(stream_candidates(rem) =~= stream_candidates(
                                stream_records(data@, start as int + l as int),
                            ));
                            assert(stream_payload_segments(rem) =~= seq![rec.1]
                                + stream_payload_segments(
                                stream_records(data@, start as int + l as int),
                            ));
                            assert(segments.deep_view() =~~= before.push(rec.1));
                            assert(segments.deep_view() + stream_payload_segments(
                                stream_records(data@, start as int + l as int),
                            ) =~~= before + stream_payload_segments(rem));
                        }
                    }
                    from = start + l_us;
                }
            },
        }
    }
    proof {
        if !stop {
            assert(stream_records(data@, from as int) =~= Seq::<(u64, Seq<u8>)>::empty());
        }
        assert(stream_candidates(Seq::<(u64, Seq<u8>)>::empty()) =~= Seq::<Header>::empty());
        assert(stream_payload_segments(Seq::<(u64, Seq<u8>)>::empty()) =~= Seq::<Seq<u8>>::empty());
        assert(cands@ =~= stream_candidates(all));
        assert(segments.deep_view() =~~= stream_payload_segments(all));
    }
    // Elect the most frequent candidate, first seen breaking ties.
    if cands.len() == 0 {
        return Err(ErrorKind::StoredDataDeserializationError);
    }
    let freqs = frequencies(&cands);
    let mut best: usize = 0;
    let mut i: usize = 1;
    proof {
        lemma_best_idx_bounds(cands@, cands@.len() as int);
    }
    while i < cands.len()
        invariant
            freqs@.len() == cands@.len(),
            1 <= i <= cands@.len(),
            best as int == best_idx(cands@, i as int),
            best < i,
            forall|k: int|
                0 <= k < cands@.len() ==> (#[trigger] freqs@[k]).0 == cands@[k] && freqs@[k].1
                    as int == count_eq(cands@, cands@[k]),
        decreases cands@.len() - i,
    {
        if freqs[i].1 > freqs[best].1 {
            best = i;
        }
        proof {
            lemma_best_idx_bounds(cands@, i as int);
        }
        i = i + 1;
    }
    let elected = cands[best];
    Ok((elected, segments))
}

/// Walk the stream, elect the header among the valid candidates, and
/// reassemble the payload from every other record, in stream order.
pub fn try_to_extract_header(data: &[u8]) -> (r: Result<(Header, Vec<u8>), ErrorKind>)
    ensures
        match r {
            Ok((h, payload)) => extract_spec(data@) == Some((h, payload@)),
            Err(e) => extract_spec(data@) is None && e
                == ErrorKind::StoredDataDeserializationError,
        },
{
    let parts = match extract_segments(data) {
        Ok(p) => p,
        Err(e) => {
            return Err(e);
        },
    };
    let header = parts.0;
    let segments = parts.1;
    let ghost sv = segments.deep_view();
    let mut payload: Vec<u8> = Vec::new();
    let mut j: usize = 0;
    proof {
        assert(sv.take(0) =~= Seq::<Seq<u8>>::empty());
        assert(concat_seqs(Seq::<Seq<u8>>::empty()) =~= Seq::<u8>::empty());
        assert(payload@ =~= concat_seqs(sv.take(0)));
    }
    while j < segments.len()
        invariant
            sv == segments.deep_view(),
            sv.len() == segments@.len(),
            j <= segments@.len(),
            payload@ == concat_seqs(sv.take(j as int)),
        decreases segments@.len() - j,
    {
        push_all(&mut payload, segments[j].as_slice());
        proof {
            assert(segments@[j as int]@ == sv[j as int]);
            assert(sv.take(j + 1) =~= sv.take(j as int) + seq![sv[j as int]]);
            lemma_concat_seqs_concat(sv.take(j as int), seq![sv[j as int]]);
            assert(seq![sv[j as int]].skip(1) =~= Seq::<Seq<u8>>::empty());
            assert(concat_seqs(Seq::<Seq<u8>>::empty()) =~= Seq::<u8>::empty());
            assert(concat_seqs(seq![sv[j as int]]) =~= sv[j as int]);
            assert(payload@ =~= concat_seqs(sv.take(j + 1)));
        }
        j = j + 1;
    }
    proof {
        assert(sv.take(sv.len() as int) =~= sv);
        lemma_segments_join(stream_records(data@, 0));
    }
    Ok((header, payload))
}

// ------------------------------------------------------------------
// Container assembly
// ------------------------------------------------------------------

/// The chunk size for a pack of `plen` bytes spread over `copies` header
/// copies: the ceiling of their quotient, at least one.
pub open spec fn spec_chunk_size(plen: nat, copies: nat) -> nat {
    let c = (plen as int + copies as int - 1) / (copies as int);
    if c < 1 {
        1nat
    } else {
        c as nat
    }
}

/// The pack split into chunks of `csize` bytes; the last chunk may be
/// shorter.
pub open spec fn chunks_of(p: Seq<u8>, csize: nat) -> Seq<Seq<u8>>
    decreases p.len(),
{
    if csize < 1 || p.len() == 0 {
        Seq::empty()
    } else if p.len() <= csize {
        seq![p]
    } else {
        seq![p.take(csize as int)] + chunks_of(p.skip(csize as int), csize)
    }
}

/// There are never more chunks than pack bytes.
pub proof fn lemma_chunks_count(p: Seq<u8>, csize: nat)
    requires
        csize >= 1,
    ensures
        chunks_of(p, csize).len() <= p.len(),
    decreases p.len(),
{
    if p.len() > csize {
        lemma_chunks_count(p.skip(csize as int), csize);
    }
}

/// A header copy in front of every chunk.
pub open spec fn interleaved(h: Seq<u8>, cs: Seq<Seq<u8>>) -> Seq<Seq<u8>>
    decreases cs.len(),
{
    if cs.len() == 0 {
        Seq::empty()
    } else {
        seq![h, cs[0]] + interleaved(h, cs.skip(1))
    }
}

/// `k` copies of the header on its own.
pub open spec fn repeated(h: Seq<u8>, k: nat) -> Seq<Seq<u8>> {
    Seq::new(k, |i: int| h)
}

/// The records of a container: a header copy before each pack chunk, then
/// bare header copies until `copies` of them stand in the stream.
pub open spec fn assemble_records(p: Seq<u8>, h: Seq<u8>, copies: nat) -> Seq<Seq<u8>> {
    let cs = chunks_of(p, spec_chunk_size(p.len(), copies));
    let trailing: nat = if copies > cs.len() {
        (copies - cs.len()) as nat
    } else {
        0nat
    };
    interleaved(h, cs) + repeated(h, trailing)
}

/// The container stream: its records, length-prefixed.
pub open spec fn assemble_stream(p: Seq<u8>, h: Seq<u8>, copies: nat) -> Seq<u8> {
    records_bytes(assemble_records(p, h, copies))
}

/// Interleave `allowed_damage_bits + 2` copies of the serialized header
/// with the chunks of the serialized pack, every piece length-prefixed.
pub fn insert_header_in_data_crc(data: &[u8], header: &[u8], allowed_damage_bits: usize) -> (r:
    Vec<u8>)
    requires
        allowed_damage_bits <= 0x20000000,
        data@.len() <= 0x4000000,
    ensures
        r@ == assemble_stream(data@, header@, (allowed_damage_bits + 2) as nat),
{
    let n = data.len();
    let copies: usize = allowed_damage_bits + 2;
    let mut csize: usize = (n + (copies - 1)) / copies;
    if csize < 1 {
        csize = 1;
    }
    proof {
        assert(csize as nat == spec_chunk_size(data@.len(), copies as nat));
    }
    let ghost all_chunks = chunks_of(data@, csize as nat);
    let ghost inter_all = interleaved(header@, all_chunks);
    let mut out: Vec<u8> = Vec::new();
    let mut cursor: usize = 0;
    let mut nchunks: usize = 0;
    proof {
        lemma_chunks_count(data@, csize as nat);
        assert(data@.skip(0) =~= data@);
        assert(out@ + records_bytes(interleaved(header@, chunks_of(data@.skip(0), csize as nat)))
            =~= records_bytes(inter_all));
    }
    while cursor < n
        invariant
            n == data@.len(),
            1 <= csize,
            cursor <= n,
            all_chunks == chunks_of(data@, csize as nat),
            inter_all == interleaved(header@, all_chunks),
            all_chunks.len() <= data@.len(),
            nchunks + chunks_of(data@.skip(cursor as int), csize as nat).len()
                == all_chunks.len(),
            out@ + records_bytes(
                interleaved(header@, chunks_of(data@.skip(cursor as int), csize as nat)),
            ) == records_bytes(inter_all),
        decreases n - cursor,
    {
        let end: usize = if n - cursor <= csize {
            n
        } else {
            cursor + csize
        };
        let ghost rem = data@.skip(cursor as int);
        let ghost c0 = data@.subrange(cursor as int, end as int);
        let ghost crest = chunks_of(data@.skip(end as int), csize as nat);
        proof {
            if rem.len() <= csize as nat {
                assert(c0 =~= rem);
                assert(chunks_of(rem, csize as nat) == seq![rem]);
                assert(data@.skip(end as int) =~= Seq::<u8>::empty());
                assert(chunks_of(rem, csize as nat) =~= seq![c0] + crest);
            } else {
                assert(c0 =~= rem.take(csize as int));
                assert(rem.skip(csize as int) =~= data@.skip(end as int));
                assert(chunks_of(rem, csize as nat) =~= seq![c0] + crest);
            }
            let cs = chunks_of(rem, csize as nat);
            assert(cs[0] == c0);
            assert(cs.skip(1) =~= crest);
            let inter = interleaved(header@, cs);
            assert(inter =~= seq![header@, c0] + interleaved(header@, crest));
            assert(inter[0] == header@);
            assert(inter.skip(1) =~= seq![c0] + interleaved(header@, crest));
            assert((seq![c0] + interleaved(header@, crest))[0] == c0);
            assert((seq![c0] + interleaved(header@, crest)).skip(1) =~= interleaved(
                header@,
                crest,
            ));
            assert(records_bytes(seq![c0] + interleaved(header@, crest)) =~= record_bytes(c0)
                + records_bytes(interleaved(header@, crest)));
            assert(records_bytes(inter) =~= record_bytes(header@) + (record_bytes(c0)
                + records_bytes(interleaved(header@, crest))));
        }
        let ghost before = out@;
        encode_varint(&mut out, header.len() as u64);
        push_all(&mut out, header);
        encode_varint(&mut out, (end - cursor) as u64);
        let mut k: usize = cursor;
        let ghost mid = out@;
        while k < end
            invariant
                n == data@.len(),
                cursor <= k <= end <= n,
                out@ == mid + data@.subrange(cursor as int, k as int),
            decreases end - k,
        {
            out.push(data[k]);
            proof {
                assert(out@ =~= mid + data@.subrange(cursor as int, k + 1));
            }
            k = k + 1;
        }
        proof {
            assert(out@ =~= before + (record_bytes(header@) + record_bytes(c0)));
            assert(out@ + records_bytes(interleaved(header@, crest)) =~= before + records_bytes(
                interleaved(header@, chunks_of(rem, csize as nat)),
            ));
        }
        cursor = end;
        nchunks = nchunks + 1;
    }
    proof {
        assert(data@.skip(cursor as int) =~= Seq::<u8>::empty());
        assert(chunks_of(Seq::<u8>::empty(), csize as nat) =~= Seq::<Seq<u8>>::empty());
        assert(interleaved(header@, Seq::<Seq<u8>>::empty()) =~= Seq::<Seq<u8>>::empty());
        assert(records_bytes(Seq::<Seq<u8>>::empty()) =~= Seq::<u8>::empty());
        assert(out@ + Seq::<u8>::empty() =~= out@);
        assert(out@ == records_bytes(inter_all));
        assert(nchunks == all_chunks.len());
    }
    let trailing: usize = if copies > nchunks {
        copies - nchunks
    } else {
        0
    };
    let ghost target = assemble_stream(data@, header@, copies as nat);
    proof {
        lemma_records_bytes_concat(inter_all, repeated(header@, trailing as nat));
        assert(assemble_records(data@, header@, copies as nat) == inter_all + repeated(
            header@,
            trailing as nat,
        ));
        assert(target == records_bytes(inter_all) + records_bytes(
            repeated(header@, trailing as nat),
        ));
    }
    let mut j: usize = 0;
    while j < trailing
        invariant
            j <= trailing,
            out@ + records_bytes(repeated(header@, (trailing - j) as nat)) == target,
            header@ == header@,
        decreases trailing - j,
    {
        let ghost k = (trailing - j) as nat;
        let ghost reps = repeated(header@, k);
        proof {
            assert(reps[0] == header@);
            assert(reps.skip(1) =~= repeated(header@, (k - 1) as nat));
            assert(records_bytes(reps) =~= record_bytes(header@) + records_bytes(
                repeated(header@, (k - 1) as nat),
            ));
        }
        let ghost before = out@;
        encode_varint(&mut out, header.len() as u64);
        push_all(&mut out, header);
        proof {
            assert(out@ =~= before + record_bytes(header@));
            assert(out@ + records_bytes(repeated(header@, (k - 1) as nat)) =~= before
                + records_bytes(reps));
        }
        j = j + 1;
    }
    proof {
        assert(repeated(header@, 0nat) =~= Seq::<Seq<u8>>::empty());
        assert(records_bytes(Seq::<Seq<u8>>::empty()) =~= Seq::<u8>::empty());
        assert(out@ + Seq::<u8>::empty() =~= out@);
    }
    out
}

// ------------------------------------------------------------------
// Wrapping a payload
// ------------------------------------------------------------------

/// The header a wrap writes for this payload: current format tags, the
/// payload length and its paranoid checksum.
pub open spec fn spec_header_for(data: Seq<u8>) -> Header {
    Header {
        version: 0,
        encryption_algorithm: 0,
        data_len: data.len() as u64,
        crc_algorithm: 0,
        crc0: checksum_hi(data),
        crc1: checksum_lo(data),
    }
}

/// The size bound on the serialized pack a container may carry.
pub const MAX_PACK_BYTES: usize = 16384;

/// When a wrap succeeds: a nonempty payload whose serialized pack stays
/// within the container's size bound.
pub open spec fn wrap_ok(data: Seq<u8>, lvl: DamageLevel) -> bool {
    lvl.wf() && data.len() >= 1 && pack_bytes(spec_create_ecc(data, lvl)).len() <= 16384
}

/// The container stream a wrap emits.
pub open spec fn wrap_stream(data: Seq<u8>, lvl: DamageLevel) -> Seq<u8> {
    assemble_stream(
        pack_bytes(spec_create_ecc(data, lvl)),
        header_bytes(spec_header_for(data)),
        (spec_damage_bits(data.len(), lvl) + 2) as nat,
    )
}

/// Every serialized block takes at least two bytes.
proof fn lemma_blocks_bytes_lower(blocks: Seq<(u64, Seq<u8>)>)
    ensures
        crate::codec::blocks_bytes(blocks).len() >= 2 * blocks.len(),
    decreases blocks.len(),
{
    if blocks.len() > 0 {
        lemma_blocks_bytes_lower(blocks.skip(1));
        lemma_varint_bytes_len(blocks[0].0);
        lemma_varint_bytes_len(blocks[0].1.len() as u64);
    }
}

/// Wrap a payload: build its redundancy blocks, serialize them, and
/// interleave the pack's chunks with replicated headers.  Fails exactly on
/// an empty payload or one whose pack exceeds the size bound.
pub fn add_ecc_and_crc(data: &[u8], allowed_data_damage_level: &DamageLevel) -> (r: Result<
    Vec<u8>,
    ErrorKind,
>)
    requires
        allowed_data_damage_level.wf(),
    ensures
        r is Ok <==> wrap_ok(data@, *allowed_data_damage_level),
        r matches Ok(stream) ==> stream@ == wrap_stream(data@, *allowed_data_damage_level)
            && crate::ecc::parity_len_ok(data@, *allowed_data_damage_level),
        data@.len() == 0 ==> r == Err::<Vec<u8>, ErrorKind>(ErrorKind::EmptyData),
        data@.len() > 0 && r is Err ==> r == Err::<Vec<u8>, ErrorKind>(
            ErrorKind::StoredDataSerializationError,
        ),
{
    let lvl = allowed_data_damage_level;
    if data.len() == 0 {
        return Err(ErrorKind::EmptyData);
    }
    let copies128 = copy_times(data.len(), lvl);
    if copies128 > 16384 {
        proof {
            let blocks = spec_create_ecc(data@, *lvl);
            assert(blocks.len() >= spec_copy_times(data@.len(), *lvl) + 1);
            lemma_blocks_bytes_lower(blocks);
            assert(pack_bytes(blocks).len() >= crate::codec::blocks_bytes(blocks).len());
        }
        return Err(ErrorKind::StoredDataSerializationError);
    }
    let blocks = create_ecc(data, lvl);
    let sd = StoredData { data: blocks };
    let pack = serialize_stored_data(&sd);
    if pack.len() > MAX_PACK_BYTES {
        return Err(ErrorKind::StoredDataSerializationError);
    }
    let (c0, c1) = paranoid_checksum_bytes(data);
    let header = Header {
        version: 0,
        encryption_algorithm: 0,
        data_len: data.len() as u64,
        crc_algorithm: 0,
        crc0: c0,
        crc1: c1,
    };
    proof {
        assert(header == spec_header_for(data@));
    }
    let hbytes = serialize_header(&header);
    proof {
        assert(spec_damage_bits(data@.len(), *lvl) <= 8 * (spec_copy_times(data@.len(), *lvl)
            + 1));
    }
    let bits128 = damage_bits(data.len(), lvl);
    let bits = bits128 as usize;
    let stream = insert_header_in_data_crc(pack.as_slice(), hbytes.as_slice(), bits);
    proof {
        assert(stream@ == wrap_stream(data@, *lvl));
    }
    Ok(stream)
}

// ------------------------------------------------------------------
// Recovery
// ------------------------------------------------------------------

/// Whether the header's stored checksum is the paranoid checksum of the
/// bytes.
pub open spec fn crc_matches(h: Header, bytes: Seq<u8>) -> bool {
    h.crc0 == checksum_hi(bytes) && h.crc1 == checksum_lo(bytes)
}

/// The first verbatim-copy block whose bytes match the header's checksum.
pub open spec fn first_valid_copy(blocks: Seq<(u64, Seq<u8>)>, h: Header) -> Option<Seq<u8>>
    decreases blocks.len(),
{
    if blocks.len() == 0 {
        None
    } else if blocks[0].0 == 0 && crc_matches(h, blocks[0].1) {
        Some(blocks[0].1)
    } else {
        first_valid_copy(blocks.skip(1), h)
    }
}

/// The left-most window of `wl` bytes from `st` on whose checksum matches
/// the header's.
pub open spec fn window_match_from(ecc: Seq<u8>, h: Header, wl: int, st: int) -> Option<Seq<u8>>
    decreases ecc.len() - st,
{
    if !(0 <= st && wl >= 1 && st + wl <= ecc.len()) {
        None
    } else if crc_matches(h, ecc.subrange(st, st + wl)) {
        Some(ecc.subrange(st, st + wl))
    } else {
        window_match_from(ecc, h, wl, st + 1)
    }
}

/// `n` zero bytes: what stands in for the data part when the stored
/// length was corrupted away.
pub open spec fn zero_bytes(n: nat) -> Seq<u8> {
    Seq::new(n, |i: int| 0u8)
}

/// The bytes after the leading run of zeros.
pub open spec fn drop_leading_zeros(s: Seq<u8>) -> Seq<u8>
    decreases s.len(),
{
    if s.len() == 0 || s[0] != 0 {
        s
    } else {
        drop_leading_zeros(s.skip(1))
    }
}

/// The shortest window length from `wl` up whose left-most matching window
/// passes the checksum: the sweep a corrupted stored length falls back to.
pub open spec fn sweep_match(ecc: Seq<u8>, h: Header, wl: int) -> Option<Seq<u8>>
    decreases 256 - wl,
{
    if !(1 <= wl <= 255) {
        None
    } else {
        match window_match_from(ecc, h, wl, 0) {
            Some(v) => Some(v),
            None => sweep_match(ecc, h, wl + 1),
        }
    }
}

/// What one redundancy block yields.  A copy block: the left-most matching
/// window of the stored length, or of every length up to 255 when the
/// stored length was corrupted to zero.  A parity block: the checksum-gated
/// Reed-Solomon correction, against the given data part — or against a
/// full-length run of zeros, stripped of leading zeros afterwards, when
/// the stored length is zero.
pub open spec fn block_attempt(data: Seq<u8>, h: Header, b: (u64, Seq<u8>)) -> Option<Seq<u8>> {
    if b.0 == 0 {
        if h.data_len >= 1 {
            window_match_from(b.1, h, h.data_len as int, 0)
        } else {
            sweep_match(b.1, h, 1)
        }
    } else if b.0 == 1 {
        if 1 <= b.1.len() <= 170 {
            let part = if h.data_len == 0 {
                zero_bytes((255 - b.1.len()) as nat)
            } else {
                data
            };
            if part.len() <= 255 - b.1.len() {
                match crate::ecc::rs_correct_of(part + b.1, b.1.len()) {
                    Some(v) => {
                        let cand = if h.data_len == 0 {
                            drop_leading_zeros(v)
                        } else {
                            v
                        };
                        if crc_matches(h, cand) {
                            Some(cand)
                        } else {
                            None
                        }
                    },
                    None => None,
                }
            } else {
                None
            }
        } else {
            None
        }
    } else {
        None
    }
}

/// The first block, in pack order, whose attempt yields a payload.
pub open spec fn recover_attempts(data: Seq<u8>, h: Header, blocks: Seq<(u64, Seq<u8>)>) -> Option<
    Seq<u8>,
>
    decreases blocks.len(),
{
    if blocks.len() == 0 {
        None
    } else {
        match block_attempt(data, h, blocks[0]) {
            Some(v) => Some(v),
            None => recover_attempts(data, h, blocks.skip(1)),
        }
    }
}

/// Whether an executable optional payload is the named one.
pub open spec fn matches_attempt(r: Option<Vec<u8>>, o: Option<Seq<u8>>) -> bool {
    match (r, o) {
        (Some(v), Some(s)) => v@ == s,
        (None, None) => true,
        _ => false,
    }
}

/// Search a copy block for a window of `wl` bytes whose checksum matches
/// the header's: the left-most such window.
fn window_search(ecc: &[u8], wl: usize, header: &Header) -> (r: Option<Vec<u8>>)
    requires
        1 <= wl <= ecc@.len(),
    ensures
        matches_attempt(r, window_match_from(ecc@, *header, wl as int, 0)),
        r matches Some(v) ==> crc_matches(*header, v@) && exists|st: int|
            0 <= st <= ecc@.len() - wl && v@ == #[trigger] ecc@.subrange(st, st + wl),
        r is None ==> forall|st: int|
            0 <= st <= ecc@.len() - wl ==> !crc_matches(
                *header,
                #[trigger] ecc@.subrange(st, st + wl),
            ),
{
    let n = ecc.len();
    let maxs = n - wl;
    let mut start: usize = 0;
    while start <= maxs
        invariant
            n == ecc@.len(),
            1 <= wl <= n,
            wl + maxs == n,
            start <= maxs + 1,
            window_match_from(ecc@, *header, wl as int, 0) == window_match_from(
                ecc@,
                *header,
                wl as int,
                start as int,
            ),
            forall|st: int|
                0 <= st < start ==> !crc_matches(*header, #[trigger] ecc@.subrange(st, st + wl)),
        decreases maxs + 1 - start,
    {
        let cand = crate::codec::copy_range(ecc, start, start + wl);
        let (a, b) = paranoid_checksum_bytes(cand.as_slice());
        if a == header.crc0 && b == header.crc1 {
            return Some(cand);
        }
        start = start + 1;
    }
    None
}

/// Try to win the payload back from one plain block and the other blocks:
/// checksum-validated windows over copies, Reed-Solomon correction over
/// parity, in pack order.  The result is exactly the first block's
/// successful attempt; whatever it returns matches the header's checksum.
pub fn try_to_recover_data_with_ecc(
    data: &[u8],
    header: &Header,
    other_ecc: &Vec<crate::objects::ECCData>,
) -> (r: Option<Vec<u8>>)
    ensures
        r matches Some(v) ==> crc_matches(*header, v@),
        matches_attempt(r, recover_attempts(data@, *header, blocks_view(other_ecc@))),
        r is None && header.data_len >= 1 ==> forall|i: int, st: int|
            0 <= i < other_ecc@.len() && (#[trigger] other_ecc@[i]).ecc_algorithm == 0
                && header.data_len <= other_ecc@[i].ecc@.len() && 0 <= st <= other_ecc@[i].ecc@.len()
                - header.data_len ==> !crc_matches(
                *header,
                #[trigger] other_ecc@[i].ecc@.subrange(st, st + header.data_len),
            ),
{
    let data_len_is_corrupted = header.data_len == 0;
    let ghost bv = blocks_view(other_ecc@);
    proof {
        assert(bv.skip(0) =~= bv);
    }
    let mut bi: usize = 0;
    while bi < other_ecc.len()
        invariant
            bi <= other_ecc@.len(),
            data_len_is_corrupted == (header.data_len == 0),
            bv == blocks_view(other_ecc@),
            bv.len() == other_ecc@.len(),
            recover_attempts(data@, *header, bv) == recover_attempts(
                data@,
                *header,
                bv.skip(bi as int),
            ),
            header.data_len >= 1 ==> forall|i: int, st: int|
                0 <= i < bi && (#[trigger] other_ecc@[i]).ecc_algorithm == 0 && header.data_len
                    <= other_ecc@[i].ecc@.len() && 0 <= st <= other_ecc@[i].ecc@.len()
                    - header.data_len ==> !crc_matches(
                    *header,
                    #[trigger] other_ecc@[i].ecc@.subrange(st, st + header.data_len),
                ),
        decreases other_ecc@.len() - bi,
    {
        let block = &other_ecc[bi];
        proof {
            assert(bv[bi as int] == (block.ecc_algorithm, block.ecc@));
        }
        if block.ecc_algorithm == 0 {
            // A copy: search for a window whose checksum matches.
            let elen = block.ecc.len();
            if data_len_is_corrupted {
                // The stored length is corrupted: try every window length.
                let mut wl: usize = 1;
                while wl <= 255
                    invariant
                        elen == block.ecc@.len(),
                        block == other_ecc@[bi as int],
                        bi < other_ecc@.len(),
                        1 <= wl <= 256,
                        header.data_len == 0,
                        bv == blocks_view(other_ecc@),
                        bv.len() == other_ecc@.len(),
                        bv[bi as int] == (block.ecc_algorithm, block.ecc@),
                        block.ecc_algorithm == 0,
                        recover_attempts(data@, *header, bv) == recover_attempts(
                            data@,
                            *header,
                            bv.skip(bi as int),
                        ),
                        sweep_match(block.ecc@, *header, 1) == sweep_match(
                            block.ecc@,
                            *header,
                            wl as int,
                        ),
                    decreases 256 - wl,
                {
                    if wl <= elen {
                        match window_search(block.ecc.as_slice(), wl, header) {
                            Some(v) => {
                                proof {
                                    assert(window_match_from(block.ecc@, *header, wl as int, 0)
                                        == Some(v@));
                                    assert(sweep_match(block.ecc@, *header, 1) == Some(v@));
                                    assert(block_attempt(data@, *header, bv[bi as int]) == Some(
                                        v@,
                                    ));
                                    assert(bv.skip(bi as int)[0] == bv[bi as int]);
                                    assert(recover_attempts(data@, *header, bv.skip(bi as int))
                                        == Some(v@));
                                }
                                return Some(v);
                            },
                            None => {
                                proof {
                                    assert(window_match_from(
                                        block.ecc@,
                                        *header,
                                        wl as int,
                                        0,
                                    ) is None);
                                }
                            },
                        }
                    } else {
                        proof {
                            assert(window_match_from(block.ecc@, *header, wl as int, 0) is None);
                        }
                    }
                    wl = wl + 1;
                }
                proof {
                    assert(sweep_match(block.ecc@, *header, 256) is None);
                    assert(block_attempt(data@, *header, bv[bi as int]) is None);
                }
            } else if header.data_len <= elen as u64 {
                proof {
                    assert(header.data_len >= 1);
                }
                let wl = header.data_len as usize;
                proof {
                    assert(wl as int == header.data_len as int);
                }
                match window_search(block.ecc.as_slice(), wl, header) {
                    Some(v) => {
                        proof {
                            assert(block_attempt(data@, *header, bv[bi as int]) == Some(v@));
                            assert(bv.skip(bi as int)[0] == bv[bi as int]);
                            assert(recover_attempts(data@, *header, bv.skip(bi as int)) == Some(
                                v@,
                            ));
                        }
                        return Some(v);
                    },
                    None => {
                        proof {
                            assert(block_attempt(data@, *header, bv[bi as int]) is None);
                        }
                    },
                }
            } else {
                // The declared payload length exceeds this copy: no window.
                proof {
                    assert(header.data_len as int > block.ecc@.len());
                    assert(window_match_from(
                        block.ecc@,
                        *header,
                        header.data_len as int,
                        0,
                    ) is None);
                    assert(block_attempt(data@, *header, bv[bi as int]) is None);
                }
            }
        } else if block.ecc_algorithm == 1 {
            // Reed-Solomon parity: correct the plain block against it.
            // Parity over 170 bytes is skipped: the decoder cannot take
            // it, and the pack builder never emits it.
            let elen = block.ecc.len();
            if elen <= 170 && elen >= 1 {
                let mut codeword: Vec<u8>;
                if data_len_is_corrupted {
                    // Only a full-length codeword of zeros can stand in for
                    // the lost data part.
                    codeword = Vec::new();
                    let mut z: usize = 0;
                    while z < 255 - elen
                        invariant
                            z <= 255 - elen,
                            elen <= 255,
                            codeword@.len() == z,
                            forall|m: int| 0 <= m < z ==> codeword@[m] == 0u8,
                        decreases 255 - elen - z,
                    {
                        codeword.push(0);
                        z = z + 1;
                    }
                    proof {
                        assert(codeword@ =~= zero_bytes((255 - block.ecc@.len()) as nat));
                    }
                } else {
                    codeword = crate::codec::copy_range(data, 0, data.len());
                    proof {
                        assert(codeword@ =~= data@);
                    }
                }
                let ghost part = codeword@;
                if codeword.len() <= 255 - elen {
                    push_all(&mut codeword, block.ecc.as_slice());
                    let ghost cw = codeword@;
                    proof {
                        assert(cw == part + block.ecc@);
                    }
                    let clen = codeword.len();
                    match crate::ecc::recover_reed_solomon(codeword.as_slice(), elen) {
                        Ok(corrected) => {
                            let ghost correctedv = corrected@;
                            let cand: Vec<u8>;
                            if data_len_is_corrupted {
                                // The data part was synthesized as zeros:
                                // strip the leading zeros off the corrected
                                // codeword.
                                let mut z: usize = 0;
                                proof {
                                    assert(correctedv.skip(0) =~= correctedv);
                                }
                                while z < corrected.len() && corrected[z] == 0
                                    invariant
                                        correctedv == corrected@,
                                        z <= corrected@.len(),
                                        drop_leading_zeros(correctedv) == drop_leading_zeros(
                                            correctedv.skip(z as int),
                                        ),
                                    decreases corrected@.len() - z,
                                {
                                    proof {
                                        assert(correctedv.skip(z as int)[0] == correctedv[z as int]);
                                        assert(correctedv.skip(z as int).skip(1)
                                            =~= correctedv.skip(z as int + 1));
                                    }
                                    z = z + 1;
                                }
                                cand = crate::codec::copy_range(
                                    corrected.as_slice(),
                                    z,
                                    corrected.len(),
                                );
                                proof {
                                    if z < corrected@.len() {
                                        assert(correctedv.skip(z as int)[0] != 0);
                                    } else {
                                        assert(correctedv.skip(z as int)
                                            =~= Seq::<u8>::empty());
                                    }
                                    assert(drop_leading_zeros(correctedv.skip(z as int))
                                        == correctedv.skip(z as int));
                                    assert(cand@ =~= correctedv.skip(z as int));
                                    assert(cand@ == drop_leading_zeros(correctedv));
                                }
                            } else {
                                cand = corrected;
                            }
                            let ghost candv = cand@;
                            let (a, b) = paranoid_checksum_bytes(cand.as_slice());
                            if a == header.crc0 && b == header.crc1 {
                                proof {
                                    assert(crc_matches(*header, candv));
                                    assert(block_attempt(data@, *header, bv[bi as int]) == Some(
                                        candv,
                                    ));
                                    assert(bv.skip(bi as int)[0] == bv[bi as int]);
                                    assert(recover_attempts(data@, *header, bv.skip(bi as int))
                                        == Some(candv));
                                }
                                return Some(cand);
                            }
                            proof {
                                assert(!crc_matches(*header, candv));
                                assert(block_attempt(data@, *header, bv[bi as int]) is None);
                            }
                        },
                        Err(_) => {
                            proof {
                                assert(block_attempt(data@, *header, bv[bi as int]) is None);
                            }
                        },
                    }
                } else {
                    // The codeword would overrun the 255-byte limit.
                    proof {
                        assert(part.len() > 255 - block.ecc@.len());
                        assert(block_attempt(data@, *header, bv[bi as int]) is None);
                    }
                }
            } else {
                // Unusable parity length.
                proof {
                    assert(block_attempt(data@, *header, bv[bi as int]) is None);
                }
            }
        } else {
            // An unknown algorithm tag yields nothing.
            proof {
                assert(block_attempt(data@, *header, bv[bi as int]) is None);
            }
        }
        proof {
            assert(block_attempt(data@, *header, bv[bi as int]) is None);
            assert(bv.skip(bi as int)[0] == bv[bi as int]);
            assert(bv.skip(bi as int).skip(1) =~= bv.skip(bi as int + 1));
            assert(recover_attempts(data@, *header, bv.skip(bi as int)) == recover_attempts(
                data@,
                *header,
                bv.skip(bi as int + 1),
            ));
        }
        bi = bi + 1;
    }
    proof {
        assert(bv.skip(bv.len() as int) =~= Seq::<(u64, Seq<u8>)>::empty());
        assert(recover_attempts(data@, *header, Seq::<(u64, Seq<u8>)>::empty()) is None);
    }
    None
}

// ------------------------------------------------------------------
// The container round trip
// ------------------------------------------------------------------

/// The chunks joined back together.
pub open spec fn concat_seqs(ss: Seq<Seq<u8>>) -> Seq<u8>
    decreases ss.len(),
{
    if ss.len() == 0 {
        Seq::empty()
    } else {
        ss[0] + concat_seqs(ss.skip(1))
    }
}

/// Joining distributes over concatenation of segment lists.
pub proof fn lemma_concat_seqs_concat(a: Seq<Seq<u8>>, b: Seq<Seq<u8>>)
    ensures
        concat_seqs(a + b) == concat_seqs(a) + concat_seqs(b),
    decreases a.len(),
{
    if a.len() == 0 {
        assert(a + b =~= b);
        assert(concat_seqs(a) + concat_seqs(b) =~= concat_seqs(b));
    } else {
        lemma_concat_seqs_concat(a.skip(1), b);
        assert((a + b).skip(1) =~= a.skip(1) + b);
        assert((a + b)[0] == a[0]);
        assert(concat_seqs(a + b) =~= concat_seqs(a) + concat_seqs(b));
    }
}

/// The payload segments joined back together are the reassembled payload.
pub proof fn lemma_segments_join(recs: Seq<(u64, Seq<u8>)>)
    ensures
        concat_seqs(stream_payload_segments(recs)) == stream_payload(recs),
    decreases recs.len(),
{
    if recs.len() == 0 {
        assert(concat_seqs(stream_payload_segments(recs)) =~= stream_payload(recs));
    } else {
        lemma_segments_join(recs.skip(1));
        let rest = stream_payload_segments(recs.skip(1));
        if is_header_candidate(recs[0].1) {
        } else {
            assert((seq![recs[0].1] + rest)[0] == recs[0].1);
            assert((seq![recs[0].1] + rest).skip(1) =~= rest);
            assert(concat_seqs(seq![recs[0].1] + rest) =~= recs[0].1 + concat_seqs(rest));
        }
    }
}

/// Splitting into chunks loses nothing: joining them restores the pack.
pub proof fn lemma_chunks_concat(p: Seq<u8>, csize: nat)
    requires
        csize >= 1,
    ensures
        concat_seqs(chunks_of(p, csize)) == p,
    decreases p.len(),
{
    if p.len() == 0 {
        assert(concat_seqs(chunks_of(p, csize)) =~= p);
    } else if p.len() <= csize {
        assert(chunks_of(p, csize) == seq![p]);
        assert(seq![p].skip(1) =~= Seq::<Seq<u8>>::empty());
        assert(concat_seqs(Seq::<Seq<u8>>::empty()) =~= Seq::<u8>::empty());
        assert(concat_seqs(chunks_of(p, csize)) =~= p);
    } else {
        lemma_chunks_concat(p.skip(csize as int), csize);
        let cs = chunks_of(p, csize);
        assert(cs[0] == p.take(csize as int));
        assert(cs.skip(1) =~= chunks_of(p.skip(csize as int), csize));
        assert(concat_seqs(cs) =~= p);
    }
}

/// Every chunk is nonempty and at most a chunk long.
pub proof fn lemma_chunk_lens(p: Seq<u8>, csize: nat)
    requires
        csize >= 1,
    ensures
        forall|i: int|
            0 <= i < chunks_of(p, csize).len() ==> 1 <= (#[trigger] chunks_of(p, csize)[i]).len()
                <= csize,
    decreases p.len(),
{
    if p.len() == 0 {
    } else if p.len() <= csize {
        assert(chunks_of(p, csize) == seq![p]);
    } else {
        lemma_chunk_lens(p.skip(csize as int), csize);
        let cs = chunks_of(p, csize);
        assert(cs[0] == p.take(csize as int));
        assert(cs.skip(1) =~= chunks_of(p.skip(csize as int), csize));
        assert(forall|i: int|
            1 <= i < cs.len() ==> #[trigger] cs[i] == chunks_of(p.skip(csize as int), csize)[i
                - 1]);
    }
}

/// The interleaving doubles the chunk count and keeps every element within
/// the common length bound.
proof fn lemma_inter_elems(hb: Seq<u8>, cs: Seq<Seq<u8>>, bound: nat)
    requires
        hb.len() <= bound,
        forall|j: int| 0 <= j < cs.len() ==> (#[trigger] cs[j]).len() <= bound,
    ensures
        interleaved(hb, cs).len() == 2 * cs.len(),
        forall|i: int|
            0 <= i < 2 * cs.len() ==> (#[trigger] interleaved(hb, cs)[i]).len() <= bound,
    decreases cs.len(),
{
    if cs.len() > 0 {
        assert(forall|j: int| 0 <= j < cs.skip(1).len() ==> (#[trigger] cs.skip(1)[j]).len()
            <= bound);
        lemma_inter_elems(hb, cs.skip(1), bound);
        let inter = interleaved(hb, cs);
        assert(inter == seq![hb, cs[0]] + interleaved(hb, cs.skip(1)));
        assert(forall|i: int|
            2 <= i < inter.len() ==> #[trigger] inter[i] == interleaved(hb, cs.skip(1))[i - 2]);
    }
}

/// The candidates and the reassembled payload of an assembled record run:
/// every candidate is the written header, their count is the number of
/// records, and the payload is the chunks joined back together.
proof fn lemma_records_extract(hb: Seq<u8>, hh: Header, cs: Seq<Seq<u8>>, k: nat)
    requires
        header_parse(hb) == Some(hh),
        spec_filter_valid_header(hh),
        forall|j: int|
            0 <= j < cs.len() ==> !is_header_candidate(#[trigger] cs[j]) && cs[j].len()
                < 0x10000000000000000,
    ensures
        ({
            let recs = (interleaved(hb, cs) + repeated(hb, k)).map_values(
                |b: Seq<u8>| (b.len() as u64, b),
            );
            stream_candidates(recs).len() == cs.len() + k && (forall|j: int|
                0 <= j < cs.len() + k ==> stream_candidates(recs)[j] == hh) && stream_payload(recs)
                == concat_seqs(cs) && stream_payload_segments(recs) == cs
        }),
    decreases cs.len(), k,
{
    let recs = (interleaved(hb, cs) + repeated(hb, k)).map_values(
        |b: Seq<u8>| (b.len() as u64, b),
    );
    if cs.len() == 0 {
        assert(interleaved(hb, cs) + repeated(hb, k) =~= repeated(hb, k));
        if k == 0 {
            assert(recs =~= Seq::<(u64, Seq<u8>)>::empty());
            assert(concat_seqs(cs) =~= Seq::<u8>::empty());
            assert(stream_payload_segments(recs) =~= cs);
        } else {
            lemma_records_extract(hb, hh, cs, (k - 1) as nat);
            let prev = (interleaved(hb, cs) + repeated(hb, (k - 1) as nat)).map_values(
                |b: Seq<u8>| (b.len() as u64, b),
            );
            assert(recs[0] == (hb.len() as u64, hb));
            assert(is_header_candidate(hb));
            assert(recs.skip(1) =~= prev) by {
                assert(interleaved(hb, cs) + repeated(hb, (k - 1) as nat) =~= repeated(
                    hb,
                    (k - 1) as nat,
                ));
                assert(forall|i: int|
                    0 <= i < k - 1 ==> #[trigger] recs.skip(1)[i] == recs[i + 1]);
            };
            assert(stream_candidates(recs) =~= seq![hh] + stream_candidates(prev));
            assert(stream_payload(recs) =~= stream_payload(prev));
            assert(stream_payload_segments(recs) =~= stream_payload_segments(prev));
            assert(concat_seqs(cs) =~= Seq::<u8>::empty());
        }
    } else {
        lemma_records_extract(hb, hh, cs.skip(1), k);
        let prev = (interleaved(hb, cs.skip(1)) + repeated(hb, k)).map_values(
            |b: Seq<u8>| (b.len() as u64, b),
        );
        let c0 = cs[0];
        assert(interleaved(hb, cs) == seq![hb, c0] + interleaved(hb, cs.skip(1)));
        assert(recs[0] == (hb.len() as u64, hb));
        assert(is_header_candidate(hb));
        assert(recs[1] == (c0.len() as u64, c0));
        assert(recs.skip(2) =~= prev) by {
            assert(forall|i: int|
                0 <= i < prev.len() ==> #[trigger] recs.skip(2)[i] == recs[i + 2]);
        };
        assert(!is_header_candidate(c0));
        assert(recs.skip(1)[0] == recs[1]);
        assert(recs.skip(1).skip(1) =~= recs.skip(2));
        assert(stream_candidates(recs.skip(1)) =~= stream_candidates(recs.skip(2)));
        assert(stream_payload(recs.skip(1)) =~= c0 + stream_payload(recs.skip(2)));
        assert(stream_payload_segments(recs.skip(1)) =~= seq![c0] + stream_payload_segments(
            recs.skip(2),
        ));
        assert(stream_candidates(recs) =~= seq![hh] + stream_candidates(prev));
        assert(stream_payload(recs) =~= c0 + stream_payload(prev));
        assert(stream_payload_segments(recs) =~= seq![c0] + stream_payload_segments(prev));
        assert(stream_payload_segments(recs) =~= cs);
        assert(concat_seqs(cs) == c0 + concat_seqs(cs.skip(1)));
    }
}

/// A nonempty slate of identical candidates elects that candidate.
proof fn lemma_elect_uniform(cands: Seq<Header>, hh: Header)
    requires
        cands.len() >= 1,
        forall|j: int| 0 <= j < cands.len() ==> cands[j] == hh,
    ensures
        elect_header(cands) == Some(hh),
{
    lemma_best_idx_bounds(cands, cands.len() as int);
}

/// When every copy block carries `p`, one copy block exists, and `p`
/// matches the header's checksum, the copy scan returns `p`.
proof fn lemma_first_valid_copy(blocks: Seq<(u64, Seq<u8>)>, hh: Header, p: Seq<u8>)
    requires
        crc_matches(hh, p),
        forall|i: int| 0 <= i < blocks.len() ==> ((#[trigger] blocks[i]).0 == 0 ==> blocks[i].1
            == p),
        exists|i: int| 0 <= i < blocks.len() && (#[trigger] blocks[i]).0 == 0,
    ensures
        first_valid_copy(blocks, hh) == Some(p),
    decreases blocks.len(),
{
    if blocks[0].0 == 0 {
        assert(blocks[0].1 == p);
    } else {
        let i = choose|i: int| 0 <= i < blocks.len() && (#[trigger] blocks[i]).0 == 0;
        assert(blocks.skip(1)[i - 1] == blocks[i]);
        assert(forall|j: int| 0 <= j < blocks.skip(1).len() ==> #[trigger] blocks.skip(1)[j]
            == blocks[j + 1]);
        lemma_first_valid_copy(blocks.skip(1), hh, p);
    }
}

/// When the container round trip is exact: the wrap succeeded, the parity
/// block has its declared length, and no pack chunk happens to parse as a
/// valid header — such a chunk would be mistaken for a header copy and
/// dropped from the reassembled pack.
pub open spec fn wrap_round_trip_ok(p: Seq<u8>, lvl: DamageLevel) -> bool {
    let plen = pack_bytes(spec_create_ecc(p, lvl)).len();
    let copies = spec_damage_bits(p.len(), lvl) + 2;
    let cs = chunks_of(pack_bytes(spec_create_ecc(p, lvl)), spec_chunk_size(plen, copies));
    wrap_ok(p, lvl) && crate::ecc::parity_len_ok(p, lvl) && (forall|i: int|
        0 <= i < cs.len() ==> !is_header_candidate(#[trigger] cs[i]))
}

/// The wire form of the header a short payload gets is six bytes long.
proof fn lemma_header_for_len(p: Seq<u8>)
    requires
        1 <= p.len() <= 127,
    ensures
        header_bytes(spec_header_for(p)).len() == 6,
        spec_filter_valid_header(spec_header_for(p)),
{
    let hh = spec_header_for(p);
    assert(varint_bytes(0u64) == seq![0u8]);
    assert(hh.data_len < 128);
    assert(varint_bytes(hh.data_len) == seq![hh.data_len as u8]);
}

/// The header any payload gets is field-valid, parses back to itself, and
/// serializes to at most 42 bytes.
proof fn lemma_header_for_parse(p: Seq<u8>)
    requires
        1 <= p.len() < 0x10000000000000000,
    ensures
        spec_filter_valid_header(spec_header_for(p)),
        header_parse(header_bytes(spec_header_for(p))) == Some(spec_header_for(p)),
        header_bytes(spec_header_for(p)).len() <= 42,
{
    let hh = spec_header_for(p);
    assert(hh.data_len > 0);
    lemma_header_round_trip(hh);
    lemma_varint_bytes_len(hh.version);
    lemma_varint_bytes_len(hh.encryption_algorithm);
    lemma_varint_bytes_len(hh.data_len);
    lemma_varint_bytes_len(hh.crc_algorithm);
}

/// The pack of a successful wrap carries few blocks, and every block's
/// bytes fit the pack's size bound.
proof fn lemma_wrap_block_bounds(p: Seq<u8>, lvl: DamageLevel)
    requires
        wrap_round_trip_ok(p, lvl),
    ensures
        spec_create_ecc(p, lvl).len() <= 8192,
        spec_copy_times(p.len(), lvl) <= 8192,
        forall|i: int|
            0 <= i < spec_create_ecc(p, lvl).len() ==> (#[trigger] spec_create_ecc(p, lvl)[i]).1
                .len() <= 16384,
{
    let blocks = spec_create_ecc(p, lvl);
    lemma_blocks_bytes_lower(blocks);
    lemma_varint_bytes_len(blocks.len() as u64);
    assert(pack_bytes(blocks).len() >= 2 * blocks.len());
    assert(blocks.len() <= 8192);
    let copies = spec_copy_times(p.len(), lvl);
    assert(blocks.len() >= copies + 1);
    assert forall|i: int| 0 <= i < blocks.len() implies (#[trigger] blocks[i]).1.len()
        <= 16384 by {
        crate::codec::lemma_blocks_bytes_ge(blocks, i);
        assert(pack_bytes(blocks).len() >= blocks[i].1.len());
    };
}

/// The container round trip: the stream a wrap emits extracts to the
/// header and pack that were written, the pack parses back to its blocks,
/// and the copy scan returns the payload.
#[verifier::rlimit(60)]
#[verifier::spinoff_prover]
pub proof fn lemma_container_round_trip(p: Seq<u8>, lvl: DamageLevel)
    requires
        wrap_round_trip_ok(p, lvl),
    ensures
        ({
            let blocks = spec_create_ecc(p, lvl);
            let hh = spec_header_for(p);
            extract_spec(wrap_stream(p, lvl)) == Some((hh, pack_bytes(blocks))) && pack_parse(
                pack_bytes(blocks),
            ) == Some(blocks) && first_valid_copy(blocks, hh) == Some(p) && recover_outcome(
                wrap_stream(p, lvl),
            ) == Ok::<Seq<u8>, ErrorKind>(p)
        }),
{
    let blocks = spec_create_ecc(p, lvl);
    let hh = spec_header_for(p);
    let hb = header_bytes(hh);
    let pk = pack_bytes(blocks);
    let copies = (spec_damage_bits(p.len(), lvl) + 2) as nat;
    let csize = spec_chunk_size(pk.len(), copies);
    let cs = chunks_of(pk, csize);
    let stream = wrap_stream(p, lvl);
    lemma_wrap_block_bounds(p, lvl);
    // The payload fits inside the pack, so its length fits the header
    // field and the header stays small.
    assert(blocks[blocks.len() - 1] == (0u64, p));
    crate::codec::lemma_blocks_bytes_ge(blocks, blocks.len() - 1);
    lemma_varint_bytes_len(blocks.len() as u64);
    assert(pk.len() >= p.len());
    lemma_header_for_parse(p);
    assert(hb.len() <= 42);
    // Chunk shapes.
    assert(csize >= 1);
    lemma_chunk_lens(pk, csize);
    lemma_chunks_count(pk, csize);
    lemma_chunks_concat(pk, csize);
    // A bound on every record's length.
    assert(csize <= pk.len() + copies) by {
        assert((pk.len() as int + copies as int - 1) / (copies as int) <= pk.len() as int
            + copies as int - 1) by {
            vstd::arithmetic::div_mod::lemma_div_is_ordered_by_denominator(
                pk.len() as int + copies as int - 1,
                1,
                copies as int,
            );
        };
    };
    assert(copies <= 8 * (spec_copy_times(p.len(), lvl) + 1) + 2);
    let bound: nat = 0x100000;
    assert(csize <= bound);
    lemma_inter_elems(hb, cs, bound);
    let trailing: nat = if copies > cs.len() {
        (copies - cs.len()) as nat
    } else {
        0nat
    };
    let recs_raw = interleaved(hb, cs) + repeated(hb, trailing);
    assert(stream == records_bytes(recs_raw));
    // Every record is short enough for its length prefix.
    assert(forall|i: int|
        0 <= i < recs_raw.len() ==> (#[trigger] recs_raw[i]).len() < 0x10000000000000000) by {
        assert(forall|i: int|
            0 <= i < 2 * cs.len() ==> #[trigger] recs_raw[i] == interleaved(hb, cs)[i]);
        assert(forall|i: int|
            2 * cs.len() <= i < recs_raw.len() ==> #[trigger] recs_raw[i] == repeated(
                hb,
                trailing,
            )[i - 2 * cs.len()]);
    };
    // Walk the stream back into its records.
    assert(stream.subrange(0, stream.len() as int) =~= records_bytes(recs_raw));
    lemma_walk_round_trip(stream, 0, recs_raw);
    let recs = recs_raw.map_values(|b: Seq<u8>| (b.len() as u64, b));
    assert(stream_records(stream, 0) == recs);
    // Candidates, election, payload.
    lemma_records_extract(hb, hh, cs, trailing);
    let cands = stream_candidates(recs);
    assert(cands.len() == cs.len() + trailing);
    assert(cands.len() >= 1) by {
        if trailing == 0 {
            assert(copies <= cs.len());
        }
    };
    lemma_elect_uniform(cands, hh);
    assert(stream_payload(recs) == concat_seqs(cs));
    assert(extract_spec(stream) == Some((hh, pk)));
    // The pack parses back to its blocks.
    assert(blocks.len() < 0x10000000000000000);
    assert(forall|i: int|
        0 <= i < blocks.len() ==> (#[trigger] blocks[i]).1.len() < 0x10000000000000000);
    assert(pk + Seq::<u8>::empty() =~= pk);
    crate::codec::lemma_pack_round_trip(blocks, Seq::<u8>::empty());
    // The copy scan returns the payload.
    let rs_len = spec_rs_ecc_len(p.len(), lvl);
    assert(crc_matches(hh, p));
    assert(forall|i: int| 0 <= i < blocks.len() ==> ((#[trigger] blocks[i]).0 == 0 ==> blocks[i].1
        == p)) by {
        if rs_len > 0 && p.len() + rs_len <= 255 {
        }
    };
    assert(blocks[blocks.len() - 1] == (0u64, p));
    lemma_first_valid_copy(blocks, hh, p);
    // The whole recovery succeeds on the first segment suffix: the
    // segments are exactly the chunks, whose join is the pack.
    assert(stream_payload_segments(recs) == cs);
    assert(cs.skip(0) =~= cs);
    assert(attempt_pack(pk, hh) == Some(p));
    assert(first_suffix_success(cs, hh, 0) == Some(p));
    assert(recover_outcome(stream) == Ok::<Seq<u8>, ErrorKind>(p));
}

/// Every collected candidate passes field validation.
proof fn lemma_candidates_valid(recs: Seq<(u64, Seq<u8>)>)
    ensures
        forall|j: int|
            0 <= j < stream_candidates(recs).len() ==> spec_filter_valid_header(
                #[trigger] stream_candidates(recs)[j],
            ),
    decreases recs.len(),
{
    if recs.len() > 0 {
        lemma_candidates_valid(recs.skip(1));
        let rest = stream_candidates(recs.skip(1));
        match header_parse(recs[0].1) {
            Some(h) => {
                if spec_filter_valid_header(h) {
                    assert(forall|j: int|
                        1 <= j < stream_candidates(recs).len()
                            ==> #[trigger] stream_candidates(recs)[j] == rest[j - 1]);
                }
            },
            None => {},
        }
    }
}

/// What the redundancy strategies yield, plain block by plain block in
/// pack order, each tried against every block.
pub open spec fn step_attempts(blocks: Seq<(u64, Seq<u8>)>, h: Header, i: int) -> Option<Seq<u8>>
    decreases blocks.len() - i,
{
    if !(0 <= i < blocks.len()) {
        None
    } else if blocks[i].0 == 0 {
        match recover_attempts(blocks[i].1, h, blocks) {
            Some(v) => Some(v),
            None => step_attempts(blocks, h, i + 1),
        }
    } else {
        step_attempts(blocks, h, i + 1)
    }
}

/// What one reassembled pack yields: its first checksum-valid copy, else
/// the first redundancy strategy that produces checksum-valid bytes.
pub open spec fn attempt_pack(pl: Seq<u8>, h: Header) -> Option<Seq<u8>> {
    match pack_parse(pl) {
        None => None,
        Some(blocks) => match first_valid_copy(blocks, h) {
            Some(v) => Some(v),
            None => step_attempts(blocks, h, 0),
        },
    }
}

/// The first payload-segment suffix whose reassembled pack yields a
/// payload.  Corruption in front of the stream can push junk records into
/// the reassembled pack; dropping leading segments resynchronizes on the
/// surviving chunks.
pub open spec fn first_suffix_success(segs: Seq<Seq<u8>>, h: Header, k: int) -> Option<Seq<u8>>
    decreases segs.len() - k,
{
    if !(0 <= k <= segs.len()) {
        None
    } else {
        match attempt_pack(concat_seqs(segs.skip(k)), h) {
            Some(v) => Some(v),
            None => if k < segs.len() {
                first_suffix_success(segs, h, k + 1)
            } else {
                None
            },
        }
    }
}

/// What recovery yields on any stream: under the elected header, the first
/// payload-segment suffix whose pack yields checksum-valid bytes, else the
/// exact error.  Recovery is a function of the stream alone.
pub open spec fn recover_outcome(s: Seq<u8>) -> Result<Seq<u8>, ErrorKind> {
    let recs = stream_records(s, 0);
    match elect_header(stream_candidates(recs)) {
        None => Err(ErrorKind::StoredDataDeserializationError),
        Some(h) => {
            let segs = stream_payload_segments(recs);
            match first_suffix_success(segs, h, 0) {
                Some(v) => Ok(v),
                None => if pack_parse(concat_seqs(segs)) is Some {
                    Err(ErrorKind::ECCRecoveryError)
                } else {
                    Err(ErrorKind::StoredDataDeserializationError)
                },
            }
        },
    }
}

/// A record shorter than six bytes can never be a header copy: a header's
/// wire form is at least four one-byte varints and two checksum bytes.
pub proof fn lemma_short_records_are_not_headers(b: Seq<u8>)
    requires
        b.len() < 6,
    ensures
        !is_header_candidate(b),
{
    lemma_varint_parse_shape(b);
    match varint_parse(b) {
        None => {},
        Some((v1, u1)) => {
            lemma_varint_parse_shape(b.subrange(u1, b.len() as int));
            match varint_parse(b.subrange(u1, b.len() as int)) {
                None => {},
                Some((v2, u2)) => {
                    lemma_varint_parse_shape(b.subrange(u1 + u2, b.len() as int));
                    match varint_parse(b.subrange(u1 + u2, b.len() as int)) {
                        None => {},
                        Some((v3, u3)) => {
                            lemma_varint_parse_shape(
                                b.subrange(u1 + u2 + u3, b.len() as int),
                            );
                        },
                    }
                },
            }
        },
    }
}

/// A wrap whose pack chunks stay under six bytes round-trips exactly: no
/// chunk can be mistaken for a header copy.
pub proof fn lemma_small_chunks_round_trip_ok(p: Seq<u8>, lvl: DamageLevel)
    requires
        wrap_ok(p, lvl),
        crate::ecc::parity_len_ok(p, lvl),
        spec_chunk_size(
            pack_bytes(spec_create_ecc(p, lvl)).len(),
            spec_damage_bits(p.len(), lvl) + 2,
        ) <= 5,
    ensures
        wrap_round_trip_ok(p, lvl),
{
    let plen = pack_bytes(spec_create_ecc(p, lvl)).len();
    let copies = spec_damage_bits(p.len(), lvl) + 2;
    let csize = spec_chunk_size(plen, copies);
    let cs = chunks_of(pack_bytes(spec_create_ecc(p, lvl)), csize);
    assert(csize >= 1);
    lemma_chunk_lens(pack_bytes(spec_create_ecc(p, lvl)), csize);
    assert forall|i: int| 0 <= i < cs.len() implies !is_header_candidate(#[trigger] cs[i]) by {
        assert(cs[i].len() <= 5);
        lemma_short_records_are_not_headers(cs[i]);
    };
}

/// When extraction elects a header and the full reassembled payload's pack
/// holds a checksum-valid copy, recovery returns that copy: the first
/// segment suffix already succeeds.
pub proof fn lemma_outcome_from_extract(
    s: Seq<u8>,
    hh: Header,
    pl: Seq<u8>,
    p: Seq<u8>,
    blocks: Seq<(u64, Seq<u8>)>,
)
    requires
        extract_spec(s) == Some((hh, pl)),
        pack_parse(pl) == Some(blocks),
        first_valid_copy(blocks, hh) == Some(p),
    ensures
        recover_outcome(s) == Ok::<Seq<u8>, ErrorKind>(p),
{
    let recs = stream_records(s, 0);
    lemma_segments_join(recs);
    let segs = stream_payload_segments(recs);
    assert(segs.skip(0) =~= segs);
    assert(concat_seqs(segs) == pl);
    assert(attempt_pack(pl, hh) == Some(p));
    assert(first_suffix_success(segs, hh, 0) == Some(p));
}

/// Try one reassembled pack: parse it, try its verbatim copies, then every
/// redundancy strategy.  Returns the winning bytes, and whether the pack
/// parsed at all.
fn attempt_pack_exec(pl: &[u8], header: &Header) -> (r: (Option<Vec<u8>>, bool))
    requires
        header.data_len >= 1,
    ensures
        r.1 == (pack_parse(pl@) is Some),
        matches_attempt(r.0, attempt_pack(pl@, *header)),
        r.0 matches Some(v) ==> crc_matches(*header, v@),
{
    let sd = match deserialize_stored_data(pl) {
        Some(sd) => sd,
        None => {
            return (None, false);
        },
    };
    let ghost bv = blocks_view(sd.data@);
    proof {
        assert(bv.skip(0) =~= bv);
    }
    // Step one: an unbroken verbatim copy.
    let mut i: usize = 0;
    while i < sd.data.len()
        invariant
            bv == blocks_view(sd.data@),
            i <= sd.data@.len(),
            pack_parse(pl@) == Some(bv),
            first_valid_copy(bv, *header) == first_valid_copy(bv.skip(i as int), *header),
        decreases sd.data@.len() - i,
    {
        let block = &sd.data[i];
        proof {
            assert(bv.skip(i as int)[0] == bv[i as int]);
            assert(bv[i as int] == (block.ecc_algorithm, block.ecc@));
            assert(bv.skip(i as int).skip(1) =~= bv.skip(i as int + 1));
        }
        if block.ecc_algorithm == 0 {
            let (a, b) = paranoid_checksum_bytes(block.ecc.as_slice());
            if a == header.crc0 && b == header.crc1 {
                let out = crate::codec::copy_range(block.ecc.as_slice(), 0, block.ecc.len());
                proof {
                    assert(out@ =~= block.ecc@);
                    assert(first_valid_copy(bv, *header) == Some(block.ecc@));
                }
                return (Some(out), true);
            }
        }
        i = i + 1;
    }
    proof {
        assert(bv.skip(bv.len() as int) =~= Seq::<(u64, Seq<u8>)>::empty());
        assert(first_valid_copy(bv, *header) is None);
    }
    // Step two: recovery through the redundancy blocks.
    let mut j: usize = 0;
    while j < sd.data.len()
        invariant
            bv == blocks_view(sd.data@),
            j <= sd.data@.len(),
            pack_parse(pl@) == Some(bv),
            first_valid_copy(bv, *header) is None,
            header.data_len >= 1,
            step_attempts(bv, *header, 0) == step_attempts(bv, *header, j as int),
        decreases sd.data@.len() - j,
    {
        let block = &sd.data[j];
        proof {
            assert(bv[j as int] == (block.ecc_algorithm, block.ecc@));
        }
        if block.ecc_algorithm == 0 {
            match try_to_recover_data_with_ecc(block.ecc.as_slice(), header, &sd.data) {
                Some(v) => {
                    proof {
                        assert(recover_attempts(block.ecc@, *header, bv) == Some(v@));
                        assert(step_attempts(bv, *header, j as int) == Some(v@));
                    }
                    return (Some(v), true);
                },
                None => {
                    proof {
                        assert(recover_attempts(block.ecc@, *header, bv) is None);
                        assert(step_attempts(bv, *header, j as int) == step_attempts(
                            bv,
                            *header,
                            j as int + 1,
                        ));
                    }
                },
            }
        } else {
            proof {
                assert(step_attempts(bv, *header, j as int) == step_attempts(
                    bv,
                    *header,
                    j as int + 1,
                ));
            }
        }
        j = j + 1;
    }
    proof {
        assert(step_attempts(bv, *header, bv.len() as int) is None);
    }
    (None, true)
}

/// Recover the payload out of a possibly corrupted container stream:
/// elect the header, then try the reassembled pack, retrying with leading
/// payload segments dropped so that junk records carved out of a damaged
/// stream prefix cannot poison the pack; never return bytes whose checksum
/// does not match the elected header, and return the exact payload of an
/// uncorrupted wrap.
pub fn try_to_read_stored_data(data: &[u8]) -> (r: Result<Vec<u8>, ErrorKind>)
    ensures
        r matches Ok(v) ==> match extract_spec(data@) {
            Some((hh, _)) => crc_matches(hh, v@),
            None => false,
        },
        match recover_outcome(data@) {
            Ok(v) => r matches Ok(rv) && rv@ == v,
            Err(e) => r == Err::<Vec<u8>, ErrorKind>(e),
        },
        forall|p: Seq<u8>, lvl: DamageLevel|
            #[trigger] wrap_stream(p, lvl) == data@ && wrap_round_trip_ok(p, lvl) ==> (r matches Ok(
                v,
            ) && v@ == p),
{
    let ghost recs = stream_records(data@, 0);
    let parts = match extract_segments(data) {
        Ok(p) => p,
        Err(_) => {
            proof {
                assert forall|p: Seq<u8>, lvl: DamageLevel|
                    #[trigger] wrap_stream(p, lvl) == data@ && wrap_round_trip_ok(
                        p,
                        lvl,
                    ) implies false by {
                    lemma_container_round_trip(p, lvl);
                };
            }
            return Err(ErrorKind::StoredDataDeserializationError);
        },
    };
    let header = parts.0;
    let segments = parts.1;
    let ghost segs = segments.deep_view();
    proof {
        // The elected header is one of the valid candidates, so its
        // stored length is nonzero.
        lemma_candidates_valid(recs);
        let cands = stream_candidates(recs);
        lemma_best_idx_bounds(cands, cands.len() as int);
        assert(spec_filter_valid_header(header));
        assert(segs.skip(0) =~= segs);
        if segs.len() == 0 {
            assert(concat_seqs(segs) =~= Seq::<u8>::empty());
            assert(varint_parse(Seq::<u8>::empty()) is None);
            assert(pack_parse(concat_seqs(segs)) is None);
        }
    }
    let n_seg = segments.len();
    let mut parse0: bool = false;
    let mut k: usize = 0;
    while k < n_seg
        invariant
            segs == segments.deep_view(),
            segs.len() == segments@.len(),
            n_seg == segments@.len(),
            k <= n_seg,
            header.data_len >= 1,
            recs == stream_records(data@, 0),
            elect_header(stream_candidates(recs)) == Some(header),
            segs == stream_payload_segments(recs),
            first_suffix_success(segs, header, 0) == first_suffix_success(segs, header, k as int),
            (k >= 1 || segs.len() == 0) ==> parse0 == (pack_parse(concat_seqs(segs)) is Some),
        decreases n_seg - k,
    {
        // Reassemble the pack from segment `k` on.
        let mut suffix: Vec<u8> = Vec::new();
        let mut j: usize = k;
        proof {
            assert(suffix@ + concat_seqs(segs.skip(k as int)) =~= concat_seqs(segs.skip(k as int)));
        }
        while j < n_seg
            invariant
                segs == segments.deep_view(),
                segs.len() == segments@.len(),
                n_seg == segments@.len(),
                k <= j <= n_seg,
                suffix@ + concat_seqs(segs.skip(j as int)) == concat_seqs(segs.skip(k as int)),
            decreases n_seg - j,
        {
            let ghost before = suffix@;
            push_all(&mut suffix, segments[j].as_slice());
            proof {
                assert(segments@[j as int]@ == segs[j as int]);
                assert(segs.skip(j as int)[0] == segs[j as int]);
                assert(segs.skip(j as int).skip(1) =~= segs.skip(j as int + 1));
                assert(concat_seqs(segs.skip(j as int)) == segs[j as int] + concat_seqs(
                    segs.skip(j as int + 1),
                ));
                assert(suffix@ + concat_seqs(segs.skip(j as int + 1)) =~= before + concat_seqs(
                    segs.skip(j as int),
                ));
            }
            j = j + 1;
        }
        proof {
            assert(segs.skip(segs.len() as int) =~= Seq::<Seq<u8>>::empty());
            assert(concat_seqs(Seq::<Seq<u8>>::empty()) =~= Seq::<u8>::empty());
            assert(suffix@ + Seq::<u8>::empty() =~= suffix@);
            assert(suffix@ == concat_seqs(segs.skip(k as int)));
        }
        let attempt = attempt_pack_exec(suffix.as_slice(), &header);
        if k == 0 {
            parse0 = attempt.1;
            proof {
                assert(segs.skip(0) =~= segs);
            }
        }
        match attempt.0 {
            Some(v) => {
                proof {
                    assert(attempt_pack(concat_seqs(segs.skip(k as int)), header) == Some(v@));
                    assert(first_suffix_success(segs, header, k as int) == Some(v@));
                    assert(recover_outcome(data@) == Ok::<Seq<u8>, ErrorKind>(v@));
                    assert forall|p: Seq<u8>, lvl: DamageLevel|
                        #[trigger] wrap_stream(p, lvl) == data@ && wrap_round_trip_ok(
                            p,
                            lvl,
                        ) implies v@ == p by {
                        lemma_container_round_trip(p, lvl);
                    };
                }
                return Ok(v);
            },
            None => {
                proof {
                    assert(attempt_pack(concat_seqs(segs.skip(k as int)), header) is None);
                    assert(first_suffix_success(segs, header, k as int) == first_suffix_success(
                        segs,
                        header,
                        k as int + 1,
                    ));
                }
            },
        }
        k = k + 1;
    }
    // The empty suffix never parses, so every retry is exhausted.
    proof {
        assert(segs.skip(segs.len() as int) =~= Seq::<Seq<u8>>::empty());
        assert(concat_seqs(Seq::<Seq<u8>>::empty()) =~= Seq::<u8>::empty());
        assert(varint_parse(Seq::<u8>::empty()) is None);
        assert(pack_parse(concat_seqs(segs.skip(segs.len() as int))) is None);
        assert(attempt_pack(concat_seqs(segs.skip(segs.len() as int)), header) is None);
        assert(first_suffix_success(segs, header, segs.len() as int) is None);
        assert(first_suffix_success(segs, header, 0) is None);
        assert forall|p: Seq<u8>, lvl: DamageLevel|
            #[trigger] wrap_stream(p, lvl) == data@ && wrap_round_trip_ok(p, lvl) implies false by {
            lemma_container_round_trip(p, lvl);
        };
    }
    if parse0 {
        Err(ErrorKind::ECCRecoveryError)
    } else {
        Err(ErrorKind::StoredDataDeserializationError)
    }
}

// ------------------------------------------------------------------
// Surviving corruption of the first header copy's checksum
// ------------------------------------------------------------------

/// Candidate collection distributes over record concatenation.
proof fn lemma_candidates_concat(a: Seq<(u64, Seq<u8>)>, b: Seq<(u64, Seq<u8>)>)
    ensures
        stream_candidates(a + b) == stream_candidates(a) + stream_candidates(b),
    decreases a.len(),
{
    if a.len() == 0 {
        assert(a + b =~= b);
        assert(stream_candidates(a) + stream_candidates(b) =~= stream_candidates(b));
    } else {
        lemma_candidates_concat(a.skip(1), b);
        assert((a + b).skip(1) =~= a.skip(1) + b);
        assert((a + b)[0] == a[0]);
        assert(stream_candidates(a + b) =~= stream_candidates(a) + stream_candidates(b));
    }
}

/// Payload reassembly distributes over record concatenation.
proof fn lemma_payload_concat(a: Seq<(u64, Seq<u8>)>, b: Seq<(u64, Seq<u8>)>)
    ensures
        stream_payload(a + b) == stream_payload(a) + stream_payload(b),
    decreases a.len(),
{
    if a.len() == 0 {
        assert(a + b =~= b);
        assert(stream_payload(a) + stream_payload(b) =~= stream_payload(b));
    } else {
        lemma_payload_concat(a.skip(1), b);
        assert((a + b).skip(1) =~= a.skip(1) + b);
        assert((a + b)[0] == a[0]);
        assert(stream_payload(a + b) =~= stream_payload(a) + stream_payload(b));
    }
}

/// Counting in a slate whose head differs from its uniform tail.
proof fn lemma_counts_head_uniform(x: Header, h: Header, k: nat, n: int)
    requires
        x != h,
        0 <= n <= k + 1,
    ensures
        count_eq_upto(seq![x] + Seq::new(k, |i: int| h), h, n) == (if n == 0 {
            0int
        } else {
            n - 1
        }),
        count_eq_upto(seq![x] + Seq::new(k, |i: int| h), x, n) == (if n == 0 {
            0int
        } else {
            1int
        }),
    decreases n,
{
    if n > 0 {
        lemma_counts_head_uniform(x, h, k, n - 1);
        let cands = seq![x] + Seq::new(k, |i: int| h);
        if n == 1 {
            assert(cands[0] == x);
        } else {
            assert(cands[n - 1] == h);
        }
    }
}

/// A uniform majority out-votes a single dissenting head: the tail's
/// header is elected.
proof fn lemma_elect_head_uniform(x: Header, h: Header, k: nat)
    requires
        k >= 2,
    ensures
        elect_header(seq![x] + Seq::new(k, |i: int| h)) == Some(h),
{
    let cands = seq![x] + Seq::new(k, |i: int| h);
    if x == h {
        assert(forall|j: int| 0 <= j < cands.len() ==> cands[j] == h);
        lemma_elect_uniform(cands, h);
    } else {
        lemma_counts_head_uniform(x, h, k, k as int + 1);
        assert(count_eq(cands, h) == k);
        assert(count_eq(cands, x) == 1);
        assert forall|n: int| 2 <= n <= k + 1 implies best_idx(cands, n) == 1 by {
            lemma_best_idx_head_uniform(x, h, k, n);
        };
        assert(best_idx(cands, cands.len() as int) == 1);
        assert(cands[1] == h);
    }
}

/// The elected index in such a slate is the first tail entry.
proof fn lemma_best_idx_head_uniform(x: Header, h: Header, k: nat, n: int)
    requires
        x != h,
        k >= 2,
        2 <= n <= k + 1,
        count_eq(seq![x] + Seq::new(k, |i: int| h), h) == k,
        count_eq(seq![x] + Seq::new(k, |i: int| h), x) == 1,
    ensures
        best_idx(seq![x] + Seq::new(k, |i: int| h), n) == 1,
    decreases n,
{
    let cands = seq![x] + Seq::new(k, |i: int| h);
    if n == 2 {
        assert(best_idx(cands, 1) == 0);
        assert(cands[0] == x);
        assert(cands[1] == h);
    } else {
        lemma_best_idx_head_uniform(x, h, k, n - 1);
        assert(cands[n - 1] == h);
        assert(cands[1] == h);
    }
}

/// Law: rewriting the two checksum bytes of the first header copy — the
/// stream bytes at offsets five and six, for a payload short enough that
/// the header takes its six-byte wire form — leaves extraction, and with
/// it recovery, exact: the untouched header copies out-vote the rewritten
/// one and the payload chunks are untouched.  At least one whole
/// recoverable byte must be allowed, so that at least three header copies
/// stand in the stream.
#[verifier::rlimit(100)]
#[verifier::spinoff_prover]
pub proof fn lemma_recover_survives_first_header_crc_corruption(
    p: Seq<u8>,
    lvl: DamageLevel,
    x: u8,
    y: u8,
)
    requires
        wrap_round_trip_ok(p, lvl),
        p.len() <= 127,
        spec_damage_bits(p.len(), lvl) >= 1,
    ensures
        ({
            let s = wrap_stream(p, lvl).update(5, x).update(6, y);
            let blocks = spec_create_ecc(p, lvl);
            let hh = spec_header_for(p);
            extract_spec(s) == Some((hh, pack_bytes(blocks))) && pack_parse(pack_bytes(blocks))
                == Some(blocks) && first_valid_copy(blocks, hh) == Some(p) && recover_outcome(s)
                == Ok::<Seq<u8>, ErrorKind>(p)
        }),
{
    let blocks = spec_create_ecc(p, lvl);
    let hh = spec_header_for(p);
    let hb = header_bytes(hh);
    let pk = pack_bytes(blocks);
    let copies = (spec_damage_bits(p.len(), lvl) + 2) as nat;
    let csize = spec_chunk_size(pk.len(), copies);
    let cs = chunks_of(pk, csize);
    let s = wrap_stream(p, lvl);
    let s2 = s.update(5, x as u8).update(6, y as u8);
    lemma_container_round_trip(p, lvl);
    lemma_header_for_len(p);
    lemma_header_round_trip(hh);
    lemma_wrap_block_bounds(p, lvl);
    assert(csize >= 1);
    lemma_chunk_lens(pk, csize);
    lemma_chunks_count(pk, csize);
    lemma_chunks_concat(pk, csize);
    assert(csize <= pk.len() + copies) by {
        assert((pk.len() as int + copies as int - 1) / (copies as int) <= pk.len() as int
            + copies as int - 1) by {
            vstd::arithmetic::div_mod::lemma_div_is_ordered_by_denominator(
                pk.len() as int + copies as int - 1,
                1,
                copies as int,
            );
        };
    };
    assert(copies <= 8 * (spec_copy_times(p.len(), lvl) + 1) + 2);
    let bound: nat = 0x100000;
    assert(csize <= bound);
    lemma_inter_elems(hb, cs, bound);
    let trailing: nat = if copies > cs.len() {
        (copies - cs.len()) as nat
    } else {
        0nat
    };
    let recs_raw = interleaved(hb, cs) + repeated(hb, trailing);
    assert(s == records_bytes(recs_raw));
    assert(pk.len() >= 1) by {
        lemma_varint_bytes_len(blocks.len() as u64);
    };
    assert(cs.len() >= 1);
    assert(forall|j: int| 0 <= j < cs.len() ==> !is_header_candidate(#[trigger] cs[j]));
    assert(forall|j: int|
        0 <= j < cs.skip(1).len() ==> !is_header_candidate(#[trigger] cs.skip(1)[j])
            && cs.skip(1)[j].len() < 0x10000000000000000) by {
        assert(forall|j: int| 0 <= j < cs.skip(1).len() ==> #[trigger] cs.skip(1)[j] == cs[j + 1]);
    };
    assert(interleaved(hb, cs) == seq![hb, cs[0]] + interleaved(hb, cs.skip(1)));
    assert(recs_raw[0] == hb);
    // The rewritten header still parses, to the same header with the two
    // checksum bytes replaced.
    let hh2 = Header {
        version: 0,
        encryption_algorithm: 0,
        data_len: p.len() as u64,
        crc_algorithm: 0,
        crc0: x,
        crc1: y,
    };
    let hb2 = hb.update(4, x as u8).update(5, y as u8);
    assert(hb2 =~= header_bytes(hh2)) by {
        assert(varint_bytes(0u64) == seq![0u8]);
        assert(hh.data_len < 128);
        assert(varint_bytes(hh.data_len) == seq![hh.data_len as u8]);
    };
    lemma_header_round_trip(hh2);
    assert(spec_filter_valid_header(hh2));
    // The corrupted stream is the same record run with the first record's
    // content rewritten.
    let rest = records_bytes(recs_raw.skip(1));
    assert(record_bytes(hb) == varint_bytes(6u64) + hb);
    assert(varint_bytes(6u64) =~= seq![6u8]);
    assert(s =~= seq![6u8] + hb + rest);
    assert(s2 =~= seq![6u8] + hb2 + rest);
    let recs2 = seq![hb2] + recs_raw.skip(1);
    assert(recs2[0] == hb2);
    assert(recs2.skip(1) =~= recs_raw.skip(1));
    assert(records_bytes(recs2) =~= seq![6u8] + hb2 + rest) by {
        assert(records_bytes(recs2) == record_bytes(hb2) + records_bytes(recs2.skip(1)));
        assert(hb2.len() == 6);
        assert(record_bytes(hb2) == varint_bytes(6u64) + hb2);
    };
    assert(s2 == records_bytes(recs2));
    // Walk the corrupted stream back into its records.
    assert(forall|i: int|
        0 <= i < recs_raw.len() ==> (#[trigger] recs_raw[i]).len() < 0x10000000000000000) by {
        assert(forall|i: int|
            0 <= i < 2 * cs.len() ==> #[trigger] recs_raw[i] == interleaved(hb, cs)[i]);
        assert(forall|i: int|
            2 * cs.len() <= i < recs_raw.len() ==> #[trigger] recs_raw[i] == repeated(
                hb,
                trailing,
            )[i - 2 * cs.len()]);
    };
    assert(forall|i: int|
        0 <= i < recs2.len() ==> (#[trigger] recs2[i]).len() < 0x10000000000000000) by {
        assert(forall|i: int| 1 <= i < recs2.len() ==> #[trigger] recs2[i] == recs_raw[i]);
    };
    assert(s2.subrange(0, s2.len() as int) =~= records_bytes(recs2));
    lemma_walk_round_trip(s2, 0, recs2);
    let f = |b: Seq<u8>| (b.len() as u64, b);
    let recs2m = recs2.map_values(f);
    assert(stream_records(s2, 0) == recs2m);
    // Candidates and payload of the corrupted record run.
    let tail_raw = interleaved(hb, cs.skip(1)) + repeated(hb, trailing);
    assert(recs_raw.skip(1) =~= seq![cs[0]] + tail_raw);
    let tail = tail_raw.map_values(f);
    lemma_records_extract(hb, hh, cs.skip(1), trailing);
    let k = (cs.len() - 1 + trailing) as nat;
    assert(stream_candidates(tail).len() == k);
    assert(forall|j: int| 0 <= j < k ==> stream_candidates(tail)[j] == hh);
    assert(stream_payload(tail) == concat_seqs(cs.skip(1)));
    assert(recs2m =~= seq![(6u64, hb2)] + (seq![(cs[0].len() as u64, cs[0])] + tail));
    lemma_candidates_concat(seq![(6u64, hb2)], seq![(cs[0].len() as u64, cs[0])] + tail);
    lemma_candidates_concat(seq![(cs[0].len() as u64, cs[0])], tail);
    lemma_payload_concat(seq![(6u64, hb2)], seq![(cs[0].len() as u64, cs[0])] + tail);
    lemma_payload_concat(seq![(cs[0].len() as u64, cs[0])], tail);
    assert(stream_candidates(Seq::<(u64, Seq<u8>)>::empty()) =~= Seq::<Header>::empty());
    assert(stream_payload(Seq::<(u64, Seq<u8>)>::empty()) =~= Seq::<u8>::empty());
    assert(stream_candidates(seq![(6u64, hb2)]) =~= seq![hh2]) by {
        assert(seq![(6u64, hb2)].skip(1) =~= Seq::<(u64, Seq<u8>)>::empty());
        assert(seq![(6u64, hb2)][0] == (6u64, hb2));
    };
    assert(is_header_candidate(hb2));
    assert(stream_payload(seq![(6u64, hb2)]) =~= Seq::<u8>::empty()) by {
        assert(seq![(6u64, hb2)].skip(1) =~= Seq::<(u64, Seq<u8>)>::empty());
    };
    assert(!is_header_candidate(cs[0]));
    assert(stream_candidates(seq![(cs[0].len() as u64, cs[0])]) =~= Seq::<Header>::empty()) by {
        assert(seq![(cs[0].len() as u64, cs[0])].skip(1) =~= Seq::<(u64, Seq<u8>)>::empty());
        assert(seq![(cs[0].len() as u64, cs[0])][0] == (cs[0].len() as u64, cs[0]));
        match header_parse(cs[0]) {
            Some(h) => {
                assert(!spec_filter_valid_header(h));
            },
            None => {},
        }
    };
    assert(stream_payload(seq![(cs[0].len() as u64, cs[0])]) =~= cs[0]) by {
        assert(seq![(cs[0].len() as u64, cs[0])].skip(1) =~= Seq::<(u64, Seq<u8>)>::empty());
        assert(seq![(cs[0].len() as u64, cs[0])][0] == (cs[0].len() as u64, cs[0]));
    };
    let cands = stream_candidates(recs2m);
    assert(cands =~= seq![hh2] + stream_candidates(tail));
    assert(stream_payload(recs2m) =~= cs[0] + concat_seqs(cs.skip(1)));
    assert(concat_seqs(cs) == cs[0] + concat_seqs(cs.skip(1)));
    assert(stream_payload(recs2m) == pk);
    // The untouched copies out-vote the rewritten header.
    assert(cs.len() + trailing >= 3) by {
        if trailing > 0 {
        } else {
            assert(copies <= cs.len());
        }
    };
    assert(k >= 2);
    assert(cands =~= seq![hh2] + Seq::new(k, |i: int| hh)) by {
        let uni = Seq::new(k, |i: int| hh);
        let rhs = seq![hh2] + uni;
        assert forall|j: int| 0 <= j < cands.len() implies cands[j] == rhs[j] by {
            if j > 0 {
                assert(cands[j] == stream_candidates(tail)[j - 1]);
                assert(rhs[j] == uni[j - 1]);
            }
        };
    };
    lemma_elect_head_uniform(hh2, hh, k);
    assert(elect_header(cands) == Some(hh));
    assert(extract_spec(s2) == Some((hh, pk)));
    lemma_outcome_from_extract(s2, hh, pk, p, blocks);
}


// ------------------------------------------------------------------
// Surviving zeroed tail bytes within the trailing header copies
// ------------------------------------------------------------------

/// The stream with its last `z` bytes zeroed.
pub open spec fn zero_suffix(s: Seq<u8>, z: nat) -> Seq<u8> {
    Seq::new(s.len(), |i: int| if i >= s.len() - z { 0u8 } else { s[i] })
}

/// How many bare header copies trail the chunks of a wrapped stream.
pub open spec fn wrap_trailing_headers(p: Seq<u8>, lvl: DamageLevel) -> nat {
    let plen = pack_bytes(spec_create_ecc(p, lvl)).len();
    let copies = spec_damage_bits(p.len(), lvl) + 2;
    let csize = spec_chunk_size(plen, copies);
    let cs = chunks_of(pack_bytes(spec_create_ecc(p, lvl)), csize);
    if copies > cs.len() {
        (copies - cs.len()) as nat
    } else {
        0nat
    }
}

/// A run of empty records is a run of zero bytes.
proof fn lemma_records_zeros(n: nat)
    ensures
        records_bytes(repeated(Seq::<u8>::empty(), n)) == Seq::new(n, |i: int| 0u8),
    decreases n,
{
    let reps = repeated(Seq::<u8>::empty(), n);
    if n == 0 {
        assert(records_bytes(reps) =~= Seq::new(0nat, |i: int| 0u8));
    } else {
        lemma_records_zeros((n - 1) as nat);
        assert(reps[0] =~= Seq::<u8>::empty());
        assert(reps.skip(1) =~= repeated(Seq::<u8>::empty(), (n - 1) as nat));
        assert(varint_bytes(0u64) == seq![0u8]);
        assert(record_bytes(Seq::<u8>::empty()) =~= seq![0u8]);
        assert(records_bytes(reps) =~= Seq::new(n, |i: int| 0u8));
    }
}

/// Zeroing a suffix shorter than the tail only touches the tail.
proof fn lemma_zero_suffix_concat(a: Seq<u8>, b: Seq<u8>, z: nat)
    requires
        z <= b.len(),
    ensures
        zero_suffix(a + b, z) == a + zero_suffix(b, z),
{
    assert(zero_suffix(a + b, z) =~= a + zero_suffix(b, z));
}

/// A run of `t` bare header records is `7 * t` bytes long.
proof fn lemma_header_run_len(hb: Seq<u8>, t: nat)
    requires
        hb.len() == 6,
    ensures
        records_bytes(repeated(hb, t)).len() == 7 * t,
    decreases t,
{
    let reps = repeated(hb, t);
    if t > 0 {
        lemma_header_run_len(hb, (t - 1) as nat);
        assert(reps[0] == hb);
        assert(reps.skip(1) =~= repeated(hb, (t - 1) as nat));
        assert(varint_bytes(6u64) =~= seq![6u8]);
        assert(record_bytes(hb).len() == 7);
    } else {
        assert(records_bytes(reps) =~= Seq::<u8>::empty());
    }
}

/// The record run that replaces `t` bare header copies when the last `z`
/// bytes are zeroed: the untouched copies, then at most one partially
/// zeroed copy, then one empty record per fully zeroed byte.
pub open spec fn zeroed_header_run(hb: Seq<u8>, t: nat, z: nat) -> Seq<Seq<u8>> {
    let q = z / 7;
    let r = z % 7;
    if r == 0 {
        repeated(hb, (t - q) as nat) + repeated(Seq::<u8>::empty(), (7 * q) as nat)
    } else {
        repeated(hb, (t - q - 1) as nat) + seq![zero_suffix(hb, r)] + repeated(
            Seq::<u8>::empty(),
            (7 * q) as nat,
        )
    }
}

/// Zeroing the last `z` bytes of a run of bare header records leaves the
/// replaced record run.
proof fn lemma_zero_header_run(hb: Seq<u8>, t: nat, z: nat)
    requires
        hb.len() == 6,
        z <= 7 * t,
    ensures
        zero_suffix(records_bytes(repeated(hb, t)), z) == records_bytes(zeroed_header_run(hb, t, z)),
    decreases z,
{
    let q = z / 7;
    let r = z % 7;
    let reps = repeated(hb, t);
    lemma_header_run_len(hb, t);
    vstd::arithmetic::div_mod::lemma_fundamental_div_mod(z as int, 7);
    vstd::arithmetic::div_mod::lemma_mod_bound(z as int, 7);
    assert(z == 7 * q + r);
    assert(0 <= r < 7);
    if z == 0 {
        assert(q == 0 && r == 0) by {
            vstd::arithmetic::div_mod::lemma_fundamental_div_mod_converse(z as int, 7, 0, 0);
        };
        assert(zero_suffix(records_bytes(reps), 0) =~= records_bytes(reps));
        assert(zeroed_header_run(hb, t, 0) =~= reps);
    } else {
        assert(t >= 1);
        let head = repeated(hb, (t - 1) as nat);
        assert(reps =~= head + seq![hb]);
        lemma_records_bytes_concat(head, seq![hb]);
        assert(seq![hb].skip(1) =~= Seq::<Seq<u8>>::empty());
        assert(records_bytes(Seq::<Seq<u8>>::empty()) =~= Seq::<u8>::empty());
        assert(records_bytes(seq![hb]) =~= record_bytes(hb));
        assert(varint_bytes(6u64) =~= seq![6u8]);
        assert(record_bytes(hb).len() == 7);
        lemma_header_run_len(hb, (t - 1) as nat);
        if z >= 7 {
            assert(q >= 1);
            assert(z - 7 == 7 * (q - 1) + r);
            assert((z - 7) as nat / 7 == (q - 1) as nat && (z - 7) as nat % 7 == r) by {
                vstd::arithmetic::div_mod::lemma_fundamental_div_mod_converse(
                    z as int - 7,
                    7,
                    q - 1,
                    r as int,
                );
            };
            lemma_zero_header_run(hb, (t - 1) as nat, (z - 7) as nat);
            // The last record is zeroed whole; the rest recurses.
            assert(zero_suffix(records_bytes(reps), z) =~= zero_suffix(
                records_bytes(head),
                (z - 7) as nat,
            ) + Seq::new(7nat, |i: int| 0u8));
            lemma_records_zeros(7nat);
            let prev = zeroed_header_run(hb, (t - 1) as nat, (z - 7) as nat);
            lemma_records_bytes_concat(prev, repeated(Seq::<u8>::empty(), 7nat));
            assert(zeroed_header_run(hb, t, z) =~= prev + repeated(Seq::<u8>::empty(), 7nat)) by {
                if r == 0 {
                    assert(repeated(Seq::<u8>::empty(), (7 * q) as nat) =~= repeated(
                        Seq::<u8>::empty(),
                        (7 * (q - 1)) as nat,
                    ) + repeated(Seq::<u8>::empty(), 7nat));
                    assert(zeroed_header_run(hb, t, z) =~= (repeated(hb, (t - q) as nat)
                        + repeated(Seq::<u8>::empty(), (7 * (q - 1)) as nat)) + repeated(
                        Seq::<u8>::empty(),
                        7nat,
                    ));
                } else {
                    assert(repeated(Seq::<u8>::empty(), (7 * q) as nat) =~= repeated(
                        Seq::<u8>::empty(),
                        (7 * (q - 1)) as nat,
                    ) + repeated(Seq::<u8>::empty(), 7nat));
                    assert(zeroed_header_run(hb, t, z) =~= (repeated(hb, (t - q - 1) as nat)
                        + seq![zero_suffix(hb, r)] + repeated(
                        Seq::<u8>::empty(),
                        (7 * (q - 1)) as nat,
                    )) + repeated(Seq::<u8>::empty(), 7nat));
                }
            };
            assert(records_bytes(zeroed_header_run(hb, t, z)) =~= records_bytes(prev)
                + records_bytes(repeated(Seq::<u8>::empty(), 7nat)));
        } else {
            // Only the last record is touched, in its content bytes.
            assert(q == 0 && r == z);
            let hbr = zero_suffix(hb, r);
            assert(hbr.len() == 6);
            assert(zero_suffix(records_bytes(reps), z) =~= records_bytes(head) + record_bytes(
                hbr,
            )) by {
                assert(record_bytes(hbr) =~= seq![6u8] + hbr);
            };
            assert(zeroed_header_run(hb, t, z) =~= head + seq![hbr] + repeated(
                Seq::<u8>::empty(),
                0nat,
            ));
            lemma_records_bytes_concat(head + seq![hbr], repeated(Seq::<u8>::empty(), 0nat));
            lemma_records_bytes_concat(head, seq![hbr]);
            assert(seq![hbr].skip(1) =~= Seq::<Seq<u8>>::empty());
            assert(records_bytes(Seq::<Seq<u8>>::empty()) =~= Seq::<u8>::empty());
            assert(records_bytes(seq![hbr]) =~= record_bytes(hbr));
            assert(records_bytes(repeated(Seq::<u8>::empty(), 0nat)) =~= Seq::<u8>::empty());
            assert(records_bytes(zeroed_header_run(hb, t, z)) =~= records_bytes(head)
                + record_bytes(hbr));
        }
    }
}


/// Counting in a slate whose uniform body precedes a single differing
/// tail entry.
proof fn lemma_counts_uniform_tail(h: Header, x: Header, a: nat, n: int)
    requires
        x != h,
        0 <= n <= a + 1,
    ensures
        count_eq_upto(Seq::new(a, |i: int| h) + seq![x], h, n) == (if n <= a {
            n
        } else {
            a as int
        }),
        count_eq_upto(Seq::new(a, |i: int| h) + seq![x], x, n) == (if n <= a {
            0int
        } else {
            1int
        }),
    decreases n,
{
    if n > 0 {
        lemma_counts_uniform_tail(h, x, a, n - 1);
        let cands = Seq::new(a, |i: int| h) + seq![x];
        if n <= a {
            assert(cands[n - 1] == h);
        } else {
            assert(cands[n - 1] == x);
        }
    }
}

/// A uniform majority keeps the election against a single differing tail
/// entry: the first body entry is elected.
proof fn lemma_best_idx_uniform_tail(h: Header, x: Header, a: nat, n: int)
    requires
        x != h,
        a >= 2,
        1 <= n <= a + 1,
        count_eq(Seq::new(a, |i: int| h) + seq![x], h) == a,
        count_eq(Seq::new(a, |i: int| h) + seq![x], x) == 1,
    ensures
        best_idx(Seq::new(a, |i: int| h) + seq![x], n) == 0,
    decreases n,
{
    let cands = Seq::new(a, |i: int| h) + seq![x];
    if n > 1 {
        lemma_best_idx_uniform_tail(h, x, a, n - 1);
        assert(cands[0] == h);
        if n <= a {
            assert(cands[n - 1] == h);
        } else {
            assert(cands[n - 1] == x);
        }
    }
}

/// The body's header is elected over a single differing tail entry.
proof fn lemma_elect_uniform_tail(h: Header, x: Header, a: nat)
    requires
        a >= 2,
    ensures
        elect_header(Seq::new(a, |i: int| h) + seq![x]) == Some(h),
{
    let cands = Seq::new(a, |i: int| h) + seq![x];
    if x == h {
        assert(forall|j: int| 0 <= j < cands.len() ==> cands[j] == h);
        lemma_elect_uniform(cands, h);
    } else {
        lemma_counts_uniform_tail(h, x, a, a as int + 1);
        lemma_best_idx_uniform_tail(h, x, a, a as int + 1);
        assert(cands[0] == h);
    }
}

/// A run of empty records yields no header candidates and no payload.
proof fn lemma_extract_empty_run(n: nat)
    ensures
        ({
            let recs = repeated(Seq::<u8>::empty(), n).map_values(
                |b: Seq<u8>| (b.len() as u64, b),
            );
            stream_candidates(recs) == Seq::<Header>::empty() && stream_payload(recs)
                == Seq::<u8>::empty()
        }),
    decreases n,
{
    let f = |b: Seq<u8>| (b.len() as u64, b);
    let recs = repeated(Seq::<u8>::empty(), n).map_values(f);
    if n == 0 {
        assert(recs =~= Seq::<(u64, Seq<u8>)>::empty());
        assert(stream_candidates(recs) =~= Seq::<Header>::empty());
        assert(stream_payload(recs) =~= Seq::<u8>::empty());
    } else {
        lemma_extract_empty_run((n - 1) as nat);
        let prev = repeated(Seq::<u8>::empty(), (n - 1) as nat).map_values(f);
        assert(recs[0] == (0u64, Seq::<u8>::empty()));
        assert(recs.skip(1) =~= prev);
        assert(stream_candidates(recs) =~= Seq::<Header>::empty());
        assert(stream_payload(recs) =~= recs[0].1 + stream_payload(prev));
        assert(stream_payload(recs) =~= Seq::<u8>::empty());
    }
}

/// The records of a wrapped stream whose last `z` bytes, all within the
/// trailing bare header copies, were zeroed.
#[verifier::rlimit(100)]
#[verifier::spinoff_prover]
proof fn lemma_zeroed_stream_records(p: Seq<u8>, lvl: DamageLevel, z: nat)
    requires
        wrap_round_trip_ok(p, lvl),
        p.len() <= 127,
        1 <= z <= 7 * wrap_trailing_headers(p, lvl),
    ensures
        ({
            let hb = header_bytes(spec_header_for(p));
            let pk = pack_bytes(spec_create_ecc(p, lvl));
            let copies = (spec_damage_bits(p.len(), lvl) + 2) as nat;
            let cs = chunks_of(pk, spec_chunk_size(pk.len(), copies));
            let t = wrap_trailing_headers(p, lvl);
            let recs2 = interleaved(hb, cs) + zeroed_header_run(hb, t, z);
            &&& copies == cs.len() + t
            &&& zero_suffix(wrap_stream(p, lvl), z) == records_bytes(recs2)
            &&& (forall|i: int|
                0 <= i < recs2.len() ==> (#[trigger] recs2[i]).len() < 0x10000000000000000)
        }),
{
    let blocks = spec_create_ecc(p, lvl);
    let hh = spec_header_for(p);
    let hb = header_bytes(hh);
    let pk = pack_bytes(blocks);
    let copies = (spec_damage_bits(p.len(), lvl) + 2) as nat;
    let csize = spec_chunk_size(pk.len(), copies);
    let cs = chunks_of(pk, csize);
    let s = wrap_stream(p, lvl);
    lemma_header_for_len(p);
    lemma_wrap_block_bounds(p, lvl);
    assert(csize >= 1);
    lemma_chunk_lens(pk, csize);
    lemma_chunks_count(pk, csize);
    assert(csize <= pk.len() + copies) by {
        assert((pk.len() as int + copies as int - 1) / (copies as int) <= pk.len() as int
            + copies as int - 1) by {
            vstd::arithmetic::div_mod::lemma_div_is_ordered_by_denominator(
                pk.len() as int + copies as int - 1,
                1,
                copies as int,
            );
        };
    };
    assert(copies <= 8 * (spec_copy_times(p.len(), lvl) + 1) + 2);
    let bound: nat = 0x100000;
    assert(csize <= bound);
    lemma_inter_elems(hb, cs, bound);
    let t = wrap_trailing_headers(p, lvl);
    assert(t >= 1);
    assert(copies == cs.len() + t);
    let inter = interleaved(hb, cs);
    let reps = repeated(hb, t);
    assert(s == records_bytes(inter + reps));
    lemma_records_bytes_concat(inter, reps);
    lemma_header_run_len(hb, t);
    lemma_zero_suffix_concat(records_bytes(inter), records_bytes(reps), z);
    lemma_zero_header_run(hb, t, z);
    let zhr = zeroed_header_run(hb, t, z);
    let recs2 = inter + zhr;
    lemma_records_bytes_concat(inter, zhr);
    assert(zero_suffix(s, z) == records_bytes(recs2));
    let q = z / 7;
    let r = z % 7;
    assert(forall|i: int|
        0 <= i < recs2.len() ==> (#[trigger] recs2[i]).len() < 0x10000000000000000) by {
        assert(forall|i: int| 0 <= i < 2 * cs.len() ==> #[trigger] recs2[i] == inter[i]);
        assert(forall|i: int|
            2 * cs.len() <= i < recs2.len() ==> #[trigger] recs2[i] == zhr[i - 2 * cs.len()]);
        assert(forall|i: int| 0 <= i < zhr.len() ==> (#[trigger] zhr[i]).len() <= 6) by {
            if r == 0 {
                assert(forall|i: int|
                    0 <= i < (t - q) as int ==> #[trigger] zhr[i] == hb);
                assert(forall|i: int|
                    (t - q) as int <= i < zhr.len() ==> (#[trigger] zhr[i]).len() == 0);
            } else {
                assert(forall|i: int|
                    0 <= i < (t - q - 1) as int ==> #[trigger] zhr[i] == hb);
                assert(zhr[(t - q - 1) as int] == zero_suffix(hb, r));
                assert(forall|i: int|
                    (t - q) as int <= i < zhr.len() ==> (#[trigger] zhr[i]).len() == 0);
            }
        };
    };
}

/// The extraction outcome after zeroing the last `z` bytes of a wrapped
/// stream within its trailing bare header copies: the written header is
/// still elected and the reassembled payload's pack still parses to the
/// written blocks.
#[verifier::rlimit(100)]
#[verifier::spinoff_prover]
proof fn lemma_tail_zeroing_extract(p: Seq<u8>, lvl: DamageLevel, z: nat)
    requires
        wrap_round_trip_ok(p, lvl),
        p.len() <= 127,
        z <= 7 * wrap_trailing_headers(p, lvl),
        z / 7 + 3 <= spec_damage_bits(p.len(), lvl) + 2,
    ensures
        ({
            let s2 = zero_suffix(wrap_stream(p, lvl), z);
            extract_spec(s2) matches Some(hp) && hp.0 == spec_header_for(p) && pack_parse(hp.1)
                == Some(spec_create_ecc(p, lvl))
        }),
{
    let blocks = spec_create_ecc(p, lvl);
    let hh = spec_header_for(p);
    let hb = header_bytes(hh);
    let pk = pack_bytes(blocks);
    let copies = (spec_damage_bits(p.len(), lvl) + 2) as nat;
    let csize = spec_chunk_size(pk.len(), copies);
    let cs = chunks_of(pk, csize);
    let s = wrap_stream(p, lvl);
    let s2 = zero_suffix(s, z);
    lemma_wrap_block_bounds(p, lvl);
    assert(blocks.len() < 0x10000000000000000);
    assert(forall|i: int|
        0 <= i < blocks.len() ==> (#[trigger] blocks[i]).1.len() < 0x10000000000000000);
    if z == 0 {
        lemma_container_round_trip(p, lvl);
        assert(s2 =~= s);
    } else {
        lemma_header_for_len(p);
        lemma_header_round_trip(hh);
        lemma_chunk_lens(pk, csize);
        lemma_chunks_concat(pk, csize);
        assert(forall|j: int| 0 <= j < cs.len() ==> !is_header_candidate(#[trigger] cs[j]));
        lemma_zeroed_stream_records(p, lvl, z);
        let t = wrap_trailing_headers(p, lvl);
        let inter = interleaved(hb, cs);
        let zhr = zeroed_header_run(hb, t, z);
        let recs2 = inter + zhr;
        assert(s2 == records_bytes(recs2));
        let q = z / 7;
        let r = z % 7;
        vstd::arithmetic::div_mod::lemma_fundamental_div_mod(z as int, 7);
        vstd::arithmetic::div_mod::lemma_mod_bound(z as int, 7);
        assert(q <= t && (r > 0 ==> q < t)) by {
            assert(z == 7 * q + r);
        };
        let tp: nat = if r == 0 {
            (t - q) as nat
        } else {
            (t - q - 1) as nat
        };
        let hbr = zero_suffix(hb, r);
        assert(hbr.len() == 6);
        let extra: Seq<Seq<u8>> = if r == 0 {
            repeated(Seq::<u8>::empty(), (7 * q) as nat)
        } else {
            seq![hbr] + repeated(Seq::<u8>::empty(), (7 * q) as nat)
        };
        assert(zhr =~= repeated(hb, tp) + extra);
        assert(recs2 =~= (inter + repeated(hb, tp)) + extra);
        assert(s2.subrange(0, s2.len() as int) =~= records_bytes(recs2));
        lemma_walk_round_trip(s2, 0, recs2);
        let f = |b: Seq<u8>| (b.len() as u64, b);
        let recs2m = recs2.map_values(f);
        assert(stream_records(s2, 0) == recs2m);
        // Candidates and payload.
        let body = (inter + repeated(hb, tp)).map_values(f);
        let extram = extra.map_values(f);
        assert(recs2m =~= body + extram);
        lemma_candidates_concat(body, extram);
        lemma_payload_concat(body, extram);
        assert(forall|j: int|
            0 <= j < cs.len() ==> !is_header_candidate(#[trigger] cs[j]) && cs[j].len()
                < 0x10000000000000000);
        lemma_records_extract(hb, hh, cs, tp);
        let a = (cs.len() + tp) as nat;
        assert(stream_candidates(body).len() == a);
        assert(forall|j: int| 0 <= j < a ==> stream_candidates(body)[j] == hh);
        assert(stream_payload(body) == concat_seqs(cs));
        assert(stream_payload(body) == pk);
        lemma_extract_empty_run((7 * q) as nat);
        let emptym = repeated(Seq::<u8>::empty(), (7 * q) as nat).map_values(f);
        let cands = stream_candidates(recs2m);
        if r == 0 {
            assert(extram =~= emptym);
            assert(cands =~= stream_candidates(body));
            assert(a >= 1) by {
                assert(a == copies - q);
            };
            assert(forall|j: int| 0 <= j < cands.len() ==> cands[j] == hh);
            lemma_elect_uniform(cands, hh);
            assert(stream_payload(recs2m) =~= pk);
            assert(pk + Seq::<u8>::empty() =~= pk);
            crate::codec::lemma_pack_round_trip(blocks, Seq::<u8>::empty());
        } else {
            assert(extram =~= seq![(6u64, hbr)] + emptym);
            lemma_candidates_concat(seq![(6u64, hbr)], emptym);
            lemma_payload_concat(seq![(6u64, hbr)], emptym);
            assert(seq![(6u64, hbr)].skip(1) =~= Seq::<(u64, Seq<u8>)>::empty());
            assert(stream_candidates(Seq::<(u64, Seq<u8>)>::empty()) =~= Seq::<Header>::empty());
            assert(stream_payload(Seq::<(u64, Seq<u8>)>::empty()) =~= Seq::<u8>::empty());
            assert(a >= 2) by {
                assert(a == copies - q - 1);
            };
            if is_header_candidate(hbr) {
                // The partially zeroed copy still parses: one out-voted
                // extra candidate, and the payload stays the pack.
                let h2 = header_parse(hbr)->Some_0;
                assert(stream_candidates(seq![(6u64, hbr)]) =~= seq![h2]);
                assert(stream_payload(seq![(6u64, hbr)]) =~= Seq::<u8>::empty());
                assert(stream_payload(recs2m) =~= pk);
                assert(cands =~= Seq::new(a, |i: int| hh) + seq![h2]) by {
                    assert forall|j: int|
                        0 <= j < cands.len() implies cands[j] == (Seq::new(a, |i: int| hh)
                        + seq![h2])[j] by {
                        if j < a {
                            assert(cands[j] == stream_candidates(body)[j]);
                        }
                    };
                };
                lemma_elect_uniform_tail(hh, h2, a);
                assert(pk + Seq::<u8>::empty() =~= pk);
                crate::codec::lemma_pack_round_trip(blocks, Seq::<u8>::empty());
            } else {
                // The partially zeroed copy no longer parses: its bytes
                // land behind the pack, which the pack parser ignores.
                assert(stream_candidates(seq![(6u64, hbr)]) =~= Seq::<Header>::empty()) by {
                    match header_parse(hbr) {
                        Some(h2) => {
                            assert(!spec_filter_valid_header(h2));
                        },
                        None => {},
                    }
                };
                assert(stream_payload(seq![(6u64, hbr)]) =~= hbr);
                assert(stream_payload(recs2m) =~= pk + hbr);
                assert(cands =~= stream_candidates(body));
                lemma_elect_uniform(cands, hh);
                crate::codec::lemma_pack_round_trip(blocks, hbr);
            }
        }
        assert(elect_header(stream_candidates(recs2m)) == Some(hh));
        assert(pack_parse(stream_payload(recs2m)) == Some(blocks));
    }
}

/// Law: zeroing the last `z` bytes of a wrapped stream still recovers the
/// payload exactly, as long as the payload is short enough for the
/// six-byte header wire form, the zeroed region stays within the trailing
/// bare header copies, and at least two header copies stay untouched.  The
/// payload chunks all sit before the trailing copies, so only out-voted
/// header replicas are lost; a partially zeroed header copy that no longer
/// parses lands behind the pack, where the pack parser ignores it.
pub proof fn lemma_recover_survives_trailing_tail_zeroing(p: Seq<u8>, lvl: DamageLevel, z: nat)
    requires
        wrap_round_trip_ok(p, lvl),
        p.len() <= 127,
        z <= 7 * wrap_trailing_headers(p, lvl),
        z / 7 + 3 <= spec_damage_bits(p.len(), lvl) + 2,
    ensures
        ({
            let s2 = zero_suffix(wrap_stream(p, lvl), z);
            extract_spec(s2) matches Some(hp) && hp.0 == spec_header_for(p) && pack_parse(hp.1)
                == Some(spec_create_ecc(p, lvl)) && recover_outcome(s2) == Ok::<
                Seq<u8>,
                ErrorKind,
            >(p)
        }),
{
    lemma_tail_zeroing_extract(p, lvl, z);
    lemma_container_round_trip(p, lvl);
    let s2 = zero_suffix(wrap_stream(p, lvl), z);
    let hh = spec_header_for(p);
    let blocks = spec_create_ecc(p, lvl);
    let hp = extract_spec(s2)->Some_0;
    assert(hp == (hp.0, hp.1));
    lemma_outcome_from_extract(s2, hh, hp.1, p, blocks);
}

} // verus!
