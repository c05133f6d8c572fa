//! Little-endian base-128 varint codec with a most-significant continuation
//! bit: the framing primitive of the container wire format.

use vstd::prelude::*;

verus! {

/// The base-128 encoding of `n`: low digit first, every byte but the last
/// carries the continuation bit.
pub open spec fn varint_bytes(n: u64) -> Seq<u8>
    decreases n,
{
    if n < 128 {
        seq![n as u8]
    } else {
        seq![(n % 128 + 128) as u8] + varint_bytes(n / 128)
    }
}

/// Decoding a varint from the front of `s`: the value and the number of
/// bytes consumed, or `None` when no in-range varint starts `s`.
/// An encoding longer than ten bytes or a value that does not fit in
/// sixty-four bits is rejected.
pub open spec fn varint_parse(s: Seq<u8>) -> Option<(u64, int)>
    decreases s.len(),
{
    if s.len() == 0 {
        None
    } else if s[0] < 128 {
        Some((s[0] as u64, 1int))
    } else {
        match varint_parse(s.subrange(1, s.len() as int)) {
            None => None,
            Some((v, u)) => {
                let value = (s[0] as int - 128) + 128 * (v as int);
                if u + 1 <= 10 && value < 0x10000000000000000 {
                    Some((value as u64, u + 1))
                } else {
                    None
                }
            },
        }
    }
}

/// 128 raised to `k`.
pub open spec fn pow128(k: nat) -> nat
    decreases k,
{
    if k == 0 {
        1
    } else {
        128 * pow128((k - 1) as nat)
    }
}

/// An encoding of a value below `128^k` takes at most `k` bytes.
pub proof fn lemma_varint_bytes_len_le(n: u64, k: nat)
    requires
        1 <= k,
        (n as nat) < pow128(k),
    ensures
        varint_bytes(n).len() <= k,
    decreases k,
{
    if n >= 128 {
        assert(pow128(k) == 128 * pow128((k - 1) as nat));
        assert(((n / 128) as nat) < pow128((k - 1) as nat)) by {
            assert(n as nat >= 128 * ((n / 128) as nat));
        };
        assert(k >= 2) by {
            if k == 1 {
                assert(pow128(1nat) == 128);
            }
        };
        lemma_varint_bytes_len_le(n / 128, (k - 1) as nat);
    }
}

/// Every sixty-four bit value encodes in at most ten bytes.
pub proof fn lemma_varint_bytes_len(n: u64)
    ensures
        1 <= varint_bytes(n).len() <= 10,
{
    assert(pow128(0nat) == 1);
    assert(pow128(1nat) == 128);
    assert(pow128(2nat) == 0x4000);
    assert(pow128(3nat) == 0x200000);
    assert(pow128(4nat) == 0x10000000);
    assert(pow128(5nat) == 0x800000000);
    assert(pow128(6nat) == 0x40000000000);
    assert(pow128(7nat) == 0x2000000000000);
    assert(pow128(8nat) == 0x100000000000000);
    assert(pow128(9nat) == 0x8000000000000000);
    assert(pow128(10nat) == 0x400000000000000000);
    lemma_varint_bytes_len_le(n, 10nat);
    if n < 128 {
    } else {
        assert(varint_bytes(n).len() >= 1);
    }
}

/// Decoding inverts encoding, whatever bytes follow the encoding.
pub proof fn lemma_varint_round_trip(n: u64, rest: Seq<u8>)
    ensures
        varint_parse(varint_bytes(n) + rest) == Some((n, varint_bytes(n).len() as int)),
    decreases n,
{
    let s = varint_bytes(n) + rest;
    if n < 128 {
        assert(s[0] == n as u8);
    } else {
        assert(s[0] == (n % 128 + 128) as u8);
        assert(s[0] >= 128);
        lemma_varint_round_trip(n / 128, rest);
        assert(s.subrange(1, s.len() as int) =~= varint_bytes(n / 128) + rest);
        lemma_varint_bytes_len(n);
        assert(varint_bytes(n).len() == 1 + varint_bytes(n / 128).len());
        let v = n / 128;
        let value = (s[0] as int - 128) + 128 * (v as int);
        assert(value == n) by {
            assert(s[0] as int - 128 == n % 128);
        };
    }
}

/// The shape of any successful decode: one to ten bytes were consumed, the
/// last consumed byte lacks the continuation bit and all earlier ones
/// carry it.
pub proof fn lemma_varint_parse_shape(s: Seq<u8>)
    ensures
        match varint_parse(s) {
            None => true,
            Some((v, u)) => 1 <= u <= 10 && u <= s.len() && s[u - 1] < 128 && (forall|i: int|
                0 <= i < u - 1 ==> s[i] >= 128),
        },
    decreases s.len(),
{
    if s.len() == 0 {
    } else if s[0] < 128 {
    } else {
        lemma_varint_parse_shape(s.subrange(1, s.len() as int));
        match varint_parse(s) {
            None => {},
            Some((v, u)) => {
                let tail = s.subrange(1, s.len() as int);
                assert(varint_parse(tail) is Some);
                let (tv, tu) = varint_parse(tail)->Some_0;
                assert(u == tu + 1);
                assert(s[u - 1] == tail[tu - 1]);
                assert(forall|i: int| 1 <= i < u - 1 ==> s[i] == tail[i - 1]);
            },
        }
    }
}

/// Decode a varint that starts at `from`; `None` when none is there.
pub fn decode_varint(s: &[u8], from: usize) -> (r: Option<(u64, usize)>)
    requires
        from <= s@.len(),
    ensures
        match r {
            None => varint_parse(s@.subrange(from as int, s@.len() as int)) is None,
            Some((v, u)) => 1 <= u <= 10 && from + u <= s@.len() && varint_parse(
                s@.subrange(from as int, s@.len() as int),
            ) == Some((v, u as int)),
        },
{
    let ghost suff = s@.subrange(from as int, s@.len() as int);
    proof {
        lemma_varint_parse_shape(suff);
    }
    // Find the terminating byte (the first without the continuation bit)
    // within the ten-byte window that an in-range varint can occupy.
    let slen: usize = s.len();
    let avail: usize = slen - from;
    let mut t: usize = 0;
    let mut found: bool = false;
    while t < 10 && t < avail && !found
        invariant
            from <= s@.len(),
            slen == s@.len(),
            avail == s@.len() - from,
            t <= 10,
            t <= avail,
            suff == s@.subrange(from as int, s@.len() as int),
            found ==> t < 10 && from + t < s@.len() && s@[from as int + t] < 128,
            forall|i: int| 0 <= i < t ==> #[trigger] s@[from as int + i] >= 128,
        decreases (if found {
            0int
        } else {
            10 - t
        }),
    {
        if s[from + t] < 128 {
            found = true;
        } else {
            t = t + 1;
        }
    }
    if !found {
        proof {
            if varint_parse(suff) is Some {
                let (v, u) = varint_parse(suff)->Some_0;
                assert(u - 1 < t);
                assert(suff[u - 1] == s@[from as int + (u - 1)]);
                assert(s@[from as int + (u - 1)] >= 128);
            }
        }
        return None;
    }
    // Accumulate the digits from the terminator backwards, mirroring the
    // recursive structure of `varint_parse`.
    let mut v: u64 = s[from + t] as u64;
    let mut i: usize = t;
    proof {
        assert(s@.subrange(from as int + t, s@.len() as int)[0] == s@[from + t]);
    }
    while i > 0
        invariant
            from <= s@.len(),
            slen == s@.len(),
            t < 10,
            from + t < s@.len(),
            i <= t,
            suff == s@.subrange(from as int, s@.len() as int),
            forall|j: int| 0 <= j < t ==> #[trigger] s@[from as int + j] >= 128,
            varint_parse(s@.subrange(from as int + i, s@.len() as int)) == Some(
                (v, (t + 1 - i) as int),
            ),
        decreases i,
    {
        let idx: usize = from + (i - 1);
        let b = s[idx];
        proof {
            assert(s@[from as int + (i - 1)] >= 128);
        }
        let d: u64 = (b - 128) as u64;
        let wide: u128 = (d as u128) + 128u128 * (v as u128);
        let ghost inner = s@.subrange(from as int + i, s@.len() as int);
        let ghost outer = s@.subrange(from as int + (i - 1), s@.len() as int);
        proof {
            assert(outer[0] == s@[from as int + (i - 1)]);
            assert(outer.subrange(1, outer.len() as int) =~= inner);
        }
        if wide > u64::MAX as u128 {
            proof {
                assert(varint_parse(outer) is None);
                assert forall|j: int| from <= j < from + (i - 1) implies s@[j] >= 128 by {
                    assert(s@[from as int + (j - from)] >= 128);
                }
                lemma_parse_none_extends(s@, from as int, from as int + (i - 1));
            }
            return None;
        }
        v = wide as u64;
        i = i - 1;
        proof {
            assert(varint_parse(outer) == Some((v, (t + 1 - i) as int)));
        }
    }
    Some((v, t + 1))
}

/// If decoding fails at `mid` and every byte from `lo` to `mid` carries the
/// continuation bit, decoding fails at `lo` as well.
proof fn lemma_parse_none_extends(s: Seq<u8>, lo: int, mid: int)
    requires
        0 <= lo <= mid <= s.len(),
        forall|j: int| lo <= j < mid ==> s[j] >= 128,
        varint_parse(s.subrange(mid, s.len() as int)) is None,
    ensures
        varint_parse(s.subrange(lo, s.len() as int)) is None,
    decreases mid - lo,
{
    if lo < mid {
        lemma_parse_none_extends(s, lo + 1, mid);
        let outer = s.subrange(lo, s.len() as int);
        assert(outer[0] == s[lo]);
        assert(outer.subrange(1, outer.len() as int) =~= s.subrange(lo + 1, s.len() as int));
    }
}

/// Append the encoding of `n` to `out`.
pub fn encode_varint(out: &mut Vec<u8>, n: u64)
    ensures
        final(out)@ == old(out)@ + varint_bytes(n),
{
    let mut cur: u64 = n;
    while cur >= 128
        invariant
            out@ + varint_bytes(cur) == old(out)@ + varint_bytes(n),
        decreases cur,
    {
        let ghost before = out@;
        out.push((cur % 128 + 128) as u8);
        proof {
            assert(varint_bytes(cur) == seq![(cur % 128 + 128) as u8] + varint_bytes(cur / 128));
            assert(out@ + varint_bytes(cur / 128) =~= before + varint_bytes(cur));
        }
        cur = cur / 128;
    }
    let ghost before = out@;
    out.push(cur as u8);
    proof {
        assert(varint_bytes(cur) =~= seq![cur as u8]);
        assert(out@ =~= before + varint_bytes(cur));
        assert(out@ =~= old(out)@ + varint_bytes(n));
    }
}

} // verus!
