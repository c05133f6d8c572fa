//! Redundancy blocks: verbatim copies of the payload and Reed-Solomon
//! parity over it, mixed as the damage level asks.

use vstd::prelude::*;

use crate::codec::{copy_range, push_all};
use crate::damage::{
    copy_times, rs_ecc_len, spec_copy_times, spec_rs_ecc_len, DamageLevel,
};
use crate::error::ErrorKind;
use crate::objects::{blocks_view, ECCData};

verus! {

/// The error of the Reed-Solomon decoder, carried through opaquely.
#[verifier::external_type_specification]
#[verifier::external_body]
pub struct ExDecoderError(reed_solomon::DecoderError);

/// What `reed_solomon::Encoder::encode` computes as the parity bytes for
/// the given data and parity length: a function of its arguments alone.
pub uninterp spec fn rs_parity_of(data: Seq<u8>, ecc_len: nat) -> Seq<u8>;

/// What `reed_solomon::Decoder::correct` yields for the given codeword and
/// parity length: the corrected data part, or nothing; a function of its
/// arguments alone.
pub uninterp spec fn rs_correct_of(msg: Seq<u8>, ecc_len: nat) -> Option<Seq<u8>>;

/// In how many positions two byte strings of one length differ.
pub open spec fn diff_count(a: Seq<u8>, b: Seq<u8>) -> int
    decreases a.len(),
{
    if a.len() == 0 {
        0
    } else {
        diff_count(a.drop_last(), b.drop_last()) + if a.last() == b.last() {
            0int
        } else {
            1int
        }
    }
}

/// Relies on `reed_solomon::Encoder::encode`: it returns the codeword
/// `data` followed by `ecc_len` parity bytes, a function of its arguments
/// alone; codewords are limited to 255 bytes.
#[verifier::external_body]
fn rs_encode_parity(data: &[u8], ecc_len: usize) -> (r: Vec<u8>)
    requires
        1 <= ecc_len,
        data@.len() + ecc_len <= 255,
    ensures
        r@ == rs_parity_of(data@, ecc_len as nat),
        r@.len() == ecc_len,
{
    let enc = reed_solomon::Encoder::new(ecc_len);
    enc.encode(data).ecc().to_vec()
}

/// Relies on `reed_solomon::Decoder::correct` with unknown error
/// positions: its outcome is a function of the codeword and the parity
/// length alone; on success the corrected codeword keeps its length, of
/// which the first `len - ecc_len` bytes are the data part returned here;
/// and whenever some data word's codeword lies within `ecc_len / 2` byte
/// changes of the input, the decoder corrects to exactly that codeword.
/// Parity lengths above 170 are excluded: there the decoder's product
/// polynomials can outgrow its 256-byte buffers and the call panics.
#[verifier::external_body]
fn rs_correct_data(msg: &[u8], ecc_len: usize) -> (r: Result<Vec<u8>, reed_solomon::DecoderError>)
    requires
        ecc_len <= msg@.len(),
        msg@.len() <= 255,
        ecc_len <= 170,
    ensures
        r matches Ok(v) ==> v@.len() == msg@.len() - ecc_len && rs_correct_of(
            msg@,
            ecc_len as nat,
        ) == Some(v@),
        r is Err ==> rs_correct_of(msg@, ecc_len as nat) is None,
        r is Err ==> forall|orig: Seq<u8>|
            orig.len() + ecc_len == msg@.len() && (#[trigger] rs_parity_of(
                orig,
                ecc_len as nat,
            )).len() == ecc_len ==> diff_count(msg@, orig + rs_parity_of(orig, ecc_len as nat))
                > ecc_len as int / 2,
        r matches Ok(v) ==> forall|orig: Seq<u8>|
            orig.len() + ecc_len == msg@.len() && (#[trigger] rs_parity_of(
                orig,
                ecc_len as nat,
            )).len() == ecc_len && diff_count(msg@, orig + rs_parity_of(orig, ecc_len as nat))
                <= ecc_len as int / 2 ==> v@ == orig,
{
    let dec = reed_solomon::Decoder::new(ecc_len);
    dec.correct(msg, None).map(|buf| buf.data().to_vec())
}

/// Reed-Solomon encode: the data followed by `ecc_len` parity bytes.
pub fn encode_reed_solomon(data: &[u8], ecc_len: usize) -> (r: Vec<u8>)
    requires
        1 <= ecc_len,
        data@.len() + ecc_len <= 255,
    ensures
        r@ == data@ + rs_parity_of(data@, ecc_len as nat),
        r@.len() == data@.len() + ecc_len,
{
    let parity = rs_encode_parity(data, ecc_len);
    let mut out = copy_range(data, 0, data.len());
    proof {
        assert(out@ =~= data@);
    }
    push_all(&mut out, parity.as_slice());
    out
}

/// Reed-Solomon encode, under the name the block builder uses.
pub fn encode_with_ecc(data: &[u8], ecc_len: usize) -> (r: Vec<u8>)
    requires
        1 <= ecc_len,
        data@.len() + ecc_len <= 255,
    ensures
        r@ == data@ + rs_parity_of(data@, ecc_len as nat),
        r@.len() == data@.len() + ecc_len,
{
    encode_reed_solomon(data, ecc_len)
}

/// Reed-Solomon correct: the data part of the corrected codeword, or an
/// error when more bytes were corrupted than the parity can repair.  Any
/// data word whose codeword lies within `ecc_len / 2` byte changes of the
/// input is recovered exactly.
pub fn recover_reed_solomon(data: &[u8], ecc_len: usize) -> (r: Result<Vec<u8>, ErrorKind>)
    requires
        ecc_len <= data@.len(),
        data@.len() <= 255,
        ecc_len <= 170,
    ensures
        r matches Ok(v) ==> v@.len() == data@.len() - ecc_len && rs_correct_of(
            data@,
            ecc_len as nat,
        ) == Some(v@),
        r matches Err(e) ==> e == ErrorKind::ECCRecoveryError && rs_correct_of(
            data@,
            ecc_len as nat,
        ) is None,
        r is Err ==> forall|orig: Seq<u8>|
            orig.len() + ecc_len == data@.len() && (#[trigger] rs_parity_of(
                orig,
                ecc_len as nat,
            )).len() == ecc_len ==> diff_count(data@, orig + rs_parity_of(orig, ecc_len as nat))
                > ecc_len as int / 2,
        r matches Ok(v) ==> forall|orig: Seq<u8>|
            orig.len() + ecc_len == data@.len() && (#[trigger] rs_parity_of(
                orig,
                ecc_len as nat,
            )).len() == ecc_len && diff_count(data@, orig + rs_parity_of(orig, ecc_len as nat))
                <= ecc_len as int / 2 ==> v@ == orig,
{
    match rs_correct_data(data, ecc_len) {
        Ok(v) => Ok(v),
        Err(_) => Err(ErrorKind::ECCRecoveryError),
    }
}

/// Reed-Solomon correct, under the name the recovery uses.
pub fn recover_with_ecc(data: &[u8], ecc_len: usize) -> (r: Result<Vec<u8>, ErrorKind>)
    requires
        ecc_len <= data@.len(),
        data@.len() <= 255,
        ecc_len <= 170,
    ensures
        r matches Ok(v) ==> v@.len() == data@.len() - ecc_len && rs_correct_of(
            data@,
            ecc_len as nat,
        ) == Some(v@),
        r matches Err(e) ==> e == ErrorKind::ECCRecoveryError && rs_correct_of(
            data@,
            ecc_len as nat,
        ) is None,
        r is Err ==> forall|orig: Seq<u8>|
            orig.len() + ecc_len == data@.len() && (#[trigger] rs_parity_of(
                orig,
                ecc_len as nat,
            )).len() == ecc_len ==> diff_count(data@, orig + rs_parity_of(orig, ecc_len as nat))
                > ecc_len as int / 2,
        r matches Ok(v) ==> forall|orig: Seq<u8>|
            orig.len() + ecc_len == data@.len() && (#[trigger] rs_parity_of(
                orig,
                ecc_len as nat,
            )).len() == ecc_len && diff_count(data@, orig + rs_parity_of(orig, ecc_len as nat))
                <= ecc_len as int / 2 ==> v@ == orig,
{
    recover_reed_solomon(data, ecc_len)
}

/// `times` verbatim copies of the payload as redundancy blocks.
pub fn copy_n_times(data: &[u8], times: usize) -> (r: Vec<ECCData>)
    ensures
        r@.len() == times,
        forall|i: int|
            0 <= i < times ==> (#[trigger] r@[i]).ecc_algorithm == 0 && r@[i].ecc@ == data@,
{
    let mut result: Vec<ECCData> = Vec::new();
    let mut k: usize = 0;
    while k < times
        invariant
            k <= times,
            result@.len() == k,
            forall|i: int|
                0 <= i < k ==> (#[trigger] result@[i]).ecc_algorithm == 0 && result@[i].ecc@
                    == data@,
        decreases times - k,
    {
        let bytes = copy_range(data, 0, data.len());
        proof {
            assert(bytes@ =~= data@);
        }
        result.push(ECCData { ecc_algorithm: 0, ecc: bytes });
        k = k + 1;
    }
    result
}

/// The blocks the damage level asks for: a Reed-Solomon block when the
/// level's parity length is usable, the extra verbatim copies, and always
/// one final baseline copy of the payload.
pub open spec fn spec_create_ecc(data: Seq<u8>, lvl: DamageLevel) -> Seq<(u64, Seq<u8>)> {
    let copies = spec_copy_times(data.len(), lvl);
    let rs_len = spec_rs_ecc_len(data.len(), lvl);
    let rs_part: Seq<(u64, Seq<u8>)> = if rs_len > 0 && data.len() + rs_len <= 255 {
        seq![(1u64, rs_parity_of(data, rs_len))]
    } else {
        Seq::empty()
    };
    rs_part + Seq::new(copies, |i: int| (0u64, data)) + seq![(0u64, data)]
}

/// Whether the parity block the level asks for, if any, has its declared
/// length.  The encoder guarantees it; the fact becomes visible where the
/// encoder ran.
pub open spec fn parity_len_ok(data: Seq<u8>, lvl: DamageLevel) -> bool {
    let rs_len = spec_rs_ecc_len(data.len(), lvl);
    (rs_len > 0 && data.len() + rs_len <= 255) ==> rs_parity_of(data, rs_len).len() == rs_len
}

/// Build the redundancy blocks for `data` at the given damage level.
pub fn create_ecc(data: &[u8], lvl: &DamageLevel) -> (r: Vec<ECCData>)
    requires
        lvl.wf(),
        spec_copy_times(data@.len(), *lvl) <= 0x10000000,
    ensures
        blocks_view(r@) == spec_create_ecc(data@, *lvl),
        parity_len_ok(data@, *lvl),
{
    let ghost goal = spec_create_ecc(data@, *lvl);
    let copies128 = copy_times(data.len(), lvl);
    let copies = copies128 as usize;
    let rs128 = rs_ecc_len(data.len(), lvl);
    let mut result: Vec<ECCData> = Vec::new();
    if rs128 > 0 && rs128 <= 255 && data.len() <= 255 - (rs128 as usize) {
        let rs_len = rs128 as usize;
        let parity = rs_encode_parity(data, rs_len);
        result.push(ECCData { ecc_algorithm: 1, ecc: parity });
    }
    let ghost rs_part: Seq<(u64, Seq<u8>)> = if spec_rs_ecc_len(data@.len(), *lvl) > 0
        && data@.len() + spec_rs_ecc_len(data@.len(), *lvl) <= 255 {
        seq![(1u64, rs_parity_of(data@, spec_rs_ecc_len(data@.len(), *lvl)))]
    } else {
        Seq::<(u64, Seq<u8>)>::empty()
    };
    proof {
        assert(blocks_view(result@) =~= rs_part);
    }
    let mut k: usize = 0;
    while k < copies
        invariant
            k <= copies,
            copies as nat == spec_copy_times(data@.len(), *lvl),
            rs_part == (if spec_rs_ecc_len(data@.len(), *lvl) > 0 && data@.len()
                + spec_rs_ecc_len(data@.len(), *lvl) <= 255 {
                seq![(1u64, rs_parity_of(data@, spec_rs_ecc_len(data@.len(), *lvl)))]
            } else {
                Seq::<(u64, Seq<u8>)>::empty()
            }),
            blocks_view(result@) == rs_part + Seq::new(k as nat, |i: int| (0u64, data@)),
        decreases copies - k,
    {
        let bytes = copy_range(data, 0, data.len());
        proof {
            assert(bytes@ =~= data@);
        }
        let ghost before = blocks_view(result@);
        result.push(ECCData { ecc_algorithm: 0, ecc: bytes });
        proof {
            assert(blocks_view(result@) =~= before + seq![(0u64, data@)]);
            assert(rs_part + Seq::new((k + 1) as nat, |i: int| (0u64, data@)) =~= before + seq![
                (0u64, data@),
            ]);
        }
        k = k + 1;
    }
    let baseline = copy_range(data, 0, data.len());
    proof {
        assert(baseline@ =~= data@);
    }
    let ghost before = blocks_view(result@);
    result.push(ECCData { ecc_algorithm: 0, ecc: baseline });
    proof {
        assert(blocks_view(result@) =~= before + seq![(0u64, data@)]);
        assert(blocks_view(result@) =~= goal);
    }
    result
}

} // verus!
