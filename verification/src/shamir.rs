//! Sealing and sharing the secret: the text is encrypted under a fresh
//! 32-byte key with ChaCha20-Poly1305 (zero nonce, empty additional data —
//! safe because the key is never reused), and the key is Shamir-split into
//! key shares of which any `threshold` recover it.

use vstd::prelude::*;

use crate::error::ErrorKind;
use crate::objects::CryptoSecretbox;

verus! {

/// The error of the Shamir primitive, carried through opaquely.
#[verifier::external_type_specification]
#[verifier::external_body]
pub struct ExSSSError(shamirsecretsharing::SSSError);

/// The error of the AEAD decryption, carried through opaquely.
#[verifier::external_type_specification]
#[verifier::external_body]
pub struct ExDecryptError(chacha20_poly1305_aead::DecryptError);

/// The error the AEAD encryption propagates from its writer, carried
/// through opaquely.
#[verifier::external_type_specification]
#[verifier::external_body]
pub struct ExIoError(std::io::Error);

/// What `chacha20_poly1305_aead::encrypt` writes as the ciphertext: a
/// function of key, nonce and plaintext (the additional data is fixed
/// empty).
pub uninterp spec fn chacha_ct_of(key: Seq<u8>, nonce: Seq<u8>, text: Seq<u8>) -> Seq<u8>;

/// What `chacha20_poly1305_aead::encrypt` returns as the tag.
pub uninterp spec fn chacha_tag_of(key: Seq<u8>, nonce: Seq<u8>, text: Seq<u8>) -> Seq<u8>;

/// What `chacha20_poly1305_aead::decrypt` yields: the plaintext when key,
/// nonce, ciphertext and tag fit together, nothing otherwise.
pub uninterp spec fn chacha_open_of(key: Seq<u8>, nonce: Seq<u8>, ct: Seq<u8>, tag: Seq<u8>) -> Option<
    Seq<u8>,
>;

/// What `shamirsecretsharing::hazmat::combine_keyshares` interpolates out
/// of a list of 33-byte key shares.
pub uninterp spec fn shamir_combine_of(shares: Seq<Seq<u8>>) -> Seq<u8>;

/// A selection of distinct in-range indices.
pub open spec fn is_selection(sel: Seq<int>, n: int) -> bool {
    (forall|i: int| 0 <= i < sel.len() ==> 0 <= #[trigger] sel[i] < n) && (forall|i: int, j: int|
        0 <= i < j < sel.len() ==> sel[i] != sel[j])
}

/// Whether a plaintext is short enough for one ChaCha20 keystream: below
/// the 64-byte block times the 32-bit counter range, the cipher cannot
/// fail.
pub open spec fn aead_text_fits(len: nat) -> bool {
    len < 0x3FFFFFFFC0
}

/// The twelve zero bytes the AEAD is always used with.
pub open spec fn zero_nonce_seq() -> Seq<u8> {
    Seq::new(12, |i: int| 0u8)
}

/// The fixed zero nonce.
fn zero_nonce() -> (r: Vec<u8>)
    ensures
        r@ == zero_nonce_seq(),
{
    let mut out: Vec<u8> = Vec::new();
    let mut i: usize = 0;
    while i < 12
        invariant
            i <= 12,
            out@.len() == i,
            forall|j: int| 0 <= j < i ==> out@[j] == 0u8,
        decreases 12 - i,
    {
        out.push(0);
        i = i + 1;
    }
    proof {
        assert(out@ =~= zero_nonce_seq());
    }
    out
}

/// Relies on `chacha20_poly1305_aead::encrypt` with a `Vec` writer and
/// empty additional data: the ciphertext it writes keeps the plaintext's
/// length, the tag is sixteen bytes, both are functions of key, nonce and
/// plaintext alone, and decrypting them gives the plaintext back.  The
/// crate asserts a 32-byte key and a 12-byte nonce; writing to a `Vec`
/// cannot fail, so the call succeeds for every plaintext below the
/// ChaCha20 counter limit.
#[verifier::external_body]
fn chacha_encrypt(key: &[u8], nonce: &[u8], text: &[u8]) -> (r: Result<
    (Vec<u8>, Vec<u8>),
    std::io::Error,
>)
    requires
        key@.len() == 32,
        nonce@.len() == 12,
    ensures
        aead_text_fits(text@.len()) ==> r is Ok,
        r matches Ok(p) ==> p.0@ == chacha_ct_of(key@, nonce@, text@) && p.0@.len() == text@.len()
            && p.1@ == chacha_tag_of(key@, nonce@, text@) && p.1@.len() == 16 && chacha_open_of(
            key@,
            nonce@,
            p.0@,
            p.1@,
        ) == Some(text@),
{
    let mut ciphertext: Vec<u8> = Vec::with_capacity(text.len());
    match chacha20_poly1305_aead::encrypt(key, nonce, &[], text, &mut ciphertext) {
        Ok(tag) => Ok((ciphertext, tag.to_vec())),
        Err(e) => Err(e),
    }
}

/// Relies on `chacha20_poly1305_aead::decrypt` with a `Vec` writer and
/// empty additional data: it verifies the Poly1305 tag and writes the
/// plaintext exactly when the tag matches; the outcome is a function of
/// key, nonce, ciphertext and tag alone.  The crate asserts a 32-byte
/// key, a 12-byte nonce and a 16-byte tag.
#[verifier::external_body]
fn chacha_decrypt(key: &[u8], nonce: &[u8], ct: &[u8], tag: &[u8]) -> (r: Result<
    Vec<u8>,
    chacha20_poly1305_aead::DecryptError,
>)
    requires
        key@.len() == 32,
        nonce@.len() == 12,
        tag@.len() == 16,
    ensures
        r matches Ok(p) ==> chacha_open_of(key@, nonce@, ct@, tag@) == Some(p@),
        r is Err ==> chacha_open_of(key@, nonce@, ct@, tag@) is None,
{
    let mut text: Vec<u8> = Vec::with_capacity(ct.len());
    match chacha20_poly1305_aead::decrypt(key, nonce, &[], ct, tag, &mut text) {
        Ok(_) => Ok(text),
        Err(e) => Err(e),
    }
}

/// Relies on `rand::random` over a 32-byte array: nothing is assumed of
/// the drawn bytes but their count.
#[verifier::external_body]
fn random_key() -> (r: Vec<u8>)
    ensures
        r@.len() == 32,
{
    rand::random::<[u8; 32]>().to_vec()
}

/// Relies on `shamirsecretsharing::hazmat::create_keyshares`: it rejects
/// exactly a share count below one, a threshold below one or above the
/// count, and a key of other than 32 bytes; on success it returns `n`
/// shares of 33 bytes, laid on a random polynomial so that
/// `combine_keyshares` restores the key from every selection of at least
/// `k` distinct shares, in any order.
#[verifier::external_body]
fn sss_create_keyshares(key: &[u8], n: u8, k: u8) -> (r: Result<
    Vec<Vec<u8>>,
    shamirsecretsharing::SSSError,
>)
    ensures
        r is Ok <==> (n >= 1 && k >= 1 && k <= n && key@.len() == 32),
        r matches Ok(shares) ==> shares@.len() == n as int && (forall|i: int|
            0 <= i < shares@.len() ==> (#[trigger] shares@[i])@.len() == 33) && (forall|
            sel: Seq<int>,
        |
            #[trigger] is_selection(sel, n as int) && sel.len() >= k as int ==> shamir_combine_of(
                sel.map_values(|j: int| shares@[j]@),
            ) == key@),
{
    shamirsecretsharing::hazmat::create_keyshares(key, n, k)
}

/// Relies on `shamirsecretsharing::hazmat::combine_keyshares`: it rejects
/// exactly a share of other than 33 bytes, and otherwise returns the
/// 32-byte interpolation of the shares, a function of the share list
/// alone.
#[verifier::external_body]
fn sss_combine_keyshares(shares: &Vec<Vec<u8>>) -> (r: Result<
    Vec<u8>,
    shamirsecretsharing::SSSError,
>)
    ensures
        r is Ok <==> (forall|i: int|
            0 <= i < shares@.len() ==> (#[trigger] shares@[i])@.len() == 33),
        r matches Ok(key) ==> key@.len() == 32 && key@ == shamir_combine_of(shares.deep_view()),
{
    shamirsecretsharing::hazmat::combine_keyshares(shares.as_slice())
}

/// AEAD-encrypt `text` under `key` with the fixed zero nonce.
pub fn aead_wrap(key: &[u8], text: &[u8]) -> (r: Result<CryptoSecretbox, ErrorKind>)
    requires
        key@.len() == 32,
    ensures
        aead_text_fits(text@.len()) ==> r is Ok,
        r matches Ok(b) ==> b.ciphertext@ == chacha_ct_of(key@, zero_nonce_seq(), text@)
            && b.ciphertext@.len() == text@.len() && b.tag@ == chacha_tag_of(
            key@,
            zero_nonce_seq(),
            text@,
        ) && b.tag@.len() == 16 && chacha_open_of(key@, zero_nonce_seq(), b.ciphertext@, b.tag@)
            == Some(text@),
        r matches Err(e) ==> e == ErrorKind::AEADEncryptionError,
{
    let nonce = zero_nonce();
    match chacha_encrypt(key, nonce.as_slice(), text) {
        Ok((ciphertext, tag)) => Ok(CryptoSecretbox { ciphertext, tag }),
        Err(_) => Err(ErrorKind::AEADEncryptionError),
    }
}

/// AEAD-decrypt a secret box under `key` with the fixed zero nonce.
pub fn aead_unwrap(key: &[u8], boxed: &CryptoSecretbox) -> (r: Result<Vec<u8>, ErrorKind>)
    requires
        key@.len() == 32,
    ensures
        r matches Ok(p) ==> boxed.tag@.len() == 16 && chacha_open_of(
            key@,
            zero_nonce_seq(),
            boxed.ciphertext@,
            boxed.tag@,
        ) == Some(p@),
        r matches Err(e) ==> e == ErrorKind::AEADDecryptionError && (boxed.tag@.len() != 16
            || chacha_open_of(key@, zero_nonce_seq(), boxed.ciphertext@, boxed.tag@) is None),
        boxed.tag@.len() == 16 ==> (r is Ok <==> chacha_open_of(
            key@,
            zero_nonce_seq(),
            boxed.ciphertext@,
            boxed.tag@,
        ) is Some),
{
    if boxed.tag.len() != 16 {
        return Err(ErrorKind::AEADDecryptionError);
    }
    let nonce = zero_nonce();
    match chacha_decrypt(key, nonce.as_slice(), boxed.ciphertext.as_slice(), boxed.tag.as_slice()) {
        Ok(text) => Ok(text),
        Err(_) => Err(ErrorKind::AEADDecryptionError),
    }
}

/// The shape of a successful split: the box seals `data` under `key`, and
/// every selection of at least `threshold` of the `count` raw shares
/// combines back to `key`.
pub open spec fn split_outcome_ok(
    key: Seq<u8>,
    data: Seq<u8>,
    count: u8,
    threshold: u8,
    shares: Seq<Seq<u8>>,
    ct: Seq<u8>,
    tag: Seq<u8>,
) -> bool {
    &&& key.len() == 32
    &&& ct == chacha_ct_of(key, zero_nonce_seq(), data)
    &&& ct.len() == data.len()
    &&& tag == chacha_tag_of(key, zero_nonce_seq(), data)
    &&& tag.len() == 16
    &&& chacha_open_of(key, zero_nonce_seq(), ct, tag) == Some(data)
    &&& shares.len() == count as int
    &&& (forall|i: int| 0 <= i < shares.len() ==> (#[trigger] shares[i]).len() == 33)
    &&& (forall|sel: Seq<int>|
        #[trigger] is_selection(sel, count as int) && sel.len() >= threshold as int
            ==> shamir_combine_of(sel.map_values(|j: int| shares[j])) == key)
}

/// A successful split under some 32-byte key.
pub open spec fn split_ok_exists(
    data: Seq<u8>,
    count: u8,
    threshold: u8,
    shares: Seq<Seq<u8>>,
    ct: Seq<u8>,
    tag: Seq<u8>,
) -> bool {
    exists|key: Seq<u8>| #[trigger] split_outcome_ok(key, data, count, threshold, shares, ct, tag)
}

/// Draw a fresh key, seal `data` under it, and split the key into
/// `count` key shares of which any `threshold` recover it.
pub fn create_data_shares(data: &[u8], count: u8, threshold: u8) -> (r: Result<
    (Vec<Vec<u8>>, CryptoSecretbox),
    ErrorKind,
>)
    ensures
        count >= 1 && threshold >= 1 && threshold <= count && aead_text_fits(data@.len()) ==> r
            is Ok,
        !(count >= 1 && threshold >= 1 && threshold <= count) ==> r is Err,
        r matches Ok(p) ==> split_ok_exists(
            data@,
            count,
            threshold,
            p.0.deep_view(),
            p.1.ciphertext@,
            p.1.tag@,
        ),
        r matches Err(e) ==> e == ErrorKind::AEADEncryptionError || (e
            == ErrorKind::ShamirsSecretSharingEncryptionError && !(count >= 1 && threshold >= 1
            && threshold <= count)),
{
    let key = random_key();
    let boxed = match aead_wrap(key.as_slice(), data) {
        Ok(b) => b,
        Err(_) => {
            return Err(ErrorKind::AEADEncryptionError);
        },
    };
    match sss_create_keyshares(key.as_slice(), count, threshold) {
        Ok(shares) => {
            let result = (shares, boxed);
            proof {
                let sv = result.0.deep_view();
                let shares = result.0;
                let boxed = result.1;
                assert(sv.len() == shares@.len());
                assert(forall|i: int|
                    0 <= i < sv.len() ==> (#[trigger] sv[i]) == shares@[i]@);
                assert forall|sel: Seq<int>|
                    #[trigger] is_selection(sel, count as int) && sel.len()
                        >= threshold as int implies shamir_combine_of(
                    sel.map_values(|j: int| sv[j]),
                ) == key@ by {
                    assert(sel.map_values(|j: int| sv[j]) =~= sel.map_values(
                        |j: int| shares@[j]@,
                    ));
                };
                assert(split_outcome_ok(
                    key@,
                    data@,
                    count,
                    threshold,
                    sv,
                    boxed.ciphertext@,
                    boxed.tag@,
                ));
                assert(split_ok_exists(
                    data@,
                    count,
                    threshold,
                    result.0.deep_view(),
                    result.1.ciphertext@,
                    result.1.tag@,
                ));
            }
            Ok(result)
        },
        Err(_) => Err(ErrorKind::ShamirsSecretSharingEncryptionError),
    }
}

/// What combining recovered shares with a secret box yields: the Shamir
/// interpolation of the shares opens the box, or the exact error.
pub open spec fn combine_outcome(recs: Seq<Seq<u8>>, ct: Seq<u8>, tag: Seq<u8>) -> Result<
    Seq<u8>,
    ErrorKind,
> {
    if exists|i: int| 0 <= i < recs.len() && (#[trigger] recs[i]).len() != 33 {
        Err(ErrorKind::ShamirsSecretSharingDecryptionError)
    } else if tag.len() != 16 {
        Err(ErrorKind::AEADDecryptionError)
    } else {
        match chacha_open_of(shamir_combine_of(recs), zero_nonce_seq(), ct, tag) {
            Some(p) => Ok(p),
            None => Err(ErrorKind::AEADDecryptionError),
        }
    }
}

/// Whether an executable result is the outcome the spec names.
pub open spec fn matches_outcome(r: Result<Vec<u8>, ErrorKind>, o: Result<Seq<u8>, ErrorKind>) -> bool {
    match (r, o) {
        (Ok(v), Ok(s)) => v@ == s,
        (Err(e), Err(e2)) => e == e2,
        _ => false,
    }
}

/// Combine recovered key shares and open the secret box with the restored
/// key.
pub fn combine_data_shares(shares: &Vec<Vec<u8>>, b: &CryptoSecretbox) -> (r: Result<
    Vec<u8>,
    ErrorKind,
>)
    ensures
        matches_outcome(r, combine_outcome(shares.deep_view(), b.ciphertext@, b.tag@)),
{
    proof {
        assert(forall|i: int|
            0 <= i < shares@.len() ==> (#[trigger] shares.deep_view()[i]) == shares@[i]@);
    }
    let key = match sss_combine_keyshares(shares) {
        Ok(k) => k,
        Err(_) => {
            proof {
                let sv = shares.deep_view();
                assert(exists|i: int|
                    0 <= i < shares@.len() && (#[trigger] shares@[i])@.len() != 33);
                let i = choose|i: int|
                    0 <= i < shares@.len() && (#[trigger] shares@[i])@.len() != 33;
                assert(sv[i].len() != 33);
                assert(exists|i: int| 0 <= i < sv.len() && (#[trigger] sv[i]).len() != 33);
            }
            return Err(ErrorKind::ShamirsSecretSharingDecryptionError);
        },
    };
    aead_unwrap(key.as_slice(), b)
}

/// Combine recovered key shares and open the secret box, consuming it.
pub fn restore_data_shared(shares: &Vec<Vec<u8>>, b: CryptoSecretbox) -> (r: Result<
    Vec<u8>,
    ErrorKind,
>)
    ensures
        matches_outcome(r, combine_outcome(shares.deep_view(), b.ciphertext@, b.tag@)),
{
    combine_data_shares(shares, &b)
}

} // verus!
