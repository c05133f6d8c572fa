//! The paranoid checksum: CRC-16/USB taken over the SHA-512 digest of the
//! payload.  Chaining the two keeps accidental collisions of nearby inputs
//! uniformly spread, which the windowed recovery search depends on.

use sha2::Digest;
use vstd::prelude::*;

verus! {

/// What `sha2::Sha512` digests the given bytes to.
pub uninterp spec fn sha512_of(data: Seq<u8>) -> Seq<u8>;

/// What the CRC-16/USB algorithm checksums the given bytes to.
pub uninterp spec fn crc16_usb_of(data: Seq<u8>) -> u16;

/// The paranoid checksum of a payload.
pub open spec fn checksum_of(data: Seq<u8>) -> u16 {
    crc16_usb_of(sha512_of(data))
}

/// The high (big-endian first) byte of the paranoid checksum.
pub open spec fn checksum_hi(data: Seq<u8>) -> u8 {
    (checksum_of(data) / 256) as u8
}

/// The low byte of the paranoid checksum.
pub open spec fn checksum_lo(data: Seq<u8>) -> u8 {
    (checksum_of(data) % 256) as u8
}

/// Relies on `sha2::Sha512::digest`: the 64-byte digest is a function of
/// the input bytes alone.
#[verifier::external_body]
fn sha512(data: &[u8]) -> (r: Vec<u8>)
    ensures
        r@ == sha512_of(data@),
        r@.len() == 64,
{
    sha2::Sha512::digest(data).to_vec()
}

/// Relies on `crc::Crc::<u16>::checksum` with the `CRC_16_USB` algorithm
/// parameters: the checksum is a function of the input bytes alone.
#[verifier::external_body]
fn crc16_usb(data: &[u8]) -> (r: u16)
    ensures
        r == crc16_usb_of(data@),
{
    crc::Crc::<u16>::new(&crc::CRC_16_USB).checksum(data)
}

/// CRC-16/USB of the SHA-512 of `data`.
pub fn paranoid_checksum(data: &[u8]) -> (r: u16)
    ensures
        r == checksum_of(data@),
{
    let digest = sha512(data);
    crc16_usb(digest.as_slice())
}

/// The paranoid checksum as its two big-endian bytes, as the header
/// stores it.
pub fn paranoid_checksum_bytes(data: &[u8]) -> (r: (u8, u8))
    ensures
        r.0 == checksum_hi(data@),
        r.1 == checksum_lo(data@),
{
    let c = paranoid_checksum(data);
    ((c / 256) as u8, (c % 256) as u8)
}

} // verus!
