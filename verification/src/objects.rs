//! The records that the container format stores.

use vstd::prelude::*;

verus! {

/// One unit of redundancy: a verbatim copy of the payload (`ecc_algorithm`
/// 0) or a Reed-Solomon parity block over it (`ecc_algorithm` 1).
#[derive(Clone, Debug)]
pub struct ECCData {
    pub ecc_algorithm: u64,
    pub ecc: Vec<u8>,
}

/// The ordered pack of redundancy blocks a container carries.
#[derive(Debug)]
pub struct StoredData {
    pub data: Vec<ECCData>,
}

/// The fixed-schema container header: format tags, the payload length and
/// the two bytes of the payload's paranoid checksum, big-endian.
#[derive(Clone, Copy, Debug, PartialEq, Eq, Structural)]
pub struct Header {
    pub version: u64,
    pub encryption_algorithm: u64,
    pub data_len: u64,
    pub crc_algorithm: u64,
    pub crc0: u8,
    pub crc1: u8,
}

/// An encrypted message together with its authentication tag.
#[derive(Clone, Debug)]
pub struct CryptoSecretbox {
    pub ciphertext: Vec<u8>,
    pub tag: Vec<u8>,
}

/// The pack viewed as a sequence of (algorithm, block bytes) pairs.
pub open spec fn blocks_view(blocks: Seq<ECCData>) -> Seq<(u64, Seq<u8>)> {
    blocks.map_values(|b: ECCData| (b.ecc_algorithm, b.ecc@))
}

} // verus!
