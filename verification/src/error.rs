//! Error kinds shared by the container codec and the share orchestrator.

use vstd::prelude::*;

verus! {

/// The kind of error that a split, wrap, recover or combine can produce.
#[derive(Clone, Copy, Debug, PartialEq, Eq, Structural)]
pub enum ErrorKind {
    /// A zero-length payload was handed to the container serializer.
    EmptyData,
    /// Serializing the header or the block pack exceeded the size bound.
    StoredDataSerializationError,
    /// The stored structure could not be parsed back out of the stream.
    StoredDataDeserializationError,
    /// Every recovery strategy was exhausted without a checksum match.
    ECCRecoveryError,
    /// The Shamir primitive rejected the split parameters.
    ShamirsSecretSharingEncryptionError,
    /// The Shamir primitive rejected the shares handed to it.
    ShamirsSecretSharingDecryptionError,
    /// The AEAD primitive failed while encrypting.
    AEADEncryptionError,
    /// The AEAD primitive rejected the ciphertext or its tag.
    AEADDecryptionError,
    /// A Reed-Solomon block would exceed the 255-byte codeword limit.
    SizeLimit,
}

impl ErrorKind {
    /// A short human-readable description of the error kind.
    pub fn message(&self) -> (r: &'static str) {
        match self {
            ErrorKind::EmptyData => "empty input data",
            ErrorKind::StoredDataSerializationError => "stored data serialization error",
            ErrorKind::StoredDataDeserializationError => "stored data deserialization error",
            ErrorKind::ECCRecoveryError => {
                "restoring data from the error-correcting code failed"
            },
            ErrorKind::ShamirsSecretSharingEncryptionError => {
                "Shamir's secret sharing encryption error"
            },
            ErrorKind::ShamirsSecretSharingDecryptionError => {
                "Shamir's secret sharing decryption error"
            },
            ErrorKind::AEADEncryptionError => "AEAD encryption error",
            ErrorKind::AEADDecryptionError => "AEAD decryption error",
            ErrorKind::SizeLimit => "the size limit has been reached",
        }
    }
}

} // verus!
