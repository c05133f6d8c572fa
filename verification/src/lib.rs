//! Damage-tolerant secret sharing.
//!
//! A secret is encrypted under a fresh 32-byte key; the key is split into
//! `N` Shamir key shares of which any `K` recover it.  Each share and the
//! encrypted secret box are wrapped in a byte container that interleaves
//! replicated headers with the payload's error-correcting blocks, so that
//! the wrapped bytes survive partial corruption.

pub mod checksum;
pub mod codec;
pub mod damage;
pub mod dataragon;
pub mod ecc;
pub mod error;
pub mod objects;
pub mod serialization;
pub mod shamir;
pub mod varint;
