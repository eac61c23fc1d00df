//! A verified codec for the PKCS#8 `EncryptedPrivateKeyInfo` container.
//!
//! The container is a DER `SEQUENCE` holding an algorithm identifier for a
//! password-based encryption scheme (kept opaque, as its own complete DER
//! encoding) followed by an `OCTET STRING` with the encrypted key material.
//! Decoding validates the tag-length-value framing exactly — DER is a
//! canonical format, so a single byte string is the one valid encoding of a
//! value — and encoding is proved to produce that canonical byte string.

pub mod encrypted;
pub mod tlv;

pub use encrypted::AlgorithmIdentifier;
pub use encrypted::EncryptedPrivateKeyInfo;
pub use encrypted::Error;
