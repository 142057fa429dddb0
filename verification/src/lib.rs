//! Encryption and decryption of age messages.
//!
//! A message is encrypted for recipients, each a public key or a
//! passphrase, and decrypted by whoever holds a matching identity. It is a
//! header, which wraps the message's file key for every recipient and
//! authenticates itself, and a payload, which holds the plaintext in sealed
//! chunks.
//!
//! - `format` is the header: its stanzas, its bytes, and reading as the
//!   inverse of writing.
//! - `primitives` names what the cryptographic crates compute, and
//!   `primitives::stream` is the payload.
//! - `protocol` encrypts and decrypts whole messages.
//! - `armor` is the message as text, `base64` the encoding of both.
//! - `keys` and `secret` hold key material.
//!
//! The library works on bytes in memory and does no input or output.

use crate::format::Header;
use vstd::prelude::*;

pub use crate::error::Error;
pub use crate::keys::{PublicKey, SecretKey};
pub use crate::primitives::stream::{StreamReader, StreamWriter};
pub use crate::protocol::{Decryptor, Encryptor, Identity, Recipient};
pub use crate::secret::SecretBytes;

pub mod armor;
pub mod base64;
pub mod error;
pub mod format;
pub mod keys;
pub mod primitives;
pub mod protocol;
pub mod secret;
pub mod util;

verus! {

/// Format of the encrypted output.
#[derive(Clone, Copy, Debug, PartialEq, Eq, Structural)]
pub enum Format {
    /// The binary container.
    Binary,
    /// The binary container wrapped in an ASCII armor.
    AsciiArmor,
}

/// Reads a header from `data` and writes it again: an entry point for
/// fuzzing the reader and the writer of headers.
///
/// Where `data` is read as a header, what is written is `data`, byte for
/// byte. This is proved, so no input makes the function fail.
pub fn fuzz_header(data: &[u8]) {
    match Header::read(data) {
        Ok(header) => {
            let buf = header.write();
            assert(buf@ == data@);
        },
        Err(_) => {},
    }
}

} // verus!
