//! Key material: the file key of a message, and X25519 key pairs.

use crate::error::Error;
use crate::primitives::{random_bytes, x25519, x25519_product, BASEPOINT, KEY_LEN};
use crate::secret::SecretBytes;
use crate::util::copy_range;
use vstd::prelude::*;

verus! {

/// The number of bytes in a file key.
pub const FILE_KEY_LEN: usize = 16;

/// The key of one message: 16 bytes, drawn once when the message is
/// encrypted. The header's authentication code and the payload's key are
/// derived from it, and each stanza holds it wrapped for one recipient.
pub struct FileKey {
    bytes: SecretBytes,
}

impl View for FileKey {
    type V = Seq<u8>;

    closed spec fn view(&self) -> Seq<u8> {
        self.bytes@
    }
}

impl FileKey {
    #[verifier::type_invariant]
    spec fn inv(self) -> bool {
        self.bytes@.len() == FILE_KEY_LEN
    }

    /// The file key with these bytes.
    pub fn from_bytes(bytes: [u8; 16]) -> (key: FileKey)
        ensures
            key@ == bytes@,
    {
        FileKey { bytes: SecretBytes::new(copy_range(bytes.as_slice(), 0, 16)) }
    }

    /// The file key with the bytes of `bytes`, which are 16.
    pub(crate) fn from_vec(bytes: Vec<u8>) -> (key: FileKey)
        requires
            bytes@.len() == FILE_KEY_LEN,
        ensures
            key@ == bytes@,
    {
        FileKey { bytes: SecretBytes::new(bytes) }
    }

    /// The 16 bytes of the key.
    pub fn as_bytes(&self) -> (bytes: &[u8])
        ensures
            bytes@ == self@,
            bytes@.len() == FILE_KEY_LEN,
    {
        proof {
            use_type_invariant(self);
        }
        self.bytes.as_bytes()
    }
}

/// An X25519 secret key: the scalar of an identity.
pub struct SecretKey {
    bytes: SecretBytes,
}

impl View for SecretKey {
    type V = Seq<u8>;

    closed spec fn view(&self) -> Seq<u8> {
        self.bytes@
    }
}

/// An X25519 public key: the share of a recipient.
pub struct PublicKey {
    bytes: Vec<u8>,
}

impl View for PublicKey {
    type V = Seq<u8>;

    closed spec fn view(&self) -> Seq<u8> {
        self.bytes@
    }
}

/// The public key that belongs to the secret key `secret`.
pub open spec fn public_of(secret: Seq<u8>) -> Seq<u8> {
    x25519_product(secret, BASEPOINT@)
}

impl SecretKey {
    #[verifier::type_invariant]
    spec fn inv(self) -> bool {
        self.bytes@.len() == KEY_LEN
    }

    /// The secret key with these bytes.
    pub fn from_bytes(bytes: [u8; 32]) -> (key: SecretKey)
        ensures
            key@ == bytes@,
    {
        SecretKey { bytes: SecretBytes::new(copy_range(bytes.as_slice(), 0, 32)) }
    }

    /// The secret key with the bytes of `bytes`, which are 32.
    pub(crate) fn from_vec(bytes: Vec<u8>) -> (key: SecretKey)
        requires
            bytes@.len() == KEY_LEN,
        ensures
            key@ == bytes@,
    {
        SecretKey { bytes: SecretBytes::new(bytes) }
    }

    /// A secret key of 32 bytes from the system's source of randomness, or
    /// `RandomSource` where the system gives none.
    pub fn generate() -> (r: Result<SecretKey, Error>)
        ensures
            match r {
                Ok(key) => key@.len() == KEY_LEN,
                Err(e) => e == Error::RandomSource,
            },
    {
        match random_bytes(KEY_LEN) {
            Some(bytes) => Ok(SecretKey { bytes: SecretBytes::new(bytes) }),
            None => Err(Error::RandomSource),
        }
    }

    /// The 32 bytes of the key.
    pub fn as_bytes(&self) -> (bytes: &[u8])
        ensures
            bytes@ == self@,
            bytes@.len() == KEY_LEN,
    {
        proof {
            use_type_invariant(self);
        }
        self.bytes.as_bytes()
    }

    /// The public key that belongs to this secret key.
    pub fn to_public(&self) -> (public: PublicKey)
        ensures
            public@ == public_of(self@),
    {
        proof {
            use_type_invariant(self);
        }
        PublicKey { bytes: x25519(self.bytes.as_bytes(), BASEPOINT.as_slice()) }
    }
}

impl PublicKey {
    #[verifier::type_invariant]
    spec fn inv(self) -> bool {
        self.bytes@.len() == KEY_LEN
    }

    /// The public key with these bytes.
    pub fn from_bytes(bytes: [u8; 32]) -> (key: PublicKey)
        ensures
            key@ == bytes@,
    {
        PublicKey { bytes: copy_range(bytes.as_slice(), 0, 32) }
    }

    /// The 32 bytes of the key.
    pub fn as_bytes(&self) -> (bytes: &[u8])
        ensures
            bytes@ == self@,
            bytes@.len() == KEY_LEN,
    {
        proof {
            use_type_invariant(self);
        }
        self.bytes.as_slice()
    }
}

} // verus!
