//! The stanza that wraps a file key for an X25519 public key.
//!
//! ```text
//! -> X25519 <ephemeral share>
//! <file key, sealed>
//! ```
//!
//! The sender draws an ephemeral secret key. The wrapping key is derived
//! from the shared secret of the ephemeral key and the recipient's key,
//! salted with the two public shares. The recipient computes the same
//! shared secret from the ephemeral share and its own secret key.

use crate::base64::{encode, encode_spec};
use crate::format::{Stanza, StanzaView};
use crate::keys::{public_of, FileKey, PublicKey, SecretKey, FILE_KEY_LEN};
use crate::primitives::{
    aead_open, aead_opened, aead_seal, aead_sealed, hkdf_output, hkdf_sha256, seal_opens, x25519,
    x25519_product, BASEPOINT, KEY_LEN, ZERO_NONCE,
};
use crate::secret::SecretBytes;
use crate::util::{append, copy_range};
use vstd::prelude::*;

verus! {

/// The tag of the stanza: `X25519`.
pub const X25519_TAG: [u8; 6] = [88, 50, 53, 53, 49, 57];

/// The label under which the wrapping key is derived:
/// `age-encryption.org/v1/X25519`.
pub const X25519_LABEL: [u8; 28] = [
    97, 103, 101, 45, 101, 110, 99, 114, 121, 112, 116, 105, 111, 110, 46, 111, 114, 103, 47, 118,
    49, 47, 88, 50, 53, 53, 49, 57,
];

/// The key that wraps the file key: derived from the shared secret, salted
/// with the ephemeral share and the recipient's public key.
pub open spec fn wrapping_key_spec(share: Seq<u8>, public: Seq<u8>, shared: Seq<u8>) -> Seq<u8> {
    hkdf_output(share + public, shared, X25519_LABEL@)
}

/// The stanza that wraps `file_key` for the public key `public` with the
/// ephemeral secret key `ephemeral`.
pub open spec fn stanza_spec(public: Seq<u8>, file_key: Seq<u8>, ephemeral: Seq<u8>) -> StanzaView {
    let share = public_of(ephemeral);
    let key = wrapping_key_spec(share, public, x25519_product(ephemeral, public));
    StanzaView {
        tag: X25519_TAG@,
        args: seq![encode_spec(share)],
        body: aead_sealed(key, ZERO_NONCE@, file_key),
    }
}

/// The file key that the secret key `secret` finds in a stanza with the
/// ephemeral share `share` and the body `body`; `None` where the share
/// does not have 32 bytes, or the body does not open or does not hold 16
/// bytes.
pub open spec fn unwrap_spec(secret: Seq<u8>, share: Seq<u8>, body: Seq<u8>) -> Option<Seq<u8>> {
    let key = wrapping_key_spec(share, public_of(secret), x25519_product(secret, share));
    if share.len() != KEY_LEN {
        None
    } else {
        match aead_opened(key, ZERO_NONCE@, body) {
            Some(k) => if k.len() == FILE_KEY_LEN {
                Some(k)
            } else {
                None
            },
            None => None,
        }
    }
}

/// What the primitives did when `file_key` was wrapped for `public` with
/// `ephemeral`: the share has 32 bytes, the sealed file key opens to the
/// file key, and every secret key that `public` belongs to computes the
/// sender's shared secret from the share.
pub open spec fn wrap_sound(public: Seq<u8>, file_key: Seq<u8>, ephemeral: Seq<u8>) -> bool {
    let share = public_of(ephemeral);
    let shared = x25519_product(ephemeral, public);
    let key = wrapping_key_spec(share, public, shared);
    &&& share.len() == KEY_LEN
    &&& file_key.len() == FILE_KEY_LEN
    &&& seal_opens(key, ZERO_NONCE@, file_key)
    &&& forall|s: Seq<u8>|
        s.len() == KEY_LEN && public == #[trigger] x25519_product(s, BASEPOINT@) ==> shared
            == x25519_product(s, share)
}

/// The owner of the secret key finds the file key in a stanza that was
/// made for its public key.
pub proof fn lemma_unwrap_wrap(secret: Seq<u8>, file_key: Seq<u8>, ephemeral: Seq<u8>)
    requires
        secret.len() == KEY_LEN,
        wrap_sound(public_of(secret), file_key, ephemeral),
    ensures
        unwrap_spec(
            secret,
            public_of(ephemeral),
            stanza_spec(public_of(secret), file_key, ephemeral).body,
        ) == Some(file_key),
{
}

/// Wraps `file_key` for the public key `public` with the ephemeral secret
/// key `ephemeral`.
pub fn wrap(public: &PublicKey, file_key: &FileKey, ephemeral: &SecretKey) -> (stanza: Stanza)
    ensures
        stanza@ == stanza_spec(public@, file_key@, ephemeral@),
        wrap_sound(public@, file_key@, ephemeral@),
{
    let share = x25519(ephemeral.as_bytes(), BASEPOINT.as_slice());
    let shared = SecretBytes::new(x25519(ephemeral.as_bytes(), public.as_bytes()));
    let mut salt: Vec<u8> = Vec::new();
    append(&mut salt, share.as_slice());
    append(&mut salt, public.as_bytes());
    let key = SecretBytes::new(
        hkdf_sha256(salt.as_slice(), shared.as_bytes(), X25519_LABEL.as_slice()),
    );
    let body = aead_seal(key.as_bytes(), ZERO_NONCE.as_slice(), file_key.as_bytes());
    let mut args: Vec<Vec<u8>> = Vec::new();
    args.push(encode(share.as_slice()));
    let tag = copy_range(X25519_TAG.as_slice(), 0, 6);
    let stanza = Stanza { tag, args, body };
    proof {
        assert(X25519_TAG@.subrange(0, 6) =~= X25519_TAG@);
        assert(stanza@.args =~= seq![encode_spec(share@)]);
    }
    stanza
}

/// Looks for the file key in the stanza with the ephemeral share `share`
/// and the body `body`.
pub fn unwrap(secret: &SecretKey, share: &[u8], body: &[u8]) -> (r: Option<FileKey>)
    ensures
        match r {
            Some(k) => unwrap_spec(secret@, share@, body@) == Some(k@),
            None => unwrap_spec(secret@, share@, body@) is None,
        },
{
    if share.len() != KEY_LEN {
        return None;
    }
    let public = x25519(secret.as_bytes(), BASEPOINT.as_slice());
    let shared = SecretBytes::new(x25519(secret.as_bytes(), share));
    let mut salt: Vec<u8> = Vec::new();
    append(&mut salt, share);
    append(&mut salt, public.as_slice());
    let key = SecretBytes::new(
        hkdf_sha256(salt.as_slice(), shared.as_bytes(), X25519_LABEL.as_slice()),
    );
    match aead_open(key.as_bytes(), ZERO_NONCE.as_slice(), body) {
        Some(k) => {
            if k.len() == FILE_KEY_LEN {
                Some(FileKey::from_vec(k))
            } else {
                None
            }
        },
        None => None,
    }
}

} // verus!
