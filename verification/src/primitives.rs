//! The cryptographic primitives of the format, as the crates that
//! implement them compute them.
//!
//! The format fixes its primitives: X25519, ChaCha20-Poly1305, HKDF-SHA256,
//! HMAC-SHA256 and scrypt. Each is computed by another crate. What such a
//! crate returns is given a name here, and the functions of this module are
//! believed, not proved, to return what their contracts say of those names.

use chacha20poly1305::aead::Aead;
use chacha20poly1305::{ChaCha20Poly1305, Key, KeyInit, Nonce};
use hkdf::Hkdf;
use hmac::{Hmac, Mac};
use rand::rngs::OsRng;
use rand::RngCore;
use sha2::Sha256;
use vstd::prelude::*;

pub mod stream;

verus! {

/// The number of bytes in a key of the cipher, in an X25519 scalar or point,
/// and in the output of the hash.
pub const KEY_LEN: usize = 32;

/// The number of bytes in a nonce of the cipher.
pub const NONCE_LEN: usize = 12;

/// The number of bytes by which sealing lengthens a message.
pub const TAG_LEN: usize = 16;

/// The X25519 base point: the u-coordinate 9.
pub const BASEPOINT: [u8; 32] = [
    9, 0, 0, 0, 0, 0, 0, 0, 0, 0, 0, 0, 0, 0, 0, 0, 0, 0, 0, 0, 0, 0, 0, 0, 0, 0, 0, 0, 0, 0, 0, 0,
];

/// The nonce under which a file key is wrapped: twelve zero bytes. A
/// wrapping key seals one file key and nothing else, so the nonce never
/// repeats under a key.
pub const ZERO_NONCE: [u8; 12] = [0, 0, 0, 0, 0, 0, 0, 0, 0, 0, 0, 0];

/// The ChaCha20-Poly1305 ciphertext of `plaintext` under `key` and `nonce`,
/// without associated data: the encrypted bytes, then the tag.
pub uninterp spec fn aead_sealed(key: Seq<u8>, nonce: Seq<u8>, plaintext: Seq<u8>) -> Seq<u8>;

/// What ChaCha20-Poly1305 recovers from `ciphertext` under `key` and
/// `nonce`, without associated data; `None` where the tag does not fit.
pub uninterp spec fn aead_opened(key: Seq<u8>, nonce: Seq<u8>, ciphertext: Seq<u8>) -> Option<
    Seq<u8>,
>;

/// The 32 bytes that HKDF-SHA256 derives from `ikm` with `salt` and `info`.
pub uninterp spec fn hkdf_output(salt: Seq<u8>, ikm: Seq<u8>, info: Seq<u8>) -> Seq<u8>;

/// The HMAC-SHA256 code of `message` under `key`.
pub uninterp spec fn hmac_code(key: Seq<u8>, message: Seq<u8>) -> Seq<u8>;

/// The X25519 function of RFC 7748 on the scalar `scalar` and the
/// u-coordinate `point`.
pub uninterp spec fn x25519_product(scalar: Seq<u8>, point: Seq<u8>) -> Seq<u8>;

/// The 32 bytes that scrypt derives from `passphrase` and `salt` with
/// N = 2^`log_n`, r = 8 and p = 1.
pub uninterp spec fn scrypt_output(passphrase: Seq<u8>, salt: Seq<u8>, log_n: u8) -> Seq<u8>;

/// The value of an optional byte string.
pub open spec fn option_view(r: Option<Vec<u8>>) -> Option<Seq<u8>> {
    match r {
        Some(v) => Some(v@),
        None => None,
    }
}

/// Whether sealing `plaintext` under `key` and `nonce` adds 16 bytes and is
/// undone by opening: what the cipher does with every message that it
/// seals.
pub open spec fn seal_opens(key: Seq<u8>, nonce: Seq<u8>, plaintext: Seq<u8>) -> bool {
    let sealed = aead_sealed(key, nonce, plaintext);
    sealed.len() == plaintext.len() + TAG_LEN && aead_opened(key, nonce, sealed) == Some(plaintext)
}

/// Whether scrypt can run with N = 2^`log_n` and r = 8 on this machine:
/// the 2^`log_n` blocks of 1024 bytes must be addressable.
pub open spec fn scrypt_addressable(log_n: u8) -> bool {
    log_n + 10 < usize::BITS
}

/// Calls `encrypt` of `chacha20poly1305::ChaCha20Poly1305`, without
/// associated data.
///
/// Believed: the result is the ciphertext named `aead_sealed`; it is 16
/// bytes longer than the plaintext; and opening it under the same key and
/// nonce gives the plaintext back. The crate refuses a message of 2^32 - 1
/// blocks of 64 bytes or more, which `requires` leaves out.
#[verifier::external_body]
pub(crate) fn aead_seal(key: &[u8], nonce: &[u8], plaintext: &[u8]) -> (ciphertext: Vec<u8>)
    requires
        key@.len() == KEY_LEN,
        nonce@.len() == NONCE_LEN,
        plaintext@.len() + TAG_LEN <= usize::MAX,
        plaintext@.len() / 64 < 0xffff_ffff,
    ensures
        ciphertext@ == aead_sealed(key@, nonce@, plaintext@),
        ciphertext@.len() == plaintext@.len() + TAG_LEN,
        aead_opened(key@, nonce@, ciphertext@) == Some(plaintext@),
{
    ChaCha20Poly1305::new(Key::from_slice(key)).encrypt(Nonce::from_slice(nonce), plaintext).unwrap()
}

/// Calls `decrypt` of `chacha20poly1305::ChaCha20Poly1305`, without
/// associated data.
///
/// Believed: the result is what is named `aead_opened`, and a plaintext
/// that comes out is 16 bytes shorter than the ciphertext.
#[verifier::external_body]
pub(crate) fn aead_open(key: &[u8], nonce: &[u8], ciphertext: &[u8]) -> (plaintext: Option<
    Vec<u8>,
>)
    requires
        key@.len() == KEY_LEN,
        nonce@.len() == NONCE_LEN,
    ensures
        option_view(plaintext) == aead_opened(key@, nonce@, ciphertext@),
        plaintext matches Some(p) ==> p@.len() + TAG_LEN == ciphertext@.len(),
{
    ChaCha20Poly1305::new(Key::from_slice(key)).decrypt(Nonce::from_slice(nonce), ciphertext).ok()
}

/// Calls `Hkdf::<Sha256>::new` and `expand` of the crate `hkdf` for 32
/// bytes of output.
///
/// Believed: the result is the 32 bytes named `hkdf_output`.
#[verifier::external_body]
pub(crate) fn hkdf_sha256(salt: &[u8], ikm: &[u8], info: &[u8]) -> (okm: Vec<u8>)
    ensures
        okm@ == hkdf_output(salt@, ikm@, info@),
        okm@.len() == KEY_LEN,
{
    let mut okm = [0u8; 32];
    Hkdf::<Sha256>::new(Some(salt), ikm).expand(info, &mut okm).unwrap();
    okm.to_vec()
}

/// Calls `finalize` of `hmac::Hmac<Sha256>` on `message` under `key`.
///
/// Believed: the result is the 32 bytes named `hmac_code`.
#[verifier::external_body]
pub(crate) fn hmac_sha256(key: &[u8], message: &[u8]) -> (code: Vec<u8>)
    ensures
        code@ == hmac_code(key@, message@),
        code@.len() == KEY_LEN,
{
    let mut mac = <Hmac<Sha256> as Mac>::new_from_slice(key).unwrap();
    mac.update(message);
    mac.finalize().into_bytes().to_vec()
}

/// Calls `verify_slice` of `hmac::Hmac<Sha256>`, which compares in
/// constant time.
///
/// Believed: the result says whether `code` is the code named `hmac_code`.
#[verifier::external_body]
pub(crate) fn hmac_verify(key: &[u8], message: &[u8], code: &[u8]) -> (ok: bool)
    ensures
        ok == (hmac_code(key@, message@) == code@),
{
    let mut mac = <Hmac<Sha256> as Mac>::new_from_slice(key).unwrap();
    mac.update(message);
    mac.verify_slice(code).is_ok()
}

/// Calls `x25519_dalek::x25519`.
///
/// Believed: the result is the 32 bytes named `x25519_product`; and the
/// two sides of a Diffie-Hellman exchange agree: where `point` is the
/// public share of a scalar `s`, the result is what `s` computes from the
/// public share of `scalar`.
#[verifier::external_body]
pub(crate) fn x25519(scalar: &[u8], point: &[u8]) -> (product: Vec<u8>)
    requires
        scalar@.len() == KEY_LEN,
        point@.len() == KEY_LEN,
    ensures
        product@ == x25519_product(scalar@, point@),
        product@.len() == KEY_LEN,
        forall|s: Seq<u8>|
            s.len() == KEY_LEN && point@ == #[trigger] x25519_product(s, BASEPOINT@) ==> product@
                == x25519_product(s, x25519_product(scalar@, BASEPOINT@)),
{
    let k: [u8; 32] = scalar.try_into().unwrap();
    let u: [u8; 32] = point.try_into().unwrap();
    x25519_dalek::x25519(k, u).to_vec()
}

/// Calls `scrypt::scrypt` with the parameters that `scrypt::Params::new`
/// makes of `log_n`, r = 8, p = 1 and 32 bytes of output.
///
/// Believed: the parameters are accepted exactly where the machine can
/// address 2^`log_n` blocks of 1024 bytes, and the result is then the 32
/// bytes named `scrypt_output`.
#[verifier::external_body]
pub(crate) fn scrypt_derive(passphrase: &[u8], salt: &[u8], log_n: u8) -> (key: Option<Vec<u8>>)
    ensures
        key is Some <==> scrypt_addressable(log_n),
        key matches Some(k) ==> k@ == scrypt_output(passphrase@, salt@, log_n) && k@.len()
            == KEY_LEN,
{
    let params = scrypt::Params::new(log_n, 8, 1, 32).ok()?;
    let mut key = vec![0u8; 32];
    scrypt::scrypt(passphrase, salt, &params, &mut key).ok()?;
    Some(key)
}

/// Calls `try_fill_bytes` of `rand::rngs::OsRng` on `n` bytes.
///
/// Believed: bytes that come out are `n` in number. Nothing is said of
/// their values, nor of when the system has none to give.
#[verifier::external_body]
pub(crate) fn random_bytes(n: usize) -> (bytes: Option<Vec<u8>>)
    ensures
        bytes matches Some(b) ==> b@.len() == n,
{
    let mut bytes = vec![0u8; n];
    match OsRng.try_fill_bytes(&mut bytes) {
        Ok(()) => Some(bytes),
        Err(_) => None,
    }
}

} // verus!
