//! The stanza that wraps a file key for a passphrase.
//!
//! ```text
//! -> scrypt <salt> <work factor>
//! <file key, sealed>
//! ```
//!
//! The wrapping key is what scrypt derives from the passphrase and a salt
//! of 16 random bytes, with N two to the power of the work factor. A reader
//! refuses a work factor above a fixed ceiling before it does any work.

use crate::base64::{encode, encode_spec};
use crate::format::{Stanza, StanzaView};
use crate::keys::{FileKey, FILE_KEY_LEN};
use crate::primitives::{
    aead_open, aead_opened, aead_seal, aead_sealed, scrypt_addressable, scrypt_derive,
    scrypt_output, seal_opens, KEY_LEN, ZERO_NONCE,
};
use crate::secret::SecretBytes;
use crate::util::{append, copy_range};
use vstd::prelude::*;

verus! {

/// The tag of the stanza: `scrypt`.
pub const SCRYPT_TAG: [u8; 6] = [115, 99, 114, 121, 112, 116];

/// What the salt of scrypt starts with, before the stanza's salt:
/// `age-encryption.org/v1/scrypt`.
pub const SCRYPT_LABEL: [u8; 28] = [
    97, 103, 101, 45, 101, 110, 99, 114, 121, 112, 116, 105, 111, 110, 46, 111, 114, 103, 47, 118,
    49, 47, 115, 99, 114, 121, 112, 116,
];

/// The number of bytes in a stanza's salt.
pub const SALT_LEN: usize = 16;

/// The work factor with which a file key is wrapped unless another is
/// asked for.
pub const DEFAULT_WORK_FACTOR: u8 = 18;

/// The highest work factor that a reader accepts.
pub const MAX_WORK_FACTOR: u8 = 22;

/// Whether a stanza may name the work factor `log_n`: it is at least 1, at
/// most the ceiling, and this machine can address scrypt's memory for it.
pub open spec fn work_factor_allowed(log_n: u8) -> bool {
    1 <= log_n <= MAX_WORK_FACTOR && scrypt_addressable(log_n)
}

/// The decimal digits of `n`, without leading zeros.
pub open spec fn decimal_spec(n: u8) -> Seq<u8> {
    if n < 10 {
        seq![(48 + n) as u8]
    } else if n < 100 {
        seq![(48 + n / 10) as u8, (48 + n % 10) as u8]
    } else {
        seq![(48 + n / 100) as u8, (48 + (n / 10) % 10) as u8, (48 + n % 10) as u8]
    }
}

/// Whether `c` is a decimal digit.
pub open spec fn is_digit(c: u8) -> bool {
    48 <= c <= 57
}

/// The number below 100 that `s` is the decimal digits of, without leading
/// zeros; `None` for any other text.
pub open spec fn parse_decimal_spec(s: Seq<u8>) -> Option<u8> {
    if s.len() == 1 && is_digit(s[0]) {
        Some((s[0] - 48) as u8)
    } else if s.len() == 2 && 49 <= s[0] <= 57 && is_digit(s[1]) {
        Some(((s[0] - 48) * 10 + (s[1] - 48)) as u8)
    } else {
        None
    }
}

/// The key that wraps the file key: what scrypt derives from the
/// passphrase and the labelled salt.
pub open spec fn wrapping_key_spec(passphrase: Seq<u8>, salt: Seq<u8>, log_n: u8) -> Seq<u8> {
    scrypt_output(passphrase, SCRYPT_LABEL@ + salt, log_n)
}

/// The stanza that wraps `file_key` for `passphrase` with the salt `salt`
/// and the work factor `log_n`.
pub open spec fn stanza_spec(
    passphrase: Seq<u8>,
    file_key: Seq<u8>,
    salt: Seq<u8>,
    log_n: u8,
) -> StanzaView {
    StanzaView {
        tag: SCRYPT_TAG@,
        args: seq![encode_spec(salt), decimal_spec(log_n)],
        body: aead_sealed(wrapping_key_spec(passphrase, salt, log_n), ZERO_NONCE@, file_key),
    }
}

/// The file key that `passphrase` finds in a stanza with the salt `salt`,
/// the work factor `log_n` and the body `body`; `None` where the work
/// factor is not allowed, or the body does not open or does not hold 16
/// bytes.
pub open spec fn unwrap_spec(
    passphrase: Seq<u8>,
    salt: Seq<u8>,
    log_n: u8,
    body: Seq<u8>,
) -> Option<Seq<u8>> {
    if !work_factor_allowed(log_n) {
        None
    } else {
        match aead_opened(wrapping_key_spec(passphrase, salt, log_n), ZERO_NONCE@, body) {
            Some(k) => if k.len() == FILE_KEY_LEN {
                Some(k)
            } else {
                None
            },
            None => None,
        }
    }
}

/// What the primitives did when `file_key` was wrapped for `passphrase`:
/// the sealed file key opens to the file key.
pub open spec fn wrap_sound(passphrase: Seq<u8>, file_key: Seq<u8>, salt: Seq<u8>, log_n: u8) -> bool {
    &&& work_factor_allowed(log_n)
    &&& salt.len() == SALT_LEN
    &&& file_key.len() == FILE_KEY_LEN
    &&& seal_opens(wrapping_key_spec(passphrase, salt, log_n), ZERO_NONCE@, file_key)
}

/// The digits of a number below 100 are read back as the number.
pub proof fn lemma_parse_decimal(n: u8)
    requires
        n < 100,
    ensures
        parse_decimal_spec(decimal_spec(n)) == Some(n),
{
}

/// A text that is read as a number is the digits of that number.
pub proof fn lemma_decimal_parse(s: Seq<u8>)
    requires
        parse_decimal_spec(s) is Some,
    ensures
        decimal_spec(parse_decimal_spec(s).unwrap()) == s,
{
    assert(decimal_spec(parse_decimal_spec(s).unwrap()) =~= s);
}

/// The holder of the passphrase finds the file key in a stanza that was
/// made for the passphrase.
pub proof fn lemma_unwrap_wrap(passphrase: Seq<u8>, file_key: Seq<u8>, salt: Seq<u8>, log_n: u8)
    requires
        wrap_sound(passphrase, file_key, salt, log_n),
    ensures
        unwrap_spec(passphrase, salt, log_n, stanza_spec(passphrase, file_key, salt, log_n).body)
            == Some(file_key),
{
}

/// The decimal digits of `n`.
pub fn decimal(n: u8) -> (out: Vec<u8>)
    ensures
        out@ == decimal_spec(n),
{
    let mut out: Vec<u8> = Vec::new();
    if n >= 100 {
        out.push(48 + n / 100);
    }
    if n >= 10 {
        out.push(48 + (n / 10) % 10);
    }
    out.push(48 + n % 10);
    assert(out@ =~= decimal_spec(n));
    out
}

/// Reads a number below 100 from its decimal digits.
pub fn parse_decimal(s: &[u8]) -> (r: Option<u8>)
    ensures
        r == parse_decimal_spec(s@),
{
    if s.len() == 1 && 48 <= s[0] && s[0] <= 57 {
        Some(s[0] - 48)
    } else if s.len() == 2 && 49 <= s[0] && s[0] <= 57 && 48 <= s[1] && s[1] <= 57 {
        Some((s[0] - 48) * 10 + (s[1] - 48))
    } else {
        None
    }
}

/// Whether a stanza may name the work factor `log_n`.
pub fn is_work_factor_allowed(log_n: u8) -> (r: bool)
    ensures
        r == work_factor_allowed(log_n),
{
    1 <= log_n && log_n <= MAX_WORK_FACTOR && (log_n as u32) + 10 < usize::BITS
}

/// The key that wraps a file key for `passphrase` with the salt `salt` and
/// the work factor `log_n`: the same key for the same three values. `None`
/// where the work factor is not allowed.
pub fn wrapping_key(passphrase: &[u8], salt: &[u8], log_n: u8) -> (key: Option<Vec<u8>>)
    ensures
        key is Some <==> work_factor_allowed(log_n),
        key matches Some(k) ==> k@ == wrapping_key_spec(passphrase@, salt@, log_n) && k@.len()
            == KEY_LEN,
{
    if !is_work_factor_allowed(log_n) {
        return None;
    }
    let mut labelled: Vec<u8> = Vec::new();
    append(&mut labelled, SCRYPT_LABEL.as_slice());
    append(&mut labelled, salt);
    scrypt_derive(passphrase, labelled.as_slice(), log_n)
}

/// Wraps `file_key` for `passphrase` with the salt `salt` and the work
/// factor `log_n`. `None` where the salt does not have 16 bytes or the work
/// factor is not allowed.
pub fn wrap(passphrase: &[u8], file_key: &FileKey, salt: &[u8], log_n: u8) -> (r: Option<Stanza>)
    ensures
        r is Some <==> salt@.len() == SALT_LEN && work_factor_allowed(log_n),
        r matches Some(stanza) ==> stanza@ == stanza_spec(passphrase@, file_key@, salt@, log_n)
            && wrap_sound(passphrase@, file_key@, salt@, log_n),
{
    if salt.len() != SALT_LEN {
        return None;
    }
    let key = match wrapping_key(passphrase, salt, log_n) {
        Some(k) => SecretBytes::new(k),
        None => { return None; },
    };
    let body = aead_seal(key.as_bytes(), ZERO_NONCE.as_slice(), file_key.as_bytes());
    let mut args: Vec<Vec<u8>> = Vec::new();
    args.push(encode(salt));
    args.push(decimal(log_n));
    let tag = copy_range(SCRYPT_TAG.as_slice(), 0, 6);
    let stanza = Stanza { tag, args, body };
    proof {
        assert(SCRYPT_TAG@.subrange(0, 6) =~= SCRYPT_TAG@);
        assert(stanza@.args =~= seq![encode_spec(salt@), decimal_spec(log_n)]);
    }
    Some(stanza)
}

/// Looks for the file key in the stanza with the salt `salt`, the work
/// factor `log_n` and the body `body`. Where the work factor is not
/// allowed, nothing is derived.
pub fn unwrap(passphrase: &[u8], salt: &[u8], log_n: u8, body: &[u8]) -> (r: Option<FileKey>)
    ensures
        match r {
            Some(k) => unwrap_spec(passphrase@, salt@, log_n, body@) == Some(k@),
            None => unwrap_spec(passphrase@, salt@, log_n, body@) is None,
        },
{
    let key = match wrapping_key(passphrase, salt, log_n) {
        Some(k) => SecretBytes::new(k),
        None => { return None; },
    };
    match aead_open(key.as_bytes(), ZERO_NONCE.as_slice(), body) {
        Some(k) => {
            if k.len() == FILE_KEY_LEN {
                Some(FileKey::from_vec(k))
            } else {
                None
            }
        },
        None => None,
    }
}

} // verus!
