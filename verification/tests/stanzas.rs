use age::base64::{decode, encode};
use age::format::scrypt::{decimal, is_work_factor_allowed, parse_decimal, wrapping_key};
use age::format::{scrypt, x25519};
use age::keys::{FileKey, SecretKey};
use chacha20poly1305::aead::Aead;
use chacha20poly1305::{ChaCha20Poly1305, Key, KeyInit, Nonce};
use hkdf::Hkdf;
use sha2::Sha256;

fn file_key() -> FileKey {
    FileKey::from_bytes(*b"0123456789abcdef")
}

#[test]
fn x25519_stanza_has_the_shape_of_the_format() {
    let recipient = SecretKey::from_bytes([1u8; 32]);
    let ephemeral = SecretKey::from_bytes([2u8; 32]);
    let stanza = x25519::wrap(&recipient.to_public(), &file_key(), &ephemeral);
    assert_eq!(stanza.tag, b"X25519".to_vec());
    assert_eq!(stanza.args.len(), 1);
    assert_eq!(stanza.args[0], encode(ephemeral.to_public().as_bytes()));
    assert_eq!(stanza.args[0].len(), 43);
    assert_eq!(stanza.body.len(), 32);
}

#[test]
fn x25519_stanza_is_what_the_primitives_give() {
    let recipient = SecretKey::from_bytes([1u8; 32]);
    let public = recipient.to_public();
    let ephemeral = SecretKey::from_bytes([2u8; 32]);
    let stanza = x25519::wrap(&public, &file_key(), &ephemeral);

    let mut scalar = [0u8; 32];
    scalar.copy_from_slice(ephemeral.as_bytes());
    let mut point = [0u8; 32];
    point.copy_from_slice(public.as_bytes());
    let shared = x25519_dalek::x25519(scalar, point);
    let share = x25519_dalek::x25519(scalar, x25519_dalek::X25519_BASEPOINT_BYTES);
    let mut salt = share.to_vec();
    salt.extend_from_slice(&point);
    let mut key = [0u8; 32];
    Hkdf::<Sha256>::new(Some(&salt), &shared)
        .expand(b"age-encryption.org/v1/X25519", &mut key)
        .unwrap();
    let body = ChaCha20Poly1305::new(Key::from_slice(&key))
        .encrypt(Nonce::from_slice(&[0u8; 12]), &b"0123456789abcdef"[..])
        .unwrap();
    assert_eq!(stanza.args[0], encode(&share));
    assert_eq!(stanza.body, body);
}

#[test]
fn x25519_stanza_opens_for_its_recipient_only() {
    let recipient = SecretKey::from_bytes([1u8; 32]);
    let other = SecretKey::from_bytes([3u8; 32]);
    let ephemeral = SecretKey::from_bytes([2u8; 32]);
    let stanza = x25519::wrap(&recipient.to_public(), &file_key(), &ephemeral);
    let share = decode(&stanza.args[0]).unwrap();
    let found = x25519::unwrap(&recipient, &share, &stanza.body).unwrap();
    assert_eq!(found.as_bytes(), file_key().as_bytes());
    assert!(x25519::unwrap(&other, &share, &stanza.body).is_none());
    let mut body = stanza.body.clone();
    body[5] ^= 0x10;
    assert!(x25519::unwrap(&recipient, &share, &body).is_none());
    assert!(x25519::unwrap(&recipient, &share[..31], &stanza.body).is_none());
    assert!(x25519::unwrap(&recipient, &share, &stanza.body[..31]).is_none());
    assert!(x25519::unwrap(&recipient, &share, b"").is_none());
}

#[test]
fn scrypt_stanza_has_the_shape_of_the_format() {
    let salt = [7u8; 16];
    let stanza = scrypt::wrap(b"passphrase", &file_key(), &salt, 10).unwrap();
    assert_eq!(stanza.tag, b"scrypt".to_vec());
    assert_eq!(stanza.args, vec![encode(&salt), b"10".to_vec()]);
    assert_eq!(stanza.args[0].len(), 22);
    assert_eq!(stanza.body.len(), 32);
}

#[test]
fn scrypt_stanza_is_what_the_primitives_give() {
    let salt = [7u8; 16];
    let stanza = scrypt::wrap(b"passphrase", &file_key(), &salt, 5).unwrap();
    let mut labelled = b"age-encryption.org/v1/scrypt".to_vec();
    labelled.extend_from_slice(&salt);
    let params = ::scrypt::Params::new(5, 8, 1, 32).unwrap();
    let mut key = [0u8; 32];
    ::scrypt::scrypt(b"passphrase", &labelled, &params, &mut key).unwrap();
    assert_eq!(wrapping_key(b"passphrase", &salt, 5), Some(key.to_vec()));
    let body = ChaCha20Poly1305::new(Key::from_slice(&key))
        .encrypt(Nonce::from_slice(&[0u8; 12]), &b"0123456789abcdef"[..])
        .unwrap();
    assert_eq!(stanza.body, body);
}

#[test]
fn scrypt_stanza_opens_for_its_passphrase_only() {
    let salt = [7u8; 16];
    let stanza = scrypt::wrap(b"passphrase", &file_key(), &salt, 4).unwrap();
    let found = scrypt::unwrap(b"passphrase", &salt, 4, &stanza.body).unwrap();
    assert_eq!(found.as_bytes(), file_key().as_bytes());
    assert!(scrypt::unwrap(b"Passphrase", &salt, 4, &stanza.body).is_none());
    assert!(scrypt::unwrap(b"passphrase", &[8u8; 16], 4, &stanza.body).is_none());
    assert!(scrypt::unwrap(b"passphrase", &salt, 5, &stanza.body).is_none());
    assert!(scrypt::unwrap(b"passphrase", &salt, 0, &stanza.body).is_none());
    assert!(scrypt::unwrap(b"passphrase", &salt, 23, &stanza.body).is_none());
}

#[test]
fn passphrase_gives_the_same_key_for_the_same_salt_and_work_factor() {
    let salt = [9u8; 16];
    let first = wrapping_key(b"correct horse", &salt, 6).unwrap();
    let second = wrapping_key(b"correct horse", &salt, 6).unwrap();
    assert_eq!(first.len(), 32);
    assert_eq!(first, second);
    assert_ne!(first, wrapping_key(b"correct horse", &[10u8; 16], 6).unwrap());
    assert_ne!(first, wrapping_key(b"correct horse", &salt, 7).unwrap());
    assert_ne!(first, wrapping_key(b"correct horsf", &salt, 6).unwrap());
    assert_ne!(first, b"correct horse".to_vec());
}

#[test]
fn work_factor_has_a_floor_and_a_ceiling() {
    assert!(!is_work_factor_allowed(0));
    assert!(is_work_factor_allowed(1));
    assert!(is_work_factor_allowed(18));
    assert!(is_work_factor_allowed(21));
    assert!(!is_work_factor_allowed(23));
    assert!(!is_work_factor_allowed(64));
    assert!(!is_work_factor_allowed(255));
    assert_eq!(wrapping_key(b"p", &[0u8; 16], 0), None);
    assert_eq!(wrapping_key(b"p", &[0u8; 16], 23), None);
    assert!(scrypt::wrap(b"p", &file_key(), &[0u8; 16], 23).is_none());
    assert!(scrypt::wrap(b"p", &file_key(), &[0u8; 16], 0).is_none());
    assert!(scrypt::wrap(b"p", &file_key(), &[0u8; 15], 4).is_none());
    assert!(scrypt::wrap(b"p", &file_key(), &[0u8; 17], 4).is_none());
}

#[test]
fn decimal_digits() {
    assert_eq!(decimal(0), b"0".to_vec());
    assert_eq!(decimal(9), b"9".to_vec());
    assert_eq!(decimal(10), b"10".to_vec());
    assert_eq!(decimal(18), b"18".to_vec());
    assert_eq!(decimal(99), b"99".to_vec());
    assert_eq!(decimal(100), b"100".to_vec());
    assert_eq!(decimal(205), b"205".to_vec());
    assert_eq!(decimal(255), b"255".to_vec());
    for n in 0..100u8 {
        assert_eq!(parse_decimal(&decimal(n)), Some(n));
    }
    assert_eq!(parse_decimal(b""), None);
    assert_eq!(parse_decimal(b"01"), None);
    assert_eq!(parse_decimal(b"00"), None);
    assert_eq!(parse_decimal(b"1a"), None);
    assert_eq!(parse_decimal(b"+1"), None);
    assert_eq!(parse_decimal(b" 1"), None);
    assert_eq!(parse_decimal(b"100"), None);
    assert_eq!(parse_decimal(b"018"), None);
}
