use age::keys::{FileKey, PublicKey, SecretKey};
use age::secret::SecretBytes;

fn unhex(text: &str) -> Vec<u8> {
    (0..text.len() / 2).map(|i| u8::from_str_radix(&text[2 * i..2 * i + 2], 16).unwrap()).collect()
}

fn unhex32(text: &str) -> [u8; 32] {
    let mut out = [0u8; 32];
    out.copy_from_slice(&unhex(text));
    out
}

#[test]
fn public_key_of_known_secret_keys() {
    let alice =
        SecretKey::from_bytes(unhex32("77076d0a7318a57d3c16c17251b26645df4c2f87ebc0992ab177fba51db92c2a"));
    assert_eq!(
        alice.to_public().as_bytes(),
        &unhex("8520f0098930a754748b7ddcb43ef75a0dbf3a0d26381af4eba4a98eaa9b4e6a")[..]
    );
    let bob =
        SecretKey::from_bytes(unhex32("5dab087e624a8a4b79e17f8b83800ee66f3bb1292618b6fd1c2f8b27ff88e0eb"));
    assert_eq!(
        bob.to_public().as_bytes(),
        &unhex("de9edb7d7b7dc1b4d35b61c2ece435373f8343c85b78674dadfc7e146f882b4f")[..]
    );
}

#[test]
fn keys_keep_their_bytes() {
    let mut bytes = [0u8; 32];
    for (i, b) in bytes.iter_mut().enumerate() {
        *b = i as u8;
    }
    assert_eq!(SecretKey::from_bytes(bytes).as_bytes(), &bytes[..]);
    assert_eq!(PublicKey::from_bytes(bytes).as_bytes(), &bytes[..]);
    let mut short = [0u8; 16];
    short.copy_from_slice(&bytes[..16]);
    assert_eq!(FileKey::from_bytes(short).as_bytes(), &short[..]);
    assert_eq!(SecretBytes::new(vec![1, 2, 3]).as_bytes(), &[1u8, 2, 3][..]);
    assert_eq!(SecretBytes::new(vec![]).as_bytes().len(), 0);
}

#[test]
fn generated_keys_have_32_bytes_and_differ() {
    let a = SecretKey::generate().unwrap();
    let b = SecretKey::generate().unwrap();
    assert_eq!(a.as_bytes().len(), 32);
    assert_eq!(b.as_bytes().len(), 32);
    assert_ne!(a.as_bytes(), b.as_bytes());
    assert_eq!(a.to_public().as_bytes().len(), 32);
    assert_ne!(a.to_public().as_bytes(), b.to_public().as_bytes());
}

#[test]
fn erased_secret_holds_zeros() {
    let mut secret = SecretBytes::new(vec![1, 2, 3, 250]);
    secret.erase();
    assert_eq!(secret.as_bytes(), &[0u8, 0, 0, 0][..]);
    let mut empty = SecretBytes::new(vec![]);
    empty.erase();
    assert_eq!(empty.as_bytes().len(), 0);
}
