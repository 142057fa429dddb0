use age::error::Error;
use age::format::{x25519, Header, Stanza};
use age::keys::{FileKey, SecretKey};
use age::primitives::stream::{encrypt_payload, StreamReader};
use age::protocol::{Decryptor, Encryptor, Identity, Recipient, WrappedKey};
use age::secret::SecretBytes;
use age::Format;

fn random_like(n: usize, seed: u8) -> Vec<u8> {
    (0..n).map(|i| (i as u8).wrapping_mul(31).wrapping_add(seed)).collect()
}

fn secret_key(fill: u8) -> SecretKey {
    SecretKey::from_bytes([fill; 32])
}

fn passphrase(text: &str) -> SecretBytes {
    SecretBytes::new(text.as_bytes().to_vec())
}

fn message_for_key_7() -> Vec<u8> {
    let encryptor =
        Encryptor::with_recipients(vec![Recipient::PublicKey(secret_key(7).to_public())]).unwrap();
    encryptor.wrap_with_entropy(b"Hello world!", Format::Binary, &random_like(48, 1)).unwrap()
}

#[test]
fn x25519_round_trip() {
    let message = message_for_key_7();
    assert!(message.starts_with(b"age-encryption.org/v1\n-> X25519 "));
    let decryptor = Decryptor::with_identities(vec![Identity::SecretKey(secret_key(7))]);
    assert_eq!(decryptor.trial_decrypt(&message), Ok(b"Hello world!".to_vec()));
    assert_eq!(decryptor.decrypt(&message), Ok(b"Hello world!".to_vec()));
}

#[test]
fn passphrase_round_trip() {
    let encryptor = Encryptor::with_passphrase(passphrase("this is not a good passphrase"))
        .with_work_factor(4)
        .unwrap();
    let message =
        encryptor.wrap_with_entropy(b"Hello world!", Format::Binary, &random_like(48, 2)).unwrap();
    assert!(message.starts_with(b"age-encryption.org/v1\n-> scrypt "));
    let decryptor = Decryptor::with_passphrase(passphrase("this is not a good passphrase"));
    assert_eq!(decryptor.trial_decrypt(&message), Ok(b"Hello world!".to_vec()));
}

#[test]
fn key_based_encryption_with_random_bytes_of_the_system() {
    let key = SecretKey::generate().unwrap();
    let public = key.to_public();
    let plaintext = b"Hello world!";
    let encryptor = Encryptor::with_recipients(vec![Recipient::PublicKey(public)]).unwrap();
    let encrypted = encryptor.wrap_output(plaintext, Format::Binary).unwrap();
    let again = encryptor.wrap_output(plaintext, Format::Binary).unwrap();
    assert_ne!(encrypted, again);
    let decryptor = Decryptor::with_identities(vec![Identity::SecretKey(key)]);
    assert_eq!(decryptor.trial_decrypt(&encrypted), Ok(plaintext.to_vec()));
    assert_eq!(decryptor.trial_decrypt(&again), Ok(plaintext.to_vec()));
}

#[test]
fn passphrase_based_encryption_with_random_bytes_of_the_system() {
    let plaintext = b"Hello world!";
    let encryptor = Encryptor::with_passphrase(passphrase("this is not a good passphrase"))
        .with_work_factor(6)
        .unwrap();
    let encrypted = encryptor.wrap_output(plaintext, Format::Binary).unwrap();
    let again = encryptor.wrap_output(plaintext, Format::Binary).unwrap();
    // Another salt and another file key each time.
    assert_ne!(encrypted, again);
    let first = Header::read_prefix(&encrypted).unwrap().0;
    let second = Header::read_prefix(&again).unwrap().0;
    assert_ne!(first.stanzas[0].args[0], second.stanzas[0].args[0]);
    assert_eq!(first.stanzas[0].args[1], b"6".to_vec());
    let decryptor = Decryptor::with_passphrase(passphrase("this is not a good passphrase"));
    assert_eq!(decryptor.trial_decrypt(&encrypted), Ok(plaintext.to_vec()));
    assert_eq!(decryptor.trial_decrypt(&again), Ok(plaintext.to_vec()));
}

#[test]
fn same_entropy_gives_the_same_message() {
    assert_eq!(message_for_key_7(), message_for_key_7());
    let encryptor =
        Encryptor::with_recipients(vec![Recipient::PublicKey(secret_key(7).to_public())]).unwrap();
    let other =
        encryptor.wrap_with_entropy(b"Hello world!", Format::Binary, &random_like(48, 2)).unwrap();
    assert_ne!(other, message_for_key_7());
    // Entropy beyond what is needed is not used.
    let longer =
        encryptor.wrap_with_entropy(b"Hello world!", Format::Binary, &random_like(480, 1)).unwrap();
    assert_eq!(longer, message_for_key_7());
}

#[test]
fn message_is_a_header_and_a_payload() {
    let message = message_for_key_7();
    let (header, next) = Header::read_prefix(&message).unwrap();
    assert_eq!(header.stanzas.len(), 1);
    assert_eq!(header.write(), message[..next].to_vec());
    // The first 16 bytes of the entropy are the file key.
    let mut key = [0u8; 16];
    key.copy_from_slice(&random_like(16, 1));
    let file_key = FileKey::from_bytes(key);
    assert!(header.verify_mac(&file_key));
    assert_eq!(message[next..].to_vec(), encrypt_payload(&file_key, b"Hello world!"));
    // And the next 32 are the ephemeral secret key.
    let mut ephemeral = [0u8; 32];
    ephemeral.copy_from_slice(&random_like(48, 1)[16..]);
    let stanza =
        x25519::wrap(&secret_key(7).to_public(), &file_key, &SecretKey::from_bytes(ephemeral));
    assert_eq!(header.stanzas[0].write(), stanza.write());
}

#[test]
fn empty_message_round_trip() {
    let encryptor =
        Encryptor::with_recipients(vec![Recipient::PublicKey(secret_key(7).to_public())]).unwrap();
    let message = encryptor.wrap_with_entropy(b"", Format::Binary, &random_like(48, 1)).unwrap();
    let (_, next) = Header::read_prefix(&message).unwrap();
    // One chunk, empty and final.
    assert_eq!(message.len() - next, 16);
    let decryptor = Decryptor::with_identities(vec![Identity::SecretKey(secret_key(7))]);
    assert_eq!(decryptor.trial_decrypt(&message), Ok(vec![]));
}

#[test]
fn long_message_round_trip() {
    let plaintext: Vec<u8> = (0..200_000usize).map(|i| (i % 253) as u8).collect();
    let encryptor =
        Encryptor::with_recipients(vec![Recipient::PublicKey(secret_key(7).to_public())]).unwrap();
    let message =
        encryptor.wrap_with_entropy(&plaintext, Format::Binary, &random_like(48, 1)).unwrap();
    let (_, next) = Header::read_prefix(&message).unwrap();
    assert_eq!(message.len() - next, 200_000 + 4 * 16);
    let decryptor = Decryptor::with_identities(vec![Identity::SecretKey(secret_key(7))]);
    assert_eq!(decryptor.trial_decrypt(&message), Ok(plaintext));
}

#[test]
fn every_recipient_decrypts_whatever_the_order() {
    let recipients = vec![
        Recipient::PublicKey(secret_key(1).to_public()),
        Recipient::Passphrase(passphrase("words")),
        Recipient::PublicKey(secret_key(2).to_public()),
        Recipient::PublicKey(secret_key(3).to_public()),
    ];
    let encryptor = Encryptor::with_recipients(recipients).unwrap().with_work_factor(3).unwrap();
    let message =
        encryptor.wrap_with_entropy(b"for all of you", Format::Binary, &random_like(144, 9)).unwrap();
    let header = Header::read_prefix(&message).unwrap().0;
    assert_eq!(header.stanzas.len(), 4);
    assert_eq!(header.stanzas[0].tag, b"X25519".to_vec());
    assert_eq!(header.stanzas[1].tag, b"scrypt".to_vec());
    assert_eq!(header.stanzas[1].args[1], b"3".to_vec());
    for fill in [1u8, 2, 3] {
        let decryptor = Decryptor::with_identities(vec![Identity::SecretKey(secret_key(fill))]);
        assert_eq!(decryptor.trial_decrypt(&message), Ok(b"for all of you".to_vec()));
    }
    let decryptor = Decryptor::with_passphrase(passphrase("words"));
    assert_eq!(decryptor.trial_decrypt(&message), Ok(b"for all of you".to_vec()));
    // The right identity among others, in any place.
    let decryptor = Decryptor::with_identities(vec![
        Identity::SecretKey(secret_key(8)),
        Identity::Passphrase(passphrase("other words")),
        Identity::SecretKey(secret_key(3)),
    ]);
    assert_eq!(decryptor.trial_decrypt(&message), Ok(b"for all of you".to_vec()));
}

#[test]
fn wrong_identity_is_refused() {
    let message = message_for_key_7();
    let decryptor = Decryptor::with_identities(vec![Identity::SecretKey(secret_key(8))]);
    assert_eq!(decryptor.trial_decrypt(&message), Err(Error::NoMatchingIdentity));
    let decryptor = Decryptor::with_passphrase(passphrase("a passphrase"));
    assert_eq!(decryptor.trial_decrypt(&message), Err(Error::NoMatchingIdentity));
    let decryptor = Decryptor::with_identities(vec![]);
    assert_eq!(decryptor.trial_decrypt(&message), Err(Error::NoMatchingIdentity));
    let decryptor = Decryptor::with_identities(vec![
        Identity::SecretKey(secret_key(8)),
        Identity::SecretKey(secret_key(9)),
    ]);
    assert_eq!(decryptor.trial_decrypt(&message), Err(Error::NoMatchingIdentity));

    let encryptor =
        Encryptor::with_passphrase(passphrase("right")).with_work_factor(2).unwrap();
    let message = encryptor.wrap_with_entropy(b"x", Format::Binary, &random_like(48, 3)).unwrap();
    let decryptor = Decryptor::with_passphrase(passphrase("wrong"));
    assert_eq!(decryptor.trial_decrypt(&message), Err(Error::NoMatchingIdentity));
}

#[test]
fn no_recipients() {
    assert_eq!(Encryptor::with_recipients(vec![]).err(), Some(Error::NoRecipients));
}

#[test]
fn work_factor_that_no_stanza_may_name() {
    let encryptor = Encryptor::with_passphrase(passphrase("p"));
    assert_eq!(encryptor.with_work_factor(0).err(), Some(Error::MalformedStanza));
    let encryptor = Encryptor::with_passphrase(passphrase("p"));
    assert_eq!(encryptor.with_work_factor(23).err(), Some(Error::MalformedStanza));
}

#[test]
fn too_little_entropy() {
    let encryptor = Encryptor::with_recipients(vec![
        Recipient::PublicKey(secret_key(1).to_public()),
        Recipient::PublicKey(secret_key(2).to_public()),
    ])
    .unwrap();
    for len in [0usize, 15, 16, 47, 48, 79] {
        assert_eq!(
            encryptor.wrap_with_entropy(b"x", Format::Binary, &random_like(len, 0)),
            Err(Error::RandomSource)
        );
        assert!(encryptor.start_output_with_entropy(&random_like(len, 0)).is_err());
    }
    assert!(encryptor.wrap_with_entropy(b"x", Format::Binary, &random_like(80, 0)).is_ok());
}

#[test]
fn header_that_is_none() {
    let decryptor = Decryptor::with_identities(vec![Identity::SecretKey(secret_key(7))]);
    assert_eq!(decryptor.trial_decrypt(b""), Err(Error::HeaderParseError));
    assert_eq!(decryptor.trial_decrypt(b"not a message"), Err(Error::HeaderParseError));
    assert_eq!(
        decryptor.trial_decrypt(b"age-encryption.org/v2\n"),
        Err(Error::HeaderParseError)
    );
    let message = message_for_key_7();
    assert_eq!(decryptor.trial_decrypt(&message[..60]), Err(Error::HeaderParseError));
    assert_eq!(decryptor.trial_decrypt(&message[1..]), Err(Error::HeaderParseError));
}

fn with_stanzas(stanzas: Vec<Stanza>) -> Vec<u8> {
    let file_key = FileKey::from_bytes([4u8; 16]);
    let mut message = Header::new(stanzas, &file_key).write();
    message.extend(encrypt_payload(&file_key, b"payload"));
    message
}

fn stanza(tag: &str, args: &[&str], body: Vec<u8>) -> Stanza {
    Stanza {
        tag: tag.as_bytes().to_vec(),
        args: args.iter().map(|a| a.as_bytes().to_vec()).collect(),
        body,
    }
}

#[test]
fn malformed_stanzas_are_refused() {
    let decryptor = Decryptor::with_identities(vec![
        Identity::SecretKey(secret_key(7)),
        Identity::Passphrase(passphrase("p")),
    ]);
    let share = "AAAAAAAAAAAAAAAAAAAAAAAAAAAAAAAAAAAAAAAAAAA";
    let salt = "AAAAAAAAAAAAAAAAAAAAAA";
    let malformed = vec![
        stanza("X25519", &[], vec![0; 32]),
        stanza("X25519", &[share, share], vec![0; 32]),
        stanza("X25519", &[&share[..42]], vec![0; 32]),
        stanza("X25519", &[salt], vec![0; 32]),
        stanza("X25519", &["not*base64"], vec![0; 32]),
        stanza("X25519", &[share], vec![0; 31]),
        stanza("X25519", &[share], vec![0; 33]),
        stanza("scrypt", &[salt], vec![0; 32]),
        stanza("scrypt", &[salt, "10", "10"], vec![0; 32]),
        stanza("scrypt", &[share, "10"], vec![0; 32]),
        stanza("scrypt", &[salt, "0"], vec![0; 32]),
        stanza("scrypt", &[salt, "010"], vec![0; 32]),
        stanza("scrypt", &[salt, "23"], vec![0; 32]),
        stanza("scrypt", &[salt, "100"], vec![0; 32]),
        stanza("scrypt", &[salt, "ten"], vec![0; 32]),
        stanza("scrypt", &[salt, "10"], vec![0; 16]),
    ];
    for bad in malformed {
        assert!(WrappedKey::from_stanza(&bad).is_err());
        let message = with_stanzas(vec![bad]);
        assert_eq!(decryptor.trial_decrypt(&message), Err(Error::MalformedStanza));
    }
    // In shape, though nobody can open them.
    for good in [
        stanza("X25519", &[share], vec![0; 32]),
        stanza("scrypt", &[salt, "1"], vec![0; 32]),
        stanza("x25519", &[], vec![]),
        stanza("ssh-rsa", &["a", "b", "c"], vec![1; 300]),
    ] {
        assert!(WrappedKey::from_stanza(&good).is_ok());
        let message = with_stanzas(vec![good]);
        assert_eq!(decryptor.trial_decrypt(&message), Err(Error::NoMatchingIdentity));
    }
}

#[test]
fn unknown_stanzas_are_passed_over() {
    let file_key = FileKey::from_bytes([4u8; 16]);
    let wrapped = x25519::wrap(&secret_key(7).to_public(), &file_key, &secret_key(9));
    let message = with_stanzas(vec![
        stanza("future", &["kind", "of", "stanza"], vec![1, 2, 3]),
        wrapped,
        stanza("another", &[], vec![]),
    ]);
    let decryptor = Decryptor::with_identities(vec![Identity::SecretKey(secret_key(7))]);
    assert_eq!(decryptor.trial_decrypt(&message), Ok(b"payload".to_vec()));
    // Only stanzas that nobody knows.
    let message = with_stanzas(vec![stanza("future", &["kind"], vec![1, 2, 3])]);
    assert_eq!(decryptor.trial_decrypt(&message), Err(Error::NoMatchingIdentity));
    let message = with_stanzas(vec![]);
    assert_eq!(decryptor.trial_decrypt(&message), Err(Error::NoMatchingIdentity));
}

#[test]
fn header_code_that_does_not_fit() {
    let message = message_for_key_7();
    let (header, next) = Header::read_prefix(&message).unwrap();
    let decryptor = Decryptor::with_identities(vec![Identity::SecretKey(secret_key(7))]);
    // Another code.
    let mut other = Header { stanzas: header.stanzas, mac: header.mac.clone() };
    other.mac[0] ^= 1;
    let mut altered = other.write();
    altered.extend_from_slice(&message[next..]);
    assert_eq!(decryptor.trial_decrypt(&altered), Err(Error::HeaderMacMismatch));
    // One more stanza under the old code.
    other.mac[0] ^= 1;
    other.stanzas.push(stanza("more", &[], vec![]));
    let mut altered = other.write();
    altered.extend_from_slice(&message[next..]);
    assert_eq!(decryptor.trial_decrypt(&altered), Err(Error::HeaderMacMismatch));
}

#[test]
fn altered_message_is_never_decrypted() {
    let message = message_for_key_7();
    let (_, next) = Header::read_prefix(&message).unwrap();
    let decryptor = Decryptor::with_identities(vec![Identity::SecretKey(secret_key(7))]);
    for at in 0..message.len() {
        for bit in [0u8, 2, 5, 7] {
            let mut altered = message.clone();
            altered[at] ^= 1 << bit;
            let result = decryptor.trial_decrypt(&altered);
            assert!(result.is_err());
            if at >= next {
                assert_eq!(result, Err(Error::DecryptionFailed));
            } else {
                assert!(matches!(
                    result,
                    Err(Error::HeaderParseError)
                        | Err(Error::HeaderMacMismatch)
                        | Err(Error::NoMatchingIdentity)
                        | Err(Error::MalformedStanza)
                ));
            }
        }
    }
}

#[test]
fn message_without_its_last_chunk_is_refused() {
    let plaintext: Vec<u8> = vec![0x5a; 65536 + 1];
    let encryptor =
        Encryptor::with_recipients(vec![Recipient::PublicKey(secret_key(7).to_public())]).unwrap();
    let message =
        encryptor.wrap_with_entropy(&plaintext, Format::Binary, &random_like(48, 1)).unwrap();
    let (_, next) = Header::read_prefix(&message).unwrap();
    let decryptor = Decryptor::with_identities(vec![Identity::SecretKey(secret_key(7))]);
    assert_eq!(decryptor.trial_decrypt(&message[..next + 65552]), Err(Error::StreamTruncated));
    assert_eq!(decryptor.trial_decrypt(&message[..next]), Err(Error::StreamTruncated));
    assert_eq!(decryptor.trial_decrypt(&message), Ok(plaintext));
}

#[test]
fn armored_round_trip() {
    let encryptor =
        Encryptor::with_recipients(vec![Recipient::PublicKey(secret_key(7).to_public())]).unwrap();
    let armored =
        encryptor.wrap_with_entropy(b"Hello world!", Format::AsciiArmor, &random_like(48, 1)).unwrap();
    assert!(armored.starts_with(b"-----BEGIN AGE ENCRYPTED FILE-----\n"));
    assert!(armored.ends_with(b"-----END AGE ENCRYPTED FILE-----\n"));
    assert_eq!(age::armor::dearmor(&armored), Some(message_for_key_7()));
    let decryptor = Decryptor::with_identities(vec![Identity::SecretKey(secret_key(7))]);
    assert_eq!(decryptor.trial_decrypt(&armored), Ok(b"Hello world!".to_vec()));
    // The armor is no part of the binary format.
    assert_eq!(decryptor.decrypt(&armored), Err(Error::HeaderParseError));
    // Armor that is out of shape.
    let mut altered = armored.clone();
    let at = altered.len() - 40;
    altered.insert(at, b'\n');
    assert_eq!(decryptor.trial_decrypt(&altered), Err(Error::HeaderParseError));
    assert_eq!(
        decryptor.trial_decrypt(&armored[..armored.len() - 1]),
        Err(Error::HeaderParseError)
    );
    let random = encryptor.wrap_output(b"Hello world!", Format::AsciiArmor).unwrap();
    assert_eq!(decryptor.trial_decrypt(&random), Ok(b"Hello world!".to_vec()));
}

#[test]
fn message_written_and_read_piece_by_piece() {
    let plaintext: Vec<u8> = (0..150_000usize).map(|i| (i % 199) as u8).collect();
    let encryptor =
        Encryptor::with_recipients(vec![Recipient::PublicKey(secret_key(7).to_public())]).unwrap();
    let whole =
        encryptor.wrap_with_entropy(&plaintext, Format::Binary, &random_like(48, 1)).unwrap();
    let (mut message, mut writer) =
        encryptor.start_output_with_entropy(&random_like(48, 1)).unwrap();
    for part in plaintext.chunks(7000) {
        message.extend(writer.write(part));
    }
    message.extend(writer.finish());
    assert_eq!(message, whole);

    let decryptor = Decryptor::with_identities(vec![Identity::SecretKey(secret_key(7))]);
    let (file_key, next) = match decryptor.open_header(&message) {
        Ok(v) => v,
        Err(e) => panic!("refused: {:?}", e),
    };
    let mut reader = StreamReader::new(&file_key);
    let mut read = Vec::new();
    for chunk in message[next..].chunks(65552) {
        read.extend(reader.read_chunk(chunk).unwrap());
    }
    assert_eq!(reader.read_chunk(b""), Ok(vec![]));
    assert_eq!(read, plaintext);

    let (header, mut writer) = encryptor.start_output().unwrap();
    let mut random = header;
    random.extend(writer.write(b"abc"));
    random.extend(writer.finish());
    assert_eq!(decryptor.trial_decrypt(&random), Ok(b"abc".to_vec()));
}

#[test]
fn open_header_refuses_as_decryption_does() {
    let message = message_for_key_7();
    let wrong = Decryptor::with_identities(vec![Identity::SecretKey(secret_key(8))]);
    assert_eq!(wrong.open_header(&message).err(), Some(Error::NoMatchingIdentity));
    assert_eq!(wrong.open_header(b"junk").err(), Some(Error::HeaderParseError));
}

#[test]
fn default_work_factor_is_18() {
    assert_eq!(age::format::scrypt::DEFAULT_WORK_FACTOR, 18);
    assert_eq!(age::format::scrypt::MAX_WORK_FACTOR, 22);
    let encryptor = Encryptor::with_passphrase(passphrase("p"));
    assert_eq!(encryptor.work_factor(), 18);
    let encryptor =
        Encryptor::with_recipients(vec![Recipient::PublicKey(secret_key(1).to_public())]).unwrap();
    assert_eq!(encryptor.work_factor(), 18);
    assert_eq!(encryptor.with_work_factor(9).unwrap().work_factor(), 9);
}

#[test]
fn entropy_for_the_file_key_and_for_every_recipient() {
    let one =
        Encryptor::with_recipients(vec![Recipient::PublicKey(secret_key(1).to_public())]).unwrap();
    assert_eq!(one.entropy_len(), Some(48));
    let three = Encryptor::with_recipients(vec![
        Recipient::PublicKey(secret_key(1).to_public()),
        Recipient::Passphrase(passphrase("words")),
        Recipient::PublicKey(secret_key(2).to_public()),
    ])
    .unwrap()
    .with_work_factor(2)
    .unwrap();
    assert_eq!(three.entropy_len(), Some(112));
    // Exactly that many bytes are enough, and one byte less is not.
    assert!(three.wrap_with_entropy(b"x", Format::Binary, &random_like(112, 0)).is_ok());
    assert_eq!(
        three.wrap_with_entropy(b"x", Format::Binary, &random_like(111, 0)),
        Err(Error::RandomSource)
    );
    assert_eq!(Encryptor::with_passphrase(passphrase("p")).entropy_len(), Some(48));
}
