use age::error::Error;
use age::keys::FileKey;
use age::primitives::stream::{
    decrypt_payload, encrypt_payload, StreamReader, StreamState, StreamWriter,
};
use chacha20poly1305::aead::Aead;
use chacha20poly1305::{ChaCha20Poly1305, Key, KeyInit, Nonce};
use hkdf::Hkdf;
use sha2::Sha256;

fn stream_key() -> FileKey {
    FileKey::from_bytes([0x42; 16])
}

fn payload_key_of(file_key: &[u8]) -> [u8; 32] {
    let mut key = [0u8; 32];
    Hkdf::<Sha256>::new(Some(&[]), file_key).expand(b"payload", &mut key).unwrap();
    key
}

fn seal_directly(key: &[u8; 32], counter: u64, last: bool, chunk: &[u8]) -> Vec<u8> {
    let mut nonce = [0u8; 12];
    nonce[3..11].copy_from_slice(&counter.to_be_bytes());
    nonce[11] = if last { 1 } else { 0 };
    ChaCha20Poly1305::new(Key::from_slice(key)).encrypt(Nonce::from_slice(&nonce), chunk).unwrap()
}

fn pattern(len: usize) -> Vec<u8> {
    (0..len).map(|i| (i % 251) as u8).collect()
}

#[test]
fn empty_message_is_one_empty_final_chunk() {
    let payload = encrypt_payload(&stream_key(), b"");
    assert_eq!(payload.len(), 16);
    assert_eq!(payload, seal_directly(&payload_key_of(&[0x42; 16]), 0, true, b""));
    assert_eq!(decrypt_payload(&stream_key(), &payload), Ok(vec![]));
}

#[test]
fn chunks_are_sealed_under_the_derived_key_and_the_counted_nonce() {
    let key = payload_key_of(&[0x42; 16]);
    let plaintext = pattern(65536 * 2 + 5);
    let payload = encrypt_payload(&stream_key(), &plaintext);
    let mut expected = seal_directly(&key, 0, false, &plaintext[..65536]);
    expected.extend(seal_directly(&key, 1, false, &plaintext[65536..131072]));
    expected.extend(seal_directly(&key, 2, true, &plaintext[131072..]));
    assert_eq!(payload, expected);
    assert_eq!(decrypt_payload(&stream_key(), &payload), Ok(plaintext));
}

#[test]
fn chunk_boundary() {
    let key = payload_key_of(&[0x42; 16]);
    // Exactly one full chunk: a full chunk that is not the last, then an
    // empty last chunk.
    let plaintext = pattern(65536);
    let payload = encrypt_payload(&stream_key(), &plaintext);
    assert_eq!(payload.len(), 65552 + 16);
    assert_eq!(&payload[..65552], &seal_directly(&key, 0, false, &plaintext)[..]);
    assert_eq!(&payload[65552..], &seal_directly(&key, 1, true, b"")[..]);
    assert_eq!(decrypt_payload(&stream_key(), &payload), Ok(plaintext));
    // One byte more: a full chunk, then a last chunk of one byte.
    let plaintext = pattern(65537);
    let payload = encrypt_payload(&stream_key(), &plaintext);
    assert_eq!(payload.len(), 65552 + 17);
    assert_eq!(&payload[65552..], &seal_directly(&key, 1, true, &plaintext[65536..])[..]);
    assert_eq!(decrypt_payload(&stream_key(), &payload), Ok(plaintext));
    // One byte less: one chunk.
    let plaintext = pattern(65535);
    let payload = encrypt_payload(&stream_key(), &plaintext);
    assert_eq!(payload.len(), 65535 + 16);
    assert_eq!(decrypt_payload(&stream_key(), &payload), Ok(plaintext));
}

#[test]
fn payload_length_counts_the_chunks() {
    for len in [0usize, 1, 100, 65535, 65536, 65537, 131071, 131072, 131073] {
        let payload = encrypt_payload(&stream_key(), &pattern(len));
        assert_eq!(payload.len(), len + 16 * (len / 65536 + 1));
    }
}

#[test]
fn truncated_payload_is_refused() {
    let plaintext = pattern(65536 * 2 + 100);
    let payload = encrypt_payload(&stream_key(), &plaintext);
    // Without its last chunk, and without its last two chunks.
    assert_eq!(decrypt_payload(&stream_key(), &payload[..65552 * 2]), Err(Error::StreamTruncated));
    assert_eq!(decrypt_payload(&stream_key(), &payload[..65552]), Err(Error::StreamTruncated));
    assert_eq!(decrypt_payload(&stream_key(), b""), Err(Error::StreamTruncated));
    // Cut inside a chunk: the piece that is left does not open.
    assert_eq!(
        decrypt_payload(&stream_key(), &payload[..65552 + 1000]),
        Err(Error::DecryptionFailed)
    );
    assert_eq!(
        decrypt_payload(&stream_key(), &payload[..payload.len() - 1]),
        Err(Error::DecryptionFailed)
    );
    assert_eq!(decrypt_payload(&stream_key(), &payload[..15]), Err(Error::DecryptionFailed));
}

#[test]
fn altered_payload_is_refused() {
    let plaintext = pattern(300);
    let payload = encrypt_payload(&stream_key(), &plaintext);
    for at in 0..payload.len() {
        for bit in [0u8, 3, 7] {
            let mut altered = payload.clone();
            altered[at] ^= 1 << bit;
            assert_eq!(decrypt_payload(&stream_key(), &altered), Err(Error::DecryptionFailed));
        }
    }
    // Another file key.
    let other = FileKey::from_bytes([0x43; 16]);
    assert_eq!(decrypt_payload(&other, &payload), Err(Error::DecryptionFailed));
    // Something after the last chunk.
    let mut longer = payload.clone();
    longer.push(0);
    assert_eq!(decrypt_payload(&stream_key(), &longer), Err(Error::DecryptionFailed));
}

#[test]
fn chunks_out_of_order_are_refused() {
    let plaintext = pattern(65536 * 2 + 10);
    let payload = encrypt_payload(&stream_key(), &plaintext);
    let mut swapped = payload[65552..131104].to_vec();
    swapped.extend_from_slice(&payload[..65552]);
    swapped.extend_from_slice(&payload[131104..]);
    assert_eq!(decrypt_payload(&stream_key(), &swapped), Err(Error::DecryptionFailed));
    // The first chunk twice.
    let mut twice = payload[..65552].to_vec();
    twice.extend_from_slice(&payload);
    assert_eq!(decrypt_payload(&stream_key(), &twice), Err(Error::DecryptionFailed));
    // Data after a chunk that is marked as the last.
    let small = encrypt_payload(&stream_key(), b"abc");
    let mut two = small.clone();
    two.extend_from_slice(&small);
    assert_eq!(decrypt_payload(&stream_key(), &two), Err(Error::DecryptionFailed));
}

#[test]
fn full_last_chunk_of_another_writer_is_read() {
    // A writer may mark a full chunk as the last. Such a payload is read,
    // and nothing may follow the chunk.
    let key = payload_key_of(&[0x42; 16]);
    let plaintext = pattern(65536);
    let payload = seal_directly(&key, 0, true, &plaintext);
    assert_eq!(decrypt_payload(&stream_key(), &payload), Ok(plaintext.clone()));
    let mut longer = payload.clone();
    longer.extend(seal_directly(&key, 1, true, b""));
    assert_eq!(decrypt_payload(&stream_key(), &longer), Err(Error::DecryptionFailed));
    let mut reader = StreamReader::new(&stream_key());
    assert_eq!(reader.read_chunk(&payload), Ok(plaintext));
    assert_eq!(reader.state(), StreamState::Final);
    assert_eq!(reader.read_chunk(b""), Ok(vec![]));
    assert_eq!(reader.state(), StreamState::Closed);
}

#[test]
fn writer_gives_the_payload_of_what_was_written() {
    let plaintext = pattern(65536 * 3 + 777);
    let whole = encrypt_payload(&stream_key(), &plaintext);
    for piece in [1usize << 20, 65536, 65535, 65537, 40000, 100000] {
        let mut writer = StreamWriter::new(&stream_key());
        let mut out = Vec::new();
        for part in plaintext.chunks(piece) {
            assert!(writer.room_for(part.len()));
            out.extend(writer.write(part));
        }
        out.extend(writer.finish());
        assert_eq!(out, whole);
    }
    // Nothing comes out before a chunk is full.
    let mut writer = StreamWriter::new(&stream_key());
    assert_eq!(writer.write(&pattern(65535)).len(), 0);
    assert_eq!(writer.write(b"").len(), 0);
    assert_eq!(writer.write(b"x").len(), 65552);
    assert_eq!(writer.finish().len(), 16);
}

#[test]
fn reader_gives_the_plaintext_piece_by_piece() {
    let plaintext = pattern(65536 * 2 + 9);
    let payload = encrypt_payload(&stream_key(), &plaintext);
    let mut reader = StreamReader::new(&stream_key());
    assert_eq!(reader.state(), StreamState::Streaming);
    assert_eq!(reader.read_chunk(&payload[..65552]), Ok(plaintext[..65536].to_vec()));
    assert_eq!(reader.state(), StreamState::Streaming);
    assert_eq!(reader.read_chunk(&payload[65552..131104]), Ok(plaintext[65536..131072].to_vec()));
    assert_eq!(reader.state(), StreamState::Streaming);
    assert_eq!(reader.read_chunk(&payload[131104..]), Ok(plaintext[131072..].to_vec()));
    assert_eq!(reader.state(), StreamState::Final);
    assert_eq!(reader.read_chunk(b""), Ok(vec![]));
    assert_eq!(reader.state(), StreamState::Closed);
    assert_eq!(reader.read_chunk(b""), Err(Error::DecryptionFailed));
}

#[test]
fn reader_refuses_and_closes() {
    let plaintext = pattern(65536 + 9);
    let payload = encrypt_payload(&stream_key(), &plaintext);
    // The end of the input before the last chunk.
    let mut reader = StreamReader::new(&stream_key());
    assert!(reader.read_chunk(&payload[..65552]).is_ok());
    assert_eq!(reader.read_chunk(b""), Err(Error::StreamTruncated));
    assert_eq!(reader.state(), StreamState::Closed);
    // A chunk that does not open.
    let mut reader = StreamReader::new(&stream_key());
    assert_eq!(reader.read_chunk(&payload[65552..]), Err(Error::DecryptionFailed));
    assert_eq!(reader.state(), StreamState::Closed);
    assert_eq!(reader.read_chunk(&payload[..65552]), Err(Error::DecryptionFailed));
    // Data after the last chunk.
    let mut reader = StreamReader::new(&stream_key());
    assert!(reader.read_chunk(&payload[..65552]).is_ok());
    assert!(reader.read_chunk(&payload[65552..]).is_ok());
    assert_eq!(reader.read_chunk(b"more"), Err(Error::DecryptionFailed));
    assert_eq!(reader.state(), StreamState::Closed);
    // A piece that is longer than a chunk.
    let mut reader = StreamReader::new(&stream_key());
    assert_eq!(reader.read_chunk(&payload), Err(Error::DecryptionFailed));
    assert_eq!(reader.state(), StreamState::Closed);
}
