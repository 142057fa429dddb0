use age::base64::{decode, encode, is_alphabet_char};

#[test]
fn base64_known_encodings() {
    assert_eq!(encode(b""), b"".to_vec());
    assert_eq!(encode(b"f"), b"Zg".to_vec());
    assert_eq!(encode(b"fo"), b"Zm8".to_vec());
    assert_eq!(encode(b"foo"), b"Zm9v".to_vec());
    assert_eq!(encode(b"foob"), b"Zm9vYg".to_vec());
    assert_eq!(encode(b"fooba"), b"Zm9vYmE".to_vec());
    assert_eq!(encode(b"foobar"), b"Zm9vYmFy".to_vec());
    assert_eq!(encode(&[0xfb, 0xff, 0xbf]), b"+/+/".to_vec());
}

#[test]
fn base64_known_decodings() {
    assert_eq!(decode(b""), Some(b"".to_vec()));
    assert_eq!(decode(b"Zg"), Some(b"f".to_vec()));
    assert_eq!(decode(b"Zm8"), Some(b"fo".to_vec()));
    assert_eq!(decode(b"Zm9v"), Some(b"foo".to_vec()));
    assert_eq!(decode(b"Zm9vYmFy"), Some(b"foobar".to_vec()));
    assert_eq!(decode(b"+/+/"), Some(vec![0xfb, 0xff, 0xbf]));
}

#[test]
fn base64_refuses_what_is_not_canonical() {
    // One character cannot hold a byte.
    assert_eq!(decode(b"Z"), None);
    assert_eq!(decode(b"Zm9vY"), None);
    // Padding is no part of the alphabet.
    assert_eq!(decode(b"Zg=="), None);
    assert_eq!(decode(b"Zm8="), None);
    // Unused bits must be zero.
    assert_eq!(decode(b"Zh"), None);
    assert_eq!(decode(b"Zm9"), None);
    // Bytes outside the alphabet.
    assert_eq!(decode(b"Zm9v\n"), None);
    assert_eq!(decode(b"Zm 9"), None);
    assert_eq!(decode(b"Zm-_"), None);
}

#[test]
fn base64_round_trip_of_every_byte_and_length() {
    let all: Vec<u8> = (0..=255u8).collect();
    for len in 0..all.len() {
        let data = &all[..len];
        let text = encode(data);
        assert_eq!(text.len(), (4 * len + 2) / 3);
        assert!(text.iter().all(|c| is_alphabet_char(*c)));
        assert_eq!(decode(&text), Some(data.to_vec()));
    }
    for b in 0..=255u8 {
        assert_eq!(decode(&encode(&[b, !b, b])), Some(vec![b, !b, b]));
    }
}

#[test]
fn base64_text_that_decodes_is_the_encoding() {
    for a in b"AZaz09+/".iter() {
        for b in b"AQgw".iter() {
            let text = vec![*a, *b];
            let data = decode(&text).unwrap();
            assert_eq!(encode(&data), text);
        }
    }
}

#[test]
fn base64_alphabet() {
    let alphabet = b"ABCDEFGHIJKLMNOPQRSTUVWXYZabcdefghijklmnopqrstuvwxyz0123456789+/";
    for c in 0..=255u8 {
        assert_eq!(is_alphabet_char(c), alphabet.contains(&c));
    }
}
