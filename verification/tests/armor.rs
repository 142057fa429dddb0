use age::armor::{armor, dearmor};

#[test]
fn armor_known_text() {
    assert_eq!(
        armor(b"foobar"),
        b"-----BEGIN AGE ENCRYPTED FILE-----\nZm9vYmFy\n-----END AGE ENCRYPTED FILE-----\n".to_vec()
    );
    assert_eq!(
        armor(b"f"),
        b"-----BEGIN AGE ENCRYPTED FILE-----\nZg==\n-----END AGE ENCRYPTED FILE-----\n".to_vec()
    );
    assert_eq!(
        armor(b"fo"),
        b"-----BEGIN AGE ENCRYPTED FILE-----\nZm8=\n-----END AGE ENCRYPTED FILE-----\n".to_vec()
    );
    assert_eq!(
        armor(b""),
        b"-----BEGIN AGE ENCRYPTED FILE-----\n-----END AGE ENCRYPTED FILE-----\n".to_vec()
    );
}

#[test]
fn armor_lines_have_64_columns() {
    let text = String::from_utf8(armor(&[0u8; 100])).unwrap();
    let lines: Vec<&str> = text.split('\n').collect();
    assert_eq!(lines[0], "-----BEGIN AGE ENCRYPTED FILE-----");
    assert_eq!(lines[1].len(), 64);
    assert_eq!(lines[2].len(), 64);
    assert_eq!(lines[3], "AAAAAA==");
    assert_eq!(lines[4], "-----END AGE ENCRYPTED FILE-----");
    assert_eq!(lines[5], "");
    // 48 bytes fill one line exactly: no empty line follows it.
    let text = String::from_utf8(armor(&[0u8; 48])).unwrap();
    assert_eq!(text.split('\n').count(), 4);
}

#[test]
fn armor_round_trip() {
    let all: Vec<u8> = (0..=255u8).cycle().take(1000).collect();
    for len in [0usize, 1, 2, 3, 47, 48, 49, 95, 96, 97, 1000] {
        let data = &all[..len];
        assert_eq!(dearmor(&armor(data)), Some(data.to_vec()));
    }
}

#[test]
fn dearmor_refuses_other_text() {
    let good = String::from_utf8(armor(b"some message of some length, longer than a line is")).unwrap();
    assert!(dearmor(good.as_bytes()).is_some());
    assert_eq!(dearmor(b""), None);
    assert_eq!(dearmor(b"age-encryption.org/v1\n"), None);
    assert_eq!(dearmor(good.replace("BEGIN", "BEGAN").as_bytes()), None);
    assert_eq!(dearmor(good.replace("END AGE", "END").as_bytes()), None);
    assert_eq!(dearmor(good.replace("\n", "\r\n").as_bytes()), None);
    assert_eq!(dearmor(good.replace("=\n", "\n").as_bytes()), None);
    assert_eq!(dearmor(good.replace("=\n", "==\n").as_bytes()), None);
    assert_eq!(dearmor(format!("{}\n", good).as_bytes()), None);
    assert_eq!(dearmor(format!("\n{}", good).as_bytes()), None);
    assert_eq!(dearmor(good.replacen("\n", "\n\n", 1).as_bytes()), None);
    assert_eq!(dearmor(&good.as_bytes()[..good.len() - 1]), None);
    // A line break in another place.
    let moved = good.replacen("c29tZSBt", "c29tZ\nSBt", 1);
    assert_ne!(moved, good);
    assert_eq!(dearmor(moved.as_bytes()), None);
}
