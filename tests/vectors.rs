use rc4::{InvalidKeyError, Rc4};

#[test]
fn test_vector_1() {
    let key = b"Key";
    let plaintext = b"Plaintext";
    let expected_ciphertext: [u8; 9] = [0xBB, 0xF3, 0x16, 0xE8, 0xD9, 0x40, 0xAF, 0x0A, 0xD3];

    let mut rc4 = Rc4::new(key).unwrap();
    let result = rc4.apply(plaintext);
    assert_eq!(result, expected_ciphertext);
}

#[test]
fn test_vector_2() {
    let key = b"Wiki";
    let plaintext = b"pedia";
    let expected_ciphertext: [u8; 5] = [0x10, 0x21, 0xBF, 0x04, 0x20];

    let mut rc4 = Rc4::new(key).unwrap();
    let result = rc4.apply(plaintext);
    assert_eq!(result, expected_ciphertext);
}

#[test]
fn test_symmetry() {
    let key = b"SecretKey";
    let plaintext = b"Hello, World!";

    let mut rc4_enc = Rc4::new(key).unwrap();
    let ciphertext = rc4_enc.apply(plaintext);

    let mut rc4_dec = Rc4::new(key).unwrap();
    let mut decrypted = ciphertext.clone();
    rc4_dec.process(&mut decrypted);

    assert_eq!(plaintext.to_vec(), decrypted);
}

#[test]
fn process_in_place_matches_reference_vector() {
    let mut rc4 = Rc4::new(b"Key").unwrap();
    let mut buf = b"Plaintext".to_vec();
    rc4.process(&mut buf);
    assert_eq!(buf, vec![0xBB, 0xF3, 0x16, 0xE8, 0xD9, 0x40, 0xAF, 0x0A, 0xD3]);
}

#[test]
fn empty_key_is_rejected() {
    assert_eq!(Rc4::new(&[]).err(), Some(InvalidKeyError));
}

#[test]
fn key_of_257_bytes_is_rejected() {
    let key = vec![7u8; 257];
    assert_eq!(Rc4::new(&key).err(), Some(InvalidKeyError));
}

#[test]
fn keys_of_one_and_256_bytes_are_accepted() {
    assert!(Rc4::new(&[0x42]).is_ok());
    let key: Vec<u8> = (0..=255u8).collect();
    assert!(Rc4::new(&key).is_ok());
}

#[test]
fn long_key_round_trip() {
    let key: Vec<u8> = (0..=255u8).rev().collect();
    let plaintext: Vec<u8> = (0..1000u32).map(|x| (x * 31 % 251) as u8).collect();
    let ciphertext = Rc4::new(&key).unwrap().apply(&plaintext);
    assert_ne!(ciphertext, plaintext);
    let recovered = Rc4::new(&key).unwrap().apply(&ciphertext);
    assert_eq!(recovered, plaintext);
}

#[test]
fn empty_input_gives_empty_output() {
    let mut rc4 = Rc4::new(b"Key").unwrap();
    assert!(rc4.apply(&[]).is_empty());
    let mut buf: Vec<u8> = Vec::new();
    rc4.process(&mut buf);
    assert!(buf.is_empty());
    // Nothing was consumed from the keystream.
    assert_eq!(rc4.apply(b"Plaintext"), vec![0xBB, 0xF3, 0x16, 0xE8, 0xD9, 0x40, 0xAF, 0x0A, 0xD3]);
}

#[test]
fn output_length_equals_input_length() {
    let mut rc4 = Rc4::new(b"Wiki").unwrap();
    for n in [1usize, 5, 17, 256, 1024] {
        let data = vec![0xA5u8; n];
        assert_eq!(rc4.apply(&data).len(), n);
    }
}

#[test]
fn two_pieces_equal_one_whole() {
    let message = b"Plaintext";
    let mut whole = Rc4::new(b"Key").unwrap();
    let expected = whole.apply(message);

    let mut pieces = Rc4::new(b"Key").unwrap();
    let mut first = pieces.apply(&message[..4]);
    let second = pieces.apply(&message[4..]);
    first.extend_from_slice(&second);
    assert_eq!(first, expected);

    // Both engines continue from the same keystream position.
    assert_eq!(whole.apply(b"more"), pieces.apply(b"more"));
}

#[test]
fn engines_from_equal_keys_agree() {
    let mut a = Rc4::new(b"SecretKey").unwrap();
    let mut b = Rc4::new(b"SecretKey").unwrap();
    for chunk in [&b"abc"[..], &b""[..], &b"Hello, World!"[..]] {
        assert_eq!(a.apply(chunk), b.apply(chunk));
    }
}

#[test]
fn keystream_continues_across_calls() {
    let mut rc4 = Rc4::new(b"Key").unwrap();
    let first = rc4.apply(b"Plain");
    let second = rc4.apply(b"Plain");
    assert_eq!(first, vec![0xBB, 0xF3, 0x16, 0xE8, 0xD9]);
    assert_ne!(first, second);
}

#[test]
fn zero_plaintext_reveals_keystream() {
    // With key "Key" the first keystream bytes are the ciphertext of
    // "Plaintext" combined with the plaintext itself.
    let mut rc4 = Rc4::new(b"Key").unwrap();
    let ks = rc4.apply(&[0u8; 9]);
    let expected: Vec<u8> = [0xBB, 0xF3, 0x16, 0xE8, 0xD9, 0x40, 0xAF, 0x0A, 0xD3]
        .iter()
        .zip(b"Plaintext".iter())
        .map(|(c, p)| c ^ p)
        .collect();
    assert_eq!(ks, expected);
}
