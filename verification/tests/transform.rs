use xor_utils::{xor, xor_noting_reuse, Xor, XorError, XorStream};

#[test]
fn xor_works() {
    // Data is twice as long as the key.
    let data: Vec<u8> = vec![
        0b11111111u8,
        0b11111111u8,
        0b00001111u8,
        0b10101010u8,
        0b11111111u8,
        0b11111111u8,
        0b00001111u8,
        0b10101010u8,
    ];
    let key: Vec<u8> = vec![0b11111111u8, 0b00000000u8, 0b11110000u8, 0b01010101u8];

    let reader = data;

    let cipher = reader.xor(&key).unwrap();

    assert_eq!(0b00000000u8, cipher[0]);
    assert_eq!(0b11111111u8, cipher[1]);
    assert_eq!(0b11111111u8, cipher[2]);
    assert_eq!(0b11111111u8, cipher[3]);
    assert_eq!(0b00000000u8, cipher[4]);
    assert_eq!(0b11111111u8, cipher[5]);
    assert_eq!(0b11111111u8, cipher[6]);
    assert_eq!(0b11111111u8, cipher[7]);
}

#[test]
fn xor_round_trip_gives_the_input_back() {
    let plain = b"Attack at dawn, and bring the good coffee.".to_vec();
    let key = b"ICE".to_vec();
    let cipher = xor(&plain, &key).unwrap();
    assert_ne!(cipher, plain);
    assert_eq!(xor(&cipher, &key).unwrap(), plain);
}

#[test]
fn xor_keeps_the_length_for_every_key_length() {
    let data: Vec<u8> = (0..=255u8).collect();
    for key_len in 1..=300usize {
        let key: Vec<u8> = (0..key_len).map(|i| (i * 7 + 3) as u8).collect();
        assert_eq!(xor(&data, &key).unwrap().len(), data.len());
    }
}

#[test]
fn xor_refuses_an_empty_key() {
    assert_eq!(xor(&[1, 2, 3], &[]), Err(XorError::InvalidKey));
    assert_eq!(xor(&[], &[]), Err(XorError::InvalidKey));
    assert_eq!([1u8, 2, 3].xor(&[]), Err(XorError::InvalidKey));
    assert!(XorStream::new(&[]).is_err());
}

#[test]
fn xor_of_empty_data_is_empty() {
    assert_eq!(xor(&[], &[9]), Ok(Vec::new()));
}

#[test]
fn xor_known_vector() {
    // "Burning 'em" under "ICE".
    let cipher = xor(b"Burning 'em", b"ICE").unwrap();
    assert_eq!(
        cipher,
        vec![0x0b, 0x36, 0x37, 0x27, 0x2a, 0x2b, 0x2e, 0x63, 0x62, 0x2c, 0x2e]
    );
}

#[test]
fn xor_on_slices_and_vectors_agree() {
    let data = vec![1u8, 2, 3, 4, 5];
    let key = [0x10u8, 0x20];
    let from_fn = xor(&data, &key).unwrap();
    assert_eq!(from_fn, vec![0x11, 0x22, 0x13, 0x24, 0x15]);
    assert_eq!(data.xor(&key).unwrap(), from_fn);
    assert_eq!(data.as_slice().xor(&key).unwrap(), from_fn);
}

#[test]
fn stream_in_chunks_equals_whole() {
    let data: Vec<u8> = (0..2500u32).map(|i| (i % 251) as u8).collect();
    let key = b"secret".to_vec();
    let whole = xor(&data, &key).unwrap();

    let mut stream = XorStream::new(&key).unwrap();
    let mut out = Vec::new();
    for chunk in data.chunks(1024) {
        stream.update(chunk, &mut out);
    }
    assert_eq!(out, whole);
}

#[test]
fn stream_reports_key_reuse_once_the_key_is_outgrown() {
    let mut stream = XorStream::new(b"abc").unwrap();
    let mut out = Vec::new();
    assert!(!stream.key_reused());
    stream.update(b"xy", &mut out);
    assert!(!stream.key_reused());
    stream.update(b"z", &mut out);
    // The key has been used up exactly once: nothing was reused yet.
    assert!(!stream.key_reused());
    stream.update(b"w", &mut out);
    assert!(stream.key_reused());
    stream.update(b"more and more", &mut out);
    assert!(stream.key_reused());
    assert_eq!(out.len(), 17);
}

#[test]
fn stream_update_appends_to_what_is_there() {
    let mut stream = XorStream::new(&[0xFF]).unwrap();
    let mut out = vec![7u8];
    stream.update(&[0x0F, 0xF0], &mut out);
    assert_eq!(out, vec![7, 0xF0, 0x0F]);
}

#[test]
fn reuse_is_noted_when_the_data_is_longer_than_the_key() {
    assert_eq!(xor_noting_reuse(b"ab", b"key"), Ok((vec![b'a' ^ b'k', b'b' ^ b'e'], false)));
    assert_eq!(xor_noting_reuse(b"abc", b"key").unwrap().1, false);
    assert_eq!(xor_noting_reuse(b"abcd", b"key").unwrap().1, true);
    assert_eq!(xor_noting_reuse(b"", b"key"), Ok((Vec::new(), false)));
    assert_eq!(xor_noting_reuse(b"abcd", b""), Err(XorError::InvalidKey));
    let long = vec![0u8; 5000];
    let (out, reused) = xor_noting_reuse(&long, b"key").unwrap();
    assert!(reused);
    assert_eq!(out, xor(&long, b"key").unwrap());
}
