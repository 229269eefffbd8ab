use shadowenv::container::decode_container;
use shadowenv::container::encode_container;
use shadowenv::container::Container;
use shadowenv::error::ShadowError;

fn sample_nonce() -> [u8; 24] {
    let mut nonce = [0u8; 24];
    for i in 0..24 {
        nonce[i] = 100 + i as u8;
    }
    nonce
}

fn sample_bytes() -> Vec<u8> {
    let mut bytes = b"SHADOW".to_vec();
    bytes.extend_from_slice(&[8, 0, 0, 0]);
    bytes.extend_from_slice(b"saltsalt");
    bytes.extend_from_slice(&sample_nonce());
    bytes.extend_from_slice(&[1, 2, 3]);
    bytes
}

#[test]
fn encode_lays_out_marker_length_salt_nonce_ciphertext() {
    let bytes = encode_container(b"saltsalt", &sample_nonce(), &[1, 2, 3]);
    assert_eq!(bytes, sample_bytes());
    assert_eq!(bytes.len(), 6 + 4 + 8 + 24 + 3);
}

#[test]
fn encode_writes_the_salt_length_little_endian() {
    let salt = vec![b'a'; 300];
    let bytes = encode_container(&salt, &sample_nonce(), &[]);
    assert_eq!(&bytes[6..10], &[0x2c, 0x01, 0x00, 0x00]);
    let salt = vec![b'a'; 70000];
    let bytes = encode_container(&salt, &sample_nonce(), &[]);
    assert_eq!(&bytes[6..10], &[0x70, 0x11, 0x01, 0x00]);
}

#[test]
fn encode_of_empty_salt_and_ciphertext() {
    let bytes = encode_container(&[], &sample_nonce(), &[]);
    let mut expected = b"SHADOW".to_vec();
    expected.extend_from_slice(&[0, 0, 0, 0]);
    expected.extend_from_slice(&sample_nonce());
    assert_eq!(bytes, expected);
}

#[test]
fn decode_takes_the_fields_apart() {
    let container = decode_container(&sample_bytes()).unwrap();
    assert_eq!(
        container,
        Container { salt: b"saltsalt".to_vec(), nonce: sample_nonce(), ciphertext: vec![1, 2, 3] }
    );
}

#[test]
fn decode_undoes_encode() {
    let salt = b"0123456789abcdefghijkl".to_vec();
    let ciphertext: Vec<u8> = (0..1000u32).map(|i| (i % 251) as u8).collect();
    let bytes = encode_container(&salt, &sample_nonce(), &ciphertext);
    let container = decode_container(&bytes).unwrap();
    assert_eq!(container.salt, salt);
    assert_eq!(container.nonce, sample_nonce());
    assert_eq!(container.ciphertext, ciphertext);
}

#[test]
fn encode_undoes_decode() {
    let bytes = sample_bytes();
    let container = decode_container(&bytes).unwrap();
    assert_eq!(encode_container(&container.salt, &container.nonce, &container.ciphertext), bytes);
}

#[test]
fn decode_accepts_an_empty_ciphertext() {
    let mut bytes = sample_bytes();
    bytes.truncate(6 + 4 + 8 + 24);
    let container = decode_container(&bytes).unwrap();
    assert_eq!(container.ciphertext, Vec::<u8>::new());
}

#[test]
fn decode_refuses_input_shorter_than_the_marker() {
    assert_eq!(decode_container(&[]), Err(ShadowError::Format));
    assert_eq!(decode_container(b"SHADO"), Err(ShadowError::Format));
}

#[test]
fn decode_refuses_a_wrong_marker() {
    let mut bytes = sample_bytes();
    bytes[0] = b's';
    assert_eq!(decode_container(&bytes), Err(ShadowError::Format));
    let mut bytes = sample_bytes();
    bytes[5] = b'X';
    assert_eq!(decode_container(&bytes), Err(ShadowError::Format));
    assert_eq!(decode_container(b"not a container at all, just some text"), Err(ShadowError::Format));
}

#[test]
fn decode_refuses_a_cut_length_field() {
    assert_eq!(decode_container(b"SHADOW"), Err(ShadowError::Format));
    assert_eq!(decode_container(b"SHADOW\x08\x00\x00"), Err(ShadowError::Format));
}

#[test]
fn decode_refuses_a_salt_length_beyond_the_input() {
    let mut bytes = sample_bytes();
    bytes[6] = 200;
    assert_eq!(decode_container(&bytes), Err(ShadowError::Format));
    let mut bytes = sample_bytes();
    bytes[9] = 0xff;
    assert_eq!(decode_container(&bytes), Err(ShadowError::Format));
    let mut bytes = b"SHADOW".to_vec();
    bytes.extend_from_slice(&[5, 0, 0, 0]);
    bytes.extend_from_slice(b"abcd");
    assert_eq!(decode_container(&bytes), Err(ShadowError::Format));
}

#[test]
fn decode_refuses_a_cut_nonce() {
    let mut bytes = sample_bytes();
    bytes.truncate(6 + 4 + 8 + 23);
    assert_eq!(decode_container(&bytes), Err(ShadowError::Format));
    bytes.truncate(6 + 4 + 8);
    assert_eq!(decode_container(&bytes), Err(ShadowError::Format));
}

#[test]
fn containers_with_different_fields_differ() {
    let a = encode_container(b"saltsalt", &sample_nonce(), &[1, 2, 3]);
    let b = encode_container(b"saltsalu", &sample_nonce(), &[1, 2, 3]);
    let mut other = sample_nonce();
    other[23] ^= 1;
    let c = encode_container(b"saltsalt", &other, &[1, 2, 3]);
    let d = encode_container(b"saltsalt", &sample_nonce(), &[1, 2, 4]);
    assert_ne!(a, b);
    assert_ne!(a, c);
    assert_ne!(a, d);
}
