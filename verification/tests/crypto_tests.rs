use rusty_vault::crypto::{init_crypto, Encryption, SecretKey};

fn key_of(byte: u8) -> SecretKey {
    SecretKey::from_bytes(vec![byte; 32]).expect("32 bytes make a key")
}

#[test]
fn encrypt_decrypt_round_trip() {
    init_crypto();
    let key = key_of(7);
    let payload = b"a secret payload".to_vec();
    let blob = Encryption::encrypt(&payload, &key);
    let back = Encryption::decrypt(&blob, &key).expect("own blob must decrypt");
    assert_eq!(back, payload);
}

#[test]
fn encrypt_empty_payload_round_trip() {
    init_crypto();
    let key = key_of(9);
    let payload: Vec<u8> = Vec::new();
    let blob = Encryption::encrypt(&payload, &key);
    assert_eq!(blob.len(), 24 + 16);
    let back = Encryption::decrypt(&blob, &key).expect("own blob must decrypt");
    assert_eq!(back, payload);
}

#[test]
fn two_encryptions_differ_but_both_decrypt() {
    init_crypto();
    let key = SecretKey::generate();
    let payload = b"same payload".to_vec();
    let blob1 = Encryption::encrypt(&payload, &key);
    let blob2 = Encryption::encrypt(&payload, &key);
    assert_ne!(blob1, blob2);
    assert_eq!(Encryption::decrypt(&blob1, &key).unwrap(), payload);
    assert_eq!(Encryption::decrypt(&blob2, &key).unwrap(), payload);
}

#[test]
fn wrong_key_never_decrypts() {
    init_crypto();
    let k1 = key_of(1);
    let k2 = key_of(2);
    let payload = b"for key one only".to_vec();
    let blob = Encryption::encrypt(&payload, &k1);
    assert!(Encryption::decrypt(&blob, &k2).is_none());
}

#[test]
fn short_blob_never_decrypts() {
    init_crypto();
    let key = key_of(3);
    for len in 0..24usize {
        let blob = vec![0u8; len];
        assert!(Encryption::decrypt(&blob, &key).is_none());
    }
}

#[test]
fn corrupted_blob_never_decrypts() {
    init_crypto();
    let key = key_of(4);
    let payload = b"integrity matters".to_vec();
    let blob = Encryption::encrypt(&payload, &key);
    for i in 0..blob.len() {
        let mut tampered = blob.clone();
        tampered[i] ^= 0x01;
        assert!(Encryption::decrypt(&tampered, &key).is_none());
    }
}

#[test]
fn key_from_bytes_demands_exact_length() {
    assert!(SecretKey::from_bytes(vec![0u8; 31]).is_none());
    assert!(SecretKey::from_bytes(vec![0u8; 33]).is_none());
    assert!(SecretKey::from_bytes(Vec::new()).is_none());
    let k = SecretKey::from_bytes(vec![5u8; 32]).unwrap();
    assert_eq!(k.as_bytes().as_slice(), &[5u8; 32][..]);
}

#[test]
fn generated_keys_are_well_formed_and_differ() {
    init_crypto();
    let k1 = SecretKey::generate();
    let k2 = SecretKey::generate();
    assert_eq!(k1.as_bytes().len(), 32);
    assert_eq!(k2.as_bytes().len(), 32);
    assert_ne!(k1.as_bytes(), k2.as_bytes());
}
