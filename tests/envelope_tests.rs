use xenon_vault::envelope::{
    decrypt, decrypt_full, derive_password_no_salt, derive_password_salt, encrypt_full, encrypt_key,
    encrypt_no_key, hash, verify_hash, VaultError,
};
use xenon_vault::text::{back_to_vec, to_byte_list_text};

#[test]
fn round_trip_same_password() {
    let g = encrypt_full("example.com", "master-pw").unwrap();
    assert_eq!(decrypt_full(&g, "master-pw").unwrap(), "example.com");
}

#[test]
fn round_trip_empty_and_unicode() {
    let g = encrypt_full("", "pw").unwrap();
    assert_eq!(decrypt_full(&g, "pw").unwrap(), "");
    let g = encrypt_full("naïve – ☃ notes", "pw").unwrap();
    assert_eq!(decrypt_full(&g, "pw").unwrap(), "naïve – ☃ notes");
}

#[test]
fn wrong_password_is_reported() {
    let g = encrypt_full("secret value", "right").unwrap();
    assert_eq!(decrypt_full(&g, "wrong"), Err(VaultError::WrongPassword));
}

#[test]
fn flipped_bit_is_integrity_failure() {
    let g = encrypt_full("hello", "pw").unwrap();
    for bit in 0..8u8 {
        let mut t = g.clone();
        t.encryption[0] ^= 1 << bit;
        assert_eq!(decrypt_full(&t, "pw"), Err(VaultError::IntegrityFailure));
        let last = t.encryption.len() - 1;
        let mut t = g.clone();
        t.encryption[last] ^= 1 << bit;
        assert_eq!(decrypt_full(&t, "pw"), Err(VaultError::IntegrityFailure));
    }
}

#[test]
fn tampered_digest_is_integrity_failure() {
    let mut g = encrypt_full("hello", "pw").unwrap();
    g.hash = "00".to_string();
    assert_eq!(decrypt_full(&g, "pw"), Err(VaultError::IntegrityFailure));
}

#[test]
fn tampered_wrapped_key_is_wrong_password() {
    let mut g = encrypt_full("hello", "pw").unwrap();
    g.ekey[0] ^= 1;
    assert_eq!(decrypt_full(&g, "pw"), Err(VaultError::WrongPassword));
}

#[test]
fn bad_salt_is_crypto_failure() {
    let mut g = encrypt_full("hello", "pw").unwrap();
    g.dsalt = "!".to_string();
    assert_eq!(decrypt_full(&g, "pw"), Err(VaultError::CryptoFailure));
    assert_eq!(derive_password_salt("pw", "!"), Err(VaultError::CryptoFailure));
}

#[test]
fn envelope_shape() {
    let g = encrypt_full("abc", "pw").unwrap();
    assert_eq!(g.nonce.len(), 12);
    assert_eq!(g.enonce.len(), 12);
    assert!(g.nonce.chars().all(|c| c.is_ascii_alphanumeric()));
    assert_eq!(g.hash, hash(&g.encryption));
    assert_ne!(g.encryption, b"abc".to_vec());
    assert_eq!(g.encryption.len(), 3 + 16);
    assert_eq!(g.ekey.len(), 32 + 16);
}

#[test]
fn fresh_randomness_per_envelope() {
    let a = encrypt_full("same", "pw").unwrap();
    let b = encrypt_full("same", "pw").unwrap();
    assert_ne!(a.encryption, b.encryption);
    assert_ne!(a.dsalt, b.dsalt);
}

#[test]
fn derived_key_is_deterministic() {
    let (k, salt) = derive_password_no_salt("pw").unwrap();
    assert_eq!(k.len(), 32);
    assert_eq!(derive_password_salt("pw", &salt).unwrap(), k);
    assert_ne!(derive_password_salt("other", &salt).unwrap(), k);
    assert!(!k.contains('$'));
}

#[test]
fn field_key_layers() {
    let (nonce, sealed, key) = encrypt_no_key("data").unwrap();
    assert_eq!(key.len(), 32);
    assert_eq!(nonce.len(), 12);
    let opened = decrypt(&sealed, key.as_bytes(), nonce.as_bytes()).unwrap();
    assert_eq!(opened, b"data".to_vec());
    let (n2, s2) = encrypt_key("inner", &key).unwrap();
    assert_eq!(decrypt(&s2, key.as_bytes(), n2.as_bytes()).unwrap(), b"inner".to_vec());
}

#[test]
fn key_and_nonce_lengths_are_checked() {
    assert_eq!(encrypt_key("x", "short"), Err(VaultError::CryptoFailure));
    assert_eq!(decrypt(b"abc", b"short", b"123456789012"), Err(VaultError::CryptoFailure));
    assert_eq!(decrypt(b"abc", &[0u8; 32], b"123"), Err(VaultError::CryptoFailure));
    assert_eq!(decrypt(b"abcdefghijklmnopqrst", &[0u8; 32], b"123456789012"), Err(VaultError::WrongPassword));
}

#[test]
fn blake3_hex_digest() {
    assert_eq!(hash(b""), "af1349b9f5f9a1a6a0404dea36dcc9499bcb25c9adc112b7cc9a93cae41f3262");
    assert!(verify_hash(b"", &"af1349b9f5f9a1a6a0404dea36dcc9499bcb25c9adc112b7cc9a93cae41f3262".to_string()));
    assert!(!verify_hash(b"x", &"af1349b9f5f9a1a6a0404dea36dcc9499bcb25c9adc112b7cc9a93cae41f3262".to_string()));
}

#[test]
fn byte_list_text() {
    assert_eq!(back_to_vec("[104, 105]"), Some(vec![104, 105]));
    assert_eq!(back_to_vec("[0]"), Some(vec![0]));
    assert_eq!(back_to_vec("[255, 0, 17]"), Some(vec![255, 0, 17]));
    assert_eq!(back_to_vec("[]"), Some(vec![]));
    assert_eq!(back_to_vec(&format!("{:?}", vec![1u8, 22, 250])), Some(vec![1, 22, 250]));
}

#[test]
fn byte_list_text_rejects() {
    assert_eq!(back_to_vec("[256]"), None);
    assert_eq!(back_to_vec("[1,2]"), None);
    assert_eq!(back_to_vec("1, 2"), None);
    assert_eq!(back_to_vec("[1, 2, ]"), None);
    assert_eq!(back_to_vec("[, 1]"), None);
    assert_eq!(back_to_vec("[a]"), None);
    assert_eq!(back_to_vec("["), None);
    assert_eq!(back_to_vec(""), None);
}

#[test]
fn byte_list_printing() {
    assert_eq!(to_byte_list_text(&[]), "[]");
    assert_eq!(to_byte_list_text(&[7]), "[7]");
    assert_eq!(to_byte_list_text(&[0, 10, 99, 100, 255]), "[0, 10, 99, 100, 255]");
    let all: Vec<u8> = (0..=255).collect();
    assert_eq!(to_byte_list_text(&all), format!("{:?}", all));
    assert_eq!(back_to_vec(&to_byte_list_text(&all)), Some(all));
}
