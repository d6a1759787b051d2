use s3_client::secret::{decode_encryption_key, decrypt_secret, encode_encryption_key, encrypt_secret, SecretError};

#[test]
fn encrypts_and_decrypts_secret_key() {
    let key = [7u8; 32];
    let nonce = [1u8; 12];
    let secret = "very-secret-access-key";

    let encrypted = encrypt_secret(&key, &nonce, secret).unwrap();
    assert_ne!(encrypted, secret);
    assert_eq!(decrypt_secret(&key, &encrypted).unwrap(), secret);
}

#[test]
fn sealed_text_is_nonce_colon_ciphertext() {
    let key = [0u8; 32];
    let nonce = [0u8; 12];
    let encrypted = encrypt_secret(&key, &nonce, "abc").unwrap();
    let (nonce_part, ciphertext_part) = encrypted.split_once(':').unwrap();
    assert_eq!(nonce_part, "AAAAAAAAAAAAAAAA");
    // 3 plaintext bytes and a 16-byte tag: 19 bytes, 28 Base64 characters.
    assert_eq!(ciphertext_part.len(), 28);
}

#[test]
fn empty_secret_round_trips() {
    let key = [9u8; 32];
    let nonce = [4u8; 12];
    let encrypted = encrypt_secret(&key, &nonce, "").unwrap();
    assert_eq!(decrypt_secret(&key, &encrypted).unwrap(), "");
}

#[test]
fn decrypting_without_separator_is_malformed() {
    let key = [7u8; 32];
    assert!(matches!(decrypt_secret(&key, "no-separator"), Err(SecretError::MalformedCiphertext)));
}

#[test]
fn decrypting_bad_base64_is_an_encoding_error() {
    let key = [7u8; 32];
    assert!(matches!(decrypt_secret(&key, "!!!!:AAAA"), Err(SecretError::Encoding(_))));
}

#[test]
fn decrypting_short_nonce_is_refused() {
    let key = [7u8; 32];
    // "AAAA" decodes to three bytes.
    assert!(matches!(decrypt_secret(&key, "AAAA:AAAA"), Err(SecretError::NonceLength)));
}

#[test]
fn decrypting_under_another_key_fails() {
    let nonce = [1u8; 12];
    let encrypted = encrypt_secret(&[7u8; 32], &nonce, "secret").unwrap();
    assert!(matches!(decrypt_secret(&[8u8; 32], &encrypted), Err(SecretError::DecryptFailed)));
}

#[test]
fn decrypting_tampered_ciphertext_fails() {
    let key = [7u8; 32];
    let nonce = [1u8; 12];
    let encrypted = encrypt_secret(&key, &nonce, "secret").unwrap();
    let (n, c) = encrypted.split_once(':').unwrap();
    let mut c = c.to_string();
    let first = if c.starts_with('A') { "B" } else { "A" };
    c.replace_range(0..1, first);
    assert!(matches!(decrypt_secret(&key, &format!("{}:{}", n, c)), Err(SecretError::DecryptFailed)));
}

#[test]
fn encryption_key_round_trips_through_its_text() {
    let key: Vec<u8> = (0u8..32).collect();
    let text = encode_encryption_key(&key);
    assert_eq!(decode_encryption_key(&format!("  {}\n", text)).unwrap(), key);
}

#[test]
fn encryption_key_of_wrong_length_is_refused() {
    assert!(matches!(decode_encryption_key("AAAA"), Err(SecretError::KeyLength)));
    assert!(matches!(decode_encryption_key("not base64!"), Err(SecretError::Encoding(_))));
}
