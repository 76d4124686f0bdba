use relaydrop::crypto::{
    blob_from, blob_parts, decrypt, derive_key, encrypt, encrypt_with_nonce, room_name, CryptoError,
    FileDigest, NONCE_LEN, TAG_LEN,
};

fn hex(bytes: &[u8]) -> String {
    bytes.iter().map(|b| format!("{b:02x}")).collect()
}

#[test]
fn derived_keys_are_fixed() {
    assert_eq!(hex(&derive_key(b"SECRET")), "e60d9e9b79d52f683e161583663a53f48fb081f7ac3feaed9afbae4372d2a80e");
    assert_eq!(hex(&derive_key(b"")), "a31484d9fdd18cf403c628b6dbec281827a6e383704fcfd2836386b65529c2d7");
    assert_ne!(derive_key(b"a"), derive_key(b"b"));
}

#[test]
fn sealing_under_a_given_nonce_is_fixed() {
    let blob = encrypt_with_nonce(&[0u8; 32], &[0u8; 12], &[0u8; 16]);
    assert_eq!(
        hex(&blob),
        "000000000000000000000000cea7403d4d606b6e074ec5d3baf39d18d0d1c8a799996bf0265b98b5d48ab919"
    );
    let empty = encrypt_with_nonce(&[0u8; 32], &[0u8; 12], &[]);
    assert_eq!(hex(&empty), "000000000000000000000000530f8afbc74536b9a963b4f1c4cb738b");
}

#[test]
fn what_is_sealed_opens() {
    let key = derive_key(b"SECRET");
    for text in [&b""[..], b"a", b"hello, relay"] {
        let blob = encrypt(&key, text);
        assert_eq!(blob.len(), NONCE_LEN + text.len() + TAG_LEN);
        assert_eq!(decrypt(&key, &blob).unwrap(), text);
    }
}

#[test]
fn nonces_are_fresh() {
    let key = derive_key(b"SECRET");
    assert_ne!(encrypt(&key, b"same"), encrypt(&key, b"same"));
}

#[test]
fn short_blob_is_refused() {
    let key = derive_key(b"SECRET");
    assert_eq!(decrypt(&key, &[0u8; 11]), Err(CryptoError::TooShort));
    assert_eq!(decrypt(&key, &[]), Err(CryptoError::TooShort));
    assert_eq!(decrypt(&key, &[0u8; 12]), Err(CryptoError::DecryptionFailed));
}

#[test]
fn wrong_key_or_altered_blob_does_not_open() {
    let key = derive_key(b"SECRET");
    let mut blob = encrypt(&key, b"content");
    assert_eq!(decrypt(&derive_key(b"OTHER"), &blob), Err(CryptoError::DecryptionFailed));
    let last = blob.len() - 1;
    blob[last] ^= 1;
    assert_eq!(decrypt(&key, &blob), Err(CryptoError::DecryptionFailed));
}

#[test]
fn digest_of_pieces_is_digest_of_whole() {
    let mut digest = FileDigest::new();
    digest.update(b"a");
    digest.update(b"bc");
    assert_eq!(
        digest.finish(),
        "ba7816bf8f01cfea414140de5dae2223b00361a396177a9cb410ff61f20015ad"
    );
    assert_eq!(
        FileDigest::new().finish(),
        "e3b0c44298fc1c149afbf4c8996fb92427ae41e4649b934ca495991b7852b855"
    );
}

#[test]
fn blobs_come_apart_as_they_were_put_together() {
    let blob = blob_from(&[7u8; 12], b"rest");
    assert_eq!(blob.len(), 16);
    assert_eq!(blob_parts(&blob), Ok(([7u8; 12], &b"rest"[..])));
    assert_eq!(blob_parts(&[7u8; 12]), Ok(([7u8; 12], &b""[..])));
    assert_eq!(blob_parts(&[7u8; 11]), Err(CryptoError::TooShort));
}

#[test]
fn room_names_are_fixed_and_are_not_the_key() {
    assert_eq!(
        room_name("MYCODE"),
        "a5ed89c7675717656818723e36f1e9a959037ebbb16df273ec748648750a3c7d"
    );
    assert_ne!(room_name("MYCODE"), hex(&derive_key(b"MYCODE")));
    assert_ne!(room_name("a"), room_name("b"));
    assert_eq!(room_name("").len(), 64);
}

#[test]
fn what_is_said_about_blobs() {
    assert_eq!(CryptoError::TooShort.text(), "ciphertext too short");
    assert_eq!(
        CryptoError::DecryptionFailed.text(),
        "decryption failed (wrong key or corrupted data)"
    );
}
