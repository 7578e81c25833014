use coincync::constants::MAX_OUTPUT_MEMO_SIZE;
use coincync::curve::SecretScalar;
use coincync::error::Error;
use coincync::memo::{
    decrypt_memo, encrypt_memo, encrypt_memo_with, unpad_memo, MAX_ENCRYPTED_MEMO_SIZE,
    MAX_MEMO_SIZE, MEMO_OVERHEAD, MEMO_PADDED_PLAINTEXT,
};
use rand::rngs::OsRng;
use rand::RngCore;
use std::collections::HashSet;

fn random_secret() -> SecretScalar {
    let mut b = [0u8; 64];
    OsRng.fill_bytes(&mut b);
    SecretScalar::random(&b)
}

fn random_keypair() -> ([u8; 32], [u8; 32]) {
    let secret = random_secret();
    let public = secret.to_public();
    (secret.to_bytes(), public.to_bytes())
}

#[test]
fn every_encrypted_memo_is_the_same_size() {
    let (tx_secret, _) = random_keypair();
    let (_, view_public) = random_keypair();
    let mut seen = HashSet::new();
    for len in [1usize, 6, 27, 100, 200, MAX_MEMO_SIZE] {
        let memo = vec![b'x'; len];
        let ct = encrypt_memo(&memo, &tx_secret, &view_public).expect("encrypt");
        assert_eq!(
            ct.len(),
            MAX_OUTPUT_MEMO_SIZE,
            "memo of {len} bytes must still encrypt to the constant wire size"
        );
        seen.insert(ct.len());
    }
    assert_eq!(seen.len(), 1, "all memo sizes must collapse to one wire length");
}

#[test]
fn padded_memo_round_trips_at_every_length() {
    let (tx_secret, tx_public) = random_keypair();
    let (view_secret, view_public) = random_keypair();
    for len in [1usize, 2, 27, 225, MAX_MEMO_SIZE] {
        let memo: Vec<u8> = (0..len).map(|i| (i % 251) as u8).collect();
        let ct = encrypt_memo(&memo, &tx_secret, &view_public).expect("encrypt");
        let out = decrypt_memo(&ct, &view_secret, &tx_public).expect("decrypt");
        assert_eq!(out, memo, "round-trip failed at {len} bytes");
    }
}

#[test]
fn max_memo_cannot_exceed_the_consensus_cap() {
    let (tx_secret, _) = random_keypair();
    let (_, view_public) = random_keypair();
    let at_max = vec![b'x'; MAX_MEMO_SIZE];
    let ct = encrypt_memo(&at_max, &tx_secret, &view_public).expect("max memo must encrypt");
    assert!(
        ct.len() <= MAX_OUTPUT_MEMO_SIZE,
        "a maximum-size memo must be acceptable to consensus, got {} > {}",
        ct.len(),
        MAX_OUTPUT_MEMO_SIZE
    );
    assert!(
        encrypt_memo(&vec![b'x'; MAX_MEMO_SIZE + 1], &tx_secret, &view_public).is_err(),
        "over-cap memo must be refused by the builder, not by the network"
    );
}

#[test]
fn legacy_unpadded_plaintext_is_returned_unchanged() {
    let legacy = b"written before padding".to_vec();
    assert_ne!(legacy.len(), MEMO_PADDED_PLAINTEXT);
    assert_eq!(unpad_memo(legacy.clone()), legacy);
}

#[test]
fn corrupt_length_prefix_does_not_panic() {
    let mut bad = vec![0u8; MEMO_PADDED_PLAINTEXT];
    bad[..2].copy_from_slice(&u16::MAX.to_le_bytes());
    let _ = unpad_memo(bad);
}

#[test]
fn test_encrypt_decrypt_roundtrip() {
    let (tx_secret, _tx_public) = random_keypair();
    let (view_secret, view_public) = random_keypair();
    let tx_scalar = SecretScalar::from_bytes(tx_secret);
    let tx_public_bytes = tx_scalar.to_public().to_bytes();
    let memo = b"Payment for coffee";
    let encrypted = encrypt_memo(memo, &tx_secret, &view_public).unwrap();
    assert!(encrypted.len() > memo.len());
    assert_eq!(encrypted.len(), MAX_ENCRYPTED_MEMO_SIZE);
    let decrypted = decrypt_memo(&encrypted, &view_secret, &tx_public_bytes).unwrap();
    assert_eq!(decrypted, memo);
}

#[test]
fn test_wrong_key_fails() {
    let (tx_secret, _) = random_keypair();
    let (_, view_public) = random_keypair();
    let (wrong_secret, _) = random_keypair();
    let tx_scalar = SecretScalar::from_bytes(tx_secret);
    let tx_public_bytes = tx_scalar.to_public().to_bytes();
    let memo = b"Secret message";
    let encrypted = encrypt_memo(memo, &tx_secret, &view_public).unwrap();
    let result = decrypt_memo(&encrypted, &wrong_secret, &tx_public_bytes);
    assert!(result.is_err());
    assert_eq!(
        result,
        Err(Error::CryptoError("memo decryption failed (wrong key or corrupted)".to_string()))
    );
}

#[test]
fn test_empty_memo() {
    let (tx_secret, _) = random_keypair();
    let (_, view_public) = random_keypair();
    let encrypted = encrypt_memo(b"", &tx_secret, &view_public).unwrap();
    assert!(encrypted.is_empty());
    assert_eq!(decrypt_memo(&[], &tx_secret, &view_public), Ok(vec![]));
}

#[test]
fn test_max_size_memo() {
    let (tx_secret, _) = random_keypair();
    let (view_secret, view_public) = random_keypair();
    let tx_scalar = SecretScalar::from_bytes(tx_secret);
    let tx_public_bytes = tx_scalar.to_public().to_bytes();
    let memo = vec![0x42u8; MAX_MEMO_SIZE];
    let encrypted = encrypt_memo(&memo, &tx_secret, &view_public).unwrap();
    assert_eq!(encrypted.len(), MAX_ENCRYPTED_MEMO_SIZE);
    let decrypted = decrypt_memo(&encrypted, &view_secret, &tx_public_bytes).unwrap();
    assert_eq!(decrypted, memo);
}

#[test]
fn test_oversized_memo_rejected() {
    let (tx_secret, _) = random_keypair();
    let (_, view_public) = random_keypair();
    let memo = vec![0u8; MAX_MEMO_SIZE + 1];
    let result = encrypt_memo(&memo, &tx_secret, &view_public);
    assert!(result.is_err());
    assert_eq!(
        result,
        Err(Error::InvalidTransaction("memo too large: 227 bytes (max 226)".to_string()))
    );
}

#[test]
fn test_truncated_ciphertext_fails() {
    let (tx_secret, _) = random_keypair();
    let (view_secret, view_public) = random_keypair();
    let tx_scalar = SecretScalar::from_bytes(tx_secret);
    let tx_public_bytes = tx_scalar.to_public().to_bytes();
    let encrypted = encrypt_memo(b"test", &tx_secret, &view_public).unwrap();
    let truncated = &encrypted[..encrypted.len() - 1];
    let result = decrypt_memo(truncated, &view_secret, &tx_public_bytes);
    assert!(result.is_err());
}

#[test]
fn nonce_is_in_front_and_decides_the_ciphertext() {
    let (tx_secret, _) = random_keypair();
    let (_, view_public) = random_keypair();
    let a = encrypt_memo_with(b"hello", &tx_secret, &view_public, &[1u8; 12]).unwrap();
    let b = encrypt_memo_with(b"hello", &tx_secret, &view_public, &[1u8; 12]).unwrap();
    let c = encrypt_memo_with(b"hello", &tx_secret, &view_public, &[2u8; 12]).unwrap();
    assert_eq!(a, b);
    assert_ne!(a[12..], c[12..]);
    assert_eq!(&a[..12], &[1u8; 12]);
}

#[test]
fn bad_keys_and_short_memos_are_refused() {
    let (secret, _) = random_keypair();
    assert_eq!(
        encrypt_memo(b"x", &secret, &[0xFF; 32]),
        Err(Error::CryptoError("invalid view public key for memo encryption".to_string()))
    );
    assert_eq!(
        decrypt_memo(&[0u8; 27], &secret, &[0u8; 32]),
        Err(Error::CryptoError("encrypted memo too short".to_string()))
    );
    assert_eq!(
        decrypt_memo(&[0u8; 28], &secret, &[0xFF; 32]),
        Err(Error::CryptoError("invalid tx public key for memo decryption".to_string()))
    );
    assert_eq!(MEMO_OVERHEAD, 28);
    assert_eq!(MAX_MEMO_SIZE, 226);
}
