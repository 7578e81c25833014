use coincync::bulletproofs::{BlindingFactor, PedersenCommitment};
use coincync::curve::{KeyImage, SecretScalar};
use coincync::disclosure::{
    create_balance_proof, create_ownership_proof, create_source_proof, create_sum_proof,
    verify_balance_proof, verify_ownership_proof, verify_source_proof, verify_sum_proof, Disclosed,
    DisclosureProof, DisclosureType,
};
use coincync::primitives::{PublicKey, SecretKey};
use rand::rngs::OsRng;
use rand::RngCore;

fn entropy() -> [u8; 64] {
    let mut e = [0u8; 64];
    OsRng.fill_bytes(&mut e);
    e
}

fn blinding() -> BlindingFactor {
    BlindingFactor::random(&entropy())
}

fn make_test_keys() -> (SecretKey, PublicKey) {
    let secret = SecretScalar::random(&entropy());
    let public = secret.to_public();
    let sk = SecretKey::from_bytes(secret.to_bytes());
    let pk = PublicKey::from_bytes(public.to_bytes());
    (sk, pk)
}

#[test]
fn test_balance_proof_valid() {
    let value = 1_000_000u64;
    let b = blinding();
    let commitment = PedersenCommitment::commit(value, &b);

    let threshold = 500_000u64;
    let proof = create_balance_proof(value, &b, &commitment, threshold).unwrap();

    assert!(verify_balance_proof(&proof).unwrap());
    assert_eq!(proof.threshold, threshold);
}

#[test]
fn test_balance_proof_exact_threshold() {
    let value = 1_000_000u64;
    let b = blinding();
    let commitment = PedersenCommitment::commit(value, &b);

    let proof = create_balance_proof(value, &b, &commitment, value).unwrap();
    assert!(verify_balance_proof(&proof).unwrap());
}

#[test]
fn test_balance_proof_insufficient() {
    let value = 100u64;
    let b = blinding();
    let commitment = PedersenCommitment::commit(value, &b);

    let result = create_balance_proof(value, &b, &commitment, 200);
    assert!(result.is_err());
}

#[test]
fn test_balance_proof_wrong_commitment() {
    let value = 1_000_000u64;
    let b = blinding();
    let commitment = PedersenCommitment::commit(value, &b);

    let proof = create_balance_proof(value, &b, &commitment, 500_000).unwrap();

    let mut tampered = proof.clone();
    let fake_blinding = blinding();
    let fake_commitment = PedersenCommitment::commit(2_000_000, &fake_blinding);
    tampered.original_commitment = fake_commitment.to_bytes();

    assert!(!verify_balance_proof(&tampered).unwrap());
}

#[test]
fn a_wrong_opening_gives_a_balance_proof_that_fails() {
    let commitment = PedersenCommitment::commit(1_000, &blinding());
    let proof = create_balance_proof(1_000, &blinding(), &commitment, 500).unwrap();
    assert!(!verify_balance_proof(&proof).unwrap());
}

#[test]
fn test_ownership_proof_valid() {
    let (sk, pk) = make_test_keys();
    let tx_hash = coincync::primitives::Hash::from_bytes([1u8; 32]);
    let message = b"Exchange compliance check 2024";

    let proof = create_ownership_proof(&tx_hash, 0, &pk, &sk, message).unwrap();
    assert!(verify_ownership_proof(&proof).unwrap());
}

#[test]
fn test_ownership_proof_wrong_key() {
    let (_sk, pk) = make_test_keys();
    let (wrong_sk, _) = make_test_keys();
    let tx_hash = coincync::primitives::Hash::from_bytes([1u8; 32]);

    let result = create_ownership_proof(&tx_hash, 0, &pk, &wrong_sk, b"test");
    assert!(result.is_err());
}

#[test]
fn test_ownership_proof_different_message() {
    let (sk, pk) = make_test_keys();
    let tx_hash = coincync::primitives::Hash::from_bytes([1u8; 32]);

    let proof = create_ownership_proof(&tx_hash, 0, &pk, &sk, b"message 1").unwrap();

    let mut tampered = proof;
    tampered.message = b"message 2".to_vec();

    assert!(!verify_ownership_proof(&tampered).unwrap());
}

#[test]
fn malformed_ownership_proofs_are_errors() {
    let (sk, pk) = make_test_keys();
    let tx_hash = coincync::primitives::Hash::from_bytes([1u8; 32]);
    let proof = create_ownership_proof(&tx_hash, 0, &pk, &sk, b"m").unwrap();
    let mut bad = proof.clone();
    bad.schnorr_r = [0xff; 32];
    assert!(verify_ownership_proof(&bad).is_err());
}

#[test]
fn test_sum_proof_valid() {
    let b1 = blinding();
    let b2 = blinding();
    let b3 = blinding();

    let v1 = 100_000u64;
    let v2 = 200_000u64;
    let v3 = 300_000u64;

    let c1 = PedersenCommitment::commit(v1, &b1);
    let c2 = PedersenCommitment::commit(v2, &b2);
    let c3 = PedersenCommitment::commit(v3, &b3);

    let h1 = coincync::primitives::Hash::from_bytes([1u8; 32]);
    let h2 = coincync::primitives::Hash::from_bytes([2u8; 32]);
    let h3 = coincync::primitives::Hash::from_bytes([3u8; 32]);

    let outputs = vec![(v1, b1, h1, 0u8), (v2, b2, h2, 1u8), (v3, b3, h3, 0u8)];

    let proof = create_sum_proof(&outputs, (0, 100)).unwrap();
    assert_eq!(proof.claimed_total, 600_000);

    let commitments = vec![c1, c2, c3];
    assert!(verify_sum_proof(&proof, &commitments).unwrap());
}

#[test]
fn test_sum_proof_wrong_total() {
    let b1 = blinding();
    let v1 = 100_000u64;
    let c1 = PedersenCommitment::commit(v1, &b1);
    let h1 = coincync::primitives::Hash::from_bytes([1u8; 32]);

    let outputs = vec![(v1, b1, h1, 0u8)];
    let mut proof = create_sum_proof(&outputs, (0, 100)).unwrap();

    proof.claimed_total = 999_999;

    assert!(!verify_sum_proof(&proof, &[c1]).unwrap());
}

#[test]
fn test_sum_proof_wrong_commitments() {
    let b1 = blinding();
    let v1 = 100_000u64;
    let h1 = coincync::primitives::Hash::from_bytes([1u8; 32]);

    let outputs = vec![(v1, b1, h1, 0u8)];
    let proof = create_sum_proof(&outputs, (0, 100)).unwrap();

    let wrong_blinding = blinding();
    let wrong_commitment = PedersenCommitment::commit(200_000, &wrong_blinding);

    assert!(!verify_sum_proof(&proof, &[wrong_commitment]).unwrap());
}

#[test]
fn sums_that_overflow_or_are_empty_are_refused() {
    let h = coincync::primitives::Hash::from_bytes([1u8; 32]);
    assert!(create_sum_proof(&[], (0, 1)).is_err());
    let outputs = vec![(u64::MAX, blinding(), h, 0u8), (1, blinding(), h, 1u8)];
    assert!(create_sum_proof(&outputs, (0, 1)).is_err());
}

#[test]
fn test_source_proof_valid() {
    let secret = SecretScalar::random(&entropy());
    let public = secret.to_public();
    let ki = KeyImage::from_secret(&secret);

    let sk = SecretKey::from_bytes(secret.to_bytes());
    let pk = PublicKey::from_bytes(public.to_bytes());

    let proof = create_source_proof(&sk, &pk, &ki, b"compliance check").unwrap();
    assert!(verify_source_proof(&proof).unwrap());
}

#[test]
fn test_source_proof_wrong_key() {
    let secret = SecretScalar::random(&entropy());
    let public = secret.to_public();
    let ki = KeyImage::from_secret(&secret);

    let wrong_secret = SecretScalar::random(&entropy());
    let wrong_sk = SecretKey::from_bytes(wrong_secret.to_bytes());
    let pk = PublicKey::from_bytes(public.to_bytes());

    let result = create_source_proof(&wrong_sk, &pk, &ki, b"test");
    assert!(result.is_err());
}

#[test]
fn test_source_proof_tampered_message() {
    let secret = SecretScalar::random(&entropy());
    let public = secret.to_public();
    let ki = KeyImage::from_secret(&secret);

    let sk = SecretKey::from_bytes(secret.to_bytes());
    let pk = PublicKey::from_bytes(public.to_bytes());

    let mut proof = create_source_proof(&sk, &pk, &ki, b"original").unwrap();
    proof.message = b"tampered".to_vec();

    assert!(!verify_source_proof(&proof).unwrap());
}

#[test]
fn test_disclosure_serialization() {
    let (sk, pk) = make_test_keys();
    let tx_hash = coincync::primitives::Hash::from_bytes([1u8; 32]);

    let ownership = create_ownership_proof(&tx_hash, 0, &pk, &sk, b"test").unwrap();
    let container =
        DisclosureProof::from_ownership(&ownership, b"inner".to_vec(), "test proof", None);

    // The disclosure goes through JSON field by field.
    let json = serde_json::to_string(&(
        container.version,
        &container.proof_data,
        container.created_at,
        container.expires_at,
        &container.prover_label,
    ))
    .unwrap();
    let (version, proof_data, created_at, expires_at, prover_label) =
        serde_json::from_str::<(u8, Vec<u8>, u64, Option<u64>, String)>(&json).unwrap();
    let recovered = DisclosureProof {
        version,
        proof_type: DisclosureType::Ownership,
        proof_data,
        created_at,
        expires_at,
        prover_label,
    };
    assert_eq!(recovered, container);

    assert_eq!(recovered.version, 1);
    assert_eq!(recovered.proof_type, DisclosureType::Ownership);
    assert_eq!(recovered.prover_label, "test proof");
    assert_eq!(recovered.created_at, ownership.timestamp);

    assert!(recovered.verify(&Ok(Disclosed::Ownership(ownership))).unwrap());
}

#[test]
fn test_disclosure_expiry() {
    let (sk, pk) = make_test_keys();
    let tx_hash = coincync::primitives::Hash::from_bytes([1u8; 32]);

    let ownership = create_ownership_proof(&tx_hash, 0, &pk, &sk, b"test").unwrap();

    let container = DisclosureProof::from_ownership(&ownership, Vec::new(), "expired", Some(1));

    assert!(container.is_expired());
    assert!(!container.verify(&Ok(Disclosed::Ownership(ownership))).unwrap());
}

#[test]
fn test_proofs_domain_separated() {
    let (sk, pk) = make_test_keys();
    let tx_hash = coincync::primitives::Hash::from_bytes([1u8; 32]);

    let ownership = create_ownership_proof(&tx_hash, 0, &pk, &sk, b"test").unwrap();
    let container = DisclosureProof::from_ownership(&ownership, Vec::new(), "test", None);

    let mut tampered = container;
    tampered.proof_type = DisclosureType::Source;

    // The bytes of an ownership proof do not read as a source proof.
    let result = tampered.verify(&Err("missing field `public_key`".to_string()));
    assert!(result.is_err() || !result.unwrap());
}

#[test]
fn test_expired_proof_rejected() {
    let (sk, pk) = make_test_keys();
    let tx_hash = coincync::primitives::Hash::from_bytes([1u8; 32]);

    let ownership = create_ownership_proof(&tx_hash, 0, &pk, &sk, b"expiry test").unwrap();

    let container =
        DisclosureProof::from_ownership(&ownership, Vec::new(), "should expire", Some(1));

    assert!(container.is_expired(), "Proof with timestamp=1 should be expired");
    assert!(
        !container.verify(&Ok(Disclosed::Ownership(ownership.clone()))).unwrap(),
        "Expired proof must fail verification"
    );

    let future_ts = std::time::SystemTime::now()
        .duration_since(std::time::UNIX_EPOCH)
        .unwrap()
        .as_secs()
        + 86400;
    let valid_container =
        DisclosureProof::from_ownership(&ownership, Vec::new(), "valid", Some(future_ts));
    assert!(!valid_container.is_expired());
    assert!(valid_container.verify(&Ok(Disclosed::Ownership(ownership))).unwrap());
}

#[test]
fn a_sum_disclosure_needs_the_commitments() {
    let b = blinding();
    let outputs = vec![(5u64, b, coincync::primitives::Hash::from_bytes([1u8; 32]), 0u8)];
    let sum = create_sum_proof(&outputs, (0, 1)).unwrap();
    let container = DisclosureProof::from_sum(&sum, Vec::new(), "sum", None);
    assert!(container.verify(&Ok(Disclosed::Sum(sum))).is_err());
}
