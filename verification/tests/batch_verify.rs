use coincync::batch_verify::{
    BatchVerifier, BatchVerifyResult, ParallelTxValidator, SignatureData, VerificationStats,
};
use coincync::cache::VerificationCache;
use coincync::clsag::{clsag_sign, ring_to_bytes, RingMember};
use coincync::curve::{Commitment, SecretScalar};
use coincync::group::Scalar;
use coincync::parallel_proofs::{ParallelProofVerifier, ProofTask};
use coincync::primitives::Amount;
use rand::rngs::OsRng;
use rand::RngCore;

fn entropy() -> [u8; 64] {
    let mut e = [0u8; 64];
    OsRng.fill_bytes(&mut e);
    e
}

fn secret() -> SecretScalar {
    SecretScalar::random(&entropy())
}

fn valid_signature_data() -> SignatureData {
    let key = secret();
    let real_blinding = secret();
    let pseudo_blinding = secret();
    let real_commitment = Commitment::commit(1_000, &real_blinding);
    let pseudo_output = Commitment::commit(1_000, &pseudo_blinding);
    let blinding_diff =
        SecretScalar::from_scalar(real_blinding.as_scalar().sub(pseudo_blinding.as_scalar()));
    let ring = vec![
        RingMember::new(key.to_public(), real_commitment),
        RingMember::new(secret().to_public(), Commitment::commit(1_000, &secret())),
    ];
    let message = b"batch cache statement regression".to_vec();
    let nonces: Vec<Scalar> =
        (0..3).map(|_| Scalar::from_bytes_mod_order_wide(&entropy())).collect();
    let signature = clsag_sign(&message, &ring, 0, &key, &blinding_diff, &pseudo_output, &nonces)
        .unwrap()
        .to_bytes()
        .unwrap();

    SignatureData {
        message,
        signature,
        ring_data: ring_to_bytes(&ring),
        pseudo_output: pseudo_output.to_bytes(),
    }
}

#[test]
fn test_batch_verify_empty() {
    let verifier = BatchVerifier::new();
    let mut cache = VerificationCache::new();
    let result = verifier.verify_all(&mut cache, 0);
    assert_eq!(result.total, 0);
    assert!(result.all_valid());
}

#[test]
fn test_batch_result() {
    let result = BatchVerifyResult {
        total: 10,
        valid: 9,
        invalid: 1,
        cached: 3,
        invalid_indices: vec![5],
        time_ms: 100,
    };

    assert!(!result.all_valid());
    let success_rate = result.valid as f64 / result.total as f64;
    assert!((success_rate - 0.9).abs() < 0.001);
}

#[test]
fn test_parallel_validator() {
    let validator = ParallelTxValidator::new();
    let none: [u8; 0] = [];
    let invalid = validator.validate_transactions(&none, |_| true);
    assert!(invalid.is_empty());
}

#[test]
fn test_concurrent_batch() {
    let mut verifier = BatchVerifier::without_cache();

    for i in 0..12 {
        verifier.add(SignatureData {
            message: format!("msg-{}", i).into_bytes(),
            signature: vec![0u8; 64],
            ring_data: vec![0u8; 32],
            pseudo_output: [0u8; 32],
        });
    }

    assert_eq!(verifier.pending_count(), 12);
    let mut cache = VerificationCache::new();
    let result = verifier.verify_all(&mut cache, 0);
    assert_eq!(result.total, 12);
    assert_eq!(result.valid + result.invalid, 12);
    assert_eq!(result.invalid_indices, (0..12).collect::<Vec<usize>>());
    verifier.clear();
    assert_eq!(verifier.pending_count(), 0);
}

#[test]
fn cache_does_not_reuse_result_for_different_pseudo_output() {
    let valid = valid_signature_data();
    let cached_message = valid.message.clone();
    let cached_signature = valid.signature.clone();
    let cached_ring = valid.ring_data.clone();
    let cached_pseudo_output = valid.pseudo_output;
    let mut cache = VerificationCache::new();

    let mut first = BatchVerifier::new();
    first.add(valid);
    let first_result = first.verify_all(&mut cache, 0);
    assert_eq!(first_result.valid, 1);
    assert_eq!(first_result.cached, 0);

    let mut different_statement = BatchVerifier::new();
    different_statement.add(SignatureData {
        message: cached_message.clone(),
        signature: cached_signature.clone(),
        ring_data: cached_ring.clone(),
        pseudo_output: cached_pseudo_output,
    });
    different_statement.add(SignatureData {
        message: cached_message,
        signature: cached_signature,
        ring_data: cached_ring,
        pseudo_output: [0u8; 32],
    });
    let second_result = different_statement.verify_all(&mut cache, 0);

    assert_eq!(second_result.cached, 1);
    assert_eq!(second_result.valid, 1);
    assert_eq!(second_result.invalid, 1);
    assert_eq!(second_result.invalid_indices, vec![1]);
}

#[test]
fn batch_verify_single_rejects_identity_pseudo_output() {
    let good = valid_signature_data();
    assert!(BatchVerifier::verify_single(&good));

    assert!(Commitment::from_bytes([0u8; 32]).is_some());

    let mut identity_pseudo = valid_signature_data();
    identity_pseudo.pseudo_output = [0u8; 32];
    assert!(!BatchVerifier::verify_single(&identity_pseudo));
}

#[test]
fn parallel_validator_returns_correct_invalid_indices_and_subset() {
    fn tx(version: u8) -> (u8, Amount) {
        (version, Amount::from_atomic(0))
    }

    let validator = ParallelTxValidator::new();
    let txs = vec![tx(1), tx(2), tx(1), tx(2)];

    let invalid = validator.validate_transactions(&txs, |t| t.0 == 1);
    assert_eq!(invalid, vec![1, 3]);

    let kept = validator.filter_valid(txs, |t| t.0 == 1);
    assert_eq!(kept.len(), 2);
    assert!(kept.iter().all(|t| t.0 == 1));
}

#[test]
fn finishing_a_batch_takes_its_time() {
    let mut cache = VerificationCache::new();
    let empty = BatchVerifier::new();
    assert_eq!(empty.finish(&vec![], &vec![], &mut cache, 0, 9).time_ms, 0);

    let mut batch = BatchVerifier::new();
    batch.add(valid_signature_data());
    let result = batch.finish(&vec![false], &vec![true], &mut cache, 0, 9);
    assert_eq!((result.total, result.valid, result.time_ms), (1, 1, 9));

    let mut proofs = ParallelProofVerifier::new();
    for _ in 0..2 {
        proofs.add(ProofTask::new([1u8; 32], vec![0u8; 100]));
        let result = proofs.finish(&vec![false], &vec![false], &mut cache, 0, 5);
        assert_eq!((result.total, result.invalid, result.time_ms), (1, 1, 5));
    }
    assert_eq!(proofs.stats(), (2, 0, 10));
}

#[test]
fn statistics_count_every_outcome() {
    let mut stats = VerificationStats::default();
    stats.record(false, true);
    stats.record(true, true);
    stats.record(false, false);
    let (total, hits, misses, valid, invalid) = stats.snapshot();
    assert_eq!((total, hits, misses, valid, invalid), (3, 1, 2, 2, 1));
}

#[test]
fn test_parallel_verifier_empty() {
    let mut verifier = ParallelProofVerifier::new();
    let mut cache = VerificationCache::new();
    let result = verifier.verify_all(&mut cache, 0);
    assert_eq!(result.total, 0);
    assert!(result.all_valid());
}

#[test]
fn test_proof_task() {
    let task = ProofTask::new([1u8; 32], vec![0u8; 100]).with_id("test-proof".into());

    assert_eq!(task.id, Some("test-proof".into()));
    assert_eq!(task.commitment, [1u8; 32]);
}

#[test]
fn test_empty_batch() {
    let mut verifier = ParallelProofVerifier::new();
    let mut cache = VerificationCache::new();
    let result = verifier.verify_all(&mut cache, 0);
    assert_eq!(result.total, 0);
    assert_eq!(result.valid, 0);
    assert_eq!(result.invalid, 0);
    assert!(result.all_valid(), "Empty batch should be considered valid");
}

#[test]
fn malformed_range_proofs_are_found_by_place() {
    let mut verifier = ParallelProofVerifier::new();
    verifier.add(ProofTask::new([1u8; 32], vec![0u8; 100]));
    verifier.add(ProofTask::new([2u8; 32], Vec::new()));
    assert_eq!(verifier.pending(), 2);
    let mut cache = VerificationCache::new();
    let result = verifier.verify_all(&mut cache, 0);
    assert_eq!(result.invalid, 2);
    assert_eq!(result.invalid_indices, vec![0, 1]);
    assert_eq!(verifier.stats().0, 2);
}
