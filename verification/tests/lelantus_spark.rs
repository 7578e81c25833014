use coincync::constants::SPARK_ANON_SET_MIN;
use coincync::group::{RistrettoPoint, Scalar};
use coincync::lelantus_spark::{
    batch_verify_sparks, prove_spark_spend, spark_commit, spark_pubkey, spark_serial_tag,
    verify_spark_spend, SparkNote,
};
use coincync::spark_accumulator::SparkAccumulator;
use coincync::spark_generators::gen_g;
use rand::rngs::OsRng;
use rand::RngCore;

fn random_scalar() -> Scalar {
    let mut e = [0u8; 64];
    OsRng.fill_bytes(&mut e);
    Scalar::from_bytes_mod_order_wide(&e)
}

fn nonces(n: usize) -> Vec<Scalar> {
    (0..n).map(|_| random_scalar()).collect()
}

fn fresh_note(value: u64, coin_id: u64) -> (SparkNote, RistrettoPoint) {
    let serial = random_scalar();
    let randomness = random_scalar();
    let commitment = spark_commit(value, &serial, &randomness);
    let note = SparkNote {
        commitment: commitment.compress(),
        value,
        serial: serial.to_bytes(),
        randomness: randomness.to_bytes(),
        diversifier: [0u8; 11],
        height: 1,
        coin_id,
    };
    (note, commitment)
}

#[test]
fn commit_is_reproducible() {
    let s = Scalar::from_u64(42);
    let r = Scalar::from_u64(99);
    let a = spark_commit(1000, &s, &r);
    let b = spark_commit(1000, &s, &r);
    assert_eq!(a.compress(), b.compress());
}

#[test]
fn serial_tag_is_deterministic() {
    let s = Scalar::from_u64(12345);
    let t1 = spark_serial_tag(&s);
    let t2 = spark_serial_tag(&s);
    assert_eq!(t1.compress(), t2.compress());
}

/// A ring of commitments that share value and randomness, with the real note in one place.
fn ring_with_shared_vr(
    value: u64,
    n: usize,
    real_idx: usize,
) -> (SparkNote, Vec<RistrettoPoint>, Vec<RistrettoPoint>) {
    let (note, real_commit) = fresh_note(value, 0);
    let v = note.value;
    let r = note.randomness_scalar();
    let mut anon_set: Vec<RistrettoPoint> = Vec::with_capacity(n);
    for i in 0..n {
        if i == real_idx {
            anon_set.push(real_commit);
        } else {
            let decoy_serial = random_scalar();
            anon_set.push(spark_commit(v, &decoy_serial, &r));
        }
    }
    let pubkeys: Vec<RistrettoPoint> = anon_set.iter().map(|c| spark_pubkey(c, v, &r)).collect();
    (note, anon_set, pubkeys)
}

#[test]
fn completeness_n1_real_at_0() {
    let (note, anon_set, pubkeys) = ring_with_shared_vr(500, 1, 0);
    let indices = vec![0u64];
    let message = [7u8; 32];
    let proof = prove_spark_spend(&note, &anon_set, &indices, 0, &message, &nonces(1))
        .expect("honest prover must succeed");
    verify_spark_spend(&proof, &pubkeys).expect("honest proof must verify (n=1)");
}

#[test]
fn completeness_n2_real_at_every_position() {
    for real_idx in 0..2 {
        let (note, anon_set, pubkeys) = ring_with_shared_vr(500, 2, real_idx);
        let indices: Vec<u64> = (0..2).collect();
        let message = [9u8; 32];
        let proof = prove_spark_spend(&note, &anon_set, &indices, real_idx, &message, &nonces(2))
            .unwrap_or_else(|e| panic!("prove n=2 real={}: {:?}", real_idx, e));
        verify_spark_spend(&proof, &pubkeys)
            .unwrap_or_else(|e| panic!("verify n=2 real={}: {:?}", real_idx, e));
    }
}

#[test]
fn completeness_n3_real_at_every_position() {
    for real_idx in 0..3 {
        let (note, anon_set, pubkeys) = ring_with_shared_vr(500, 3, real_idx);
        let indices: Vec<u64> = (0..3).collect();
        let message = [11u8; 32];
        let proof = prove_spark_spend(&note, &anon_set, &indices, real_idx, &message, &nonces(3))
            .unwrap_or_else(|e| panic!("prove n=3 real={}: {:?}", real_idx, e));
        verify_spark_spend(&proof, &pubkeys)
            .unwrap_or_else(|e| panic!("verify n=3 real={}: {:?}", real_idx, e));
    }
}

#[test]
fn completeness_n5_real_at_every_position() {
    for real_idx in 0..5 {
        let (note, anon_set, pubkeys) = ring_with_shared_vr(1000, 5, real_idx);
        let indices: Vec<u64> = (0..5).collect();
        let message = [13u8; 32];
        let proof = prove_spark_spend(&note, &anon_set, &indices, real_idx, &message, &nonces(5))
            .unwrap_or_else(|e| panic!("prove n=5 real={}: {:?}", real_idx, e));
        verify_spark_spend(&proof, &pubkeys)
            .unwrap_or_else(|e| panic!("verify n=5 real={}: {:?}", real_idx, e));
    }
}

#[test]
fn soundness_rejects_tampered_challenge() {
    let (note, anon_set, pubkeys) = ring_with_shared_vr(500, 3, 1);
    let indices: Vec<u64> = (0..3).collect();
    let proof = prove_spark_spend(&note, &anon_set, &indices, 1, &[1u8; 32], &nonces(3)).unwrap();
    let mut tampered = proof.clone();
    tampered.challenges[0][0] ^= 0x01;
    assert!(
        verify_spark_spend(&tampered, &pubkeys).is_err(),
        "flipping a challenge byte must invalidate the proof"
    );
}

#[test]
fn soundness_rejects_tampered_response() {
    let (note, anon_set, pubkeys) = ring_with_shared_vr(500, 3, 2);
    let indices: Vec<u64> = (0..3).collect();
    let proof = prove_spark_spend(&note, &anon_set, &indices, 2, &[1u8; 32], &nonces(3)).unwrap();
    let mut tampered = proof.clone();
    tampered.responses[1][0] ^= 0x01;
    assert!(
        verify_spark_spend(&tampered, &pubkeys).is_err(),
        "flipping a response byte must invalidate the proof"
    );
}

#[test]
fn soundness_rejects_tampered_serial_tag() {
    let (note, anon_set, pubkeys) = ring_with_shared_vr(500, 2, 0);
    let indices: Vec<u64> = (0..2).collect();
    let proof = prove_spark_spend(&note, &anon_set, &indices, 0, &[1u8; 32], &nonces(2)).unwrap();
    let mut tampered = proof.clone();
    let fresh_tag = gen_g().mul(&random_scalar());
    tampered.serial_tag = fresh_tag.compress();
    assert!(
        verify_spark_spend(&tampered, &pubkeys).is_err(),
        "substituting the serial tag must invalidate the proof"
    );
}

#[test]
fn soundness_rejects_wrong_message() {
    let (note, anon_set, pubkeys) = ring_with_shared_vr(500, 2, 0);
    let indices: Vec<u64> = (0..2).collect();
    let proof = prove_spark_spend(&note, &anon_set, &indices, 0, &[1u8; 32], &nonces(2)).unwrap();
    let mut tampered = proof.clone();
    tampered.message = [2u8; 32];
    assert!(
        verify_spark_spend(&tampered, &pubkeys).is_err(),
        "tampering the message must invalidate the Fiat-Shamir chain"
    );
}

#[test]
fn soundness_rejects_wrong_pubkeys() {
    let (note, anon_set, _pubkeys) = ring_with_shared_vr(500, 3, 0);
    let indices: Vec<u64> = (0..3).collect();
    let proof = prove_spark_spend(&note, &anon_set, &indices, 0, &[1u8; 32], &nonces(3)).unwrap();
    let (_note2, _as2, pubkeys2) = ring_with_shared_vr(500, 3, 0);
    assert!(
        verify_spark_spend(&proof, &pubkeys2).is_err(),
        "verifying against the wrong pubkey vector must fail"
    );
}

fn accumulator(n: usize) -> SparkAccumulator {
    let mut acc = SparkAccumulator::new();
    for i in 0..n {
        acc.add_coin(&RistrettoPoint::mul_base(&Scalar::from_u64(i as u64 + 1)));
    }
    acc
}

#[test]
fn build_anon_set_refuses_small_pool_instead_of_panicking() {
    let acc = accumulator(10);
    let result = acc.build_anon_set(3, SPARK_ANON_SET_MIN);
    assert!(
        result.is_err(),
        "pool smaller than SPARK_ANON_SET_MIN must error, not silently weaken anonymity"
    );
}

#[test]
fn build_anon_set_contains_real_idx_when_pool_sufficient() {
    let acc = accumulator(SPARK_ANON_SET_MIN);
    let set = acc.build_anon_set(3, SPARK_ANON_SET_MIN).expect("pool == MIN must succeed");
    assert_eq!(set.len(), SPARK_ANON_SET_MIN);
    assert!(set.contains(&3), "anonymity set must contain the real index");
}

#[test]
fn anon_sets_are_shuffled_and_distinct() {
    let acc = accumulator(200);
    assert_eq!(acc.size(), 200);
    let a = acc.build_anon_set(7, 100).unwrap();
    let b = acc.build_anon_set(7, 100).unwrap();
    assert_eq!(a.len(), 100);
    assert_ne!(a, b);
    let mut sorted = a.clone();
    sorted.sort();
    sorted.dedup();
    assert_eq!(sorted.len(), 100);
    assert!(sorted.iter().all(|i| *i < 200));
    assert!(acc.build_anon_set(200, 100).is_err());
}

#[test]
fn the_root_depends_on_every_coin() {
    assert_eq!(SparkAccumulator::new().current_root(), [0u8; 32]);
    assert_eq!(accumulator(3).current_root(), accumulator(3).current_root());
    assert_ne!(accumulator(3).current_root(), accumulator(4).current_root());
}

#[test]
fn a_batch_is_refused_for_one_bad_member() {
    let (note, anon_set, pubkeys) = ring_with_shared_vr(500, 2, 0);
    let indices: Vec<u64> = (0..2).collect();
    let good = prove_spark_spend(&note, &anon_set, &indices, 0, &[1u8; 32], &nonces(2)).unwrap();
    let mut bad = good.clone();
    bad.message = [2u8; 32];
    assert!(batch_verify_sparks(&[]).is_ok());
    assert!(batch_verify_sparks(&[(&good, &pubkeys), (&good, &pubkeys)]).is_ok());
    assert!(batch_verify_sparks(&[(&good, &pubkeys), (&bad, &pubkeys)]).is_err());
}

#[test]
fn the_prover_checks_its_own_inputs() {
    let (note, anon_set, _) = ring_with_shared_vr(500, 2, 0);
    assert!(prove_spark_spend(&note, &anon_set, &[0], 0, &[1u8; 32], &nonces(2)).is_err());
    assert!(prove_spark_spend(&note, &anon_set, &[0, 1], 2, &[1u8; 32], &nonces(2)).is_err());
    assert!(prove_spark_spend(&note, &anon_set, &[0, 1], 1, &[1u8; 32], &nonces(2)).is_err());
}
