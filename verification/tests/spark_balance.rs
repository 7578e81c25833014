use coincync::group::{RistrettoPoint, Scalar};
use coincync::spark_balance::{
    prove_balance, prove_balance_with_delta, value_commitment, verify_balance,
    verify_balance_with_delta, BalanceProof,
};
use rand::{RngCore, SeedableRng};
use rand_chacha::ChaCha20Rng;

fn scalar(rng: &mut ChaCha20Rng) -> Scalar {
    let mut e = [0u8; 64];
    rng.fill_bytes(&mut e);
    Scalar::from_bytes_mod_order_wide(&e)
}

fn commits(values: &[u64], blindings: &[Scalar]) -> Vec<RistrettoPoint> {
    values.iter().zip(blindings).map(|(&v, b)| value_commitment(v, b)).collect()
}

#[test]
fn balanced_transaction_verifies() {
    let mut rng = ChaCha20Rng::seed_from_u64(1);
    let iv = [5u64, 3];
    let ov = [6u64];
    let fee = 2u64;
    let ib: Vec<Scalar> = (0..iv.len()).map(|_| scalar(&mut rng)).collect();
    let ob: Vec<Scalar> = (0..ov.len()).map(|_| scalar(&mut rng)).collect();
    let ctx = b"tx-1";

    let proof = prove_balance(&iv, &ib, &ov, &ob, fee, ctx, &scalar(&mut rng)).unwrap();
    let vin = commits(&iv, &ib);
    let vout = commits(&ov, &ob);
    assert!(verify_balance(&vin, &vout, fee, &proof, ctx).is_ok());
}

#[test]
fn prover_refuses_unbalanced_values() {
    let mut rng = ChaCha20Rng::seed_from_u64(2);
    let iv = [5u64];
    let ov = [6u64];
    let ib = [scalar(&mut rng)];
    let ob = [scalar(&mut rng)];
    assert!(prove_balance(&iv, &ib, &ov, &ob, 2, b"x", &scalar(&mut rng)).is_err());
}

#[test]
fn verifier_rejects_unbalanced_commitments_and_tampering() {
    let mut rng = ChaCha20Rng::seed_from_u64(3);
    let iv = [10u64];
    let ov = [7u64];
    let fee = 3u64;
    let ib = [scalar(&mut rng)];
    let ob = [scalar(&mut rng)];
    let ctx = b"tx-2";
    let proof = prove_balance(&iv, &ib, &ov, &ob, fee, ctx, &scalar(&mut rng)).unwrap();
    let vin = commits(&iv, &ib);
    let vout = commits(&ov, &ob);
    assert!(verify_balance(&vin, &vout, fee, &proof, ctx).is_ok());

    assert!(verify_balance(&vin, &vout, fee + 1, &proof, ctx).is_err());
    assert!(verify_balance(&vin, &vout, fee, &proof, b"other").is_err());
    let mut bad = proof.clone();
    bad.z = Scalar::from_bytes_mod_order(&bad.z).add(&Scalar::one()).to_bytes();
    assert!(verify_balance(&vin, &vout, fee, &bad, ctx).is_err());
    let inflated = commits(&[9u64], &ob);
    assert!(verify_balance(&vin, &inflated, fee, &proof, ctx).is_err());

    let mut nc = proof.clone();
    nc.z = [0xFFu8; 32];
    assert!(verify_balance(&vin, &vout, fee, &nc, ctx).is_err());
    let mut nid = proof.clone();
    nid.r_commit = [0u8; 32];
    assert!(verify_balance(&vin, &vout, fee, &nid, ctx).is_err());
}

#[test]
fn shield_and_unshield_value_balance() {
    let mut rng = ChaCha20Rng::seed_from_u64(5);
    let ob = scalar(&mut rng);
    let out = commits(&[10], std::slice::from_ref(&ob));
    let n = scalar(&mut rng);
    let proof = prove_balance_with_delta(
        &[],
        &[],
        &[10],
        std::slice::from_ref(&ob),
        0,
        -10,
        b"shield",
        &n,
    )
    .unwrap();
    assert!(verify_balance_with_delta(&[], &out, 0, -10, &proof, b"shield").is_ok());
    assert!(verify_balance_with_delta(&[], &out, 0, -9, &proof, b"shield").is_err());

    let ib = scalar(&mut rng);
    let inp = commits(&[7], std::slice::from_ref(&ib));
    let n = scalar(&mut rng);
    let p2 = prove_balance_with_delta(
        &[7],
        std::slice::from_ref(&ib),
        &[],
        &[],
        0,
        7,
        b"unshield",
        &n,
    )
    .unwrap();
    assert!(verify_balance_with_delta(&inp, &[], 0, 7, &p2, b"unshield").is_ok());

    assert!(prove_balance_with_delta(
        &[7],
        std::slice::from_ref(&ib),
        &[],
        &[],
        0,
        5,
        b"x",
        &scalar(&mut rng)
    )
    .is_err());
}

#[test]
fn many_inputs_and_outputs_balance() {
    let mut rng = ChaCha20Rng::seed_from_u64(4);
    let iv = [100u64, 50, 25];
    let ov = [60u64, 110];
    let fee = 5u64;
    let ib: Vec<Scalar> = (0..iv.len()).map(|_| scalar(&mut rng)).collect();
    let ob: Vec<Scalar> = (0..ov.len()).map(|_| scalar(&mut rng)).collect();
    let ctx = b"tx-3";
    let proof = prove_balance(&iv, &ib, &ov, &ob, fee, ctx, &scalar(&mut rng)).unwrap();
    assert!(verify_balance(&commits(&iv, &ib), &commits(&ov, &ob), fee, &proof, ctx).is_ok());
}

#[test]
fn balance_proof_bytes_round_trip() {
    let proof = BalanceProof { r_commit: [3; 32], z: [4; 32] };
    let bytes = proof.encode();
    assert_eq!(bytes.len(), 64);
    assert_eq!(BalanceProof::from_bytes(&bytes).unwrap(), proof);
    assert!(BalanceProof::from_bytes(&bytes[1..]).is_err());
}

#[test]
fn blinding_counts_must_match() {
    assert!(prove_balance(&[1], &[], &[1], &[Scalar::one()], 0, b"c", &Scalar::one()).is_err());
}
