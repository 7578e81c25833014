use coincync::curve::{generator, generator_h};
use coincync::group::{RistrettoPoint, Scalar};
use coincync::spark_generators::{gen_gv, gen_k};
use coincync::spark_range::{
    prove_value_range, verify_value_range, BulletproofSparkBridge, CommitmentBridge, KernelBridge,
    RangeTranslator, ShieldedRangeProof, TransparentBridge,
};
use coincync::spark_turnstile::{prove_value_crossing, verify_value_crossing};
use rand::{RngCore, SeedableRng};
use rand_chacha::ChaCha20Rng;

fn entropy(rng: &mut ChaCha20Rng) -> [u8; 64] {
    let mut e = [0u8; 64];
    rng.fill_bytes(&mut e);
    e
}

fn seed(rng: &mut ChaCha20Rng) -> [u8; 32] {
    let mut e = [0u8; 32];
    rng.fill_bytes(&mut e);
    e
}

fn scalar(rng: &mut ChaCha20Rng) -> Scalar {
    Scalar::from_bytes_mod_order_wide(&entropy(rng))
}

fn nonces(rng: &mut ChaCha20Rng) -> [Scalar; 3] {
    [scalar(rng), scalar(rng), scalar(rng)]
}

fn range_of(value: u64, b: &Scalar, rng: &mut ChaCha20Rng) -> ShieldedRangeProof {
    let fresh = entropy(rng);
    let s = seed(rng);
    let n = nonces(rng);
    prove_value_range(value, b, &fresh, s, &n).unwrap()
}

/// The shielded value commitment `value*Gv + b*K`.
fn v_commit(value: u64, b: &Scalar) -> RistrettoPoint {
    gen_gv().mul(&Scalar::from_u64(value)).add(&gen_k().mul(b))
}

/// The transparent commitment `value*H + r*G`.
fn transparent(value: u64, r: &Scalar) -> RistrettoPoint {
    generator_h().mul(&Scalar::from_u64(value)).add(&generator().mul(r))
}

#[test]
fn honest_value_range_binding_verifies() {
    let mut rng = ChaCha20Rng::seed_from_u64(1);
    let value = 1_000_000u64;
    let b = scalar(&mut rng);
    let proof = range_of(value, &b, &mut rng);
    let v = v_commit(value, &b);
    assert!(verify_value_range(&v, &proof).is_ok());
}

#[test]
fn commitment_bridges_span_their_boundaries() {
    let mut rng = ChaCha20Rng::seed_from_u64(77);
    let value = 9_000u64;
    let r_m = scalar(&mut rng);
    let b = scalar(&mut rng);
    let monero_c = transparent(value, &r_m);
    let spark_v = v_commit(value, &b);
    let spark_wrong = v_commit(value + 1, &b);

    let t = TransparentBridge;
    let pt = t.prove(value, &r_m, &b, &nonces(&mut rng));
    assert!(t.verify(&monero_c, &spark_v, &pt).is_ok(), "{}", t.boundary());
    assert!(t.verify(&monero_c, &spark_wrong, &pt).is_err(), "{}", t.boundary());

    let k = KernelBridge;
    let pk = k.prove(value, &r_m, &b, &nonces(&mut rng));
    assert!(k.verify(&monero_c, &spark_v, &pk).is_ok(), "{}", k.boundary());
    assert!(k.verify(&monero_c, &spark_wrong, &pk).is_err(), "{}", k.boundary());
}

#[test]
fn translator_connector_round_trips() {
    let mut rng = ChaCha20Rng::seed_from_u64(9);
    let bridge = BulletproofSparkBridge;
    let value = 500_000u64;
    let b = scalar(&mut rng);
    let fresh = entropy(&mut rng);
    let s = seed(&mut rng);
    let n = nonces(&mut rng);
    let translated = bridge.translate(value, &b, &fresh, s, &n).unwrap();
    assert!(bridge.verify(&v_commit(value, &b), &translated).is_ok());
    let bytes = translated.encode();
    assert!(bridge
        .verify(&v_commit(value, &b), &ShieldedRangeProof::from_bytes(&bytes).unwrap())
        .is_ok());
    assert!(bridge.verify(&v_commit(value + 1, &b), &translated).is_err());
}

#[test]
fn equality_binds_value_to_the_shielded_commitment() {
    let mut rng = ChaCha20Rng::seed_from_u64(2);
    let value = 42u64;
    let b = scalar(&mut rng);
    let proof = range_of(value, &b, &mut rng);

    assert!(verify_value_range(&v_commit(value, &b), &proof).is_ok());
    assert!(verify_value_range(&v_commit(value + 1, &b), &proof).is_err());
    let b2 = scalar(&mut rng);
    assert!(verify_value_range(&v_commit(value, &b2), &proof).is_err());
}

#[test]
fn tampered_range_or_equality_is_rejected() {
    let mut rng = ChaCha20Rng::seed_from_u64(3);
    let value = 7u64;
    let b = scalar(&mut rng);
    let v = v_commit(value, &b);
    let good = range_of(value, &b, &mut rng);
    assert!(verify_value_range(&v, &good).is_ok());

    let mut e = good.eq.clone();
    e.zv = Scalar::from_bytes_mod_order(&e.zv).add(&Scalar::one()).to_bytes();
    let bad_eq = ShieldedRangeProof { c_range: good.c_range, range: good.range.clone(), eq: e };
    assert!(verify_value_range(&v, &bad_eq).is_err());

    let other = range_of(value, &b, &mut rng);
    let mismatched = ShieldedRangeProof {
        c_range: good.c_range,
        range: other.range,
        eq: good.eq.clone(),
    };
    assert!(verify_value_range(&v, &mismatched).is_err());

    let mut nc = good.eq.clone();
    nc.r1 = [0u8; 32];
    let bad_pt = ShieldedRangeProof { c_range: good.c_range, range: good.range, eq: nc };
    assert!(verify_value_range(&v, &bad_pt).is_err());
}

#[test]
fn shield_crossing_conserves_value() {
    let mut rng = ChaCha20Rng::seed_from_u64(1);
    let value = 1_234_567u64;
    let r_t = scalar(&mut rng);
    let b = scalar(&mut rng);
    let proof = prove_value_crossing(value, &r_t, &b, &nonces(&mut rng));

    let t = transparent(value, &r_t);
    let v = v_commit(value, &b);
    assert!(verify_value_crossing(&t, &v, &proof).is_ok());
}

#[test]
fn crossing_rejects_value_mismatch_and_tampering() {
    let mut rng = ChaCha20Rng::seed_from_u64(2);
    let value = 500u64;
    let r_t = scalar(&mut rng);
    let b = scalar(&mut rng);
    let proof = prove_value_crossing(value, &r_t, &b, &nonces(&mut rng));
    let t = transparent(value, &r_t);
    assert!(verify_value_crossing(&t, &v_commit(value, &b), &proof).is_ok());

    assert!(verify_value_crossing(&t, &v_commit(value + 1, &b), &proof).is_err());
    assert!(
        verify_value_crossing(&transparent(value + 1, &r_t), &v_commit(value, &b), &proof).is_err()
    );
}

#[test]
fn shielded_range_bytes_are_checked() {
    assert!(ShieldedRangeProof::from_bytes(&[]).is_err());
    assert!(ShieldedRangeProof::from_bytes(&[0u8; 35]).is_err());
}
