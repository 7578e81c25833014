use coincync::constants::MW_CUTTHROUGH_DEPTH;
use coincync::curve::generator_h;
use coincync::group::{RistrettoPoint, Scalar};
use coincync::mw_cutthrough::{
    build_signed_kernel, compute_kernel_excess, verify_cut_through, verify_kernel_signature,
    CutThroughEngine, MwKernel,
};
use rand::rngs::OsRng;
use rand::RngCore;

fn random_scalar() -> Scalar {
    let mut bytes = [0u8; 64];
    OsRng.fill_bytes(&mut bytes);
    Scalar::from_bytes_mod_order_wide(&bytes)
}

fn random_point() -> [u8; 32] {
    RistrettoPoint::mul_base(&random_scalar()).compress()
}

#[test]
fn verify_cut_through_same_bytes_pass() {
    let p = random_point();
    assert!(verify_cut_through(&p, &p));
}

#[test]
fn verify_cut_through_different_points_fail() {
    let p1 = random_point();
    let p2 = random_point();
    assert!(!verify_cut_through(&p1, &p2));
}

#[test]
fn verify_cut_through_invalid_bytes_fail() {
    let bad = [0xFFu8; 32];
    let good = random_point();
    assert!(!verify_cut_through(&bad, &good));
}

#[test]
fn compute_kernel_excess_zero_when_balanced() {
    let r = random_scalar();
    let excess = compute_kernel_excess(&[r], &[r]);
    let point = RistrettoPoint::decompress(&excess).unwrap();
    assert_eq!(point, RistrettoPoint::identity());
}

#[test]
fn compute_kernel_excess_matches_manual() {
    let r_out = [random_scalar(), random_scalar()];
    let r_in = [random_scalar()];
    let excess_bytes = compute_kernel_excess(&r_out, &r_in);

    let expected_scalar = r_out[0].add(&r_out[1]).sub(&r_in[0]);
    let expected = RistrettoPoint::mul_base(&expected_scalar).compress();

    assert_eq!(excess_bytes, expected);
}

#[test]
fn verify_kernel_set_zero_fee_pass() {
    let kernels = vec![build_signed_kernel(&[], &[], 0, 1), build_signed_kernel(&[], &[], 0, 2)];
    assert!(CutThroughEngine::verify_kernel_set(&kernels).is_ok());
}

#[test]
fn verify_kernel_set_balanced_with_fee_pass() {
    let kernels = vec![build_signed_kernel(&[], &[], 42, 1)];
    assert!(CutThroughEngine::verify_kernel_set(&kernels).is_ok());
}

#[test]
fn verify_kernel_set_unbalanced_fails() {
    let x = random_scalar();
    let kernel = build_signed_kernel(&[x], &[], 0, 1);
    assert!(verify_kernel_signature(&kernel), "sig itself must be valid");
    assert!(CutThroughEngine::verify_kernel_set(&[kernel]).is_err());
}

#[test]
fn verify_kernel_set_rejects_unsigned_kernel() {
    let fee: u64 = 42;
    let kernel = MwKernel {
        excess: generator_h().mul(&Scalar::from_u64(fee)).compress(),
        signature: vec![],
        fee,
        height: 1,
    };
    assert!(CutThroughEngine::verify_kernel_set(&[kernel]).is_err());
}

#[test]
fn verify_kernel_set_rejects_hidden_value_inflation() {
    let h = generator_h();
    let hidden = Scalar::from_u64(5);
    let (fee_a, fee_b) = (10u64, 20u64);

    let excess_a = h.mul(&Scalar::from_u64(fee_a).add(&hidden));
    let excess_b = h.mul(&Scalar::from_u64(fee_b).sub(&hidden));

    let fee_sum = fee_a + fee_b;
    assert_eq!(
        excess_a.add(&excess_b).compress(),
        h.mul(&Scalar::from_u64(fee_sum)).compress(),
        "crafted kernels balance in aggregate"
    );

    let kernels = vec![
        MwKernel { excess: excess_a.compress(), signature: vec![], fee: fee_a, height: 1 },
        MwKernel { excess: excess_b.compress(), signature: vec![], fee: fee_b, height: 2 },
    ];
    assert!(
        CutThroughEngine::verify_kernel_set(&kernels).is_err(),
        "hidden-value inflation MUST be rejected by the excess signature"
    );
}

#[test]
fn sign_verify_kernel_roundtrip() {
    let x = random_scalar();
    let kernel = build_signed_kernel(&[x], &[], 7, 5);
    assert!(verify_kernel_signature(&kernel));

    let mut bad_fee = kernel.clone();
    bad_fee.fee = 8;
    assert!(!verify_kernel_signature(&bad_fee));

    let mut bad_sig = kernel.clone();
    bad_sig.signature[0] ^= 0x01;
    assert!(!verify_kernel_signature(&bad_sig));

    let mut short_sig = kernel.clone();
    short_sig.signature.truncate(63);
    assert!(!verify_kernel_signature(&short_sig));
}

#[test]
fn a_buried_pair_is_cut_and_its_kernel_kept() {
    let mut engine = CutThroughEngine::new();
    let c = random_point();
    engine.register_spend(c, c, 10, 20, build_signed_kernel(&[], &[], 3, 20));
    assert!(engine.process(20).is_empty());
    let deep = 20 + MW_CUTTHROUGH_DEPTH as u64;
    assert!(engine.process(deep - 1).is_empty());
    assert_eq!(engine.process(deep), vec![c, c]);
    assert!(engine.process(deep).is_empty());
    let stats = engine.stats();
    assert_eq!(stats.bytes_saved, 404);
}

#[test]
fn a_pair_that_does_not_match_is_not_cut() {
    let mut engine = CutThroughEngine::new();
    engine.register_spend(
        random_point(),
        random_point(),
        10,
        20,
        build_signed_kernel(&[], &[], 3, 20),
    );
    assert!(engine.process(20 + 2 * MW_CUTTHROUGH_DEPTH as u64).is_empty());
}

#[test]
fn malformed_kernels_do_not_validate() {
    let good = build_signed_kernel(&[random_scalar()], &[], 1, 1);
    let point = good.excess_point().unwrap();
    let valid = good.clone().validate().unwrap();
    assert_eq!(valid.excess_point(), point);
    assert_eq!(valid.as_kernel(), &good);
    assert_eq!(valid.into_kernel(), good);
    let mut bad = good;
    bad.excess = [0xff; 32];
    assert!(bad.validate().is_none());
}

#[test]
fn a_full_counter_is_no_hindrance_where_nothing_is_ripe() {
    let mut engine = CutThroughEngine::new();
    let c = random_point();
    engine.register_spend(c, c, 10, 20, build_signed_kernel(&[], &[], 3, 20));
    engine.bytes_saved = u64::MAX;
    assert!(engine.process(20).is_empty());
    assert_eq!(engine.pending.len(), 1);
    assert_eq!(engine.bytes_saved, u64::MAX);
}

#[test]
fn a_validated_kernel_clones() {
    let valid = build_signed_kernel(&[random_scalar()], &[], 1, 1).validate().unwrap();
    assert_eq!(valid.clone(), valid);
}
